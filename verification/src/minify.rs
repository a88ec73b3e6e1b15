//! The passes that walk the JavaScript code: values, quotes, comments and scopes.
use vstd::prelude::*;

use std::collections::HashMap;

use crate::analysis_object::{name_is_ascii, CodeAnalysisObject, BUFFER_LEN};
use crate::characters;
use crate::code_analysis::{
    bucket_after_use, chain_can_count, chain_counted, chain_find, last_match, name_has_slot,
    positions_after, value_index, EndOfScopeChar, JsScope, NewValueName, PotentialValue,
    PreviousBufferState, Value, ValueView, VALUE_BUCKETS,
};

verus! {

/// The code given as input seems to contain a syntax error.
#[derive(Clone, Copy, PartialEq, Eq, Debug)]
pub struct InvalidSyntaxError;

/// The message shown to the user when the code seems to contain a syntax error.
pub open spec fn syntax_error_message() -> Seq<char> {
    "Code given as an input seems to contain a sytax error.
        Please make sure that the code served as an input is 100% operational.
        If this seems like a mistake, note that this program is currently under development and we would like to get your feedback as soon as possible."@
}

impl InvalidSyntaxError {
    /// The message shown to the user.
    pub fn message(&self) -> (r: String)
        ensures
            r@ == syntax_error_message(),
    {
        String::from_str("Code given as an input seems to contain a sytax error.
        Please make sure that the code served as an input is 100% operational.
        If this seems like a mistake, note that this program is currently under development and we would like to get your feedback as soon as possible.")
    }
}

/// Whether `b` cannot be part of a value name (the bytes around a name that can be renamed).
pub open spec fn is_name_boundary(b: u8) -> bool {
    b <= 47 || (59 <= b <= 64) || (91 <= b <= 96) || (123 <= b <= 127)
}

/// Whether a name between `a` and `b` stands alone, so that it can be renamed.
pub fn value_name_is_valid(a: u8, b: u8) -> (r: bool)
    ensures
        r == (is_name_boundary(a) && is_name_boundary(b)),
{
    if a <= 47 || (59 <= a && a <= 64) || (91 <= a && a <= 96) || (characters::LEFT_CURLY <= a
        && a <= 127) {
        if b <= 47 || (59 <= b && b <= 64) || (91 <= b && b <= 96) || (characters::LEFT_CURLY
            <= b && b <= 127) {
            true
        } else {
            false
        }
    } else {
        false
    }
}

/// Removes the bytes between `last_index` and `i` (both excluded) and moves `i` back
/// to `last_index`; when there are none, moves `last_index` up to `i`.
pub fn drain_values(buf_bytes: &mut Vec<u8>, i: &mut usize, last_index: &mut usize)
    requires
        *old(last_index) < usize::MAX,
        *old(last_index) + 1 <= *old(i),
        *old(last_index) + 1 < *old(i) ==> *old(i) <= old(buf_bytes)@.len(),
    ensures
        if *old(last_index) + 1 != *old(i) {
            &&& final(buf_bytes)@ == old(buf_bytes)@.take(*old(last_index) + 1) + old(
                buf_bytes,
            )@.skip(*old(i) as int)
            &&& *final(i) == *old(last_index)
            &&& *final(last_index) == *old(last_index)
        } else {
            &&& final(buf_bytes)@ == old(buf_bytes)@
            &&& *final(i) == *old(i)
            &&& *final(last_index) == *old(i)
        },
{
    if *last_index + 1 != *i {
        let mut tail = buf_bytes.split_off(*i);
        buf_bytes.truncate(*last_index + 1);
        buf_bytes.append(&mut tail);
        *i = *last_index;
    } else {
        *last_index = *i;
    }
}

/// The code so far becomes the beginning of the current scope (its condition or
/// header), and the scope is closed by `end_scope_char`.
pub fn assign_end_scope_char(
    code_analysis_object: &mut CodeAnalysisObject,
    end_scope_char: EndOfScopeChar,
)
    requires
        old(code_analysis_object).wf(),
    ensures
        final(code_analysis_object).wf(),
        final(code_analysis_object).current_scope.beginning_chars@ == old(
            code_analysis_object,
        ).current_scope.characters@,
        final(code_analysis_object).current_scope.characters@.len() == 0,
        final(code_analysis_object).current_scope.end_scope_char == end_scope_char,
        final(code_analysis_object).previous_buffer_state == PreviousBufferState::Code,
        final(code_analysis_object).character_amounts == old(code_analysis_object).character_amounts,
        final(code_analysis_object).current_scope.values == old(code_analysis_object).current_scope.values,
        final(code_analysis_object).current_scope.parent_scope == old(code_analysis_object).current_scope.parent_scope,
        final(code_analysis_object).current_scope.starting_index == old(code_analysis_object).current_scope.starting_index,
        ({
            let o = *old(code_analysis_object);
            let f = *final(code_analysis_object);
            &&& f.previous_buffer == o.previous_buffer
            &&& f.current_buffer == o.current_buffer
            &&& f.buffer_ref_current == o.buffer_ref_current
            &&& f.going_to_current == o.going_to_current
            &&& f.last_index == o.last_index
            &&& f.i_buffer == o.i_buffer
            &&& f.last_char == o.last_char
            &&& f.current_char_bytes_remaining == o.current_char_bytes_remaining
            &&& f.current_big_char == o.current_big_char
            &&& f.current_scope.two_byte_name_values == o.current_scope.two_byte_name_values
            &&& f.current_scope.used_values == o.current_scope.used_values
            &&& f.current_scope.all_parent_values == o.current_scope.all_parent_values
            &&& f.current_scope.latest_available_one_byte == o.current_scope.latest_available_one_byte
            &&& f.current_scope.children_used_values == o.current_scope.children_used_values
            &&& f.current_scope.inside_of == o.current_scope.inside_of
            &&& f.current_scope.min_value_declarations == o.current_scope.min_value_declarations
            &&& f.current_scope.all_value_declarations == o.current_scope.all_value_declarations
            &&& f.current_scope.semi_column_indexes == o.current_scope.semi_column_indexes
            &&& f.current_scope.is_a_parent == o.current_scope.is_a_parent
            &&& f.current_scope.potential_values_called == o.current_scope.potential_values_called
            &&& f.current_scope.potential_values_declared == o.current_scope.potential_values_declared
            &&& f.current_scope.inside_function == o.current_scope.inside_function
        }),
{
    let mut taken: Vec<u8> = Vec::new();
    std::mem::swap(&mut taken, &mut code_analysis_object.current_scope.characters);
    code_analysis_object.current_scope.beginning_chars = taken;
    code_analysis_object.current_scope.end_scope_char = end_scope_char;
    code_analysis_object.previous_buffer_state = PreviousBufferState::Code;
}

pub fn ajouter(a: i32, b: i32) -> (r: i32)
    requires
        i32::MIN <= a + b <= i32::MAX,
    ensures
        r == a + b,
{
    a + b
}

pub fn multiplier(a: i32, b: i32) -> (r: i32)
    requires
        i32::MIN <= a * b <= i32::MAX,
    ensures
        r == a * b,
{
    a * b
}

pub fn soustraire(a: i32, b: i32) -> (r: i32)
    requires
        i32::MIN <= a - b <= i32::MAX,
    ensures
        r == a - b,
{
    a - b
}

pub fn add(left: u64, right: u64) -> (r: u64)
    requires
        left + right <= u64::MAX,
    ensures
        r == left + right,
{
    left + right
}


// ---------------------------------------------------------------------------
// Renaming two letter names in the output of a scope.

/// Replaces, at `j`, the name `old` by `new` when it stands alone; `None` where the
/// bytes around `j` that the test reads are missing.
pub open spec fn replace_step(c: Seq<u8>, j: int, old: [u8; 2], new: u8) -> Option<Seq<u8>> {
    if !(0 <= j < c.len()) {
        None
    } else if c[j] != old[0] {
        Some(c)
    } else if !(j + 1 < c.len()) {
        None
    } else if c[j + 1] != old[1] {
        Some(c)
    } else if !(1 <= j && j + 2 < c.len()) {
        None
    } else if !(is_name_boundary(c[j - 1]) && is_name_boundary(c[j + 2])) {
        Some(c)
    } else {
        Some(c.remove(j + 1).update(j, new))
    }
}

/// `replace_step` at `j` for each pair of `cv`, in order.
pub open spec fn apply_pairs(c: Seq<u8>, j: int, cv: Seq<([u8; 2], u8)>) -> Option<Seq<u8>>
    decreases cv.len(),
{
    if cv.len() == 0 {
        Some(c)
    } else {
        match apply_pairs(c, j, cv.drop_last()) {
            Some(c2) => replace_step(c2, j, cv.last().0, cv.last().1),
            None => None,
        }
    }
}

pub proof fn lemma_apply_pairs_len(c: Seq<u8>, j: int, cv: Seq<([u8; 2], u8)>)
    ensures
        apply_pairs(c, j, cv) matches Some(c2) ==> c2.len() <= c.len(),
    decreases cv.len(),
{
    if cv.len() > 0 {
        lemma_apply_pairs_len(c, j, cv.drop_last());
    }
}

/// The pairs applied at each position from `j` up to the `}` that closes a `${`
/// inside a template literal; gives the bytes and the position after the `}`.
pub open spec fn template_scan(c: Seq<u8>, j: int, cv: Seq<([u8; 2], u8)>) -> Option<
    (Seq<u8>, int),
>
    decreases c.len() - j,
{
    if !(0 <= j < c.len()) {
        None
    } else if c[j] == characters::RIGHT_CURLY {
        Some((c, j + 1))
    } else {
        match apply_pairs(c, j, cv) {
            Some(c2) => {
                proof {
                    lemma_apply_pairs_len(c, j, cv);
                }
                template_scan(c2, j + 1, cv)
            },
            None => None,
        }
    }
}

/// What `find_value_to_replace` does with the bytes `c`, the quote `q` and the
/// position `j`: the new bytes, quote and position; `None` where it would read
/// past the bytes.
pub open spec fn find_replace_result(c: Seq<u8>, q: u8, j: int, cv: Seq<([u8; 2], u8)>) -> Option<
    (Seq<u8>, u8, int),
> {
    if q == characters::APOSTROPHE || q == characters::DOUBLE_QUOTE {
        if 0 <= j < c.len() {
            Some((
                c,
                if c[j] == q {
                    0
                } else {
                    q
                },
                j,
            ))
        } else {
            None
        }
    } else if q == characters::GRAVE_ACCENT {
        if !(0 <= j < c.len()) {
            None
        } else if c[j] == characters::GRAVE_ACCENT {
            Some((c, 0, j))
        } else if c[j] == characters::DOLLAR_SIGN {
            if !(j + 1 < c.len()) {
                None
            } else if c[j + 1] == characters::LEFT_CURLY {
                match template_scan(c, j + 2, cv) {
                    Some((c2, j2)) => Some((c2, q, j2)),
                    None => None,
                }
            } else {
                Some((c, q, j))
            }
        } else {
            Some((c, q, j))
        }
    } else {
        match apply_pairs(c, j, cv) {
            Some(c2) => Some((c2, q, j)),
            None => None,
        }
    }
}

/// Applies each pair of `changed_values` at `j` in the output of the current scope.
fn replace_pairs_at(
    code_analysis_object: &mut CodeAnalysisObject,
    j: usize,
    changed_values: &Vec<([u8; 2], u8)>,
)
    requires
        old(code_analysis_object).wf(),
        apply_pairs(
            old(code_analysis_object).current_scope.characters@,
            j as int,
            changed_values@,
        ) is Some,
    ensures
        final(code_analysis_object).wf(),
        Some(final(code_analysis_object).current_scope.characters@) == apply_pairs(
            old(code_analysis_object).current_scope.characters@,
            j as int,
            changed_values@,
        ),
        final(code_analysis_object).current_scope.same_but_characters(
            &old(code_analysis_object).current_scope,
        ),
        final(code_analysis_object).same_but_output(&*old(code_analysis_object)),
        final(code_analysis_object).character_amounts == old(code_analysis_object).character_amounts,
{
    let ghost c0 = code_analysis_object.current_scope.characters@;
    let mut k: usize = 0;
    while k < changed_values.len()
        invariant
            code_analysis_object.wf(),
            k <= changed_values@.len(),
            c0 == old(code_analysis_object).current_scope.characters@,
            apply_pairs(c0, j as int, changed_values@) is Some,
            Some(code_analysis_object.current_scope.characters@) == apply_pairs(
                c0,
                j as int,
                changed_values@.take(k as int),
            ),
            code_analysis_object.current_scope.same_but_characters(
                &old(code_analysis_object).current_scope,
            ),
            code_analysis_object.same_but_output(&*old(code_analysis_object)),
            code_analysis_object.character_amounts == old(code_analysis_object).character_amounts,
            code_analysis_object.current_scope.characters@.len() <= c0.len(),
        decreases changed_values@.len() - k,
    {
        proof {
            let t = changed_values@.take(k + 1);
            assert(t.drop_last() =~= changed_values@.take(k as int));
            lemma_apply_pairs_prefix(c0, j as int, changed_values@, k as int + 1);
        }
        let (old_val, new_val) = changed_values[k];
        let chars = &code_analysis_object.current_scope.characters;
        if chars[j] == old_val[0] && chars[j + 1] == old_val[1] && value_name_is_valid(
            chars[j - 1],
            chars[j + 2],
        ) {
            code_analysis_object.current_scope.characters.remove(j + 1);
            code_analysis_object.current_scope.characters[j] = new_val;
        }
        k = k + 1;
    }
    assert(changed_values@.take(changed_values@.len() as int) =~= changed_values@);
}

/// When the pairs succeed, so does each prefix of them.
pub proof fn lemma_apply_pairs_prefix(c: Seq<u8>, j: int, cv: Seq<([u8; 2], u8)>, n: int)
    requires
        0 <= n <= cv.len(),
        apply_pairs(c, j, cv) is Some,
    ensures
        apply_pairs(c, j, cv.take(n)) is Some,
    decreases cv.len(),
{
    if n < cv.len() {
        assert(cv.drop_last() =~= cv.take(cv.len() - 1));
        if n == cv.len() - 1 {
            assert(cv.take(n) =~= cv.drop_last());
        } else {
            lemma_apply_pairs_prefix(c, j, cv.drop_last(), n);
            assert(cv.drop_last().take(n) =~= cv.take(n));
        }
    } else {
        assert(cv.take(n) =~= cv);
    }
}

/// Steps over one byte of the output of the current scope, for the renaming of two
/// letter names: inside quotes it looks for the closing quote; inside a template
/// literal it renames in the `${...}` parts; elsewhere it renames at `j`.
pub fn find_value_to_replace(
    code_analysis_object: &mut CodeAnalysisObject,
    q_char: &mut u8,
    j: &mut usize,
    changed_values: &Vec<([u8; 2], u8)>,
)
    requires
        old(code_analysis_object).wf(),
        find_replace_result(
            old(code_analysis_object).current_scope.characters@,
            *old(q_char),
            *old(j) as int,
            changed_values@,
        ) is Some,
    ensures
        final(code_analysis_object).wf(),
        find_replace_result(
            old(code_analysis_object).current_scope.characters@,
            *old(q_char),
            *old(j) as int,
            changed_values@,
        ) == Some((final(code_analysis_object).current_scope.characters@, *final(q_char), *final(j) as int)),
        final(code_analysis_object).current_scope.same_but_characters(
            &old(code_analysis_object).current_scope,
        ),
        final(code_analysis_object).same_but_output(&*old(code_analysis_object)),
        final(code_analysis_object).character_amounts == old(code_analysis_object).character_amounts,
{
    let mut jdx = *j;
    let mut q_char_dx = *q_char;
    if q_char_dx == characters::APOSTROPHE || q_char_dx == characters::DOUBLE_QUOTE {
        if code_analysis_object.current_scope.characters[jdx] == q_char_dx {
            q_char_dx = 0;
        }
    } else if q_char_dx == characters::GRAVE_ACCENT {
        let c = code_analysis_object.current_scope.characters[jdx];
        if c == characters::GRAVE_ACCENT {
            q_char_dx = 0;
        } else if c == characters::DOLLAR_SIGN && code_analysis_object.current_scope.characters[jdx
            + 1] == characters::LEFT_CURLY {
            jdx = jdx + 2;
            let ghost cv = changed_values@;
            while code_analysis_object.current_scope.characters[jdx] != characters::RIGHT_CURLY
                invariant
                    code_analysis_object.wf(),
                    template_scan(
                        code_analysis_object.current_scope.characters@,
                        jdx as int,
                        cv,
                    ) == template_scan(
                        old(code_analysis_object).current_scope.characters@,
                        *old(j) + 2,
                        cv,
                    ),
                    template_scan(
                        code_analysis_object.current_scope.characters@,
                        jdx as int,
                        cv,
                    ) is Some,
                    cv == changed_values@,
                    code_analysis_object.current_scope.same_but_characters(
                        &old(code_analysis_object).current_scope,
                    ),
                    code_analysis_object.same_but_output(&*old(code_analysis_object)),
                    code_analysis_object.character_amounts == old(
                        code_analysis_object,
                    ).character_amounts,
                decreases code_analysis_object.current_scope.characters@.len() - jdx,
            {
                proof {
                    lemma_apply_pairs_len(code_analysis_object.current_scope.characters@, jdx as int, cv);
                }
                replace_pairs_at(code_analysis_object, jdx, changed_values);
                jdx = jdx + 1;
            }
            jdx = jdx + 1;
        }
    } else {
        replace_pairs_at(code_analysis_object, jdx, changed_values);
    }
    *j = jdx;
    *q_char = q_char_dx;
}


// ---------------------------------------------------------------------------
// Values used in the code.

/// Whether `b` can be part of a value name.
pub open spec fn is_name_byte(b: u8) -> bool {
    !(b <= 47 || (58 <= b <= 64) || b == 91 || b == 93 || b == 94 || (123 <= b <= 128))
}

/// Where the name that goes on at `j` ends in the buffer `b`.
pub open spec fn name_end(b: Seq<u8>, j: int) -> int
    decreases 1024 - j,
{
    if j >= 1024 || j < 0 || !is_name_byte(b[j]) {
        j
    } else {
        name_end(b, j + 1)
    }
}

/// Whether the next byte after `k` that is not a space is `(`.
pub open spec fn next_is_paren(b: Seq<u8>, k: int) -> bool
    decreases 1024 - k,
{
    if k >= 1024 || k < 0 {
        false
    } else if b[k] == characters::SPACE {
        next_is_paren(b, k + 1)
    } else {
        b[k] == characters::LEFT_PARENTHESIS
    }
}

/// `console`, `window`, `document` and `fetch`: names that the code never declares.
pub open spec fn is_known_global(name: Seq<u8>) -> bool {
    name == seq![99u8, 111, 110, 115, 111, 108, 101] || name == seq![119u8, 105, 110, 100, 111, 119]
        || name == seq![100u8, 111, 99, 117, 109, 101, 110, 116] || name == seq![
        102u8,
        101,
        116,
        99,
        104,
    ]
}

/// The key under which `all_values_count` counts the uses of a short name.
pub open spec fn name_key(n: NewValueName) -> u16 {
    match n {
        NewValueName::OneChar(x) => x as u16,
        NewValueName::TwoChar(c) => (256 + (c[0] % 128) * 128 + (c[1] % 128)) as u16,
    }
}

pub fn name_key_of(n: NewValueName) -> (r: u16)
    ensures
        r == name_key(n),
{
    match n {
        NewValueName::OneChar(x) => x as u16,
        NewValueName::TwoChar(c) => 256 + ((c[0] % 128) as u16) * 128 + ((c[1] % 128) as u16),
    }
}

/// Whether a potential value of `pvs` has the name `name`.
pub open spec fn pv_named(pvs: Seq<PotentialValue>, name: Seq<u8>) -> bool {
    exists|k: int| 0 <= k < pvs.len() && pvs[k].name@ == name
}

/// Whether some value of the list has the one letter name `p`.
pub open spec fn list_has_one_char(list: Seq<Seq<ValueView>>, p: u8) -> bool {
    list_prefix_has_one_char(list, list.len() as int, p)
}

/// Whether some value of the first `n` buckets of the list has the one letter name `p`.
pub open spec fn list_prefix_has_one_char(list: Seq<Seq<ValueView>>, n: int, p: u8) -> bool {
    exists|a: int| 0 <= a < n && #[trigger] bucket_has_one_char(list[a], list[a].len() as int, p)
}

/// Whether some of the first `n` values of the bucket has the one letter name `p`.
pub open spec fn bucket_has_one_char(bucket: Seq<ValueView>, n: int, p: u8) -> bool {
    exists|m: int| 0 <= m < n && #[trigger] bucket[m].new_name == NewValueName::OneChar(p)
}

/// Whether some name of `r` between `lo` and `hi` is the one letter name `p`.
pub open spec fn seq_has_one_char(r: Seq<NewValueName>, lo: int, hi: int, p: u8) -> bool {
    exists|q: int| lo <= q < hi && #[trigger] r[q] == NewValueName::OneChar(p)
}

/// The potential value `new` is `old` once the one letter name `n` is blocked for it,
/// when it is called `name`.
pub open spec fn pv_blocked(old: PotentialValue, new: PotentialValue, name: Seq<u8>, n: NewValueName) -> bool {
    &&& new.name@ == old.name@
    &&& new.is_a_function == old.is_a_function
    &&& new.blocked_values.offset == old.blocked_values.offset
    &&& if old.name@ == name && (n matches NewValueName::OneChar(b) && 65 <= b <= 122) {
        let b = n->OneChar_0;
        &&& new.blocked_values.contains(b)
        &&& forall|p: u8|
            old.blocked_values.in_range(p) && p != b ==> new.blocked_values.contains(p)
                == old.blocked_values.contains(p)
    } else {
        new.blocked_values == old.blocked_values
    }
}

/// The one letter names of the values of `list`, as far as a `PotentialValue` can block them.
fn one_char_names(list: &crate::code_analysis::ValueList) -> (r: Vec<NewValueName>)
    requires
        list.wf(),
    ensures
        forall|k: int| 0 <= k < r@.len() ==> (#[trigger] r@[k] matches NewValueName::OneChar(x) && 65 <= x <= 128),
        forall|p: u8| 65 <= p <= 128 ==> (#[trigger] seq_has_one_char(r@, 0, r@.len() as int, p) <==> list_has_one_char(list@, p)),
{
    let mut r: Vec<NewValueName> = Vec::new();
    let mut i: usize = 0;
    while i < VALUE_BUCKETS
        invariant
            list.wf(),
            i <= VALUE_BUCKETS,
            forall|k: int| 0 <= k < r@.len() ==> (#[trigger] r@[k] matches NewValueName::OneChar(x) && 65 <= x <= 128),
            forall|p: u8| 65 <= p <= 128 ==> (#[trigger] seq_has_one_char(r@, 0, r@.len() as int, p) <==> list_prefix_has_one_char(list@, i as int, p)),
        decreases VALUE_BUCKETS - i,
    {
        let mut k: usize = 0;
        let ghost r0 = r@;
        while k < list.0[i].len()
            invariant
                list.wf(),
                i < VALUE_BUCKETS,
                k <= list@[i as int].len(),
                r0.len() <= r@.len(),
                r@.subrange(0, r0.len() as int) == r0,
                forall|q: int| 0 <= q < r@.len() ==> (#[trigger] r@[q] matches NewValueName::OneChar(x) && 65 <= x <= 128),
                forall|p: u8| 65 <= p <= 128 ==> (#[trigger] seq_has_one_char(r@, r0.len() as int, r@.len() as int, p) <==> bucket_has_one_char(list@[i as int], k as int, p)),
            decreases list@[i as int].len() - k,
        {
            assert(list.0@[i as int]@[k as int]@ == list@[i as int][k as int]);
            let n = list.0[i][k].value_new_name;
            let ghost before = r@;
            if let NewValueName::OneChar(x) = n {
                if 65 <= x && x <= 128 {
                    r.push(n);
                }
            }
            proof {
                assert(r@.subrange(0, r0.len() as int) =~= r0) by {
                    assert(before.subrange(0, r0.len() as int) == r0);
                }
                assert forall|p: u8| 65 <= p <= 128 implies (#[trigger] seq_has_one_char(r@, r0.len() as int, r@.len() as int, p) <==> bucket_has_one_char(list@[i as int], k + 1, p)) by {
                    if seq_has_one_char(r@, r0.len() as int, r@.len() as int, p) {
                        let q = choose|q: int| r0.len() <= q < r@.len() && #[trigger] r@[q] == NewValueName::OneChar(p);
                        if q < before.len() {
                            assert(before[q] == r@[q]);
                            assert(seq_has_one_char(before, r0.len() as int, before.len() as int, p));
                            let m = choose|m: int| 0 <= m < k && #[trigger] list@[i as int][m].new_name == NewValueName::OneChar(p);
                            assert(list@[i as int][m].new_name == NewValueName::OneChar(p));
                        } else {
                            assert(list@[i as int][k as int].new_name == NewValueName::OneChar(p));
                        }
                    }
                    if bucket_has_one_char(list@[i as int], k + 1, p) {
                        let m = choose|m: int| 0 <= m < k + 1 && #[trigger] list@[i as int][m].new_name == NewValueName::OneChar(p);
                        if m < k {
                            assert(bucket_has_one_char(list@[i as int], k as int, p));
                            assert(seq_has_one_char(before, r0.len() as int, before.len() as int, p));
                            let q = choose|q: int| r0.len() <= q < before.len() && #[trigger] before[q] == NewValueName::OneChar(p);
                            assert(r@[q] == before[q]);
                        } else {
                            assert(r@[r@.len() - 1] == NewValueName::OneChar(p));
                        }
                    }
                }
            }
            k = k + 1;
        }
        proof {
            assert forall|p: u8| 65 <= p <= 128 implies (#[trigger] seq_has_one_char(r@, 0, r@.len() as int, p) <==> list_prefix_has_one_char(list@, i + 1, p)) by {
                if seq_has_one_char(r@, 0, r@.len() as int, p) {
                    let q = choose|q: int| 0 <= q < r@.len() && #[trigger] r@[q] == NewValueName::OneChar(p);
                    if q < r0.len() {
                        assert(r0[q] == r@[q]);
                        assert(seq_has_one_char(r0, 0, r0.len() as int, p));
                    } else {
                        assert(seq_has_one_char(r@, r0.len() as int, r@.len() as int, p));
                        assert(bucket_has_one_char(list@[i as int], list@[i as int].len() as int, p));
                    }
                }
                if list_prefix_has_one_char(list@, i + 1, p) {
                    let a = choose|a: int| 0 <= a < i + 1 && #[trigger] bucket_has_one_char(list@[a], list@[a].len() as int, p);
                    if a < i {
                        assert(list_prefix_has_one_char(list@, i as int, p));
                        assert(seq_has_one_char(r0, 0, r0.len() as int, p));
                        let q = choose|q: int| 0 <= q < r0.len() && #[trigger] r0[q] == NewValueName::OneChar(p);
                        assert(r@[q] == r0[q]);
                    } else {
                        assert(seq_has_one_char(r@, r0.len() as int, r@.len() as int, p));
                        let q = choose|q: int| r0.len() <= q < r@.len() && #[trigger] r@[q] == NewValueName::OneChar(p);
                    }
                }
            }
        }
        i = i + 1;
    }
    r
}


broadcast use vstd::std_specs::hash::group_hash_axioms;

/// Whether `b` can be part of a value name.
pub fn is_name_byte_exec(b: u8) -> (r: bool)
    ensures
        r == is_name_byte(b),
{
    !(b <= 47 || (58 <= b && b <= 64) || b == 91 || b == 93 || b == 94 || (123 <= b && b <= 128))
}

/// Whether `name` is `console`, `window`, `document` or `fetch`.
fn known_global(name: &[u8]) -> (r: bool)
    ensures
        r == is_known_global(name@),
{
    let console: [u8; 7] = [99, 111, 110, 115, 111, 108, 101];
    let window: [u8; 6] = [119, 105, 110, 100, 111, 119];
    let document: [u8; 8] = [100, 111, 99, 117, 109, 101, 110, 116];
    let fetch: [u8; 5] = [102, 101, 116, 99, 104];
    assert(console@ =~= seq![99u8, 111, 110, 115, 111, 108, 101]);
    assert(window@ =~= seq![119u8, 105, 110, 100, 111, 119]);
    assert(document@ =~= seq![100u8, 111, 99, 117, 109, 101, 110, 116]);
    assert(fetch@ =~= seq![102u8, 101, 116, 99, 104]);
    crate::code_analysis::bytes_equal(name, console.as_slice())
        || crate::code_analysis::bytes_equal(name, window.as_slice())
        || crate::code_analysis::bytes_equal(name, document.as_slice())
        || crate::code_analysis::bytes_equal(name, fetch.as_slice())
}

/// What `find_value` requires of the state for the value it reads to be counted.
pub open spec fn find_value_ready(cao: CodeAnalysisObject, counts: Map<u16, u16>) -> bool {
    let b = cao.buf();
    let i = cao.i_buffer as int;
    let j = name_end(b, i + 1);
    let name = b.subrange(i, j);
    let idx = value_index(name);
    chain_find(cao.current_scope, name) matches Some(v) ==> {
        &&& j < BUFFER_LEN
        &&& name_has_slot(v.new_name)
        &&& name_is_ascii(v.new_name)
        &&& chain_can_count(cao.current_scope, name)
        &&& counts.contains_key(name_key(v.new_name))
        &&& counts[name_key(v.new_name)] < u16::MAX
        &&& last_match(cao.current_scope.used_values@[idx], name.skip(1)) matches Some(k)
            ==> cao.current_scope.used_values@[idx][k].amount_occurences < u16::MAX
    }
}

/// Reads the name that starts at the reading position: where it ends, and its bytes.
fn read_name(code_analysis_object: &CodeAnalysisObject) -> (r: (usize, Vec<u8>))
    requires
        code_analysis_object.wf(),
        code_analysis_object.i_buffer < BUFFER_LEN,
    ensures
        r.0 == name_end(code_analysis_object.buf(), code_analysis_object.i_buffer + 1),
        code_analysis_object.i_buffer < r.0 <= BUFFER_LEN,
        r.1@ == code_analysis_object.buf().subrange(code_analysis_object.i_buffer as int, r.0 as int),
{
    let ghost b = code_analysis_object.buf();
    let idx = code_analysis_object.i_buffer;
    let mut j = idx + 1;
    while j < BUFFER_LEN && is_name_byte_exec(code_analysis_object.get_byte(j))
        invariant
            b == code_analysis_object.buf(),
            idx + 1 <= j <= BUFFER_LEN,
            name_end(b, j as int) == name_end(b, idx + 1),
        decreases BUFFER_LEN - j,
    {
        j = j + 1;
    }
    let mut value_name: Vec<u8> = Vec::new();
    let mut k: usize = idx;
    while k < j
        invariant
            b == code_analysis_object.buf(),
            idx <= k <= j <= BUFFER_LEN,
            value_name@ == b.subrange(idx as int, k as int),
        decreases j - k,
    {
        value_name.push(code_analysis_object.get_byte(k));
        k = k + 1;
        assert(value_name@ =~= b.subrange(idx as int, k as int));
    }
    (j, value_name)
}

/// The name that starts at the reading position.
pub open spec fn name_at(cao: CodeAnalysisObject) -> Seq<u8> {
    let b = cao.buf();
    let i = cao.i_buffer as int;
    b.subrange(i, name_end(b, i + 1))
}

/// The counts once the count of the short name of the value named at the reading
/// position is started (see `start_count`).
pub open spec fn counts_started(cao: CodeAnalysisObject, counts: Map<u16, u16>) -> Map<u16, u16> {
    match chain_find(cao.current_scope, name_at(cao)) {
        Some(v) => if counts.contains_key(name_key(v.new_name)) {
            counts
        } else {
            counts.insert(name_key(v.new_name), 0)
        },
        None => counts,
    }
}

/// Starts the count of uses of the short name of the value named at the reading
/// position: when the value is declared and its short name is not counted yet, its
/// count starts at 0.
pub fn start_count(code_analysis_object: &CodeAnalysisObject, all_values_count: &mut HashMap<u16, u16>)
    requires
        code_analysis_object.wf(),
        code_analysis_object.i_buffer < BUFFER_LEN,
    ensures
        final(all_values_count)@ == counts_started(*code_analysis_object, old(all_values_count)@),
{
    let (_, value_name) = read_name(code_analysis_object);
    match code_analysis_object.current_scope.lookup_in_chain(value_name.as_slice()) {
        Some(v) => {
            let key = name_key_of(v.value_new_name);
            if !all_values_count.contains_key(&key) {
                all_values_count.insert(key, 0);
            }
        },
        None => {},
    }
}

/// Whether `find_value` can read the name at the reading position (see `find_value_ready`).
pub fn find_value_can_run(code_analysis_object: &CodeAnalysisObject, all_values_count: &HashMap<u16, u16>) -> (r: bool)
    requires
        code_analysis_object.wf(),
        code_analysis_object.i_buffer < BUFFER_LEN,
    ensures
        r == find_value_ready(*code_analysis_object, all_values_count@),
{
    let (j, value_name) = read_name(code_analysis_object);
    match code_analysis_object.current_scope.lookup_in_chain(value_name.as_slice()) {
        None => true,
        Some(v) => {
            if j >= BUFFER_LEN {
                return false;
            }
            let n = v.value_new_name;
            let fits = match n {
                NewValueName::OneChar(x) => 65 <= x && x <= 122,
                NewValueName::TwoChar(c) => c[0] < 128 && c[1] < 128,
            };
            if !fits || !code_analysis_object.current_scope.can_count_in_chain(value_name.as_slice()) {
                return false;
            }
            let key = name_key_of(n);
            match all_values_count.get(&key) {
                Some(c) => {
                    if *c >= u16::MAX {
                        return false;
                    }
                },
                None => {
                    return false;
                },
            }
            let index = code_analysis_object.current_scope.get_value_index(value_name.as_slice());
            match code_analysis_object.current_scope.used_values.lookup(value_name.as_slice(), index) {
                Some(u) => u.amount_occurences < u16::MAX,
                None => true,
            }
        },
    }
}

/// Reads the name at the reading position and looks it up in the scopes around.
/// A declared name is written as its short name and its uses are counted; the
/// reading position moves to the name's last byte. A name that is not declared
/// (yet) is kept as a potential value of the scope, with the names in use that it
/// must not get. Tells whether the name is declared.
pub fn find_value(
    code_analysis_object: &mut CodeAnalysisObject,
    all_values_count: &mut HashMap<u16, u16>,
) -> (declared: bool)
    requires
        old(code_analysis_object).wf(),
        old(code_analysis_object).i_buffer < BUFFER_LEN,
        old(code_analysis_object).has_room(3),
        find_value_ready(*old(code_analysis_object), old(all_values_count)@),
    ensures
        final(code_analysis_object).wf(),
        ({
            let o = *old(code_analysis_object);
            let f = *final(code_analysis_object);
            let b = o.buf();
            let i = o.i_buffer as int;
            let j = name_end(b, i + 1);
            let name = b.subrange(i, j);
            let idx = value_index(name);
            &&& declared == chain_find(o.current_scope, name) is Some
            &&& f.previous_buffer == o.previous_buffer
            &&& f.current_buffer == o.current_buffer
            &&& f.buffer_ref_current == o.buffer_ref_current
            &&& f.going_to_current == o.going_to_current
            &&& f.last_index == o.last_index
            &&& f.last_char == o.last_char
            &&& f.current_char_bytes_remaining == o.current_char_bytes_remaining
            &&& f.current_big_char == o.current_big_char
            &&& f.previous_buffer_state == o.previous_buffer_state
            &&& match chain_find(o.current_scope, name) {
                Some(v) => {
                    let n = v.new_name;
                    let written = match n {
                        NewValueName::OneChar(x) => seq![x],
                        NewValueName::TwoChar(c) => seq![c[0], c[1]],
                    };
                    &&& f.i_buffer == j - 1
                    &&& f.current_scope.characters@ == o.current_scope.characters@ + written
                    &&& forall|c: int| 0 <= c < 128 ==> f.character_amounts.one_byte_chars@[c]
                        == o.character_amounts.one_byte_chars@[c]
                        + (if n == NewValueName::OneChar(c as u8) { 1int } else { 0int })
                    &&& f.character_amounts.two_byte_chars == o.character_amounts.two_byte_chars
                    &&& f.character_amounts.three_byte_chars == o.character_amounts.three_byte_chars
                    &&& f.character_amounts.four_byte_chars == o.character_amounts.four_byte_chars
                    &&& final(all_values_count)@ == old(all_values_count)@.insert(
                        name_key(n),
                        (old(all_values_count)@[name_key(n)] + 1) as u16,
                    )
                    &&& chain_counted(
                        o.current_scope,
                        (JsScope {
                            values: f.current_scope.values,
                            parent_scope: f.current_scope.parent_scope,
                            ..o.current_scope
                        }),
                        name,
                    )
                    &&& f.current_scope.potential_values_called@.len()
                        == o.current_scope.potential_values_called@.len()
                    &&& forall|k: int|
                        0 <= k < o.current_scope.potential_values_called@.len() ==> pv_blocked(
                            o.current_scope.potential_values_called@[k],
                            #[trigger] f.current_scope.potential_values_called@[k],
                            name,
                            n,
                        )
                    &&& match last_match(o.current_scope.used_values@[idx], name.skip(1)) {
                        Some(k) => {
                            &&& f.current_scope.used_values@ == o.current_scope.used_values@.update(
                                idx,
                                bucket_after_use(o.current_scope.used_values@[idx], k, o.i_buffer),
                            )
                            &&& f.current_scope.children_used_values == o.current_scope.children_used_values
                        },
                        None => {
                            &&& f.current_scope.used_values@ == o.current_scope.used_values@.update(
                                idx,
                                o.current_scope.used_values@[idx].push(v),
                            )
                            &&& f.current_scope.children_used_values.list@
                                == o.current_scope.children_used_values.list@.update(
                                idx,
                                o.current_scope.children_used_values.list@[idx].push(v),
                            )
                            &&& f.current_scope.children_used_values.new_value_last_position@
                                == positions_after(
                                o.current_scope.children_used_values.new_value_last_position@,
                                n,
                                v.last_usage_index,
                            )
                        },
                    }
                },
                None => {
                    &&& f.i_buffer == o.i_buffer
                    &&& f.character_amounts == o.character_amounts
                    &&& final(all_values_count)@ == old(all_values_count)@
                    &&& f.current_scope.same_but_called(&o.current_scope)
                    &&& if is_known_global(name) || pv_named(o.current_scope.potential_values_called@, name) {
                        f.current_scope.potential_values_called == o.current_scope.potential_values_called
                    } else {
                        let pv = f.current_scope.potential_values_called@.last();
                        &&& f.current_scope.potential_values_called@.drop_last()
                            == o.current_scope.potential_values_called@
                        &&& f.current_scope.potential_values_called@.len()
                            == o.current_scope.potential_values_called@.len() + 1
                        &&& pv.name@ == name
                        &&& pv.is_a_function == next_is_paren(b, j)
                        &&& pv.blocked_values.offset == 65
                        &&& forall|p: u8| 65 <= p <= 128 ==> (pv.blocked_values.contains(p)
                            <==> list_has_one_char(o.current_scope.children_used_values.list@, p))
                    }
                },
            }
        }),
{
    let ghost o = *code_analysis_object;
    let ghost b = code_analysis_object.buf();
    let idx = code_analysis_object.i_buffer;
    let mut j = idx + 1;
    while j < BUFFER_LEN && is_name_byte_exec(code_analysis_object.get_byte(j))
        invariant
            code_analysis_object == old(code_analysis_object),
            b == code_analysis_object.buf(),
            idx + 1 <= j <= BUFFER_LEN,
            name_end(b, j as int) == name_end(b, idx + 1),
        decreases BUFFER_LEN - j,
    {
        j = j + 1;
    }
    let mut value_name: Vec<u8> = Vec::new();
    let mut k: usize = idx;
    while k < j
        invariant
            code_analysis_object == old(code_analysis_object),
            b == code_analysis_object.buf(),
            idx <= k <= j <= BUFFER_LEN,
            value_name@ == b.subrange(idx as int, k as int),
        decreases j - k,
    {
        value_name.push(code_analysis_object.get_byte(k));
        k = k + 1;
        assert(value_name@ =~= b.subrange(idx as int, k as int));
    }
    let ghost name = value_name@;
    let ghost bidx = value_index(name);
    let found = code_analysis_object.current_scope.lookup_in_chain(value_name.as_slice());
    match found {
        Some(value) => {
            let new_name = value.value_new_name;
            code_analysis_object.current_scope.count_in_chain(value_name.as_slice());
            let ghost counted = code_analysis_object.current_scope;
            //Put the value in the blocked values of the potential values
            let mut k: usize = 0;
            let ghost pvs0 = code_analysis_object.current_scope.potential_values_called@;
            while k < code_analysis_object.current_scope.potential_values_called.len()
                invariant
                    code_analysis_object.wf(),
                    code_analysis_object.same_but_scope(&o),
                    code_analysis_object.current_scope.same_but_called(&counted),
                    code_analysis_object.current_scope.potential_values_called@.len() == pvs0.len(),
                    pvs0 == o.current_scope.potential_values_called@,
                    k <= pvs0.len(),
                    forall|m: int| 0 <= m < k ==> pv_blocked(pvs0[m], #[trigger] code_analysis_object.current_scope.potential_values_called@[m], name, new_name),
                    forall|m: int| k <= m < pvs0.len() ==> #[trigger] code_analysis_object.current_scope.potential_values_called@[m] == pvs0[m],
                    name == value_name@,
                decreases pvs0.len() - k,
            {
                if crate::code_analysis::bytes_equal(
                    code_analysis_object.current_scope.potential_values_called[k].name.as_slice(),
                    value_name.as_slice(),
                ) {
                    if let NewValueName::OneChar(byte) = new_name {
                        if 65 <= byte && byte - 65 < 58 {
                            code_analysis_object.current_scope.potential_values_called[k].blocked_values.insert(byte);
                        }
                    }
                }
                k = k + 1;
            }
            let ghost after_pvs = *code_analysis_object;
            let index = code_analysis_object.current_scope.get_value_index(value_name.as_slice());
            let used = code_analysis_object.current_scope.used_values.update(
                value_name.as_slice(),
                idx,
                index,
            );
            if used.is_none() {
                code_analysis_object.current_scope.used_values.insert(value.duplicate(), index);
                code_analysis_object.current_scope.children_used_values.insert(value.duplicate(), index);
            }
            let key = name_key_of(new_name);
            let c = *all_values_count.get(&key).unwrap();
            all_values_count.insert(key, c + 1);
            match new_name {
                NewValueName::OneChar(x) => {
                    code_analysis_object.add_one_byte_char(x);
                },
                NewValueName::TwoChar(x) => {
                    code_analysis_object.current_scope.characters.push(x[0]);
                    code_analysis_object.current_scope.characters.push(x[1]);
                },
            }
            code_analysis_object.i_buffer = j - 1;
            true
        },
        None => {
            let mut called = false;
            let mut k: usize = 0;
            while k < code_analysis_object.current_scope.potential_values_called.len()
                invariant
                    code_analysis_object == old(code_analysis_object),
                    k <= old(code_analysis_object).current_scope.potential_values_called@.len(),
                    called == exists|m: int| 0 <= m < k && (#[trigger] old(code_analysis_object).current_scope.potential_values_called@[m]).name@ == name,
                    name == value_name@,
                decreases old(code_analysis_object).current_scope.potential_values_called@.len() - k,
            {
                if crate::code_analysis::bytes_equal(
                    code_analysis_object.current_scope.potential_values_called[k].name.as_slice(),
                    value_name.as_slice(),
                ) {
                    called = true;
                }
                k = k + 1;
            }
            if !known_global(value_name.as_slice()) && !called {
                let mut m = j;
                let mut is_function = false;
                while m < BUFFER_LEN
                    invariant_except_break
                        !is_function,
                    invariant
                        code_analysis_object == old(code_analysis_object),
                        b == code_analysis_object.buf(),
                        j <= m <= BUFFER_LEN,
                        next_is_paren(b, m as int) == next_is_paren(b, j as int),
                    ensures
                        is_function == next_is_paren(b, j as int),
                    decreases BUFFER_LEN - m,
                {
                    let c = code_analysis_object.get_byte(m);
                    if c == characters::SPACE {
                        m = m + 1;
                    } else {
                        is_function = c == characters::LEFT_PARENTHESIS;
                        break ;
                    }
                }
                let names = one_char_names(&code_analysis_object.current_scope.children_used_values.list);
                let ghost names_seq = names@;
                let pv = PotentialValue::new(value_name, is_function, names);
                proof {
                    assert forall|p: u8| 65 <= p <= 128 implies (pv.blocked_values.contains(p)
                        <==> list_has_one_char(o.current_scope.children_used_values.list@, p)) by {
                        assert(seq_has_one_char(names_seq, 0, names_seq.len() as int, p)
                            <==> list_has_one_char(o.current_scope.children_used_values.list@, p));
                    }
                }
                code_analysis_object.current_scope.potential_values_called.push(pv);
            }
            false
        },
    }
}

} // verus!
