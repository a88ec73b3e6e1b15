//! Declarations of variables with `let`, `const` and `var`: the keyword is written
//! as it is and the declared name gets a short name in the current scope.
use vstd::prelude::*;

use crate::analysis_object::{
    lemma_declared_name_ascii, name_bytes, name_vec, occurrences, CodeAnalysisObject, BUFFER_LEN,
};
use crate::code_analysis::{declared, some_two_char_free, InsideOf, JsScope, Value};
use crate::minify::{is_name_byte, is_name_byte_exec, name_end};
use crate::quoted::{corresponds, find_if_corresponds};

verus! {

/// The length of the keyword `let`, `const` or `var` that stands at `i` in `b`,
/// followed by a space; 0 when none does.
pub open spec fn keyword_len(b: Seq<u8>, i: int) -> int {
    if b[i] == 108 && corresponds(b, i, seq![101u8, 116, 32]) {
        3
    } else if b[i] == 118 && corresponds(b, i, seq![97u8, 114, 32]) {
        3
    } else if b[i] == 99 && corresponds(b, i, seq![111u8, 110, 115, 116, 32]) {
        5
    } else {
        0
    }
}

/// Where the name declared at the reading position of `o` starts: right after the
/// keyword and its space.
pub open spec fn declared_name_start(o: CodeAnalysisObject) -> int {
    o.i_buffer + keyword_len(o.buf(), o.i_buffer as int) + 1
}

/// The name declared at the reading position of `o`.
pub open spec fn declared_name(o: CodeAnalysisObject) -> Seq<u8> {
    let ns = declared_name_start(o);
    o.buf().subrange(ns, name_end(o.buf(), ns + 1))
}

/// Whether a `var` declared in `s` is known where `s` is: `s` is the outermost scope
/// or a function's scope (a `var` in a block belongs to the function around it, so
/// it is left as it is there).
pub open spec fn var_scope(s: JsScope) -> bool {
    s.parent_scope is None || s.inside_of is Function
}

/// Whether a declaration with `let`, `const` or `var` stands at the reading position
/// of `o` and can be made there: one space follows the keyword, then a name that
/// ends in the buffer being read, there is room for the output, a `var` stands in a
/// scope where it is known (see `var_scope`), and a short name is left for it.
pub open spec fn declaration_ready(o: CodeAnalysisObject) -> bool {
    let b = o.buf();
    let ns = declared_name_start(o);
    &&& keyword_len(b, o.i_buffer as int) > 0
    &&& ns < BUFFER_LEN
    &&& is_name_byte(b[ns])
    &&& !(48 <= b[ns] <= 57)
    &&& b[ns] != 96
    &&& name_end(b, ns + 1) < BUFFER_LEN
    &&& o.has_room(8)
    &&& b[o.i_buffer as int] == 118 ==> var_scope(o.current_scope)
    &&& o.current_scope.skipped_latest(declared_name(o)) == 122 ==> some_two_char_free(
        o.current_scope.two_byte_name_values@,
    )
}

/// `f` is `o` once the declaration at its reading position was made: the keyword and
/// its space are written, the name is declared in the current scope (see `declared`)
/// and its short name is written; all of these bytes are counted, and the reading
/// position moves to the last byte of the name.
pub open spec fn declaration_handled(o: CodeAnalysisObject, f: CodeAnalysisObject) -> bool {
    let b = o.buf();
    let i = o.i_buffer as int;
    let ns = declared_name_start(o);
    let kw = b.subrange(i, ns);
    &&& f.wf()
    &&& f.i_buffer == name_end(b, ns + 1) - 1
    &&& f.previous_buffer == o.previous_buffer
    &&& f.current_buffer == o.current_buffer
    &&& f.buffer_ref_current == o.buffer_ref_current
    &&& f.going_to_current == o.going_to_current
    &&& f.last_index == o.last_index
    &&& f.last_char == o.last_char
    &&& f.previous_buffer_state == o.previous_buffer_state
    &&& f.current_char_bytes_remaining == o.current_char_bytes_remaining
    &&& f.current_big_char == o.current_big_char
    &&& f.character_amounts.two_byte_chars == o.character_amounts.two_byte_chars
    &&& f.character_amounts.three_byte_chars == o.character_amounts.three_byte_chars
    &&& f.character_amounts.four_byte_chars == o.character_amounts.four_byte_chars
    &&& exists|pre: JsScope, mid: JsScope, v: Value|
        #![trigger declared(pre, declared_name(o), mid, v)]
        {
            &&& pre.characters@ == o.current_scope.characters@ + kw
            &&& pre.same_but_characters(&o.current_scope)
            &&& declared(pre, declared_name(o), mid, v)
            &&& f.current_scope.characters@ == mid.characters@ + name_bytes(v.value_new_name)
            &&& f.current_scope.same_but_characters(&mid)
            &&& forall|c: int|
                0 <= c < 128 ==> #[trigger] f.character_amounts.one_byte_chars@[c]
                    == o.character_amounts.one_byte_chars@[c] + occurrences(kw, c as u8)
                    + occurrences(name_bytes(v.value_new_name), c as u8)
        }
}

/// The bytes of a keyword and of its space are one byte characters.
proof fn lemma_keyword_ascii(b: Seq<u8>, i: int, k: int)
    requires
        0 <= i <= k < i + keyword_len(b, i) + 1,
        keyword_len(b, i) > 0,
    ensures
        b[k] < 128,
{
    if k > i {
        let n = keyword_len(b, i);
        let p = if b[i] == 108 && corresponds(b, i, seq![101u8, 116, 32]) {
            seq![101u8, 116, 32]
        } else if b[i] == 118 && corresponds(b, i, seq![97u8, 114, 32]) {
            seq![97u8, 114, 32]
        } else {
            seq![111u8, 110, 115, 116, 32]
        };
        assert(corresponds(b, i, p));
        assert(p.len() == n);
        assert(b.subrange(i + 1, i + 1 + n)[k - i - 1] == b[k]);
        assert(p[k - i - 1] < 128);
    }
}

/// The length of the keyword `let`, `const` or `var` at the reading position,
/// followed by a space; 0 when none stands there.
fn keyword_length(code_analysis_object: &CodeAnalysisObject) -> (r: usize)
    requires
        code_analysis_object.wf(),
        code_analysis_object.i_buffer < BUFFER_LEN,
    ensures
        r == keyword_len(code_analysis_object.buf(), code_analysis_object.i_buffer as int),
{
    let i = code_analysis_object.i_buffer;
    let byte = code_analysis_object.get_char();
    let et: [u8; 3] = [101, 116, 32];
    let ar: [u8; 3] = [97, 114, 32];
    let onst: [u8; 5] = [111, 110, 115, 116, 32];
    assert(et@ =~= seq![101u8, 116, 32]);
    assert(ar@ =~= seq![97u8, 114, 32]);
    assert(onst@ =~= seq![111u8, 110, 115, 116, 32]);
    if byte == 108 && find_if_corresponds(code_analysis_object, i, et.as_slice()) {
        3
    } else if byte == 118 && find_if_corresponds(code_analysis_object, i, ar.as_slice()) {
        3
    } else if byte == 99 && find_if_corresponds(code_analysis_object, i, onst.as_slice()) {
        5
    } else {
        0
    }
}

/// The name that starts at `start` in the buffer being read: where it ends, and its
/// bytes.
fn read_name_at(code_analysis_object: &CodeAnalysisObject, start: usize) -> (r: (usize, Vec<u8>))
    requires
        start < BUFFER_LEN,
    ensures
        r.0 == name_end(code_analysis_object.buf(), start + 1),
        start < r.0 <= BUFFER_LEN,
        r.1@ == code_analysis_object.buf().subrange(start as int, r.0 as int),
{
    let ghost b = code_analysis_object.buf();
    let mut j = start + 1;
    while j < BUFFER_LEN && is_name_byte_exec(code_analysis_object.get_byte(j))
        invariant
            b == code_analysis_object.buf(),
            start + 1 <= j <= BUFFER_LEN,
            name_end(b, j as int) == name_end(b, start + 1),
        decreases BUFFER_LEN - j,
    {
        j = j + 1;
    }
    let mut name: Vec<u8> = Vec::new();
    let mut k: usize = start;
    while k < j
        invariant
            b == code_analysis_object.buf(),
            start <= k <= j <= BUFFER_LEN,
            name@ == b.subrange(start as int, k as int),
        decreases j - k,
    {
        name.push(code_analysis_object.get_byte(k));
        k = k + 1;
        assert(name@ =~= b.subrange(start as int, k as int));
    }
    (j, name)
}

/// Whether `declare_variable` can run: a declaration stands at the reading position
/// and can be made (see `declaration_ready`).
pub fn declaration_can_run(code_analysis_object: &CodeAnalysisObject) -> (r: bool)
    requires
        code_analysis_object.wf(),
        code_analysis_object.i_buffer < BUFFER_LEN,
    ensures
        r == declaration_ready(*code_analysis_object),
{
    let ghost b = code_analysis_object.buf();
    let kl = keyword_length(code_analysis_object);
    if kl == 0 {
        return false;
    }
    let ns = code_analysis_object.i_buffer + kl + 1;
    if ns >= BUFFER_LEN {
        return false;
    }
    let first = code_analysis_object.get_byte(ns);
    if !is_name_byte_exec(first) || (48 <= first && first <= 57) || first == 96 {
        return false;
    }
    let (j, name) = read_name_at(code_analysis_object, ns);
    if j >= BUFFER_LEN {
        return false;
    }
    if !code_analysis_object.room_for(8) {
        return false;
    }
    if code_analysis_object.get_char() == 118 {
        let in_var_scope = code_analysis_object.current_scope.parent_scope.is_none() || match code_analysis_object.current_scope.inside_of {
            InsideOf::Function(_) => true,
            _ => false,
        };
        if !in_var_scope {
            return false;
        }
    }
    code_analysis_object.current_scope.declaration_possible(name.as_slice())
}

/// Makes the declaration with `let`, `const` or `var` at the reading position (see
/// `declaration_handled`).
pub fn declare_variable(code_analysis_object: &mut CodeAnalysisObject)
    requires
        old(code_analysis_object).wf(),
        old(code_analysis_object).i_buffer < BUFFER_LEN,
        declaration_ready(*old(code_analysis_object)),
    ensures
        declaration_handled(*old(code_analysis_object), *final(code_analysis_object)),
{
    let ghost o = *code_analysis_object;
    let ghost b = o.buf();
    let i = code_analysis_object.i_buffer;
    let kl = keyword_length(code_analysis_object);
    let ns = i + kl + 1;
    let (j, name) = read_name_at(code_analysis_object, ns);
    let mut keyword: Vec<u8> = Vec::new();
    let mut k: usize = i;
    while k < ns
        invariant
            b == code_analysis_object.buf(),
            b == o.buf(),
            ns == i + kl + 1,
            i <= k <= ns < BUFFER_LEN,
            ns == declared_name_start(o),
            i == o.i_buffer,
            keyword_len(b, i as int) == kl,
            kl > 0,
            keyword@ == b.subrange(i as int, k as int),
            forall|m: int| 0 <= m < keyword@.len() ==> #[trigger] keyword@[m] < 128,
        decreases ns - k,
    {
        let byte = code_analysis_object.get_byte(k);
        proof {
            lemma_keyword_ascii(b, i as int, k as int);
        }
        keyword.push(byte);
        k = k + 1;
        assert(keyword@ =~= b.subrange(i as int, k as int));
    }
    let ghost kw = keyword@;
    proof {
        assert(forall|m: int| 0 <= m < kw.len() ==> #[trigger] kw[m] < 128);
    }
    code_analysis_object.push_chars(keyword.as_slice());
    let ghost after_kw = *code_analysis_object;
    let ghost pre = code_analysis_object.current_scope;
    assert(name@ == declared_name(o));
    let v = code_analysis_object.current_scope.new_value(name.as_slice());
    let ghost mid = code_analysis_object.current_scope;
    proof {
        lemma_declared_name_ascii(pre, name@, mid, v);
    }
    let written = name_vec(v.value_new_name);
    assert(code_analysis_object.wf());
    assert(code_analysis_object.has_room(2)) by {
        assert(after_kw.has_room(2)) by {
            assert(o.has_room(2 + kw.len() as int));
        }
    }
    let ghost after_decl = *code_analysis_object;
    code_analysis_object.push_chars(written.as_slice());
    code_analysis_object.i_buffer = j - 1;
    proof {
        let f = *code_analysis_object;
        assert(declared(pre, declared_name(o), mid, v));
        assert forall|c: int| 0 <= c < 128 implies #[trigger] f.character_amounts.one_byte_chars@[c]
            == o.character_amounts.one_byte_chars@[c] + occurrences(kw, c as u8) + occurrences(
            name_bytes(v.value_new_name),
            c as u8,
        ) by {
            assert(after_decl.character_amounts == after_kw.character_amounts);
        }
    }
}

} // verus!
