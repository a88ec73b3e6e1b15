//! What happens when a scope of JavaScript code closes: two letter names that
//! are free again become one letter names, the output of the scope goes to the
//! scope around it, and grouped `if`/`else` statements are written out.
use vstd::prelude::*;

use std::collections::HashMap;

use crate::analysis_object::{occurrences, CodeAnalysisObject};
use crate::characters;
use crate::code_analysis::{
    declared_offsets_ok, lemma_declared_offsets_concat, EndOfScopeChar, InsideOf, JsScope, NewValueName,
    Value, ValueList, ValueView, VALUE_BUCKETS,
};
use crate::compression::CharacterAmounts;
use crate::minify::InvalidSyntaxError;

verus! {

// ---------------------------------------------------------------------------
// Renaming two letter names.

/// Whether `b` is neither a letter nor a digit (nor a control or non-ASCII byte).
pub open spec fn is_separator(b: u8) -> bool {
    (32 <= b <= 47) || (58 <= b <= 63) || (91 <= b <= 96) || (123 <= b <= 127)
}

fn is_separator_exec(b: u8) -> (r: bool)
    ensures
        r == is_separator(b),
{
    (32 <= b && b <= 47) || (58 <= b && b <= 63) || (91 <= b && b <= 96) || (123 <= b && b <= 127)
}

/// The one letter name of slot `index` of `new_value_last_position`: `A`..`Z`, then `a`..`z`.
pub open spec fn letter_of_slot(index: int) -> u8 {
    if index < 26 {
        (index + 65) as u8
    } else {
        (index + 71) as u8
    }
}

/// Whether one of the renamings `prev` gives the one letter name `l`.
pub open spec fn letter_taken(prev: Seq<([u8; 2], u8)>, l: u8) -> bool {
    exists|k: int| 0 <= k < prev.len() && #[trigger] prev[k].1 == l
}

/// The first slot, from `n` on, whose one letter name was last used before `decl`
/// and is not given by the renamings `prev`.
pub open spec fn free_slot(prev: Seq<([u8; 2], u8)>, decl: usize, pos: Seq<Option<usize>>, n: int) -> Option<int>
    decreases 52 - n,
{
    if n < 0 || n >= 52 {
        None
    } else if pos[n] is Some && pos[n]->0 < decl && !letter_taken(prev, letter_of_slot(n)) {
        Some(n)
    } else {
        free_slot(prev, decl, pos, n + 1)
    }
}

/// The renamings that closing a scope makes possible: each value with a two letter
/// name, in order, gets the first one letter name whose last use in the child
/// scopes comes before the value's declaration and that no earlier value got.
pub open spec fn changed_pairs(vals: Seq<ValueView>, pos: Seq<Option<usize>>) -> Seq<([u8; 2], u8)>
    decreases vals.len(),
{
    if vals.len() == 0 {
        Seq::empty()
    } else {
        let prev = changed_pairs(vals.drop_last(), pos);
        match vals.last().new_name {
            NewValueName::TwoChar(tc) => match free_slot(prev, vals.last().declaration_index, pos, 0) {
                Some(k) => prev.push((tc, letter_of_slot(k))),
                None => prev,
            },
            NewValueName::OneChar(_) => prev,
        }
    }
}

pub proof fn lemma_free_slot_free(prev: Seq<([u8; 2], u8)>, decl: usize, pos: Seq<Option<usize>>, n: int)
    ensures
        free_slot(prev, decl, pos, n) matches Some(k) ==> 0 <= k < 52 && !letter_taken(
            prev,
            letter_of_slot(k),
        ),
    decreases 52 - n,
{
    if 0 <= n < 52 && !(pos[n] is Some && pos[n]->0 < decl && !letter_taken(prev, letter_of_slot(n))) {
        lemma_free_slot_free(prev, decl, pos, n + 1);
    }
}

/// Closing a scope never gives one one letter name to two values.
pub proof fn lemma_changed_pairs_distinct(vals: Seq<ValueView>, pos: Seq<Option<usize>>)
    ensures
        forall|a: int, b: int|
            0 <= a < b < changed_pairs(vals, pos).len() ==> changed_pairs(vals, pos)[a].1
                != changed_pairs(vals, pos)[b].1,
    decreases vals.len(),
{
    if vals.len() > 0 {
        let prev = changed_pairs(vals.drop_last(), pos);
        lemma_changed_pairs_distinct(vals.drop_last(), pos);
        if let NewValueName::TwoChar(tc) = vals.last().new_name {
            lemma_free_slot_free(prev, vals.last().declaration_index, pos, 0);
            if let Some(k) = free_slot(prev, vals.last().declaration_index, pos, 0) {
                let cp = prev.push((tc, letter_of_slot(k)));
                assert forall|a: int, b: int| 0 <= a < b < cp.len() implies cp[a].1 != cp[b].1 by {
                    if b == prev.len() {
                        assert(prev[a].1 == cp[a].1);
                        if cp[a].1 == cp[b].1 {
                            assert(letter_taken(prev, letter_of_slot(k)));
                        }
                    } else {
                        assert(cp[a] == prev[a] && cp[b] == prev[b]);
                    }
                }
            }
        }
    }
}

/// The renaming `pair` is safe for the values `vals` and the last uses `pos` of the
/// one letter names in the child scopes: a value of `vals` has the two letter name
/// `pair.0`, and the letter `pair.1` was last used (at slot `n`) strictly before
/// that value was declared.
pub open spec fn safe_renaming(vals: Seq<ValueView>, pos: Seq<Option<usize>>, pair: ([u8; 2], u8)) -> bool {
    exists|i: int, n: int|
        #![trigger vals[i], pos[n]]
        0 <= i < vals.len() && vals[i].new_name == NewValueName::TwoChar(pair.0) && 0 <= n < 52
            && letter_of_slot(n) == pair.1 && pos[n] is Some && pos[n]->0 < vals[i].declaration_index
}

/// A slot that the search hands out holds a letter last used strictly before `decl`.
proof fn lemma_free_slot_used_before(prev: Seq<([u8; 2], u8)>, decl: usize, pos: Seq<Option<usize>>, n: int)
    ensures
        free_slot(prev, decl, pos, n) matches Some(k) ==> 0 <= k < 52 && pos[k] is Some && pos[k]->0
            < decl,
    decreases 52 - n,
{
    if n < 0 || n >= 52 {
        assert(free_slot(prev, decl, pos, n) is None);
    } else if pos[n] is Some && pos[n]->0 < decl && !letter_taken(prev, letter_of_slot(n)) {
        assert(free_slot(prev, decl, pos, n) == Some(n));
    } else {
        lemma_free_slot_used_before(prev, decl, pos, n + 1);
        assert(free_slot(prev, decl, pos, n) == free_slot(prev, decl, pos, n + 1));
    }
}

/// Closing a scope renames only safely: every renaming it makes gives a value with a
/// two letter name a one letter name whose last use in the child scopes comes
/// strictly before that value's declaration. A letter used at or after the
/// declaration is never handed out.
pub proof fn law_changed_pairs_are_safe(vals: Seq<ValueView>, pos: Seq<Option<usize>>)
    ensures
        forall|k: int|
            0 <= k < changed_pairs(vals, pos).len() ==> safe_renaming(
                vals,
                pos,
                #[trigger] changed_pairs(vals, pos)[k],
            ),
    decreases vals.len(),
{
    if vals.len() > 0 {
        let rest = vals.drop_last();
        let prev = changed_pairs(rest, pos);
        law_changed_pairs_are_safe(rest, pos);
        assert forall|k: int| 0 <= k < prev.len() implies safe_renaming(vals, pos, #[trigger] prev[k]) by {
            assert(safe_renaming(rest, pos, prev[k]));
            let (i, n) = choose|i: int, n: int|
                #![trigger rest[i], pos[n]]
                0 <= i < rest.len() && rest[i].new_name == NewValueName::TwoChar(prev[k].0) && 0 <= n
                    < 52 && letter_of_slot(n) == prev[k].1 && pos[n] is Some && pos[n]->0
                    < rest[i].declaration_index;
            assert(vals[i] == rest[i]);
        }
        let last = vals[vals.len() - 1];
        assert(vals.last() == last);
        if let NewValueName::TwoChar(tc) = last.new_name {
            lemma_free_slot_used_before(prev, last.declaration_index, pos, 0);
            if let Some(m) = free_slot(prev, last.declaration_index, pos, 0) {
                let cp = prev.push((tc, letter_of_slot(m)));
                assert(changed_pairs(vals, pos) == cp);
                assert forall|k: int| 0 <= k < cp.len() implies safe_renaming(vals, pos, #[trigger] cp[k]) by {
                    if k < prev.len() {
                        assert(cp[k] == prev[k]);
                    } else {
                        assert(vals[vals.len() - 1] == last);
                        assert(pos[m] == pos[m]);
                    }
                }
            } else {
                assert(changed_pairs(vals, pos) == prev);
            }
        } else {
            assert(changed_pairs(vals, pos) == prev);
        }
    }
}

/// When the search finds no slot from `n` on, every slot from `n` on holds a letter
/// used too late or given already.
proof fn lemma_free_slot_none(prev: Seq<([u8; 2], u8)>, decl: usize, pos: Seq<Option<usize>>, n: int)
    requires
        0 <= n,
        free_slot(prev, decl, pos, n) is None,
    ensures
        forall|m: int|
            n <= m < 52 ==> !(pos[m] is Some && pos[m]->0 < decl && !#[trigger] letter_taken(
                prev,
                letter_of_slot(m),
            )),
    decreases 52 - n,
{
    if n < 52 {
        assert(!(pos[n] is Some && pos[n]->0 < decl && !letter_taken(prev, letter_of_slot(n))));
        assert(free_slot(prev, decl, pos, n) == free_slot(prev, decl, pos, n + 1));
        lemma_free_slot_none(prev, decl, pos, n + 1);
    }
}

/// Closing a scope frees what it can: a value with a two letter name that gets no
/// renaming has no letter left that was last used before its declaration, every
/// such letter went to another value.
pub proof fn law_changed_pairs_are_complete(vals: Seq<ValueView>, pos: Seq<Option<usize>>)
    ensures
        forall|i: int, n: int|
            0 <= i < vals.len() && 0 <= n < 52 && (#[trigger] vals[i].new_name) is TwoChar && pos[n]
                is Some && pos[n]->0 < vals[i].declaration_index && !letter_taken(
                changed_pairs(vals, pos),
                #[trigger] letter_of_slot(n),
            ) ==> exists|k: int|
                0 <= k < changed_pairs(vals, pos).len() && NewValueName::TwoChar(
                    (#[trigger] changed_pairs(vals, pos)[k]).0,
                ) == vals[i].new_name,
    decreases vals.len(),
{
    if vals.len() > 0 {
        let rest = vals.drop_last();
        let prev = changed_pairs(rest, pos);
        let r = changed_pairs(vals, pos);
        law_changed_pairs_are_complete(rest, pos);
        let last = vals[vals.len() - 1];
        assert(vals.last() == last);
        assert(r == prev || (r.len() == prev.len() + 1 && r.drop_last() == prev && last.new_name
            == NewValueName::TwoChar(r.last().0))) by {
            if let NewValueName::TwoChar(tc) = last.new_name {
                if let Some(m) = free_slot(prev, last.declaration_index, pos, 0) {
                    assert(r == prev.push((tc, letter_of_slot(m))));
                    assert(prev.push((tc, letter_of_slot(m))).drop_last() =~= prev);
                }
            }
        }
        assert forall|i: int, n: int|
            0 <= i < vals.len() && 0 <= n < 52 && (#[trigger] vals[i].new_name) is TwoChar && pos[n]
                is Some && pos[n]->0 < vals[i].declaration_index && !letter_taken(
                r,
                #[trigger] letter_of_slot(n),
            ) implies exists|k: int|
                0 <= k < r.len() && NewValueName::TwoChar((#[trigger] r[k]).0) == vals[i].new_name by {
            let l = letter_of_slot(n);
            if letter_taken(prev, l) {
                let k = choose|k: int| 0 <= k < prev.len() && #[trigger] prev[k].1 == l;
                if r != prev {
                    assert(r[k] == prev[k]);
                }
                assert(letter_taken(r, l));
            }
            if i < vals.len() - 1 {
                assert(rest[i] == vals[i]);
                assert(rest[i].new_name is TwoChar);
                let k = choose|k: int|
                    0 <= k < prev.len() && NewValueName::TwoChar((#[trigger] prev[k]).0) == rest[i].new_name;
                if r != prev {
                    assert(r[k] == prev[k]);
                }
            } else {
                if r == prev {
                    if let NewValueName::TwoChar(tc) = last.new_name {
                        if free_slot(prev, last.declaration_index, pos, 0) is None {
                            lemma_free_slot_none(prev, last.declaration_index, pos, 0);
                            assert(!letter_taken(prev, letter_of_slot(n)));
                        } else {
                            let m = free_slot(prev, last.declaration_index, pos, 0)->0;
                            assert(r == prev.push((tc, letter_of_slot(m))));
                            assert(r.len() == prev.len() + 1);
                        }
                    }
                } else {
                    assert(r[r.len() - 1] == r.last());
                }
            }
        }
    }
}

/// Whether one of the renamings `r` gives the one letter name `l`.
fn letter_given(r: &Vec<([u8; 2], u8)>, l: u8) -> (b: bool)
    ensures
        b == letter_taken(r@, l),
{
    let mut k: usize = 0;
    while k < r.len()
        invariant
            k <= r@.len(),
            forall|m: int| 0 <= m < k ==> r@[m].1 != l,
        decreases r@.len() - k,
    {
        if r[k].1 == l {
            return true;
        }
        k = k + 1;
    }
    false
}

/// The renamings of the values `vals` (see `changed_pairs`); no one letter name is
/// given twice.
pub fn collect_changed_values(vals: &Vec<Value>, pos: &[Option<usize>; 52]) -> (r: Vec<([u8; 2], u8)>)
    ensures
        r@ == changed_pairs(vals@.map_values(|v: Value| v@), pos@),
        forall|a: int, b: int| 0 <= a < b < r@.len() ==> r@[a].1 != r@[b].1,
        forall|k: int|
            0 <= k < r@.len() ==> safe_renaming(
                vals@.map_values(|v: Value| v@),
                pos@,
                #[trigger] r@[k],
            ),
{
    let ghost views = vals@.map_values(|v: Value| v@);
    let mut r: Vec<([u8; 2], u8)> = Vec::new();
    let mut i: usize = 0;
    while i < vals.len()
        invariant
            i <= vals@.len(),
            views == vals@.map_values(|v: Value| v@),
            r@ == changed_pairs(views.take(i as int), pos@),
        decreases vals@.len() - i,
    {
        assert(views.take(i + 1).drop_last() =~= views.take(i as int));
        assert(views.take(i + 1).last() == vals@[i as int]@);
        if let NewValueName::TwoChar(two_char) = vals[i].value_new_name {
            let decl = vals[i].declaration_index;
            let ghost prev = r@;
            let mut index: usize = 0;
            let mut found: Option<usize> = None;
            while index < 52
                invariant_except_break
                    found is None,
                invariant
                    index <= 52,
                    r@ == prev,
                    free_slot(prev, decl, pos@, 0) == free_slot(prev, decl, pos@, index as int),
                ensures
                    r@ == prev,
                    match found {
                        Some(k) => k < 52 && free_slot(prev, decl, pos@, 0) == Some(k as int),
                        None => free_slot(prev, decl, pos@, 0) is None,
                    },
                decreases 52 - index,
            {
                let usable = match pos[index] {
                    Some(last_usage) => last_usage < decl,
                    None => false,
                };
                let byte: u8 = if index < 26 {
                    (index + 65) as u8
                } else {
                    (index + 71) as u8
                };
                assert(byte == letter_of_slot(index as int));
                if usable && !letter_given(&r, byte) {
                    found = Some(index);
                    break ;
                }
                index = index + 1;
            }
            match found {
                Some(k) => {
                    let byte: u8 = if k < 26 {
                        (k + 65) as u8
                    } else {
                        (k + 71) as u8
                    };
                    r.push((two_char, byte));
                },
                None => {},
            }
        }
        i = i + 1;
    }
    assert(views.take(vals@.len() as int) =~= views);
    proof {
        lemma_changed_pairs_distinct(views, pos@);
        law_changed_pairs_are_safe(views, pos@);
    }
    r
}

/// Whether the renaming `p` applies to the name at `j` of `c`: its two bytes are
/// there, and what follows them ends the name.
pub open spec fn pair_applies(c: Seq<u8>, j: int, p: ([u8; 2], u8)) -> bool {
    &&& 0 <= j
    &&& j + 1 < c.len()
    &&& c[j] == p.0[0]
    &&& c[j + 1] == p.0[1]
    &&& (j + 2 >= c.len() || is_separator(c[j + 2]))
}

/// The new name that the first renaming of `cv` that applies at `j` gives.
pub open spec fn rename_at(c: Seq<u8>, j: int, cv: Seq<([u8; 2], u8)>) -> Option<u8>
    decreases cv.len(),
{
    if cv.len() == 0 {
        None
    } else if pair_applies(c, j, cv[0]) {
        Some(cv[0].1)
    } else {
        rename_at(c, j, cv.skip(1))
    }
}

/// The output from position `j` of `c` on, with the renamings `cv` applied outside
/// quotes; `q` is the quote open (0 for none), `t` counts the nested template
/// literals and `${` blocks (odd: inside the text of a template), and `nv` tells
/// whether a name may start at `j`.
pub open spec fn renamed(c: Seq<u8>, j: int, q: u8, t: nat, nv: bool, cv: Seq<([u8; 2], u8)>) -> Seq<u8>
    decreases c.len() - j,
{
    if j < 0 || j >= c.len() {
        Seq::empty()
    } else {
        let b = c[j];
        if q != 0 {
            seq![b] + renamed(c, j + 1, if b == q { 0 } else { q }, t, nv, cv)
        } else if t % 2 == 1 {
            if b == characters::GRAVE_ACCENT {
                seq![b] + renamed(c, j + 1, 0, (t - 1) as nat, nv, cv)
            } else if b == characters::DOLLAR_SIGN && j + 1 < c.len() && c[j + 1]
                == characters::LEFT_CURLY {
                seq![b] + renamed(c, j + 1, 0, t + 1, true, cv)
            } else {
                seq![b] + renamed(c, j + 1, 0, t, nv, cv)
            }
        } else if b == characters::APOSTROPHE || b == characters::DOUBLE_QUOTE {
            seq![b] + renamed(c, j + 1, b, t, nv, cv)
        } else if b == characters::GRAVE_ACCENT {
            seq![b] + renamed(c, j + 1, 0, t + 1, true, cv)
        } else if b == characters::RIGHT_CURLY && t > 0 {
            seq![b] + renamed(c, j + 1, 0, (t - 1) as nat, true, cv)
        } else if is_separator(b) {
            seq![b] + renamed(c, j + 1, 0, t, true, cv)
        } else if nv && j + 1 < c.len() && rename_at(c, j, cv) is Some {
            seq![rename_at(c, j, cv)->0] + renamed(c, j + 2, 0, t, false, cv)
        } else {
            seq![b] + renamed(c, j + 1, 0, t, false, cv)
        }
    }
}

/// A renaming applies only where two bytes remain.
pub proof fn lemma_rename_at_applies(c: Seq<u8>, j: int, cv: Seq<([u8; 2], u8)>)
    ensures
        rename_at(c, j, cv) is Some ==> 0 <= j && j + 1 < c.len(),
    decreases cv.len(),
{
    if cv.len() > 0 && !pair_applies(c, j, cv[0]) {
        lemma_rename_at_applies(c, j, cv.skip(1));
    }
}

/// Without renamings, the renaming pass gives the characters back unchanged.
pub proof fn lemma_renamed_without_pairs(c: Seq<u8>, j: int, q: u8, t: nat, nv: bool)
    requires
        0 <= j <= c.len(),
    ensures
        renamed(c, j, q, t, nv, Seq::empty()) == c.skip(j),
    decreases c.len() - j,
{
    if j < c.len() {
        let b = c[j];
        assert(rename_at(c, j, Seq::empty()) is None);
        if q != 0 {
            lemma_renamed_without_pairs(c, j + 1, if b == q { 0 } else { q }, t, nv);
        } else if t % 2 == 1 {
            if b == characters::GRAVE_ACCENT {
                lemma_renamed_without_pairs(c, j + 1, 0, (t - 1) as nat, nv);
            } else if b == characters::DOLLAR_SIGN && j + 1 < c.len() && c[j + 1] == characters::LEFT_CURLY {
                lemma_renamed_without_pairs(c, j + 1, 0, t + 1, true);
            } else {
                lemma_renamed_without_pairs(c, j + 1, 0, t, nv);
            }
        } else if b == characters::APOSTROPHE || b == characters::DOUBLE_QUOTE {
            lemma_renamed_without_pairs(c, j + 1, b, t, nv);
        } else if b == characters::GRAVE_ACCENT {
            lemma_renamed_without_pairs(c, j + 1, 0, t + 1, true);
        } else if b == characters::RIGHT_CURLY && t > 0 {
            lemma_renamed_without_pairs(c, j + 1, 0, (t - 1) as nat, true);
        } else if is_separator(b) {
            lemma_renamed_without_pairs(c, j + 1, 0, t, true);
        } else {
            lemma_renamed_without_pairs(c, j + 1, 0, t, false);
        }
        assert(c.skip(j) =~= seq![b] + c.skip(j + 1));
    } else {
        assert(c.skip(j) =~= Seq::<u8>::empty());
    }
}

/// The first renaming of `cv` that applies at `j` of `c`.
fn find_rename(c: &Vec<u8>, j: usize, cv: &Vec<([u8; 2], u8)>) -> (r: Option<u8>)
    requires
        j < c.len(),
    ensures
        r == rename_at(c@, j as int, cv@),
        r is Some ==> j + 1 < c@.len(),
{
    proof {
        lemma_rename_at_applies(c@, j as int, cv@);
    }
    assert(cv@.skip(0) =~= cv@);
    let mut k: usize = 0;
    while k < cv.len()
        invariant
            k <= cv@.len(),
            j < c.len(),
            rename_at(c@, j as int, cv@) == rename_at(c@, j as int, cv@.skip(k as int)),
            rename_at(c@, j as int, cv@) is Some ==> j + 1 < c@.len(),
        decreases cv@.len() - k,
    {
        let p = cv[k];
        let applies = j + 1 < c.len() && c[j] == p.0[0] && c[j + 1] == p.0[1] && (j + 2 >= c.len()
            || is_separator_exec(c[j + 2]));
        assert(cv@.skip(k as int)[0] == p);
        if applies {
            return Some(p.1);
        }
        assert(cv@.skip(k as int).skip(1) =~= cv@.skip(k + 1));
        k = k + 1;
    }
    None
}

/// The characters `c` with the renamings `cv` applied to the names outside quotes.
pub fn rename_values(c: &Vec<u8>, cv: &Vec<([u8; 2], u8)>) -> (r: Vec<u8>)
    ensures
        r@ == renamed(c@, 0, 0, 0, true, cv@),
        r@.len() <= c@.len(),
{
    let mut out: Vec<u8> = Vec::new();
    let mut quote_char: u8 = 0;
    let mut concatenation: usize = 0;
    let mut next_valid = true;
    let mut j: usize = 0;
    let len = c.len();
    while j < len
        invariant
            len == c@.len(),
            j <= len,
            concatenation <= j,
            out@ + renamed(c@, j as int, quote_char, concatenation as nat, next_valid, cv@)
                == renamed(c@, 0, 0, 0, true, cv@),
            out@.len() <= j,
        decreases len - j,
    {
        let byte = c[j];
        let ghost rest = renamed(c@, j as int, quote_char, concatenation as nat, next_valid, cv@);
        if quote_char != 0 {
            if byte == quote_char {
                quote_char = 0;
            }
            out.push(byte);
            j = j + 1;
        } else if concatenation % 2 == 1 {
            if byte == characters::GRAVE_ACCENT {
                concatenation = concatenation - 1;
            } else if byte == characters::DOLLAR_SIGN && j + 1 < len && c[j + 1]
                == characters::LEFT_CURLY {
                concatenation = concatenation + 1;
                next_valid = true;
            }
            out.push(byte);
            j = j + 1;
        } else if byte == characters::APOSTROPHE || byte == characters::DOUBLE_QUOTE {
            quote_char = byte;
            out.push(byte);
            j = j + 1;
        } else if byte == characters::GRAVE_ACCENT {
            concatenation = concatenation + 1;
            next_valid = true;
            out.push(byte);
            j = j + 1;
        } else if byte == characters::RIGHT_CURLY && concatenation > 0 {
            concatenation = concatenation - 1;
            next_valid = true;
            out.push(byte);
            j = j + 1;
        } else if is_separator_exec(byte) {
            next_valid = true;
            out.push(byte);
            j = j + 1;
        } else {
            let found = if next_valid {
                find_rename(c, j, cv)
            } else {
                None
            };
            match found {
                Some(new_name) => {
                    out.push(new_name);
                    j = j + 2;
                },
                None => {
                    out.push(byte);
                    j = j + 1;
                },
            }
            next_valid = false;
        }
        proof {
            let ghost prev = out@.drop_last();
            assert(out@ + renamed(c@, j as int, quote_char, concatenation as nat, next_valid, cv@)
                =~= prev + rest);
        }
    }
    proof {
        assert(renamed(c@, j as int, quote_char, concatenation as nat, next_valid, cv@) =~= Seq::<u8>::empty());
        assert(out@ + Seq::<u8>::empty() =~= out@);
    }
    out
}


// ---------------------------------------------------------------------------
// Grouped `if`/`else` statements.

/// Whether a scope is a branch of an `if`/`else` statement.
pub open spec fn is_if_branch(i: InsideOf) -> bool {
    i is IfStatement || i is IfElseStatement || i is ElseStatement
}

/// The keyword that opens a branch: `if`, `else if` or `else`.
pub open spec fn branch_keyword(i: InsideOf) -> Seq<u8> {
    match i {
        InsideOf::IfStatement => seq![105u8, 102],
        InsideOf::IfElseStatement => seq![101u8, 108, 115, 101, 32, 105, 102],
        _ => seq![101u8, 108, 115, 101],
    }
}

/// Walks the brackets of `c` from `j`: whether a comma stands outside every bracket
/// (`comma` for the part before `j`), or `None` when a bracket closes that was not open.
pub open spec fn comma_scan(c: Seq<u8>, j: int, depth: nat, comma: bool) -> Option<bool>
    decreases c.len() - j,
{
    if j < 0 || j >= c.len() {
        Some(comma)
    } else {
        let b = c[j];
        if b == characters::LEFT_PARENTHESIS || b == characters::LEFT_SQAURE_BRACKET {
            comma_scan(c, j + 1, depth + 1, comma)
        } else if b == characters::RIGHT_PARENTHESIS || b == characters::RIGHT_SQAURE_BRACKET {
            if depth == 0 {
                None
            } else {
                comma_scan(c, j + 1, (depth - 1) as nat, comma)
            }
        } else if b == characters::COMMA {
            comma_scan(c, j + 1, depth, comma || depth == 0)
        } else {
            comma_scan(c, j + 1, depth, comma)
        }
    }
}

/// Whether a branch holds more than one statement, or `None` when its brackets
/// do not match.
pub open spec fn several_statements(s: JsScope) -> Option<bool> {
    if s.semi_column_indexes@.len() > 0 {
        Some(true)
    } else {
        comma_scan(s.characters@, 0, 0, false)
    }
}

/// The characters `c` with a comma at each of the positions `idxs`.
pub open spec fn with_commas(c: Seq<u8>, idxs: Seq<usize>) -> Seq<u8> {
    Seq::new(c.len(), |k: int| if idxs.contains(k as usize) { characters::COMMA } else { c[k] })
}

/// What a branch becomes once its statement is written out: the bytes added to
/// the output, and those of them that are counted.
pub open spec fn render_branch(s: JsScope, curlies: bool, multiple: bool) -> Option<(Seq<u8>, Seq<u8>)> {
    if curlies {
        Some(
            (
                branch_keyword(s.inside_of) + seq![characters::LEFT_PARENTHESIS] + s.beginning_chars@
                    + seq![characters::RIGHT_PARENTHESIS, characters::LEFT_CURLY] + s.characters@
                    + seq![characters::RIGHT_CURLY],
                seq![
                    characters::LEFT_PARENTHESIS,
                    characters::RIGHT_PARENTHESIS,
                    characters::LEFT_CURLY,
                    characters::RIGHT_CURLY,
                ],
            ),
        )
    } else {
        match several_statements(s) {
            None => None,
            Some(ms) => {
                let head: Seq<u8> = if multiple {
                    match s.inside_of {
                        InsideOf::IfStatement => s.beginning_chars@ + seq![63u8],
                        InsideOf::IfElseStatement => seq![58u8] + s.beginning_chars@ + seq![63u8],
                        _ => seq![58u8],
                    }
                } else {
                    s.beginning_chars@ + seq![38u8, 38]
                };
                let head_counted: Seq<u8> = if multiple {
                    match s.inside_of {
                        InsideOf::IfStatement => seq![63u8],
                        InsideOf::IfElseStatement => seq![58u8, 63],
                        _ => seq![58u8],
                    }
                } else {
                    seq![38u8, 38]
                };
                let body = with_commas(s.characters@, s.semi_column_indexes@);
                if ms {
                    Some(
                        (
                            head + seq![characters::LEFT_PARENTHESIS] + body + seq![
                                characters::RIGHT_PARENTHESIS,
                            ],
                            head_counted + seq![
                                characters::LEFT_PARENTHESIS,
                                characters::RIGHT_PARENTHESIS,
                            ],
                        ),
                    )
                } else {
                    Some((head + body, head_counted))
                }
            },
        }
    }
}

/// How each branch of a grouped statement written without curly brackets begins:
/// in a ternary (several branches) the `if` branch is its condition and `?`, an
/// `else if` branch is `:` (standing for `else`), its condition and `?`, and the
/// `else` branch is `:`; a single `if` is its condition and `&&`. The bytes counted
/// begin with the same separators.
pub proof fn law_branch_heads(s: JsScope)
    ensures
        render_branch(s, false, true) matches Some(r) ==> {
            let c = s.beginning_chars@;
            match s.inside_of {
                InsideOf::IfStatement => {
                    &&& r.0.len() >= c.len() + 1
                    &&& r.0.subrange(0, c.len() + 1int) == c + seq![63u8]
                    &&& r.1.len() >= 1 && r.1[0] == 63
                },
                InsideOf::IfElseStatement => {
                    &&& r.0.len() >= c.len() + 2
                    &&& r.0.subrange(0, c.len() + 2int) == seq![58u8] + c + seq![63u8]
                    &&& r.1.len() >= 2 && r.1[0] == 58 && r.1[1] == 63
                },
                _ => {
                    &&& r.0.len() >= 1 && r.0[0] == 58
                    &&& r.1.len() >= 1 && r.1[0] == 58
                },
            }
        },
        render_branch(s, false, false) matches Some(r) ==> {
            let c = s.beginning_chars@;
            &&& r.0.len() >= c.len() + 2
            &&& r.0.subrange(0, c.len() + 2int) == c + seq![38u8, 38]
            &&& r.1.len() >= 2 && r.1[0] == 38 && r.1[1] == 38
        },
{
    let c = s.beginning_chars@;
    if let Some(ms) = several_statements(s) {
        let body = with_commas(s.characters@, s.semi_column_indexes@);
        let heads: Seq<u8> = match s.inside_of {
            InsideOf::IfStatement => c + seq![63u8],
            InsideOf::IfElseStatement => seq![58u8] + c + seq![63u8],
            _ => seq![58u8],
        };
        let tail: Seq<u8> = if ms {
            seq![characters::LEFT_PARENTHESIS] + body + seq![characters::RIGHT_PARENTHESIS]
        } else {
            body
        };
        if let Some(r) = render_branch(s, false, true) {
            assert(r.0 == heads + tail);
            assert(r.0.subrange(0, heads.len() as int) =~= heads);
        }
        let head2 = c + seq![38u8, 38];
        if let Some(r) = render_branch(s, false, false) {
            assert(r.0 == head2 + tail);
            assert(r.0.subrange(0, head2.len() as int) =~= head2);
        }
    }
}

/// The first `n` branches written out one after the other.
pub open spec fn render_branches(list: Seq<JsScope>, n: int, curlies: bool, multiple: bool) -> Option<
    (Seq<u8>, Seq<u8>),
>
    decreases n,
{
    if n <= 0 {
        Some((Seq::empty(), Seq::empty()))
    } else {
        match (render_branches(list, n - 1, curlies, multiple), render_branch(list[n - 1], curlies, multiple)) {
            (Some(a), Some(b)) => Some((a.0 + b.0, a.1 + b.1)),
            _ => None,
        }
    }
}

/// Whether some branch must keep its curly brackets.
pub open spec fn any_curly(list: Seq<JsScope>) -> bool {
    exists|k: int| 0 <= k < list.len() && #[trigger] list[k].end_scope_char == EndOfScopeChar::Curly
}

/// A whole `if`/`else` statement written out: with keywords and curly brackets
/// when a branch needs them, else as `condition?a:b` (several branches) or
/// `condition&&a` (a single `if`).
pub open spec fn upper_if_rendering(list: Seq<JsScope>) -> Option<(Seq<u8>, Seq<u8>)> {
    render_branches(list, list.len() as int, any_curly(list), list.len() > 1)
}

/// Adds `bytes` at the end of `out`.
fn append_bytes(out: &mut Vec<u8>, bytes: &[u8])
    ensures
        final(out)@ == old(out)@ + bytes@,
{
    let mut i: usize = 0;
    while i < bytes.len()
        invariant
            i <= bytes@.len(),
            out@ == old(out)@ + bytes@.take(i as int),
        decreases bytes@.len() - i,
    {
        out.push(bytes[i]);
        i = i + 1;
        assert(out@ =~= old(out)@ + bytes@.take(i as int));
    }
    assert(bytes@.take(bytes@.len() as int) =~= bytes@);
}

/// Whether a comma stands outside every bracket of `c`; an error when a bracket
/// closes that was not open.
fn scan_commas(c: &Vec<u8>) -> (r: Result<bool, InvalidSyntaxError>)
    ensures
        match comma_scan(c@, 0, 0, false) {
            Some(x) => r == Ok::<bool, InvalidSyntaxError>(x),
            None => r is Err,
        },
{
    let mut insides: usize = 0;
    let mut result = false;
    let mut j: usize = 0;
    while j < c.len()
        invariant
            j <= c@.len(),
            insides <= j,
            comma_scan(c@, j as int, insides as nat, result) == comma_scan(c@, 0, 0, false),
        decreases c@.len() - j,
    {
        let b = c[j];
        if b == characters::LEFT_PARENTHESIS || b == characters::LEFT_SQAURE_BRACKET {
            insides = insides + 1;
        } else if b == characters::RIGHT_PARENTHESIS || b == characters::RIGHT_SQAURE_BRACKET {
            if insides == 0 {
                return Err(InvalidSyntaxError);
            }
            insides = insides - 1;
        } else if b == characters::COMMA {
            if insides == 0 {
                result = true;
            }
        }
        j = j + 1;
    }
    Ok(result)
}

/// The characters `c` with a comma at each of the positions `idxs`.
fn put_commas(c: &Vec<u8>, idxs: &Vec<usize>) -> (r: Vec<u8>)
    ensures
        r@ == with_commas(c@, idxs@),
{
    let mut out = c.clone();
    assert(out@ =~= c@);
    let mut i: usize = 0;
    while i < idxs.len()
        invariant
            i <= idxs@.len(),
            out@ == with_commas(c@, idxs@.take(i as int)),
        decreases idxs@.len() - i,
    {
        let index = idxs[i];
        if index < out.len() {
            out.set(index, characters::COMMA);
        }
        proof {
            assert forall|k: int| 0 <= k < c@.len() implies (#[trigger] idxs@.take(i + 1).contains(k as usize)
                <==> idxs@.take(i as int).contains(k as usize) || k as usize == index) by {
                if idxs@.take(i + 1).contains(k as usize) {
                    let m = choose|m: int| 0 <= m < i + 1 && #[trigger] idxs@.take(i + 1)[m] == k as usize;
                    if m < i {
                        assert(idxs@.take(i as int)[m] == k as usize);
                    }
                }
                if idxs@.take(i as int).contains(k as usize) {
                    let m = choose|m: int| 0 <= m < i && #[trigger] idxs@.take(i as int)[m] == k as usize;
                    assert(idxs@.take(i + 1)[m] == k as usize);
                }
                if k as usize == index {
                    assert(idxs@.take(i + 1)[i as int] == index);
                }
            }
            assert(out@ =~= with_commas(c@, idxs@.take(i + 1)));
        }
        i = i + 1;
    }
    assert(idxs@.take(idxs@.len() as int) =~= idxs@);
    out
}

/// Writes out the branches of an `if`/`else` statement (see `upper_if_rendering`):
/// the bytes to add to the output and those of them to count.
pub fn render_upper_if(list: &Vec<JsScope>) -> (r: Result<(Vec<u8>, Vec<u8>), InvalidSyntaxError>)
    requires
        forall|k: int| 0 <= k < list@.len() ==> is_if_branch(#[trigger] list@[k].inside_of),
    ensures
        match upper_if_rendering(list@) {
            Some(x) => r matches Ok(y) && y.0@ == x.0 && y.1@ == x.1,
            None => r is Err,
        },
{
    let mut curlies = false;
    let mut k: usize = 0;
    while k < list.len()
        invariant
            k <= list@.len(),
            curlies == exists|m: int| 0 <= m < k && #[trigger] list@[m].end_scope_char == EndOfScopeChar::Curly,
        decreases list@.len() - k,
    {
        if list[k].end_scope_char == EndOfScopeChar::Curly {
            curlies = true;
        }
        k = k + 1;
    }
    let multiple = list.len() > 1;
    let mut out: Vec<u8> = Vec::new();
    let mut counted: Vec<u8> = Vec::new();
    let mut i: usize = 0;
    while i < list.len()
        invariant
            i <= list@.len(),
            curlies == any_curly(list@),
            multiple == (list@.len() > 1),
            render_branches(list@, i as int, curlies, multiple) == Some((out@, counted@)),
        decreases list@.len() - i,
    {
        let res = render_branch_into(&list[i], curlies, multiple, &mut out, &mut counted);
        if res.is_err() {
            proof {
                lemma_render_none_stays(list@, i as int + 1, list@.len() as int, curlies, multiple);
            }
            return Err(InvalidSyntaxError);
        }
        i = i + 1;
    }
    Ok((out, counted))
}

/// Writes out one branch (see `render_branch`) at the end of `out`, and the bytes
/// to count at the end of `counted`.
fn render_branch_into(
    scope: &JsScope,
    curlies: bool,
    multiple: bool,
    out: &mut Vec<u8>,
    counted: &mut Vec<u8>,
) -> (r: Result<(), InvalidSyntaxError>)
    ensures
        match render_branch(*scope, curlies, multiple) {
            Some(b) => r is Ok && final(out)@ == old(out)@ + b.0 && final(counted)@ == old(counted)@ + b.1,
            None => r is Err,
        },
{
    if curlies {
        match scope.inside_of {
            InsideOf::IfStatement => append_bytes(out, &[105u8, 102]),
            InsideOf::IfElseStatement => append_bytes(out, &[101u8, 108, 115, 101, 32, 105, 102]),
            _ => append_bytes(out, &[101u8, 108, 115, 101]),
        }
        out.push(characters::LEFT_PARENTHESIS);
        append_bytes(out, scope.beginning_chars.as_slice());
        out.push(characters::RIGHT_PARENTHESIS);
        out.push(characters::LEFT_CURLY);
        append_bytes(out, scope.characters.as_slice());
        out.push(characters::RIGHT_CURLY);
        counted.push(characters::LEFT_PARENTHESIS);
        counted.push(characters::RIGHT_PARENTHESIS);
        counted.push(characters::LEFT_CURLY);
        counted.push(characters::RIGHT_CURLY);
        proof {
            let b = render_branch(*scope, curlies, multiple)->0;
            assert(out@ =~= old(out)@ + b.0);
            assert(counted@ =~= old(counted)@ + b.1);
        }
        return Ok(());
    }
    let multiple_statements = if scope.semi_column_indexes.len() > 0 {
        true
    } else {
        match scan_commas(&scope.characters) {
            Ok(x) => x,
            Err(e) => {
                return Err(e);
            },
        }
    };
    let ghost ms = multiple_statements;
    let ghost head_start = out@;
    if multiple {
        match scope.inside_of {
            InsideOf::IfStatement => {
                append_bytes(out, scope.beginning_chars.as_slice());
                out.push(63u8);
                counted.push(63u8);
            },
            InsideOf::IfElseStatement => {
                out.push(58u8);
                append_bytes(out, scope.beginning_chars.as_slice());
                out.push(63u8);
                counted.push(58u8);
                counted.push(63u8);
            },
            _ => {
                out.push(58u8);
                counted.push(58u8);
            },
        }
    } else {
        append_bytes(out, scope.beginning_chars.as_slice());
        out.push(38u8);
        out.push(38u8);
        counted.push(38u8);
        counted.push(38u8);
    }
    let ghost head = out@.skip(head_start.len() as int);
    assert(out@ =~= head_start + head);
    let ghost counted_head = counted@;
    if multiple_statements {
        out.push(characters::LEFT_PARENTHESIS);
        counted.push(characters::LEFT_PARENTHESIS);
    }
    let ghost before_body = out@;
    let body = put_commas(&scope.characters, &scope.semi_column_indexes);
    append_bytes(out, body.as_slice());
    if multiple_statements {
        out.push(characters::RIGHT_PARENTHESIS);
        counted.push(characters::RIGHT_PARENTHESIS);
    }
    proof {
        let b = render_branch(*scope, curlies, multiple)->0;
        assert(several_statements(*scope) == Some(ms));
        assert(out@ =~= old(out)@ + b.0);
        assert(counted@ =~= old(counted)@ + b.1);
    }
    Ok(())
}

/// Once a branch cannot be written out, neither can the statement.
pub proof fn lemma_render_none_stays(list: Seq<JsScope>, n: int, m: int, curlies: bool, multiple: bool)
    requires
        1 <= n <= m,
        render_branch(list[n - 1], curlies, multiple) is None,
    ensures
        render_branches(list, m, curlies, multiple) is None,
    decreases m - n,
{
    if m > n {
        lemma_render_none_stays(list, n, m - 1, curlies, multiple);
    }
}


// ---------------------------------------------------------------------------
// Closing a scope.

/// The number of values in the first `n` buckets of `list`.
pub open spec fn buckets_total(list: Seq<Seq<ValueView>>, n: int) -> int
    decreases n,
{
    if n <= 0 {
        0
    } else {
        buckets_total(list, n - 1) + list[n - 1].len()
    }
}

/// The number of values of `list`, as a `u16` (it wraps around past `u16::MAX`).
pub fn count_values(list: &ValueList) -> (r: u16)
    requires
        list.wf(),
    ensures
        r == buckets_total(list@, VALUE_BUCKETS as int) % 65536,
{
    let mut total: u32 = 0;
    let mut i: usize = 0;
    while i < VALUE_BUCKETS
        invariant
            list.wf(),
            i <= VALUE_BUCKETS,
            total == buckets_total(list@, i as int) % 65536,
        decreases VALUE_BUCKETS - i,
    {
        let len = list.0[i].len();
        proof {
            assert(list@[i as int].len() == len);
            vstd::arithmetic::div_mod::lemma_add_mod_noop(buckets_total(list@, i as int), len as int, 65536);
        }
        total = (total + (len % 65536) as u32) % 65536;
        i = i + 1;
    }
    total as u16
}

/// Counts the one byte characters of `bytes`.
fn count_bytes(amounts: &mut CharacterAmounts, bytes: &Vec<u8>)
    requires
        forall|b: int| 0 <= b < 128 ==> old(amounts).one_byte_chars@[b] + bytes@.len() <= u32::MAX,
    ensures
        forall|b: int| 0 <= b < 128 ==> final(amounts).one_byte_chars@[b] == old(amounts).one_byte_chars@[b]
            + occurrences(bytes@, b as u8),
        final(amounts).two_byte_chars == old(amounts).two_byte_chars,
        final(amounts).three_byte_chars == old(amounts).three_byte_chars,
        final(amounts).four_byte_chars == old(amounts).four_byte_chars,
{
    let mut i: usize = 0;
    while i < bytes.len()
        invariant
            i <= bytes@.len(),
            forall|b: int| 0 <= b < 128 ==> old(amounts).one_byte_chars@[b] + bytes@.len() <= u32::MAX,
            forall|b: int| 0 <= b < 128 ==> amounts.one_byte_chars@[b] == old(amounts).one_byte_chars@[b]
                + occurrences(bytes@.take(i as int), b as u8),
            amounts.two_byte_chars == old(amounts).two_byte_chars,
            amounts.three_byte_chars == old(amounts).three_byte_chars,
            amounts.four_byte_chars == old(amounts).four_byte_chars,
        decreases bytes@.len() - i,
    {
        let byte = bytes[i];
        proof {
            assert(bytes@.take(i + 1).drop_last() =~= bytes@.take(i as int));
            crate::analysis_object::lemma_occurrences_bounded(bytes@.take(i as int), byte);
        }
        if byte < 128 {
            amounts.add_small_char(byte);
        }
        i = i + 1;
    }
    assert(bytes@.take(bytes@.len() as int) =~= bytes@);
}

/// The branches of a grouped `if`/`else` statement are all branches.
pub open spec fn upper_if_branches_ok(s: JsScope) -> bool {
    s.inside_of matches InsideOf::UpperIfStatement(list, _) ==> forall|k: int|
        0 <= k < list@.len() ==> is_if_branch(#[trigger] list@[k].inside_of)
}

/// What writing out the grouped `if`/`else` statement a scope holds gives (nothing
/// for another scope); `None` when it cannot be written out.
pub open spec fn scope_rendering(s: JsScope) -> Option<(Seq<u8>, Seq<u8>)> {
    match s.inside_of {
        InsideOf::UpperIfStatement(list, _) => upper_if_rendering(list@),
        _ => Some((Seq::empty(), Seq::empty())),
    }
}

/// The renamings that closing the scope `s` makes.
pub open spec fn scope_changed_pairs(s: JsScope) -> Seq<([u8; 2], u8)> {
    changed_pairs(
        s.two_byte_name_values@.map_values(|v: Value| v@),
        s.children_used_values.new_value_last_position@,
    )
}

/// The characters of the scope `s` once renamed (its closing curly bracket added first).
pub open spec fn closed_renamed(s: JsScope) -> Seq<u8> {
    renamed(s.characters@.push(characters::RIGHT_CURLY), 0, 0, 0, true, scope_changed_pairs(s))
}

/// The character that ends the scope, if it has one.
pub open spec fn end_char_bytes(e: EndOfScopeChar) -> Seq<u8> {
    match e {
        EndOfScopeChar::Curly => seq![characters::RIGHT_CURLY],
        EndOfScopeChar::Parenthesis => seq![characters::RIGHT_PARENTHESIS],
        _ => Seq::empty(),
    }
}

/// The characters the closed scope `s` hands over to the scope around it.
pub open spec fn closed_characters(s: JsScope) -> Seq<u8> {
    closed_renamed(s) + end_char_bytes(s.end_scope_char) + (scope_rendering(s)->0).0
}

/// How many bytes closing the scope `s` can add and count.
pub open spec fn closing_room(s: JsScope) -> int {
    s.characters@.len() + 2 + s.beginning_chars@.len() as int + match scope_rendering(s) {
        Some(x) => (x.0.len() + x.1.len()) as int,
        None => 0int,
    }
}

/// The declarations that the scope around `s` counts once `s` is closed.
pub open spec fn children_min_declarations(s: JsScope) -> int {
    s.min_value_declarations + if s.inside_of is ForLoop { 1int } else { 0int }
}

/// What closing a scope requires: its grouped `if`/`else` branches are branches and
/// the counts it adds up fit.
pub open spec fn scope_end_ready(o: CodeAnalysisObject) -> bool {
    let s = o.current_scope;
    &&& upper_if_branches_ok(s)
    &&& o.has_room(closing_room(s))
    &&& s.parent_scope matches Some(p) ==> {
        &&& p.position() + closing_room(s) <= usize::MAX
        &&& children_min_declarations(s) <= u16::MAX
        &&& p.min_value_declarations + children_min_declarations(s) <= u16::MAX
        &&& s.all_value_declarations + buckets_total(s.values@, VALUE_BUCKETS as int) % 65536
            <= u16::MAX
    }
}

/// `f` is `o` once its current scope is closed by `scope_end`, which answered `r`.
pub open spec fn scope_closed(o: CodeAnalysisObject, f: CodeAnalysisObject, r: Result<(), InvalidSyntaxError>) -> bool {
    let s = o.current_scope;
    match s.parent_scope {
        None => r is Ok && f.added_chars(&o, seq![characters::RIGHT_CURLY]),
        Some(pb) => match scope_rendering(s) {
            None => r is Err && f.added_chars(&o, seq![characters::RIGHT_CURLY]),
            Some(rendering) => {
                let p = *pb;
                let child_chars = closed_characters(s);
                &&& r is Ok
                &&& forall|b: int|
                    0 <= b < 128 ==> f.character_amounts.one_byte_chars@[b]
                        == o.character_amounts.one_byte_chars@[b] + (if b == characters::RIGHT_CURLY {
                        1int
                    } else {
                        0int
                    }) + occurrences(closed_renamed(s), b as u8) + occurrences(rendering.1, b as u8)
                &&& f.character_amounts.two_byte_chars == o.character_amounts.two_byte_chars
                &&& f.character_amounts.three_byte_chars == o.character_amounts.three_byte_chars
                &&& f.character_amounts.four_byte_chars == o.character_amounts.four_byte_chars
                &&& f.current_scope.values == p.values
                &&& f.current_scope.two_byte_name_values == p.two_byte_name_values
                &&& f.current_scope.used_values == p.used_values
                &&& f.current_scope.all_parent_values == p.all_parent_values
                &&& f.current_scope.parent_scope == p.parent_scope
                &&& f.current_scope.starting_index == p.starting_index
                &&& f.current_scope.latest_available_one_byte == p.latest_available_one_byte
                &&& f.current_scope.children_used_values == s.children_used_values
                &&& f.current_scope.end_scope_char == p.end_scope_char
                &&& f.current_scope.min_value_declarations == p.min_value_declarations
                    + children_min_declarations(s)
                &&& f.current_scope.all_value_declarations == s.all_value_declarations
                    + buckets_total(s.values@, VALUE_BUCKETS as int) % 65536
                &&& f.current_scope.semi_column_indexes == p.semi_column_indexes
                &&& f.current_scope.is_a_parent
                &&& f.current_scope.beginning_chars == p.beginning_chars
                &&& f.current_scope.inside_function == p.inside_function
                &&& f.current_scope.potential_values_called@ == match s.inside_of {
                    InsideOf::Function(_) => p.potential_values_called@,
                    _ => p.potential_values_called@ + s.potential_values_called@,
                }
                &&& f.current_scope.potential_values_declared@ == match s.inside_of {
                    InsideOf::Function(x) => p.potential_values_declared@.push(
                        (x, s.potential_values_called),
                    ),
                    _ => p.potential_values_declared@,
                } + s.potential_values_declared@
                &&& match p.inside_of {
                    InsideOf::UpperIfStatement(list, b) => {
                        &&& f.current_scope.characters == p.characters
                        &&& f.current_scope.inside_of matches InsideOf::UpperIfStatement(l, b2)
                            && b2 == b && l@.len() == list@.len() + 1 && l@.drop_last()
                            =~= list@ && l@.last().characters@ == child_chars
                            && l@.last().beginning_chars == s.beginning_chars
                            && l@.last().end_scope_char == s.end_scope_char
                            && l@.last().inside_of == s.inside_of
                            && l@.last().semi_column_indexes == s.semi_column_indexes
                    },
                    _ => {
                        &&& f.current_scope.inside_of == p.inside_of
                        &&& f.current_scope.characters@ == p.characters@ + s.beginning_chars@
                            + child_chars
                    },
                }
            },
        },
    }
}

/// The potential values that a closed scope hands to its parent keep their letters
/// from `A` on.
proof fn lemma_closed_declared_offsets(p: JsScope, s: JsScope)
    requires
        p.wf(),
        s.wf(),
    ensures
        declared_offsets_ok(
            match s.inside_of {
                InsideOf::Function(x) => p.potential_values_declared@.push((x, s.potential_values_called)),
                _ => p.potential_values_declared@,
            } + s.potential_values_declared@,
        ),
{
    let pd = p.potential_values_declared@;
    let first = match s.inside_of {
        InsideOf::Function(x) => pd.push((x, s.potential_values_called)),
        _ => pd,
    };
    if let InsideOf::Function(x) = s.inside_of {
        let one = seq![(x, s.potential_values_called)];
        assert(declared_offsets_ok(one)) by {
            assert forall|i: int, k: int|
                0 <= i < one.len() && 0 <= k < one[i].1@.len() implies (#[trigger] one[i].1@[k]).blocked_values.offset == 65 by {
                assert(s.potential_values_called@[k] == one[i].1@[k]);
            }
        }
        lemma_declared_offsets_concat(pd, one);
        assert(pd.push((x, s.potential_values_called)) =~= pd + one);
    }
    lemma_declared_offsets_concat(first, s.potential_values_declared@);
}

/// Closes the current scope. Its closing curly bracket is added; then, when it has
/// a parent, the two letter names that are free again become one letter names,
/// its ending character and its grouped `if`/`else` statement are written, its
/// output goes to its parent (or into the parent's grouped statement), and the
/// parent becomes the current scope. An error when a grouped statement has
/// unmatched brackets.
#[verifier::rlimit(40)]
pub fn scope_end(
    code_analysis_object: &mut CodeAnalysisObject,
    all_values_count: &mut HashMap<u16, u16>,
) -> (r: Result<(), InvalidSyntaxError>)
    requires
        old(code_analysis_object).wf(),
        scope_end_ready(*old(code_analysis_object)),
    ensures
        final(code_analysis_object).wf(),
        final(all_values_count)@ == old(all_values_count)@,
        final(code_analysis_object).same_but_output(&*old(code_analysis_object)),
        scope_closed(*old(code_analysis_object), *final(code_analysis_object), r),
{
    let ghost o = *code_analysis_object;
    proof {
        assert(o.has_room(1)) by {
            assert(closing_room(o.current_scope) >= 1);
        }
    }
    let closing: [u8; 1] = [characters::RIGHT_CURLY];
    assert(closing@ =~= seq![characters::RIGHT_CURLY]);
    code_analysis_object.push_chars(closing.as_slice());
    if code_analysis_object.current_scope.parent_scope.is_none() {
        return Ok(());
    }
    let rendering: Option<(Vec<u8>, Vec<u8>)> = match &code_analysis_object.current_scope.inside_of {
        InsideOf::UpperIfStatement(list, _) => match render_upper_if(list) {
            Ok(x) => Some(x),
            Err(e) => {
                return Err(e);
            },
        },
        _ => None,
    };
    proof {
        if rendering is Some {
            assert(scope_rendering(o.current_scope) == Some(((rendering->0).0@, (rendering->0).1@)));
        } else {
            assert(scope_rendering(o.current_scope) == Some((Seq::<u8>::empty(), Seq::<u8>::empty())));
        }
    }
    let ghost closed = code_analysis_object.current_scope;
    let changed_values = collect_changed_values(
        &code_analysis_object.current_scope.two_byte_name_values,
        &code_analysis_object.current_scope.children_used_values.new_value_last_position,
    );
    let new_characters = rename_values(&code_analysis_object.current_scope.characters, &changed_values);
    proof {
        assert(closed.characters@ == o.current_scope.characters@.push(characters::RIGHT_CURLY));
        assert forall|b: int| 0 <= b < 128 implies code_analysis_object.character_amounts.one_byte_chars@[b]
            + new_characters@.len() <= u32::MAX by {
            assert(o.has_room(closing_room(o.current_scope)));
            crate::analysis_object::lemma_occurrences_bounded(seq![characters::RIGHT_CURLY], b as u8);
        }
    }
    let ghost new_characters_seq = new_characters@;
    count_bytes(&mut code_analysis_object.character_amounts, &new_characters);
    code_analysis_object.current_scope.characters = new_characters;
    let mut children_min_value_declaration = code_analysis_object.current_scope.min_value_declarations;
    if let InsideOf::ForLoop = code_analysis_object.current_scope.inside_of {
        children_min_value_declaration = children_min_value_declaration + 1;
    }
    let declared_here = count_values(&code_analysis_object.current_scope.values);
    let all_value_declarations = code_analysis_object.current_scope.all_value_declarations + declared_here;
    match code_analysis_object.current_scope.end_scope_char {
        EndOfScopeChar::Curly => code_analysis_object.current_scope.characters.push(characters::RIGHT_CURLY),
        EndOfScopeChar::Parenthesis => code_analysis_object.current_scope.characters.push(
            characters::RIGHT_PARENTHESIS,
        ),
        _ => {},
    }
    let ghost before_render = *code_analysis_object;
    match rendering {
        Some((out, counted)) => {
            proof {
                assert forall|b: int| 0 <= b < 128 implies code_analysis_object.character_amounts.one_byte_chars@[b]
                    + counted@.len() <= u32::MAX by {
                    crate::analysis_object::lemma_occurrences_bounded(closed_renamed(o.current_scope), b as u8);
                    crate::analysis_object::lemma_occurrences_bounded(seq![characters::RIGHT_CURLY], b as u8);
                    assert(o.has_room(closing_room(o.current_scope)));
                    assert(closed_renamed(o.current_scope) == new_characters@);
                }
            }
            append_bytes(&mut code_analysis_object.current_scope.characters, out.as_slice());
            count_bytes(&mut code_analysis_object.character_amounts, &counted);
        },
        None => {},
    }
    let ghost child_done = code_analysis_object.current_scope;
    let mut slot: Option<Box<JsScope>> = None;
    std::mem::swap(&mut slot, &mut code_analysis_object.current_scope.parent_scope);
    let parent_box = match slot {
        Some(b) => b,
        None => {
            return Ok(());
        },
    };
    let mut child: JsScope = *parent_box;
    std::mem::swap(&mut child, &mut code_analysis_object.current_scope);
    let ghost parent0 = code_analysis_object.current_scope;
    let mut called: Vec<crate::code_analysis::PotentialValue> = Vec::new();
    std::mem::swap(&mut called, &mut child.potential_values_called);
    match child.inside_of {
        InsideOf::Function(x) => code_analysis_object.current_scope.potential_values_declared.push((x, called)),
        _ => code_analysis_object.current_scope.potential_values_called.append(&mut called),
    }
    code_analysis_object.current_scope.potential_values_declared.append(
        &mut child.potential_values_declared,
    );
    let mut children_used_values = crate::code_analysis::ChildValuesList::new();
    std::mem::swap(&mut children_used_values, &mut child.children_used_values);
    let mut parent_inside = InsideOf::Undefined;
    std::mem::swap(&mut parent_inside, &mut code_analysis_object.current_scope.inside_of);
    match parent_inside {
        InsideOf::UpperIfStatement(mut scopes, b) => {
            scopes.push(child);
            code_analysis_object.current_scope.inside_of = InsideOf::UpperIfStatement(scopes, b);
        },
        other => {
            code_analysis_object.current_scope.inside_of = other;
            append_bytes(&mut code_analysis_object.current_scope.characters, child.beginning_chars.as_slice());
            append_bytes(&mut code_analysis_object.current_scope.characters, child.characters.as_slice());
        },
    }
    code_analysis_object.current_scope.min_value_declarations = code_analysis_object.current_scope.min_value_declarations
        + children_min_value_declaration;
    code_analysis_object.current_scope.all_value_declarations = all_value_declarations;
    code_analysis_object.current_scope.is_a_parent = true;
    code_analysis_object.current_scope.children_used_values = children_used_values;
    proof {
        let s = o.current_scope;
        let p = *(s.parent_scope->0);
        assert(child_done.parent_scope == s.parent_scope);
        assert(parent0 == p);
        assert(p.wf_chain());
        assert(child_done.characters@ == closed_characters(s));
        lemma_closed_declared_offsets(p, s);
        assert(code_analysis_object.current_scope.wf());
        let rendering_spec = scope_rendering(s)->0;
        assert forall|b: int| 0 <= b < 128 implies code_analysis_object.character_amounts.one_byte_chars@[b]
            == o.character_amounts.one_byte_chars@[b] + (if b == characters::RIGHT_CURLY { 1int } else { 0int })
            + occurrences(closed_renamed(s), b as u8) + occurrences(rendering_spec.1, b as u8) by {
            assert(seq![characters::RIGHT_CURLY].drop_last() =~= Seq::<u8>::empty());
            assert(occurrences(Seq::<u8>::empty(), b as u8) == 0);
            assert(closed_renamed(s) == new_characters_seq);
        }
    }
    Ok(())
}

/// The output written so far through the chain of open scopes: each scope around
/// comes first, then the opening bytes and the output of the scope inside it.
pub open spec fn chain_text(s: JsScope) -> Seq<u8>
    decreases s,
{
    match s.parent_scope {
        Some(p) => chain_text(*p) + s.beginning_chars@ + s.characters@,
        None => s.beginning_chars@ + s.characters@,
    }
}

/// The whole output written so far, with the scopes still open (see `chain_text`).
pub fn whole_output(scope: &JsScope) -> (r: Vec<u8>)
    ensures
        r@ == chain_text(*scope),
    decreases *scope,
{
    let mut out: Vec<u8> = match &scope.parent_scope {
        Some(p) => whole_output(&**p),
        None => Vec::new(),
    };
    let ghost start = out@;
    append_bytes(&mut out, scope.beginning_chars.as_slice());
    append_bytes(&mut out, scope.characters.as_slice());
    proof {
        if scope.parent_scope is Some {
            let p = scope.parent_scope->0;
            assert(out@ =~= chain_text(*p) + scope.beginning_chars@ + scope.characters@);
        } else {
            assert(out@ =~= scope.beginning_chars@ + scope.characters@);
        }
    }
    out
}

} // verus!
