//! Quoted strings and template literals: their text goes to the output as it is,
//! while the code inside the `${ }` of a template literal has its values renamed.
use vstd::prelude::*;

use std::collections::HashMap;

use crate::analysis_object::{byte_fits, CodeAnalysisObject, BUFFER_LEN};
use crate::characters;
use crate::code_analysis::GoingThrough;
use crate::analysis_object::name_bytes;
use crate::code_analysis::chain_find;
use crate::minify::{
    counts_started, find_value, find_value_can_run, find_value_ready, is_name_byte, is_name_byte_exec, name_at,
    name_end, name_key, start_count,
};

verus! {

/// `f` comes from `o` by reading on in the same buffers and adding to the output
/// of the current scope.
pub open spec fn scanned_on(o: CodeAnalysisObject, f: CodeAnalysisObject) -> bool {
    &&& f.previous_buffer == o.previous_buffer
    &&& f.current_buffer == o.current_buffer
    &&& f.buffer_ref_current == o.buffer_ref_current
    &&& f.going_to_current == o.going_to_current
    &&& f.last_index == o.last_index
    &&& f.last_char == o.last_char
    &&& f.previous_buffer_state == o.previous_buffer_state
    &&& o.i_buffer <= f.i_buffer <= BUFFER_LEN
    &&& o.current_scope.characters@.len() <= f.current_scope.characters@.len()
    &&& f.current_scope.characters@.subrange(0, o.current_scope.characters@.len() as int)
        == o.current_scope.characters@
}

pub proof fn lemma_scanned_on_trans(a: CodeAnalysisObject, b: CodeAnalysisObject, c: CodeAnalysisObject)
    requires
        scanned_on(a, b),
        scanned_on(b, c),
    ensures
        scanned_on(a, c),
{
    let la = a.current_scope.characters@.len() as int;
    assert(c.current_scope.characters@.subrange(0, la) =~= c.current_scope.characters@.subrange(
        0,
        b.current_scope.characters@.len() as int,
    ).subrange(0, la));
}

pub proof fn lemma_scanned_on_refl(o: CodeAnalysisObject)
    requires
        o.wf(),
    ensures
        scanned_on(o, o),
{
    assert(o.current_scope.characters@.subrange(0, o.current_scope.characters@.len() as int)
        =~= o.current_scope.characters@);
}

/// A name ends at or after where it starts, within the buffer.
pub proof fn lemma_name_end_bounds(b: Seq<u8>, j: int)
    requires
        0 <= j <= BUFFER_LEN,
    ensures
        j <= crate::minify::name_end(b, j) <= BUFFER_LEN,
    decreases BUFFER_LEN - j,
{
    if j < BUFFER_LEN && crate::minify::is_name_byte(b[j]) {
        lemma_name_end_bounds(b, j + 1);
    }
}

/// Whether the bytes right after `i` in `b` are `pattern`.
pub open spec fn corresponds(b: Seq<u8>, i: int, pattern: Seq<u8>) -> bool {
    &&& i + 1 + pattern.len() <= b.len()
    &&& b.subrange(i + 1, i + 1 + pattern.len() as int) == pattern
}

/// Whether the bytes right after `i` in the buffer being read are `pattern`.
pub fn find_if_corresponds(code_analysis_object: &CodeAnalysisObject, i: usize, pattern: &[u8]) -> (r: bool)
    requires
        i < BUFFER_LEN,
    ensures
        r == corresponds(code_analysis_object.buf(), i as int, pattern@),
{
    let ghost b = code_analysis_object.buf();
    if pattern.len() > BUFFER_LEN - 1 - i {
        return false;
    }
    let mut k: usize = 0;
    while k < pattern.len()
        invariant
            k <= pattern@.len(),
            i + 1 + pattern@.len() <= BUFFER_LEN,
            b == code_analysis_object.buf(),
            b.subrange(i + 1, i + 1 + k) == pattern@.take(k as int),
        decreases pattern@.len() - k,
    {
        if code_analysis_object.get_byte(i + 1 + k) != pattern[k] {
            assert(b.subrange(i + 1, i + 1 + pattern@.len())[k as int] != pattern@[k as int]);
            return false;
        }
        k = k + 1;
        assert(b.subrange(i + 1, i + 1 + k) =~= pattern@.take(k as int));
    }
    assert(pattern@.take(pattern@.len() as int) =~= pattern@);
    true
}

/// Copies the name that starts at the reading position to the output as it is (see
/// `add_byte`); the reading position moves to its last byte. Stops early when the
/// output has no room left.
pub fn copy_name(code_analysis_object: &mut CodeAnalysisObject)
    requires
        old(code_analysis_object).wf(),
        old(code_analysis_object).i_buffer < BUFFER_LEN,
    ensures
        final(code_analysis_object).wf(),
        scanned_on(*old(code_analysis_object), *final(code_analysis_object)),
        final(code_analysis_object).i_buffer < BUFFER_LEN,
        final(code_analysis_object).i_buffer < crate::minify::name_end(
            old(code_analysis_object).buf(),
            old(code_analysis_object).i_buffer + 1,
        ),
        old(code_analysis_object).has_room(BUFFER_LEN as int) ==> final(code_analysis_object).i_buffer + 1
            == crate::minify::name_end(old(code_analysis_object).buf(), old(code_analysis_object).i_buffer + 1),
        old(code_analysis_object).has_room(1) && (forall|k: int|
            old(code_analysis_object).i_buffer <= k <= final(code_analysis_object).i_buffer
                ==> #[trigger] old(code_analysis_object).buf()[k] < 128)
            ==> final(code_analysis_object).current_scope.characters@ == old(
            code_analysis_object,
        ).current_scope.characters@ + old(code_analysis_object).buf().subrange(
            old(code_analysis_object).i_buffer as int,
            final(code_analysis_object).i_buffer + 1,
        ),
{
    let ghost o = *code_analysis_object;
    let ghost b = o.buf();
    let ghost end = crate::minify::name_end(b, o.i_buffer + 1);
    proof {
        lemma_scanned_on_refl(o);
        lemma_name_end_bounds(b, o.i_buffer + 1);
    }
    if !code_analysis_object.room_for(1) {
        return ;
    }
    assert(b.subrange(o.i_buffer as int, o.i_buffer as int) =~= Seq::<u8>::empty());
    assert(o.current_scope.characters@ + Seq::<u8>::empty() =~= o.current_scope.characters@);
    loop
        invariant_except_break
            code_analysis_object.has_room(1),
            o.has_room(BUFFER_LEN as int) ==> code_analysis_object.has_room(
                BUFFER_LEN - (code_analysis_object.i_buffer - o.i_buffer),
            ),
            (forall|k: int| o.i_buffer <= k < code_analysis_object.i_buffer ==> #[trigger] b[k] < 128)
                ==> code_analysis_object.current_scope.characters@ == o.current_scope.characters@
                + b.subrange(o.i_buffer as int, code_analysis_object.i_buffer as int),
        invariant
            code_analysis_object.wf(),
            scanned_on(o, *code_analysis_object),
            code_analysis_object.buf() == b,
            o.i_buffer <= code_analysis_object.i_buffer < end <= BUFFER_LEN,
            crate::minify::name_end(b, code_analysis_object.i_buffer + 1) == end,
            o.has_room(1),
        ensures
            code_analysis_object.wf(),
            scanned_on(o, *code_analysis_object),
            code_analysis_object.i_buffer < end,
            o.has_room(BUFFER_LEN as int) ==> code_analysis_object.i_buffer + 1 == end,
            (forall|k: int| o.i_buffer <= k <= code_analysis_object.i_buffer ==> #[trigger] b[k] < 128)
                ==> code_analysis_object.current_scope.characters@ == o.current_scope.characters@
                + b.subrange(o.i_buffer as int, code_analysis_object.i_buffer + 1),
        decreases BUFFER_LEN - code_analysis_object.i_buffer,
    {
        let ghost before = *code_analysis_object;
        let byte = code_analysis_object.get_char();
        code_analysis_object.add_byte(byte);
        proof {
            let i = before.i_buffer as int;
            if forall|k: int| o.i_buffer <= k <= i ==> #[trigger] b[k] < 128 {
                assert(b[i] < 128);
                assert(forall|k: int| o.i_buffer <= k < i ==> #[trigger] b[k] < 128);
                assert(b.subrange(o.i_buffer as int, i + 1) =~= b.subrange(o.i_buffer as int, i).push(b[i]));
            }
        }
        proof {
            let f = *code_analysis_object;
            assert(f.current_scope.characters@.subrange(0, before.current_scope.characters@.len() as int)
                =~= before.current_scope.characters@);
            lemma_scanned_on_trans(o, before, f);
        }
        let next = code_analysis_object.i_buffer + 1;
        if next >= BUFFER_LEN || !is_name_byte_exec(code_analysis_object.get_byte(next))
            || !code_analysis_object.room_for(1) {
            proof {
                if next < BUFFER_LEN && crate::minify::is_name_byte(b[next as int]) && o.has_room(BUFFER_LEN as int) {
                    assert(before.has_room(BUFFER_LEN - (before.i_buffer - o.i_buffer)));
                    assert(code_analysis_object.has_room(BUFFER_LEN - (before.i_buffer - o.i_buffer) - 1));
                    assert(code_analysis_object.has_room(1));
                }
            }
            break ;
        }
        let ghost mid = *code_analysis_object;
        code_analysis_object.i_buffer = next;
        proof {
            let f = *code_analysis_object;
            assert(crate::minify::name_end(b, next as int) == crate::minify::name_end(b, next + 1));
            lemma_name_end_bounds(b, next + 1);
            assert(f.current_scope.characters@.subrange(0, mid.current_scope.characters@.len() as int)
                =~= mid.current_scope.characters@);
            lemma_scanned_on_trans(o, mid, f);
        }
    }
}

/// `f` (with the counts `c1`) is `o` (with the counts `c0`) once the name at the
/// reading position was read as code: a name with a declared value in the chain of
/// scopes is written as that value's short name and its use is counted; another
/// name is copied as it is (see `copy_name`).
pub open spec fn name_read(o: CodeAnalysisObject, f: CodeAnalysisObject, c0: Map<u16, u16>, c1: Map<u16, u16>) -> bool {
    let counts = counts_started(o, c0);
    let j = name_end(o.buf(), o.i_buffer + 1);
    let found = chain_find(o.current_scope, name_at(o));
    if found is Some && find_value_ready(o, counts) {
        let n = found->0.new_name;
        &&& f.current_scope.characters@ == o.current_scope.characters@ + name_bytes(n)
        &&& f.i_buffer == j - 1
        &&& c1 == counts.insert(
            name_key(n),
            (counts[name_key(n)] + 1) as u16,
        )
    } else {
        &&& c1 == counts
        &&& o.i_buffer <= f.i_buffer < j
        &&& o.current_scope.characters@.len() <= f.current_scope.characters@.len()
        &&& f.current_scope.characters@.subrange(
            0,
            o.current_scope.characters@.len() as int,
        ) == o.current_scope.characters@
        &&& o.has_room(BUFFER_LEN as int) ==> f.i_buffer + 1 == j
        &&& o.has_room(1) && (forall|k: int| o.i_buffer <= k <= f.i_buffer ==> #[trigger] o.buf()[k] < 128)
            ==> f.current_scope.characters@ == o.current_scope.characters@ + o.buf().subrange(
            o.i_buffer as int,
            f.i_buffer + 1,
        )
    }
}

/// `f` (quote `q1`, counts `c1`) is `o` (quote `q0`, counts `c0`) once
/// `find_quote_chars` handled the byte at the reading position. The code inside the
/// `${ }` of a template literal is read as code (see `look_for_values_js`) up to its
/// closing `}`, the end of the buffer, or the end of the room for output.
pub open spec fn quote_handled(o: CodeAnalysisObject, f: CodeAnalysisObject, q0: u8, q1: u8, c0: Map<u16, u16>, c1: Map<u16, u16>) -> bool {
    &&& f.wf()
    &&& scanned_on(o, f)
    &&& {
    let q = q0;
    let byte = o.buf()[o.i_buffer as int];
    let opens_code = q == characters::GRAVE_ACCENT && byte == characters::DOLLAR_SIGN
        && corresponds(o.buf(), o.i_buffer as int, seq![characters::LEFT_CURLY]);
    if !o.has_room(1) {
        f == o && q1 == q && c1 == c0
    } else {
        &&& q1 == if byte == q {
            0
        } else {
            q
        }
        &&& !(byte != q && opens_code) ==> {
            &&& f.i_buffer == o.i_buffer
            &&& f.current_scope.characters@ == if byte_fits(o, byte) {
                o.current_scope.characters@.push(byte)
            } else {
                o.current_scope.characters@
            }
            &&& byte < 128 ==> f.character_amounts.one_byte_chars@
                == o.character_amounts.one_byte_chars@.update(
                byte as int,
                (o.character_amounts.one_byte_chars@[byte as int] + 1) as u32,
            )
            &&& byte >= 128 ==> f.character_amounts.one_byte_chars
                == o.character_amounts.one_byte_chars
            &&& c1 == c0
        }
        &&& (byte != q && opens_code) ==> f.current_scope.characters@.subrange(
            0,
            o.current_scope.characters@.len() + 1int,
        ) == o.current_scope.characters@.push(byte)
        &&& (byte != q && opens_code) ==> f.i_buffer > o.i_buffer
        &&& (byte != q && opens_code) ==> exists|m: CodeAnalysisObject|
            #![trigger code_read(true, m, f, c0, c1)]
            {
                &&& m.current_scope.characters@ == o.current_scope.characters@.push(byte)
                &&& m.current_scope.same_but_characters(&o.current_scope)
                &&& m.i_buffer == o.i_buffer + 1
                &&& m.buf() == o.buf()
                &&& code_read(true, m, f, c0, c1)
            }
        &&& (byte != q && opens_code) ==> {
            ||| f.i_buffer == BUFFER_LEN
            ||| (f.i_buffer < BUFFER_LEN && f.buf()[f.i_buffer as int] == characters::RIGHT_CURLY)
            ||| !f.has_room(3)
        }
    }
    }
}

/// Handles the byte at the reading position inside the quote `quote_char`: the byte
/// goes to the output and a matching quote closes the quote; in a template literal,
/// `${` opens code, which `look_for_values_js` reads up to its closing `}`.
pub fn find_quote_chars(
    quote_char: &mut u8,
    going_through: &mut GoingThrough,
    code_analysis_object: &mut CodeAnalysisObject,
    all_values_count: &mut HashMap<u16, u16>,
)
    requires
        old(code_analysis_object).wf(),
        old(code_analysis_object).i_buffer < BUFFER_LEN,
    ensures
        *final(going_through) == *old(going_through),
        quote_handled(
            *old(code_analysis_object),
            *final(code_analysis_object),
            *old(quote_char),
            *final(quote_char),
            old(all_values_count)@,
            final(all_values_count)@,
        ),
    decreases BUFFER_LEN - old(code_analysis_object).i_buffer, 0int,
{
    let ghost o = *code_analysis_object;
    proof {
        lemma_scanned_on_refl(o);
    }
    if !code_analysis_object.room_for(1) {
        return ;
    }
    let byte = code_analysis_object.get_char();
    code_analysis_object.add_byte(byte);
    if byte == *quote_char {
        *quote_char = 0;
    } else if *quote_char == characters::GRAVE_ACCENT {
        let left_curly: [u8; 1] = [characters::LEFT_CURLY];
        assert(left_curly@ =~= seq![characters::LEFT_CURLY]);
        if byte == characters::DOLLAR_SIGN && find_if_corresponds(
            code_analysis_object,
            code_analysis_object.i_buffer,
            left_curly.as_slice(),
        ) {
            let ghost mid = *code_analysis_object;
            code_analysis_object.i_buffer = code_analysis_object.i_buffer + 1;
            let ghost mid2 = *code_analysis_object;
            look_for_values_js(true, going_through, code_analysis_object, all_values_count);
            proof {
                assert(scanned_on(o, mid2)) by {
                    assert(mid2.current_scope.characters@.subrange(0, o.current_scope.characters@.len() as int)
                        =~= o.current_scope.characters@);
                }
                lemma_scanned_on_trans(o, mid2, *code_analysis_object);
                let lo = o.current_scope.characters@.len() as int;
                assert(code_analysis_object.current_scope.characters@.subrange(0, lo + 1) =~= mid2.current_scope.characters@.subrange(0, lo + 1)) by {
                    assert(code_analysis_object.current_scope.characters@.subrange(0, mid2.current_scope.characters@.len() as int) == mid2.current_scope.characters@);
                }
            }
        }
    }
    proof {
        let f = *code_analysis_object;
        let lo = o.current_scope.characters@.len() as int;
        if f.i_buffer == o.i_buffer {
            assert(f.current_scope.characters@.subrange(0, lo) =~= o.current_scope.characters@);
        }
    }
}

/// The state with the reading position one byte on, within the buffer.
pub open spec fn read_past(f: CodeAnalysisObject) -> CodeAnalysisObject {
    if f.i_buffer < BUFFER_LEN {
        CodeAnalysisObject { i_buffer: (f.i_buffer + 1) as usize, ..f }
    } else {
        f
    }
}

/// Whether `byte` opens a quoted string or a template literal.
pub open spec fn is_quote(byte: u8) -> bool {
    byte == characters::APOSTROPHE || byte == characters::DOUBLE_QUOTE || byte
        == characters::GRAVE_ACCENT
}

/// One step of reading code (see `look_for_values_js`), from `a` to `b`; each state
/// is the analysis, the open quote (0 for none) and the counts of the uses of values.
/// The byte at the reading position is handled, and reading moves on: inside a quote
/// it is copied and a matching quote closes the quote; outside quotes a newline is
/// left out, a quote is copied and opens, a name is read as code (`name_read`: a
/// declared one gets its short name), and another byte is copied. Inside `${ }`,
/// the closing `}` is no step: it ends the reading.
pub open spec fn code_step(
    inside_concat_string: bool,
    a: (CodeAnalysisObject, u8, Map<u16, u16>),
    b: (CodeAnalysisObject, u8, Map<u16, u16>),
) -> bool {
    let o = a.0;
    let q = a.1;
    let byte = o.buf()[o.i_buffer as int];
    &&& o.i_buffer < BUFFER_LEN
    &&& o.has_room(3)
    &&& !(q == 0 && inside_concat_string && byte == characters::RIGHT_CURLY)
    &&& exists|h: CodeAnalysisObject|
        #![trigger read_past(h), scanned_on(o, h)]
        {
            &&& h.wf()
            &&& scanned_on(o, h)
            &&& b.0 == read_past(h)
            &&& q != 0 ==> b.1 == if byte == q {
                0
            } else {
                q
            }
            &&& q == 0 && byte == characters::NEWLINE ==> h == o && b.1 == 0 && b.2 == a.2
            &&& q == 0 && is_quote(byte) ==> {
                &&& h.current_scope.characters@ == o.current_scope.characters@.push(byte)
                &&& h.i_buffer == o.i_buffer
                &&& b.1 == byte
                &&& b.2 == a.2
            }
            &&& q == 0 && !is_quote(byte) && is_name_byte(byte) ==> {
                &&& name_read(o, h, a.2, b.2)
                &&& b.1 == 0
            }
            &&& q == 0 && byte != characters::NEWLINE && !is_quote(byte) && !is_name_byte(byte) ==> {
                &&& h.current_scope.characters@ == if byte_fits(o, byte) {
                    o.current_scope.characters@.push(byte)
                } else {
                    o.current_scope.characters@
                }
                &&& h.i_buffer == o.i_buffer
                &&& b.1 == 0
                &&& b.2 == a.2
            }
        }
}

/// Step `k` of the reading `trace`.
pub open spec fn code_step_at(
    inside_concat_string: bool,
    trace: Seq<(CodeAnalysisObject, u8, Map<u16, u16>)>,
    k: int,
) -> bool {
    code_step(inside_concat_string, trace[k], trace[k + 1])
}

/// `f` (counts `c1`) is `o` (counts `c0`) once code was read from its reading position
/// (see `look_for_values_js`): a chain of steps (`code_step`) from `o` with no quote
/// open, ending at the end of the buffer, where the output has no room left, or,
/// inside `${ }`, on its closing `}`, which is written.
pub open spec fn code_read(
    inside_concat_string: bool,
    o: CodeAnalysisObject,
    f: CodeAnalysisObject,
    c0: Map<u16, u16>,
    c1: Map<u16, u16>,
) -> bool {
    exists|trace: Seq<(CodeAnalysisObject, u8, Map<u16, u16>)>|
        #![trigger trace.len(), trace[0]]
        {
            &&& trace.len() >= 1
            &&& trace[0] == (o, 0u8, c0)
            &&& forall|k: int|
                0 <= k < trace.len() - 1 ==> #[trigger] code_step_at(inside_concat_string, trace, k)
            &&& {
                let l = trace.last();
                ||| (f == l.0 && c1 == l.2 && (l.0.i_buffer >= BUFFER_LEN || !l.0.has_room(3)))
                ||| {
                    &&& inside_concat_string
                    &&& l.1 == 0
                    &&& l.0.i_buffer < BUFFER_LEN
                    &&& l.0.buf()[l.0.i_buffer as int] == characters::RIGHT_CURLY
                    &&& f.current_scope.characters@ == l.0.current_scope.characters@.push(
                        characters::RIGHT_CURLY,
                    )
                    &&& f.i_buffer == l.0.i_buffer
                    &&& c1 == l.2
                }
            }
        }
}

/// Code is read as outside quotes, inside the `${ }` of a template literal too: a
/// step at a name, with no quote open, that has a declared value in the chain of
/// scopes writes that value's short name in its place (when the analysis can count
/// the use, see `find_value_ready`), so the name keeps meaning what it was declared as.
pub proof fn law_code_renames_declared_names(
    inside_concat_string: bool,
    trace: Seq<(CodeAnalysisObject, u8, Map<u16, u16>)>,
    k: int,
)
    requires
        0 <= k < trace.len() - 1,
        code_step_at(inside_concat_string, trace, k),
        trace[k].1 == 0,
        is_name_byte(trace[k].0.buf()[trace[k].0.i_buffer as int]),
        !is_quote(trace[k].0.buf()[trace[k].0.i_buffer as int]),
        chain_find(trace[k].0.current_scope, name_at(trace[k].0)) is Some,
        find_value_ready(trace[k].0, counts_started(trace[k].0, trace[k].2)),
    ensures
        trace[k + 1].0.current_scope.characters@ == trace[k].0.current_scope.characters@
            + name_bytes(chain_find(trace[k].0.current_scope, name_at(trace[k].0))->0.new_name),
{
    let a = trace[k];
    let b = trace[k + 1];
    let h = choose|h: CodeAnalysisObject|
        #![trigger read_past(h), scanned_on(a.0, h)]
        {
            &&& h.wf()
            &&& scanned_on(a.0, h)
            &&& b.0 == read_past(h)
            &&& a.1 != 0 ==> b.1 == if a.0.buf()[a.0.i_buffer as int] == a.1 {
                0
            } else {
                a.1
            }
            &&& a.1 == 0 && a.0.buf()[a.0.i_buffer as int] == characters::NEWLINE ==> h == a.0 && b.1 == 0 && b.2 == a.2
            &&& a.1 == 0 && is_quote(a.0.buf()[a.0.i_buffer as int]) ==> {
                &&& h.current_scope.characters@ == a.0.current_scope.characters@.push(a.0.buf()[a.0.i_buffer as int])
                &&& h.i_buffer == a.0.i_buffer
                &&& b.1 == a.0.buf()[a.0.i_buffer as int]
                &&& b.2 == a.2
            }
            &&& a.1 == 0 && !is_quote(a.0.buf()[a.0.i_buffer as int]) && is_name_byte(a.0.buf()[a.0.i_buffer as int]) ==> {
                &&& name_read(a.0, h, a.2, b.2)
                &&& b.1 == 0
            }
            &&& a.1 == 0 && a.0.buf()[a.0.i_buffer as int] != characters::NEWLINE && !is_quote(a.0.buf()[a.0.i_buffer as int]) && !is_name_byte(a.0.buf()[a.0.i_buffer as int]) ==> {
                &&& h.current_scope.characters@ == if byte_fits(a.0, a.0.buf()[a.0.i_buffer as int]) {
                    a.0.current_scope.characters@.push(a.0.buf()[a.0.i_buffer as int])
                } else {
                    a.0.current_scope.characters@
                }
                &&& h.i_buffer == a.0.i_buffer
                &&& b.1 == 0
                &&& b.2 == a.2
            }
        };
    assert(name_read(a.0, h, a.2, b.2));
}

/// Reads JavaScript code from the reading position: newlines are left out, quoted
/// strings and template literals are copied, names of values are renamed (see
/// `find_value`), and the other bytes are copied. Inside the `${ }` of a template
/// literal (`inside_concat_string`), the reading stops at the closing `}`. It also
/// stops at the end of the buffer, or when the output has no room left.
pub fn look_for_values_js(
    inside_concat_string: bool,
    going_through: &mut GoingThrough,
    code_analysis_object: &mut CodeAnalysisObject,
    all_values_count: &mut HashMap<u16, u16>,
)
    requires
        old(code_analysis_object).wf(),
    ensures
        final(code_analysis_object).wf(),
        scanned_on(*old(code_analysis_object), *final(code_analysis_object)),
        *final(going_through) == *old(going_through),
        ({
            let f = *final(code_analysis_object);
            ||| f.i_buffer == BUFFER_LEN
            ||| (inside_concat_string && f.i_buffer < BUFFER_LEN && f.buf()[f.i_buffer as int]
                == characters::RIGHT_CURLY)
            ||| !f.has_room(3)
        }),
        code_read(
            inside_concat_string,
            *old(code_analysis_object),
            *final(code_analysis_object),
            old(all_values_count)@,
            final(all_values_count)@,
        ),
    decreases BUFFER_LEN - old(code_analysis_object).i_buffer, 1int,
{
    let ghost o = *code_analysis_object;
    proof {
        lemma_scanned_on_refl(o);
    }
    let mut quote_char: u8 = 0;
    let ghost mut trace: Seq<(CodeAnalysisObject, u8, Map<u16, u16>)> = seq![
        (o, 0u8, all_values_count@),
    ];
    while code_analysis_object.i_buffer < BUFFER_LEN
        invariant
            code_analysis_object.wf(),
            scanned_on(o, *code_analysis_object),
            *going_through == *old(going_through),
            o == *old(code_analysis_object),
            trace.len() >= 1,
            trace[0] == (o, 0u8, old(all_values_count)@),
            forall|k: int|
                0 <= k < trace.len() - 1 ==> #[trigger] code_step_at(inside_concat_string, trace, k),
            trace.last() == (*code_analysis_object, quote_char, all_values_count@),
        decreases BUFFER_LEN - code_analysis_object.i_buffer,
    {
        let ghost before = *code_analysis_object;
        let ghost c0 = all_values_count@;
        let ghost q0 = quote_char;
        if !code_analysis_object.room_for(3) {
            return ;
        }
        let byte = code_analysis_object.get_char();
        if quote_char != 0 {
            find_quote_chars(&mut quote_char, going_through, code_analysis_object, all_values_count);
            proof {
                lemma_scanned_on_trans(o, before, *code_analysis_object);
            }
        } else if byte == characters::NEWLINE {
            proof {
                lemma_scanned_on_refl(before);
            }
        } else if byte == characters::RIGHT_CURLY && inside_concat_string {
            code_analysis_object.add_one_byte_char(byte);
            proof {
                let f = *code_analysis_object;
                assert(f.current_scope.characters@.subrange(0, before.current_scope.characters@.len() as int)
                    =~= before.current_scope.characters@);
                lemma_scanned_on_trans(o, before, f);
            }
            return ;
        } else if byte == characters::APOSTROPHE || byte == characters::DOUBLE_QUOTE || byte
            == characters::GRAVE_ACCENT {
            code_analysis_object.add_one_byte_char(byte);
            quote_char = byte;
            proof {
                let f = *code_analysis_object;
                assert(f.current_scope.characters@.subrange(0, before.current_scope.characters@.len() as int)
                    =~= before.current_scope.characters@);
                lemma_scanned_on_trans(o, before, f);
            }
        } else if is_name_byte_exec(byte) {
            let mut declared = false;
            start_count(code_analysis_object, all_values_count);
            if find_value_can_run(code_analysis_object, all_values_count) {
                declared = find_value(code_analysis_object, all_values_count);
                proof {
                    let f = *code_analysis_object;
                    lemma_name_end_bounds(before.buf(), before.i_buffer + 1);
                    assert(f.current_scope.characters@.subrange(0, before.current_scope.characters@.len() as int)
                        =~= before.current_scope.characters@);
                    lemma_scanned_on_trans(o, before, f);
                }
            }
            if !declared {
                let ghost mid = *code_analysis_object;
                copy_name(code_analysis_object);
                proof {
                    lemma_name_end_bounds(before.buf(), before.i_buffer + 1);
                    assert(mid.current_scope.characters@ == before.current_scope.characters@);
                    lemma_scanned_on_trans(o, mid, *code_analysis_object);
                }
            }
            proof {
                assert(name_read(before, *code_analysis_object, c0, all_values_count@));
            }
        } else {
            code_analysis_object.add_byte(byte);
            proof {
                let f = *code_analysis_object;
                assert(f.current_scope.characters@.subrange(0, before.current_scope.characters@.len() as int)
                    =~= before.current_scope.characters@);
                lemma_scanned_on_trans(o, before, f);
            }
        }
        let ghost h = *code_analysis_object;
        proof {
            assert(scanned_on(before, h)) by {
                assert(h.current_scope.characters@.subrange(0, before.current_scope.characters@.len() as int)
                    =~= before.current_scope.characters@);
            }
        }
        assert(code_analysis_object.i_buffer >= before.i_buffer);
        if code_analysis_object.i_buffer < BUFFER_LEN {
            let ghost mid = *code_analysis_object;
            code_analysis_object.i_buffer = code_analysis_object.i_buffer + 1;
            proof {
                let f = *code_analysis_object;
                assert(f.current_scope.characters@.subrange(0, mid.current_scope.characters@.len() as int)
                    =~= mid.current_scope.characters@);
                lemma_scanned_on_trans(o, mid, f);
            }
        }
        proof {
            let old_trace = trace;
            let next = (*code_analysis_object, quote_char, all_values_count@);
            assert(*code_analysis_object == read_past(h));
            assert(code_step(inside_concat_string, old_trace.last(), next));
            trace = old_trace.push(next);
            assert forall|k: int| 0 <= k < trace.len() - 1 implies #[trigger] code_step_at(
                inside_concat_string,
                trace,
                k,
            ) by {
                if k < old_trace.len() - 1 {
                    assert(code_step_at(inside_concat_string, old_trace, k));
                    assert(trace[k] == old_trace[k]);
                    assert(trace[k + 1] == old_trace[k + 1]);
                } else {
                    assert(trace[k] == old_trace.last());
                    assert(trace[k + 1] == next);
                }
            }
        }
    }
}

} // verus!
