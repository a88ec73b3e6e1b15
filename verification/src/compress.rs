//! The walk through one buffer of JavaScript input: the decisions that turn the
//! source into its minified output, one byte at a time.
use vstd::prelude::*;

use std::collections::HashMap;

use crate::analysis_object::{
    buffer_end, byte_fits, occurrences, declared_in_order, else_checked, function_head, first_paren, fn_name_scan, is_child_scope,
    lemma_declared_in_order_keeps_place, name_bytes, CodeAnalysisObject, BUFFER_LEN,
};
use crate::characters;
use crate::closing::{
    buckets_total, children_min_declarations, closing_room, count_values, scope_closed, scope_end,
    scope_end_ready, scope_rendering,
};
use crate::code_analysis::{
    chain_find, declared, some_two_char_free, EndOfScopeChar, GoingThrough, InsideOf,
    JsScope, NewValueName, PreviousBufferState, Value, VALUE_BUCKETS,
};
use crate::minify::{
    counts_started, find_value, find_value_can_run, find_value_ready, is_name_byte, is_name_byte_exec, name_at, name_key,
    name_end, start_count,
};
use crate::declarations::{
    declaration_can_run, declaration_handled, declaration_ready, declare_variable, declared_name,
    declared_name_start,
};
use crate::quoted::{
    copy_name, corresponds, find_if_corresponds, find_quote_chars, lemma_scanned_on_refl,
    name_read, quote_handled,
};

verus! {

// ---------------------------------------------------------------------------
// Checks that tell whether a step of the analysis can run.

impl CodeAnalysisObject {
    /// The reading position in `stream()`.
    pub fn position(&self) -> (r: usize)
        requires
            self.wf(),
        ensures
            r == self.pos(),
    {
        if self.buffer_ref_current {
            BUFFER_LEN + self.i_buffer
        } else {
            self.i_buffer
        }
    }

    /// The byte at position `p` of `stream()`.
    pub fn stream_byte(&self, p: usize) -> (r: u8)
        requires
            p < 2 * BUFFER_LEN,
        ensures
            r == self.stream()[p as int],
    {
        if p < BUFFER_LEN {
            self.previous_buffer[p]
        } else {
            self.current_buffer[p - BUFFER_LEN]
        }
    }
}

/// What `find_function_name` requires of the state, besides its well-formedness: a
/// name that ends before the input runs out is not empty, is followed by `(` in the
/// same buffer, and can be given a short name.
pub open spec fn function_name_ready(o: CodeAnalysisObject) -> bool {
    let (q, name) = fn_name_scan(o.stream(), o.pos(), Seq::empty());
    q < 2048 ==> {
        &&& name.len() > 0
        &&& first_paren(o.stream(), q, buffer_end(q)) < buffer_end(q)
        &&& o.current_scope.skipped_latest(name) == 122 ==> some_two_char_free(
            o.current_scope.two_byte_name_values@,
        )
    }
}

/// Whether `find_function_name` can run (see `function_name_ready`).
pub fn function_name_can_run(code_analysis_object: &CodeAnalysisObject) -> (r: bool)
    requires
        code_analysis_object.wf(),
        code_analysis_object.i_buffer < BUFFER_LEN,
    ensures
        r == function_name_ready(*code_analysis_object),
{
    let ghost s = code_analysis_object.stream();
    let p0 = code_analysis_object.position();
    let ghost scan = fn_name_scan(s, p0 as int, Seq::empty());
    let mut p = p0;
    let mut name: Vec<u8> = Vec::new();
    loop
        invariant
            p < 2048,
            s == code_analysis_object.stream(),
            scan == fn_name_scan(s, p0 as int, Seq::empty()),
            p0 == code_analysis_object.pos(),
            fn_name_scan(s, p as int, name@) == scan,
        ensures
            p + 1 < 2048,
            scan == (p + 1, name@),
        decreases 2048 - p,
    {
        let q = p + 1;
        if q >= 2048 {
            assert(scan == (2048int, name@));
            assert(function_name_ready(*code_analysis_object));
            return true;
        }
        let c = code_analysis_object.stream_byte(q);
        if c == characters::LEFT_PARENTHESIS || (c == characters::SPACE && name.len() > 0) {
            break ;
        }
        if c != characters::SPACE {
            name.push(c);
        }
        p = q;
    }
    let q = p + 1;
    if name.len() == 0 {
        return false;
    }
    let end: usize = if q < BUFFER_LEN {
        BUFFER_LEN
    } else {
        2 * BUFFER_LEN
    };
    let mut k = q;
    while k < end && code_analysis_object.stream_byte(k) != characters::LEFT_PARENTHESIS
        invariant
            q <= k <= end,
            end == buffer_end(q as int),
            end <= 2048,
            s == code_analysis_object.stream(),
            first_paren(s, k as int, end as int) == first_paren(s, q as int, end as int),
        decreases end - k,
    {
        k = k + 1;
    }
    if k >= end {
        assert(first_paren(s, k as int, end as int) == end);
        return false;
    }
    assert(first_paren(s, k as int, end as int) == k);
    code_analysis_object.current_scope.declaration_possible(name.as_slice())
}

/// Whether `scope_end` can run on a scope that holds no grouped `if`/`else`
/// statement (see `scope_end_ready`); `false` for one that does.
pub fn scope_end_can_run(code_analysis_object: &CodeAnalysisObject) -> (r: bool)
    requires
        code_analysis_object.wf(),
    ensures
        r == (!(code_analysis_object.current_scope.inside_of is UpperIfStatement)
            && code_analysis_object.current_scope.parent_scope is Some && scope_end_ready(
            *code_analysis_object,
        )),
{
    let scope = &code_analysis_object.current_scope;
    if let InsideOf::UpperIfStatement(_, _) = scope.inside_of {
        return false;
    }
    let parent: &JsScope = match &scope.parent_scope {
        Some(p) => p,
        None => {
            return false;
        },
    };
    let chars = scope.characters.len();
    let beginning = scope.beginning_chars.len();
    if chars > usize::MAX - 2 || beginning > usize::MAX - 2 - chars {
        return false;
    }
    let room = chars + 2 + beginning;
    assert(room == closing_room(*scope)) by {
        assert(scope_rendering(*scope) == Some((Seq::<u8>::empty(), Seq::<u8>::empty())));
    }
    if !code_analysis_object.room_for(room) {
        return false;
    }
    proof {
        assert(scope.wf_chain());
        assert(parent.wf_chain());
        assert(parent.wf());
    }
    let parent_position = parent.starting_index + parent.characters.len();
    if parent_position > usize::MAX - room {
        return false;
    }
    let extra: u16 = if let InsideOf::ForLoop = scope.inside_of {
        1
    } else {
        0
    };
    if scope.min_value_declarations > u16::MAX - extra {
        return false;
    }
    let children_min = scope.min_value_declarations + extra;
    assert(children_min == children_min_declarations(*scope));
    if parent.min_value_declarations > u16::MAX - children_min {
        return false;
    }
    let declared = count_values(&scope.values);
    if scope.all_value_declarations > u16::MAX - declared {
        return false;
    }
    assert(crate::closing::upper_if_branches_ok(*scope));
    true
}

// ---------------------------------------------------------------------------
// One buffer of input.

/// `f` comes from `o` by reading the input on: the buffers are the same and the
/// analysis stays well formed.
pub open spec fn read_on(o: CodeAnalysisObject, f: CodeAnalysisObject) -> bool {
    &&& f.wf()
    &&& f.previous_buffer == o.previous_buffer
    &&& f.current_buffer == o.current_buffer
}

/// The scan for a function name ends after where it starts.
pub proof fn lemma_fn_name_scan_moves(s: Seq<u8>, p: int, name: Seq<u8>)
    requires
        0 <= p < 2048,
    ensures
        p < fn_name_scan(s, p, name).0 <= 2048,
    decreases 2048 - p,
{
    let q = p + 1;
    if q < 2048 && !(s[q] == characters::LEFT_PARENTHESIS || (s[q] == characters::SPACE && name.len() > 0)) {
        if s[q] == characters::SPACE {
            lemma_fn_name_scan_moves(s, q, name);
        } else {
            lemma_fn_name_scan_moves(s, q, name.push(s[q]));
        }
    }
}

/// The scan of parameters ends at or after where it starts.
pub proof fn lemma_params_scan_moves(s: Seq<u8>, p: int, cur: Seq<u8>, names: Seq<Seq<u8>>)
    requires
        0 <= p <= 2048,
    ensures
        p <= crate::analysis_object::params_scan(s, p, cur, names).0 <= 2048,
    decreases 2048 - p,
{
    if p < 2048 {
        let c = s[p];
        if c == characters::SPACE || c == characters::NEWLINE {
            lemma_params_scan_moves(s, p + 1, cur, names);
        } else if c == characters::LEFT_PARENTHESIS || c == characters::RIGHT_PARENTHESIS || c
            == characters::EQUAL {
        } else if c == characters::COMMA {
            lemma_params_scan_moves(s, p + 1, Seq::empty(), names.push(cur));
        } else {
            lemma_params_scan_moves(s, p + 1, cur.push(c), names);
        }
    }
}

/// `f` comes from `o` by reading on: the buffers are the same, the analysis stays
/// well formed, and the reading position does not go back.
pub open spec fn moved_on(o: CodeAnalysisObject, f: CodeAnalysisObject) -> bool {
    &&& read_on(o, f)
    &&& o.pos() <= f.pos()
    &&& f.i_buffer == BUFFER_LEN ==> o.pos() < f.pos()
}

/// Whether the bytes at the reading position are the keyword `function`, followed by
/// a space or `(`.
pub open spec fn at_function_keyword(o: CodeAnalysisObject) -> bool {
    let b = o.buf();
    let i = o.i_buffer as int;
    &&& b[i] == 102
    &&& i + 7 < BUFFER_LEN
    &&& (corresponds(b, i, seq![117u8, 110, 99, 116, 105, 111, 110, 32]) || corresponds(
        b,
        i,
        seq![117u8, 110, 99, 116, 105, 111, 110, 40],
    ))
}

/// The state with the reading position on the last byte of `function`.
pub open spec fn on_function_keyword_end(o: CodeAnalysisObject) -> CodeAnalysisObject {
    CodeAnalysisObject { i_buffer: (o.i_buffer + 7) as usize, ..o }
}

/// Whether `name_step` declares a function: the keyword `function` stands at the
/// reading position and the function's name can be read.
pub open spec fn reads_function(o: CodeAnalysisObject) -> bool {
    at_function_keyword(o) && function_name_ready(on_function_keyword_end(o))
}

/// `f` (with the counts `c1`) is `o` (with the counts `c0`) once `name_step` handled
/// the name at the reading position.
pub open spec fn name_handled(o: CodeAnalysisObject, f: CodeAnalysisObject, c0: Map<u16, u16>, c1: Map<u16, u16>) -> bool {
    if reads_function(o) {
        let o7 = on_function_keyword_end(o);
        let (q, fname) = fn_name_scan(o7.stream(), o7.pos(), Seq::empty());
        &&& c1 == c0
        &&& q == 2048 ==> {
            &&& f.current_scope == o.current_scope
            &&& f.previous_buffer_state == PreviousBufferState::FindingFunctionName
        }
        &&& q < 2048 ==> exists|mid: JsScope, v: Value|
            #![trigger declared(o.current_scope, fname, mid, v)]
            {
                &&& declared(o.current_scope, fname, mid, v)
                &&& f.current_scope.inside_of == InsideOf::Function(v.value_new_name)
                &&& f.current_scope.parent_scope is Some
                &&& (*f.current_scope.parent_scope->0).characters@ == mid.characters@
                    + function_head(v.value_new_name)
                &&& (*f.current_scope.parent_scope->0).same_but_characters(&mid)
            }
    } else if declaration_ready(o) {
        &&& c1 == c0
        &&& declaration_handled(o, f)
    } else {
        name_read(o, f, c0, c1)
    }
}

/// Handles a name at the reading position: `function` declares a function (its
/// scope becomes the current one) and its parameters; a declared value gets its
/// short name and its use is counted; another name is copied.
fn name_step(
    code_analysis_object: &mut CodeAnalysisObject,
    function_body: &mut bool,
    all_values_count: &mut HashMap<u16, u16>,
)
    requires
        old(code_analysis_object).wf(),
        old(code_analysis_object).i_buffer < BUFFER_LEN,
        old(code_analysis_object).has_room(16),
    ensures
        moved_on(*old(code_analysis_object), *final(code_analysis_object)),
        *final(function_body) == (reads_function(*old(code_analysis_object)) || *old(function_body)),
        name_handled(
            *old(code_analysis_object),
            *final(code_analysis_object),
            old(all_values_count)@,
            final(all_values_count)@,
        ),
{
    let ghost o = *code_analysis_object;
    let i = code_analysis_object.i_buffer;
    let byte = code_analysis_object.get_char();
    let unction: [u8; 8] = [117, 110, 99, 116, 105, 111, 110, 32];
    let unction_paren: [u8; 8] = [117, 110, 99, 116, 105, 111, 110, 40];
    assert(unction@ =~= seq![117u8, 110, 99, 116, 105, 111, 110, 32]);
    assert(unction_paren@ =~= seq![117u8, 110, 99, 116, 105, 111, 110, 40]);
    if byte == 102 && i + 7 < BUFFER_LEN && (find_if_corresponds(code_analysis_object, i, unction.as_slice())
        || find_if_corresponds(code_analysis_object, i, unction_paren.as_slice())) {
        code_analysis_object.i_buffer = i + 7;
        assert(*code_analysis_object == on_function_keyword_end(o));
        if function_name_can_run(code_analysis_object) {
            let ghost before_name = *code_analysis_object;
            proof {
                lemma_fn_name_scan_moves(before_name.stream(), before_name.pos(), Seq::empty());
                let q = fn_name_scan(before_name.stream(), before_name.pos(), Seq::empty()).0;
                if q < 2048 {
                    crate::analysis_object::lemma_first_paren(before_name.stream(), q, buffer_end(q));
                }
            }
            code_analysis_object.find_function_name();
            *function_body = true;
            if code_analysis_object.i_buffer < BUFFER_LEN {
                let ghost at_paren = *code_analysis_object;
                code_analysis_object.i_buffer = code_analysis_object.i_buffer + 1;
                if code_analysis_object.check_index() && code_analysis_object.room_for(8192) {
                    let ghost before_params = *code_analysis_object;
                    proof {
                        lemma_params_scan_moves(before_params.stream(), before_params.pos(), Seq::empty(), Seq::empty());
                    }
                    code_analysis_object.new_values_init();
                    proof {
                        let (end, names) = crate::analysis_object::params_scan(
                            before_params.stream(),
                            before_params.pos(),
                            Seq::empty(),
                            Seq::empty(),
                        );
                        if end == 2048 {
                            let given = choose|given: Seq<NewValueName>| declared_in_order(before_params.current_scope, names, code_analysis_object.current_scope, given);
                            lemma_declared_in_order_keeps_place(before_params.current_scope, names, code_analysis_object.current_scope, given);
                        } else {
                            let (mid, given) = choose|mid: JsScope, given: Seq<NewValueName>| {
                                &&& declared_in_order(before_params.current_scope, names, mid, given)
                                &&& code_analysis_object.current_scope.characters@ == mid.characters@ + crate::analysis_object::render_names(given)
                                &&& code_analysis_object.current_scope.same_but_characters(&mid)
                                &&& forall|b: int| 0 <= b < 128 ==> code_analysis_object.character_amounts.one_byte_chars@[b]
                                    == before_params.character_amounts.one_byte_chars@[b] + crate::analysis_object::occurrences(crate::analysis_object::render_names(given), b as u8)
                            };
                            lemma_declared_in_order_keeps_place(before_params.current_scope, names, mid, given);
                        }
                    }
                }
            }
            return ;
        }
        code_analysis_object.i_buffer = i;
    }
    assert(*code_analysis_object == o);
    if declaration_can_run(code_analysis_object) {
        proof {
            crate::quoted::lemma_name_end_bounds(o.buf(), declared_name_start(o) + 1);
        }
        declare_variable(code_analysis_object);
        return ;
    }
    let mut declared = false;
    start_count(code_analysis_object, all_values_count);
    if find_value_can_run(code_analysis_object, all_values_count) {
        declared = find_value(code_analysis_object, all_values_count);
        proof {
            crate::quoted::lemma_name_end_bounds(o.buf(), o.i_buffer + 1);
        }
    }
    if !declared {
        let ghost mid = *code_analysis_object;
        copy_name(code_analysis_object);
        proof {
            crate::quoted::lemma_name_end_bounds(o.buf(), o.i_buffer + 1);
            assert(mid.current_scope.characters@ == o.current_scope.characters@);
        }
    }
}

/// The input byte just before the reading position (a space before the whole input).
pub open spec fn byte_before(o: CodeAnalysisObject) -> u8 {
    if o.i_buffer > 0 {
        o.buf()[o.i_buffer - 1]
    } else if o.buffer_ref_current {
        o.previous_buffer@[BUFFER_LEN - 1]
    } else {
        characters::SPACE
    }
}

/// The state with no pending last byte.
pub open spec fn reset_last_char(o: CodeAnalysisObject) -> CodeAnalysisObject {
    CodeAnalysisObject { last_char: 0, ..o }
}

/// Whether `scope_end` closes the current scope on a `}` (see `scope_end_can_run`).
pub open spec fn closable(o: CodeAnalysisObject) -> bool {
    &&& !(o.current_scope.inside_of is UpperIfStatement)
    &&& o.current_scope.parent_scope is Some
    &&& scope_end_ready(o)
}

/// Whether an HTML comment `<!--` starts at the reading position.
pub open spec fn html_comment_opens(o: CodeAnalysisObject) -> bool {
    o.buf()[o.i_buffer as int] == 60 && corresponds(o.buf(), o.i_buffer as int, seq![33u8, 45, 45])
}

/// Whether `js_step` copies `byte` as it is, with nothing else to decide: it is no
/// whitespace, quote, slash, curly bracket, semicolon, digit or byte of a name.
pub open spec fn copied_as_is(byte: u8) -> bool {
    &&& byte != characters::NEWLINE
    &&& byte != characters::SPACE
    &&& byte != characters::APOSTROPHE
    &&& byte != characters::DOUBLE_QUOTE
    &&& byte != characters::GRAVE_ACCENT
    &&& byte != characters::SLASH
    &&& byte != characters::LEFT_CURLY
    &&& byte != characters::RIGHT_CURLY
    &&& byte != characters::SEMICOLON
    &&& !(48 <= byte <= 57)
    &&& !is_name_byte(byte)
}

/// `f` (quote `q1`, function body flag `fb1`, counts `c1`) is `o` (`q0`, `fb0`,
/// `c0`) once `js_step` handled the byte at the reading position.
pub open spec fn js_handled(
    o: CodeAnalysisObject,
    f: CodeAnalysisObject,
    q0: u8,
    q1: u8,
    fb0: bool,
    fb1: bool,
    c0: Map<u16, u16>,
    c1: Map<u16, u16>,
) -> bool {
    &&& moved_on(o, f)
    &&& {
    let byte = o.buf()[o.i_buffer as int];
    let plain = o.last_char != characters::SLASH && o.last_char != characters::SPACE;
    &&& byte == characters::NEWLINE ==> f == o
    &&& byte == characters::SPACE ==> {
        &&& f.current_scope == o.current_scope
        &&& f.character_amounts == o.character_amounts
        &&& f.i_buffer == o.i_buffer
        &&& f.last_char == if is_name_byte(byte_before(o)) {
            characters::SPACE
        } else {
            o.last_char
        }
    }
    &&& (plain && byte == characters::GRAVE_ACCENT || o.last_char != characters::SLASH && (byte
        == characters::APOSTROPHE || byte == characters::DOUBLE_QUOTE)) ==> {
        &&& f.current_scope.characters@ == o.current_scope.characters@.push(byte)
        &&& q1 == byte
        &&& f.i_buffer == o.i_buffer
    }
    &&& plain && 48 <= byte <= 57 ==> {
        &&& f.current_scope.characters@ == o.current_scope.characters@.push(byte)
        &&& f.i_buffer == o.i_buffer
    }
    &&& o.last_char == characters::SPACE && 48 <= byte <= 57 ==> {
        &&& f.current_scope.characters@ == o.current_scope.characters@ + seq![
            characters::SPACE,
            byte,
        ]
        &&& f.i_buffer == o.i_buffer
    }
    &&& o.last_char == characters::SPACE && is_name_byte(byte) && !(48 <= byte <= 57) && byte
        != characters::GRAVE_ACCENT ==> exists|mid: CodeAnalysisObject|
        #![trigger name_handled(mid, f, c0, c1)]
        {
            &&& mid.added_chars(&reset_last_char(o), seq![characters::SPACE])
            &&& name_handled(mid, f, c0, c1)
            &&& fb1 == (reads_function(mid) || fb0)
        }
    &&& !(byte == characters::APOSTROPHE || byte == characters::DOUBLE_QUOTE || byte
        == characters::GRAVE_ACCENT) ==> q1 == q0
    &&& o.last_char != characters::SLASH && byte == characters::LEFT_CURLY ==> if fb0 {
        &&& f.current_scope.characters@ == o.current_scope.characters@.push(byte)
        &&& f.current_scope.same_but_characters(&o.current_scope)
        &&& !fb1
    } else {
        exists|mid: JsScope|
            #![trigger is_child_scope(f.current_scope, mid, InsideOf::NormalCode)]
            mid.characters@ == o.current_scope.characters@.push(byte)
                && mid.same_but_characters(&o.current_scope) && is_child_scope(
                f.current_scope,
                mid,
                InsideOf::NormalCode,
            )
    }
    &&& o.last_char != characters::SLASH && byte == characters::RIGHT_CURLY ==> if closable(
        reset_last_char(o),
    ) {
        scope_closed(reset_last_char(o), f, Ok(()))
    } else {
        f.current_scope.characters@ == o.current_scope.characters@.push(byte)
    }
    &&& o.last_char != characters::SLASH && byte == characters::SLASH ==> if o.i_buffer + 1
        < BUFFER_LEN {
        let next = o.buf()[o.i_buffer + 1];
        if next == characters::SLASH || next == characters::ASTERIS {
            &&& f.current_scope == o.current_scope
            &&& f.character_amounts == o.character_amounts
        } else {
            f.current_scope.characters@ == o.current_scope.characters@.push(byte)
        }
    } else {
        &&& f.current_scope == o.current_scope
        &&& f.last_char == characters::SLASH
    }
    &&& o.last_char == characters::SLASH && (byte == characters::SLASH || byte
        == characters::ASTERIS) ==> {
        &&& f.current_scope == o.current_scope
        &&& f.character_amounts == o.character_amounts
    }
    &&& o.last_char != characters::SLASH && byte == characters::SEMICOLON ==> {
        &&& f.current_scope.characters@ == o.current_scope.characters@.push(byte)
        &&& f.i_buffer == o.i_buffer
    }
    &&& o.last_char != characters::SLASH && html_comment_opens(o) ==> {
        &&& f.current_scope == o.current_scope
        &&& f.character_amounts == o.character_amounts
    }
    &&& o.last_char != characters::SLASH && copied_as_is(byte) && !html_comment_opens(o) ==> {
        &&& f.current_scope.characters@ == if byte_fits(o, byte) {
            o.current_scope.characters@.push(byte)
        } else {
            o.current_scope.characters@
        }
        &&& f.i_buffer == o.i_buffer
    }
    &&& plain && is_name_byte(byte) && !(48 <= byte <= 57) && byte
        != characters::GRAVE_ACCENT ==> {
        &&& name_handled(reset_last_char(o), f, c0, c1)
        &&& fb1 == (reads_function(reset_last_char(o)) || fb0)
    }

    }
}

/// Handles the byte at the reading position outside any quote: newlines are left
/// out, a space is kept only between two names, comments are skipped, quotes open,
/// curly brackets open and close scopes, `function` declares a function and its
/// parameters, the names of values are renamed, and the other bytes are copied
/// (`if` and `else` among them: statements are not grouped here).
/// `function_body` tells that the next `{` opens the body of the function just
/// declared, whose scope is open already.
pub fn js_step(
    code_analysis_object: &mut CodeAnalysisObject,
    quote_char: &mut u8,
    function_body: &mut bool,
    all_values_count: &mut HashMap<u16, u16>,
)
    requires
        old(code_analysis_object).wf(),
        old(code_analysis_object).i_buffer < BUFFER_LEN,
        old(code_analysis_object).has_room(8192),
    ensures
        js_handled(
            *old(code_analysis_object),
            *final(code_analysis_object),
            *old(quote_char),
            *final(quote_char),
            *old(function_body),
            *final(function_body),
            old(all_values_count)@,
            final(all_values_count)@,
        ),
{
    let ghost o = *code_analysis_object;
    let byte = code_analysis_object.get_char();
    let i = code_analysis_object.i_buffer;
    if byte == characters::NEWLINE {
        return ;
    }
    if byte == characters::SPACE {
        let prev: u8 = if i > 0 {
            code_analysis_object.get_byte(i - 1)
        } else if code_analysis_object.buffer_ref_current {
            code_analysis_object.previous_buffer[BUFFER_LEN - 1]
        } else {
            characters::SPACE
        };
        if is_name_byte_exec(prev) {
            code_analysis_object.last_char = characters::SPACE;
        }
        return ;
    }
    let last = code_analysis_object.last_char;
    code_analysis_object.last_char = 0;
    let ghost reset = *code_analysis_object;
    if last == characters::SPACE && is_name_byte_exec(byte) {
        code_analysis_object.add_one_byte_char(characters::SPACE);
        proof {
            assert(reset == reset_last_char(o));
            let sp = seq![characters::SPACE];
            assert(sp.drop_last() =~= Seq::<u8>::empty());
            assert(code_analysis_object.current_scope.characters@ =~= reset.current_scope.characters@ + sp);
            assert forall|b: int| 0 <= b < 128 implies code_analysis_object.character_amounts.one_byte_chars@[b]
                == reset.character_amounts.one_byte_chars@[b] + occurrences(sp, b as u8) by {
                assert(occurrences(sp, b as u8) == occurrences(Seq::<u8>::empty(), b as u8) + if sp.last() == b as u8 { 1nat } else { 0nat });
            }
            assert(code_analysis_object.added_chars(&reset_last_char(o), sp));
        }
    }
    let ghost spaced = *code_analysis_object;
    if last == characters::SLASH {
        if byte == characters::SLASH {
            code_analysis_object.go_through_js_inline_comment();
            return ;
        }
        if byte == characters::ASTERIS {
            code_analysis_object.last_char = characters::SLASH;
            code_analysis_object.go_through_js_comment();
            return ;
        }
        code_analysis_object.add_one_byte_char(characters::SLASH);
    }
    if byte == characters::APOSTROPHE || byte == characters::DOUBLE_QUOTE || byte
        == characters::GRAVE_ACCENT {
        code_analysis_object.add_one_byte_char(byte);
        *quote_char = byte;
    } else if byte == characters::SLASH {
        if i + 1 < BUFFER_LEN {
            let next = code_analysis_object.get_byte(i + 1);
            if next == characters::SLASH {
                code_analysis_object.go_through_js_inline_comment();
            } else if next == characters::ASTERIS {
                code_analysis_object.i_buffer = i + 1;
                code_analysis_object.last_char = characters::SLASH;
                code_analysis_object.go_through_js_comment();
            } else {
                code_analysis_object.add_one_byte_char(byte);
            }
        } else {
            code_analysis_object.last_char = characters::SLASH;
        }
    } else if byte == 60 && find_if_corresponds(code_analysis_object, i, &[33u8, 45, 45]) {
        skip_html_comment(code_analysis_object);
    } else if byte == characters::LEFT_CURLY {
        code_analysis_object.add_one_byte_char(byte);
        if *function_body {
            *function_body = false;
        } else {
            let ghost mid = code_analysis_object.current_scope;
            code_analysis_object.enter_scope(InsideOf::NormalCode);
            assert(is_child_scope(code_analysis_object.current_scope, mid, InsideOf::NormalCode));
        }
    } else if byte == characters::RIGHT_CURLY {
        proof {
            if last != characters::SLASH {
                assert(*code_analysis_object == reset_last_char(o));
            }
        }
        if scope_end_can_run(code_analysis_object) {
            let closed = scope_end(code_analysis_object, all_values_count);
            assert(closed is Ok);
        } else {
            code_analysis_object.add_one_byte_char(byte);
        }
    } else if byte == characters::SEMICOLON {
        if code_analysis_object.current_scope.end_scope_char == EndOfScopeChar::Curly {
            let position = code_analysis_object.current_scope.characters.len();
            code_analysis_object.current_scope.semi_column_indexes.push(position);
        }
        code_analysis_object.add_one_byte_char(byte);
    } else if 48 <= byte && byte <= 57 {
        code_analysis_object.add_one_byte_char(byte);
        proof {
            if last == characters::SPACE {
                assert(code_analysis_object.current_scope.characters@ =~= o.current_scope.characters@
                    + seq![characters::SPACE, byte]);
            }
        }
    } else if is_name_byte_exec(byte) {
        proof {
            if last != characters::SPACE && last != characters::SLASH {
                assert(*code_analysis_object == reset_last_char(o));
            }
        }
        let ghost mid = *code_analysis_object;
        name_step(code_analysis_object, function_body, all_values_count);
        proof {
            if last == characters::SPACE {
                assert(mid == spaced);
                assert(mid.added_chars(&reset_last_char(o), seq![characters::SPACE]));
                assert(name_handled(mid, *code_analysis_object, old(all_values_count)@, all_values_count@));
            }
        }
    } else {
        code_analysis_object.add_byte(byte);
    }
}

/// The first position at or after `k` in `b` where `-->` starts, if any.
pub open spec fn html_comment_end(b: Seq<u8>, k: int) -> Option<int>
    decreases BUFFER_LEN - k,
{
    if k < 0 || k >= BUFFER_LEN {
        None
    } else if b[k] == 45 && corresponds(b, k, seq![45u8, 62]) {
        Some(k)
    } else {
        html_comment_end(b, k + 1)
    }
}

/// Skips an HTML comment `<!-- -->` from its `<`: the reading position moves to the
/// closing `>`; when the buffer ends first, the position moves to the last byte
/// and the comment goes on in the next buffer.
pub fn skip_html_comment(code_analysis_object: &mut CodeAnalysisObject)
    requires
        old(code_analysis_object).wf(),
        old(code_analysis_object).i_buffer < BUFFER_LEN,
    ensures
        final(code_analysis_object).wf(),
        final(code_analysis_object).same_but_reading(&*old(code_analysis_object)),
        final(code_analysis_object).buffer_ref_current == old(code_analysis_object).buffer_ref_current,
        final(code_analysis_object).going_to_current == old(code_analysis_object).going_to_current,
        final(code_analysis_object).last_index == old(code_analysis_object).last_index,
        final(code_analysis_object).last_char == old(code_analysis_object).last_char,
        old(code_analysis_object).i_buffer <= final(code_analysis_object).i_buffer < BUFFER_LEN,
        match html_comment_end(old(code_analysis_object).buf(), old(code_analysis_object).i_buffer + 1) {
            Some(k) => {
                &&& final(code_analysis_object).i_buffer == k + 2
                &&& final(code_analysis_object).previous_buffer_state == PreviousBufferState::Code
            },
            None => {
                &&& final(code_analysis_object).i_buffer == BUFFER_LEN - 1
                &&& final(code_analysis_object).previous_buffer_state
                    == PreviousBufferState::HTMLComment
            },
        },
{
    let ghost b = code_analysis_object.buf();
    let ghost st = code_analysis_object.i_buffer as int;
    let closing: [u8; 2] = [45u8, 62];
    assert(closing@ =~= seq![45u8, 62]);
    loop
        invariant
            code_analysis_object.wf(),
            code_analysis_object.same_but_reading(&*old(code_analysis_object)),
            code_analysis_object.buffer_ref_current == old(code_analysis_object).buffer_ref_current,
            code_analysis_object.going_to_current == old(code_analysis_object).going_to_current,
            code_analysis_object.last_index == old(code_analysis_object).last_index,
            code_analysis_object.last_char == old(code_analysis_object).last_char,
            old(code_analysis_object).i_buffer <= code_analysis_object.i_buffer < BUFFER_LEN,
            b == code_analysis_object.buf(),
            st == old(code_analysis_object).i_buffer,
            b == old(code_analysis_object).buf(),
            closing@ == seq![45u8, 62],
            html_comment_end(b, code_analysis_object.i_buffer + 1) == html_comment_end(b, st + 1),
        decreases BUFFER_LEN - code_analysis_object.i_buffer,
    {
        let i = code_analysis_object.i_buffer;
        if i + 1 >= BUFFER_LEN {
            code_analysis_object.previous_buffer_state = PreviousBufferState::HTMLComment;
            return ;
        }
        code_analysis_object.i_buffer = i + 1;
        if code_analysis_object.get_byte(i + 1) == 45 && find_if_corresponds(
            code_analysis_object,
            i + 1,
            closing.as_slice(),
        ) {
            code_analysis_object.i_buffer = i + 3;
            code_analysis_object.previous_buffer_state = PreviousBufferState::Code;
            return ;
        }
    }
}

/// The state once `buffer_bytes` came in after `o`: the buffer read so far becomes the
/// previous one, and reading goes on where it stopped.
pub open spec fn received(o: CodeAnalysisObject, buffer_bytes: [u8; 1024]) -> CodeAnalysisObject {
    CodeAnalysisObject {
        previous_buffer: o.current_buffer,
        current_buffer: buffer_bytes,
        buffer_ref_current: o.going_to_current,
        i_buffer: if o.going_to_current {
            0
        } else {
            o.last_index
        },
        ..o
    }
}

/// `s` is where the walk through `buffer_bytes` starts after `o`: the buffer came in
/// and, where a comment went on from the last buffer, the rest of it was read past
/// with nothing written out; where an `else` was being looked for across the two
/// buffers, the search went on (see `else_checked`).
pub open spec fn resumed(o: CodeAnalysisObject, buffer_bytes: [u8; 1024], s: CodeAnalysisObject) -> bool {
    let r = received(o, buffer_bytes);
    if r.i_buffer < BUFFER_LEN && (o.previous_buffer_state is WaitingIfStatementFirstI
        || o.previous_buffer_state is WaitingIfStatementF) {
        &&& s.wf()
        &&& else_checked(r, o.previous_buffer_state is WaitingIfStatementF, s)
    } else if r.i_buffer < BUFFER_LEN && (o.previous_buffer_state is JSComment
        || o.previous_buffer_state is JSInlineComment || o.previous_buffer_state is HTMLComment) {
        &&& s.wf()
        &&& s.same_but_reading(&r)
        &&& s.buffer_ref_current == r.buffer_ref_current
        &&& s.going_to_current == r.going_to_current
        &&& r.i_buffer < s.i_buffer
    } else {
        s == r
    }
}

/// The state in which the byte after `a` is read: at the end of the previous buffer
/// reading goes on at the start of the current one.
pub open spec fn next_read(a: CodeAnalysisObject) -> CodeAnalysisObject {
    if a.i_buffer < BUFFER_LEN {
        a
    } else {
        CodeAnalysisObject { going_to_current: true, buffer_ref_current: true, i_buffer: 0, ..a }
    }
}

/// The state with the reading position one byte on, within the buffer.
pub open spec fn stepped_past(f: CodeAnalysisObject) -> CodeAnalysisObject {
    if f.i_buffer < BUFFER_LEN {
        CodeAnalysisObject { i_buffer: (f.i_buffer + 1) as usize, ..f }
    } else {
        f
    }
}

/// `f` (quote `q1`, function body flag `fb1`, counts `c1`) is `o` (`q0`, `fb0`,
/// `c0`) once the byte at the reading position was handled: inside a quote as
/// `find_quote_chars` does, else as `js_step` does.
pub open spec fn byte_handled(
    o: CodeAnalysisObject,
    f: CodeAnalysisObject,
    q0: u8,
    q1: u8,
    fb0: bool,
    fb1: bool,
    c0: Map<u16, u16>,
    c1: Map<u16, u16>,
) -> bool {
    if q0 != 0 {
        quote_handled(o, f, q0, q1, c0, c1) && fb1 == fb0
    } else {
        js_handled(o, f, q0, q1, fb0, fb1, c0, c1)
    }
}

/// One step of the walk through the input, from `a` to `b`; each state is the
/// analysis, the open quote (0 for none), whether the next `{` opens the body of the
/// function just declared, and the counts of the uses of values. The next byte is
/// read, there is room for its output, it is handled, and reading moves on.
pub open spec fn walk_step(
    a: (CodeAnalysisObject, u8, bool, Map<u16, u16>),
    b: (CodeAnalysisObject, u8, bool, Map<u16, u16>),
) -> bool {
    let m = next_read(a.0);
    &&& !a.0.ended()
    &&& a.0.i_buffer == BUFFER_LEN ==> !a.0.going_to_current
    &&& m.i_buffer < BUFFER_LEN
    &&& m.has_room(8192)
    &&& exists|h: CodeAnalysisObject|
        #![trigger byte_handled(m, h, a.1, b.1, a.2, b.2, a.3, b.3)]
        byte_handled(m, h, a.1, b.1, a.2, b.2, a.3, b.3) && b.0 == stepped_past(h)
}

/// The byte that a step from `a` reads.
pub open spec fn read_byte(a: CodeAnalysisObject) -> u8 {
    next_read(a).buf()[next_read(a).i_buffer as int]
}

/// Inside a string in single or double quotes the walk copies the input: over steps
/// that start in such a string (the last of them may read the closing quote), the
/// output gains exactly the bytes read, in order, where each of them can be written
/// (a byte of a multi-byte character out of place cannot).
pub proof fn lemma_string_copied(trace: Seq<(CodeAnalysisObject, u8, bool, Map<u16, u16>)>, a: int, b: int)
    requires
        walk(trace),
        0 <= a <= b < trace.len(),
        forall|k: int|
            a <= k < b ==> (#[trigger] trace[k]).1 == characters::APOSTROPHE || trace[k].1
                == characters::DOUBLE_QUOTE,
        forall|k: int| a <= k < b ==> byte_fits(next_read((#[trigger] trace[k]).0), read_byte(trace[k].0)),
    ensures
        trace[b].0.current_scope.characters@ == trace[a].0.current_scope.characters@ + Seq::new(
            (b - a) as nat,
            |j: int| read_byte(trace[a + j].0),
        ),
    decreases b - a,
{
    if a < b {
        let k = b - 1;
        lemma_string_copied(trace, a, k);
        assert(step_at(trace, k));
        let x = trace[k];
        let y = trace[k + 1];
        let m = next_read(x.0);
        let h = choose|h: CodeAnalysisObject|
            #![trigger byte_handled(m, h, x.1, y.1, x.2, y.2, x.3, y.3)]
            byte_handled(m, h, x.1, y.1, x.2, y.2, x.3, y.3) && y.0 == stepped_past(h);
        assert(m.has_room(1));
        assert(quote_handled(m, h, x.1, y.1, x.3, y.3));
        assert(h.current_scope.characters@ == m.current_scope.characters@.push(read_byte(x.0)));
        assert(y.0.current_scope.characters@ == h.current_scope.characters@);
        assert(m.current_scope == x.0.current_scope);
        assert(trace[b].0.current_scope.characters@ =~= trace[a].0.current_scope.characters@ + Seq::new(
            (b - a) as nat,
            |j: int| read_byte(trace[a + j].0),
        ));
    }
}

/// Outside quotes, spaces and newlines write nothing: over steps that read only
/// them, the output stays as it was (a space comes back only before the next name
/// byte, and only after a name byte).
pub proof fn lemma_whitespace_dropped(trace: Seq<(CodeAnalysisObject, u8, bool, Map<u16, u16>)>, a: int, b: int)
    requires
        walk(trace),
        0 <= a <= b < trace.len(),
        forall|k: int| a <= k < b ==> (#[trigger] trace[k]).1 == 0,
        forall|k: int|
            a <= k < b ==> read_byte((#[trigger] trace[k]).0) == characters::SPACE || read_byte(
                trace[k].0,
            ) == characters::NEWLINE,
    ensures
        trace[b].0.current_scope == trace[a].0.current_scope,
    decreases b - a,
{
    if a < b {
        let k = b - 1;
        lemma_whitespace_dropped(trace, a, k);
        assert(step_at(trace, k));
        let x = trace[k];
        let y = trace[k + 1];
        let m = next_read(x.0);
        let h = choose|h: CodeAnalysisObject|
            #![trigger byte_handled(m, h, x.1, y.1, x.2, y.2, x.3, y.3)]
            byte_handled(m, h, x.1, y.1, x.2, y.2, x.3, y.3) && y.0 == stepped_past(h);
        assert(js_handled(m, h, x.1, y.1, x.2, y.2, x.3, y.3));
        assert(h.current_scope == m.current_scope);
    }
}

/// Outside quotes, a comment writes nothing: a step that reads the `/` of `//` or
/// `/*` leaves the output as it was.
pub proof fn lemma_comment_dropped(trace: Seq<(CodeAnalysisObject, u8, bool, Map<u16, u16>)>, k: int)
    requires
        walk(trace),
        0 <= k < trace.len() - 1,
        trace[k].1 == 0,
        trace[k].0.last_char != characters::SLASH,
        read_byte(trace[k].0) == characters::SLASH,
        next_read(trace[k].0).i_buffer + 1 < BUFFER_LEN,
        next_read(trace[k].0).buf()[next_read(trace[k].0).i_buffer + 1] == characters::SLASH
            || next_read(trace[k].0).buf()[next_read(trace[k].0).i_buffer + 1]
            == characters::ASTERIS,
    ensures
        trace[k + 1].0.current_scope == trace[k].0.current_scope,
        trace[k + 1].0.character_amounts == trace[k].0.character_amounts,
{
    assert(step_at(trace, k));
    let x = trace[k];
    let y = trace[k + 1];
    let m = next_read(x.0);
    let h = choose|h: CodeAnalysisObject|
        #![trigger byte_handled(m, h, x.1, y.1, x.2, y.2, x.3, y.3)]
        byte_handled(m, h, x.1, y.1, x.2, y.2, x.3, y.3) && y.0 == stepped_past(h);
    assert(js_handled(m, h, x.1, y.1, x.2, y.2, x.3, y.3));
}

/// Outside quotes, a use of a declared name is written as the short name of the value
/// it stands for, the nearest one declared in the chain of scopes; where the name
/// has no declared value, it is copied as it is.
pub proof fn lemma_name_written(trace: Seq<(CodeAnalysisObject, u8, bool, Map<u16, u16>)>, k: int)
    requires
        walk(trace),
        0 <= k < trace.len() - 1,
        trace[k].1 == 0,
        trace[k].0.last_char == 0,
        is_name_byte(read_byte(trace[k].0)),
        !(48 <= read_byte(trace[k].0) <= 57),
        read_byte(trace[k].0) != characters::GRAVE_ACCENT,
        !reads_function(next_read(trace[k].0)),
        !declaration_ready(next_read(trace[k].0)),
        find_value_ready(next_read(trace[k].0), counts_started(next_read(trace[k].0), trace[k].3)),
    ensures
        ({
            let m = next_read(trace[k].0);
            let out = trace[k + 1].0.current_scope.characters@;
            let before = trace[k].0.current_scope.characters@;
            match chain_find(m.current_scope, name_at(m)) {
                Some(v) => out == before + name_bytes(v.new_name),
                None => (forall|j: int| m.i_buffer <= j < name_end(m.buf(), m.i_buffer + 1)
                    ==> #[trigger] m.buf()[j] < 128) ==> out == before + name_at(m),
            }
        }),
{
    assert(step_at(trace, k));
    let x = trace[k];
    let y = trace[k + 1];
    let m = next_read(x.0);
    let h = choose|h: CodeAnalysisObject|
        #![trigger byte_handled(m, h, x.1, y.1, x.2, y.2, x.3, y.3)]
        byte_handled(m, h, x.1, y.1, x.2, y.2, x.3, y.3) && y.0 == stepped_past(h);
    assert(js_handled(m, h, x.1, y.1, x.2, y.2, x.3, y.3));
    assert(reset_last_char(m) == m);
    assert(name_handled(m, h, x.3, y.3));
    assert(m.has_room(1));
    let j = name_end(m.buf(), m.i_buffer + 1);
    crate::quoted::lemma_name_end_bounds(m.buf(), m.i_buffer + 1);
    if chain_find(m.current_scope, name_at(m)) is None {
        if forall|i: int| m.i_buffer <= i < j ==> #[trigger] m.buf()[i] < 128 {
            assert(m.has_room(BUFFER_LEN as int));
            assert(h.i_buffer + 1 == j);
            assert(forall|i: int| m.i_buffer <= i <= h.i_buffer ==> #[trigger] m.buf()[i] < 128);
        }
    }
}

/// Outside quotes, a declaration with `let`, `const` or `var` gives the declared name
/// a short name: the step writes the keyword, declares the name in the current scope
/// and writes its short name (see `declaration_handled`).
pub proof fn lemma_declaration_written(trace: Seq<(CodeAnalysisObject, u8, bool, Map<u16, u16>)>, k: int)
    requires
        walk(trace),
        0 <= k < trace.len() - 1,
        trace[k].1 == 0,
        trace[k].0.last_char == 0,
        is_name_byte(read_byte(trace[k].0)),
        !(48 <= read_byte(trace[k].0) <= 57),
        read_byte(trace[k].0) != characters::GRAVE_ACCENT,
        declaration_ready(next_read(trace[k].0)),
    ensures
        exists|h: CodeAnalysisObject|
            #![trigger declaration_handled(next_read(trace[k].0), h)]
            declaration_handled(next_read(trace[k].0), h) && trace[k + 1].0 == stepped_past(h),
        trace[k + 1].3 == trace[k].3,
{
    assert(step_at(trace, k));
    let x = trace[k];
    let y = trace[k + 1];
    let m = next_read(x.0);
    let h = choose|h: CodeAnalysisObject|
        #![trigger byte_handled(m, h, x.1, y.1, x.2, y.2, x.3, y.3)]
        byte_handled(m, h, x.1, y.1, x.2, y.2, x.3, y.3) && y.0 == stepped_past(h);
    assert(js_handled(m, h, x.1, y.1, x.2, y.2, x.3, y.3));
    assert(reset_last_char(m) == m);
    assert(name_handled(m, h, x.3, y.3));
    assert(!reads_function(m)) by {
        if reads_function(m) {
            assert(m.buf()[m.i_buffer as int] == 102);
        }
    }
    assert(declaration_handled(m, h));
}

/// Outside quotes, a space between a name and a number is kept: when the walk reads
/// a space that follows a name byte and then a digit, the output gains exactly one
/// space and the digit (so `return 1` does not become `return1`).
pub proof fn law_space_kept_before_number(trace: Seq<(CodeAnalysisObject, u8, bool, Map<u16, u16>)>, k: int)
    requires
        walk(trace),
        0 <= k,
        k + 2 < trace.len(),
        trace[k].1 == 0,
        trace[k].0.last_char == 0,
        read_byte(trace[k].0) == characters::SPACE,
        is_name_byte(byte_before(next_read(trace[k].0))),
        48 <= read_byte(trace[k + 1].0) <= 57,
    ensures
        trace[k + 2].0.current_scope.characters@ == trace[k].0.current_scope.characters@ + seq![
            characters::SPACE,
            read_byte(trace[k + 1].0),
        ],
{
    assert(step_at(trace, k));
    assert(step_at(trace, k + 1));
    let x = trace[k];
    let y = trace[k + 1];
    let z = trace[k + 2];
    let m = next_read(x.0);
    let h = choose|h: CodeAnalysisObject|
        #![trigger byte_handled(m, h, x.1, y.1, x.2, y.2, x.3, y.3)]
        byte_handled(m, h, x.1, y.1, x.2, y.2, x.3, y.3) && y.0 == stepped_past(h);
    assert(js_handled(m, h, x.1, y.1, x.2, y.2, x.3, y.3));
    assert(h.last_char == characters::SPACE);
    assert(y.1 == 0);
    let m2 = next_read(y.0);
    assert(m2.last_char == characters::SPACE);
    assert(m2.current_scope == x.0.current_scope);
    let h2 = choose|h: CodeAnalysisObject|
        #![trigger byte_handled(m2, h, y.1, z.1, y.2, z.2, y.3, z.3)]
        byte_handled(m2, h, y.1, z.1, y.2, z.2, y.3, z.3) && z.0 == stepped_past(h);
    assert(js_handled(m2, h2, y.1, z.1, y.2, z.2, y.3, z.3));
}

/// Outside quotes, a space between two names is kept as one space: when the walk
/// reads a space that follows a name byte and then the first byte of a name (no
/// `function` keyword), the output keeps what it had, then one space, and goes on
/// from there.
pub proof fn law_space_kept_between_names(trace: Seq<(CodeAnalysisObject, u8, bool, Map<u16, u16>)>, k: int)
    requires
        walk(trace),
        0 <= k,
        k + 2 < trace.len(),
        trace[k].1 == 0,
        trace[k].0.last_char == 0,
        read_byte(trace[k].0) == characters::SPACE,
        is_name_byte(byte_before(next_read(trace[k].0))),
        is_name_byte(read_byte(trace[k + 1].0)),
        !(48 <= read_byte(trace[k + 1].0) <= 57),
        read_byte(trace[k + 1].0) != characters::GRAVE_ACCENT,
        !at_function_keyword(next_read(trace[k + 1].0)),
    ensures
        ({
            let before = trace[k].0.current_scope.characters@;
            let after = trace[k + 2].0.current_scope.characters@;
            &&& after.len() > before.len()
            &&& after.subrange(0, before.len() + 1int) == before.push(characters::SPACE)
        }),
{
    assert(step_at(trace, k));
    assert(step_at(trace, k + 1));
    let x = trace[k];
    let y = trace[k + 1];
    let z = trace[k + 2];
    let m = next_read(x.0);
    let h = choose|h: CodeAnalysisObject|
        #![trigger byte_handled(m, h, x.1, y.1, x.2, y.2, x.3, y.3)]
        byte_handled(m, h, x.1, y.1, x.2, y.2, x.3, y.3) && y.0 == stepped_past(h);
    assert(js_handled(m, h, x.1, y.1, x.2, y.2, x.3, y.3));
    assert(h.last_char == characters::SPACE);
    let m2 = next_read(y.0);
    assert(m2.last_char == characters::SPACE);
    assert(m2.current_scope == x.0.current_scope);
    let h2 = choose|h: CodeAnalysisObject|
        #![trigger byte_handled(m2, h, y.1, z.1, y.2, z.2, y.3, z.3)]
        byte_handled(m2, h, y.1, z.1, y.2, z.2, y.3, z.3) && z.0 == stepped_past(h);
    assert(js_handled(m2, h2, y.1, z.1, y.2, z.2, y.3, z.3));
    let mid = choose|mid: CodeAnalysisObject|
        #![trigger name_handled(mid, h2, y.3, z.3)]
        {
            &&& mid.added_chars(&reset_last_char(m2), seq![characters::SPACE])
            &&& name_handled(mid, h2, y.3, z.3)
            &&& z.2 == (reads_function(mid) || y.2)
        };
    let before = x.0.current_scope.characters@;
    let spaced = before.push(characters::SPACE);
    assert(mid.current_scope.characters@ =~= spaced);
    assert(!reads_function(mid));
    if declaration_ready(mid) {
        assert(declaration_handled(mid, h2));
        let (pre, mid2, v) = choose|pre: JsScope, mid2: JsScope, v: Value|
            #![trigger declared(pre, declared_name(mid), mid2, v)]
            {
                &&& pre.characters@ == mid.current_scope.characters@ + mid.buf().subrange(
                    mid.i_buffer as int,
                    declared_name_start(mid),
                )
                &&& pre.same_but_characters(&mid.current_scope)
                &&& declared(pre, declared_name(mid), mid2, v)
                &&& h2.current_scope.characters@ == mid2.characters@ + name_bytes(v.value_new_name)
                &&& h2.current_scope.same_but_characters(&mid2)
                &&& forall|c: int|
                    0 <= c < 128 ==> #[trigger] h2.character_amounts.one_byte_chars@[c]
                        == mid.character_amounts.one_byte_chars@[c] + occurrences(
                        mid.buf().subrange(mid.i_buffer as int, declared_name_start(mid)),
                        c as u8,
                    ) + occurrences(name_bytes(v.value_new_name), c as u8)
            };
        let out = h2.current_scope.characters@;
        assert(out.subrange(0, spaced.len() as int) =~= spaced);
    } else {
        assert(name_read(mid, h2, y.3, z.3));
        let out = h2.current_scope.characters@;
        if chain_find(mid.current_scope, name_at(mid)) is Some && find_value_ready(mid, counts_started(mid, y.3)) {
            assert(out.subrange(0, spaced.len() as int) =~= spaced);
        } else {
            assert(out.subrange(0, spaced.len() as int) =~= spaced) by {
                assert(out.subrange(0, spaced.len() as int) == mid.current_scope.characters@);
            }
        }
    }
    assert(z.0.current_scope == h2.current_scope);
}

/// Step `k` of `trace`.
pub open spec fn step_at(trace: Seq<(CodeAnalysisObject, u8, bool, Map<u16, u16>)>, k: int) -> bool {
    walk_step(trace[k], trace[k + 1])
}

/// `trace` is a walk: each state comes from the one before by one step.
pub open spec fn walk(trace: Seq<(CodeAnalysisObject, u8, bool, Map<u16, u16>)>) -> bool {
    &&& trace.len() >= 1
    &&& forall|k: int| 0 <= k < trace.len() - 1 ==> #[trigger] step_at(trace, k)
}

/// Reads one buffer of input: what the previous buffer left unfinished (a comment,
/// an `else` being recognized) goes on first, then every byte is handled, inside a
/// quote by `find_quote_chars`, else by `js_step`. Tells whether the whole buffer
/// was read (`false` only when the output has no room left); when it was, what
/// comes out is the end of a walk (`walk`) that starts where the buffer resumed
/// (`resumed`) and goes byte by byte to the end of the buffer.
pub fn compress_buffer(
    code_analysis_object: &mut CodeAnalysisObject,
    buffer_bytes: [u8; 1024],
    quote_char: &mut u8,
    function_body: &mut bool,
    going_through: &mut GoingThrough,
    all_values_count: &mut HashMap<u16, u16>,
) -> (complete: bool)
    requires
        old(code_analysis_object).wf(),
        old(code_analysis_object).last_index <= BUFFER_LEN,
    ensures
        final(code_analysis_object).wf(),
        final(code_analysis_object).previous_buffer == old(code_analysis_object).current_buffer,
        final(code_analysis_object).current_buffer == buffer_bytes,
        complete ==> final(code_analysis_object).last_index == BUFFER_LEN,
        !complete ==> !final(code_analysis_object).has_room(8192),
        complete ==> final(code_analysis_object).i_buffer == BUFFER_LEN
            && final(code_analysis_object).buffer_ref_current
            && !final(code_analysis_object).going_to_current,
        *final(going_through) == *old(going_through),
        complete ==> exists|start: CodeAnalysisObject, trace: Seq<(CodeAnalysisObject, u8, bool, Map<u16, u16>)>|
            #![trigger resumed(*old(code_analysis_object), buffer_bytes, start), walk(trace)]
            {
                &&& resumed(*old(code_analysis_object), buffer_bytes, start)
                &&& walk(trace)
                &&& trace[0] == (
                    start,
                    *old(quote_char),
                    *old(function_body),
                    old(all_values_count)@,
                )
                &&& *final(code_analysis_object) == (CodeAnalysisObject {
                    last_index: BUFFER_LEN,
                    going_to_current: false,
                    ..trace.last().0
                })
                &&& *final(quote_char) == trace.last().1
                &&& *final(function_body) == trace.last().2
                &&& final(all_values_count)@ == trace.last().3
            },
{
    let ghost o = *code_analysis_object;
    code_analysis_object.receive_buffer(buffer_bytes);
    assert(*code_analysis_object == received(o, buffer_bytes));
    if code_analysis_object.i_buffer < BUFFER_LEN {
        let continuing = match code_analysis_object.previous_buffer_state {
            PreviousBufferState::WaitingIfStatementFirstI => {
                code_analysis_object.verify_if_else_statement(false);
                false
            },
            PreviousBufferState::WaitingIfStatementF => {
                code_analysis_object.verify_if_else_statement(true);
                false
            },
            PreviousBufferState::JSComment => {
                code_analysis_object.go_through_js_comment();
                true
            },
            PreviousBufferState::JSInlineComment => {
                code_analysis_object.go_through_js_inline_comment();
                true
            },
            PreviousBufferState::HTMLComment => {
                skip_html_comment(code_analysis_object);
                true
            },
            _ => false,
        };
        if continuing && code_analysis_object.i_buffer < BUFFER_LEN {
            if code_analysis_object.i_buffer + 1 < BUFFER_LEN {
                code_analysis_object.previous_buffer_state = PreviousBufferState::Code;
            }
            code_analysis_object.i_buffer = code_analysis_object.i_buffer + 1;
        }
    }
    let ghost start = *code_analysis_object;
    assert(resumed(o, buffer_bytes, start));
    let ghost mut trace: Seq<(CodeAnalysisObject, u8, bool, Map<u16, u16>)> = seq![
        (start, *quote_char, *function_body, all_values_count@),
    ];
    loop
        invariant_except_break
            trace.last() == (
                *code_analysis_object,
                *quote_char,
                *function_body,
                all_values_count@,
            ),
        invariant
            code_analysis_object.wf(),
            code_analysis_object.previous_buffer == old(code_analysis_object).current_buffer,
            code_analysis_object.current_buffer == buffer_bytes,
            *going_through == *old(going_through),
            walk(trace),
            trace[0] == (start, *old(quote_char), *old(function_body), old(all_values_count)@),
        ensures
            code_analysis_object.wf(),
            code_analysis_object.previous_buffer == old(code_analysis_object).current_buffer,
            code_analysis_object.current_buffer == buffer_bytes,
            *going_through == *old(going_through),
            code_analysis_object.ended(),
            walk(trace),
            trace[0] == (start, *old(quote_char), *old(function_body), old(all_values_count)@),
            *code_analysis_object == (CodeAnalysisObject { going_to_current: false, ..trace.last().0 }),
            trace.last().1 == *quote_char,
            trace.last().2 == *function_body,
            trace.last().3 == all_values_count@,
        decreases 2 * BUFFER_LEN - code_analysis_object.pos(),
    {
        if code_analysis_object.i_buffer == BUFFER_LEN && code_analysis_object.buffer_ref_current
            && !code_analysis_object.going_to_current {
            break ;
        }
        let ghost head = *code_analysis_object;
        if !code_analysis_object.check_index() {
            break ;
        }
        if !code_analysis_object.room_for(8192) {
            return false;
        }
        let ghost before = *code_analysis_object;
        assert(before == next_read(head));
        let ghost q0 = *quote_char;
        let ghost fb0 = *function_body;
        let ghost c0 = all_values_count@;
        if *quote_char != 0 {
            find_quote_chars(quote_char, going_through, code_analysis_object, all_values_count);
        } else {
            js_step(code_analysis_object, quote_char, function_body, all_values_count);
        }
        let ghost after = *code_analysis_object;
        assert(byte_handled(before, after, q0, *quote_char, fb0, *function_body, c0, all_values_count@));
        if code_analysis_object.i_buffer < BUFFER_LEN {
            code_analysis_object.i_buffer = code_analysis_object.i_buffer + 1;
        }
        assert(*code_analysis_object == stepped_past(after));
        assert(code_analysis_object.pos() > head.pos());
        proof {
            let old_trace = trace;
            let next = (*code_analysis_object, *quote_char, *function_body, all_values_count@);
            let a = old_trace.last();
            assert(a.0 == head);
            assert(next_read(a.0) == before);
            assert(a.0.i_buffer == BUFFER_LEN ==> !a.0.going_to_current);
            assert(before.has_room(8192));
            assert(byte_handled(next_read(a.0), after, a.1, next.1, a.2, next.2, a.3, next.3));
            assert(next.0 == stepped_past(after));
            assert(walk_step(a, next));
            trace = old_trace.push(next);
            assert forall|k: int| 0 <= k < trace.len() - 1 implies #[trigger] step_at(trace, k) by {
                if k < old_trace.len() - 1 {
                    assert(step_at(old_trace, k));
                    assert(trace[k] == old_trace[k]);
                    assert(trace[k + 1] == old_trace[k + 1]);
                } else {
                    assert(trace[k] == old_trace.last());
                    assert(trace[k + 1] == next);
                }
            }
        }
    }
    code_analysis_object.last_index = BUFFER_LEN;
    true
}

} // verus!
