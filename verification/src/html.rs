//! The text between HTML tags keeps its spaces and newlines: before the
//! whitespace is squeezed out of the code, they are turned into the characters
//! `ķ` and `Ĺ`, and turned back once the output is ready.
use vstd::prelude::*;

verus! {

/// The first match of the regular expression `pattern` in `text`, as the byte
/// offsets of the whole match and of its first group; `None` when the pattern is
/// not valid, nothing matches, or the first group takes no part in the match.
pub uninterp spec fn first_capture(pattern: Seq<char>, text: Seq<u8>) -> Option<(usize, usize, usize, usize)>;

/// Calls `regex::bytes::Regex::new` and `Regex::captures`, and reads the offsets of
/// groups 0 and 1 with `Captures::get`, `Match::start` and `Match::end`. Claimed: the
/// result is `first_capture` of the pattern and the text, and (as the regex
/// documentation guarantees for a match) each range starts before it ends, within
/// the text.
#[verifier::external_body]
fn regex_first_capture(pattern: &str, text: &[u8]) -> (r: Option<(usize, usize, usize, usize)>)
    ensures
        r == first_capture(pattern@, text@),
        r matches Some(c) ==> c.0 <= c.1 <= text@.len() && c.2 <= c.3 <= text@.len(),
{
    let re = match regex::bytes::Regex::new(pattern) {
        Ok(re) => re,
        Err(_) => return None,
    };
    let caps = match re.captures(text) {
        Some(caps) => caps,
        None => return None,
    };
    match (caps.get(0), caps.get(1)) {
        (Some(full), Some(group)) => Some((full.start(), full.end(), group.start(), group.end())),
        _ => None,
    }
}

/// The first byte of `ķ` and `Ĺ` in UTF-8.
pub const MARK_LEAD: u8 = 0xC4;

/// The second byte of `ķ`, which stands for a space.
pub const SPACE_MARK: u8 = 0xB7;

/// The second byte of `Ĺ`, which stands for a newline.
pub const NEWLINE_MARK: u8 = 0xB9;

/// `t` with each space written `ķ` and each newline written `Ĺ`.
pub open spec fn escape_spaces(t: Seq<u8>) -> Seq<u8>
    decreases t.len(),
{
    if t.len() == 0 {
        Seq::empty()
    } else {
        let head = if t[0] == 32 {
            seq![MARK_LEAD, SPACE_MARK]
        } else if t[0] == 10 {
            seq![MARK_LEAD, NEWLINE_MARK]
        } else {
            seq![t[0]]
        };
        head + escape_spaces(t.skip(1))
    }
}

/// `t` with each `ķ` written back as a space and each `Ĺ` as a newline.
pub open spec fn restore_spaces(t: Seq<u8>) -> Seq<u8>
    decreases t.len(),
{
    if t.len() == 0 {
        Seq::empty()
    } else if t.len() > 1 && t[0] == MARK_LEAD && t[1] == SPACE_MARK {
        seq![32u8] + restore_spaces(t.skip(2))
    } else if t.len() > 1 && t[0] == MARK_LEAD && t[1] == NEWLINE_MARK {
        seq![10u8] + restore_spaces(t.skip(2))
    } else {
        seq![t[0]] + restore_spaces(t.skip(1))
    }
}

/// Writing the spaces and newlines back gives the text again, for a text that holds
/// no byte `0xC4` of its own.
pub proof fn lemma_restore_escape(t: Seq<u8>)
    requires
        forall|k: int| 0 <= k < t.len() ==> t[k] != MARK_LEAD,
    ensures
        restore_spaces(escape_spaces(t)) == t,
    decreases t.len(),
{
    if t.len() > 0 {
        let rest = escape_spaces(t.skip(1));
        let e = escape_spaces(t);
        lemma_restore_escape(t.skip(1));
        if t[0] == 32 {
            assert(e == seq![MARK_LEAD, SPACE_MARK] + rest);
            assert(e.skip(2) =~= rest);
        } else if t[0] == 10 {
            assert(e == seq![MARK_LEAD, NEWLINE_MARK] + rest);
            assert(e.skip(2) =~= rest);
        } else {
            assert(e == seq![t[0]] + rest);
            assert(e.skip(1) =~= rest);
        }
        assert(t =~= seq![t[0]] + t.skip(1));
    }
}

/// Bytes that hold no `0xC4` pass through `restore_spaces` unchanged.
pub proof fn lemma_restore_plain_prefix(a: Seq<u8>, b: Seq<u8>)
    requires
        forall|k: int| 0 <= k < a.len() ==> a[k] != MARK_LEAD,
    ensures
        restore_spaces(a + b) == a + restore_spaces(b),
    decreases a.len(),
{
    if a.len() > 0 {
        let ab = a + b;
        assert(ab[0] == a[0]);
        assert(ab.skip(1) =~= a.skip(1) + b);
        lemma_restore_plain_prefix(a.skip(1), b);
        assert(a =~= seq![a[0]] + a.skip(1));
    } else {
        assert(a + b =~= b);
    }
}

/// Escaped text followed by anything comes back first when it held no `0xC4`.
pub proof fn lemma_restore_escaped_prefix(m: Seq<u8>, b: Seq<u8>)
    requires
        forall|k: int| 0 <= k < m.len() ==> m[k] != MARK_LEAD,
    ensures
        restore_spaces(escape_spaces(m) + b) == m + restore_spaces(b),
    decreases m.len(),
{
    if m.len() > 0 {
        let rest = escape_spaces(m.skip(1));
        let e = escape_spaces(m);
        let eb = e + b;
        lemma_restore_escaped_prefix(m.skip(1), b);
        if m[0] == 32 {
            assert(e == seq![MARK_LEAD, SPACE_MARK] + rest);
            assert(eb[0] == MARK_LEAD && eb[1] == SPACE_MARK);
            assert(eb.skip(2) =~= rest + b);
        } else if m[0] == 10 {
            assert(e == seq![MARK_LEAD, NEWLINE_MARK] + rest);
            assert(eb[0] == MARK_LEAD && eb[1] == NEWLINE_MARK);
            assert(eb.skip(2) =~= rest + b);
        } else {
            assert(e == seq![m[0]] + rest);
            assert(eb[0] == m[0]);
            assert(eb.skip(1) =~= rest + b);
        }
        assert(m =~= seq![m[0]] + m.skip(1));
    } else {
        assert(escape_spaces(m) + b =~= b);
    }
}

/// `t` with each space written `ķ` and each newline written `Ĺ`.
pub fn escape_html_spaces(t: &[u8]) -> (r: Vec<u8>)
    ensures
        r@ == escape_spaces(t@),
{
    let mut out: Vec<u8> = Vec::new();
    let mut i: usize = 0;
    assert(t@.skip(0) =~= t@);
    assert(out@ + escape_spaces(t@) =~= escape_spaces(t@));
    while i < t.len()
        invariant
            i <= t@.len(),
            out@ + escape_spaces(t@.skip(i as int)) == escape_spaces(t@),
        decreases t@.len() - i,
    {
        let ghost before = out@;
        let ghost rest = t@.skip(i as int);
        assert(rest.skip(1) =~= t@.skip(i + 1));
        let b = t[i];
        if b == 32 {
            out.push(MARK_LEAD);
            out.push(SPACE_MARK);
        } else if b == 10 {
            out.push(MARK_LEAD);
            out.push(NEWLINE_MARK);
        } else {
            out.push(b);
        }
        i = i + 1;
        assert(out@ + escape_spaces(t@.skip(i as int)) =~= before + escape_spaces(rest));
    }
    assert(t@.skip(i as int) =~= Seq::<u8>::empty());
    assert(out@ + Seq::<u8>::empty() =~= out@);
    out
}

/// `t` with each `ķ` written back as a space and each `Ĺ` as a newline.
pub fn restore_html_spaces(t: &[u8]) -> (r: Vec<u8>)
    ensures
        r@ == restore_spaces(t@),
{
    let mut out: Vec<u8> = Vec::new();
    let mut i: usize = 0;
    assert(t@.skip(0) =~= t@);
    assert(out@ + restore_spaces(t@) =~= restore_spaces(t@));
    while i < t.len()
        invariant
            i <= t@.len(),
            out@ + restore_spaces(t@.skip(i as int)) == restore_spaces(t@),
        decreases t@.len() - i,
    {
        let ghost before = out@;
        let ghost rest = t@.skip(i as int);
        let b = t[i];
        if b == MARK_LEAD && i + 1 < t.len() && t[i + 1] == SPACE_MARK {
            out.push(32);
            assert(rest.skip(2) =~= t@.skip(i + 2));
            i = i + 2;
        } else if b == MARK_LEAD && i + 1 < t.len() && t[i + 1] == NEWLINE_MARK {
            out.push(10);
            assert(rest.skip(2) =~= t@.skip(i + 2));
            i = i + 2;
        } else {
            out.push(b);
            assert(rest.skip(1) =~= t@.skip(i + 1));
            i = i + 1;
        }
        assert(out@ + restore_spaces(t@.skip(i as int)) =~= before + restore_spaces(rest));
    }
    assert(t@.skip(i as int) =~= Seq::<u8>::empty());
    assert(out@ + Seq::<u8>::empty() =~= out@);
    out
}

/// A copy of `t`.
fn copy_bytes(t: &[u8]) -> (r: Vec<u8>)
    ensures
        r@ == t@,
{
    let mut out: Vec<u8> = Vec::new();
    let mut k: usize = 0;
    while k < t.len()
        invariant
            k <= t@.len(),
            out@ == t@.subrange(0, k as int),
        decreases t@.len() - k,
    {
        out.push(t[k]);
        k = k + 1;
        assert(out@ =~= t@.subrange(0, k as int));
    }
    assert(t@.subrange(0, k as int) =~= t@);
    out
}

/// `s` with each occurrence of `from`, from left to right and without overlaps,
/// replaced by `to`; an empty `from` replaces nothing.
pub open spec fn replace_all(s: Seq<u8>, from: Seq<u8>, to: Seq<u8>) -> Seq<u8>
    decreases s.len(),
{
    if s.len() == 0 {
        s
    } else if 0 < from.len() <= s.len() && s.subrange(0, from.len() as int) == from {
        to + replace_all(s.skip(from.len() as int), from, to)
    } else {
        seq![s[0]] + replace_all(s.skip(1), from, to)
    }
}

/// Whether `from` stands in `s` at `i`.
fn occurs_at(s: &[u8], i: usize, from: &[u8]) -> (r: bool)
    requires
        i <= s@.len(),
    ensures
        r == (from@.len() <= s@.len() - i && s@.subrange(i as int, i + from@.len()) == from@),
{
    if from.len() > s.len() - i {
        return false;
    }
    let n: usize = s.len();
    let mut k: usize = 0;
    while k < from.len()
        invariant
            n == s@.len(),
            i <= s@.len(),
            from@.len() <= s@.len() - i,
            k <= from@.len(),
            forall|j: int| 0 <= j < k ==> s@[i + j] == from@[j],
        decreases from@.len() - k,
    {
        assert(i + k < n);
        if s[i + k] != from[k] {
            assert(s@.subrange(i as int, i + from@.len())[k as int] != from@[k as int]);
            return false;
        }
        k = k + 1;
    }
    assert(s@.subrange(i as int, i + from@.len()) =~= from@);
    true
}

/// `s` with each occurrence of `from` replaced by `to` (see `replace_all`).
pub fn replace_all_bytes(s: &[u8], from: &[u8], to: &[u8]) -> (r: Vec<u8>)
    ensures
        r@ == replace_all(s@, from@, to@),
{
    let mut out: Vec<u8> = Vec::new();
    let mut i: usize = 0;
    assert(s@.skip(0) =~= s@);
    assert(out@ + replace_all(s@, from@, to@) =~= replace_all(s@, from@, to@));
    while i < s.len()
        invariant
            i <= s@.len(),
            out@ + replace_all(s@.skip(i as int), from@, to@) == replace_all(s@, from@, to@),
        decreases s@.len() - i,
    {
        let ghost before = out@;
        let ghost rest = s@.skip(i as int);
        if from.len() > 0 && occurs_at(s, i, from) {
            assert(rest.subrange(0, from@.len() as int) =~= s@.subrange(i as int, i + from@.len()));
            assert(rest.skip(from@.len() as int) =~= s@.skip(i + from@.len()));
            let mut k: usize = 0;
            while k < to.len()
                invariant
                    k <= to@.len(),
                    out@ == before + to@.subrange(0, k as int),
                decreases to@.len() - k,
            {
                out.push(to[k]);
                k = k + 1;
                assert(out@ =~= before + to@.subrange(0, k as int));
            }
            assert(to@.subrange(0, to@.len() as int) =~= to@);
            i = i + from.len();
        } else {
            assert(rest.skip(1) =~= s@.skip(i + 1));
            assert(rest[0] == s@[i as int]);
            proof {
                if 0 < from@.len() <= rest.len() {
                    assert(rest.subrange(0, from@.len() as int) =~= s@.subrange(i as int, i + from@.len()));
                }
            }
            out.push(s[i]);
            i = i + 1;
        }
        assert(out@ + replace_all(s@.skip(i as int), from@, to@) =~= before + replace_all(rest, from@, to@));
    }
    assert(s@.skip(i as int) =~= Seq::<u8>::empty());
    assert(out@ + Seq::<u8>::empty() =~= out@);
    out
}

/// The text once the first group of a match, which `capture` marks with the whole
/// match, has its spaces and newlines escaped: in the whole match each occurrence of
/// the group is escaped, and in the text each occurrence of the whole match is
/// replaced by that; unchanged without a capture, or with one that does not fit in
/// the text.
pub open spec fn protected_text(text: Seq<u8>, capture: Option<(usize, usize, usize, usize)>) -> Seq<u8> {
    match capture {
        Some(c) => if c.0 <= c.1 <= text.len() && c.2 <= c.3 <= text.len() {
            let full = text.subrange(c.0 as int, c.1 as int);
            let group = text.subrange(c.2 as int, c.3 as int);
            replace_all(text, full, replace_all(full, group, escape_spaces(group)))
        } else {
            text
        },
        None => text,
    }
}

/// The part of `text` from `start` to `end`.
fn copy_range(text: &[u8], start: usize, end: usize) -> (r: Vec<u8>)
    requires
        start <= end <= text@.len(),
    ensures
        r@ == text@.subrange(start as int, end as int),
{
    let mut part: Vec<u8> = Vec::new();
    let mut k: usize = start;
    while k < end
        invariant
            start <= k <= end <= text@.len(),
            part@ == text@.subrange(start as int, k as int),
        decreases end - k,
    {
        part.push(text[k]);
        k = k + 1;
        assert(part@ =~= text@.subrange(start as int, k as int));
    }
    part
}

/// Escapes the spaces and newlines of the part of `text` that `capture` marks (see
/// `protected_text`).
pub fn protect_captured(text: &[u8], capture: Option<(usize, usize, usize, usize)>) -> (r: Vec<u8>)
    ensures
        r@ == protected_text(text@, capture),
{
    match capture {
        Some((full_start, full_end, start, end)) => {
            if full_start <= full_end && full_end <= text.len() && start <= end && end <= text.len() {
                let full = copy_range(text, full_start, full_end);
                let group = copy_range(text, start, end);
                let escaped = escape_html_spaces(group.as_slice());
                let replacement = replace_all_bytes(full.as_slice(), group.as_slice(), escaped.as_slice());
                replace_all_bytes(text, full.as_slice(), replacement.as_slice())
            } else {
                copy_bytes(text)
            }
        },
        None => copy_bytes(text),
    }
}

/// Replacing, in a text with no `0xC4`, a piece by one that writes back to it,
/// writes back to the text: whatever follows, the text comes back first.
pub proof fn lemma_restore_replaced(t: Seq<u8>, from: Seq<u8>, to: Seq<u8>, b: Seq<u8>)
    requires
        forall|k: int| 0 <= k < t.len() ==> t[k] != MARK_LEAD,
        forall|c: Seq<u8>| #[trigger] restore_spaces(to + c) == from + restore_spaces(c),
    ensures
        restore_spaces(replace_all(t, from, to) + b) == t + restore_spaces(b),
    decreases t.len(),
{
    if t.len() == 0 {
        assert(replace_all(t, from, to) + b =~= b);
        assert(t + restore_spaces(b) =~= restore_spaces(b));
    } else if 0 < from.len() <= t.len() && t.subrange(0, from.len() as int) == from {
        let n = from.len() as int;
        let rest = replace_all(t.skip(n), from, to);
        lemma_restore_replaced(t.skip(n), from, to, b);
        assert(replace_all(t, from, to) + b =~= to + (rest + b));
        assert(restore_spaces(to + (rest + b)) == from + restore_spaces(rest + b));
        assert(t =~= from + t.skip(n));
        assert(from + (t.skip(n) + restore_spaces(b)) =~= t + restore_spaces(b));
    } else {
        let rest = replace_all(t.skip(1), from, to);
        lemma_restore_replaced(t.skip(1), from, to, b);
        assert(replace_all(t, from, to) + b =~= seq![t[0]] + (rest + b));
        lemma_restore_plain_prefix(seq![t[0]], rest + b);
        assert(t =~= seq![t[0]] + t.skip(1));
        assert(seq![t[0]] + (t.skip(1) + restore_spaces(b)) =~= t + restore_spaces(b));
    }
}

/// Writing the spaces and newlines back undoes the protection of the text inside
/// an HTML element: for a text that holds no byte `0xC4` of its own, whatever
/// part the capture marks.
pub proof fn lemma_restore_protected(text: Seq<u8>, capture: Option<(usize, usize, usize, usize)>)
    requires
        forall|k: int| 0 <= k < text.len() ==> text[k] != MARK_LEAD,
    ensures
        restore_spaces(protected_text(text, capture)) == text,
{
    lemma_restore_plain_prefix(text, Seq::empty());
    assert(text + Seq::<u8>::empty() =~= text);
    assert(restore_spaces(Seq::<u8>::empty()) =~= Seq::<u8>::empty());
    if let Some(c) = capture {
        if c.0 <= c.1 <= text.len() && c.2 <= c.3 <= text.len() {
            let full = text.subrange(c.0 as int, c.1 as int);
            let group = text.subrange(c.2 as int, c.3 as int);
            let inner = replace_all(full, group, escape_spaces(group));
            assert forall|d: Seq<u8>| #[trigger] restore_spaces(escape_spaces(group) + d) == group
                + restore_spaces(d) by {
                lemma_restore_escaped_prefix(group, d);
            }
            assert forall|d: Seq<u8>| #[trigger] restore_spaces(inner + d) == full + restore_spaces(d) by {
                lemma_restore_replaced(full, group, escape_spaces(group), d);
            }
            lemma_restore_replaced(text, full, inner, Seq::empty());
            assert(replace_all(text, full, inner) + Seq::<u8>::empty() =~= replace_all(text, full, inner));
        }
    }
}

/// The pattern of an HTML element around some text: the text is its first group.
pub open spec fn html_text_pattern() -> Seq<char> {
    "<.*>([^<]+)</.*>"@
}

/// Escapes the spaces and newlines of the text inside the first HTML element of
/// `text` (the first match of `<.*>([^<]+)</.*>`), so that they outlive the
/// squeezing of the whitespace.
pub fn protect_html_text(text: &[u8]) -> (r: Vec<u8>)
    ensures
        r@ == protected_text(text@, first_capture(html_text_pattern(), text@)),
{
    let pattern = "<.*>([^<]+)</.*>";
    let capture = regex_first_capture(pattern, text);
    protect_captured(text, capture)
}

} // verus!
