//! The state of the analysis while it walks through the input, one buffer of
//! 1024 bytes at a time.
use vstd::prelude::*;

use crate::characters;
use crate::code_analysis::{
    declared, some_two_char_free, InsideOf, JsScope, NewValueName, PreviousBufferState, Value,
};
use crate::compression::{
    big_char_added, is_big_char, is_continuation, CharacterAmounts,
};

verus! {

/// The size of the buffers in which the input arrives.
pub const BUFFER_LEN: usize = 1024;

/// The state of the analysis. Two buffers are kept: the one before the
/// current one holds the start of a token that the current buffer completes.
/// `buffer_ref_current` tells which of the two is read: with `i_buffer`, the
/// reading position is `i_buffer` in `previous_buffer ++ current_buffer`,
/// shifted by 1024 when the current buffer is read.
pub struct CodeAnalysisObject {
    pub previous_buffer: [u8; 1024],
    pub current_buffer: [u8; 1024],
    pub buffer_ref_current: bool,
    pub going_to_current: bool,
    pub last_index: usize,
    pub i_buffer: usize,
    pub last_char: u8,
    pub current_scope: JsScope,
    pub character_amounts: CharacterAmounts,
    pub current_char_bytes_remaining: u8,
    pub current_big_char: [u8; 4],
    pub previous_buffer_state: PreviousBufferState,
}

/// The number of bytes of a multi-byte character that starts with `lead`.
pub open spec fn big_char_len(lead: u8) -> int {
    if lead <= 223 {
        2
    } else if lead <= 239 {
        3
    } else {
        4
    }
}

/// The bytes of a multi-byte character gathered so far: its first byte, then
/// continuation bytes, then zeros; `remaining` bytes are still to come.
pub open spec fn big_char_in_progress(remaining: u8, c: [u8; 4]) -> bool {
    if remaining == 0 {
        c == [0u8, 0u8, 0u8, 0u8]
    } else {
        let len = big_char_len(c[0]);
        let filled = len - 1 - remaining;
        &&& 194 <= c[0] <= 247
        &&& 0 <= filled
        &&& forall|k: int| 1 <= k <= filled ==> is_continuation(#[trigger] c[k])
        &&& forall|k: int| filled < k < 4 ==> #[trigger] c[k] == 0
    }
}

/// The bytes of the multi-byte character in progress once `byte` is added to them.
pub open spec fn big_char_with(remaining: u8, c: [u8; 4], byte: u8) -> [u8; 4] {
    let at = big_char_len(c[0]) - remaining;
    [
        c[0],
        if at == 1 { byte } else { c[1] },
        if at == 2 { byte } else { c[2] },
        if at == 3 { byte } else { c[3] },
    ]
}

impl CodeAnalysisObject {
    /// The bytes the analysis reads from: the previous buffer, then the current one.
    pub open spec fn stream(&self) -> Seq<u8> {
        self.previous_buffer@ + self.current_buffer@
    }

    /// The reading position in `stream()`.
    pub open spec fn pos(&self) -> int {
        if self.buffer_ref_current {
            BUFFER_LEN + self.i_buffer
        } else {
            self.i_buffer as int
        }
    }

    /// The buffer being read.
    pub open spec fn buf(&self) -> Seq<u8> {
        if self.buffer_ref_current {
            self.current_buffer@
        } else {
            self.previous_buffer@
        }
    }

    /// Whether the current buffer has been read to its end.
    pub open spec fn ended(&self) -> bool {
        self.i_buffer == BUFFER_LEN && self.buffer_ref_current && !self.going_to_current
    }

    pub open spec fn wf(&self) -> bool {
        &&& self.current_scope.wf_chain()
        &&& self.character_amounts.wf()
        &&& self.i_buffer <= BUFFER_LEN
        &&& (self.buffer_ref_current == self.going_to_current || self.ended())
        &&& self.current_char_bytes_remaining <= 3
        &&& big_char_in_progress(self.current_char_bytes_remaining, self.current_big_char)
    }

    /// Whether `n` more one byte characters can be added: no count and no position overflows.
    pub open spec fn has_room(&self, n: int) -> bool {
        &&& self.current_scope.position() + n <= usize::MAX
        &&& forall|b: int| 0 <= b < 128 ==> self.character_amounts.one_byte_chars@[b] + n <= u32::MAX
    }

    /// Every field but the reading position and what the reading reports is the same.
    pub open spec fn same_but_reading(&self, other: &CodeAnalysisObject) -> bool {
        &&& self.previous_buffer == other.previous_buffer
        &&& self.current_buffer == other.current_buffer
        &&& self.current_scope == other.current_scope
        &&& self.character_amounts == other.character_amounts
        &&& self.current_char_bytes_remaining == other.current_char_bytes_remaining
        &&& self.current_big_char == other.current_big_char
    }

    /// Every field but the output (the current scope and the counts) is the same.
    pub open spec fn same_but_output(&self, other: &CodeAnalysisObject) -> bool {
        &&& self.previous_buffer == other.previous_buffer
        &&& self.current_buffer == other.current_buffer
        &&& self.buffer_ref_current == other.buffer_ref_current
        &&& self.going_to_current == other.going_to_current
        &&& self.last_index == other.last_index
        &&& self.i_buffer == other.i_buffer
        &&& self.last_char == other.last_char
        &&& self.current_char_bytes_remaining == other.current_char_bytes_remaining
        &&& self.current_big_char == other.current_big_char
        &&& self.previous_buffer_state == other.previous_buffer_state
    }

    /// The input and the reading position are the same.
    pub open spec fn same_input(&self, other: &CodeAnalysisObject) -> bool {
        &&& self.previous_buffer == other.previous_buffer
        &&& self.current_buffer == other.current_buffer
        &&& self.buffer_ref_current == other.buffer_ref_current
        &&& self.going_to_current == other.going_to_current
        &&& self.last_index == other.last_index
        &&& self.i_buffer == other.i_buffer
        &&& self.last_char == other.last_char
        &&& self.previous_buffer_state == other.previous_buffer_state
    }

    /// Every field but the current scope is the same.
    pub open spec fn same_but_scope(&self, other: &CodeAnalysisObject) -> bool {
        &&& self.same_but_output(other)
        &&& self.character_amounts == other.character_amounts
    }

    /// The state before any input: both buffers empty, the top scope open.
    pub fn new() -> (r: Self)
        ensures
            r.wf(),
            r.has_room(0),
            r.going_to_current,
            r.buffer_ref_current,
            r.i_buffer == 0,
            r.last_index == 0,
            r.last_char == 0,
            r.current_char_bytes_remaining == 0,
            r.previous_buffer_state == PreviousBufferState::Code,
            r.current_scope.parent_scope is None,
            r.current_scope.is_empty_scope(),
            r.current_scope.inside_of == InsideOf::NormalCode,
            r.current_big_char == [0u8, 0u8, 0u8, 0u8],
            r.previous_buffer@ == Seq::new(1024, |k: int| 0u8),
            r.current_buffer@ == Seq::new(1024, |k: int| 0u8),
            forall|b: int| 0 <= b < 128 ==> r.character_amounts.one_byte_chars@[b] == 0,
            forall|c: [u8; 4]| #[trigger] r.character_amounts.big_char_count(c) == 0,
    {
        let r = CodeAnalysisObject {
            previous_buffer: [0u8; 1024],
            current_buffer: [0u8; 1024],
            buffer_ref_current: true,
            going_to_current: true,
            last_index: 0,
            i_buffer: 0,
            last_char: 0,
            current_scope: JsScope::new(None, InsideOf::NormalCode),
            character_amounts: CharacterAmounts::new(),
            current_big_char: [0u8; 4],
            current_char_bytes_remaining: 0,
            previous_buffer_state: PreviousBufferState::Code,
        };
        assert(r.current_big_char =~= [0u8, 0u8, 0u8, 0u8]);
        assert(r.previous_buffer@ =~= Seq::new(1024, |k: int| 0u8));
        assert(r.current_buffer@ =~= Seq::new(1024, |k: int| 0u8));
        r
    }

    /// A new buffer of input arrives: the current one becomes the previous one, and the
    /// reading goes on where it stopped, in the new buffer or in the previous one.
    pub fn receive_buffer(&mut self, buffer_bytes: [u8; 1024])
        requires
            old(self).wf(),
            old(self).last_index <= BUFFER_LEN,
        ensures
            final(self).wf(),
            final(self).previous_buffer == old(self).current_buffer,
            final(self).current_buffer == buffer_bytes,
            final(self).going_to_current == old(self).going_to_current,
            final(self).buffer_ref_current == old(self).going_to_current,
            final(self).i_buffer == if old(self).going_to_current {
                0
            } else {
                old(self).last_index
            },
            final(self).last_index == old(self).last_index,
            final(self).last_char == old(self).last_char,
            final(self).current_scope == old(self).current_scope,
            final(self).character_amounts == old(self).character_amounts,
            final(self).current_char_bytes_remaining == old(self).current_char_bytes_remaining,
            final(self).current_big_char == old(self).current_big_char,
            final(self).previous_buffer_state == old(self).previous_buffer_state,
    {
        self.previous_buffer = self.current_buffer;
        self.current_buffer = buffer_bytes;
        if self.going_to_current {
            self.buffer_ref_current = true;
            self.i_buffer = 0;
        } else {
            self.buffer_ref_current = false;
            self.i_buffer = self.last_index;
        }
    }

    ///Verifies if it can keep iterating through the current buffer, or if it has to get a new buffer from the IO async task.
    pub fn check_index(&mut self) -> (r: bool)
        requires
            old(self).wf(),
        ensures
            final(self).wf(),
            final(self).same_but_reading(&*old(self)),
            final(self).last_index == old(self).last_index,
            final(self).last_char == old(self).last_char,
            final(self).previous_buffer_state == old(self).previous_buffer_state,
            !old(self).ended() ==> final(self).pos() == old(self).pos(),
            old(self).i_buffer < BUFFER_LEN ==> r && *final(self) == *old(self),
            old(self).i_buffer == BUFFER_LEN ==> {
                &&& final(self).going_to_current == !old(self).going_to_current
                &&& r == final(self).going_to_current
                &&& r ==> final(self).buffer_ref_current && final(self).i_buffer == 0
                &&& !r ==> final(self).ended()
            },
            r <==> final(self).i_buffer < BUFFER_LEN,
    {
        if self.i_buffer == BUFFER_LEN {
            self.going_to_current = !self.going_to_current;
            if self.going_to_current {
                self.buffer_ref_current = true;
                self.i_buffer = 0;
            }
            return self.going_to_current;
        }
        true
    }

    /// The byte at the reading position.
    pub fn get_char(&self) -> (r: u8)
        requires
            self.wf(),
            self.i_buffer < BUFFER_LEN,
        ensures
            r == self.buf()[self.i_buffer as int],
            r == self.stream()[self.pos()],
    {
        if self.buffer_ref_current {
            self.current_buffer[self.i_buffer]
        } else {
            self.previous_buffer[self.i_buffer]
        }
    }

    /// Adds a one byte character to the output of the current scope and counts it.
    pub fn add_one_byte_char(&mut self, byte: u8)
        requires
            old(self).wf(),
            byte < 128,
            old(self).has_room(1),
        ensures
            final(self).wf(),
            final(self).has_room(0),
            old(self).has_room(1) ==> forall|n: int| old(self).has_room(n + 1) ==> final(self).has_room(n),
            final(self).current_scope.characters@ == old(self).current_scope.characters@.push(byte),
            final(self).character_amounts.one_byte_chars@ == old(
                self,
            ).character_amounts.one_byte_chars@.update(
                byte as int,
                (old(self).character_amounts.one_byte_chars@[byte as int] + 1) as u32,
            ),
            final(self).character_amounts.two_byte_chars == old(self).character_amounts.two_byte_chars,
            final(self).character_amounts.three_byte_chars == old(self).character_amounts.three_byte_chars,
            final(self).character_amounts.four_byte_chars == old(self).character_amounts.four_byte_chars,
            final(self).current_scope.same_but_characters(&old(self).current_scope),
            final(self).same_but_output(&*old(self)),
    {
        self.current_scope.characters.push(byte);
        self.character_amounts.add_small_char(byte);
    }
}


impl CodeAnalysisObject {
    /// Adds a byte of a multi-byte character to the output; once the character is
    /// complete, it is counted.
    pub fn add_byte_for_big_char(&mut self, byte: u8)
        requires
            old(self).wf(),
            old(self).has_room(1),
            old(self).current_char_bytes_remaining == 0 ==> 194 <= byte <= 247,
            old(self).current_char_bytes_remaining > 0 ==> is_continuation(byte),
            old(self).current_char_bytes_remaining == 1 ==> old(
                self,
            ).character_amounts.big_char_count(
                big_char_with(1, old(self).current_big_char, byte),
            ) < u16::MAX,
        ensures
            final(self).wf(),
            final(self).current_scope.characters@ == old(self).current_scope.characters@.push(byte),
            final(self).current_scope.same_but_characters(&old(self).current_scope),
            final(self).character_amounts.one_byte_chars == old(self).character_amounts.one_byte_chars,
            final(self).previous_buffer == old(self).previous_buffer,
            final(self).current_buffer == old(self).current_buffer,
            final(self).buffer_ref_current == old(self).buffer_ref_current,
            final(self).going_to_current == old(self).going_to_current,
            final(self).last_index == old(self).last_index,
            final(self).i_buffer == old(self).i_buffer,
            final(self).last_char == old(self).last_char,
            final(self).previous_buffer_state == old(self).previous_buffer_state,
            old(self).current_char_bytes_remaining == 0 ==> {
                &&& final(self).current_char_bytes_remaining == big_char_len(byte) - 1
                &&& final(self).current_big_char == [byte, 0u8, 0u8, 0u8]
                &&& final(self).character_amounts == old(self).character_amounts
            },
            old(self).current_char_bytes_remaining > 1 ==> {
                &&& final(self).current_char_bytes_remaining == old(
                    self,
                ).current_char_bytes_remaining - 1
                &&& final(self).current_big_char == big_char_with(
                    old(self).current_char_bytes_remaining,
                    old(self).current_big_char,
                    byte,
                )
                &&& final(self).character_amounts == old(self).character_amounts
            },
            old(self).current_char_bytes_remaining == 1 ==> {
                let c = big_char_with(1, old(self).current_big_char, byte);
                &&& final(self).current_char_bytes_remaining == 0
                &&& final(self).current_big_char == [0u8, 0u8, 0u8, 0u8]
                &&& is_big_char(c)
                &&& big_char_added(old(self).character_amounts, final(self).character_amounts, c)
                &&& final(self).character_amounts.big_char_count(c) == old(
                    self,
                ).character_amounts.big_char_count(c) + 1
                &&& forall|d: [u8; 4]|
                    is_big_char(d) && d != c ==> (#[trigger] final(self).character_amounts.big_char_count(d))
                        == old(self).character_amounts.big_char_count(d)
            },
    {
        self.current_scope.characters.push(byte);
        if self.current_char_bytes_remaining == 0 {
            self.current_char_bytes_remaining = if byte <= 223 {
                //2 bytes
                1
            } else if byte <= 239 {
                //3 bytes
                2
            } else {
                //4 bytes
                3
            };
            self.current_big_char[0] = byte;
            assert(self.current_big_char =~= [byte, 0u8, 0u8, 0u8]);
        } else {
            let ghost rem = self.current_char_bytes_remaining;
            let ghost cb = self.current_big_char;
            self.current_char_bytes_remaining = self.current_char_bytes_remaining - 1;
            let mut i: usize = 1;
            while self.current_big_char[i] != 0
                invariant
                    1 <= i <= big_char_len(cb[0]) - rem,
                    self.current_big_char == cb,
                    big_char_in_progress(rem, cb),
                    rem > 0,
                decreases 4 - i,
            {
                i = i + 1;
            }
            assert(i == big_char_len(cb[0]) - rem);
            self.current_big_char[i] = byte;
            assert(self.current_big_char =~= big_char_with(rem, cb, byte));
            if self.current_char_bytes_remaining == 0 {
                let c = self.current_big_char;
                proof {
                    assert(c[0] == cb[0]);
                    if cb[0] <= 223 {
                        assert(c[1] == byte);
                        assert(c[2] == 0 && c[3] == 0);
                    } else if cb[0] <= 239 {
                        assert(is_continuation(c[1]));
                        assert(c[2] == byte && c[3] == 0);
                    } else {
                        assert(is_continuation(c[1]) && is_continuation(c[2]));
                        assert(c[3] == byte);
                    }
                }
                self.character_amounts.add_big_char(c);
                self.current_big_char = [0u8; 4];
                assert(self.current_big_char =~= [0u8, 0u8, 0u8, 0u8]);
            } else {
                let ghost c = self.current_big_char;
                assert(forall|k: int| 1 <= k <= big_char_len(c[0]) - 1 - (rem - 1) ==> is_continuation(#[trigger] c[k]));
            }
        }
    }
}


impl CodeAnalysisObject {
    /// Whether `n` more one byte characters can be added (see `has_room`).
    pub fn room_for(&self, n: usize) -> (r: bool)
        requires
            self.wf(),
        ensures
            r == self.has_room(n as int),
    {
        let len = self.current_scope.characters.len();
        let start = self.current_scope.starting_index;
        if start > usize::MAX - len || start + len > usize::MAX - n {
            return false;
        }
        if n > 0xFFFF_FFFFusize {
            proof {
                assert(!(self.character_amounts.one_byte_chars@[0] + n <= u32::MAX));
            }
            return false;
        }
        let m = n as u32;
        let mut b: usize = 0;
        while b < 128
            invariant
                b <= 128,
                m == n,
                forall|k: int| 0 <= k < b ==> self.character_amounts.one_byte_chars@[k] + n <= u32::MAX,
            decreases 128 - b,
        {
            if self.character_amounts.one_byte_chars[b] > u32::MAX - m {
                return false;
            }
            b = b + 1;
        }
        true
    }
}

/// Whether the input byte `byte` can go to the output now: a one byte character, the
/// first byte of a multi-byte character (one left unfinished is given up), or the
/// next byte of a well formed multi-byte character whose count is not full.
pub open spec fn byte_fits(o: CodeAnalysisObject, byte: u8) -> bool {
    ||| byte < 128
    ||| 194 <= byte <= 247
    ||| (o.current_char_bytes_remaining > 0 && is_continuation(byte) && (o.current_char_bytes_remaining
        == 1 ==> o.character_amounts.big_char_count(big_char_with(1, o.current_big_char, byte))
        < u16::MAX))
}

impl CodeAnalysisObject {
    /// Adds a byte of the input to the output of the current scope (see `byte_fits`);
    /// a byte that does not fit is left out. Tells whether the byte was added.
    pub fn add_byte(&mut self, byte: u8) -> (r: bool)
        requires
            old(self).wf(),
            old(self).has_room(1),
        ensures
            final(self).wf(),
            r == byte_fits(*old(self), byte),
            !r ==> *final(self) == *old(self),
            r ==> final(self).current_scope.characters@ == old(self).current_scope.characters@.push(byte),
            final(self).current_scope.same_but_characters(&old(self).current_scope),
            final(self).same_input(&*old(self)),
            byte < 128 ==> final(self).same_but_output(&*old(self)),
            forall|n: int| old(self).has_room(n + 1) ==> final(self).has_room(n),
            r && byte < 128 ==> final(self).character_amounts.one_byte_chars@ == old(
                self,
            ).character_amounts.one_byte_chars@.update(
                byte as int,
                (old(self).character_amounts.one_byte_chars@[byte as int] + 1) as u32,
            ),
            byte >= 128 ==> final(self).character_amounts.one_byte_chars == old(self).character_amounts.one_byte_chars,
    {
        if byte < 128 {
            self.add_one_byte_char(byte);
            return true;
        }
        if self.current_char_bytes_remaining == 0 {
            if 194 <= byte && byte <= 247 {
                self.add_byte_for_big_char(byte);
                return true;
            }
            return false;
        }
        if 194 <= byte && byte <= 247 {
            // A new character starts before the last one was complete: the bytes
            // of the unfinished one stay in the output, uncounted.
            self.current_char_bytes_remaining = 0;
            self.current_big_char = [0u8, 0u8, 0u8, 0u8];
            self.add_byte_for_big_char(byte);
            return true;
        }
        if !(0x80 <= byte && byte <= 0xBF) {
            return false;
        }
        if self.current_char_bytes_remaining == 1 {
            let lead = self.current_big_char[0];
            let mut c = self.current_big_char;
            let at: usize = if lead <= 223 {
                1
            } else if lead <= 239 {
                2
            } else {
                3
            };
            c[at] = byte;
            assert(c =~= big_char_with(1, self.current_big_char, byte));
            proof {
                let cb = self.current_big_char;
                if cb[0] <= 223 {
                    assert(c[2] == 0 && c[3] == 0);
                } else if cb[0] <= 239 {
                    assert(is_continuation(c[1]));
                    assert(c[3] == 0);
                } else {
                    assert(is_continuation(c[1]) && is_continuation(c[2]));
                }
            }
            if self.character_amounts.big_char_amount(c) == u16::MAX {
                return false;
            }
        }
        self.add_byte_for_big_char(byte);
        true
    }
}

/// Whether the `/` at `k` closes a multi-line comment whose opening `*` is at `start`
/// (`lc` is the byte before `start + 1`).
pub open spec fn comment_closes_at(b: Seq<u8>, start: int, lc: u8, k: int) -> bool {
    b[k] == characters::SLASH && (if k == start + 1 {
        lc
    } else {
        b[k - 1]
    }) == characters::ASTERIS
}

/// How the scan after `else` ends, from position `i` of `b`: spaces are passed, and
/// `if` makes an `else if`; any other byte ends the scan. Gives the position where
/// it stops (`1024` when the buffer runs out), whether it read `else if`, and
/// whether an `i` had been read.
pub open spec fn else_scan(b: Seq<u8>, i: int, found: bool) -> (int, bool, bool)
    decreases 1024 - i,
{
    if i + 1 >= 1024 {
        (1024, false, found)
    } else {
        let j = i + 1;
        let c = b[j];
        if c == characters::SPACE {
            if found {
                (j, false, found)
            } else {
                else_scan(b, j, found)
            }
        } else if c == 105u8 {
            if !found {
                else_scan(b, j, true)
            } else {
                (j, false, found)
            }
        } else if c == 102u8 {
            (j, found, found)
        } else {
            (j, false, found)
        }
    }
}

/// `child` is a new empty scope opened inside `parent` for `inside_of`.
pub open spec fn is_child_scope(child: JsScope, parent: JsScope, inside_of: InsideOf) -> bool {
    &&& child.wf_chain()
    &&& child.is_empty_scope()
    &&& child.inside_of == inside_of
    &&& child.parent_scope == Some(Box::new(parent))
    &&& child.latest_available_one_byte == parent.latest_available_one_byte
    &&& child.starting_index == parent.position()
    &&& child.inside_function == match inside_of {
        InsideOf::Function(x) => Some(x),
        _ => parent.inside_function,
    }
}

/// `f` is `o` once the reading went on looking for an `else` after an `if` block
/// (`i_found`: the `e` was read already): at the end of the buffer the search waits
/// for the next one; else an `else` or `else if` scope is opened when one was found.
pub open spec fn else_checked(o: CodeAnalysisObject, i_found: bool, f: CodeAnalysisObject) -> bool {
    let (fi, else_if, found) = else_scan(o.buf(), o.i_buffer as int, i_found);
    &&& f.i_buffer == fi
    &&& f.previous_buffer == o.previous_buffer
    &&& f.current_buffer == o.current_buffer
    &&& f.buffer_ref_current == o.buffer_ref_current
    &&& f.going_to_current == o.going_to_current
    &&& f.last_char == o.last_char
    &&& f.character_amounts == o.character_amounts
    &&& f.current_char_bytes_remaining == o.current_char_bytes_remaining
    &&& f.current_big_char == o.current_big_char
    &&& if fi == BUFFER_LEN {
        &&& f.last_index == BUFFER_LEN
        &&& f.previous_buffer_state == if found {
            PreviousBufferState::WaitingIfStatementF
        } else {
            PreviousBufferState::WaitingIfStatementFirstI
        }
        &&& f.current_scope == o.current_scope
    } else {
        &&& f.last_index == o.last_index
        &&& f.previous_buffer_state == o.previous_buffer_state
        &&& is_child_scope(
            f.current_scope,
            o.current_scope,
            if else_if {
                InsideOf::IfElseStatement
            } else {
                InsideOf::ElseStatement
            },
        )
    }
}

impl CodeAnalysisObject {
    /// The byte at `i` in the buffer being read.
    pub fn get_byte(&self, i: usize) -> (r: u8)
        requires
            i < BUFFER_LEN,
        ensures
            r == self.buf()[i as int],
    {
        self.byte_at(i)
    }

    /// The byte at `i` in the buffer being read.
    fn byte_at(&self, i: usize) -> (r: u8)
        requires
            i < BUFFER_LEN,
        ensures
            r == self.buf()[i as int],
    {
        if self.buffer_ref_current {
            self.current_buffer[i]
        } else {
            self.previous_buffer[i]
        }
    }

    /// Opens a scope for `inside_of` inside the current one.
    pub fn enter_scope(&mut self, inside_of: InsideOf)
        requires
            old(self).wf(),
        ensures
            final(self).wf(),
            is_child_scope(final(self).current_scope, old(self).current_scope, inside_of),
            final(self).same_but_scope(&*old(self)),
    {
        let mut parent = JsScope::new(None, InsideOf::Undefined);
        std::mem::swap(&mut parent, &mut self.current_scope);
        self.current_scope = JsScope::new(Some(parent), inside_of);
    }

    /// Skips a multi-line comment: stops on the `/` that closes it, or at the end of
    /// the buffer, where the comment is recorded as open.
    pub fn go_through_js_comment(&mut self)
        requires
            old(self).wf(),
            old(self).i_buffer < BUFFER_LEN,
        ensures
            final(self).wf(),
            final(self).same_but_reading(&*old(self)),
            final(self).buffer_ref_current == old(self).buffer_ref_current,
            final(self).going_to_current == old(self).going_to_current,
            old(self).i_buffer <= final(self).i_buffer < BUFFER_LEN,
            forall|k: int|
                old(self).i_buffer < k < final(self).i_buffer ==> !comment_closes_at(
                    old(self).buf(),
                    old(self).i_buffer as int,
                    old(self).last_char,
                    k,
                ),
            ({
                let b = old(self).buf();
                let st = old(self).i_buffer as int;
                let fi = final(self).i_buffer as int;
                ||| (st < fi && comment_closes_at(b, st, old(self).last_char, fi)
                    && final(self).previous_buffer_state == old(self).previous_buffer_state
                    && final(self).last_index == old(self).last_index
                    && final(self).last_char == characters::ASTERIS)
                ||| (fi == BUFFER_LEN - 1 && (fi > st ==> !comment_closes_at(b, st, old(self).last_char, fi))
                    && final(self).previous_buffer_state == PreviousBufferState::JSComment
                    && final(self).last_index == BUFFER_LEN
                    && final(self).last_char == if fi == st {
                    old(self).last_char
                } else {
                    b[fi]
                })
            }),
    {
        let ghost b = self.buf();
        let ghost st = self.i_buffer as int;
        let ghost lc = self.last_char;
        loop
            invariant_except_break
                self.previous_buffer_state == old(self).previous_buffer_state,
                self.last_index == old(self).last_index,
                forall|k: int| st < k <= self.i_buffer ==> !comment_closes_at(b, st, lc, k),
                self.last_char == if self.i_buffer == st {
                    lc
                } else {
                    b[self.i_buffer as int]
                },
            invariant
                self.wf(),
                self.same_but_reading(&*old(self)),
                self.buffer_ref_current == old(self).buffer_ref_current,
                self.going_to_current == old(self).going_to_current,
                b == old(self).buf(),
                st == old(self).i_buffer,
                lc == old(self).last_char,
                st <= self.i_buffer < BUFFER_LEN,
            ensures
                self.wf(),
                self.same_but_reading(&*old(self)),
                self.buffer_ref_current == old(self).buffer_ref_current,
                self.going_to_current == old(self).going_to_current,
                st <= self.i_buffer < BUFFER_LEN,
                forall|k: int| st < k < self.i_buffer ==> !comment_closes_at(b, st, lc, k),
                ({
                    let fi = self.i_buffer as int;
                    ||| (st < fi && comment_closes_at(b, st, lc, fi)
                        && self.previous_buffer_state == old(self).previous_buffer_state
                        && self.last_index == old(self).last_index
                        && self.last_char == characters::ASTERIS)
                    ||| (fi == BUFFER_LEN - 1 && (fi > st ==> !comment_closes_at(b, st, lc, fi))
                        && self.previous_buffer_state == PreviousBufferState::JSComment
                        && self.last_index == BUFFER_LEN
                        && self.last_char == if fi == st {
                        lc
                    } else {
                        b[fi]
                    })
                }),
            decreases BUFFER_LEN - self.i_buffer,
        {
            if self.i_buffer + 1 == BUFFER_LEN {
                self.previous_buffer_state = PreviousBufferState::JSComment;
                self.last_index = BUFFER_LEN;
                break ;
            }
            let byte = self.byte_at(self.i_buffer + 1);
            self.i_buffer = self.i_buffer + 1;
            if byte == characters::SLASH && self.last_char == characters::ASTERIS {
                break ;
            }
            self.last_char = byte;
        }
    }

    /// Skips a one line comment: stops before the newline that ends it, or at the end of
    /// the buffer, where the comment is recorded as open.
    pub fn go_through_js_inline_comment(&mut self)
        requires
            old(self).wf(),
            old(self).i_buffer < BUFFER_LEN,
        ensures
            final(self).wf(),
            final(self).same_but_reading(&*old(self)),
            final(self).buffer_ref_current == old(self).buffer_ref_current,
            final(self).going_to_current == old(self).going_to_current,
            final(self).last_char == old(self).last_char,
            old(self).i_buffer <= final(self).i_buffer < BUFFER_LEN,
            forall|k: int|
                old(self).i_buffer < k <= final(self).i_buffer ==> old(self).buf()[k]
                    != characters::NEWLINE,
            ({
                ||| (final(self).i_buffer + 1 < BUFFER_LEN && old(self).buf()[final(self).i_buffer
                    + 1] == characters::NEWLINE && final(self).previous_buffer_state == old(
                    self,
                ).previous_buffer_state && final(self).last_index == old(self).last_index)
                ||| (final(self).i_buffer + 1 == BUFFER_LEN && final(self).previous_buffer_state
                    == PreviousBufferState::JSInlineComment && final(self).last_index
                    == BUFFER_LEN)
            }),
    {
        let ghost b = self.buf();
        let ghost st = self.i_buffer as int;
        loop
            invariant_except_break
                self.previous_buffer_state == old(self).previous_buffer_state,
                self.last_index == old(self).last_index,
            invariant
                self.wf(),
                self.same_but_reading(&*old(self)),
                self.buffer_ref_current == old(self).buffer_ref_current,
                self.going_to_current == old(self).going_to_current,
                self.last_char == old(self).last_char,
                b == old(self).buf(),
                st == old(self).i_buffer,
                st <= self.i_buffer < BUFFER_LEN,
                forall|k: int| st < k <= self.i_buffer ==> b[k] != characters::NEWLINE,
            ensures
                self.wf(),
                self.same_but_reading(&*old(self)),
                self.buffer_ref_current == old(self).buffer_ref_current,
                self.going_to_current == old(self).going_to_current,
                self.last_char == old(self).last_char,
                st <= self.i_buffer < BUFFER_LEN,
                forall|k: int| st < k <= self.i_buffer ==> b[k] != characters::NEWLINE,
                ({
                    ||| (self.i_buffer + 1 < BUFFER_LEN && b[self.i_buffer + 1]
                        == characters::NEWLINE && self.previous_buffer_state == old(
                        self,
                    ).previous_buffer_state && self.last_index == old(self).last_index)
                    ||| (self.i_buffer + 1 == BUFFER_LEN && self.previous_buffer_state
                        == PreviousBufferState::JSInlineComment && self.last_index == BUFFER_LEN)
                }),
            decreases BUFFER_LEN - self.i_buffer,
        {
            if self.i_buffer + 1 == BUFFER_LEN {
                self.previous_buffer_state = PreviousBufferState::JSInlineComment;
                self.last_index = BUFFER_LEN;
                break ;
            }
            if self.byte_at(self.i_buffer + 1) == characters::NEWLINE {
                break ;
            }
            self.i_buffer = self.i_buffer + 1;
        }
    }

    /// After `else`: reads on to tell `else if` from `else`, and opens the matching
    /// scope; when the buffer runs out first, records how far the reading got.
    pub fn verify_if_else_statement(&mut self, i_found: bool)
        requires
            old(self).wf(),
            old(self).i_buffer < BUFFER_LEN,
        ensures
            final(self).wf(),
            else_checked(*old(self), i_found, *final(self)),
    {
        let ghost b = self.buf();
        let mut found = i_found;
        let mut else_if_statement = false;
        loop
            invariant_except_break
                !else_if_statement,
                self.i_buffer < BUFFER_LEN,
                self.last_index == old(self).last_index,
                self.previous_buffer_state == old(self).previous_buffer_state,
                else_scan(b, self.i_buffer as int, found) == else_scan(
                    b,
                    old(self).i_buffer as int,
                    i_found,
                ),
            invariant
                self.wf(),
                self.same_but_reading(&*old(self)),
                self.buffer_ref_current == old(self).buffer_ref_current,
                self.going_to_current == old(self).going_to_current,
                self.last_char == old(self).last_char,
                b == old(self).buf(),
            ensures
                self.wf(),
                self.same_but_reading(&*old(self)),
                self.buffer_ref_current == old(self).buffer_ref_current,
                self.going_to_current == old(self).going_to_current,
                self.last_char == old(self).last_char,
                ({
                    let (fi, ei, fo) = else_scan(b, old(self).i_buffer as int, i_found);
                    &&& self.i_buffer == fi
                    &&& fi < BUFFER_LEN ==> ei == else_if_statement
                        && self.last_index == old(self).last_index
                        && self.previous_buffer_state == old(self).previous_buffer_state
                    &&& fi == BUFFER_LEN ==> self.last_index == BUFFER_LEN
                        && self.previous_buffer_state == if fo {
                        PreviousBufferState::WaitingIfStatementF
                    } else {
                        PreviousBufferState::WaitingIfStatementFirstI
                    }
                }),
            decreases BUFFER_LEN - self.i_buffer,
        {
            let ghost prev_i = self.i_buffer as int;
            let ghost prev_found = found;
            assert(else_scan(b, prev_i, prev_found) == else_scan(b, old(self).i_buffer as int, i_found));
            self.i_buffer = self.i_buffer + 1;
            if self.i_buffer == BUFFER_LEN {
                self.last_index = BUFFER_LEN;
                self.previous_buffer_state = if found {
                    PreviousBufferState::WaitingIfStatementF
                } else {
                    PreviousBufferState::WaitingIfStatementFirstI
                };
                break ;
            }
            let c = self.byte_at(self.i_buffer);
            if c == characters::SPACE {
                if found {
                    break ;
                }
            } else if c == 105u8 {
                if !found {
                    found = true;
                } else {
                    break ;
                }
            } else if c == 102u8 {
                else_if_statement = found;
                break ;
            } else {
                break ;
            }
        }
        if self.i_buffer != BUFFER_LEN {
            let new_inside_of = if else_if_statement {
                InsideOf::IfElseStatement
            } else {
                InsideOf::ElseStatement
            };
            self.enter_scope(new_inside_of);
        }
    }
}


/// How many times `b` occurs in `bytes`.
pub open spec fn occurrences(bytes: Seq<u8>, b: u8) -> nat
    decreases bytes.len(),
{
    if bytes.len() == 0 {
        0
    } else {
        occurrences(bytes.drop_last(), b) + if bytes.last() == b {
            1nat
        } else {
            0nat
        }
    }
}

pub proof fn lemma_occurrences_bounded(bytes: Seq<u8>, b: u8)
    ensures
        occurrences(bytes, b) <= bytes.len(),
    decreases bytes.len(),
{
    if bytes.len() > 0 {
        lemma_occurrences_bounded(bytes.drop_last(), b);
    }
}

/// Whether every byte of `bytes` is a one byte character.
pub open spec fn all_ascii(bytes: Seq<u8>) -> bool {
    forall|k: int| 0 <= k < bytes.len() ==> #[trigger] bytes[k] < 128
}

impl CodeAnalysisObject {
    /// `self` is `old` with `bytes` added to the output of the current scope and counted.
    pub open spec fn added_chars(&self, old: &CodeAnalysisObject, bytes: Seq<u8>) -> bool {
        &&& self.wf()
        &&& self.current_scope.characters@ == old.current_scope.characters@ + bytes
        &&& self.current_scope.same_but_characters(&old.current_scope)
        &&& self.same_but_output(old)
        &&& forall|b: int|
            0 <= b < 128 ==> self.character_amounts.one_byte_chars@[b]
                == old.character_amounts.one_byte_chars@[b] + occurrences(bytes, b as u8)
        &&& self.character_amounts.two_byte_chars == old.character_amounts.two_byte_chars
        &&& self.character_amounts.three_byte_chars == old.character_amounts.three_byte_chars
        &&& self.character_amounts.four_byte_chars == old.character_amounts.four_byte_chars
        &&& forall|n: int| old.has_room(n + bytes.len()) ==> self.has_room(n)
    }

    /// Adds one byte characters to the output of the current scope and counts them.
    pub fn push_chars(&mut self, bytes: &[u8])
        requires
            old(self).wf(),
            all_ascii(bytes@),
            old(self).has_room(bytes@.len() as int),
        ensures
            final(self).added_chars(&*old(self), bytes@),
    {
        let mut i: usize = 0;
        while i < bytes.len()
            invariant
                i <= bytes@.len(),
                all_ascii(bytes@),
                old(self).has_room(bytes@.len() as int),
                self.added_chars(&*old(self), bytes@.take(i as int)),
            decreases bytes@.len() - i,
        {
            proof {
                lemma_occurrences_bounded(bytes@.take(i as int), bytes@[i as int]);
                assert(self.has_room(1)) by {
                    assert(old(self).has_room((bytes@.len() - i) + i));
                }
            }
            let ghost before = *self;
            self.add_one_byte_char(bytes[i]);
            proof {
                let t = bytes@.take(i + 1);
                assert(t.drop_last() =~= bytes@.take(i as int));
                assert(self.current_scope.characters@ =~= old(self).current_scope.characters@ + t);
                assert forall|n: int| old(self).has_room(n + t.len()) implies self.has_room(n) by {
                    assert(before.has_room(n + 1));
                }
            }
            i = i + 1;
        }
        assert(bytes@.take(bytes@.len() as int) =~= bytes@);
    }
}


/// The end of the buffer that holds stream position `q`.
pub open spec fn buffer_end(q: int) -> int {
    if q < 1024 {
        1024
    } else {
        2048
    }
}

/// The scan for a function name from stream position `p`: spaces before the name are
/// skipped, and the name ends at a space or at `(`. Gives the position where the
/// scan stops (`2048` when the stream runs out) and the name.
pub open spec fn fn_name_scan(s: Seq<u8>, p: int, name: Seq<u8>) -> (int, Seq<u8>)
    decreases 2048 - p,
{
    let q = p + 1;
    if q >= 2048 {
        (2048, name)
    } else if s[q] == characters::LEFT_PARENTHESIS || (s[q] == characters::SPACE && name.len()
        > 0) {
        (q, name)
    } else if s[q] == characters::SPACE {
        fn_name_scan(s, q, name)
    } else {
        fn_name_scan(s, q, name.push(s[q]))
    }
}

/// The first `(` at or after `q` and before `end`, or `end`.
pub open spec fn first_paren(s: Seq<u8>, q: int, end: int) -> int
    decreases end - q,
{
    if q >= end {
        end
    } else if s[q] == characters::LEFT_PARENTHESIS {
        q
    } else {
        first_paren(s, q + 1, end)
    }
}

pub proof fn lemma_first_paren(s: Seq<u8>, q: int, end: int)
    requires
        0 <= q,
        end <= s.len(),
    ensures
        q <= first_paren(s, q, end) || q > end,
        first_paren(s, q, end) <= end || q > end,
        first_paren(s, q, end) < end ==> s[first_paren(s, q, end)] == characters::LEFT_PARENTHESIS,
        forall|k: int| q <= k < first_paren(s, q, end) ==> s[k] != characters::LEFT_PARENTHESIS,
    decreases end - q,
{
    if q < end && s[q] != characters::LEFT_PARENTHESIS {
        lemma_first_paren(s, q + 1, end);
    }
}

impl CodeAnalysisObject {
    /// After `function`: reads the function's name, declares it in the current scope,
    /// writes `function` and the short name, moves on to the `(` that opens its
    /// parameters and opens the function's scope.
    /// When the input runs out before the name ends, records that a function name is
    /// being read.
    pub fn find_function_name(&mut self)
        requires
            old(self).wf(),
            old(self).i_buffer < BUFFER_LEN,
            old(self).has_room(16),
            ({
                let (q, name) = fn_name_scan(old(self).stream(), old(self).pos(), Seq::empty());
                q < 2048 ==> {
                    &&& name.len() > 0
                    &&& first_paren(old(self).stream(), q, buffer_end(q)) < buffer_end(q)
                    &&& old(self).current_scope.skipped_latest(name) == 122 ==> some_two_char_free(
                        old(self).current_scope.two_byte_name_values@,
                    )
                }
            }),
        ensures
            final(self).wf(),
            final(self).previous_buffer == old(self).previous_buffer,
            final(self).current_buffer == old(self).current_buffer,
            final(self).character_amounts.two_byte_chars == old(self).character_amounts.two_byte_chars,
            final(self).character_amounts.three_byte_chars == old(self).character_amounts.three_byte_chars,
            final(self).character_amounts.four_byte_chars == old(self).character_amounts.four_byte_chars,
            final(self).current_char_bytes_remaining == old(self).current_char_bytes_remaining,
            final(self).current_big_char == old(self).current_big_char,
            final(self).last_char == old(self).last_char,
            final(self).last_index == old(self).last_index,
            forall|n: int| old(self).has_room(n + 16) ==> final(self).has_room(n),
            ({
                let (q, name) = fn_name_scan(old(self).stream(), old(self).pos(), Seq::empty());
                if q == 2048 {
                    &&& final(self).ended()
                    &&& final(self).previous_buffer_state
                        == PreviousBufferState::FindingFunctionName
                    &&& final(self).current_scope == old(self).current_scope
                    &&& final(self).character_amounts == old(self).character_amounts
                } else {
                    &&& final(self).pos() == first_paren(old(self).stream(), q, buffer_end(q))
                    &&& final(self).i_buffer < BUFFER_LEN
                    &&& final(self).previous_buffer_state == old(self).previous_buffer_state
                    &&& exists|mid: JsScope, v: Value, top: JsScope|
                        #![trigger declared(old(self).current_scope, name, mid, v), is_child_scope(final(self).current_scope, top, InsideOf::Function(v.value_new_name))]
                        {
                            &&& declared(old(self).current_scope, name, mid, v)
                            &&& top.characters@ == mid.characters@ + function_head(v.value_new_name)
                            &&& top.same_but_characters(&mid)
                            &&& is_child_scope(
                                final(self).current_scope,
                                top,
                                InsideOf::Function(v.value_new_name),
                            )
                            &&& forall|b: int|
                                0 <= b < 128 ==> #[trigger] final(self).character_amounts.one_byte_chars@[b]
                                    == old(self).character_amounts.one_byte_chars@[b] + occurrences(
                                    function_head(v.value_new_name),
                                    b as u8,
                                )
                        }
                }
            }),
    {
        let ghost s0 = self.stream();
        let ghost p0 = self.pos();
        let mut function_name: Vec<u8> = Vec::new();
        let mut ran_out = false;
        loop
            invariant_except_break
                !ran_out,
                self.i_buffer < BUFFER_LEN,
                0 <= self.pos() < 2048,
                fn_name_scan(s0, self.pos(), function_name@) == fn_name_scan(s0, p0, Seq::empty()),
            invariant
                self.wf(),
                self.stream() == s0,
                self.previous_buffer == old(self).previous_buffer,
                self.current_buffer == old(self).current_buffer,
                self.current_scope == old(self).current_scope,
                self.character_amounts == old(self).character_amounts,
                self.current_char_bytes_remaining == old(self).current_char_bytes_remaining,
                self.current_big_char == old(self).current_big_char,
                self.last_char == old(self).last_char,
                self.last_index == old(self).last_index,
                self.previous_buffer_state == old(self).previous_buffer_state,
            ensures
                self.wf(),
                self.stream() == s0,
                self.previous_buffer == old(self).previous_buffer,
                self.current_buffer == old(self).current_buffer,
                self.current_scope == old(self).current_scope,
                self.character_amounts == old(self).character_amounts,
                self.current_char_bytes_remaining == old(self).current_char_bytes_remaining,
                self.current_big_char == old(self).current_big_char,
                self.last_char == old(self).last_char,
                self.last_index == old(self).last_index,
                self.previous_buffer_state == old(self).previous_buffer_state,
                ({
                    let (q, name) = fn_name_scan(s0, p0, Seq::empty());
                    if ran_out {
                        q == 2048 && self.ended()
                    } else {
                        &&& self.i_buffer < BUFFER_LEN
                        &&& self.pos() == q
                        &&& q < 2048
                        &&& name == function_name@
                    }
                }),
            decreases 2048 - self.pos(),
        {
            let ghost p = self.pos();
            let ghost nm = function_name@;
            assert(fn_name_scan(s0, p, nm) == fn_name_scan(s0, p0, Seq::empty()));
            self.i_buffer = self.i_buffer + 1;
            if !self.check_index() {
                ran_out = true;
                break ;
            }
            assert(self.pos() == p + 1);
            let c = self.get_char();
            assert(c == s0[p + 1]);
            assert(p + 1 < 2048);
            if c == characters::LEFT_PARENTHESIS || (c == characters::SPACE && function_name.len()
                > 0) {
                assert(fn_name_scan(s0, p, nm) == (p + 1, nm));
                break ;
            }
            if c != characters::SPACE {
                function_name.push(c);
            }
        }
        if ran_out {
            self.previous_buffer_state = PreviousBufferState::FindingFunctionName;
            return ;
        }
        let ghost q = self.pos();
        let ghost before_scope = self.current_scope;
        let value = self.current_scope.new_value(function_name.as_slice());
        let ghost mid = self.current_scope;
        proof {
            lemma_first_paren(s0, q, buffer_end(q));
        }
        while self.get_char() != characters::LEFT_PARENTHESIS
            invariant
                self.wf(),
                self.stream() == s0,
                self.previous_buffer == old(self).previous_buffer,
                self.current_buffer == old(self).current_buffer,
                self.current_scope == mid,
                self.character_amounts == old(self).character_amounts,
                self.current_char_bytes_remaining == old(self).current_char_bytes_remaining,
                self.current_big_char == old(self).current_big_char,
                self.last_char == old(self).last_char,
                self.last_index == old(self).last_index,
                self.previous_buffer_state == old(self).previous_buffer_state,
                self.i_buffer < BUFFER_LEN,
                !self.ended(),
                buffer_end(self.pos()) == buffer_end(q),
                q <= self.pos() <= first_paren(s0, q, buffer_end(q)),
                first_paren(s0, q, buffer_end(q)) < buffer_end(q),
                forall|k: int| q <= k < first_paren(s0, q, buffer_end(q)) ==> s0[k] != characters::LEFT_PARENTHESIS,
                first_paren(s0, q, buffer_end(q)) < buffer_end(q) ==> s0[first_paren(s0, q, buffer_end(q))] == characters::LEFT_PARENTHESIS,
            decreases buffer_end(q) - self.pos(),
        {
            self.i_buffer = self.i_buffer + 1;
        }
        proof {
            lemma_declared_name_ascii(before_scope, function_name@, mid, value);
        }
        let head = function_head_vec(value.value_new_name);
        let ghost before_head = *self;
        assert(self.has_room(head@.len() as int)) by {
            assert(self.current_scope.position() == old(self).current_scope.position());
            assert(old(self).has_room(16));
        }
        self.push_chars(head.as_slice());
        let ghost top = self.current_scope;
        proof {
            assert forall|n: int| old(self).has_room(n + 16) implies self.has_room(n) by {
                assert(before_head.has_room(n + head@.len()));
            }
        }
        let ghost before_enter = *self;
        self.enter_scope(InsideOf::Function(value.value_new_name));
        proof {
            assert forall|n: int| old(self).has_room(n + 16) implies self.has_room(n) by {
                assert(before_enter.has_room(n));
                assert(self.current_scope.position() == before_enter.current_scope.position());
            }
            assert(declared(before_scope, function_name@, mid, value));
            assert(top.characters@ == mid.characters@ + function_head(value.value_new_name));
        }
    }
}


/// The scan of the names of a declaration from stream position `p`: spaces and
/// newlines are skipped, `,` ends a name, and `(`, `)` or `=` end the last one.
/// Gives the position of the end (`2048` when the stream runs out first) and the
/// names ended so far.
pub open spec fn params_scan(s: Seq<u8>, p: int, cur: Seq<u8>, names: Seq<Seq<u8>>) -> (int, Seq<
    Seq<u8>,
>)
    decreases 2048 - p,
{
    if p >= 2048 || p < 0 {
        (2048, names)
    } else {
        let c = s[p];
        if c == characters::SPACE || c == characters::NEWLINE {
            params_scan(s, p + 1, cur, names)
        } else if c == characters::LEFT_PARENTHESIS || c == characters::RIGHT_PARENTHESIS || c
            == characters::EQUAL {
            (p, names.push(cur))
        } else if c == characters::COMMA {
            params_scan(s, p + 1, Seq::empty(), names.push(cur))
        } else {
            params_scan(s, p + 1, cur.push(c), names)
        }
    }
}

/// Whether `name` holds no space and no newline.
pub open spec fn no_whitespace(name: Seq<u8>) -> bool {
    forall|j: int| 0 <= j < name.len() ==> #[trigger] name[j] != characters::SPACE && name[j]
        != characters::NEWLINE
}

/// Spaces and newlines between the parameters of a declaration belong to no
/// parameter: when the name being read and those read so far hold none, no name the
/// scan gives holds one, so `f(a, b)` declares `a` and `b` as `f(a,b)` does.
pub proof fn law_params_hold_no_whitespace(s: Seq<u8>, p: int, cur: Seq<u8>, names: Seq<Seq<u8>>)
    requires
        no_whitespace(cur),
        forall|k: int| 0 <= k < names.len() ==> no_whitespace(#[trigger] names[k]),
    ensures
        forall|k: int|
            0 <= k < params_scan(s, p, cur, names).1.len() ==> no_whitespace(
                #[trigger] params_scan(s, p, cur, names).1[k],
            ),
    decreases 2048 - p,
{
    if p >= 2048 || p < 0 {
        assert(params_scan(s, p, cur, names) == (2048int, names));
    } else {
        let c = s[p];
        if c == characters::SPACE || c == characters::NEWLINE {
            law_params_hold_no_whitespace(s, p + 1, cur, names);
            assert(params_scan(s, p, cur, names) == params_scan(s, p + 1, cur, names));
        } else if c == characters::LEFT_PARENTHESIS || c == characters::RIGHT_PARENTHESIS || c
            == characters::EQUAL {
            let r = names.push(cur);
            assert(params_scan(s, p, cur, names) == (p, r));
            assert forall|k: int| 0 <= k < r.len() implies no_whitespace(#[trigger] r[k]) by {
                if k < names.len() {
                    assert(r[k] == names[k]);
                }
            }
        } else if c == characters::COMMA {
            let r = names.push(cur);
            assert forall|k: int| 0 <= k < r.len() implies no_whitespace(#[trigger] r[k]) by {
                if k < names.len() {
                    assert(r[k] == names[k]);
                }
            }
            law_params_hold_no_whitespace(s, p + 1, Seq::empty(), r);
            assert(params_scan(s, p, cur, names) == params_scan(s, p + 1, Seq::empty(), r));
        } else {
            let c2 = cur.push(c);
            assert forall|j: int| 0 <= j < c2.len() implies #[trigger] c2[j] != characters::SPACE
                && c2[j] != characters::NEWLINE by {
                if j < cur.len() {
                    assert(c2[j] == cur[j]);
                }
            }
            law_params_hold_no_whitespace(s, p + 1, c2, names);
            assert(params_scan(s, p, cur, names) == params_scan(s, p + 1, c2, names));
        }
    }
}

/// The bytes of `b` that belong to names: all but spaces, newlines and commas.
pub open spec fn name_bytes_of(b: Seq<u8>) -> Seq<u8>
    decreases b.len(),
{
    if b.len() == 0 {
        Seq::empty()
    } else {
        let c = b.last();
        let rest = name_bytes_of(b.drop_last());
        if c == characters::SPACE || c == characters::NEWLINE || c == characters::COMMA {
            rest
        } else {
            rest.push(c)
        }
    }
}

/// How many commas `b` holds.
pub open spec fn comma_count(b: Seq<u8>) -> nat
    decreases b.len(),
{
    if b.len() == 0 {
        0
    } else {
        comma_count(b.drop_last()) + if b.last() == characters::COMMA {
            1nat
        } else {
            0nat
        }
    }
}

/// The names of `ns`, one after the other.
pub open spec fn joined(ns: Seq<Seq<u8>>) -> Seq<u8>
    decreases ns.len(),
{
    if ns.len() == 0 {
        Seq::empty()
    } else {
        joined(ns.drop_last()) + ns.last()
    }
}

proof fn lemma_name_bytes_of_push(b: Seq<u8>, c: u8)
    ensures
        name_bytes_of(b.push(c)) == if c == characters::SPACE || c == characters::NEWLINE || c
            == characters::COMMA {
            name_bytes_of(b)
        } else {
            name_bytes_of(b).push(c)
        },
        comma_count(b.push(c)) == comma_count(b) + if c == characters::COMMA {
            1nat
        } else {
            0nat
        },
{
    assert(b.push(c).drop_last() =~= b);
}

/// A declaration's parameter list ends up whole in its names: when the scan stops
/// at `(`, `)` or `=` at position `e`, the names it gives hold, one after the other,
/// the names read before, the name being read, and every byte between `p` and `e`
/// but spaces, newlines and commas; and there is one name more than commas.
pub proof fn law_params_cover_the_list(s: Seq<u8>, p: int, cur: Seq<u8>, names: Seq<Seq<u8>>)
    requires
        0 <= p <= s.len(),
        s.len() == 2048,
    ensures
        params_scan(s, p, cur, names).0 < 2048 ==> {
            let (e, ns) = params_scan(s, p, cur, names);
            &&& p <= e
            &&& joined(ns) == joined(names) + cur + name_bytes_of(s.subrange(p, e))
            &&& ns.len() == names.len() + comma_count(s.subrange(p, e)) + 1
        },
    decreases 2048 - p,
{
    if p < 2048 {
        let c = s[p];
        assert(s.subrange(p, p + 1) =~= Seq::<u8>::empty().push(c));
        if c == characters::SPACE || c == characters::NEWLINE {
            law_params_cover_the_list(s, p + 1, cur, names);
            assert(params_scan(s, p, cur, names) == params_scan(s, p + 1, cur, names));
            let (e, ns) = params_scan(s, p, cur, names);
            if e < 2048 {
                lemma_params_split(s, p, e, c);
            }
        } else if c == characters::LEFT_PARENTHESIS || c == characters::RIGHT_PARENTHESIS || c
            == characters::EQUAL {
            assert(params_scan(s, p, cur, names) == (p, names.push(cur)));
            assert(s.subrange(p, p) =~= Seq::<u8>::empty());
            assert(name_bytes_of(Seq::<u8>::empty()) == Seq::<u8>::empty());
            assert(comma_count(Seq::<u8>::empty()) == 0);
            assert(names.push(cur).drop_last() =~= names);
            assert(joined(names.push(cur)) =~= joined(names) + cur + Seq::<u8>::empty());
        } else if c == characters::COMMA {
            let r = names.push(cur);
            law_params_cover_the_list(s, p + 1, Seq::empty(), r);
            assert(params_scan(s, p, cur, names) == params_scan(s, p + 1, Seq::empty(), r));
            let (e, ns) = params_scan(s, p, cur, names);
            if e < 2048 {
                lemma_params_split(s, p, e, c);
                assert(r.drop_last() =~= names);
                assert(joined(r) == joined(names) + cur);
                assert(joined(ns) =~= joined(names) + cur + name_bytes_of(s.subrange(p, e)));
            }
        } else {
            let c2 = cur.push(c);
            law_params_cover_the_list(s, p + 1, c2, names);
            assert(params_scan(s, p, cur, names) == params_scan(s, p + 1, c2, names));
            let (e, ns) = params_scan(s, p, cur, names);
            if e < 2048 {
                lemma_params_split(s, p, e, c);
                assert(joined(ns) =~= joined(names) + cur + name_bytes_of(s.subrange(p, e)));
            }
        }
    }
}

/// Splitting off the first byte `c` of `s[p..e]`.
proof fn lemma_params_split(s: Seq<u8>, p: int, e: int, c: u8)
    requires
        0 <= p < e <= s.len(),
        s[p] == c,
    ensures
        name_bytes_of(s.subrange(p, e)) == if c == characters::SPACE || c == characters::NEWLINE
            || c == characters::COMMA {
            name_bytes_of(s.subrange(p + 1, e))
        } else {
            seq![c] + name_bytes_of(s.subrange(p + 1, e))
        },
        comma_count(s.subrange(p, e)) == comma_count(s.subrange(p + 1, e)) + if c
            == characters::COMMA {
            1nat
        } else {
            0nat
        },
    decreases e - p,
{
    if e == p + 1 {
        assert(s.subrange(p, e) =~= Seq::<u8>::empty().push(c));
        assert(s.subrange(p + 1, e) =~= Seq::<u8>::empty());
        lemma_name_bytes_of_push(Seq::<u8>::empty(), c);
        assert(seq![c] + Seq::<u8>::empty() =~= Seq::<u8>::empty().push(c));
    } else {
        let d = s[e - 1];
        lemma_params_split(s, p, e - 1, c);
        assert(s.subrange(p, e) =~= s.subrange(p, e - 1).push(d));
        assert(s.subrange(p + 1, e) =~= s.subrange(p + 1, e - 1).push(d));
        lemma_name_bytes_of_push(s.subrange(p, e - 1), d);
        lemma_name_bytes_of_push(s.subrange(p + 1, e - 1), d);
        if !(c == characters::SPACE || c == characters::NEWLINE || c == characters::COMMA) {
            assert((seq![c] + name_bytes_of(s.subrange(p + 1, e - 1))).push(d) =~= seq![c] + name_bytes_of(
                s.subrange(p + 1, e - 1),
            ).push(d));
        }
    }
}

/// The parameters a declaration scan gives from the start hold no space and no
/// newline (see `law_params_hold_no_whitespace`).
pub proof fn law_declared_params_hold_no_whitespace(s: Seq<u8>, p: int)
    ensures
        forall|k: int|
            0 <= k < params_scan(s, p, Seq::empty(), Seq::empty()).1.len() ==> no_whitespace(
                #[trigger] params_scan(s, p, Seq::empty(), Seq::empty()).1[k],
            ),
{
    law_params_hold_no_whitespace(s, p, Seq::empty(), Seq::empty());
}

/// Whether a name can be declared in `scope`: it is not empty, and a short name is left for it.
pub open spec fn can_declare(scope: JsScope, name: Seq<u8>) -> bool {
    name.len() > 0 && (scope.skipped_latest(name) != 122 || some_two_char_free(
        scope.two_byte_name_values@,
    ))
}

/// One step of a declaration: `next` is `mid` once `n` is declared in it as `v`, or
/// `mid` itself (and no value) when `n` cannot be declared.
pub open spec fn declaration_step(mid: JsScope, n: Seq<u8>, next: JsScope, v: Option<Value>) -> bool {
    if can_declare(mid, n) {
        v matches Some(val) && declared(mid, n, next, val)
    } else {
        v is None && next == mid
    }
}

/// The short names of the values that were declared.
pub open spec fn given_names(vals: Seq<Option<Value>>) -> Seq<NewValueName>
    decreases vals.len(),
{
    if vals.len() == 0 {
        Seq::empty()
    } else {
        given_names(vals.drop_last()) + match vals.last() {
            Some(v) => seq![v.value_new_name],
            None => Seq::empty(),
        }
    }
}

/// The scopes `scopes` lead from `before` to `after`, declaring each name of `names` in turn.
pub open spec fn declaration_chain(
    before: JsScope,
    names: Seq<Seq<u8>>,
    after: JsScope,
    scopes: Seq<JsScope>,
    vals: Seq<Option<Value>>,
) -> bool {
    &&& scopes.len() == names.len() + 1
    &&& vals.len() == names.len()
    &&& scopes[0] == before
    &&& scopes.last() == after
    &&& forall|k: int|
        0 <= k < names.len() ==> declaration_step(scopes[k], names[k], scopes[k + 1], vals[k])
}

/// `after` is `before` once each name of `names` that can be declared is declared, in
/// order; `given` are the short names they got.
pub open spec fn declared_in_order(
    before: JsScope,
    names: Seq<Seq<u8>>,
    after: JsScope,
    given: Seq<NewValueName>,
) -> bool {
    exists|scopes: Seq<JsScope>, vals: Seq<Option<Value>>|
        #![trigger declaration_chain(before, names, after, scopes, vals)]
        declaration_chain(before, names, after, scopes, vals) && given == given_names(vals)
}

/// Declaring values one after the other keeps the kind of the scope and its parent.
pub proof fn lemma_declared_in_order_keeps_place(
    before: JsScope,
    names: Seq<Seq<u8>>,
    after: JsScope,
    given: Seq<NewValueName>,
)
    requires
        declared_in_order(before, names, after, given),
    ensures
        after.inside_of == before.inside_of,
        after.parent_scope == before.parent_scope,
{
    let (scopes, vals) = choose|scopes: Seq<JsScope>, vals: Seq<Option<Value>>|
        #![trigger declaration_chain(before, names, after, scopes, vals)]
        declaration_chain(before, names, after, scopes, vals) && given == given_names(vals);
    lemma_chain_keeps_place(before, names, after, scopes, vals, names.len() as int);
}

proof fn lemma_chain_keeps_place(
    before: JsScope,
    names: Seq<Seq<u8>>,
    after: JsScope,
    scopes: Seq<JsScope>,
    vals: Seq<Option<Value>>,
    k: int,
)
    requires
        declaration_chain(before, names, after, scopes, vals),
        0 <= k <= names.len(),
    ensures
        scopes[k].inside_of == before.inside_of,
        scopes[k].parent_scope == before.parent_scope,
    decreases k,
{
    if k > 0 {
        lemma_chain_keeps_place(before, names, after, scopes, vals, k - 1);
        assert(declaration_step(scopes[k - 1], names[k - 1], scopes[k], vals[k - 1]));
    }
}

/// The bytes of a short name.
pub open spec fn name_bytes(n: NewValueName) -> Seq<u8> {
    match n {
        NewValueName::OneChar(x) => seq![x],
        NewValueName::TwoChar(c) => seq![c[0], c[1]],
    }
}

/// Each name followed by a comma.
pub open spec fn names_with_commas(given: Seq<NewValueName>) -> Seq<u8>
    decreases given.len(),
{
    if given.len() == 0 {
        Seq::empty()
    } else {
        names_with_commas(given.drop_last()) + name_bytes(given.last()) + seq![characters::COMMA]
    }
}

/// What `new_values_init` writes for the parameters it declared: their short names
/// between parentheses, separated by commas.
pub open spec fn render_names(given: Seq<NewValueName>) -> Seq<u8> {
    if given.len() > 0 {
        let w = seq![characters::LEFT_PARENTHESIS] + names_with_commas(given);
        w.update(w.len() - 1, characters::RIGHT_PARENTHESIS)
    } else {
        seq![characters::LEFT_PARENTHESIS, characters::RIGHT_PARENTHESIS]
    }
}

pub open spec fn name_is_ascii(n: NewValueName) -> bool {
    match n {
        NewValueName::OneChar(x) => x < 128,
        NewValueName::TwoChar(c) => c[0] < 128 && c[1] < 128,
    }
}

pub proof fn lemma_names_with_commas(given: Seq<NewValueName>)
    requires
        forall|k: int| 0 <= k < given.len() ==> name_is_ascii(#[trigger] given[k]),
    ensures
        all_ascii(names_with_commas(given)),
        names_with_commas(given).len() <= 3 * given.len(),
        given.len() > 0 ==> names_with_commas(given).len() > 0,
    decreases given.len(),
{
    if given.len() > 0 {
        lemma_names_with_commas(given.drop_last());
        let a = names_with_commas(given.drop_last());
        let b = name_bytes(given.last());
        assert(name_is_ascii(given[given.len() - 1]));
        assert forall|k: int| 0 <= k < names_with_commas(given).len() implies #[trigger] names_with_commas(given)[k] < 128 by {
            if k < a.len() {
                assert(names_with_commas(given)[k] == a[k]);
            } else if k < a.len() + b.len() {
                assert(names_with_commas(given)[k] == b[k - a.len()]);
            }
        }
    }
}

/// The name that `declared` hands out is made of one byte characters.
pub proof fn lemma_declared_name_ascii(before: JsScope, name: Seq<u8>, after: JsScope, v: Value)
    requires
        before.wf(),
        declared(before, name, after, v),
    ensures
        name_is_ascii(v.value_new_name),
{
    crate::code_analysis::lemma_skip_all_blocked_range(
        before.latest_available_one_byte,
        before.declared_potentials(),
        name,
    );
}

impl CodeAnalysisObject {
    /// Reads the names of a declaration, declares each in the current scope and writes
    /// their short names between parentheses, separated by commas. When the input
    /// runs out first, the names ended so far are declared and the reading is recorded
    /// as unfinished.
    pub fn new_values_init(&mut self)
        requires
            old(self).wf(),
            !old(self).ended(),
            old(self).has_room(8192),
        ensures
            final(self).wf(),
            final(self).previous_buffer == old(self).previous_buffer,
            final(self).current_buffer == old(self).current_buffer,
            final(self).last_char == old(self).last_char,
            final(self).last_index == old(self).last_index,
            final(self).current_char_bytes_remaining == old(self).current_char_bytes_remaining,
            final(self).current_big_char == old(self).current_big_char,
            ({
                let (end, names) = params_scan(old(self).stream(), old(self).pos(), Seq::empty(), Seq::empty());
                if end == 2048 {
                    &&& final(self).ended()
                    &&& final(self).previous_buffer_state == PreviousBufferState::FindingNewValueName
                    &&& exists|given: Seq<NewValueName>| declared_in_order(old(self).current_scope, names, final(self).current_scope, given)
                    &&& final(self).character_amounts == old(self).character_amounts
                } else {
                    &&& final(self).pos() == end
                    &&& final(self).i_buffer < BUFFER_LEN
                    &&& final(self).previous_buffer_state == old(self).previous_buffer_state
                    &&& exists|mid: JsScope, given: Seq<NewValueName>| {
                        &&& declared_in_order(old(self).current_scope, names, mid, given)
                        &&& final(self).current_scope.characters@ == mid.characters@ + render_names(given)
                        &&& final(self).current_scope.same_but_characters(&mid)
                        &&& forall|b: int| 0 <= b < 128 ==> final(self).character_amounts.one_byte_chars@[b]
                            == old(self).character_amounts.one_byte_chars@[b] + occurrences(render_names(given), b as u8)
                    }
                    &&& final(self).character_amounts.two_byte_chars == old(self).character_amounts.two_byte_chars
                    &&& final(self).character_amounts.three_byte_chars == old(self).character_amounts.three_byte_chars
                    &&& final(self).character_amounts.four_byte_chars == old(self).character_amounts.four_byte_chars
                }
            }),
    {
        let ghost s0 = self.stream();
        let ghost p0 = self.pos();
        let ghost scope0 = self.current_scope;
        let mut param_name: Vec<u8> = Vec::new();
        let mut new_values: Vec<NewValueName> = Vec::new();
        let ghost mut names: Seq<Seq<u8>> = Seq::empty();
        let ghost mut gscopes: Seq<JsScope> = seq![self.current_scope];
        let ghost mut gvals: Seq<Option<Value>> = Seq::empty();
        let mut ran_out = false;
        loop
            invariant_except_break
                !ran_out,
                0 <= self.pos() <= 2048,
                names.len() + p0 <= self.pos(),
                !self.ended(),
                params_scan(s0, self.pos(), param_name@, names) == params_scan(s0, p0, Seq::empty(), Seq::empty()),
            invariant
                self.wf(),
                self.stream() == s0,
                self.previous_buffer == old(self).previous_buffer,
                self.current_buffer == old(self).current_buffer,
                self.character_amounts == old(self).character_amounts,
                self.current_char_bytes_remaining == old(self).current_char_bytes_remaining,
                self.current_big_char == old(self).current_big_char,
                self.last_char == old(self).last_char,
                self.last_index == old(self).last_index,
                self.previous_buffer_state == old(self).previous_buffer_state,
                self.current_scope.characters == scope0.characters,
                self.current_scope.starting_index == scope0.starting_index,
                declaration_chain(scope0, names, self.current_scope, gscopes, gvals),
                new_values@ == given_names(gvals),
                forall|k: int| 0 <= k < new_values@.len() ==> name_is_ascii(#[trigger] new_values@[k]),
                new_values@.len() <= names.len(),
                names.len() <= 2048,
                0 <= p0,
                old(self).has_room(8192),
            ensures
                self.wf(),
                self.stream() == s0,
                self.previous_buffer == old(self).previous_buffer,
                self.current_buffer == old(self).current_buffer,
                self.character_amounts == old(self).character_amounts,
                self.current_char_bytes_remaining == old(self).current_char_bytes_remaining,
                self.current_big_char == old(self).current_big_char,
                self.last_char == old(self).last_char,
                self.last_index == old(self).last_index,
                self.previous_buffer_state == old(self).previous_buffer_state,
                self.current_scope.characters == scope0.characters,
                self.current_scope.starting_index == scope0.starting_index,
                declaration_chain(scope0, names, self.current_scope, gscopes, gvals),
                new_values@ == given_names(gvals),
                forall|k: int| 0 <= k < new_values@.len() ==> name_is_ascii(#[trigger] new_values@[k]),
                new_values@.len() <= 2048,
                ({
                    let (end, all) = params_scan(s0, p0, Seq::empty(), Seq::empty());
                    if ran_out {
                        end == 2048 && self.ended() && all == names
                    } else {
                        end == self.pos() && end < 2048 && self.i_buffer < BUFFER_LEN && all == names
                    }
                }),
            decreases 2049 - self.pos(),
        {
            let ghost p = self.pos();
            if !self.check_index() {
                ran_out = true;
                break ;
            }
            assert(self.pos() == p);
            let c = self.get_char();
            if c == characters::SPACE || c == characters::NEWLINE {
            } else if c == characters::LEFT_PARENTHESIS || c == characters::RIGHT_PARENTHESIS || c
                == characters::EQUAL || c == characters::COMMA {
                let ghost before_scope = self.current_scope;
                let ghost before_given = new_values@;
                let ghost before_names = names;
                let ghost before_scopes = gscopes;
                let ghost before_vals = gvals;
                let mut name: Vec<u8> = Vec::new();
                std::mem::swap(&mut name, &mut param_name);
                proof {
                    names = names.push(name@);
                }
                if name.len() > 0 && self.current_scope.declaration_possible(name.as_slice()) {
                    let value = self.current_scope.new_value(name.as_slice());
                    new_values.push(value.value_new_name);
                    proof {
                        lemma_declared_name_ascii(before_scope, name@, self.current_scope, value);
                        gscopes = gscopes.push(self.current_scope);
                        gvals = gvals.push(Some(value));
                        assert(gvals.drop_last() =~= before_vals);
                        assert(new_values@ =~= given_names(gvals));
                        assert(declaration_step(before_scope, name@, self.current_scope, Some(value)));
                    }
                } else {
                    proof {
                        gscopes = gscopes.push(self.current_scope);
                        gvals = gvals.push(None);
                        assert(gvals.drop_last() =~= before_vals);
                        assert(new_values@ =~= given_names(gvals));
                    }
                }
                proof {
                    assert forall|k: int| 0 <= k < names.len() implies declaration_step(gscopes[k], names[k], gscopes[k + 1], gvals[k]) by {
                        if k < names.len() - 1 {
                            assert(gscopes[k] == before_scopes[k]);
                            assert(gscopes[k + 1] == before_scopes[k + 1]);
                            assert(names[k] == before_names[k]);
                            assert(gvals[k] == before_vals[k]);
                        }
                    }
                }
                if c != characters::COMMA {
                    break ;
                }
            } else {
                param_name.push(c);
            }
            assert(names.len() + p0 <= p + 1);
            assert(p < 2048);
            self.i_buffer = self.i_buffer + 1;
            assert(self.pos() == p + 1);
        }
        if ran_out {
            self.previous_buffer_state = PreviousBufferState::FindingNewValueName;
            assert(declaration_chain(scope0, names, self.current_scope, gscopes, gvals));
            assert(declared_in_order(scope0, names, self.current_scope, given_names(gvals)));
            return ;
        }
        let ghost mid = self.current_scope;
        let ghost given = new_values@;
        proof {
            lemma_names_with_commas(given);
            assert(declaration_chain(scope0, names, mid, gscopes, gvals));
            assert(declared_in_order(scope0, names, mid, given));
        }
        let out = names_output(&new_values);
        proof {
            assert(old(self).has_room(8192));
            assert(self.has_room(out@.len() as int)) by {
                assert(self.current_scope.position() == old(self).current_scope.position());
            }
        }
        self.push_chars(out.as_slice());
    }
}

/// The bytes written for the names given: `render_names`.
fn names_output(given: &Vec<NewValueName>) -> (r: Vec<u8>)
    requires
        forall|k: int| 0 <= k < given@.len() ==> name_is_ascii(#[trigger] given@[k]),
        given@.len() <= 2048,
    ensures
        r@ == render_names(given@),
        all_ascii(r@),
        r@.len() <= 3 * 2048 + 1,
{
    proof {
        lemma_names_with_commas(given@);
    }
    if given.len() == 0 {
        let mut r: Vec<u8> = Vec::new();
        r.push(characters::LEFT_PARENTHESIS);
        r.push(characters::RIGHT_PARENTHESIS);
        assert(r@ =~= seq![characters::LEFT_PARENTHESIS, characters::RIGHT_PARENTHESIS]);
        return r;
    }
    let mut r: Vec<u8> = Vec::new();
    r.push(characters::LEFT_PARENTHESIS);
    let mut k: usize = 0;
    while k < given.len()
        invariant
            k <= given@.len(),
            given@.len() > 0,
            forall|j: int| 0 <= j < given@.len() ==> name_is_ascii(#[trigger] given@[j]),
            r@ == seq![characters::LEFT_PARENTHESIS] + names_with_commas(given@.take(k as int)),
        decreases given@.len() - k,
    {
        let nb = name_vec(given[k]);
        let ghost before = r@;
        let mut j: usize = 0;
        while j < nb.len()
            invariant
                j <= nb@.len(),
                r@ == before + nb@.take(j as int),
            decreases nb@.len() - j,
        {
            r.push(nb[j]);
            j = j + 1;
            assert(r@ =~= before + nb@.take(j as int));
        }
        r.push(characters::COMMA);
        proof {
            let t = given@.take(k + 1);
            assert(t.drop_last() =~= given@.take(k as int));
            assert(nb@.take(nb@.len() as int) =~= nb@);
            assert(r@ =~= seq![characters::LEFT_PARENTHESIS] + names_with_commas(t));
        }
        k = k + 1;
    }
    assert(given@.take(given@.len() as int) =~= given@);
    let ghost w = r@;
    proof {
        lemma_names_with_commas(given@);
        assert forall|i: int| 0 <= i < w.len() implies #[trigger] w[i] < 128 by {
            if i > 0 {
                assert(w[i] == names_with_commas(given@)[i - 1]);
            }
        }
    }
    let last = r.len() - 1;
    r.set(last, characters::RIGHT_PARENTHESIS);
    proof {
        assert(r@ =~= w.update(w.len() - 1, characters::RIGHT_PARENTHESIS));
        assert forall|i: int| 0 <= i < r@.len() implies #[trigger] r@[i] < 128 by {
            if i != w.len() - 1 {
                assert(r@[i] == w[i]);
            }
        }
    }
    r
}

/// What is written for a declared function: the keyword `function`, a space and
/// the function's short name.
pub open spec fn function_head(n: NewValueName) -> Seq<u8> {
    seq![102u8, 117, 110, 99, 116, 105, 111, 110, 32] + name_bytes(n)
}

/// The bytes of `function_head`.
fn function_head_vec(n: NewValueName) -> (r: Vec<u8>)
    requires
        name_is_ascii(n),
    ensures
        r@ == function_head(n),
        all_ascii(r@),
        r@.len() <= 11,
{
    let mut r: Vec<u8> = vec![102u8, 117, 110, 99, 116, 105, 111, 110, 32];
    let nb = name_vec(n);
    let mut k: usize = 0;
    while k < nb.len()
        invariant
            k <= nb@.len(),
            nb@ == name_bytes(n),
            r@ == seq![102u8, 117, 110, 99, 116, 105, 111, 110, 32] + nb@.take(k as int),
        decreases nb@.len() - k,
    {
        r.push(nb[k]);
        k = k + 1;
        assert(r@ =~= seq![102u8, 117, 110, 99, 116, 105, 111, 110, 32] + nb@.take(k as int));
    }
    assert(nb@.take(nb@.len() as int) =~= nb@);
    assert(nb@.len() <= 2);
    r
}

/// The bytes of a short name.
pub(crate) fn name_vec(n: NewValueName) -> (r: Vec<u8>)
    ensures
        r@ == name_bytes(n),
        name_is_ascii(n) ==> all_ascii(r@),
{
    let mut r: Vec<u8> = Vec::new();
    match n {
        NewValueName::OneChar(x) => {
            r.push(x);
            assert(r@ =~= seq![x]);
        },
        NewValueName::TwoChar(c) => {
            r.push(c[0]);
            r.push(c[1]);
            assert(r@ =~= seq![c[0], c[1]]);
        },
    }
    r
}

} // verus!
