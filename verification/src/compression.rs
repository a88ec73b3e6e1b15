//! Character statistics gathered while the output is produced, for a later
//! compression pass that gives frequent patterns unused UTF-8 characters.
use vstd::prelude::*;

verus! {

/// The number of buckets of each table of multi-byte characters.
pub const BUCKETS: usize = 256;

/// A two or three byte character, stored in the bucket given by its list
/// index, together with its count.
#[derive(Clone, Copy)]
pub struct MediumCharacterAmount {
    pub character_subindex: u8,
    pub amount: u16,
}

/// A four byte character, stored in the bucket given by its list index,
/// together with its count.
#[derive(Clone, Copy)]
pub struct FourCharacterAmount {
    pub character_subindexes: [u8; 2],
    pub amount: u16,
}

/// How many times each character occurs in the output.
pub struct CharacterAmounts {
    pub one_byte_chars: [u32; 128],
    pub two_byte_chars: Vec<Vec<MediumCharacterAmount>>,
    pub three_byte_chars: Vec<Vec<MediumCharacterAmount>>,
    pub four_byte_chars: Vec<Vec<FourCharacterAmount>>,
}

// ---------------------------------------------------------------------------
// UTF-8 shapes, as four bytes padded with zeros.

pub open spec fn is_continuation(b: u8) -> bool {
    0x80 <= b <= 0xBF
}

pub open spec fn is_two_byte_char(c: [u8; 4]) -> bool {
    &&& 0xC2 <= c[0] <= 0xDF
    &&& is_continuation(c[1])
    &&& c[2] == 0
    &&& c[3] == 0
}

pub open spec fn is_three_byte_char(c: [u8; 4]) -> bool {
    &&& 0xE0 <= c[0] <= 0xEF
    &&& is_continuation(c[1])
    &&& is_continuation(c[2])
    &&& c[3] == 0
}

pub open spec fn is_four_byte_char(c: [u8; 4]) -> bool {
    &&& 0xF0 <= c[0] <= 0xF7
    &&& is_continuation(c[1])
    &&& is_continuation(c[2])
    &&& is_continuation(c[3])
}

/// A character of two to four bytes, as the analysis collects them.
pub open spec fn is_big_char(c: [u8; 4]) -> bool {
    is_two_byte_char(c) || is_three_byte_char(c) || is_four_byte_char(c)
}

// ---------------------------------------------------------------------------
// Where each character is stored.

/// Two byte char `0b110abcde 0b10fghijk`: list index `0b e 0 fghijk`.
pub open spec fn two_list_index(b0: u8, b1: u8) -> u8 {
    (b1 & 0x7F) | (b0 << 7u8)
}

/// Two byte char: the subindex is the first byte.
pub open spec fn two_subindex(b0: u8) -> u8 {
    b0
}

/// Three byte char `0b1110abcd 0b10efghij 0b10klmnop`: list index `0b ij klmnop`.
pub open spec fn three_list_index(b1: u8, b2: u8) -> u8 {
    (b2 & 0x3F) | (b1 << 6u8)
}

/// Three byte char: subindex `0b abcd efgh`.
pub open spec fn three_subindex(b0: u8, b1: u8) -> u8 {
    (b0 << 4u8) | ((b1 >> 2u8) & 0x0F)
}

/// Four byte char `0b11110abc 0b10defghi 0b10jklmno 0b10pqrstu`: list index `0b bc pqrstu`.
pub open spec fn four_list_index(b0: u8, b3: u8) -> u8 {
    (b3 & 0x3F) | (b0 << 6u8)
}

/// Four byte char: subindexes `0b1adefghi`, `0b10jklmno`.
pub open spec fn four_subindex(b0: u8, b1: u8) -> u8 {
    ((b0 << 4u8) & 0x40) | b1
}

// ---------------------------------------------------------------------------
// The bytes that a list index and subindex stand for.

pub open spec fn two_bytes_of(index: usize, subindex: u8) -> [u8; 2] {
    [subindex, (index as u8) | 0x80]
}

pub open spec fn three_bytes_of(index: usize, subindex: u8) -> [u8; 3] {
    [
        (subindex >> 4u8) | 0xE0,
        ((subindex << 2u8) & 0x3F) | 0x80 | ((index as u8) >> 6u8),
        ((index as u8) & 0x3F) | 0x80,
    ]
}

pub open spec fn four_bytes_of(index: usize, subindexes: [u8; 2]) -> [u8; 4] {
    [
        ((subindexes[0] >> 4u8) & 0x04) | (((index as u8) >> 6u8) & 0x03) | 0xF0,
        subindexes[0] & 0xBF,
        subindexes[1],
        ((index as u8) & 0x3F) | 0x80,
    ]
}

// ---------------------------------------------------------------------------
// Counts.

/// The count that a bucket of two or three byte characters holds for `subindex`.
pub open spec fn medium_amount(bucket: Seq<MediumCharacterAmount>, subindex: u8) -> nat {
    if exists|i: int| 0 <= i < bucket.len() && bucket[i].character_subindex == subindex {
        let i = choose|i: int| 0 <= i < bucket.len() && bucket[i].character_subindex == subindex;
        bucket[i].amount as nat
    } else {
        0
    }
}

/// The count that a bucket of four byte characters holds for `subindexes`.
pub open spec fn four_amount(bucket: Seq<FourCharacterAmount>, subindexes: [u8; 2]) -> nat {
    if exists|i: int| 0 <= i < bucket.len() && bucket[i].character_subindexes == subindexes {
        let i = choose|i: int|
            0 <= i < bucket.len() && bucket[i].character_subindexes == subindexes;
        bucket[i].amount as nat
    } else {
        0
    }
}

pub open spec fn medium_unique(bucket: Seq<MediumCharacterAmount>) -> bool {
    forall|i: int, j: int|
        0 <= i < j < bucket.len() ==> bucket[i].character_subindex
            != bucket[j].character_subindex
}

pub open spec fn four_unique(bucket: Seq<FourCharacterAmount>) -> bool {
    forall|i: int, j: int|
        0 <= i < j < bucket.len() ==> bucket[i].character_subindexes
            != bucket[j].character_subindexes
}

impl CharacterAmounts {
    /// Each table has its 256 buckets, and no bucket holds a subindex twice.
    pub open spec fn wf(&self) -> bool {
        &&& self.two_byte_chars@.len() == BUCKETS
        &&& self.three_byte_chars@.len() == BUCKETS
        &&& self.four_byte_chars@.len() == BUCKETS
        &&& forall|i: int| 0 <= i < BUCKETS ==> medium_unique(#[trigger] self.two_byte_chars@[i]@)
        &&& forall|i: int|
            0 <= i < BUCKETS ==> medium_unique(#[trigger] self.three_byte_chars@[i]@)
        &&& forall|i: int| 0 <= i < BUCKETS ==> four_unique(#[trigger] self.four_byte_chars@[i]@)
    }

    /// How many times the character `c` of two to four bytes was counted.
    pub open spec fn big_char_count(&self, c: [u8; 4]) -> nat {
        if is_two_byte_char(c) {
            medium_amount(
                self.two_byte_chars@[two_list_index(c[0], c[1]) as int]@,
                two_subindex(c[0]),
            )
        } else if is_three_byte_char(c) {
            medium_amount(
                self.three_byte_chars@[three_list_index(c[1], c[2]) as int]@,
                three_subindex(c[0], c[1]),
            )
        } else if is_four_byte_char(c) {
            four_amount(
                self.four_byte_chars@[four_list_index(c[0], c[3]) as int]@,
                [four_subindex(c[0], c[1]), c[2]],
            )
        } else {
            0
        }
    }

    /// Counts of nothing at all.
    pub fn new() -> (r: Self)
        ensures
            r.wf(),
            forall|b: int| 0 <= b < 128 ==> r.one_byte_chars@[b] == 0,
            forall|c: [u8; 4]| #[trigger] r.big_char_count(c) == 0,
    {
        let mut two: Vec<Vec<MediumCharacterAmount>> = Vec::new();
        let mut three: Vec<Vec<MediumCharacterAmount>> = Vec::new();
        let mut four: Vec<Vec<FourCharacterAmount>> = Vec::new();
        let mut i: usize = 0;
        while i < BUCKETS
            invariant
                i <= BUCKETS,
                two@.len() == i,
                three@.len() == i,
                four@.len() == i,
                forall|k: int| 0 <= k < i ==> (#[trigger] two@[k])@.len() == 0,
                forall|k: int| 0 <= k < i ==> (#[trigger] three@[k])@.len() == 0,
                forall|k: int| 0 <= k < i ==> (#[trigger] four@[k])@.len() == 0,
            decreases BUCKETS - i,
        {
            two.push(Vec::new());
            three.push(Vec::new());
            four.push(Vec::new());
            i = i + 1;
        }
        let r = CharacterAmounts {
            one_byte_chars: [0u32; 128],
            two_byte_chars: two,
            three_byte_chars: three,
            four_byte_chars: four,
        };
        assert forall|c: [u8; 4]| #[trigger] r.big_char_count(c) == 0 by {}
        r
    }
}


// ---------------------------------------------------------------------------
// Bucket updates.

/// `new` is `old` once the character `bytes` is counted: the bucket it falls in
/// gains one for it (see `bumped_medium` and `bumped_four`), and every other bucket
/// and table is the same.
pub open spec fn big_char_added(old: CharacterAmounts, new: CharacterAmounts, bytes: [u8; 4]) -> bool {
    &&& is_two_byte_char(bytes) ==> {
        let li = two_list_index(bytes[0], bytes[1]) as int;
        &&& bumped_medium(old.two_byte_chars@[li]@, new.two_byte_chars@[li]@, two_subindex(bytes[0]))
        &&& forall|k: int| 0 <= k < BUCKETS && k != li ==> #[trigger] new.two_byte_chars@[k] == old.two_byte_chars@[k]
        &&& new.three_byte_chars == old.three_byte_chars
        &&& new.four_byte_chars == old.four_byte_chars
    }
    &&& is_three_byte_char(bytes) ==> {
        let li = three_list_index(bytes[1], bytes[2]) as int;
        &&& bumped_medium(old.three_byte_chars@[li]@, new.three_byte_chars@[li]@, three_subindex(bytes[0], bytes[1]))
        &&& forall|k: int| 0 <= k < BUCKETS && k != li ==> #[trigger] new.three_byte_chars@[k] == old.three_byte_chars@[k]
        &&& new.two_byte_chars == old.two_byte_chars
        &&& new.four_byte_chars == old.four_byte_chars
    }
    &&& is_four_byte_char(bytes) ==> {
        let li = four_list_index(bytes[0], bytes[3]) as int;
        &&& bumped_four(old.four_byte_chars@[li]@, new.four_byte_chars@[li]@, [four_subindex(bytes[0], bytes[1]), bytes[2]])
        &&& forall|k: int| 0 <= k < BUCKETS && k != li ==> #[trigger] new.four_byte_chars@[k] == old.four_byte_chars@[k]
        &&& new.two_byte_chars == old.two_byte_chars
        &&& new.three_byte_chars == old.three_byte_chars
    }
}

/// `new` is the bucket `old` once the count of `subindex` went up by one: the entry
/// that holds it gets one more, or an entry with a count of 1 is appended.
pub open spec fn bumped_medium(old: Seq<MediumCharacterAmount>, new: Seq<MediumCharacterAmount>, subindex: u8) -> bool {
    if exists|i: int| 0 <= i < old.len() && old[i].character_subindex == subindex {
        exists|i: int|
            0 <= i < old.len() && old[i].character_subindex == subindex && new == old.update(
                i,
                MediumCharacterAmount { character_subindex: subindex, amount: (old[i].amount + 1) as u16 },
            )
    } else {
        new == old.push(MediumCharacterAmount { character_subindex: subindex, amount: 1 })
    }
}

/// `new` is the bucket `old` once the count of `subindexes` went up by one: the
/// entry that holds them gets one more, or an entry with a count of 1 is appended.
pub open spec fn bumped_four(old: Seq<FourCharacterAmount>, new: Seq<FourCharacterAmount>, subindexes: [u8; 2]) -> bool {
    if exists|i: int| 0 <= i < old.len() && old[i].character_subindexes == subindexes {
        exists|i: int|
            0 <= i < old.len() && old[i].character_subindexes == subindexes && new == old.update(
                i,
                FourCharacterAmount { character_subindexes: subindexes, amount: (old[i].amount + 1) as u16 },
            )
    } else {
        new == old.push(FourCharacterAmount { character_subindexes: subindexes, amount: 1 })
    }
}

/// Counting a subindex once more keeps each subindex once in its bucket.
pub proof fn lemma_bumped_medium_unique(old: Seq<MediumCharacterAmount>, new: Seq<MediumCharacterAmount>, subindex: u8)
    requires
        medium_unique(old),
        bumped_medium(old, new, subindex),
    ensures
        medium_unique(new),
{
    if !(exists|i: int| 0 <= i < old.len() && old[i].character_subindex == subindex) {
        assert forall|i: int, j: int| 0 <= i < j < new.len() implies new[i].character_subindex
            != new[j].character_subindex by {
            if j == old.len() {
                assert(new[i] == old[i]);
            }
        }
    }
}

/// Counting subindexes once more keeps each pair of subindexes once in its bucket.
pub proof fn lemma_bumped_four_unique(old: Seq<FourCharacterAmount>, new: Seq<FourCharacterAmount>, subindexes: [u8; 2])
    requires
        four_unique(old),
        bumped_four(old, new, subindexes),
    ensures
        four_unique(new),
{
    if !(exists|i: int| 0 <= i < old.len() && old[i].character_subindexes == subindexes) {
        assert forall|i: int, j: int| 0 <= i < j < new.len() implies new[i].character_subindexes
            != new[j].character_subindexes by {
            if j == old.len() {
                assert(new[i] == old[i]);
            }
        }
    }
}

/// Counting a character of two to four bytes keeps every bucket free of repeated
/// subindexes: its bucket gains one on the entry that holds it, or a new entry with a
/// count of 1, and the other buckets stay as they were.
pub proof fn law_added_big_char_keeps_buckets_unique(old: CharacterAmounts, new: CharacterAmounts, bytes: [u8; 4])
    requires
        old.wf(),
        is_big_char(bytes),
        big_char_added(old, new, bytes),
    ensures
        forall|i: int| 0 <= i < BUCKETS ==> medium_unique(#[trigger] new.two_byte_chars@[i]@),
        forall|i: int| 0 <= i < BUCKETS ==> medium_unique(#[trigger] new.three_byte_chars@[i]@),
        forall|i: int| 0 <= i < BUCKETS ==> four_unique(#[trigger] new.four_byte_chars@[i]@),
{
    if is_two_byte_char(bytes) {
        let li = two_list_index(bytes[0], bytes[1]) as int;
        lemma_bumped_medium_unique(old.two_byte_chars@[li]@, new.two_byte_chars@[li]@, two_subindex(bytes[0]));
    }
    if is_three_byte_char(bytes) {
        let li = three_list_index(bytes[1], bytes[2]) as int;
        lemma_bumped_medium_unique(old.three_byte_chars@[li]@, new.three_byte_chars@[li]@, three_subindex(bytes[0], bytes[1]));
    }
    if is_four_byte_char(bytes) {
        let li = four_list_index(bytes[0], bytes[3]) as int;
        lemma_bumped_four_unique(old.four_byte_chars@[li]@, new.four_byte_chars@[li]@, [four_subindex(bytes[0], bytes[1]), bytes[2]]);
    }
}

/// Adds one to the count of `subindex` in a bucket, or appends it with a count of 1.
fn bump_medium(bucket: &mut Vec<MediumCharacterAmount>, subindex: u8)
    requires
        medium_unique(old(bucket)@),
        medium_amount(old(bucket)@, subindex) < u16::MAX,
    ensures
        medium_unique(final(bucket)@),
        bumped_medium(old(bucket)@, final(bucket)@, subindex),
        medium_amount(final(bucket)@, subindex) == medium_amount(old(bucket)@, subindex) + 1,
        forall|s: u8|
            s != subindex ==> medium_amount(final(bucket)@, s) == medium_amount(old(bucket)@, s),
{
    let ghost b0 = bucket@;
    let mut k: usize = 0;
    while k < bucket.len()
        invariant
            bucket@ == b0,
            old(bucket)@ == b0,
            medium_unique(b0),
            medium_amount(b0, subindex) < u16::MAX,
            k <= b0.len(),
            forall|j: int| 0 <= j < k ==> b0[j].character_subindex != subindex,
        decreases b0.len() - k,
    {
        if bucket[k].character_subindex == subindex {
            assert(medium_amount(b0, subindex) == b0[k as int].amount);
            let amount = bucket[k].amount + 1;
            bucket[k] = MediumCharacterAmount { character_subindex: subindex, amount };
            let ghost b1 = bucket@;
            assert(b1 =~= b0.update(k as int, MediumCharacterAmount { character_subindex: subindex, amount: (b0[k as int].amount + 1) as u16 }));
            assert(b1[k as int].character_subindex == subindex);
            assert(medium_amount(b1, subindex) == amount);
            assert forall|s: u8| s != subindex implies medium_amount(b1, s) == medium_amount(
                b0,
                s,
            ) by {
                if exists|i: int| 0 <= i < b0.len() && b0[i].character_subindex == s {
                    let i = choose|i: int| 0 <= i < b0.len() && b0[i].character_subindex == s;
                    assert(b1[i].character_subindex == s);
                } else {
                    assert forall|i: int| 0 <= i < b1.len() implies b1[i].character_subindex
                        != s by {
                        if i != k {
                            assert(b1[i] == b0[i]);
                        }
                    }
                }
            }
            return;
        }
        k = k + 1;
    }
    assert(medium_amount(b0, subindex) == 0);
    assert(!exists|i: int| 0 <= i < b0.len() && b0[i].character_subindex == subindex);
    bucket.push(MediumCharacterAmount { character_subindex: subindex, amount: 1 });
    let ghost b1 = bucket@;
    assert(b1[b0.len() as int].character_subindex == subindex);
    assert(medium_amount(b1, subindex) == 1);
    assert forall|s: u8| s != subindex implies medium_amount(b1, s) == medium_amount(b0, s) by {
        if exists|i: int| 0 <= i < b0.len() && b0[i].character_subindex == s {
            let i = choose|i: int| 0 <= i < b0.len() && b0[i].character_subindex == s;
            assert(b1[i].character_subindex == s);
        } else {
            assert forall|i: int| 0 <= i < b1.len() implies b1[i].character_subindex != s by {
                if i < b0.len() {
                    assert(b1[i] == b0[i]);
                }
            }
        }
    }
}

/// Adds one to the count of `subindexes` in a bucket, or appends them with a count of 1.
fn bump_four(bucket: &mut Vec<FourCharacterAmount>, subindexes: [u8; 2])
    requires
        four_unique(old(bucket)@),
        four_amount(old(bucket)@, subindexes) < u16::MAX,
    ensures
        four_unique(final(bucket)@),
        bumped_four(old(bucket)@, final(bucket)@, subindexes),
        four_amount(final(bucket)@, subindexes) == four_amount(old(bucket)@, subindexes) + 1,
        forall|s: [u8; 2]|
            s != subindexes ==> four_amount(final(bucket)@, s) == four_amount(old(bucket)@, s),
{
    let ghost b0 = bucket@;
    let mut k: usize = 0;
    while k < bucket.len()
        invariant
            bucket@ == b0,
            old(bucket)@ == b0,
            four_unique(b0),
            four_amount(b0, subindexes) < u16::MAX,
            k <= b0.len(),
            forall|j: int| 0 <= j < k ==> b0[j].character_subindexes != subindexes,
        decreases b0.len() - k,
    {
        let found = bucket[k].character_subindexes[0] == subindexes[0]
            && bucket[k].character_subindexes[1] == subindexes[1];
        proof {
            let e = b0[k as int].character_subindexes;
            if found {
                assert(e =~= subindexes);
            } else {
                assert(e != subindexes);
            }
        }
        if found {
            assert(four_amount(b0, subindexes) == b0[k as int].amount);
            let amount = bucket[k].amount + 1;
            bucket[k] = FourCharacterAmount { character_subindexes: subindexes, amount };
            let ghost b1 = bucket@;
            assert(b1 =~= b0.update(k as int, FourCharacterAmount { character_subindexes: subindexes, amount: (b0[k as int].amount + 1) as u16 }));
            assert(b1[k as int].character_subindexes == subindexes);
            assert(four_amount(b1, subindexes) == amount);
            assert forall|s: [u8; 2]| s != subindexes implies four_amount(b1, s) == four_amount(
                b0,
                s,
            ) by {
                if exists|i: int| 0 <= i < b0.len() && b0[i].character_subindexes == s {
                    let i = choose|i: int| 0 <= i < b0.len() && b0[i].character_subindexes == s;
                    assert(b1[i].character_subindexes == s);
                } else {
                    assert forall|i: int| 0 <= i < b1.len() implies b1[i].character_subindexes
                        != s by {
                        if i != k {
                            assert(b1[i] == b0[i]);
                        }
                    }
                }
            }
            return;
        }
        k = k + 1;
    }
    assert(four_amount(b0, subindexes) == 0);
    assert(!exists|i: int| 0 <= i < b0.len() && b0[i].character_subindexes == subindexes);
    bucket.push(FourCharacterAmount { character_subindexes: subindexes, amount: 1 });
    let ghost b1 = bucket@;
    assert(b1[b0.len() as int].character_subindexes == subindexes);
    assert(four_amount(b1, subindexes) == 1);
    assert forall|s: [u8; 2]| s != subindexes implies four_amount(b1, s) == four_amount(b0, s) by {
        if exists|i: int| 0 <= i < b0.len() && b0[i].character_subindexes == s {
            let i = choose|i: int| 0 <= i < b0.len() && b0[i].character_subindexes == s;
            assert(b1[i].character_subindexes == s);
        } else {
            assert forall|i: int| 0 <= i < b1.len() implies b1[i].character_subindexes != s by {
                if i < b0.len() {
                    assert(b1[i] == b0[i]);
                }
            }
        }
    }
}


// ---------------------------------------------------------------------------
// Every character has a place of its own.

/// The list index and subindex of a two byte character give back its bytes.
pub proof fn lemma_two_byte_roundtrip(c: [u8; 4])
    requires
        is_two_byte_char(c),
    ensures
        two_bytes_of(two_list_index(c[0], c[1]) as usize, two_subindex(c[0])) == [c[0], c[1]],
{
    let b0 = c[0];
    let b1 = c[1];
    let idx: u8 = two_list_index(b0, b1);
    assert(((idx as usize) as u8) | 0x80 == b1) by (bit_vector)
        requires
            idx == (b1 & 0x7F) | (b0 << 7u8),
            0x80 <= b1 <= 0xBF,
    ;
    assert(two_bytes_of(idx as usize, b0) =~= [b0, b1]);
}

/// The list index and subindex of a three byte character give back its bytes.
pub proof fn lemma_three_byte_roundtrip(c: [u8; 4])
    requires
        is_three_byte_char(c),
    ensures
        three_bytes_of(three_list_index(c[1], c[2]) as usize, three_subindex(c[0], c[1]))
            == [c[0], c[1], c[2]],
{
    let b0 = c[0];
    let b1 = c[1];
    let b2 = c[2];
    let idx: u8 = three_list_index(b1, b2);
    let sub: u8 = three_subindex(b0, b1);
    assert((sub >> 4u8) | 0xE0 == b0) by (bit_vector)
        requires
            sub == (b0 << 4u8) | ((b1 >> 2u8) & 0x0F),
            0xE0 <= b0 <= 0xEF,
    ;
    assert(((sub << 2u8) & 0x3F) | 0x80 | (((idx as usize) as u8) >> 6u8) == b1) by (bit_vector)
        requires
            sub == (b0 << 4u8) | ((b1 >> 2u8) & 0x0F),
            idx == (b2 & 0x3F) | (b1 << 6u8),
            0x80 <= b1 <= 0xBF,
    ;
    assert((((idx as usize) as u8) & 0x3F) | 0x80 == b2) by (bit_vector)
        requires
            idx == (b2 & 0x3F) | (b1 << 6u8),
            0x80 <= b2 <= 0xBF,
    ;
    assert(three_bytes_of(idx as usize, sub) =~= [b0, b1, b2]);
}

/// The list index and subindexes of a four byte character give back its bytes.
pub proof fn lemma_four_byte_roundtrip(c: [u8; 4])
    requires
        is_four_byte_char(c),
    ensures
        four_bytes_of(four_list_index(c[0], c[3]) as usize, [four_subindex(c[0], c[1]), c[2]])
            == c,
{
    let b0 = c[0];
    let b1 = c[1];
    let b2 = c[2];
    let b3 = c[3];
    let idx: u8 = four_list_index(b0, b3);
    let s0: u8 = four_subindex(b0, b1);
    assert(((s0 >> 4u8) & 0x04) | ((((idx as usize) as u8) >> 6u8) & 0x03) | 0xF0 == b0)
        by (bit_vector)
        requires
            s0 == ((b0 << 4u8) & 0x40) | b1,
            idx == (b3 & 0x3F) | (b0 << 6u8),
            0xF0 <= b0 <= 0xF7,
            0x80 <= b1 <= 0xBF,
    ;
    assert(s0 & 0xBF == b1) by (bit_vector)
        requires
            s0 == ((b0 << 4u8) & 0x40) | b1,
            0x80 <= b1 <= 0xBF,
    ;
    assert((((idx as usize) as u8) & 0x3F) | 0x80 == b3) by (bit_vector)
        requires
            idx == (b3 & 0x3F) | (b0 << 6u8),
            0x80 <= b3 <= 0xBF,
    ;
    assert(four_bytes_of(idx as usize, [s0, b2]) =~= c);
}

/// Two characters of one length that share a list index and a subindex are the same.
pub proof fn lemma_big_char_place_unique(c: [u8; 4], d: [u8; 4])
    requires
        is_big_char(c),
        is_big_char(d),
    ensures
        is_two_byte_char(c) && is_two_byte_char(d) && two_list_index(c[0], c[1])
            == two_list_index(d[0], d[1]) && two_subindex(c[0]) == two_subindex(d[0]) ==> c == d,
        is_three_byte_char(c) && is_three_byte_char(d) && three_list_index(c[1], c[2])
            == three_list_index(d[1], d[2]) && three_subindex(c[0], c[1]) == three_subindex(
            d[0],
            d[1],
        ) ==> c == d,
        is_four_byte_char(c) && is_four_byte_char(d) && four_list_index(c[0], c[3])
            == four_list_index(d[0], d[3]) && [four_subindex(c[0], c[1]), c[2]] == [
            four_subindex(d[0], d[1]),
            d[2],
        ] ==> c == d,
{
    if is_two_byte_char(c) && is_two_byte_char(d) && two_list_index(c[0], c[1])
        == two_list_index(d[0], d[1]) && two_subindex(c[0]) == two_subindex(d[0]) {
        lemma_two_byte_roundtrip(c);
        lemma_two_byte_roundtrip(d);
        assert([c[0], c[1]][1] == [d[0], d[1]][1]);
        assert(c =~= d);
    }
    if is_three_byte_char(c) && is_three_byte_char(d) && three_list_index(c[1], c[2])
        == three_list_index(d[1], d[2]) && three_subindex(c[0], c[1]) == three_subindex(
        d[0],
        d[1],
    ) {
        lemma_three_byte_roundtrip(c);
        lemma_three_byte_roundtrip(d);
        assert([c[0], c[1], c[2]][0] == [d[0], d[1], d[2]][0]);
        assert([c[0], c[1], c[2]][1] == [d[0], d[1], d[2]][1]);
        assert([c[0], c[1], c[2]][2] == [d[0], d[1], d[2]][2]);
        assert(c =~= d);
    }
    if is_four_byte_char(c) && is_four_byte_char(d) && four_list_index(c[0], c[3])
        == four_list_index(d[0], d[3]) && [four_subindex(c[0], c[1]), c[2]] == [
        four_subindex(d[0], d[1]),
        d[2],
    ] {
        lemma_four_byte_roundtrip(c);
        lemma_four_byte_roundtrip(d);
    }
}

impl CharacterAmounts {
    /// Increments the amount of the corresponding one byte char by 1.
    ///
    /// Time complexity: O(1)
    pub fn add_small_char(&mut self, byte: u8)
        requires
            byte < 128,
            old(self).one_byte_chars@[byte as int] < u32::MAX,
        ensures
            final(self).one_byte_chars@ == old(self).one_byte_chars@.update(
                byte as int,
                (old(self).one_byte_chars@[byte as int] + 1) as u32,
            ),
            final(self).two_byte_chars == old(self).two_byte_chars,
            final(self).three_byte_chars == old(self).three_byte_chars,
            final(self).four_byte_chars == old(self).four_byte_chars,
    {
        let i = byte as usize;
        self.one_byte_chars[i] = self.one_byte_chars[i] + 1;
    }

    /// Decrements the amount of the corresponding one byte char by 1 (a count of 0
    /// stays 0).
    ///
    /// Time complexity: O(1)
    pub fn remove_small_char(&mut self, byte: u8)
        requires
            byte < 128,
        ensures
            final(self).one_byte_chars@ == old(self).one_byte_chars@.update(
                byte as int,
                if old(self).one_byte_chars@[byte as int] == 0 {
                    0u32
                } else {
                    (old(self).one_byte_chars@[byte as int] - 1) as u32
                },
            ),
            final(self).two_byte_chars == old(self).two_byte_chars,
            final(self).three_byte_chars == old(self).three_byte_chars,
            final(self).four_byte_chars == old(self).four_byte_chars,
    {
        let i = byte as usize;
        if self.one_byte_chars[i] > 0 {
            self.one_byte_chars[i] = self.one_byte_chars[i] - 1;
        }
    }

    /// Increments the amount of the corresponding character of two or more bytes.
    /// `bytes` holds the character's bytes followed by zeros.
    ///
    /// Time complexity: O(n) where n is the length of the bucket.
    pub fn add_big_char(&mut self, bytes: [u8; 4])
        requires
            old(self).wf(),
            is_big_char(bytes),
            old(self).big_char_count(bytes) < u16::MAX,
        ensures
            final(self).wf(),
            final(self).one_byte_chars == old(self).one_byte_chars,
            final(self).big_char_count(bytes) == old(self).big_char_count(bytes) + 1,
            big_char_added(*old(self), *final(self), bytes),
            forall|c: [u8; 4]|
                is_big_char(c) && c != bytes ==> #[trigger] final(self).big_char_count(c) == old(
                    self,
                ).big_char_count(c),
    {
        let ghost pre = *self;
        //If the third byte is null (0), the character is 2 bytes long.
        if bytes[2] == 0 {
            //Two byte char structure: 0b'110abcde 10fghijk'
            //List index: 0b'e0fghijk'
            let list_index = ((bytes[1] & 0x7F) | (bytes[0] << 7u8)) as usize;
            //Subindex: 0b'110abcde'
            let subindex = bytes[0];
            assert(medium_unique(self.two_byte_chars@[list_index as int]@));
            bump_medium(&mut self.two_byte_chars[list_index], subindex);
            proof {
                assert forall|i: int| 0 <= i < BUCKETS implies medium_unique(
                    #[trigger] self.two_byte_chars@[i]@,
                ) by {
                    if i != list_index {
                        assert(self.two_byte_chars@[i] == pre.two_byte_chars@[i]);
                    }
                }
                assert forall|c: [u8; 4]|
                    is_big_char(c) && c != bytes implies #[trigger] self.big_char_count(c)
                    == pre.big_char_count(c) by {
                    lemma_big_char_place_unique(c, bytes);
                    if is_two_byte_char(c) {
                        let li = two_list_index(c[0], c[1]) as int;
                        if li != list_index {
                            assert(self.two_byte_chars@[li] == pre.two_byte_chars@[li]);
                        }
                    }
                }
            }
            //Else if the fourth byte is null, the length is 3.
        } else if bytes[3] == 0 {
            //Three byte char structure: 0b'1110abcd 10efghij 10klmnop'
            //List index: 0b'ijklmnop'
            let list_index = ((bytes[2] & 0x3F) | (bytes[1] << 6u8)) as usize;
            //Subindex: 0b'abcdefgh'
            let subindex = (bytes[0] << 4u8) | ((bytes[1] >> 2u8) & 0x0F);
            assert(medium_unique(self.three_byte_chars@[list_index as int]@));
            bump_medium(&mut self.three_byte_chars[list_index], subindex);
            proof {
                assert forall|i: int| 0 <= i < BUCKETS implies medium_unique(
                    #[trigger] self.three_byte_chars@[i]@,
                ) by {
                    if i != list_index {
                        assert(self.three_byte_chars@[i] == pre.three_byte_chars@[i]);
                    }
                }
                assert forall|c: [u8; 4]|
                    is_big_char(c) && c != bytes implies #[trigger] self.big_char_count(c)
                    == pre.big_char_count(c) by {
                    lemma_big_char_place_unique(c, bytes);
                    if is_three_byte_char(c) {
                        let li = three_list_index(c[1], c[2]) as int;
                        if li != list_index {
                            assert(self.three_byte_chars@[li] == pre.three_byte_chars@[li]);
                        }
                    }
                }
            }
            //Else, the length is four.
        } else {
            //Four byte char structure: 0b'11110abc 10defghi 10jklmno 10pqrstu'
            //List index: 0b'bcpqrstu'
            let list_index = ((bytes[3] & 0x3F) | (bytes[0] << 6u8)) as usize;
            //Subindexes: 0b'1adefghi 10jklmno'
            let sub_indexes: [u8; 2] = [((bytes[0] << 4u8) & 0x40) | bytes[1], bytes[2]];
            assert(four_unique(self.four_byte_chars@[list_index as int]@));
            bump_four(&mut self.four_byte_chars[list_index], sub_indexes);
            proof {
                assert forall|i: int| 0 <= i < BUCKETS implies four_unique(
                    #[trigger] self.four_byte_chars@[i]@,
                ) by {
                    if i != list_index {
                        assert(self.four_byte_chars@[i] == pre.four_byte_chars@[i]);
                    }
                }
                assert forall|c: [u8; 4]|
                    is_big_char(c) && c != bytes implies #[trigger] self.big_char_count(c)
                    == pre.big_char_count(c) by {
                    lemma_big_char_place_unique(c, bytes);
                    if is_four_byte_char(c) {
                        let li = four_list_index(c[0], c[3]) as int;
                        if li != list_index {
                            assert(self.four_byte_chars@[li] == pre.four_byte_chars@[li]);
                        }
                    }
                }
            }
        }
    }

    /// How many times the character `bytes` of two to four bytes was counted.
    pub fn big_char_amount(&self, bytes: [u8; 4]) -> (r: u16)
        requires
            self.wf(),
            is_big_char(bytes),
        ensures
            r == self.big_char_count(bytes),
    {
        if bytes[2] == 0 {
            let list_index = ((bytes[1] & 0x7F) | (bytes[0] << 7u8)) as usize;
            medium_count(&self.two_byte_chars[list_index], bytes[0])
        } else if bytes[3] == 0 {
            let list_index = ((bytes[2] & 0x3F) | (bytes[1] << 6u8)) as usize;
            let subindex = (bytes[0] << 4u8) | ((bytes[1] >> 2u8) & 0x0F);
            medium_count(&self.three_byte_chars[list_index], subindex)
        } else {
            let list_index = ((bytes[3] & 0x3F) | (bytes[0] << 6u8)) as usize;
            let sub_indexes: [u8; 2] = [((bytes[0] << 4u8) & 0x40) | bytes[1], bytes[2]];
            four_count(&self.four_byte_chars[list_index], sub_indexes)
        }
    }

    /// Converts the two bytes character from index/subindex form and returns its two bytes in UTF-8.
    /// Sequence : 0b'efghijkl', 0b'110abcde' -> 0b'110abcde 1fghijkl'
    ///
    /// Time complexity: O(1)
    pub fn extract_two_bytes_char(index: usize, subindex: u8) -> (r: [u8; 2])
        ensures
            r == two_bytes_of(index, subindex),
    {
        [subindex, (index as u8) | 0x80]
    }

    /// Converts the three bytes character from index/subindex form and returns its three bytes in UTF-8.
    ///
    /// Time complexity: O(1)
    pub fn extract_three_bytes_char(index: usize, subindex: u8) -> (r: [u8; 3])
        ensures
            r == three_bytes_of(index, subindex),
    {
        let i = index as u8;
        [(subindex >> 4u8) | 0xE0, ((subindex << 2u8) & 0x3F) | 0x80 | (i >> 6u8), (i & 0x3F) | 0x80]
    }

    /// Converts the four bytes character from index/subindex form and returns its four bytes in UTF-8.
    ///
    /// Time complexity: O(1)
    pub fn extract_four_byte_char(index: usize, subindexes: [u8; 2]) -> (r: [u8; 4])
        ensures
            r == four_bytes_of(index, subindexes),
    {
        let i = index as u8;
        [
            ((subindexes[0] >> 4u8) & 0x04) | ((i >> 6u8) & 0x03) | 0xF0,
            subindexes[0] & 0xBF,
            subindexes[1],
            (i & 0x3F) | 0x80,
        ]
    }
}


/// The count that a bucket of two or three byte characters holds for `subindex`.
fn medium_count(bucket: &Vec<MediumCharacterAmount>, subindex: u8) -> (r: u16)
    requires
        medium_unique(bucket@),
    ensures
        r == medium_amount(bucket@, subindex),
{
    let mut i: usize = 0;
    while i < bucket.len()
        invariant
            i <= bucket@.len(),
            medium_unique(bucket@),
            forall|k: int| 0 <= k < i ==> bucket@[k].character_subindex != subindex,
        decreases bucket@.len() - i,
    {
        if bucket[i].character_subindex == subindex {
            proof {
                assert(0 <= i < bucket@.len() && bucket@[i as int].character_subindex == subindex);
                let c = choose|c: int| 0 <= c < bucket@.len() && bucket@[c].character_subindex == subindex;
                if c != i {
                    if c < i {
                        assert(bucket@[c].character_subindex != bucket@[i as int].character_subindex);
                    } else {
                        assert(medium_unique(bucket@));
                        assert(i < c < bucket@.len());
                        assert(bucket@[i as int].character_subindex != bucket@[c].character_subindex);
                    }
                }
            }
            return bucket[i].amount;
        }
        i = i + 1;
    }
    0
}

/// The count that a bucket of four byte characters holds for `subindexes`.
fn four_count(bucket: &Vec<FourCharacterAmount>, subindexes: [u8; 2]) -> (r: u16)
    requires
        four_unique(bucket@),
    ensures
        r == four_amount(bucket@, subindexes),
{
    let mut i: usize = 0;
    while i < bucket.len()
        invariant
            i <= bucket@.len(),
            four_unique(bucket@),
            forall|k: int| 0 <= k < i ==> bucket@[k].character_subindexes != subindexes,
        decreases bucket@.len() - i,
    {
        let found = bucket[i].character_subindexes[0] == subindexes[0]
            && bucket[i].character_subindexes[1] == subindexes[1];
        if found {
            proof {
                assert(bucket@[i as int].character_subindexes =~= subindexes);
                assert(0 <= i < bucket@.len() && bucket@[i as int].character_subindexes == subindexes);
                let c = choose|c: int| 0 <= c < bucket@.len() && bucket@[c].character_subindexes == subindexes;
                if c != i {
                    if c < i {
                        assert(bucket@[c].character_subindexes != bucket@[i as int].character_subindexes);
                    } else {
                        assert(four_unique(bucket@));
                        assert(i < c < bucket@.len());
                        assert(bucket@[i as int].character_subindexes != bucket@[c].character_subindexes);
                    }
                }
            }
            return bucket[i].amount;
        }
        proof {
            if bucket@[i as int].character_subindexes == subindexes {
                assert(bucket@[i as int].character_subindexes[0] == subindexes[0]);
            }
        }
        i = i + 1;
    }
    0
}

} // verus!
