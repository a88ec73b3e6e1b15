//! The structures used while analysing HTML/CSS/JavaScript code in order to
//! shorten syntax and value names as much as possible.
use vstd::prelude::*;

pub use crate::analysis_object::CodeAnalysisObject;
pub use crate::bitset::BitSet64;

verus! {

/// The number of buckets of a `ValueList`.
pub const VALUE_BUCKETS: usize = 1024;

/// The short name given to a value: one letter, or two when all the one
/// letter names are taken.
#[derive(Clone, Copy, PartialEq, Eq, Debug)]
pub enum NewValueName {
    OneChar(u8),
    TwoChar([u8; 2]),
}

#[derive(Clone, Copy, PartialEq, Eq, Structural)]
pub enum EndOfScopeChar {
    Curly,
    Parenthesis,
    SemiColon,
    NotSet,
}

/// What the analysis was in the middle of when a buffer of input ran out.
#[derive(Clone, Copy, PartialEq, Eq, Debug)]
pub enum PreviousBufferState {
    Code,
    JSInlineComment,
    JSComment,
    HTMLComment,
    StringConcat([u8; 2]),
    WaitingParenthesis,
    WaitingEndScopeChar(u8),
    ExpectingScopeChar,
    //Different states of verifying if its an if statement
    WaitingIfStatementFirstI,
    WaitingIfStatementF,
    FindingNewValueName,
    FindingFunctionName,
}

#[derive(Clone, Copy, PartialEq, Eq, Structural)]
pub enum GoingThrough {
    HTML,
    CSS,
    JS,
}


/// A declared value: its name in the source and the short name it gets.
pub struct Value {
    ///The old name of the value excluding the first byte (serves as table index)
    pub value_old_name: Vec<u8>,
    pub value_new_name: NewValueName,
    pub amount_occurences: u16,
    pub declaration_index: usize,
    pub last_usage_index: usize,
    pub function_index: Option<usize>,
}

/// The contents of a `Value`.
pub struct ValueView {
    pub old_name: Seq<u8>,
    pub new_name: NewValueName,
    pub amount_occurences: u16,
    pub declaration_index: usize,
    pub last_usage_index: usize,
    pub function_index: Option<usize>,
}

impl View for Value {
    type V = ValueView;

    open spec fn view(&self) -> ValueView {
        ValueView {
            old_name: self.value_old_name@,
            new_name: self.value_new_name,
            amount_occurences: self.amount_occurences,
            declaration_index: self.declaration_index,
            last_usage_index: self.last_usage_index,
            function_index: self.function_index,
        }
    }
}

impl Value {
    /// A copy of this value.
    pub fn duplicate(&self) -> (r: Value)
        ensures
            r@ == self@,
    {
        let name = self.value_old_name.clone();
        assert(name@ =~= self.value_old_name@);
        Value {
            value_old_name: name,
            value_new_name: self.value_new_name,
            amount_occurences: self.amount_occurences,
            declaration_index: self.declaration_index,
            last_usage_index: self.last_usage_index,
            function_index: self.function_index,
        }
    }
}

/// Whether two byte strings are equal.
pub fn bytes_equal(a: &[u8], b: &[u8]) -> (r: bool)
    ensures
        r == (a@ == b@),
{
    if a.len() != b.len() {
        return false;
    }
    let mut i: usize = 0;
    while i < a.len()
        invariant
            a@.len() == b@.len(),
            i <= a@.len(),
            forall|k: int| 0 <= k < i ==> a@[k] == b@[k],
        decreases a@.len() - i,
    {
        if a[i] != b[i] {
            return false;
        }
        i = i + 1;
    }
    assert(a@ =~= b@);
    true
}

/// Whether `name` equals `full` without its first byte.
pub fn tail_equal(name: &[u8], full: &[u8]) -> (r: bool)
    requires
        full@.len() >= 1,
    ensures
        r == (name@ == full@.skip(1)),
{
    if name.len() != full.len() - 1 {
        return false;
    }
    let mut i: usize = 0;
    while i < name.len()
        invariant
            name@.len() + 1 == full@.len(),
            i <= name@.len(),
            forall|k: int| 0 <= k < i ==> name@[k] == full@[k + 1],
        decreases name@.len() - i,
    {
        if name[i] != full[i + 1] {
            return false;
        }
        i = i + 1;
    }
    assert(name@ =~= full@.skip(1));
    true
}

/// The position, in a bucket, of the most recently inserted value named `name`.
pub open spec fn last_match(bucket: Seq<ValueView>, name: Seq<u8>) -> Option<int>
    decreases bucket.len(),
{
    if bucket.len() == 0 {
        None
    } else if bucket.last().old_name == name {
        Some(bucket.len() - 1)
    } else {
        last_match(bucket.drop_last(), name)
    }
}

/// `last_match` is the greatest position holding `name`.
pub proof fn lemma_last_match(bucket: Seq<ValueView>, name: Seq<u8>)
    ensures
        last_match(bucket, name) matches Some(i) ==> 0 <= i < bucket.len() && bucket[i].old_name
            == name && forall|j: int| i < j < bucket.len() ==> bucket[j].old_name != name,
        last_match(bucket, name) is None ==> forall|j: int|
            0 <= j < bucket.len() ==> bucket[j].old_name != name,
    decreases bucket.len(),
{
    if bucket.len() > 0 && bucket.last().old_name != name {
        let rest = bucket.drop_last();
        lemma_last_match(rest, name);
        assert forall|j: int| 0 <= j < rest.len() implies rest[j] == bucket[j] by {}
    }
}

/// A position holding `name` with no later one is `last_match`.
pub proof fn lemma_last_match_at(bucket: Seq<ValueView>, name: Seq<u8>, i: int)
    requires
        0 <= i < bucket.len(),
        bucket[i].old_name == name,
        forall|j: int| i < j < bucket.len() ==> bucket[j].old_name != name,
    ensures
        last_match(bucket, name) == Some(i),
    decreases bucket.len(),
{
    if i < bucket.len() - 1 {
        lemma_last_match_at(bucket.drop_last(), name, i);
    }
}

/// The bucket after a value found by name has been used once more at `position`.
pub open spec fn bucket_after_use(bucket: Seq<ValueView>, i: int, position: usize) -> Seq<
    ValueView,
> {
    bucket.update(
        i,
        ValueView {
            amount_occurences: (bucket[i].amount_occurences + 1) as u16,
            last_usage_index: position,
            ..bucket[i]
        },
    )
}

/// The bucket after the count of uses of its value at `i` went up by one.
pub open spec fn bucket_after_count(bucket: Seq<ValueView>, i: int) -> Seq<ValueView> {
    bucket.update(
        i,
        ValueView { amount_occurences: (bucket[i].amount_occurences + 1) as u16, ..bucket[i] },
    )
}

///This is a more efficient version of a HashMap, with lookup speed of approximately O(1),
///less memory usage as well as faster index calculation than a Hash.
///
/// It uses a combination of the first byte
/// and the two last bits of the middle byte as an index inside the table
pub struct ValueList(pub Vec<Vec<Value>>);

impl View for ValueList {
    type V = Seq<Seq<ValueView>>;

    open spec fn view(&self) -> Seq<Seq<ValueView>> {
        Seq::new(self.0@.len(), |i: int| self.0@[i]@.map_values(|v: Value| v@))
    }
}

impl ValueList {
    pub open spec fn wf(&self) -> bool {
        self.0@.len() == VALUE_BUCKETS
    }

    pub fn new() -> (r: Self)
        ensures
            r.wf(),
            r@ == Seq::new(VALUE_BUCKETS as nat, |i: int| Seq::<ValueView>::empty()),
    {
        let mut buckets: Vec<Vec<Value>> = Vec::new();
        let mut i: usize = 0;
        while i < VALUE_BUCKETS
            invariant
                i <= VALUE_BUCKETS,
                buckets@.len() == i,
                forall|k: int| 0 <= k < i ==> (#[trigger] buckets@[k])@.len() == 0,
            decreases VALUE_BUCKETS - i,
        {
            buckets.push(Vec::new());
            i = i + 1;
        }
        let r = ValueList(buckets);
        assert forall|k: int| 0 <= k < VALUE_BUCKETS implies #[trigger] r@[k] =~= Seq::<
            ValueView,
        >::empty() by {
            assert(buckets@[k]@.len() == 0);
        }
        assert(r@ =~= Seq::new(VALUE_BUCKETS as nat, |i: int| Seq::<ValueView>::empty()));
        r
    }

    ///Insert a new value in the table, returns whether or not a value with the same old
    ///name is already inside the list.
    pub fn insert(&mut self, value: Value, index: usize) -> (already: bool)
        requires
            old(self).wf(),
            index < VALUE_BUCKETS,
        ensures
            final(self).wf(),
            final(self)@ == old(self)@.update(index as int, old(self)@[index as int].push(value@)),
            already == (last_match(old(self)@[index as int], value@.old_name) is Some),
    {
        let ghost v = value@;
        let ghost bucket = self@[index as int];
        proof {
            lemma_last_match(bucket, v.old_name);
        }
        let mut already = false;
        let mut k: usize = self.0[index].len();
        while k > 0
            invariant_except_break
                !already,
                forall|j: int| k <= j < bucket.len() ==> bucket[j].old_name != v.old_name,
            invariant
                self.wf(),
                *self == *old(self),
                bucket == self@[index as int],
                v == value@,
                index < VALUE_BUCKETS,
                k <= bucket.len(),
                last_match(bucket, v.old_name) matches Some(i) ==> 0 <= i < bucket.len()
                    && bucket[i].old_name == v.old_name,
            ensures
                self.wf(),
                *self == *old(self),
                already == (last_match(bucket, v.old_name) is Some),
            decreases k,
        {
            k = k - 1;
            assert(self.0@[index as int]@[k as int]@ == bucket[k as int]);
            if bytes_equal(self.0[index][k].value_old_name.as_slice(), value.value_old_name.as_slice()) {
                proof {
                    lemma_last_match_at(bucket, v.old_name, k as int);
                }
                already = true;
                break;
            }
        }
        self.0[index].push(value);
        assert(self@ =~= old(self)@.update(index as int, old(self)@[index as int].push(v))) by {
            assert(self.0@[index as int]@.map_values(|v: Value| v@) =~= old(self)@[index as int].push(v));
        }
        already
    }

    /// A copy of the most recently inserted value named `old_value` without its first byte.
    pub fn lookup(&self, old_value: &[u8], index: usize) -> (r: Option<Value>)
        requires
            self.wf(),
            index < VALUE_BUCKETS,
            old_value@.len() >= 1,
        ensures
            match last_match(self@[index as int], old_value@.skip(1)) {
                Some(i) => r matches Some(v) && v@ == self@[index as int][i],
                None => r is None,
            },
    {
        let ghost bucket = self@[index as int];
        let ghost name = old_value@.skip(1);
        proof {
            lemma_last_match(bucket, name);
        }
        let mut k: usize = self.0[index].len();
        while k > 0
            invariant
                self.wf(),
                bucket == self@[index as int],
                name == old_value@.skip(1),
                index < VALUE_BUCKETS,
                k <= bucket.len(),
                old_value@.len() >= 1,
                forall|j: int| k <= j < bucket.len() ==> bucket[j].old_name != name,
            decreases k,
        {
            k = k - 1;
            assert(self.0@[index as int]@[k as int]@ == bucket[k as int]);
            if tail_equal(self.0[index][k].value_old_name.as_slice(), old_value) {
                proof {
                    lemma_last_match_at(bucket, name, k as int);
                }
                return Some(self.0[index][k].duplicate());
            }
        }
        proof {
            if let Some(i) = last_match(bucket, name) {
                assert(bucket[i].old_name == name);
            }
        }
        None
    }

    /// Adds one to the count of uses of the most recently inserted value named
    /// `old_value` without its first byte; tells whether there is one.
    pub fn bump_amount(&mut self, old_value: &[u8], index: usize) -> (r: bool)
        requires
            old(self).wf(),
            index < VALUE_BUCKETS,
            old_value@.len() >= 1,
            last_match(old(self)@[index as int], old_value@.skip(1)) matches Some(i) ==> old(
                self,
            )@[index as int][i].amount_occurences < u16::MAX,
        ensures
            final(self).wf(),
            r == last_match(old(self)@[index as int], old_value@.skip(1)) is Some,
            match last_match(old(self)@[index as int], old_value@.skip(1)) {
                Some(i) => final(self)@ == old(self)@.update(
                    index as int,
                    bucket_after_count(old(self)@[index as int], i),
                ),
                None => final(self)@ == old(self)@,
            },
    {
        let ghost bucket = old(self)@[index as int];
        let ghost name = old_value@.skip(1);
        proof {
            lemma_last_match(bucket, name);
        }
        let len = self.0[index].len();
        let mut k: usize = len;
        while k > 0
            invariant
                self.wf(),
                self@ == old(self)@,
                bucket == old(self)@[index as int],
                name == old_value@.skip(1),
                index < VALUE_BUCKETS,
                len == bucket.len(),
                k <= len,
                old_value@.len() >= 1,
                forall|j: int| k <= j < len ==> bucket[j].old_name != name,
                last_match(bucket, name) matches Some(i) ==> bucket[i].amount_occurences < u16::MAX,
            decreases k,
        {
            k = k - 1;
            assert(self.0@[index as int]@[k as int]@ == bucket[k as int]);
            if tail_equal(self.0[index][k].value_old_name.as_slice(), old_value) {
                proof {
                    lemma_last_match_at(bucket, name, k as int);
                }
                let amount = self.0[index][k].amount_occurences + 1;
                self.0[index][k].amount_occurences = amount;
                assert(self@ =~= old(self)@.update(index as int, bucket_after_count(bucket, k as int))) by {
                    assert(self.0@[index as int]@.map_values(|v: Value| v@) =~= bucket_after_count(
                        bucket,
                        k as int,
                    ));
                }
                return true;
            }
        }
        proof {
            if let Some(i) = last_match(bucket, name) {
                assert(bucket[i].old_name == name);
            }
        }
        false
    }

    ///Runs when a value is being accessed, returns the new name of the value if found.
    ///
    ///The most recently inserted value whose old name is `old_value` without its first byte
    ///is used once more, at `position`.
    pub fn update(&mut self, old_value: &[u8], position: usize, index: usize) -> (r: Option<
        NewValueName,
    >)
        requires
            old(self).wf(),
            index < VALUE_BUCKETS,
            old_value@.len() >= 1,
            last_match(old(self)@[index as int], old_value@.skip(1)) matches Some(i) ==> old(
                self,
            )@[index as int][i].amount_occurences < u16::MAX,
        ensures
            final(self).wf(),
            match last_match(old(self)@[index as int], old_value@.skip(1)) {
                Some(i) => r == Some(old(self)@[index as int][i].new_name) && final(self)@ == old(
                    self,
                )@.update(index as int, bucket_after_use(old(self)@[index as int], i, position)),
                None => r is None && final(self)@ == old(self)@,
            },
    {
        let ghost bucket = old(self)@[index as int];
        let ghost name = old_value@.skip(1);
        proof {
            lemma_last_match(bucket, name);
        }
        let len = self.0[index].len();
        let mut k: usize = len;
        //We are iterating reversely in the list because if there are two values with the same old name,
        //the one added more recently inside the list will be the one to access.
        while k > 0
            invariant
                self.wf(),
                self@ == old(self)@,
                bucket == old(self)@[index as int],
                name == old_value@.skip(1),
                index < VALUE_BUCKETS,
                len == bucket.len(),
                k <= len,
                old_value@.len() >= 1,
                forall|j: int| k <= j < len ==> bucket[j].old_name != name,
                last_match(bucket, name) matches Some(i) ==> bucket[i].amount_occurences < u16::MAX,
            decreases k,
        {
            k = k - 1;
            assert(self.0@[index as int]@[k as int]@ == bucket[k as int]);
            if tail_equal(self.0[index][k].value_old_name.as_slice(), old_value) {
                proof {
                    lemma_last_match_at(bucket, name, k as int);
                }
                let amount = self.0[index][k].amount_occurences + 1;
                self.0[index][k].amount_occurences = amount;
                self.0[index][k].last_usage_index = position;
                let found = self.0[index][k].value_new_name;
                assert(self@ =~= old(self)@.update(
                    index as int,
                    bucket_after_use(bucket, k as int, position),
                )) by {
                    assert(self.0@[index as int]@.map_values(|v: Value| v@) =~= bucket_after_use(
                        bucket,
                        k as int,
                        position,
                    ));
                }
                return Some(found);
            }
        }
        proof {
            if let Some(i) = last_match(bucket, name) {
                assert(bucket[i].old_name == name);
            }
        }
        None
    }
}


/// The slot of a one letter name in `new_value_last_position`:
/// uppercase letters take 0..=25, lowercase letters 26..=51.
pub open spec fn letter_slot(val: u8) -> int {
    if 65 <= val <= 90 {
        val - 65
    } else {
        val - 71
    }
}

/// A name whose last position can be recorded: two letter names are not
/// recorded, one letter names must be between `A` and `z`.
pub open spec fn name_has_slot(name: NewValueName) -> bool {
    name matches NewValueName::OneChar(v) ==> 65 <= v <= 122
}

/// The recorded last positions after a value named `name` was used at `position`.
pub open spec fn positions_after(
    positions: Seq<Option<usize>>,
    name: NewValueName,
    position: usize,
) -> Seq<Option<usize>> {
    match name {
        NewValueName::OneChar(v) => positions.update(letter_slot(v), Some(position)),
        NewValueName::TwoChar(_) => positions,
    }
}

/// The values used by the children of a scope, with the last position at
/// which each one letter name was used.
pub struct ChildValuesList {
    pub list: ValueList,
    pub new_value_last_position: [Option<usize>; 52],
}

impl ChildValuesList {
    pub open spec fn wf(&self) -> bool {
        self.list.wf()
    }

    /// An empty list.
    pub fn new() -> (r: Self)
        ensures
            r.wf(),
            r.list@ == Seq::new(VALUE_BUCKETS as nat, |i: int| Seq::<ValueView>::empty()),
            forall|k: int| 0 <= k < 52 ==> r.new_value_last_position@[k] is None,
    {
        ChildValuesList { list: ValueList::new(), new_value_last_position: [None; 52] }
    }

    /// Records that the value named `name` was last used at `last_usage_index`.
    fn update_new_value_last_position(&mut self, name: NewValueName, last_usage_index: usize)
        requires
            name_has_slot(name),
        ensures
            final(self).list == old(self).list,
            final(self).new_value_last_position@ == positions_after(
                old(self).new_value_last_position@,
                name,
                last_usage_index,
            ),
    {
        if let NewValueName::OneChar(val) = name {
            let index: usize = if 65 <= val && val <= 90 {
                //Uppercase letters (Index: 0..=25)
                (val - 65) as usize
            } else {
                //Lowercase letters (97..=122) (Index: 26..=51)
                (val - 71) as usize
            };
            self.new_value_last_position[index] = Some(last_usage_index);
        }
    }

    /// Inserts a value in the list and records its last use.
    pub fn insert(&mut self, value: Value, index: usize)
        requires
            old(self).wf(),
            index < VALUE_BUCKETS,
            name_has_slot(value.value_new_name),
        ensures
            final(self).wf(),
            final(self).list@ == old(self).list@.update(
                index as int,
                old(self).list@[index as int].push(value@),
            ),
            final(self).new_value_last_position@ == positions_after(
                old(self).new_value_last_position@,
                value.value_new_name,
                value.last_usage_index,
            ),
    {
        let name = value.value_new_name;
        let last = value.last_usage_index;
        self.list.insert(value, index);
        self.update_new_value_last_position(name, last);
    }

    /// Uses the value named `value` (without its first byte) once more at `position`,
    /// and records that position.
    pub fn update(&mut self, value: &[u8], position: usize, index: usize)
        requires
            old(self).wf(),
            index < VALUE_BUCKETS,
            value@.len() >= 1,
            last_match(old(self).list@[index as int], value@.skip(1)) matches Some(i) ==> old(
                self,
            ).list@[index as int][i].amount_occurences < u16::MAX && name_has_slot(
                old(self).list@[index as int][i].new_name,
            ),
        ensures
            final(self).wf(),
            match last_match(old(self).list@[index as int], value@.skip(1)) {
                Some(i) => final(self).list@ == old(self).list@.update(
                    index as int,
                    bucket_after_use(old(self).list@[index as int], i, position),
                ) && final(self).new_value_last_position@ == positions_after(
                    old(self).new_value_last_position@,
                    old(self).list@[index as int][i].new_name,
                    position,
                ),
                None => final(self).list@ == old(self).list@
                    && final(self).new_value_last_position == old(self).new_value_last_position,
            },
    {
        let ghost bucket = self.list@[index as int];
        if let Some(name) = self.list.update(value, position, index) {
            self.update_new_value_last_position(name, position);
        }
    }

    /// Moves every value of `list_to_consume` into this list, bucket by bucket,
    /// the most recently inserted first.
    pub fn consume(&mut self, list_to_consume: ValueList)
        requires
            old(self).wf(),
            list_to_consume.wf(),
        ensures
            final(self).wf(),
            final(self).new_value_last_position == old(self).new_value_last_position,
            final(self).list@ == Seq::new(
                VALUE_BUCKETS as nat,
                |i: int| old(self).list@[i] + list_to_consume@[i].reverse(),
            ),
    {
        let ghost other = list_to_consume@;
        let mut other_list = list_to_consume;
        let mut index: usize = 0;
        while index < VALUE_BUCKETS
            invariant
                self.wf(),
                other_list.wf(),
                self.new_value_last_position == old(self).new_value_last_position,
                index <= VALUE_BUCKETS,
                other == list_to_consume@,
                forall|i: int|
                    0 <= i < index ==> #[trigger] self.list@[i] == old(self).list@[i]
                        + other[i].reverse(),
                forall|i: int| index <= i < VALUE_BUCKETS ==> #[trigger] self.list@[i] == old(
                    self,
                ).list@[i],
                forall|i: int| index <= i < VALUE_BUCKETS ==> #[trigger] other_list@[i] == other[i],
            decreases VALUE_BUCKETS - index,
        {
            let ghost start = self.list@[index as int];
            let ghost src = other[index as int];
            while other_list.0[index].len() > 0
                invariant
                    self.wf(),
                    other_list.wf(),
                    self.new_value_last_position == old(self).new_value_last_position,
                    index < VALUE_BUCKETS,
                    other == list_to_consume@,
                    src == other[index as int],
                    start == old(self).list@[index as int],
                    other_list@[index as int] == src.take(other_list@[index as int].len() as int),
                    other_list@[index as int].len() <= src.len(),
                    self.list@[index as int] == start + Seq::new(
                        (src.len() - other_list@[index as int].len()) as nat,
                        |k: int| src[src.len() - 1 - k],
                    ),
                    forall|i: int|
                        0 <= i < index ==> #[trigger] self.list@[i] == old(self).list@[i]
                            + other[i].reverse(),
                    forall|i: int|
                        index < i < VALUE_BUCKETS ==> #[trigger] self.list@[i] == old(
                            self,
                        ).list@[i],
                    forall|i: int|
                        index < i < VALUE_BUCKETS ==> #[trigger] other_list@[i] == other[i],
                decreases other_list@[index as int].len(),
            {
                let ghost rem = other_list@[index as int].len();
                let ghost before_self = self.list@;
                let ghost before_other = other_list@;
                let ghost inner = other_list.0@[index as int]@;
                assert(before_other[index as int][rem - 1] == inner[rem - 1]@);
                assert(before_other[index as int][rem - 1] == src[rem - 1]);
                let value = other_list.0[index].pop().unwrap();
                proof {
                    assert(other_list@ =~= before_other.update(
                        index as int,
                        before_other[index as int].drop_last(),
                    )) by {
                        assert(other_list.0@[index as int]@.map_values(|v: Value| v@)
                            =~= before_other[index as int].drop_last());
                    }
                    assert(value@ == src[rem - 1]);
                }
                self.list.insert(value, index);
                proof {
                    assert(other_list@[index as int] =~= src.take(rem - 1));
                    assert(self.list@[index as int] =~= start + Seq::new(
                        (src.len() - (rem - 1)) as nat,
                        |k: int| src[src.len() - 1 - k],
                    ));
                }
            }
            proof {
                assert(self.list@[index as int] =~= old(self).list@[index as int]
                    + other[index as int].reverse());
            }
            index = index + 1;
        }
        assert(self.list@ =~= Seq::new(
            VALUE_BUCKETS as nat,
            |i: int| old(self).list@[i] + list_to_consume@[i].reverse(),
        ));
    }
}


/// A name that is used in a scope before it is declared there.
pub struct PotentialValue {
    pub name: Vec<u8>,
    pub is_a_function: bool,
    /// The one letter names that it must not get (they are in use where it is called).
    pub blocked_values: BitSet64,
}

impl PotentialValue {
    pub fn new(name: Vec<u8>, is_a_function: bool, blocked_values_vec: Vec<NewValueName>) -> (r:
        Self)
        requires
            forall|k: int|
                0 <= k < blocked_values_vec@.len() ==> (#[trigger] blocked_values_vec@[k] matches NewValueName::OneChar(x) ==> 65 <= x <= 128),
        ensures
            r.name@ == name@,
            r.is_a_function == is_a_function,
            r.blocked_values.offset == 65,
            forall|p: u8|
                65 <= p <= 128 ==> (r.blocked_values.contains(p) <==> exists|k: int|
                    0 <= k < blocked_values_vec@.len() && #[trigger] blocked_values_vec@[k]
                        == NewValueName::OneChar(p)),
    {
        let mut blocked_values: BitSet64 = BitSet64 { bitset: 0, offset: 65 };
        proof {
            assert forall|p: u8| 65 <= p <= 128 implies !blocked_values.contains(p) by {
                let sh: u64 = (p - 65) as u64;
                assert((0u64 >> sh) & 1 != 1) by (bit_vector);
            }
        }
        let mut i: usize = 0;
        while i < blocked_values_vec.len()
            invariant
                i <= blocked_values_vec@.len(),
                blocked_values.offset == 65,
                forall|k: int|
                    0 <= k < blocked_values_vec@.len() ==> (#[trigger] blocked_values_vec@[k] matches NewValueName::OneChar(x) ==> 65 <= x <= 128),
                forall|p: u8|
                    65 <= p <= 128 ==> (blocked_values.contains(p) <==> exists|k: int|
                        0 <= k < i && #[trigger] blocked_values_vec@[k] == NewValueName::OneChar(p)),
            decreases blocked_values_vec@.len() - i,
        {
            let value = blocked_values_vec[i];
            match value {
                NewValueName::OneChar(x) => blocked_values.insert(x),
                _ => {},
            }
            proof {
                assert forall|p: u8| 65 <= p <= 128 implies (blocked_values.contains(p) <==> exists|
                    k: int,
                |
                    0 <= k < i + 1 && #[trigger] blocked_values_vec@[k] == NewValueName::OneChar(
                        p,
                    )) by {
                    if blocked_values_vec@[i as int] == NewValueName::OneChar(p) {
                    } else {
                        if exists|k: int|
                            0 <= k < i + 1 && #[trigger] blocked_values_vec@[k]
                                == NewValueName::OneChar(p) {
                            let k = choose|k: int|
                                0 <= k < i + 1 && #[trigger] blocked_values_vec@[k]
                                    == NewValueName::OneChar(p);
                            assert(k < i);
                        }
                    }
                }
            }
            i = i + 1;
        }
        PotentialValue { name, is_a_function, blocked_values }
    }
}

/// What kind of code a scope holds.
pub enum InsideOf {
    NormalCode,
    //The wrapped value is the new value name of the function.
    Function(NewValueName),
    //This is not a real scope but represents the integrity of an if/else if/else statement.
    //The vector of JsScopes will contain all of the "children" scopes (one for if, other one for else if and last one for else)
    //The boolean will turn true if one of the child scopes is obligated to have curlies as end scope character,
    // which means that all of the child scopes will have curlies as the end of scope character.
    UpperIfStatement(Vec<JsScope>, bool),
    IfStatement,
    IfElseStatement,
    ElseStatement,
    ForLoop,
    Undefined,
}

/// A scope of JavaScript code, with the values declared and used in it.
pub struct JsScope {
    pub values: ValueList,
    pub two_byte_name_values: Vec<Value>,
    pub used_values: ValueList,
    pub all_parent_values: ValueList,
    pub parent_scope: Option<Box<JsScope>>,
    pub starting_index: usize,
    pub latest_available_one_byte: u8,
    pub children_used_values: ChildValuesList,
    pub characters: Vec<u8>,
    pub inside_of: InsideOf,
    pub end_scope_char: EndOfScopeChar,
    pub min_value_declarations: u16,
    pub all_value_declarations: u16,
    pub semi_column_indexes: Vec<usize>,
    pub is_a_parent: bool,
    pub beginning_chars: Vec<u8>,
    pub potential_values_called: Vec<PotentialValue>,
    pub potential_values_declared: Vec<(NewValueName, Vec<PotentialValue>)>,
    pub inside_function: Option<NewValueName>,
}

/// The bucket of the name `old_name` in a `ValueList`: the low six bits of its
/// first byte, the two low bits of its middle byte and the two low bits of its last byte.
pub open spec fn value_index(old_name: Seq<u8>) -> int {
    (old_name[0] % 64) + (old_name[(old_name.len() / 2) as int] % 4) * 64 + (old_name.last() % 4) * 256
}

impl JsScope {
    /// The tables have their buckets, the last one letter name given is a letter
    /// (`@`, just before `A`, while none was given), and positions in the scope fit in
    /// a `usize`.
    pub open spec fn wf(&self) -> bool {
        &&& self.values.wf()
        &&& self.used_values.wf()
        &&& self.all_parent_values.wf()
        &&& self.children_used_values.wf()
        &&& 64 <= self.latest_available_one_byte <= 122
        &&& self.starting_index + self.characters@.len() <= usize::MAX
        &&& forall|k: int|
            0 <= k < self.potential_values_called@.len()
                ==> (#[trigger] self.potential_values_called@[k]).blocked_values.offset == 65
        &&& declared_offsets_ok(self.potential_values_declared@)
    }

    /// This scope and all the scopes around it are well formed.
    pub open spec fn wf_chain(&self) -> bool
        decreases self,
    {
        &&& self.wf()
        &&& match self.parent_scope {
            Some(p) => p.wf_chain(),
            None => true,
        }
    }

    /// The position, in the output, that the next character of this scope takes.
    pub open spec fn position(&self) -> int {
        self.starting_index + self.characters@.len()
    }

    /// Whether the scope holds nothing yet.
    pub open spec fn is_empty_scope(&self) -> bool {
        &&& self.values@ == Seq::new(VALUE_BUCKETS as nat, |i: int| Seq::<ValueView>::empty())
        &&& self.used_values@ == Seq::new(VALUE_BUCKETS as nat, |i: int| Seq::<ValueView>::empty())
        &&& self.all_parent_values@ == Seq::new(
            VALUE_BUCKETS as nat,
            |i: int| Seq::<ValueView>::empty(),
        )
        &&& self.children_used_values.list@ == Seq::new(
            VALUE_BUCKETS as nat,
            |i: int| Seq::<ValueView>::empty(),
        )
        &&& forall|k: int|
            0 <= k < 52 ==> self.children_used_values.new_value_last_position@[k] is None
        &&& self.two_byte_name_values@.len() == 0
        &&& self.characters@.len() == 0
        &&& self.end_scope_char == EndOfScopeChar::NotSet
        &&& self.min_value_declarations == 0
        &&& self.all_value_declarations == 0
        &&& self.semi_column_indexes@.len() == 0
        &&& !self.is_a_parent
        &&& self.beginning_chars@.len() == 0
        &&& self.potential_values_called@.len() == 0
        &&& self.potential_values_declared@.len() == 0
    }

    /// A new scope inside `parent` (or at the top when there is none) holding `inside_of`.
    pub fn new(parent: Option<JsScope>, inside_of: InsideOf) -> (r: Self)
        requires
            parent matches Some(p) ==> p.wf_chain(),
        ensures
            r.wf_chain(),
            r.is_empty_scope(),
            r.inside_of == inside_of,
            match parent {
                Some(p) => {
                    &&& r.parent_scope == Some(Box::new(p))
                    &&& r.latest_available_one_byte == p.latest_available_one_byte
                    &&& r.starting_index == p.position()
                    &&& r.inside_function == match inside_of {
                        InsideOf::Function(x) => Some(x),
                        _ => p.inside_function,
                    }
                },
                None => {
                    &&& r.parent_scope is None
                    &&& r.latest_available_one_byte == 64
                    &&& r.starting_index == 0
                    &&& r.inside_function == match inside_of {
                        InsideOf::Function(x) => Some(x),
                        _ => None,
                    }
                },
            },
    {
        let (one_byte, current_index): (u8, usize) = match &parent {
            Some(scope) => (scope.latest_available_one_byte, scope.starting_index
                + scope.characters.len()),
            None => (64, 0),
        };
        let inside_function = match &inside_of {
            InsideOf::Function(x) => Some(*x),
            _ => match &parent {
                Some(p) => p.inside_function,
                None => None,
            },
        };
        let parent_scope = match parent {
            Some(p) => Some(Box::new(p)),
            None => None,
        };
        JsScope {
            values: ValueList::new(),
            two_byte_name_values: Vec::new(),
            used_values: ValueList::new(),
            all_parent_values: ValueList::new(),
            parent_scope,
            starting_index: current_index,
            latest_available_one_byte: one_byte,
            children_used_values: ChildValuesList::new(),
            characters: Vec::new(),
            inside_of,
            end_scope_char: EndOfScopeChar::NotSet,
            min_value_declarations: 0,
            all_value_declarations: 0,
            semi_column_indexes: Vec::new(),
            is_a_parent: false,
            beginning_chars: Vec::new(),
            potential_values_called: Vec::new(),
            potential_values_declared: Vec::new(),
            inside_function,
        }
    }

    //Getting the index of the bucket where the value will be located on the ValueList table in order to access it.
    pub fn get_value_index(&self, old_name: &[u8]) -> (r: usize)
        requires
            old_name@.len() >= 1,
        ensures
            r == value_index(old_name@),
            r < VALUE_BUCKETS,
    {
        /*First byte: 0b'01XXXXXX' since a one byte character must be at least as high as a letter,
        and if its a multi byte character (first byte is 0b'11XXXXXX'), the second character will be 0b'1XXXXXXX'
        so there are 0 risks of collision.*/
        //Take the two lasts bits of the last byte (Z) and two last bits of the middle byte (Y) : 0b'ZZYYXXXXXX'
        let first = old_name[0] as usize;
        let middle = old_name[old_name.len() / 2] as usize;
        let last = old_name[old_name.len() - 1] as usize;
        let r = (first | 0b1111000000) & ((middle << 6usize) | 0b1100111111) & ((last << 8usize)
            | 0b0011111111);
        assert(r == (first % 64) + (middle % 4) * 64 + (last % 4) * 256) by (bit_vector)
            requires
                first < 256,
                middle < 256,
                last < 256,
                r == (first | 0b1111000000) & ((middle << 6usize) | 0b1100111111) & ((last
                    << 8usize) | 0b0011111111),
        ;
        r
    }
}


// ---------------------------------------------------------------------------
// Short names.

pub open spec fn is_letter(b: u8) -> bool {
    (65 <= b <= 90) || (97 <= b <= 122)
}

/// The place of a letter in `A..=Z` followed by `a..=z`.
pub open spec fn letter_rank(b: u8) -> int {
    if b <= 90 {
        b - 65
    } else {
        b - 71
    }
}

pub open spec fn is_two_letter_name(c: [u8; 2]) -> bool {
    is_letter(c[0]) && is_letter(c[1])
}

/// The place of a two letter name in the order in which names are handed out.
pub open spec fn two_char_rank(c: [u8; 2]) -> int {
    letter_rank(c[0]) * 52 + letter_rank(c[1])
}

/// Whether a value of `vals` has the two letter name `c`.
pub open spec fn two_char_taken(vals: Seq<Value>, c: [u8; 2]) -> bool {
    exists|k: int| 0 <= k < vals.len() && vals[k].value_new_name == NewValueName::TwoChar(c)
}

/// Whether some two letter name is not used by `vals`.
pub open spec fn some_two_char_free(vals: Seq<Value>) -> bool {
    exists|c: [u8; 2]| is_two_letter_name(c) && !two_char_taken(vals, c)
}

/// Whether `c` is the first two letter name, in handing out order, that `vals` does not use.
pub open spec fn is_first_free_two_char(vals: Seq<Value>, c: [u8; 2]) -> bool {
    &&& is_two_letter_name(c)
    &&& !two_char_taken(vals, c)
    &&& forall|d: [u8; 2]|
        is_two_letter_name(d) && two_char_rank(d) < two_char_rank(c) ==> two_char_taken(vals, d)
}

/// Every potential value in the lists of `pvd` keeps its blocked letters from `A` on.
pub open spec fn declared_offsets_ok(pvd: Seq<(NewValueName, Vec<PotentialValue>)>) -> bool {
    forall|i: int, k: int|
        0 <= i < pvd.len() && 0 <= k < pvd[i].1@.len()
            ==> (#[trigger] pvd[i].1@[k]).blocked_values.offset == 65
}

/// Lists of potential values that keep their letters from `A` on still do once put
/// together.
pub proof fn lemma_declared_offsets_concat(
    a: Seq<(NewValueName, Vec<PotentialValue>)>,
    b: Seq<(NewValueName, Vec<PotentialValue>)>,
)
    requires
        declared_offsets_ok(a),
        declared_offsets_ok(b),
    ensures
        declared_offsets_ok(a + b),
{
    assert forall|i: int, k: int|
        0 <= i < (a + b).len() && 0 <= k < (a + b)[i].1@.len() implies (#[trigger] (a
        + b)[i].1@[k]).blocked_values.offset == 65 by {
        if i < a.len() {
            assert((a + b)[i] == a[i]);
        } else {
            assert((a + b)[i] == b[i - a.len()]);
        }
    }
}

/// The lists of potential values of `pvd`, one after the other.
pub open spec fn flatten_potentials(pvd: Seq<(NewValueName, Vec<PotentialValue>)>) -> Seq<PotentialValue>
    decreases pvd.len(),
{
    if pvd.len() == 0 {
        Seq::empty()
    } else {
        flatten_potentials(pvd.drop_last()) + pvd.last().1@
    }
}

/// A potential value named `name` added after `pvs` blocks what `pvs` did, and its
/// own letters.
proof fn lemma_blocked_for_push(pvs: Seq<PotentialValue>, p: PotentialValue, name: Seq<u8>, c: u8)
    ensures
        blocked_for(pvs.push(p), name, c) <==> (blocked_for(pvs, name, c) || (p.name@ == name
            && p.blocked_values.contains(c))),
{
    let q = pvs.push(p);
    if blocked_for(pvs, name, c) {
        let k = choose|k: int|
            0 <= k < pvs.len() && pvs[k].name@ == name && #[trigger] pvs[k].blocked_values.contains(c);
        assert(q[k] == pvs[k]);
    }
    if p.name@ == name && p.blocked_values.contains(c) {
        assert(q[pvs.len() as int] == p);
    }
    if blocked_for(q, name, c) {
        let k = choose|k: int|
            0 <= k < q.len() && q[k].name@ == name && #[trigger] q[k].blocked_values.contains(c);
        if k < pvs.len() {
            assert(q[k] == pvs[k]);
        }
    }
}

/// Whether a potential value named `name` blocks the one letter name `c`.
pub open spec fn blocked_for(pvs: Seq<PotentialValue>, name: Seq<u8>, c: u8) -> bool {
    exists|k: int|
        0 <= k < pvs.len() && pvs[k].name@ == name && #[trigger] pvs[k].blocked_values.contains(c)
}

/// The latest name given, moved on past the one letter names after it that a
/// potential value named `name` blocks.
pub open spec fn skip_all_blocked(latest: u8, pvs: Seq<PotentialValue>, name: Seq<u8>) -> u8
    decreases 122 - latest,
{
    if latest >= 122 || !blocked_for(pvs, name, one_letter_after(latest)) {
        latest
    } else {
        skip_all_blocked(one_letter_after(latest), pvs, name)
    }
}

pub proof fn lemma_skip_all_blocked_range(latest: u8, pvs: Seq<PotentialValue>, name: Seq<u8>)
    requires
        64 <= latest <= 122,
    ensures
        latest <= skip_all_blocked(latest, pvs, name) <= 122,
        skip_all_blocked(latest, pvs, name) < 122 ==> !blocked_for(
            pvs,
            name,
            one_letter_after(skip_all_blocked(latest, pvs, name)),
        ),
    decreases 122 - latest,
{
    if !(latest >= 122 || !blocked_for(pvs, name, one_letter_after(latest))) {
        lemma_skip_all_blocked_range(one_letter_after(latest), pvs, name);
    }
}

/// Whether `bits` holds the one letter name `c` (bit `c - 65`).
pub open spec fn bit_of_letter(bits: u64, c: u8) -> bool {
    (bits >> ((c - 65) as u64)) & 1 == 1
}

proof fn lemma_or_bit(a: u64, b: u64, s: u64)
    requires
        s < 64,
    ensures
        ((a | b) >> s) & 1 == 1 <==> ((a >> s) & 1 == 1 || (b >> s) & 1 == 1),
{
    assert(((a | b) >> s) & 1 == 1 <==> ((a >> s) & 1 == 1 || (b >> s) & 1 == 1)) by (bit_vector)
        requires
            s < 64,
    ;
}

proof fn lemma_zero_bit(s: u64)
    requires
        s < 64,
    ensures
        (0u64 >> s) & 1 != 1,
{
    assert((0u64 >> s) & 1 != 1) by (bit_vector);
}

/// Two two letter names of one rank are the same.
pub proof fn lemma_two_char_rank_unique(c: [u8; 2], d: [u8; 2])
    requires
        is_two_letter_name(c),
        is_two_letter_name(d),
        two_char_rank(c) == two_char_rank(d),
    ensures
        c == d,
{
    assert(0 <= letter_rank(c[1]) < 52);
    assert(0 <= letter_rank(d[1]) < 52);
    assert(letter_rank(c[0]) == letter_rank(d[0]));
    assert(c =~= d);
}

/// The two letter name that follows `c` in handing out order.
fn next_two_letter_name(c: [u8; 2]) -> (r: [u8; 2])
    requires
        is_two_letter_name(c),
        two_char_rank(c) < 2703,
    ensures
        is_two_letter_name(r),
        two_char_rank(r) == two_char_rank(c) + 1,
{
    let mut two_byte = c;
    if two_byte[1] == 90 {
        two_byte[1] = 97;
    } else if two_byte[1] == 122 {
        if two_byte[0] == 90 {
            two_byte[0] = 97;
            two_byte[1] = 65;
        } else {
            two_byte[0] = two_byte[0] + 1;
            two_byte[1] = 65;
        }
    } else {
        two_byte[1] = two_byte[1] + 1;
    }
    two_byte
}

/// The first two letter name, in handing out order, that no value of `vals` has,
/// or `None` when they are all taken.
pub fn first_free_two_char(vals: &Vec<Value>) -> (r: Option<[u8; 2]>)
    ensures
        match r {
            Some(c) => is_first_free_two_char(vals@, c),
            None => !some_two_char_free(vals@),
        },
{
    let ghost old_two = vals@;
    let mut two_byte: [u8; 2] = [65, 65];
    assert(two_char_rank(two_byte) == 0);
    loop
        invariant
            vals@ == old_two,
            is_two_letter_name(two_byte),
            forall|d: [u8; 2]|
                is_two_letter_name(d) && two_char_rank(d) < two_char_rank(two_byte)
                    ==> two_char_taken(old_two, d),
        decreases 2704 - two_char_rank(two_byte),
    {
        let ghost start = two_byte;
        let mut value_there = false;
        let mut k: usize = 0;
        while k < vals.len()
            invariant
                vals@ == old_two,
                k <= old_two.len(),
                is_two_letter_name(two_byte),
                is_two_letter_name(start),
                forall|d: [u8; 2]|
                    is_two_letter_name(d) && two_char_rank(d) < two_char_rank(two_byte)
                        ==> two_char_taken(old_two, d),
                value_there ==> two_char_rank(two_byte) > two_char_rank(start),
                !value_there ==> two_byte == start && forall|j: int|
                    0 <= j < k ==> old_two[j].value_new_name != NewValueName::TwoChar(two_byte),
                two_char_rank(two_byte) >= two_char_rank(start),
            decreases old_two.len() - k,
        {
            if let NewValueName::TwoChar(val_two) = vals[k].value_new_name {
                if val_two[0] == two_byte[0] && val_two[1] == two_byte[1] {
                    proof {
                        assert(val_two =~= two_byte);
                        assert(two_char_taken(old_two, two_byte));
                    }
                    if two_byte[0] == 122 && two_byte[1] == 122 {
                        //Every two letter name is taken.
                        proof {
                            assert forall|c: [u8; 2]| is_two_letter_name(c) implies two_char_taken(
                                old_two,
                                c,
                            ) by {
                                assert(0 <= letter_rank(c[1]) < 52);
                                assert(0 <= letter_rank(c[0]) < 52);
                                if two_char_rank(c) == two_char_rank(two_byte) {
                                    lemma_two_char_rank_unique(c, two_byte);
                                }
                            }
                        }
                        return None;
                    }
                    let ghost prev = two_byte;
                    value_there = true;
                    two_byte = next_two_letter_name(two_byte);
                    proof {
                        assert forall|d: [u8; 2]|
                            is_two_letter_name(d) && two_char_rank(d) < two_char_rank(
                                two_byte,
                            ) implies two_char_taken(old_two, d) by {
                            if two_char_rank(d) == two_char_rank(prev) {
                                lemma_two_char_rank_unique(d, prev);
                            }
                        }
                    }
                }
            }
            k = k + 1;
        }
        if !value_there {
            assert(!two_char_taken(old_two, two_byte));
            return Some(two_byte);
        }
    }
}

/// The first byte of `full` dropped.
fn tail_bytes(full: &[u8]) -> (r: Vec<u8>)
    requires
        full@.len() >= 1,
    ensures
        r@ == full@.skip(1),
{
    let mut r: Vec<u8> = Vec::new();
    let mut i: usize = 1;
    while i < full.len()
        invariant
            1 <= i <= full@.len(),
            r@ == full@.subrange(1, i as int),
        decreases full@.len() - i,
    {
        r.push(full[i]);
        i = i + 1;
        assert(r@ =~= full@.subrange(1, i as int));
    }
    assert(r@ =~= full@.skip(1));
    r
}

/// The one letter name handed out after skipping to `l`, and the new `latest_available_one_byte`.
pub open spec fn one_letter_after(l: u8) -> u8 {
    if l == 90 {
        97
    } else {
        (l + 1) as u8
    }
}

/// `after` is `before` once `old_name` is declared in it as the value `v`
/// (what `new_value` does).
pub open spec fn declared(before: JsScope, old_name: Seq<u8>, after: JsScope, v: Value) -> bool {
    let idx = value_index(old_name);
    let l = before.skipped_latest(old_name);
    &&& after.wf()
    &&& after.same_but_declared(&before)
    &&& v@ == (ValueView {
        old_name: old_name.skip(1),
        new_name: v.value_new_name,
        amount_occurences: 0,
        declaration_index: before.position() as usize,
        last_usage_index: before.position() as usize,
        function_index: match before.inside_of {
            InsideOf::Function(_) => Some(before.starting_index),
            _ => None,
        },
    })
    &&& after.values@ == before.values@.update(idx, before.values@[idx].push(v@))
    &&& if l == 122 {
        &&& after.latest_available_one_byte == 122
        &&& v.value_new_name matches NewValueName::TwoChar(c)
        &&& is_first_free_two_char(before.two_byte_name_values@, c)
        &&& after.two_byte_name_values@.len() == before.two_byte_name_values@.len() + 1
        &&& after.two_byte_name_values@.drop_last() == before.two_byte_name_values@
        &&& after.two_byte_name_values@.last()@ == v@
    } else {
        &&& after.latest_available_one_byte == one_letter_after(l)
        &&& v.value_new_name == NewValueName::OneChar(one_letter_after(l))
        &&& after.two_byte_name_values == before.two_byte_name_values
    }
}

/// Two values declared one after the other in a scope get different short names; one
/// letter names come in order, and the last one letter name given never goes back.
pub proof fn lemma_declared_names_differ(
    s0: JsScope,
    n1: Seq<u8>,
    s1: JsScope,
    v1: Value,
    n2: Seq<u8>,
    s2: JsScope,
    v2: Value,
)
    requires
        s0.wf(),
        declared(s0, n1, s1, v1),
        declared(s1, n2, s2, v2),
    ensures
        v1.value_new_name != v2.value_new_name,
        v1.value_new_name matches NewValueName::OneChar(x) ==> (v2.value_new_name matches NewValueName::OneChar(y)
            ==> x < y),
        s0.latest_available_one_byte <= s1.latest_available_one_byte <= s2.latest_available_one_byte,
{
    let l1 = s0.skipped_latest(n1);
    let l2 = s1.skipped_latest(n2);
    lemma_skip_all_blocked_range(s0.latest_available_one_byte, s0.declared_potentials(), n1);
    lemma_skip_all_blocked_range(s1.latest_available_one_byte, s1.declared_potentials(), n2);
    if l1 == 122 {
        let k = s1.two_byte_name_values@.len() - 1;
        assert(s1.two_byte_name_values@[k]@ == v1@);
        if let NewValueName::TwoChar(c1) = v1.value_new_name {
            assert(two_char_taken(s1.two_byte_name_values@, c1));
        }
    }
}

/// The short names of the values declared in `s` stand apart: no name is given to
/// two of them, each one letter name is at most the last one given, and each two
/// letter name is among the scope's two letter names.
pub open spec fn names_apart(s: JsScope) -> bool {
    let vals = s.values@;
    &&& forall|b1: int, k1: int, b2: int, k2: int|
        0 <= b1 < vals.len() && 0 <= k1 < vals[b1].len() && 0 <= b2 < vals.len() && 0 <= k2
            < vals[b2].len() && (b1 != b2 || k1 != k2) ==> #[trigger] vals[b1][k1].new_name
            != #[trigger] vals[b2][k2].new_name
    &&& forall|b: int, k: int|
        0 <= b < vals.len() && 0 <= k < vals[b].len() ==> match #[trigger] vals[b][k].new_name {
            NewValueName::OneChar(c) => c <= s.latest_available_one_byte,
            NewValueName::TwoChar(c) => two_char_taken(s.two_byte_name_values@, c),
        }
}

/// A scope with no declared value has its names apart.
pub proof fn lemma_empty_names_apart(s: JsScope)
    requires
        forall|b: int| 0 <= b < s.values@.len() ==> (#[trigger] s.values@[b]).len() == 0,
    ensures
        names_apart(s),
{
}

/// Declaring a value keeps the names of a scope apart: the new short name is none of
/// those the scope gave before.
pub proof fn lemma_declared_keeps_names_apart(before: JsScope, name: Seq<u8>, after: JsScope, v: Value)
    requires
        before.wf(),
        names_apart(before),
        declared(before, name, after, v),
    ensures
        names_apart(after),
        forall|b: int, k: int|
            0 <= b < before.values@.len() && 0 <= k < before.values@[b].len()
                ==> #[trigger] before.values@[b][k].new_name != v.value_new_name,
{
    let idx = value_index(name);
    let l = before.skipped_latest(name);
    lemma_skip_all_blocked_range(before.latest_available_one_byte, before.declared_potentials(), name);
    let old_vals = before.values@;
    let vals = after.values@;
    assert(0 <= idx < VALUE_BUCKETS) by {
        assert(0 <= name[0] % 64 < 64);
        assert(0 <= name[(name.len() / 2) as int] % 4 < 4);
        assert(0 <= name.last() % 4 < 4);
    }
    let n = old_vals[idx].len() as int;
    assert(vals[idx] == old_vals[idx].push(v@));
    assert forall|b: int, k: int|
        0 <= b < old_vals.len() && 0 <= k < old_vals[b].len() implies #[trigger] old_vals[b][k].new_name
        != v.value_new_name by {
        match old_vals[b][k].new_name {
            NewValueName::OneChar(c) => {
                assert(c <= before.latest_available_one_byte);
            },
            NewValueName::TwoChar(c) => {
                assert(two_char_taken(before.two_byte_name_values@, c));
            },
        }
    }
    assert forall|b: int, k: int|
        0 <= b < vals.len() && 0 <= k < vals[b].len() implies #[trigger] vals[b][k] == if b == idx && k
        == n {
        v@
    } else {
        old_vals[b][k]
    } by {
        if b != idx {
            assert(vals[b] == old_vals[b]);
        }
    }
    assert forall|b1: int, k1: int, b2: int, k2: int|
        0 <= b1 < vals.len() && 0 <= k1 < vals[b1].len() && 0 <= b2 < vals.len() && 0 <= k2
            < vals[b2].len() && (b1 != b2 || k1 != k2) implies #[trigger] vals[b1][k1].new_name
        != #[trigger] vals[b2][k2].new_name by {
        if b1 == idx && k1 == n {
            assert(old_vals[b2][k2].new_name != v.value_new_name);
        } else if b2 == idx && k2 == n {
            assert(old_vals[b1][k1].new_name != v.value_new_name);
        } else {
            assert(old_vals[b1][k1].new_name != old_vals[b2][k2].new_name);
        }
    }
    assert forall|b: int, k: int| 0 <= b < vals.len() && 0 <= k < vals[b].len() implies match #[trigger] vals[b][k].new_name {
        NewValueName::OneChar(c) => c <= after.latest_available_one_byte,
        NewValueName::TwoChar(c) => two_char_taken(after.two_byte_name_values@, c),
    } by {
        if b == idx && k == n {
            if l == 122 {
                let t = after.two_byte_name_values@.len() - 1;
                assert(after.two_byte_name_values@[t]@ == v@);
            }
        } else {
            match old_vals[b][k].new_name {
                NewValueName::OneChar(c) => {},
                NewValueName::TwoChar(c) => {
                    assert(two_char_taken(before.two_byte_name_values@, c));
                    if l == 122 {
                        let t = choose|t: int|
                            0 <= t < before.two_byte_name_values@.len()
                                && before.two_byte_name_values@[t].value_new_name == NewValueName::TwoChar(c);
                        assert(after.two_byte_name_values@.drop_last()[t] == after.two_byte_name_values@[t]);
                    }
                },
            }
        }
    }
}

impl JsScope {
    /// Every field but the declared values and the next names is the same.
    pub open spec fn same_but_declared(&self, other: &JsScope) -> bool {
        &&& self.used_values == other.used_values
        &&& self.all_parent_values == other.all_parent_values
        &&& self.parent_scope == other.parent_scope
        &&& self.starting_index == other.starting_index
        &&& self.children_used_values == other.children_used_values
        &&& self.characters == other.characters
        &&& self.inside_of == other.inside_of
        &&& self.end_scope_char == other.end_scope_char
        &&& self.min_value_declarations == other.min_value_declarations
        &&& self.all_value_declarations == other.all_value_declarations
        &&& self.semi_column_indexes == other.semi_column_indexes
        &&& self.is_a_parent == other.is_a_parent
        &&& self.beginning_chars == other.beginning_chars
        &&& self.potential_values_called == other.potential_values_called
        &&& self.potential_values_declared == other.potential_values_declared
        &&& self.inside_function == other.inside_function
    }

    /// The potential values of the functions declared before, in order: the values
    /// their bodies used before these were declared.
    pub open spec fn declared_potentials(&self) -> Seq<PotentialValue> {
        flatten_potentials(self.potential_values_declared@)
    }

    /// The one letter name position the skipping of blocked names leads to for `old_name`.
    pub open spec fn skipped_latest(&self, old_name: Seq<u8>) -> u8 {
        skip_all_blocked(self.latest_available_one_byte, self.declared_potentials(), old_name)
    }

    /// Declares the value `old_name` in this scope and gives it a short name.
    ///
    /// The name is the next one letter name that no potential value of the same
    /// name blocks; once the one letter names run out, it is the first two letter
    /// name that no value of the scope has.
    pub fn new_value(&mut self, old_name: &[u8]) -> (r: Value)
        requires
            old(self).wf(),
            old_name@.len() >= 1,
            old(self).skipped_latest(old_name@) == 122 ==> some_two_char_free(
                old(self).two_byte_name_values@,
            ),
        ensures
            declared(*old(self), old_name@, *final(self), r),
            r.value_new_name matches NewValueName::OneChar(c) ==> !blocked_for(
                old(self).declared_potentials(),
                old_name@,
                c,
            ),
    {
        //Find if the declared value has been used before in the code, and pass by all blocked values
        let skipped = self.skip_blocked_names(old_name);
        self.latest_available_one_byte = skipped;
        proof {
            lemma_skip_all_blocked_range(
                old(self).latest_available_one_byte,
                old(self).declared_potentials(),
                old_name@,
            );
        }
        let ghost l = self.latest_available_one_byte;
        let ghost old_two = self.two_byte_name_values@;
        let new_name: NewValueName = if self.latest_available_one_byte == 90 {
            self.latest_available_one_byte = 97;
            NewValueName::OneChar(97)
        } else if self.latest_available_one_byte == 122 {
            let found = first_free_two_char(&self.two_byte_name_values);
            let two_byte = match found {
                Some(c) => c,
                None => {
                    assert(false);
                    [65, 65]
                },
            };
            NewValueName::TwoChar(two_byte)
        } else {
            self.latest_available_one_byte = self.latest_available_one_byte + 1;
            NewValueName::OneChar(self.latest_available_one_byte)
        };
        let index = self.get_value_index(old_name);
        let position = self.characters.len() + self.starting_index;
        let function_index = match self.inside_of {
            InsideOf::Function(_) => Some(self.starting_index),
            _ => None,
        };
        let new_value = Value {
            value_old_name: tail_bytes(old_name),
            value_new_name: new_name,
            amount_occurences: 0,
            /*Because the index is the length of the current_scope, to know if a value has been used before in a child scope,
            we'll have to check the postion of the scope itself*/
            declaration_index: position,
            last_usage_index: position,
            function_index,
        };
        self.values.insert(new_value.duplicate(), index);
        if let NewValueName::TwoChar(_) = new_value.value_new_name {
            self.two_byte_name_values.push(new_value.duplicate());
            assert(self.two_byte_name_values@.drop_last() =~= old_two);
        }
        new_value
    }
}


impl JsScope {
    /// Every field but the three tables of values is the same.
    pub open spec fn same_but_tables(&self, other: &JsScope) -> bool {
        &&& self.two_byte_name_values == other.two_byte_name_values
        &&& self.parent_scope == other.parent_scope
        &&& self.starting_index == other.starting_index
        &&& self.latest_available_one_byte == other.latest_available_one_byte
        &&& self.children_used_values == other.children_used_values
        &&& self.characters == other.characters
        &&& self.inside_of == other.inside_of
        &&& self.end_scope_char == other.end_scope_char
        &&& self.min_value_declarations == other.min_value_declarations
        &&& self.all_value_declarations == other.all_value_declarations
        &&& self.semi_column_indexes == other.semi_column_indexes
        &&& self.is_a_parent == other.is_a_parent
        &&& self.beginning_chars == other.beginning_chars
        &&& self.potential_values_called == other.potential_values_called
        &&& self.potential_values_declared == other.potential_values_declared
        &&& self.inside_function == other.inside_function
    }

    /// The name that `update_value` gives back for `old_name`: the one declared in this
    /// scope, else the one from the parent scopes, else none.
    pub open spec fn found_name(&self, old_name: Seq<u8>) -> Option<NewValueName> {
        let idx = value_index(old_name);
        match last_match(self.values@[idx], old_name.skip(1)) {
            Some(i) => Some(self.values@[idx][i].new_name),
            None => match last_match(self.all_parent_values@[idx], old_name.skip(1)) {
                Some(j) => Some(self.all_parent_values@[idx][j].new_name),
                None => None,
            },
        }
    }

    /// Whether using `old_name` once more keeps every count that it touches below `u16::MAX`.
    pub open spec fn can_count_use(&self, old_name: Seq<u8>) -> bool {
        let idx = value_index(old_name);
        let tail = old_name.skip(1);
        match last_match(self.values@[idx], tail) {
            Some(i) => self.values@[idx][i].amount_occurences < u16::MAX,
            None => last_match(self.all_parent_values@[idx], tail) matches Some(j) ==> {
                &&& self.all_parent_values@[idx][j].amount_occurences < u16::MAX
                &&& last_match(self.used_values@[idx], tail) matches Some(k)
                    ==> self.used_values@[idx][k].amount_occurences < u16::MAX
            },
        }
    }

    ///Returns the new value name of the value if it is found in either values of the scope or parent values.
    ///
    /// If it is not found in the scope own values but found in parent values and still not added to the used values, value will get added.
    pub fn update_value(&mut self, old_name: &[u8]) -> (r: Option<NewValueName>)
        requires
            old(self).wf(),
            old_name@.len() >= 1,
            old(self).can_count_use(old_name@),
        ensures
            final(self).wf(),
            final(self).same_but_tables(&*old(self)),
            r == old(self).found_name(old_name@),
            ({
                let idx = value_index(old_name@);
                let tail = old_name@.skip(1);
                let pos = old(self).position() as usize;
                match last_match(old(self).values@[idx], tail) {
                    Some(i) => {
                        &&& final(self).values@ == old(self).values@.update(
                            idx,
                            bucket_after_use(old(self).values@[idx], i, pos),
                        )
                        &&& final(self).all_parent_values@ == old(self).all_parent_values@
                        &&& final(self).used_values@ == old(self).used_values@
                    },
                    None => match last_match(old(self).all_parent_values@[idx], tail) {
                        Some(j) => {
                            let parent_bucket = bucket_after_use(
                                old(self).all_parent_values@[idx],
                                j,
                                pos,
                            );
                            &&& final(self).values@ == old(self).values@
                            &&& final(self).all_parent_values@ == old(
                                self,
                            ).all_parent_values@.update(idx, parent_bucket)
                            &&& final(self).used_values@ == match last_match(
                                old(self).used_values@[idx],
                                tail,
                            ) {
                                Some(k) => old(self).used_values@.update(
                                    idx,
                                    bucket_after_use(old(self).used_values@[idx], k, pos),
                                ),
                                None => old(self).used_values@.update(
                                    idx,
                                    old(self).used_values@[idx].push(parent_bucket[j]),
                                ),
                            }
                        },
                        None => {
                            &&& final(self).values@ == old(self).values@
                            &&& final(self).all_parent_values@ == old(self).all_parent_values@
                            &&& final(self).used_values@ == old(self).used_values@
                        },
                    },
                }
            }),
    {
        let index = self.get_value_index(old_name);
        let position = self.starting_index + self.characters.len();
        let ghost tail = old_name@.skip(1);
        if let Some(value) = self.values.update(old_name, position, index) {
            return Some(value);
        }
        let found = self.all_parent_values.update(old_name, position, index);
        match found {
            Some(value) => {
                let ghost j = last_match(old(self).all_parent_values@[index as int], tail)->0;
                proof {
                    lemma_last_match(old(self).all_parent_values@[index as int], tail);
                    lemma_last_match_at(self.all_parent_values@[index as int], tail, j);
                }
                if self.used_values.update(old_name, position, index).is_none() {
                    let parent_value = self.all_parent_values.lookup(old_name, index);
                    if let Some(v) = parent_value {
                        self.used_values.insert(v, index);
                    }
                }
                Some(value)
            },
            None => None,
        }
    }
}

/// A value declared by `new_value` is what the next `update_value` of the same
/// name finds: the read gives back the name that the declaration wrote, and the
/// read can always be made. It is the last value of its bucket, with a count of 0
/// and its declaration as last use, so that read counts one use of it, at the read's
/// position (see `bucket_after_use`).
pub proof fn law_declared_value_is_found(
    before: JsScope,
    after: JsScope,
    v: Value,
    old_name: Seq<u8>,
)
    requires
        old_name.len() >= 1,
        before.wf(),
        declared(before, old_name, after, v),
    ensures
        after.found_name(old_name) == Some(v.value_new_name),
        after.can_count_use(old_name),
        last_match(after.values@[value_index(old_name)], old_name.skip(1)) == Some(
            after.values@[value_index(old_name)].len() - 1,
        ),
        after.values@[value_index(old_name)].last() == v@,
        v@.amount_occurences == 0,
        v@.last_usage_index == before.position(),
{
    let idx = value_index(old_name);
    assert(0 <= idx < VALUE_BUCKETS) by {
        assert(0 <= old_name[0] % 64 < 64);
        assert(0 <= old_name[(old_name.len() / 2) as int] % 4 < 4);
        assert(0 <= old_name.last() % 4 < 4);
    }
    let b = before.values@[idx].push(v@);
    assert(after.values@[idx] == b);
    lemma_last_match_at(b, old_name.skip(1), b.len() - 1);
}


impl JsScope {
    /// Every field but the output characters is the same.
    pub open spec fn same_but_characters(&self, other: &JsScope) -> bool {
        &&& self.values == other.values
        &&& self.two_byte_name_values == other.two_byte_name_values
        &&& self.used_values == other.used_values
        &&& self.all_parent_values == other.all_parent_values
        &&& self.parent_scope == other.parent_scope
        &&& self.starting_index == other.starting_index
        &&& self.latest_available_one_byte == other.latest_available_one_byte
        &&& self.children_used_values == other.children_used_values
        &&& self.inside_of == other.inside_of
        &&& self.end_scope_char == other.end_scope_char
        &&& self.min_value_declarations == other.min_value_declarations
        &&& self.all_value_declarations == other.all_value_declarations
        &&& self.semi_column_indexes == other.semi_column_indexes
        &&& self.is_a_parent == other.is_a_parent
        &&& self.beginning_chars == other.beginning_chars
        &&& self.potential_values_called == other.potential_values_called
        &&& self.potential_values_declared == other.potential_values_declared
        &&& self.inside_function == other.inside_function
    }
}


impl JsScope {
    /// The one letter names that the potential values named `old_name` of the
    /// functions declared before block, as one set.
    fn blocked_union(&self, old_name: &[u8]) -> (r: BitSet64)
        requires
            self.wf(),
        ensures
            r.offset == 65,
            forall|c: u8|
                65 <= c <= 122 ==> (#[trigger] r.contains(c) <==> blocked_for(
                    self.declared_potentials(),
                    old_name@,
                    c,
                )),
    {
        let ghost pvd = self.potential_values_declared@;
        let ghost name = old_name@;
        let mut bits: u64 = 0;
        let ghost mut seen: Seq<PotentialValue> = Seq::empty();
        proof {
            assert forall|c: u8| 65 <= c <= 122 implies (#[trigger] bit_of_letter(bits, c)
                <==> blocked_for(seen, name, c)) by {
                lemma_zero_bit((c - 65) as u64);
            }
            assert(pvd.take(0) =~= Seq::<(NewValueName, Vec<PotentialValue>)>::empty());
        }
        let mut i: usize = 0;
        while i < self.potential_values_declared.len()
            invariant
                self.wf(),
                pvd == self.potential_values_declared@,
                name == old_name@,
                i <= pvd.len(),
                seen == flatten_potentials(pvd.take(i as int)),
                forall|c: u8|
                    65 <= c <= 122 ==> (#[trigger] bit_of_letter(bits, c) <==> blocked_for(seen, name, c)),
            decreases pvd.len() - i,
        {
            let ghost start = seen;
            let ghost inner = pvd[i as int].1@;
            let mut j: usize = 0;
            assert(inner.take(0) =~= Seq::<PotentialValue>::empty());
            assert(start + inner.take(0) =~= start);
            while j < self.potential_values_declared[i].1.len()
                invariant
                    self.wf(),
                    pvd == self.potential_values_declared@,
                    name == old_name@,
                    i < pvd.len(),
                    inner == pvd[i as int].1@,
                    j <= inner.len(),
                    seen == start + inner.take(j as int),
                    forall|c: u8|
                        65 <= c <= 122 ==> (#[trigger] bit_of_letter(bits, c) <==> blocked_for(seen, name, c)),
                decreases inner.len() - j,
            {
                let before = bits;
                let ghost seen_before = seen;
                let matching = bytes_equal(self.potential_values_declared[i].1[j].name.as_slice(), old_name);
                let other = self.potential_values_declared[i].1[j].blocked_values.bitset;
                if matching {
                    bits = bits | other;
                }
                proof {
                    let p = inner[j as int];
                    assert(p.blocked_values.offset == 65);
                    seen = seen_before.push(p);
                    assert(start + inner.take(j + 1) =~= seen);
                    assert forall|c: u8| 65 <= c <= 122 implies (#[trigger] bit_of_letter(bits, c)
                        <==> blocked_for(seen, name, c)) by {
                        lemma_blocked_for_push(seen_before, p, name, c);
                        assert(bit_of_letter(before, c) <==> blocked_for(seen_before, name, c));
                        if matching {
                            lemma_or_bit(before, other, (c - 65) as u64);
                        }
                    }
                }
                j = j + 1;
            }
            proof {
                assert(inner.take(inner.len() as int) =~= inner);
                assert(pvd.take(i + 1).drop_last() =~= pvd.take(i as int));
                assert(pvd.take(i + 1).last() == pvd[i as int]);
            }
            i = i + 1;
        }
        let r = BitSet64 { bitset: bits, offset: 65 };
        proof {
            assert(pvd.take(pvd.len() as int) =~= pvd);
            assert(seen == self.declared_potentials());
            assert forall|c: u8| 65 <= c <= 122 implies (#[trigger] r.contains(c) <==> blocked_for(
                self.declared_potentials(),
                old_name@,
                c,
            )) by {
                assert(bit_of_letter(bits, c) == r.contains(c));
            }
        }
        r
    }

    /// The latest name given, moved on past the blocked names after it (see
    /// `skip_all_blocked`).
    fn skip_blocked_names(&self, old_name: &[u8]) -> (r: u8)
        requires
            self.wf(),
        ensures
            r == self.skipped_latest(old_name@),
    {
        let blocked = self.blocked_union(old_name);
        let ghost pvs = self.declared_potentials();
        let ghost name = old_name@;
        let mut latest = self.latest_available_one_byte;
        loop
            invariant
                self.wf(),
                64 <= latest <= 122,
                blocked.offset == 65,
                pvs == self.declared_potentials(),
                name == old_name@,
                forall|c: u8|
                    65 <= c <= 122 ==> (#[trigger] blocked.contains(c) <==> blocked_for(pvs, name, c)),
                skip_all_blocked(latest, pvs, name) == self.skipped_latest(old_name@),
            decreases 122 - latest,
        {
            if latest >= 122 {
                return latest;
            }
            let next: u8 = if latest == 90 {
                97
            } else {
                latest + 1
            };
            assert(next == one_letter_after(latest));
            if !blocked.get(next) {
                return latest;
            }
            latest = next;
        }
    }

    /// Whether `new_value(old_name)` can hand out a name: either a one letter name is
    /// left, or some two letter name is still free.
    pub fn declaration_possible(&self, old_name: &[u8]) -> (r: bool)
        requires
            self.wf(),
        ensures
            r == (self.skipped_latest(old_name@) != 122 || some_two_char_free(
                self.two_byte_name_values@,
            )),
    {
        let latest = self.skip_blocked_names(old_name);
        if latest != 122 {
            true
        } else {
            first_free_two_char(&self.two_byte_name_values).is_some()
        }
    }
}


// ---------------------------------------------------------------------------
// Values looked up through the scopes around the current one.

/// The value named `name` that the code at the current point refers to: the most
/// recent one declared in the innermost scope that declares one.
pub open spec fn chain_find(scope: JsScope, name: Seq<u8>) -> Option<ValueView>
    decreases scope,
{
    let idx = value_index(name);
    match last_match(scope.values@[idx], name.skip(1)) {
        Some(k) => Some(scope.values@[idx][k]),
        None => match scope.parent_scope {
            Some(p) => chain_find(*p, name),
            None => None,
        },
    }
}

/// Whether the count of uses of the value `chain_find` gives can go up by one.
pub open spec fn chain_can_count(scope: JsScope, name: Seq<u8>) -> bool
    decreases scope,
{
    let idx = value_index(name);
    match last_match(scope.values@[idx], name.skip(1)) {
        Some(k) => scope.values@[idx][k].amount_occurences < u16::MAX,
        None => match scope.parent_scope {
            Some(p) => chain_can_count(*p, name),
            None => true,
        },
    }
}

impl JsScope {
    /// Every field but the declared values is the same.
    pub open spec fn same_but_values(&self, other: &JsScope) -> bool {
        &&& self.same_but_declared(other)
        &&& self.two_byte_name_values == other.two_byte_name_values
        &&& self.latest_available_one_byte == other.latest_available_one_byte
    }
}

/// `new` is `old` once the count of uses of the value that `chain_find` gives went up by one.
pub open spec fn chain_counted(old: JsScope, new: JsScope, name: Seq<u8>) -> bool
    decreases old,
{
    let idx = value_index(name);
    &&& new.wf()
    &&& match last_match(old.values@[idx], name.skip(1)) {
        Some(k) => {
            &&& new.values@ == old.values@.update(idx, bucket_after_count(old.values@[idx], k))
            &&& new.same_but_values(&old)
        },
        None => {
            &&& new.values@ == old.values@
            &&& new.same_but_values_and_parent(&old)
            &&& match (old.parent_scope, new.parent_scope) {
                (Some(op), Some(np)) => chain_counted(*op, *np, name),
                (None, None) => true,
                _ => false,
            }
        },
    }
}

impl JsScope {
    /// Every field but the declared values and the parent scope is the same.
    pub open spec fn same_but_values_and_parent(&self, other: &JsScope) -> bool {
        &&& self.used_values == other.used_values
        &&& self.all_parent_values == other.all_parent_values
        &&& self.starting_index == other.starting_index
        &&& self.children_used_values == other.children_used_values
        &&& self.characters == other.characters
        &&& self.inside_of == other.inside_of
        &&& self.end_scope_char == other.end_scope_char
        &&& self.min_value_declarations == other.min_value_declarations
        &&& self.all_value_declarations == other.all_value_declarations
        &&& self.semi_column_indexes == other.semi_column_indexes
        &&& self.is_a_parent == other.is_a_parent
        &&& self.beginning_chars == other.beginning_chars
        &&& self.potential_values_called == other.potential_values_called
        &&& self.potential_values_declared == other.potential_values_declared
        &&& self.inside_function == other.inside_function
        &&& self.two_byte_name_values == other.two_byte_name_values
        &&& self.latest_available_one_byte == other.latest_available_one_byte
    }

    /// A copy of the value named `old_name` that the code here refers to.
    pub fn lookup_in_chain(&self, old_name: &[u8]) -> (r: Option<Value>)
        requires
            self.wf_chain(),
            old_name@.len() >= 1,
        ensures
            match chain_find(*self, old_name@) {
                Some(v) => r matches Some(x) && x@ == v,
                None => r is None,
            },
        decreases self,
    {
        let index = self.get_value_index(old_name);
        let found = self.values.lookup(old_name, index);
        match found {
            Some(v) => Some(v),
            None => match &self.parent_scope {
                Some(p) => {
                    let parent: &JsScope = p;
                    parent.lookup_in_chain(old_name)
                },
                None => None,
            },
        }
    }

    /// Whether the count of uses of the value named `old_name` that the code here
    /// refers to can go up by one (see `chain_can_count`).
    pub fn can_count_in_chain(&self, old_name: &[u8]) -> (r: bool)
        requires
            self.wf_chain(),
            old_name@.len() >= 1,
        ensures
            r == chain_can_count(*self, old_name@),
        decreases self,
    {
        let index = self.get_value_index(old_name);
        match self.values.lookup(old_name, index) {
            Some(v) => v.amount_occurences < u16::MAX,
            None => match &self.parent_scope {
                Some(p) => {
                    let parent: &JsScope = p;
                    parent.can_count_in_chain(old_name)
                },
                None => true,
            },
        }
    }

    /// Adds one to the count of uses of the value named `old_name` that the code here refers to.
    pub fn count_in_chain(&mut self, old_name: &[u8])
        requires
            old(self).wf_chain(),
            old_name@.len() >= 1,
            chain_can_count(*old(self), old_name@),
        ensures
            final(self).wf_chain(),
            chain_counted(*old(self), *final(self), old_name@),
            chain_find(*final(self), old_name@) matches Some(v) ==> chain_find(*old(self), old_name@) matches Some(w) && v == (ValueView { amount_occurences: (w.amount_occurences + 1) as u16, ..w }),
            chain_find(*final(self), old_name@) is None <==> chain_find(*old(self), old_name@) is None,
        decreases *old(self),
    {
        let index = self.get_value_index(old_name);
        let ghost idx = index as int;
        let ghost tail = old_name@.skip(1);
        proof {
            lemma_last_match(self.values@[idx], tail);
        }
        if self.values.bump_amount(old_name, index) {
            proof {
                let k = last_match(old(self).values@[idx], tail)->0;
                lemma_last_match_at(self.values@[idx], tail, k);
            }
            return ;
        }
        let mut parent = None;
        std::mem::swap(&mut parent, &mut self.parent_scope);
        match parent {
            Some(mut b) => {
                let ghost ob = *b;
                b.count_in_chain(old_name);
                self.parent_scope = Some(b);
            },
            None => {
                self.parent_scope = None;
            },
        }
    }
}


impl JsScope {
    /// Every field but the potential values called is the same.
    pub open spec fn same_but_called(&self, other: &JsScope) -> bool {
        &&& self.values == other.values
        &&& self.two_byte_name_values == other.two_byte_name_values
        &&& self.used_values == other.used_values
        &&& self.all_parent_values == other.all_parent_values
        &&& self.parent_scope == other.parent_scope
        &&& self.starting_index == other.starting_index
        &&& self.latest_available_one_byte == other.latest_available_one_byte
        &&& self.children_used_values == other.children_used_values
        &&& self.characters == other.characters
        &&& self.inside_of == other.inside_of
        &&& self.end_scope_char == other.end_scope_char
        &&& self.min_value_declarations == other.min_value_declarations
        &&& self.all_value_declarations == other.all_value_declarations
        &&& self.semi_column_indexes == other.semi_column_indexes
        &&& self.is_a_parent == other.is_a_parent
        &&& self.beginning_chars == other.beginning_chars
        &&& self.potential_values_declared == other.potential_values_declared
        &&& self.inside_function == other.inside_function
    }
}

} // verus!
