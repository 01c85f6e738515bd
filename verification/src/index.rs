//! Secondary indexes: a closed set of three shapes, and the per-storage list
//! that names them by field.

use vstd::prelude::*;
use vstd::string::*;
use crate::error::Error;

verus! {

pub type FieldName = String;

pub type FieldValue = String;

pub type Key = String;

/// An entry of a unique index over strings.
#[derive(Debug, Clone, PartialEq)]
pub struct TextEntry {
    pub value: FieldValue,
    pub key: Key,
}

/// An entry of a unique index over integers.
#[derive(Debug, Clone, PartialEq)]
pub struct NumberEntry {
    pub number: i64,
    pub key: Key,
}

/// An entry of a non-unique index over strings: the keys of the records that
/// hold the value, in the order in which they were added.
#[derive(Debug, Clone, PartialEq)]
pub struct TextGroup {
    pub value: FieldValue,
    pub keys: Vec<Key>,
}

/// A field value as an index files it.
pub enum FieldKey {
    Text(Seq<char>),
    Number(int),
}

/// An index over one field of the records of a storage.
///
/// The unique shapes hold at most one entry per field value. The ordered
/// shape keeps its entries in ascending numeric order; the other two keep
/// them in the order in which the values first came.
#[derive(Debug, Clone, PartialEq)]
pub enum Index {
    /// Unique, ordered, over integers.
    BTreeUnique(Vec<NumberEntry>),
    /// Unique, over strings.
    HashUnique(Vec<TextEntry>),
    /// Non-unique, over strings.
    Hash(Vec<TextGroup>),
}

/// A field value as a record hands it to an index.
#[derive(Debug, Clone, PartialEq)]
pub enum FieldContent {
    Text(FieldValue),
    Number(i64),
}

/// An index under the name of the field it is bound to.
#[derive(Debug, Clone, PartialEq)]
pub struct NamedIndex {
    pub name: FieldName,
    pub index: Index,
}

/// The indexes of one storage, by field name. No name stands twice.
#[derive(Debug, Clone, PartialEq)]
pub struct IndexList {
    pub list: Vec<NamedIndex>,
}

/// The field values of the entries of a unique string index.
pub open spec fn text_values(entries: Seq<TextEntry>) -> Seq<Seq<char>> {
    Seq::new(entries.len(), |i: int| entries[i].value@)
}

/// The field values of the entries of a unique integer index.
pub open spec fn number_values(entries: Seq<NumberEntry>) -> Seq<int> {
    Seq::new(entries.len(), |i: int| entries[i].number as int)
}

/// The field values of the entries of a non-unique string index.
pub open spec fn group_values(groups: Seq<TextGroup>) -> Seq<Seq<char>> {
    Seq::new(groups.len(), |i: int| groups[i].value@)
}

/// The keys of a group.
pub open spec fn key_views(keys: Seq<Key>) -> Seq<Seq<char>> {
    Seq::new(keys.len(), |i: int| keys[i]@)
}

/// The numbers ascend strictly.
pub open spec fn ascending(numbers: Seq<int>) -> bool {
    forall|i: int, j: int| 0 <= i < j < numbers.len() ==> numbers[i] < numbers[j]
}

/// How many of the numbers lie below `n`.
pub open spec fn rank(numbers: Seq<int>, n: int) -> int
    decreases numbers.len(),
{
    if numbers.len() == 0 {
        0
    } else {
        rank(numbers.drop_last(), n) + if numbers.last() < n { 1int } else { 0int }
    }
}

/// Whether `number` lies between the bounds, each taken with or without
/// itself.
pub open spec fn within(number: int, low: int, high: int, with_low: bool, with_high: bool) -> bool {
    &&& if with_low { low <= number } else { low < number }
    &&& if with_high { number <= high } else { number < high }
}

/// The keys of the entries whose numbers lie between the bounds, in the
/// order of the entries.
pub open spec fn keys_within(
    entries: Seq<NumberEntry>,
    low: int,
    high: int,
    with_low: bool,
    with_high: bool,
) -> Seq<Seq<char>>
    decreases entries.len(),
{
    if entries.len() == 0 {
        Seq::empty()
    } else {
        let rest = keys_within(entries.drop_last(), low, high, with_low, with_high);
        if within(entries.last().number as int, low, high, with_low, with_high) {
            rest.push(entries.last().key@)
        } else {
            rest
        }
    }
}

impl FieldContent {
    /// The value as an index files it.
    pub open spec fn key(self) -> FieldKey {
        match self {
            FieldContent::Text(t) => FieldKey::Text(t@),
            FieldContent::Number(n) => FieldKey::Number(n as int),
        }
    }
}

/// The field values of the entries.
pub open spec fn values_of(entries: Seq<(FieldKey, Seq<char>)>) -> Seq<FieldKey> {
    Seq::new(entries.len(), |i: int| entries[i].0)
}

/// The numbers of the entries of an ordered index.
pub open spec fn entry_numbers(entries: Seq<(FieldKey, Seq<char>)>) -> Seq<int> {
    Seq::new(entries.len(), |i: int| entries[i].0->Number_0)
}

/// The entries once `key` is filed under the value: a string comes last, a
/// number takes its place in the ascending order.
pub open spec fn added(entries: Seq<(FieldKey, Seq<char>)>, value: FieldKey, key: Seq<char>) -> Seq<
    (FieldKey, Seq<char>),
> {
    match value {
        FieldKey::Text(_) => entries.push((value, key)),
        FieldKey::Number(n) => entries.insert(rank(entry_numbers(entries), n), (value, key)),
    }
}

/// The entries without the entry of the value.
pub open spec fn removed(entries: Seq<(FieldKey, Seq<char>)>, value: FieldKey) -> Seq<
    (FieldKey, Seq<char>),
> {
    match values_of(entries).index_of_first(value) {
        Some(at) => entries.remove(at),
        None => entries,
    }
}

/// The names of the indexes, in the order of the list.
pub open spec fn index_names(list: Seq<NamedIndex>) -> Seq<Seq<char>> {
    Seq::new(list.len(), |i: int| list[i].name@)
}

impl Index {
    /// The entries of a unique index as pairs of field value and key, in the
    /// order in which the index holds them. Empty for the non-unique shape.
    pub open spec fn entries(self) -> Seq<(FieldKey, Seq<char>)> {
        match self {
            Index::BTreeUnique(e) => Seq::new(
                e@.len(),
                |i: int| (FieldKey::Number(e@[i].number as int), e@[i].key@),
            ),
            Index::HashUnique(e) => Seq::new(
                e@.len(),
                |i: int| (FieldKey::Text(e@[i].value@), e@[i].key@),
            ),
            Index::Hash(_) => Seq::empty(),
        }
    }

    /// The field values of the entries of a unique index.
    pub open spec fn values(self) -> Seq<FieldKey> {
        Seq::new(self.entries().len(), |i: int| self.entries()[i].0)
    }

    /// The groups of a non-unique index as pairs of field value and keys.
    /// Empty for the unique shapes.
    pub open spec fn groups(self) -> Seq<(Seq<char>, Seq<Seq<char>>)> {
        match self {
            Index::Hash(g) => Seq::new(g@.len(), |i: int| (g@[i].value@, key_views(g@[i].keys@))),
            _ => Seq::empty(),
        }
    }

    /// The invariant of an index: no field value has two entries, the ordered
    /// shape ascends, and no group of the non-unique shape is empty.
    pub open spec fn wf(self) -> bool {
        match self {
            Index::BTreeUnique(e) => ascending(number_values(e@)),
            Index::HashUnique(e) => text_values(e@).no_duplicates(),
            Index::Hash(g) => {
                &&& group_values(g@).no_duplicates()
                &&& forall|i: int| 0 <= i < g@.len() ==> (#[trigger] g@[i]).keys@.len() > 0
            },
        }
    }

    /// Whether the index is one of the two unique shapes.
    pub open spec fn is_unique(self) -> bool {
        !(self is Hash)
    }

    /// An empty unique index over strings.
    pub fn new_unique_hashmap() -> (index: Index)
        ensures
            index is HashUnique,
            index.entries() =~= Seq::empty(),
            index.wf(),
    {
        Index::HashUnique(Vec::new())
    }

    /// An empty unique ordered index over integers.
    pub fn new_unique_btreemap() -> (index: Index)
        ensures
            index is BTreeUnique,
            index.entries() =~= Seq::empty(),
            index.wf(),
    {
        Index::BTreeUnique(Vec::new())
    }

    /// An empty non-unique index over strings.
    pub fn new_hashmap() -> (index: Index)
        ensures
            index is Hash,
            index.groups() =~= Seq::empty(),
            index.wf(),
    {
        Index::Hash(Vec::new())
    }

    /// Whether a unique index holds an entry for the field value.
    pub open spec fn contains_value(self, value: FieldKey) -> bool {
        self.values().contains(value)
    }

    /// Records that the record under `key` holds the string `field_value`.
    ///
    /// On a unique string index the call fails where the value already has
    /// an entry, and changes nothing. On the other shapes it does nothing.
    pub fn add_string_unique(&mut self, key: Key, field_value: FieldValue) -> (result: Result<
        (),
        Error,
    >)
        requires
            old(self).wf(),
        ensures
            final(self).wf(),
            match *old(self) {
                Index::HashUnique(_) => if old(self).contains_value(FieldKey::Text(field_value@)) {
                    &&& result is Err
                    &&& result->Err_0 is IndexError
                    &&& *final(self) == *old(self)
                } else {
                    &&& result is Ok
                    &&& *final(self) is HashUnique
                    &&& final(self).entries() == old(self).entries().push(
                        (FieldKey::Text(field_value@), key@),
                    )
                },
                _ => result is Ok && *final(self) == *old(self),
            },
    {
        match self {
            Index::HashUnique(entries) => {
                let found = find_text(entries, &field_value);
                proof {
                    text_values(entries@).index_of_first_ensures(field_value@);
                    lemma_text_values(Index::HashUnique(*entries));
                }
                if found.is_some() {
                    return Err(Error::IndexError(String::from_str("Duplicate key")));
                }
                let ghost before = *entries;
                entries.push(TextEntry { value: field_value, key });
                proof {
                    lemma_text_values(Index::HashUnique(*entries));
                    assert(Index::HashUnique(*entries).entries() =~= Index::HashUnique(
                        before,
                    ).entries().push((FieldKey::Text(field_value@), key@)));
                    assert(text_values(entries@) =~= text_values(before@).push(field_value@));
                }
                Ok(())
            },
            _ => Ok(()),
        }
    }

    /// Records that the record under `key` holds the integer `num_value`.
    ///
    /// On the ordered index the call fails where the value already has an
    /// entry, and changes nothing; else the entry takes its place in the
    /// ascending order. On the other shapes it does nothing.
    pub fn add_number_unique(&mut self, key: Key, num_value: i64) -> (result: Result<(), Error>)
        requires
            old(self).wf(),
        ensures
            final(self).wf(),
            match *old(self) {
                Index::BTreeUnique(_) => if old(self).contains_value(
                    FieldKey::Number(num_value as int),
                ) {
                    &&& result is Err
                    &&& result->Err_0 is IndexError
                    &&& *final(self) == *old(self)
                } else {
                    &&& result is Ok
                    &&& *final(self) is BTreeUnique
                    &&& final(self).entries() == old(self).entries().insert(
                        rank(number_values(old(self)->BTreeUnique_0@), num_value as int),
                        (FieldKey::Number(num_value as int), key@),
                    )
                },
                _ => result is Ok && *final(self) == *old(self),
            },
    {
        match self {
            Index::BTreeUnique(entries) => {
                let place = find_number(entries, num_value);
                let ghost before = *entries;
                proof {
                    lemma_number_values(Index::BTreeUnique(before));
                }
                if place < entries.len() && entries[place].number == num_value {
                    proof {
                        assert(number_values(before@)[place as int] == num_value);
                        assert(number_values(before@).contains(num_value as int));
                        assert(Index::BTreeUnique(before).contains_value(
                            FieldKey::Number(num_value as int),
                        ));
                    }
                    return Err(Error::IndexError(String::from_str("Duplicate key")));
                }
                proof {
                    assert(!number_values(before@).contains(num_value as int)) by {
                        if number_values(before@).contains(num_value as int) {
                            let k = choose|k: int|
                                0 <= k < before@.len() && number_values(before@)[k] == num_value;
                            assert(number_values(before@)[k] == num_value);
                            if k >= place {
                                if k > place {
                                    assert(number_values(before@)[place as int] < number_values(
                                        before@,
                                    )[k]);
                                }
                            }
                        }
                    }
                }
                entries.insert(place, NumberEntry { number: num_value, key });
                proof {
                    lemma_rank_is_place(number_values(before@), num_value as int, place as int);
                    assert(Index::BTreeUnique(*entries).entries() =~= Index::BTreeUnique(
                        before,
                    ).entries().insert(
                        place as int,
                        (FieldKey::Number(num_value as int), key@),
                    ));
                    assert(number_values(entries@) =~= number_values(before@).insert(
                        place as int,
                        num_value as int,
                    ));
                    assert forall|i: int, j: int|
                        0 <= i < j < number_values(entries@).len() implies number_values(
                        entries@,
                    )[i] < number_values(entries@)[j] by {
                        let a = if i < place { i } else { i - 1 };
                        let b = if j < place { j } else { j - 1 };
                        if i != place && j != place {
                            assert(number_values(before@)[a] < number_values(before@)[b]);
                        } else if i == place {
                            assert(number_values(before@)[b] >= num_value);
                            assert(number_values(before@)[b] != num_value);
                        } else {
                            assert(number_values(before@)[a] < num_value);
                        }
                    }
                }
                Ok(())
            },
            _ => Ok(()),
        }
    }

    /// Records in a non-unique index that the record under `key` holds the
    /// string `field_value`: the key joins the keys of the value, at their
    /// end. A value that had none gets a group of its own, after the others.
    /// On the unique shapes the call does nothing. It never fails.
    pub fn add_string(&mut self, key: Key, field_value: FieldValue) -> (result: Result<(), Error>)
        requires
            old(self).wf(),
        ensures
            final(self).wf(),
            result is Ok,
            match *old(self) {
                Index::Hash(_) => {
                    &&& *final(self) is Hash
                    &&& match group_values(old(self)->Hash_0@).index_of_first(field_value@) {
                        Some(at) => final(self).groups() == old(self).groups().update(
                            at,
                            (field_value@, old(self).groups()[at].1.push(key@)),
                        ),
                        None => final(self).groups() == old(self).groups().push(
                            (field_value@, seq![key@]),
                        ),
                    }
                },
                _ => *final(self) == *old(self),
            },
    {
        match self {
            Index::Hash(groups) => {
                let ghost before = *groups;
                proof {
                    group_values(before@).index_of_first_ensures(field_value@);
                }
                match find_group(groups, &field_value) {
                    Some(at) => {
                        let mut group = groups.remove(at);
                        group.keys.push(key);
                        groups.insert(at, group);
                        proof {
                            assert(group_values(groups@) =~= group_values(before@));
                            assert(Index::Hash(*groups).groups() =~= Index::Hash(
                                before,
                            ).groups().update(
                                at as int,
                                (
                                    field_value@,
                                    Index::Hash(before).groups()[at as int].1.push(key@),
                                ),
                            )) by {
                                assert(key_views(groups@[at as int].keys@) =~= key_views(
                                    before@[at as int].keys@,
                                ).push(key@));
                            }
                        }
                    },
                    None => {
                        let mut keys: Vec<Key> = Vec::new();
                        keys.push(key);
                        groups.push(TextGroup { value: field_value, keys });
                        proof {
                            assert(group_values(groups@) =~= group_values(before@).push(
                                field_value@,
                            ));
                            assert(key_views(groups@[before@.len() as int].keys@) =~= seq![key@]);
                            assert(Index::Hash(*groups).groups() =~= Index::Hash(
                                before,
                            ).groups().push((field_value@, seq![key@])));
                        }
                    },
                }
                Ok(())
            },
            _ => Ok(()),
        }
    }

    /// Forgets what a string index holds of the field value.
    ///
    /// A unique index loses the entry of the value. A non-unique index loses
    /// the first occurrence of `key` among the keys of the value, and the
    /// group with it where that was its last key. Nothing happens where the
    /// value, or the key, is not there, nor on the ordered shape.
    pub fn remove_string(&mut self, field_value: &FieldValue, key: &Key)
        requires
            old(self).wf(),
        ensures
            final(self).wf(),
            match *old(self) {
                Index::HashUnique(e) => {
                    &&& *final(self) is HashUnique
                    &&& final(self).entries() == match old(self).values().index_of_first(
                        FieldKey::Text(field_value@),
                    ) {
                        Some(at) => old(self).entries().remove(at),
                        None => old(self).entries(),
                    }
                },
                Index::Hash(g) => {
                    &&& *final(self) is Hash
                    &&& final(self).groups() == match group_values(g@).index_of_first(
                        field_value@,
                    ) {
                        Some(at) => match old(self).groups()[at].1.index_of_first(key@) {
                            Some(k) => if old(self).groups()[at].1.len() == 1 {
                                old(self).groups().remove(at)
                            } else {
                                old(self).groups().update(
                                    at,
                                    (field_value@, old(self).groups()[at].1.remove(k)),
                                )
                            },
                            None => old(self).groups(),
                        },
                        None => old(self).groups(),
                    }
                },
                _ => *final(self) == *old(self),
            },
    {
        match self {
            Index::HashUnique(entries) => {
                let ghost before = *entries;
                proof {
                    text_values(before@).index_of_first_ensures(field_value@);
                    lemma_text_position(Index::HashUnique(before), field_value@);
                }
                match find_text(entries, field_value) {
                    Some(at) => {
                        entries.remove(at);
                        proof {
                            assert(text_values(entries@) =~= text_values(before@).remove(
                                at as int,
                            ));
                            lemma_remove_keeps_distinct(text_values(before@), at as int);
                            assert(Index::HashUnique(*entries).entries() =~= Index::HashUnique(
                                before,
                            ).entries().remove(at as int));
                        }
                    },
                    None => {},
                }
            },
            Index::Hash(groups) => {
                let ghost before = *groups;
                proof {
                    group_values(before@).index_of_first_ensures(field_value@);
                }
                match find_group(groups, field_value) {
                    Some(at) => {
                        proof {
                            key_views(before@[at as int].keys@).index_of_first_ensures(key@);
                            assert(Index::Hash(before).groups()[at as int].1 == key_views(
                                before@[at as int].keys@,
                            ));
                        }
                        match find_key(&groups[at].keys, key) {
                            Some(k) => {
                                if groups[at].keys.len() == 1 {
                                    groups.remove(at);
                                    proof {
                                        assert(group_values(groups@) =~= group_values(
                                            before@,
                                        ).remove(at as int));
                                        lemma_remove_keeps_distinct(
                                            group_values(before@),
                                            at as int,
                                        );
                                        assert(Index::Hash(*groups).groups() =~= Index::Hash(
                                            before,
                                        ).groups().remove(at as int));
                                    }
                                } else {
                                    let mut group = groups.remove(at);
                                    group.keys.remove(k);
                                    groups.insert(at, group);
                                    proof {
                                        assert(group_values(groups@) =~= group_values(before@));
                                        assert(key_views(groups@[at as int].keys@) =~= key_views(
                                            before@[at as int].keys@,
                                        ).remove(k as int));
                                        assert(Index::Hash(*groups).groups() =~= Index::Hash(
                                            before,
                                        ).groups().update(
                                            at as int,
                                            (
                                                field_value@,
                                                Index::Hash(before).groups()[at as int].1.remove(
                                                    k as int,
                                                ),
                                            ),
                                        ));
                                    }
                                }
                            },
                            None => {},
                        }
                    },
                    None => {},
                }
            },
            _ => {},
        }
    }

    /// Forgets what the ordered index holds of the number. Nothing happens
    /// where the number has no entry, nor on the other shapes.
    pub fn remove_number(&mut self, num_value: i64)
        requires
            old(self).wf(),
        ensures
            final(self).wf(),
            match *old(self) {
                Index::BTreeUnique(e) => {
                    &&& *final(self) is BTreeUnique
                    &&& final(self).entries() == match old(self).values().index_of_first(
                        FieldKey::Number(num_value as int),
                    ) {
                        Some(at) => old(self).entries().remove(at),
                        None => old(self).entries(),
                    }
                },
                _ => *final(self) == *old(self),
            },
    {
        match self {
            Index::BTreeUnique(entries) => {
                let ghost before = *entries;
                let place = find_number(entries, num_value);
                proof {
                    number_values(before@).index_of_first_ensures(num_value as int);
                    lemma_number_position(Index::BTreeUnique(before), num_value as int);
                }
                if place < entries.len() && entries[place].number == num_value {
                    proof {
                        assert(number_values(before@)[place as int] == num_value);
                        assert(number_values(before@).index_of_first(num_value as int) == Some(
                            place as int,
                        ));
                    }
                    entries.remove(place);
                    proof {
                        assert(number_values(entries@) =~= number_values(before@).remove(
                            place as int,
                        ));
                        assert forall|i: int, j: int|
                            0 <= i < j < number_values(entries@).len() implies number_values(
                            entries@,
                        )[i] < number_values(entries@)[j] by {
                            let a = if i < place { i } else { i + 1 };
                            let b = if j < place { j } else { j + 1 };
                            assert(number_values(before@)[a] < number_values(before@)[b]);
                        }
                        assert(Index::BTreeUnique(*entries).entries() =~= Index::BTreeUnique(
                            before,
                        ).entries().remove(place as int));
                    }
                } else {
                    proof {
                        if number_values(before@).contains(num_value as int) {
                            let k = choose|k: int|
                                0 <= k < before@.len() && number_values(before@)[k] == num_value;
                            if k > place {
                                assert(number_values(before@)[place as int] < number_values(
                                    before@,
                                )[k]);
                            }
                        }
                    }
                }
            },
            _ => {},
        }
    }

    /// The key under which a unique string index files the field value.
    pub fn get_unique_hash_key(&self, field_value: FieldValue) -> (found: Option<&Key>)
        ensures
            match *self {
                Index::HashUnique(e) => match text_values(e@).index_of_first(field_value@) {
                    Some(at) => found == Some(&e@[at].key),
                    None => found is None,
                },
                _ => found is None,
            },
    {
        match self {
            Index::HashUnique(entries) => match find_text(entries, &field_value) {
                Some(at) => Some(&entries[at].key),
                None => None,
            },
            _ => None,
        }
    }

    /// The keys under which a non-unique index files the field value.
    pub fn get_hash_keys(&self, field_value: FieldValue) -> (found: Option<&Vec<Key>>)
        ensures
            match *self {
                Index::Hash(g) => match group_values(g@).index_of_first(field_value@) {
                    Some(at) => found == Some(&g@[at].keys),
                    None => found is None,
                },
                _ => found is None,
            },
    {
        match self {
            Index::Hash(groups) => match find_group(groups, &field_value) {
                Some(at) => Some(&groups[at].keys),
                None => None,
            },
            _ => None,
        }
    }

    /// The keys that the ordered index files under the numbers between `low`
    /// and `high`, in ascending order of the numbers. Each bound counts
    /// itself where its flag is set. Empty on the other shapes.
    pub fn range(&self, low: i64, high: i64, with_low: bool, with_high: bool) -> (keys: Vec<Key>)
        ensures
            key_views(keys@) == match *self {
                Index::BTreeUnique(e) => keys_within(
                    e@,
                    low as int,
                    high as int,
                    with_low,
                    with_high,
                ),
                _ => Seq::empty(),
            },
    {
        let mut keys: Vec<Key> = Vec::new();
        match self {
            Index::BTreeUnique(entries) => {
                let mut i: usize = 0;
                assert(key_views(keys@) =~= Seq::empty());
                while i < entries.len()
                    invariant
                        i <= entries.len(),
                        key_views(keys@) == keys_within(
                            entries@.take(i as int),
                            low as int,
                            high as int,
                            with_low,
                            with_high,
                        ),
                    decreases entries.len() - i,
                {
                    let number = entries[i].number;
                    let above = if with_low { low <= number } else { low < number };
                    let below = if with_high { number <= high } else { number < high };
                    let ghost before = keys@;
                    proof {
                        assert(entries@.take(i + 1).drop_last() =~= entries@.take(i as int));
                    }
                    if above && below {
                        keys.push(entries[i].key.clone());
                        proof {
                            assert(key_views(keys@) =~= key_views(before).push(entries@[i as int].key@));
                        }
                    }
                    i += 1;
                }
                proof {
                    assert(entries@.take(i as int) =~= entries@);
                }
            },
            _ => {
                assert(key_views(keys@) =~= Seq::empty());
            },
        }
        keys
    }

    /// Whether the index files values of this type: strings in a unique
    /// string index, integers in the ordered index.
    pub open spec fn accepts(self, value: FieldKey) -> bool {
        match self {
            Index::HashUnique(_) => value is Text,
            Index::BTreeUnique(_) => value is Number,
            Index::Hash(_) => false,
        }
    }

    /// Whether two indexes are of the same shape.
    pub open spec fn same_shape(self, other: Index) -> bool {
        &&& self is HashUnique <==> other is HashUnique
        &&& self is BTreeUnique <==> other is BTreeUnique
        &&& self is Hash <==> other is Hash
    }

    /// Whether a unique index holds an entry for the value.
    pub fn holds(&self, value: &FieldContent) -> (held: bool)
        requires
            self.wf(),
        ensures
            held == (self.accepts(value.key()) && self.contains_value(value.key())),
    {
        proof {
            if self is HashUnique {
                lemma_text_values(*self);
                assert(forall|i: int|
                    0 <= i < self.values().len() ==> (#[trigger] self.values()[i]) is Text);
            }
            if self is BTreeUnique {
                lemma_number_values(*self);
            }
        }
        match (self, value) {
            (Index::HashUnique(entries), FieldContent::Text(text)) => {
                proof {
                    text_values(entries@).index_of_first_ensures(text@);
                    assert(self.contains_value(FieldKey::Text(text@)) <==> text_values(
                        entries@,
                    ).contains(text@));
                }
                find_text(entries, text).is_some()
            },
            (Index::BTreeUnique(entries), FieldContent::Number(number)) => {
                let place = find_number(entries, *number);
                let held = place < entries.len() && entries[place].number == *number;
                proof {
                    let nv = number_values(entries@);
                    assert(self.contains_value(FieldKey::Number(*number as int)) <==> nv.contains(
                        *number as int,
                    ));
                    if held {
                        assert(nv[place as int] == *number);
                    } else if nv.contains(*number as int) {
                        let k = choose|k: int| 0 <= k < nv.len() && nv[k] == *number;
                        if k > place {
                            assert(nv[place as int] < nv[k]);
                        }
                    }
                }
                held
            },
            _ => false,
        }
    }

    /// Files `key` under the value in a unique index that accepts it.
    pub fn file(&mut self, key: Key, value: FieldContent)
        requires
            old(self).wf(),
            old(self).accepts(value.key()),
            !old(self).contains_value(value.key()),
        ensures
            final(self).wf(),
            final(self).same_shape(*old(self)),
            final(self).entries() == added(old(self).entries(), value.key(), key@),
    {
        proof {
            if *self is BTreeUnique {
                assert(entry_numbers(self.entries()) =~= number_values(self->BTreeUnique_0@));
            }
        }
        match value {
            FieldContent::Text(text) => {
                let _ = self.add_string_unique(key, text);
            },
            FieldContent::Number(number) => {
                let _ = self.add_number_unique(key, number);
            },
        }
    }

    /// Takes the entry of the value out of a unique index.
    pub fn unfile(&mut self, value: &FieldContent)
        requires
            old(self).wf(),
            old(self).accepts(value.key()),
        ensures
            final(self).wf(),
            final(self).same_shape(*old(self)),
            final(self).entries() == removed(old(self).entries(), value.key()),
    {
        proof {
            assert(values_of(self.entries()) =~= self.values());
        }
        match value {
            FieldContent::Text(text) => {
                self.remove_string(text, text);
            },
            FieldContent::Number(number) => {
                self.remove_number(*number);
            },
        }
    }
}

/// Where in the entries the field value stands.
pub fn find_text(entries: &Vec<TextEntry>, value: &String) -> (found: Option<usize>)
    ensures
        match found {
            Some(i) => text_values(entries@).index_of_first(value@) == Some(i as int) && i
                < entries@.len(),
            None => text_values(entries@).index_of_first(value@) is None,
        },
{
    let mut i: usize = 0;
    while i < entries.len()
        invariant
            i <= entries.len(),
            forall|k: int| 0 <= k < i ==> text_values(entries@)[k] != value@,
        decreases entries.len() - i,
    {
        if entries[i].value == *value {
            proof {
                text_values(entries@).index_of_first_ensures(value@);
                assert(text_values(entries@)[i as int] == value@);
            }
            return Some(i);
        }
        i += 1;
    }
    proof {
        text_values(entries@).index_of_first_ensures(value@);
    }
    None
}

/// Where in the entries the number stands, or would stand: the first place
/// whose number is not below it.
pub fn find_number(entries: &Vec<NumberEntry>, number: i64) -> (place: usize)
    requires
        ascending(number_values(entries@)),
    ensures
        place <= entries@.len(),
        forall|k: int| 0 <= k < place ==> number_values(entries@)[k] < number,
        forall|k: int| place <= k < entries@.len() ==> number_values(entries@)[k] >= number,
{
    let mut i: usize = 0;
    while i < entries.len() && entries[i].number < number
        invariant
            i <= entries.len(),
            ascending(number_values(entries@)),
            forall|k: int| 0 <= k < i ==> number_values(entries@)[k] < number,
        decreases entries.len() - i,
    {
        i += 1;
    }
    proof {
        if i < entries.len() {
            assert(number_values(entries@)[i as int] >= number);
            assert forall|k: int| i <= k < entries@.len() implies number_values(entries@)[k]
                >= number by {
                if i < k {
                    assert(number_values(entries@)[i as int] < number_values(entries@)[k]);
                }
            }
        }
    }
    i
}

/// Where in the groups the field value stands.
pub fn find_group(groups: &Vec<TextGroup>, value: &String) -> (found: Option<usize>)
    ensures
        match found {
            Some(i) => group_values(groups@).index_of_first(value@) == Some(i as int) && i
                < groups@.len(),
            None => group_values(groups@).index_of_first(value@) is None,
        },
{
    let mut i: usize = 0;
    while i < groups.len()
        invariant
            i <= groups.len(),
            forall|k: int| 0 <= k < i ==> group_values(groups@)[k] != value@,
        decreases groups.len() - i,
    {
        if groups[i].value == *value {
            proof {
                group_values(groups@).index_of_first_ensures(value@);
                assert(group_values(groups@)[i as int] == value@);
            }
            return Some(i);
        }
        i += 1;
    }
    proof {
        group_values(groups@).index_of_first_ensures(value@);
    }
    None
}

/// Where in the keys the key stands.
pub fn find_key(keys: &Vec<Key>, key: &String) -> (found: Option<usize>)
    ensures
        match found {
            Some(i) => key_views(keys@).index_of_first(key@) == Some(i as int) && i < keys@.len(),
            None => key_views(keys@).index_of_first(key@) is None,
        },
{
    let mut i: usize = 0;
    while i < keys.len()
        invariant
            i <= keys.len(),
            forall|k: int| 0 <= k < i ==> key_views(keys@)[k] != key@,
        decreases keys.len() - i,
    {
        if keys[i] == *key {
            proof {
                key_views(keys@).index_of_first_ensures(key@);
                assert(key_views(keys@)[i as int] == key@);
            }
            return Some(i);
        }
        i += 1;
    }
    proof {
        key_views(keys@).index_of_first_ensures(key@);
    }
    None
}

impl IndexList {
    /// The names of the indexed fields, in the order in which they were
    /// first indexed.
    pub open spec fn names(self) -> Seq<Seq<char>> {
        index_names(self.list@)
    }

    /// The invariant of the list: no field is named twice.
    pub open spec fn wf(self) -> bool {
        self.names().no_duplicates()
    }

    /// Where the index of the field stands, if the field is indexed.
    pub open spec fn position(self, name: Seq<char>) -> Option<int> {
        self.names().index_of_first(name)
    }

    /// The index of the field, if the field is indexed.
    pub open spec fn index_of(self, name: Seq<char>) -> Option<Index> {
        match self.position(name) {
            Some(at) => Some(self.list@[at].index),
            None => None,
        }
    }

    /// An empty list.
    pub fn new() -> (list: IndexList)
        ensures
            list.list@.len() == 0,
            list.wf(),
    {
        IndexList { list: Vec::new() }
    }

    /// Where the index of the field stands.
    pub fn find(&self, field_name: &FieldName) -> (found: Option<usize>)
        ensures
            match found {
                Some(at) => self.position(field_name@) == Some(at as int) && at < self.list@.len()
                    && self.list@[at as int].name@ == field_name@,
                None => self.position(field_name@) is None,
            },
    {
        let mut i: usize = 0;
        while i < self.list.len()
            invariant
                i <= self.list.len(),
                forall|k: int| 0 <= k < i ==> self.names()[k] != field_name@,
            decreases self.list.len() - i,
        {
            if self.list[i].name == *field_name {
                proof {
                    self.names().index_of_first_ensures(field_name@);
                    assert(self.names()[i as int] == field_name@);
                }
                return Some(i);
            }
            i += 1;
        }
        proof {
            self.names().index_of_first_ensures(field_name@);
        }
        None
    }

    /// Binds the field to the index. An index that the field had before is
    /// replaced in its place; a new field comes last.
    pub fn create_index(&mut self, field_name: FieldName, index: Index)
        requires
            old(self).wf(),
        ensures
            final(self).wf(),
            final(self).list@ == match old(self).position(field_name@) {
                Some(at) => old(self).list@.update(at, NamedIndex { name: field_name, index }),
                None => old(self).list@.push(NamedIndex { name: field_name, index }),
            },
    {
        let ghost before = self.list@;
        match self.find(&field_name) {
            Some(at) => {
                self.list[at] = NamedIndex { name: field_name, index };
                proof {
                    assert(index_names(self.list@) =~= index_names(before));
                }
            },
            None => {
                self.list.push(NamedIndex { name: field_name, index });
                proof {
                    index_names(before).index_of_first_ensures(field_name@);
                    assert(index_names(self.list@) =~= index_names(before).push(field_name@));
                }
            },
        }
    }

    /// The index of the field.
    pub fn get_index(&self, field_name: &FieldName) -> (found: Option<&Index>)
        ensures
            match found {
                Some(index) => self.index_of(field_name@) == Some(*index),
                None => self.index_of(field_name@) is None,
            },
    {
        match self.find(field_name) {
            Some(at) => Some(&self.list[at].index),
            None => None,
        }
    }

    /// The index of the field, to be changed in place.
    pub fn get_index_mut(&mut self, field_name: &FieldName) -> (found: Option<&mut Index>)
        ensures
            match found {
                Some(index) => {
                    &&& old(self).position(field_name@) is Some
                    &&& *index == old(self).list@[old(self).position(field_name@)->Some_0].index
                    &&& final(self).list@ == old(self).list@.update(
                        old(self).position(field_name@)->Some_0,
                        NamedIndex {
                            name: old(self).list@[old(self).position(field_name@)->Some_0].name,
                            index: *final(index),
                        },
                    )
                },
                None => old(self).position(field_name@) is None && *final(self) == *old(self),
            },
    {
        match self.find(field_name) {
            Some(at) => Some(&mut self.list[at].index),
            None => None,
        }
    }

    /// Whether the field is indexed.
    pub fn index_exists(&self, field_name: &FieldName) -> (exists: bool)
        ensures
            exists == self.position(field_name@) is Some,
    {
        self.find(field_name).is_some()
    }
}

/// A sequence without duplicates stays so when it loses an element.
pub proof fn lemma_remove_keeps_distinct<A>(s: Seq<A>, at: int)
    requires
        s.no_duplicates(),
        0 <= at < s.len(),
    ensures
        s.remove(at).no_duplicates(),
{
    assert forall|i: int, j: int|
        0 <= i < s.remove(at).len() && 0 <= j < s.remove(at).len() && i != j implies s.remove(
        at,
    )[i] != s.remove(at)[j] by {
        let a = if i < at { i } else { i + 1 };
        let b = if j < at { j } else { j + 1 };
        assert(s[a] != s[b]);
    }
}

/// In an ascending sequence, the rank of a number is the place where the
/// numbers stop being below it.
pub proof fn lemma_rank_is_place(numbers: Seq<int>, n: int, place: int)
    requires
        0 <= place <= numbers.len(),
        forall|k: int| 0 <= k < place ==> numbers[k] < n,
        forall|k: int| place <= k < numbers.len() ==> numbers[k] >= n,
    ensures
        rank(numbers, n) == place,
    decreases numbers.len(),
{
    if numbers.len() > 0 {
        let rest = numbers.drop_last();
        if place == numbers.len() {
            lemma_rank_is_place(rest, n, place - 1);
        } else {
            lemma_rank_is_place(rest, n, place);
        }
    }
}

/// A field value stands in a unique string index where its text stands among
/// the texts of the entries.
pub proof fn lemma_text_position(index: Index, v: Seq<char>)
    requires
        index is HashUnique,
    ensures
        index.values().index_of_first(FieldKey::Text(v)) == text_values(
            index->HashUnique_0@,
        ).index_of_first(v),
{
    let tv = text_values(index->HashUnique_0@);
    let vals = index.values();
    vals.index_of_first_ensures(FieldKey::Text(v));
    tv.index_of_first_ensures(v);
    assert(forall|i: int| 0 <= i < vals.len() ==> vals[i] == FieldKey::Text(tv[i]));
    match tv.index_of_first(v) {
        Some(at) => {
            assert(vals[at] == FieldKey::Text(v));
        },
        None => {
            if vals.contains(FieldKey::Text(v)) {
                let i = choose|i: int| 0 <= i < vals.len() && vals[i] == FieldKey::Text(v);
                assert(tv[i] == v);
            }
        },
    }
}

/// A field value stands in the ordered index where its number stands among
/// the numbers of the entries.
pub proof fn lemma_number_position(index: Index, n: int)
    requires
        index is BTreeUnique,
    ensures
        index.values().index_of_first(FieldKey::Number(n)) == number_values(
            index->BTreeUnique_0@,
        ).index_of_first(n),
{
    let nv = number_values(index->BTreeUnique_0@);
    let vals = index.values();
    vals.index_of_first_ensures(FieldKey::Number(n));
    nv.index_of_first_ensures(n);
    assert(forall|i: int| 0 <= i < vals.len() ==> vals[i] == FieldKey::Number(nv[i]));
    match nv.index_of_first(n) {
        Some(at) => {
            assert(vals[at] == FieldKey::Number(n));
        },
        None => {
            if vals.contains(FieldKey::Number(n)) {
                let i = choose|i: int| 0 <= i < vals.len() && vals[i] == FieldKey::Number(n);
                assert(nv[i] == n);
            }
        },
    }
}

/// The values of a unique integer index are the numbers of its entries.
pub proof fn lemma_number_values(index: Index)
    requires
        index is BTreeUnique,
    ensures
        forall|n: int|
            index.contains_value(FieldKey::Number(n)) <==> number_values(
                index->BTreeUnique_0@,
            ).contains(n),
{
    let e = index->BTreeUnique_0@;
    let nv = number_values(e);
    assert forall|n: int| index.contains_value(FieldKey::Number(n)) <==> nv.contains(n) by {
        if index.contains_value(FieldKey::Number(n)) {
            let i = choose|i: int|
                0 <= i < index.values().len() && index.values()[i] == FieldKey::Number(n);
            assert(nv[i] == n);
        }
        if nv.contains(n) {
            let i = choose|i: int| 0 <= i < nv.len() && nv[i] == n;
            assert(index.values()[i] == FieldKey::Number(n));
        }
    }
}

/// The values of a unique string index are the field values of its entries.
pub proof fn lemma_text_values(index: Index)
    requires
        index is HashUnique,
    ensures
        index.values() =~= Seq::new(
            text_values(index->HashUnique_0@).len(),
            |i: int| FieldKey::Text(text_values(index->HashUnique_0@)[i]),
        ),
        forall|v: Seq<char>|
            index.contains_value(FieldKey::Text(v)) <==> text_values(index->HashUnique_0@).contains(
                v,
            ),
{
    let e = index->HashUnique_0@;
    let tv = text_values(e);
    assert forall|v: Seq<char>|
        index.contains_value(FieldKey::Text(v)) <==> tv.contains(v) by {
        if index.contains_value(FieldKey::Text(v)) {
            let i = choose|i: int| 0 <= i < index.values().len() && index.values()[i] == FieldKey::Text(v);
            assert(tv[i] == v);
        }
        if tv.contains(v) {
            let i = choose|i: int| 0 <= i < tv.len() && tv[i] == v;
            assert(index.values()[i] == FieldKey::Text(v));
        }
    }
}

} // verus!
