//! The storage engine: named storages, each a key-value map with indexes
//! that every write keeps in step with the records.

use vstd::prelude::*;
use vstd::string::*;
use crate::error::Error;
use crate::index::{
    added, lemma_number_values, lemma_remove_keeps_distinct, number_values, removed, text_values,
    index_names, values_of, FieldContent, FieldKey, Index, IndexList, Key, NamedIndex,
};
use crate::json::{json_document, parse_document, Document, DocumentView};
use crate::text::{join3, join5};
use crate::witchvm_kv::{holds_of_field, text_views, Predicate, PredicateView};

verus! {

/// A key and the value stored under it.
#[derive(Debug, Clone, PartialEq)]
pub struct Record {
    pub key: Key,
    pub value: String,
}

/// A named container of records with its indexes. Records stand in the
/// order in which their keys were first inserted.
#[derive(Debug, Clone, PartialEq)]
pub struct Storage {
    pub name: String,
    pub data: Vec<Record>,
    pub indexes: IndexList,
}

/// The storages of one database, in the order of their creation.
#[derive(Debug, Clone, PartialEq)]
pub struct Database {
    pub storages: Vec<Storage>,
}

/// The type of the values that an index files.
#[derive(Debug, Clone, Copy, PartialEq, Eq)]
pub enum FieldType {
    String,
    Number,
}

/// The keys of the records, in their order.
pub open spec fn record_keys(data: Seq<Record>) -> Seq<Seq<char>> {
    Seq::new(data.len(), |i: int| data[i].key@)
}

/// The names of the storages, in their order.
pub open spec fn storage_names(storages: Seq<Storage>) -> Seq<Seq<char>> {
    Seq::new(storages.len(), |i: int| storages[i].name@)
}

/// What a document gives an index of the type on `field` to file: the string
/// under `field` for strings, the integer under `field` for numbers, nothing
/// where the member is missing or of another type.
pub open spec fn typed_key(field_type: FieldType, field: Seq<char>, document: DocumentView) -> Option<
    FieldKey,
> {
    match field_type {
        FieldType::String => match document.text_of(field) {
            Some(t) => Some(FieldKey::Text(t)),
            None => None,
        },
        FieldType::Number => match document.integer_of(field) {
            Some(n) => Some(FieldKey::Number(n as int)),
            None => None,
        },
    }
}

/// The type of the values that a unique index files.
pub open spec fn type_of(index: Index) -> Option<FieldType> {
    match index {
        Index::HashUnique(_) => Some(FieldType::String),
        Index::BTreeUnique(_) => Some(FieldType::Number),
        Index::Hash(_) => None,
    }
}

/// What a document gives an index on `field` to file. The non-unique shape
/// takes nothing.
pub open spec fn field_key(index: Index, field: Seq<char>, document: DocumentView) -> Option<
    FieldKey,
> {
    match type_of(index) {
        Some(field_type) => typed_key(field_type, field, document),
        None => None,
    }
}

/// What a stored value gives an index on `field` to file.
pub open spec fn contribution(index: Index, field: Seq<char>, value: Seq<char>) -> Option<
    FieldKey,
> {
    field_key(index, field, json_document(value))
}

/// The entry that a record gives an index on `field`.
pub open spec fn entry_of(index: Index, field: Seq<char>, record: Record) -> Option<
    (FieldKey, Seq<char>),
> {
    match contribution(index, field, record.value@) {
        Some(fk) => Some((fk, record.key@)),
        None => None,
    }
}

/// The index holds one entry for each record that has something to file,
/// and no other entry.
pub open spec fn consistent(index: Index, field: Seq<char>, data: Seq<Record>) -> bool {
    &&& forall|r: int|
        0 <= r < data.len() && entry_of(index, field, #[trigger] data[r]) is Some
            ==> index.entries().contains(entry_of(index, field, data[r])->Some_0)
    &&& forall|e: int|
        0 <= e < index.entries().len() ==> has_source(
            index,
            field,
            data,
            #[trigger] index.entries()[e],
        )
}

/// Some record gives the index this entry.
pub open spec fn has_source(
    index: Index,
    field: Seq<char>,
    data: Seq<Record>,
    entry: (FieldKey, Seq<char>),
) -> bool {
    exists|r: int| 0 <= r < data.len() && entry_of(index, field, #[trigger] data[r]) == Some(entry)
}

/// The entries of the index once the record is filed.
pub open spec fn entries_with(index: Index, field: Seq<char>, key: Seq<char>, value: Seq<char>) -> Seq<
    (FieldKey, Seq<char>),
> {
    match contribution(index, field, value) {
        Some(fk) => added(index.entries(), fk, key),
        None => index.entries(),
    }
}

/// The entries of the index without what the value had filed.
pub open spec fn entries_without(index: Index, field: Seq<char>, value: Seq<char>) -> Seq<
    (FieldKey, Seq<char>),
> {
    match contribution(index, field, value) {
        Some(fk) => removed(index.entries(), fk),
        None => index.entries(),
    }
}

/// The entries of the index once the value under `key` gives way to a new
/// one: what the old value had filed leaves, what the new one files comes.
pub open spec fn entries_replaced(
    index: Index,
    field: Seq<char>,
    key: Seq<char>,
    old_value: Seq<char>,
    new_value: Seq<char>,
) -> Seq<(FieldKey, Seq<char>)> {
    let rest = entries_without(index, field, old_value);
    match contribution(index, field, new_value) {
        Some(fk) => added(rest, fk, key),
        None => rest,
    }
}

/// Whether the new value would give the index a second entry for a field
/// value, once what the old value had filed is gone.
pub open spec fn clash_on_update(
    index: Index,
    field: Seq<char>,
    old_value: Seq<char>,
    new_value: Seq<char>,
) -> bool {
    match contribution(index, field, new_value) {
        Some(fk) => index.contains_value(fk) && contribution(index, field, old_value) != Some(fk),
        None => false,
    }
}

/// Whether filing the value would give the index a second entry for a
/// field value.
pub open spec fn clash(index: Index, field: Seq<char>, value: Seq<char>) -> bool {
    match contribution(index, field, value) {
        Some(fk) => index.contains_value(fk),
        None => false,
    }
}

/// The storage `after` is `before` with one more record, filed in every
/// index that the record has something for.
pub open spec fn inserted(before: Storage, after: Storage, key: Seq<char>, value: Seq<char>) -> bool {
    &&& after.name == before.name
    &&& after.data@.len() == before.data@.len() + 1
    &&& after.data@.drop_last() == before.data@
    &&& after.data@.last().key@ == key
    &&& after.data@.last().value@ == value
    &&& after.indexes.list@.len() == before.indexes.list@.len()
    &&& forall|i: int|
        0 <= i < before.indexes.list@.len() ==> {
            &&& (#[trigger] after.indexes.list@[i]).name == before.indexes.list@[i].name
            &&& after.indexes.list@[i].index.same_shape(before.indexes.list@[i].index)
            &&& after.indexes.list@[i].index.entries() == entries_with(
                before.indexes.list@[i].index,
                before.indexes.list@[i].name@,
                key,
                value,
            )
        }
}

/// What an insert into a storage does, and what it answers.
pub open spec fn insert_outcome(
    before: Storage,
    after: Storage,
    key: Seq<char>,
    value: Seq<char>,
    result: Result<(), Error>,
) -> bool {
    if before.position(key) is Some {
        &&& result is Err
        &&& result->Err_0 is KeyAlreadyExists
        &&& after == before
    } else if before.clashes(value) {
        &&& result is Err
        &&& result->Err_0 is IndexError
        &&& after == before
    } else {
        &&& result is Ok
        &&& inserted(before, after, key, value)
    }
}

/// The storage `after` is `before` without the record at `at`, taken out of
/// every index that it had something in.
pub open spec fn deleted(before: Storage, after: Storage, at: int) -> bool {
    &&& after.name == before.name
    &&& after.data@ == before.data@.remove(at)
    &&& after.indexes.list@.len() == before.indexes.list@.len()
    &&& forall|i: int|
        0 <= i < before.indexes.list@.len() ==> {
            &&& (#[trigger] after.indexes.list@[i]).name == before.indexes.list@[i].name
            &&& after.indexes.list@[i].index.same_shape(before.indexes.list@[i].index)
            &&& after.indexes.list@[i].index.entries() == entries_without(
                before.indexes.list@[i].index,
                before.indexes.list@[i].name@,
                before.data@[at].value@,
            )
        }
}

/// What a delete from a storage does, and what it answers.
pub open spec fn delete_outcome(
    before: Storage,
    after: Storage,
    key: Seq<char>,
    result: Result<(), Error>,
) -> bool {
    match before.position(key) {
        None => {
            &&& result is Err
            &&& result->Err_0 is KeyNotFound
            &&& after == before
        },
        Some(at) => {
            &&& result is Ok
            &&& deleted(before, after, at)
        },
    }
}

/// The storage `after` is `before` with a new value in the record at `at`,
/// and every index holds for that record what the new value files.
pub open spec fn updated(before: Storage, after: Storage, at: int, new_value: Seq<char>) -> bool {
    &&& after.name == before.name
    &&& after.data@.len() == before.data@.len()
    &&& forall|r: int|
        0 <= r < before.data@.len() && r != at ==> (#[trigger] after.data@[r]) == before.data@[r]
    &&& after.data@[at].key == before.data@[at].key
    &&& after.data@[at].value@ == new_value
    &&& after.indexes.list@.len() == before.indexes.list@.len()
    &&& forall|i: int|
        0 <= i < before.indexes.list@.len() ==> {
            &&& (#[trigger] after.indexes.list@[i]).name == before.indexes.list@[i].name
            &&& after.indexes.list@[i].index.same_shape(before.indexes.list@[i].index)
            &&& after.indexes.list@[i].index.entries() == entries_replaced(
                before.indexes.list@[i].index,
                before.indexes.list@[i].name@,
                before.data@[at].key@,
                before.data@[at].value@,
                new_value,
            )
        }
}

/// What an update of a storage does, and what it answers.
pub open spec fn update_outcome(
    before: Storage,
    after: Storage,
    key: Seq<char>,
    new_value: Seq<char>,
    result: Result<(), Error>,
) -> bool {
    match before.position(key) {
        None => {
            &&& result is Err
            &&& result->Err_0 is KeyNotFound
            &&& after == before
        },
        Some(at) => if before.clashes_on_update(at, new_value) {
            &&& result is Err
            &&& result->Err_0 is IndexError
            &&& after == before
        } else {
            &&& result is Ok
            &&& updated(before, after, at, new_value)
        },
    }
}

/// The entries of a fresh unique index of the type on `field` once it has
/// taken the records in their order, or `None` where two records hold the
/// same field value.
pub open spec fn backfilled(field_type: FieldType, field: Seq<char>, data: Seq<Record>) -> Option<
    Seq<(FieldKey, Seq<char>)>,
>
    decreases data.len(),
{
    if data.len() == 0 {
        Some(Seq::empty())
    } else {
        match backfilled(field_type, field, data.drop_last()) {
            None => None,
            Some(entries) => match typed_key(
                field_type,
                field,
                json_document(data.last().value@),
            ) {
                None => Some(entries),
                Some(fk) => if values_of(entries).contains(fk) {
                    None
                } else {
                    Some(added(entries, fk, data.last().key@))
                },
            },
        }
    }
}

/// The indexes `after` are `before` with a unique index of the type bound
/// to the field: in the place of the index that the field had, or last.
pub open spec fn installed(
    before: IndexList,
    after: IndexList,
    field_name: Seq<char>,
    field_type: FieldType,
    entries: Seq<(FieldKey, Seq<char>)>,
) -> bool {
    let at = match before.position(field_name) {
        Some(p) => p,
        None => before.list@.len() as int,
    };
    &&& after.list@.len() == if before.position(field_name) is Some {
        before.list@.len()
    } else {
        before.list@.len() + 1
    }
    &&& forall|i: int|
        0 <= i < before.list@.len() && i != at ==> (#[trigger] after.list@[i]) == before.list@[i]
    &&& after.list@[at].name@ == field_name
    &&& type_of(after.list@[at].index) == Some(field_type)
    &&& after.list@[at].index.entries() == entries
}

/// What the creation of an index on a storage does, and what it answers.
pub open spec fn create_index_outcome(
    before: Storage,
    after: Storage,
    field_name: Seq<char>,
    field_type: FieldType,
    unique: bool,
    result: Result<(), Error>,
) -> bool {
    if !unique {
        &&& result is Err
        &&& result->Err_0 is IndexError
        &&& result->Err_0.message() == "Non unique indexes are not supported"@
        &&& after == before
    } else {
        match backfilled(field_type, field_name, before.data@) {
            None => {
                &&& result is Err
                &&& result->Err_0 is IndexError
                &&& after == before
            },
            Some(entries) => {
                &&& result is Ok
                &&& after.name == before.name
                &&& after.data == before.data
                &&& installed(before.indexes, after.indexes, field_name, field_type, entries)
            },
        }
    }
}

/// The value stored under the key, if the key is bound.
pub open spec fn value_of(data: Seq<Record>, key: Seq<char>) -> Option<Seq<char>> {
    match record_keys(data).index_of_first(key) {
        Some(r) => Some(data[r].value@),
        None => None,
    }
}

/// The values stored under those of the keys that are bound, in the order
/// of the keys.
pub open spec fn values_of_keys(data: Seq<Record>, keys: Seq<Seq<char>>) -> Seq<Seq<char>>
    decreases keys.len(),
{
    if keys.len() == 0 {
        Seq::empty()
    } else {
        let rest = values_of_keys(data, keys.drop_last());
        match value_of(data, keys.last()) {
            Some(value) => rest.push(value),
            None => rest,
        }
    }
}

/// The keys of the entries of a unique string index whose field value
/// satisfies the predicate, in the order of the entries.
pub open spec fn matching_keys(
    entries: Seq<(FieldKey, Seq<char>)>,
    field: Seq<char>,
    predicate: PredicateView,
) -> Seq<Seq<char>>
    decreases entries.len(),
{
    if entries.len() == 0 {
        Seq::empty()
    } else {
        let rest = matching_keys(entries.drop_last(), field, predicate);
        match entries.last().0 {
            FieldKey::Text(value) => if holds_of_field(predicate, field, value) {
                rest.push(entries.last().1)
            } else {
                rest
            },
            FieldKey::Number(_) => rest,
        }
    }
}

/// The keys of the groups of a non-unique index whose field value
/// satisfies the predicate, group after group.
pub open spec fn matching_group_keys(
    groups: Seq<(Seq<char>, Seq<Seq<char>>)>,
    field: Seq<char>,
    predicate: PredicateView,
) -> Seq<Seq<char>>
    decreases groups.len(),
{
    if groups.len() == 0 {
        Seq::empty()
    } else {
        let rest = matching_group_keys(groups.drop_last(), field, predicate);
        if holds_of_field(predicate, field, groups.last().0) {
            rest + groups.last().1
        } else {
            rest
        }
    }
}

/// The keys that a search of a string index on `field` finds: those filed
/// under a field value that satisfies the predicate, in the order of the
/// index. The ordered index files no strings.
pub open spec fn index_keys(index: Index, field: Seq<char>, predicate: PredicateView) -> Seq<
    Seq<char>,
> {
    match index {
        Index::HashUnique(_) => matching_keys(index.entries(), field, predicate),
        Index::Hash(_) => matching_group_keys(index.groups(), field, predicate),
        Index::BTreeUnique(_) => Seq::empty(),
    }
}

/// What a search of a string index on `field` finds in the records: the
/// values of the records whose keys the index files under a field value
/// that satisfies the predicate, in the order of the index.
pub open spec fn index_search(
    data: Seq<Record>,
    index: Index,
    field: Seq<char>,
    predicate: PredicateView,
) -> Seq<Seq<char>> {
    values_of_keys(data, index_keys(index, field, predicate))
}

/// What an insert into a storage of a database does, and what it answers.
pub open spec fn insert_relation(
    before: Database,
    after: Database,
    storage_name: Seq<char>,
    key: Seq<char>,
    value: Seq<char>,
    result: Result<(), Error>,
) -> bool {
    match before.position(storage_name) {
        None => {
            &&& result is Err
            &&& result->Err_0 is StorageError
            &&& after == before
        },
        Some(at) => {
            &&& only_changed(before.storages@, after.storages@, at)
            &&& insert_outcome(before.storages@[at], after.storages@[at], key, value, result)
        },
    }
}

/// What the creation of a storage does, and what it answers.
pub open spec fn create_storage_relation(
    before: Database,
    after: Database,
    name: Seq<char>,
    result: Result<(), Error>,
) -> bool {
    match before.position(name) {
        Some(_) => {
            &&& result is Err
            &&& result->Err_0 is StorageError
            &&& after == before
        },
        None => {
            &&& result is Ok
            &&& after.storages@.len() == before.storages@.len() + 1
            &&& after.storages@.drop_last() == before.storages@
            &&& after.storages@.last().name@ == name
            &&& after.storages@.last().data@.len() == 0
            &&& after.storages@.last().indexes.list@.len() == 0
        },
    }
}

/// What the deletion of a storage does, and what it answers.
pub open spec fn delete_storage_relation(
    before: Database,
    after: Database,
    name: Seq<char>,
    result: Result<(), Error>,
) -> bool {
    &&& result is Ok
    &&& after.storages@ == match before.position(name) {
        Some(at) => before.storages@.remove(at),
        None => before.storages@,
    }
}

/// Of the storages, at most the one at `at` has changed.
pub open spec fn only_changed(before: Seq<Storage>, after: Seq<Storage>, at: int) -> bool {
    &&& after.len() == before.len()
    &&& forall|j: int| 0 <= j < before.len() && j != at ==> (#[trigger] after[j]) == before[j]
}

impl Storage {
    /// The invariant of a storage: keys are unique, every index is a valid
    /// unique index, and every index is in step with the records.
    pub open spec fn wf(self) -> bool {
        &&& record_keys(self.data@).no_duplicates()
        &&& self.indexes.wf()
        &&& forall|i: int|
            0 <= i < self.indexes.list@.len() ==> {
                &&& (#[trigger] self.indexes.list@[i]).index.wf()
                &&& self.indexes.list@[i].index.is_unique()
                &&& consistent(
                    self.indexes.list@[i].index,
                    self.indexes.list@[i].name@,
                    self.data@,
                )
            }
    }

    /// Where the record under the key stands, if there is one.
    pub open spec fn position(self, key: Seq<char>) -> Option<int> {
        record_keys(self.data@).index_of_first(key)
    }

    /// Where the record under the key stands.
    pub fn find(&self, key: &String) -> (found: Option<usize>)
        ensures
            match found {
                Some(at) => self.position(key@) == Some(at as int) && at < self.data@.len()
                    && self.data@[at as int].key@ == key@,
                None => self.position(key@) is None && !record_keys(self.data@).contains(key@),
            },
    {
        let mut i: usize = 0;
        while i < self.data.len()
            invariant
                i <= self.data.len(),
                forall|k: int| 0 <= k < i ==> record_keys(self.data@)[k] != key@,
            decreases self.data.len() - i,
        {
            if self.data[i].key == *key {
                proof {
                    record_keys(self.data@).index_of_first_ensures(key@);
                    assert(record_keys(self.data@)[i as int] == key@);
                }
                return Some(i);
            }
            i += 1;
        }
        proof {
            record_keys(self.data@).index_of_first_ensures(key@);
        }
        None
    }

    /// Whether some index of the storage already holds a field value that
    /// the value would file.
    pub open spec fn clashes(self, value: Seq<char>) -> bool {
        exists|i: int|
            0 <= i < self.indexes.list@.len() && clash(
                (#[trigger] self.indexes.list@[i]).index,
                self.indexes.list@[i].name@,
                value,
            )
    }

    /// Tests whether some index already holds a field value of the
    /// document.
    pub fn check_unique(&self, document: &Document, value: &String) -> (clashing: bool)
        requires
            self.wf(),
            document@ == json_document(value@),
            document@.names_distinct(),
        ensures
            clashing == self.clashes(value@),
    {
        let mut i: usize = 0;
        while i < self.indexes.list.len()
            invariant
                i <= self.indexes.list.len(),
                self.wf(),
                document@ == json_document(value@),
                document@.names_distinct(),
                forall|k: int|
                    0 <= k < i ==> !clash(
                        (#[trigger] self.indexes.list@[k]).index,
                        self.indexes.list@[k].name@,
                        value@,
                    ),
            decreases self.indexes.list.len() - i,
        {
            let entry = &self.indexes.list[i];
            match candidate(&entry.index, &entry.name, document) {
                Some(content) => {
                    if entry.index.holds(&content) {
                        return true;
                    }
                },
                None => {},
            }
            i += 1;
        }
        false
    }

    /// Files the record in every index that it has something for.
    fn file_record(&mut self, document: &Document, key: &Key, value: &String)
        requires
            old(self).wf(),
            document@ == json_document(value@),
            document@.names_distinct(),
            !old(self).clashes(value@),
        ensures
            final(self).name == old(self).name,
            final(self).data == old(self).data,
            final(self).indexes.list@.len() == old(self).indexes.list@.len(),
            forall|i: int|
                0 <= i < old(self).indexes.list@.len() ==> {
                    &&& (#[trigger] final(self).indexes.list@[i]).name == old(
                        self,
                    ).indexes.list@[i].name
                    &&& final(self).indexes.list@[i].index.same_shape(
                        old(self).indexes.list@[i].index,
                    )
                    &&& final(self).indexes.list@[i].index.wf()
                    &&& final(self).indexes.list@[i].index.entries() == entries_with(
                        old(self).indexes.list@[i].index,
                        old(self).indexes.list@[i].name@,
                        key@,
                        value@,
                    )
                },
    {
        let mut i: usize = 0;
        while i < self.indexes.list.len()
            invariant
                i <= self.indexes.list.len(),
                old(self).wf(),
                document@ == json_document(value@),
                document@.names_distinct(),
                !old(self).clashes(value@),
                self.name == old(self).name,
                self.data == old(self).data,
                self.indexes.list@.len() == old(self).indexes.list@.len(),
                forall|k: int|
                    i <= k < self.indexes.list@.len() ==> (#[trigger] self.indexes.list@[k])
                        == old(self).indexes.list@[k],
                forall|k: int|
                    0 <= k < i ==> {
                        &&& (#[trigger] self.indexes.list@[k]).name == old(
                            self,
                        ).indexes.list@[k].name
                        &&& self.indexes.list@[k].index.same_shape(old(self).indexes.list@[k].index)
                        &&& self.indexes.list@[k].index.wf()
                        &&& self.indexes.list@[k].index.entries() == entries_with(
                            old(self).indexes.list@[k].index,
                            old(self).indexes.list@[k].name@,
                            key@,
                            value@,
                        )
                    },
            decreases self.indexes.list.len() - i,
        {
            proof {
                assert(self.indexes.list@[i as int] == old(self).indexes.list@[i as int]);
                assert(!clash(
                    old(self).indexes.list@[i as int].index,
                    old(self).indexes.list@[i as int].name@,
                    value@,
                ));
            }
            let found = candidate(&self.indexes.list[i].index, &self.indexes.list[i].name, document);
            match found {
                Some(content) => {
                    self.indexes.list[i].index.file(key.clone(), content);
                },
                None => {},
            }
            i += 1;
        }
    }

    /// Stores the value under a new key.
    ///
    /// Fails with `KeyAlreadyExists` where the key is bound, and with
    /// `IndexError` where the value holds, under an indexed field, a field
    /// value that the index already has. A failed call changes nothing.
    pub fn insert(&mut self, key: Key, value: String) -> (result: Result<(), Error>)
        requires
            old(self).wf(),
        ensures
            final(self).wf(),
            insert_outcome(*old(self), *final(self), key@, value@, result),
    {
        if self.find(&key).is_some() {
            return Err(
                Error::KeyAlreadyExists(
                    join5(
                        "Key '",
                        key.as_str(),
                        "' already exists in storage '",
                        self.name.as_str(),
                        "'",
                    ),
                ),
            );
        }
        let document = parse_document(value.as_str());
        if self.check_unique(&document, &value) {
            return Err(
                Error::IndexError(
                    join3("Unique constraint violation: a field of '", key.as_str(), "' already exists"),
                ),
            );
        }
        self.file_record(&document, &key, &value);
        let ghost filed = *self;
        self.data.push(Record { key, value });
        proof {
            let record = Record { key, value };
            assert(self.data@.drop_last() =~= old(self).data@);
            assert(self.data@.last() == record);
            assert(record_keys(self.data@) =~= record_keys(old(self).data@).push(key@));
            assert(index_names(self.indexes.list@) =~= index_names(old(self).indexes.list@));
            assert forall|i: int| 0 <= i < self.indexes.list@.len() implies consistent(
                (#[trigger] self.indexes.list@[i]).index,
                self.indexes.list@[i].name@,
                self.data@,
            ) by {
                assert(old(self).indexes.list@[i].index.wf());
                lemma_consistent_after_insert(
                    old(self).indexes.list@[i].index,
                    self.indexes.list@[i].index,
                    self.indexes.list@[i].name@,
                    old(self).data@,
                    record,
                );
            }
        }
        Ok(())
    }

    /// Whether some index of the storage holds, for another record, a field
    /// value that the new value of the record at `at` would file.
    pub open spec fn clashes_on_update(self, at: int, new_value: Seq<char>) -> bool {
        exists|i: int|
            0 <= i < self.indexes.list@.len() && clash_on_update(
                (#[trigger] self.indexes.list@[i]).index,
                self.indexes.list@[i].name@,
                self.data@[at].value@,
                new_value,
            )
    }

    /// Takes out of every index what the value had filed.
    fn unfile_record(&mut self, document: &Document, value: &String)
        requires
            old(self).wf(),
            document@ == json_document(value@),
            document@.names_distinct(),
        ensures
            final(self).name == old(self).name,
            final(self).data == old(self).data,
            final(self).indexes.list@.len() == old(self).indexes.list@.len(),
            forall|i: int|
                0 <= i < old(self).indexes.list@.len() ==> {
                    &&& (#[trigger] final(self).indexes.list@[i]).name == old(
                        self,
                    ).indexes.list@[i].name
                    &&& final(self).indexes.list@[i].index.same_shape(
                        old(self).indexes.list@[i].index,
                    )
                    &&& final(self).indexes.list@[i].index.wf()
                    &&& final(self).indexes.list@[i].index.entries() == entries_without(
                        old(self).indexes.list@[i].index,
                        old(self).indexes.list@[i].name@,
                        value@,
                    )
                },
    {
        let mut i: usize = 0;
        while i < self.indexes.list.len()
            invariant
                i <= self.indexes.list.len(),
                old(self).wf(),
                document@ == json_document(value@),
                document@.names_distinct(),
                self.name == old(self).name,
                self.data == old(self).data,
                self.indexes.list@.len() == old(self).indexes.list@.len(),
                forall|k: int|
                    i <= k < self.indexes.list@.len() ==> (#[trigger] self.indexes.list@[k])
                        == old(self).indexes.list@[k],
                forall|k: int|
                    0 <= k < i ==> {
                        &&& (#[trigger] self.indexes.list@[k]).name == old(
                            self,
                        ).indexes.list@[k].name
                        &&& self.indexes.list@[k].index.same_shape(old(self).indexes.list@[k].index)
                        &&& self.indexes.list@[k].index.wf()
                        &&& self.indexes.list@[k].index.entries() == entries_without(
                            old(self).indexes.list@[k].index,
                            old(self).indexes.list@[k].name@,
                            value@,
                        )
                    },
            decreases self.indexes.list.len() - i,
        {
            proof {
                assert(self.indexes.list@[i as int] == old(self).indexes.list@[i as int]);
            }
            let found = candidate(&self.indexes.list[i].index, &self.indexes.list[i].name, document);
            match found {
                Some(content) => {
                    self.indexes.list[i].index.unfile(&content);
                },
                None => {},
            }
            i += 1;
        }
    }

    /// Removes the record under the key, and what it had filed in the
    /// indexes. Fails with `KeyNotFound`, changing nothing, where the key is
    /// not bound.
    pub fn delete(&mut self, key: Key) -> (result: Result<(), Error>)
        requires
            old(self).wf(),
        ensures
            final(self).wf(),
            delete_outcome(*old(self), *final(self), key@, result),
    {
        let at = match self.find(&key) {
            Some(at) => at,
            None => {
                return Err(
                    Error::KeyNotFound(
                        join5(
                            "Key '",
                            key.as_str(),
                            "' not found in storage '",
                            self.name.as_str(),
                            "'",
                        ),
                    ),
                );
            },
        };
        let document = parse_document(self.data[at].value.as_str());
        let value = self.data[at].value.clone();
        self.unfile_record(&document, &value);
        self.data.remove(at);
        proof {
            assert(record_keys(self.data@) =~= record_keys(old(self).data@).remove(at as int));
            lemma_remove_keeps_distinct(record_keys(old(self).data@), at as int);
            assert(index_names(self.indexes.list@) =~= index_names(old(self).indexes.list@));
            assert forall|i: int| 0 <= i < self.indexes.list@.len() implies consistent(
                (#[trigger] self.indexes.list@[i]).index,
                self.indexes.list@[i].name@,
                self.data@,
            ) by {
                assert(old(self).indexes.list@[i].index.wf());
                lemma_consistent_after_delete(
                    old(self).indexes.list@[i].index,
                    self.indexes.list@[i].index,
                    self.indexes.list@[i].name@,
                    old(self).data@,
                    at as int,
                );
            }
        }
        Ok(())
    }

    /// Tests whether some index holds, for another record, a field value
    /// that the new value of the record at `at` would file.
    pub fn check_unique_on_update(
        &self,
        at: usize,
        old_document: &Document,
        new_document: &Document,
        new_value: &String,
    ) -> (clashing: bool)
        requires
            self.wf(),
            at < self.data@.len(),
            old_document@ == json_document(self.data@[at as int].value@),
            old_document@.names_distinct(),
            new_document@ == json_document(new_value@),
            new_document@.names_distinct(),
        ensures
            clashing == self.clashes_on_update(at as int, new_value@),
    {
        let mut i: usize = 0;
        while i < self.indexes.list.len()
            invariant
                i <= self.indexes.list.len(),
                self.wf(),
                at < self.data@.len(),
                old_document@ == json_document(self.data@[at as int].value@),
                old_document@.names_distinct(),
                new_document@ == json_document(new_value@),
                new_document@.names_distinct(),
                forall|k: int|
                    0 <= k < i ==> !clash_on_update(
                        (#[trigger] self.indexes.list@[k]).index,
                        self.indexes.list@[k].name@,
                        self.data@[at as int].value@,
                        new_value@,
                    ),
            decreases self.indexes.list.len() - i,
        {
            let entry = &self.indexes.list[i];
            match candidate(&entry.index, &entry.name, new_document) {
                Some(content) => {
                    if entry.index.holds(&content) {
                        let same = match candidate(&entry.index, &entry.name, old_document) {
                            Some(FieldContent::Text(was)) => match &content {
                                FieldContent::Text(now) => was == *now,
                                FieldContent::Number(_) => false,
                            },
                            Some(FieldContent::Number(was)) => match &content {
                                FieldContent::Text(_) => false,
                                FieldContent::Number(now) => was == *now,
                            },
                            None => false,
                        };
                        if !same {
                            return true;
                        }
                    }
                },
                None => {},
            }
            i += 1;
        }
        false
    }

    /// Swaps in every index what the old value had filed for what the new
    /// one files.
    fn refile_record(
        &mut self,
        at: usize,
        old_document: &Document,
        new_document: &Document,
        new_value: &String,
    )
        requires
            old(self).wf(),
            at < old(self).data@.len(),
            old_document@ == json_document(old(self).data@[at as int].value@),
            old_document@.names_distinct(),
            new_document@ == json_document(new_value@),
            new_document@.names_distinct(),
            !old(self).clashes_on_update(at as int, new_value@),
        ensures
            final(self).name == old(self).name,
            final(self).data == old(self).data,
            final(self).indexes.list@.len() == old(self).indexes.list@.len(),
            forall|i: int|
                0 <= i < old(self).indexes.list@.len() ==> {
                    &&& (#[trigger] final(self).indexes.list@[i]).name == old(
                        self,
                    ).indexes.list@[i].name
                    &&& final(self).indexes.list@[i].index.same_shape(
                        old(self).indexes.list@[i].index,
                    )
                    &&& final(self).indexes.list@[i].index.wf()
                    &&& final(self).indexes.list@[i].index.entries() == entries_replaced(
                        old(self).indexes.list@[i].index,
                        old(self).indexes.list@[i].name@,
                        old(self).data@[at as int].key@,
                        old(self).data@[at as int].value@,
                        new_value@,
                    )
                },
    {
        let mut i: usize = 0;
        while i < self.indexes.list.len()
            invariant
                i <= self.indexes.list.len(),
                old(self).wf(),
                at < old(self).data@.len(),
                old_document@ == json_document(old(self).data@[at as int].value@),
                old_document@.names_distinct(),
                new_document@ == json_document(new_value@),
                new_document@.names_distinct(),
                !old(self).clashes_on_update(at as int, new_value@),
                self.name == old(self).name,
                self.data == old(self).data,
                self.indexes.list@.len() == old(self).indexes.list@.len(),
                forall|k: int|
                    i <= k < self.indexes.list@.len() ==> (#[trigger] self.indexes.list@[k])
                        == old(self).indexes.list@[k],
                forall|k: int|
                    0 <= k < i ==> {
                        &&& (#[trigger] self.indexes.list@[k]).name == old(
                            self,
                        ).indexes.list@[k].name
                        &&& self.indexes.list@[k].index.same_shape(old(self).indexes.list@[k].index)
                        &&& self.indexes.list@[k].index.wf()
                        &&& self.indexes.list@[k].index.entries() == entries_replaced(
                            old(self).indexes.list@[k].index,
                            old(self).indexes.list@[k].name@,
                            old(self).data@[at as int].key@,
                            old(self).data@[at as int].value@,
                            new_value@,
                        )
                    },
            decreases self.indexes.list.len() - i,
        {
            let ghost before = old(self).indexes.list@[i as int];
            proof {
                assert(self.indexes.list@[i as int] == before);
                assert(before.index.wf());
                assert(!clash_on_update(
                    before.index,
                    before.name@,
                    old(self).data@[at as int].value@,
                    new_value@,
                ));
            }
            let gone = candidate(&self.indexes.list[i].index, &self.indexes.list[i].name, old_document);
            let come = candidate(&self.indexes.list[i].index, &self.indexes.list[i].name, new_document);
            match gone {
                Some(content) => {
                    self.indexes.list[i].index.unfile(&content);
                },
                None => {},
            }
            match come {
                Some(content) => {
                    proof {
                        lemma_free_after_unfile(
                            before.index,
                            self.indexes.list@[i as int].index,
                            contribution(
                                before.index,
                                before.name@,
                                old(self).data@[at as int].value@,
                            ),
                            content.key(),
                        );
                    }
                    let key = self.data[at].key.clone();
                    self.indexes.list[i].index.file(key, content);
                },
                None => {},
            }
            i += 1;
        }
    }

    /// Replaces the value under a bound key.
    ///
    /// Fails with `KeyNotFound` where the key is not bound, and with
    /// `IndexError` where the new value holds, under an indexed field, a
    /// field value that the index has for another record. A failed call
    /// changes nothing.
    pub fn update(&mut self, key: Key, new_value: String) -> (result: Result<(), Error>)
        requires
            old(self).wf(),
        ensures
            final(self).wf(),
            update_outcome(*old(self), *final(self), key@, new_value@, result),
    {
        let at = match self.find(&key) {
            Some(at) => at,
            None => {
                return Err(
                    Error::KeyNotFound(
                        join5(
                            "Key '",
                            key.as_str(),
                            "' not found in storage '",
                            self.name.as_str(),
                            "'",
                        ),
                    ),
                );
            },
        };
        let old_document = parse_document(self.data[at].value.as_str());
        let new_document = parse_document(new_value.as_str());
        if self.check_unique_on_update(at, &old_document, &new_document, &new_value) {
            return Err(
                Error::IndexError(
                    join3("Unique constraint violation: a field of '", key.as_str(), "' already exists"),
                ),
            );
        }
        self.refile_record(at, &old_document, &new_document, &new_value);
        let ghost record = Record { key: old(self).data@[at as int].key, value: new_value };
        self.data[at].value = new_value;
        proof {
            assert(self.data@ =~= old(self).data@.update(at as int, record));
            assert(record_keys(self.data@) =~= record_keys(old(self).data@));
            assert(index_names(self.indexes.list@) =~= index_names(old(self).indexes.list@));
            assert forall|i: int| 0 <= i < self.indexes.list@.len() implies consistent(
                (#[trigger] self.indexes.list@[i]).index,
                self.indexes.list@[i].name@,
                self.data@,
            ) by {
                assert(old(self).indexes.list@[i].index.wf());
                lemma_consistent_after_update(
                    old(self).indexes.list@[i].index,
                    self.indexes.list@[i].index,
                    self.indexes.list@[i].name@,
                    old(self).data@,
                    at as int,
                    record,
                );
            }
        }
        Ok(())
    }

    /// Builds a unique index of the type over the records, in their order.
    /// `None` where two records hold the same field value.
    pub fn build_index(&self, field_name: &String, field_type: FieldType) -> (built: Option<Index>)
        requires
            self.wf(),
        ensures
            match built {
                Some(index) => {
                    &&& backfilled(field_type, field_name@, self.data@) == Some(index.entries())
                    &&& type_of(index) == Some(field_type)
                    &&& index.wf()
                    &&& consistent(index, field_name@, self.data@)
                },
                None => backfilled(field_type, field_name@, self.data@) is None,
            },
    {
        let mut index = match field_type {
            FieldType::String => Index::new_unique_hashmap(),
            FieldType::Number => Index::new_unique_btreemap(),
        };
        let mut i: usize = 0;
        proof {
            assert(self.data@.take(0) =~= Seq::empty());
        }
        while i < self.data.len()
            invariant
                i <= self.data.len(),
                type_of(index) == Some(field_type),
                index.wf(),
                backfilled(field_type, field_name@, self.data@.take(i as int)) == Some(
                    index.entries(),
                ),
                consistent(index, field_name@, self.data@.take(i as int)),
            decreases self.data.len() - i,
        {
            let document = parse_document(self.data[i].value.as_str());
            let ghost before = index;
            proof {
                assert(self.data@.take(i + 1).drop_last() =~= self.data@.take(i as int));
                assert(self.data@.take(i + 1).last() == self.data@[i as int]);
                assert(self.data@.take(i + 1) =~= self.data@.take(i as int).push(
                    self.data@[i as int],
                ));
            }
            match candidate(&index, field_name, &document) {
                Some(content) => {
                    proof {
                        lemma_contains_value(index, content.key());
                    }
                    if index.holds(&content) {
                        proof {
                            lemma_backfill_fails_on(field_type, field_name@, self.data@, i + 1);
                        }
                        return None;
                    }
                    index.file(self.data[i].key.clone(), content);
                },
                None => {},
            }
            proof {
                lemma_consistent_after_insert(
                    before,
                    index,
                    field_name@,
                    self.data@.take(i as int),
                    self.data@[i as int],
                );
            }
            i += 1;
        }
        proof {
            assert(self.data@.take(i as int) =~= self.data@);
        }
        Some(index)
    }

    /// Binds a new unique index of the type to the field and fills it from
    /// the records. An index that the field had is replaced.
    ///
    /// Fails with `IndexError` where `unique` is not set, and where two
    /// records hold the same value under the field. A failed call changes
    /// nothing.
    pub fn create_index(&mut self, field_name: String, field_type: FieldType, unique: bool) -> (result:
        Result<(), Error>)
        requires
            old(self).wf(),
        ensures
            final(self).wf(),
            create_index_outcome(*old(self), *final(self), field_name@, field_type, unique, result),
    {
        if !unique {
            return Err(Error::IndexError(String::from_str("Non unique indexes are not supported")));
        }
        match self.build_index(&field_name, field_type) {
            Some(index) => {
                proof {
                    old(self).indexes.names().index_of_first_ensures(field_name@);
                }
                self.indexes.create_index(field_name, index);
                proof {
                    assert forall|i: int| 0 <= i < self.indexes.list@.len() implies {
                        &&& (#[trigger] self.indexes.list@[i]).index.wf()
                        &&& self.indexes.list@[i].index.is_unique()
                        &&& consistent(
                            self.indexes.list@[i].index,
                            self.indexes.list@[i].name@,
                            self.data@,
                        )
                    } by {
                        if i < old(self).indexes.list@.len() && self.indexes.list@[i] == old(
                            self,
                        ).indexes.list@[i] {
                            assert(old(self).indexes.list@[i].index.wf());
                        }
                    }
                }
                Ok(())
            },
            None => Err(
                Error::IndexError(
                    join3(
                        "Error creating index: field '",
                        field_name.as_str(),
                        "' holds a value twice",
                    ),
                ),
            ),
        }
    }

    /// The values of the records whose keys the keys name, in the order of
    /// the keys. A key that is not bound gives nothing.
    pub fn values_under(&self, keys: &Vec<Key>) -> (values: Vec<String>)
        ensures
            text_views(values@) == values_of_keys(self.data@, crate::index::key_views(keys@)),
    {
        let mut values: Vec<String> = Vec::new();
        let mut i: usize = 0;
        let ghost all = crate::index::key_views(keys@);
        proof {
            assert(all.take(0) =~= Seq::empty());
            assert(text_views(values@) =~= Seq::empty());
        }
        while i < keys.len()
            invariant
                i <= keys@.len(),
                all == crate::index::key_views(keys@),
                text_views(values@) == values_of_keys(self.data@, all.take(i as int)),
            decreases keys.len() - i,
        {
            proof {
                assert(all.take(i + 1).drop_last() =~= all.take(i as int));
                assert(all.take(i + 1).last() == keys@[i as int]@);
            }
            let ghost before = text_views(values@);
            match self.find(&keys[i]) {
                Some(r) => {
                    values.push(self.data[r].value.clone());
                    proof {
                        assert(text_views(values@) =~= before.push(self.data@[r as int].value@));
                    }
                },
                None => {},
            }
            i += 1;
        }
        proof {
            assert(all.take(i as int) =~= all);
        }
        values
    }

    /// The keys that a search of the string index on `field` finds.
    pub fn search_keys(index: &Index, field: &String, predicate: &Predicate) -> (keys: Vec<Key>)
        ensures
            crate::index::key_views(keys@) == index_keys(*index, field@, predicate@),
    {
        let mut keys: Vec<Key> = Vec::new();
        proof {
            assert(crate::index::key_views(keys@) =~= Seq::empty());
        }
        match index {
            Index::HashUnique(entries) => {
                let ghost all = index.entries();
                let mut i: usize = 0;
                proof {
                    assert(all.take(0) =~= Seq::empty());
                }
                while i < entries.len()
                    invariant
                        i <= entries@.len(),
                        all == index.entries(),
                        *index == Index::HashUnique(*entries),
                        crate::index::key_views(keys@) == matching_keys(
                            all.take(i as int),
                            field@,
                            predicate@,
                        ),
                    decreases entries.len() - i,
                {
                    proof {
                        assert(all.take(i + 1).drop_last() =~= all.take(i as int));
                        assert(all.take(i + 1).last() == all[i as int]);
                    }
                    let ghost before = crate::index::key_views(keys@);
                    if predicate.matches_field(field, &entries[i].value) {
                        keys.push(entries[i].key.clone());
                        proof {
                            assert(crate::index::key_views(keys@) =~= before.push(
                                entries@[i as int].key@,
                            ));
                        }
                    }
                    i += 1;
                }
                proof {
                    assert(all.take(i as int) =~= all);
                }
            },
            Index::Hash(groups) => {
                let ghost all = index.groups();
                let mut i: usize = 0;
                proof {
                    assert(all.take(0) =~= Seq::empty());
                }
                while i < groups.len()
                    invariant
                        i <= groups@.len(),
                        all == index.groups(),
                        *index == Index::Hash(*groups),
                        crate::index::key_views(keys@) == matching_group_keys(
                            all.take(i as int),
                            field@,
                            predicate@,
                        ),
                    decreases groups.len() - i,
                {
                    proof {
                        assert(all.take(i + 1).drop_last() =~= all.take(i as int));
                        assert(all.take(i + 1).last() == all[i as int]);
                    }
                    if predicate.matches_field(field, &groups[i].value) {
                        let ghost before = crate::index::key_views(keys@);
                        let mut k: usize = 0;
                        while k < groups[i].keys.len()
                            invariant
                                i < groups@.len(),
                                k <= groups@[i as int].keys@.len(),
                                crate::index::key_views(keys@) == before
                                    + crate::index::key_views(groups@[i as int].keys@).take(
                                    k as int,
                                ),
                            decreases groups@[i as int].keys@.len() - k,
                        {
                            let ghost so_far = crate::index::key_views(keys@);
                            keys.push(groups[i].keys[k].clone());
                            proof {
                                let group = crate::index::key_views(groups@[i as int].keys@);
                                assert(crate::index::key_views(keys@) =~= so_far.push(group[k as int]));
                                assert(group.take(k + 1) =~= group.take(k as int).push(
                                    group[k as int],
                                ));
                                assert(before + group.take(k + 1) =~= (before + group.take(
                                    k as int,
                                )).push(group[k as int]));
                            }
                            k += 1;
                        }
                        proof {
                            let group = crate::index::key_views(groups@[i as int].keys@);
                            assert(group.take(k as int) =~= group);
                        }
                    }
                    i += 1;
                }
                proof {
                    assert(all.take(i as int) =~= all);
                }
            },
            Index::BTreeUnique(_) => {},
        }
        keys
    }
}

/// What the document gives the index on `field` to file.
pub fn candidate(index: &Index, field: &String, document: &Document) -> (found: Option<
    FieldContent,
>)
    requires
        document@.names_distinct(),
    ensures
        match found {
            Some(content) => field_key(*index, field@, document@) == Some(content.key())
                && index.accepts(content.key()),
            None => field_key(*index, field@, document@) is None,
        },
{
    match document.find(field) {
        Some(member) => match index {
            Index::HashUnique(_) => match &member.text {
                Some(text) => Some(FieldContent::Text(text.clone())),
                None => None,
            },
            Index::BTreeUnique(_) => match member.integer {
                Some(number) => Some(FieldContent::Number(number)),
                None => None,
            },
            Index::Hash(_) => None,
        },
        None => None,
    }
}

impl Database {
    /// The invariant of a database: storage names are unique and every
    /// storage is valid.
    pub open spec fn wf(self) -> bool {
        &&& storage_names(self.storages@).no_duplicates()
        &&& forall|i: int| 0 <= i < self.storages@.len() ==> (#[trigger] self.storages@[i]).wf()
    }

    /// Where the storage of that name stands, if there is one.
    pub open spec fn position(self, name: Seq<char>) -> Option<int> {
        storage_names(self.storages@).index_of_first(name)
    }

    /// A database without storages.
    pub fn new() -> (database: Database)
        ensures
            database.storages@.len() == 0,
            database.wf(),
    {
        Database { storages: Vec::new() }
    }

    /// Where the storage of that name stands.
    pub fn find(&self, name: &String) -> (found: Option<usize>)
        ensures
            match found {
                Some(at) => self.position(name@) == Some(at as int) && at < self.storages@.len()
                    && self.storages@[at as int].name@ == name@,
                None => self.position(name@) is None && !storage_names(self.storages@).contains(
                    name@,
                ),
            },
    {
        let mut i: usize = 0;
        while i < self.storages.len()
            invariant
                i <= self.storages.len(),
                forall|k: int| 0 <= k < i ==> storage_names(self.storages@)[k] != name@,
            decreases self.storages.len() - i,
        {
            if self.storages[i].name == *name {
                proof {
                    storage_names(self.storages@).index_of_first_ensures(name@);
                    assert(storage_names(self.storages@)[i as int] == name@);
                }
                return Some(i);
            }
            i += 1;
        }
        proof {
            storage_names(self.storages@).index_of_first_ensures(name@);
        }
        None
    }

    /// Adds an empty storage under the name, after the others. Fails with
    /// `StorageError`, changing nothing, where the name is taken.
    pub fn create_storage(&mut self, name: String) -> (result: Result<(), Error>)
        requires
            old(self).wf(),
        ensures
            final(self).wf(),
            create_storage_relation(*old(self), *final(self), name@, result),
    {
        if self.find(&name).is_some() {
            return Err(
                Error::StorageError(
                    join3("Storage with name '", name.as_str(), "' already exists"),
                ),
            );
        }
        let ghost before = self.storages@;
        self.storages.push(Storage { name, data: Vec::new(), indexes: IndexList::new() });
        proof {
            assert(self.storages@.drop_last() =~= before);
            assert(storage_names(self.storages@) =~= storage_names(before).push(name@));
            assert(record_keys(self.storages@.last().data@) =~= Seq::empty());
        }
        Ok(())
    }

    /// The storage of that name, or `StorageError` where there is none.
    pub fn get_storage(&self, name: String) -> (result: Result<&Storage, Error>)
        ensures
            match self.position(name@) {
                Some(at) => result == Ok::<&Storage, Error>(&self.storages@[at]),
                None => result is Err && result->Err_0 is StorageError,
            },
    {
        match self.find(&name) {
            Some(at) => Ok(&self.storages[at]),
            None => Err(
                Error::StorageError(join3("Storage with name '", name.as_str(), "' not found")),
            ),
        }
    }

    /// Removes the storage of that name with all it holds. Where there is
    /// none, nothing happens. Never fails.
    pub fn delete_storage(&mut self, storage_name: String) -> (result: Result<(), Error>)
        requires
            old(self).wf(),
        ensures
            final(self).wf(),
            delete_storage_relation(*old(self), *final(self), storage_name@, result),
    {
        match self.find(&storage_name) {
            Some(at) => {
                let ghost before = self.storages@;
                self.storages.remove(at);
                proof {
                    assert(storage_names(self.storages@) =~= storage_names(before).remove(
                        at as int,
                    ));
                    crate::index::lemma_remove_keeps_distinct(storage_names(before), at as int);
                }
            },
            None => {},
        }
        Ok(())
    }

    /// Stores the value under a new key of the storage.
    ///
    /// Fails with `StorageError` where the storage is missing, with
    /// `KeyAlreadyExists` where the key is bound, and with `IndexError` where
    /// the value holds, under an indexed field, a field value that the index
    /// already has. A failed call changes nothing: neither the records nor
    /// any index.
    pub fn insert(&mut self, storage_name: String, key: String, value: String) -> (result: Result<
        (),
        Error,
    >)
        requires
            old(self).wf(),
        ensures
            final(self).wf(),
            insert_relation(*old(self), *final(self), storage_name@, key@, value@, result),
    {
        match self.find(&storage_name) {
            Some(at) => {
                let result = self.storages[at].insert(key, value);
                proof {
                    assert(storage_names(self.storages@) =~= storage_names(old(self).storages@));
                }
                result
            },
            None => Err(
                Error::StorageError(
                    join3("Storage with name '", storage_name.as_str(), "' not found"),
                ),
            ),
        }
    }

    /// Removes the record under the key from the storage, and what it had
    /// filed in the indexes.
    ///
    /// Fails with `StorageError` where the storage is missing and with
    /// `KeyNotFound` where the key is not bound. A failed call changes
    /// nothing.
    pub fn delete(&mut self, storage_name: String, key: String) -> (result: Result<(), Error>)
        requires
            old(self).wf(),
        ensures
            final(self).wf(),
            match old(self).position(storage_name@) {
                None => {
                    &&& result is Err
                    &&& result->Err_0 is StorageError
                    &&& *final(self) == *old(self)
                },
                Some(at) => {
                    &&& only_changed(old(self).storages@, final(self).storages@, at)
                    &&& delete_outcome(
                        old(self).storages@[at],
                        final(self).storages@[at],
                        key@,
                        result,
                    )
                },
            },
    {
        match self.find(&storage_name) {
            Some(at) => {
                let result = self.storages[at].delete(key);
                proof {
                    assert(storage_names(self.storages@) =~= storage_names(old(self).storages@));
                }
                result
            },
            None => Err(
                Error::StorageError(
                    join3("Storage with name '", storage_name.as_str(), "' not found"),
                ),
            ),
        }
    }

    /// Replaces the value under a bound key of the storage.
    ///
    /// What the old value had filed in the indexes leaves them, and what
    /// the new one files comes. Fails with `StorageError` where the storage
    /// is missing, with `KeyNotFound` where the key is not bound, and with
    /// `IndexError` where the new value holds, under an indexed field, a
    /// field value that the index has for another record. A failed call
    /// changes nothing.
    pub fn update(&mut self, storage_name: String, key: String, new_value: String) -> (result:
        Result<(), Error>)
        requires
            old(self).wf(),
        ensures
            final(self).wf(),
            match old(self).position(storage_name@) {
                None => {
                    &&& result is Err
                    &&& result->Err_0 is StorageError
                    &&& *final(self) == *old(self)
                },
                Some(at) => {
                    &&& only_changed(old(self).storages@, final(self).storages@, at)
                    &&& update_outcome(
                        old(self).storages@[at],
                        final(self).storages@[at],
                        key@,
                        new_value@,
                        result,
                    )
                },
            },
    {
        match self.find(&storage_name) {
            Some(at) => {
                let result = self.storages[at].update(key, new_value);
                proof {
                    assert(storage_names(self.storages@) =~= storage_names(old(self).storages@));
                }
                result
            },
            None => Err(
                Error::StorageError(
                    join3("Storage with name '", storage_name.as_str(), "' not found"),
                ),
            ),
        }
    }

    /// Binds a new unique index of the type to a field of the storage and
    /// fills it from the records.
    ///
    /// Fails with `StorageError` where the storage is missing, and with
    /// `IndexError` where `unique` is not set or two records hold the same
    /// value under the field. A failed call changes nothing.
    pub fn create_index(
        &mut self,
        storage_name: String,
        field_name: String,
        field_type: FieldType,
        unique: bool,
    ) -> (result: Result<(), Error>)
        requires
            old(self).wf(),
        ensures
            final(self).wf(),
            match old(self).position(storage_name@) {
                None => {
                    &&& result is Err
                    &&& result->Err_0 is StorageError
                    &&& *final(self) == *old(self)
                },
                Some(at) => {
                    &&& only_changed(old(self).storages@, final(self).storages@, at)
                    &&& create_index_outcome(
                        old(self).storages@[at],
                        final(self).storages@[at],
                        field_name@,
                        field_type,
                        unique,
                        result,
                    )
                },
            },
    {
        match self.find(&storage_name) {
            Some(at) => {
                let result = self.storages[at].create_index(field_name, field_type, unique);
                proof {
                    assert(storage_names(self.storages@) =~= storage_names(old(self).storages@));
                }
                result
            },
            None => Err(
                Error::StorageError(
                    join3("Storage with name '", storage_name.as_str(), "' not found"),
                ),
            ),
        }
    }

    /// Searches a string index of the storage: walks the index in its
    /// order, tests the predicate on each field value that the index holds
    /// under `field`, and gives the stored values of the keys filed under
    /// the values that pass. `StorageError` where the storage is missing.
    pub fn string_index_search(
        &self,
        storage_name: String,
        index: &Index,
        field: &String,
        predicate: &Predicate,
    ) -> (result: Result<Vec<String>, Error>)
        ensures
            match self.position(storage_name@) {
                Some(at) => result is Ok && text_views(result->Ok_0@) == index_search(
                    self.storages@[at].data@,
                    *index,
                    field@,
                    predicate@,
                ),
                None => result is Err && result->Err_0 is StorageError,
            },
    {
        match self.find(&storage_name) {
            Some(at) => {
                let keys = Storage::search_keys(index, field, predicate);
                Ok(self.storages[at].values_under(&keys))
            },
            None => Err(
                Error::StorageError(
                    join3("Storage with name '", storage_name.as_str(), "' not found"),
                ),
            ),
        }
    }

    /// The value stored under the key. `StorageError` where the storage is
    /// missing, `KeyNotFound` where the key is.
    pub fn get(&self, storage_name: String, key: String) -> (result: Result<String, Error>)
        ensures
            match self.position(storage_name@) {
                Some(at) => match value_of(self.storages@[at].data@, key@) {
                    Some(value) => result is Ok && result->Ok_0@ == value,
                    None => result is Err && result->Err_0 is KeyNotFound,
                },
                None => result is Err && result->Err_0 is StorageError,
            },
    {
        match self.find(&storage_name) {
            Some(at) => match self.storages[at].find(&key) {
                Some(r) => Ok(self.storages[at].data[r].value.clone()),
                None => Err(
                    Error::KeyNotFound(
                        join5(
                            "Key '",
                            key.as_str(),
                            "' not found in storage '",
                            storage_name.as_str(),
                            "'",
                        ),
                    ),
                ),
            },
            None => Err(
                Error::StorageError(
                    join3("Storage with name '", storage_name.as_str(), "' not found"),
                ),
            ),
        }
    }
}

/// An entry is among the entries with one more exactly if it was there or
/// is the new one.
pub proof fn lemma_added_contains(entries: Seq<(FieldKey, Seq<char>)>, value: FieldKey, key: Seq<char>)
    ensures
        added(entries, value, key).len() == entries.len() + 1,
        forall|x: (FieldKey, Seq<char>)|
            #[trigger] added(entries, value, key).contains(x) <==> (entries.contains(x) || x == (
                value,
                key,
            )),
{
    let after = added(entries, value, key);
    let place = match value {
        FieldKey::Text(_) => entries.len() as int,
        FieldKey::Number(n) => crate::index::rank(crate::index::entry_numbers(entries), n),
    };
    lemma_rank_bounds(crate::index::entry_numbers(entries), value->Number_0);
    assert(after =~= entries.insert(place, (value, key)));
    assert forall|x: (FieldKey, Seq<char>)|
        after.contains(x) <==> (entries.contains(x) || x == (value, key)) by {
        if after.contains(x) {
            let i = choose|i: int| 0 <= i < after.len() && after[i] == x;
            if i < place {
                assert(entries[i] == x);
            } else if i > place {
                assert(entries[i - 1] == x);
            }
        }
        if entries.contains(x) {
            let i = choose|i: int| 0 <= i < entries.len() && entries[i] == x;
            if i < place {
                assert(after[i] == x);
            } else {
                assert(after[i + 1] == x);
            }
        }
        if x == (value, key) {
            assert(after[place] == x);
        }
    }
}

/// A rank is a place in the sequence.
pub proof fn lemma_rank_bounds(numbers: Seq<int>, n: int)
    ensures
        0 <= crate::index::rank(numbers, n) <= numbers.len(),
    decreases numbers.len(),
{
    if numbers.len() > 0 {
        lemma_rank_bounds(numbers.drop_last(), n);
    }
}

/// Where no value stands twice, an entry is among the entries without a
/// value exactly if it was there and is of another value.
pub proof fn lemma_removed_contains(entries: Seq<(FieldKey, Seq<char>)>, value: FieldKey)
    requires
        values_of(entries).no_duplicates(),
    ensures
        forall|x: (FieldKey, Seq<char>)|
            #[trigger] removed(entries, value).contains(x) <==> (entries.contains(x) && x.0
                != value),
        values_of(removed(entries, value)).no_duplicates(),
{
    let vals = values_of(entries);
    vals.index_of_first_ensures(value);
    match vals.index_of_first(value) {
        Some(at) => {
            assert(values_of(entries.remove(at)) =~= vals.remove(at));
            lemma_remove_keeps_distinct(vals, at);
        },
        None => {},
    }
    assert forall|x: (FieldKey, Seq<char>)|
        #[trigger] removed(entries, value).contains(x) <==> (entries.contains(x) && x.0
            != value) by {
        lemma_removed_has(entries, value, x);
    }
}

/// Where no value stands twice, the entry `x` is among the entries without
/// a value exactly if it was there and is of another value.
pub proof fn lemma_removed_has(
    entries: Seq<(FieldKey, Seq<char>)>,
    value: FieldKey,
    x: (FieldKey, Seq<char>),
)
    requires
        values_of(entries).no_duplicates(),
    ensures
        removed(entries, value).contains(x) <==> (entries.contains(x) && x.0 != value),
{
    let vals = values_of(entries);
    let after = removed(entries, value);
    vals.index_of_first_ensures(value);
    match vals.index_of_first(value) {
        Some(at) => {
            assert(after == entries.remove(at));
            assert(after.len() == entries.len() - 1);
            assert(vals[at] == value);
            if after.contains(x) {
                let i = choose|i: int| 0 <= i < after.len() && after[i] == x;
                let j = if i < at {
                    i
                } else {
                    i + 1
                };
                assert(entries[j] == x);
                assert(vals[j] == x.0);
                assert(j != at);
                assert(vals[j] != vals[at]);
            }
            if entries.contains(x) && x.0 != value {
                let j = choose|j: int| 0 <= j < entries.len() && entries[j] == x;
                assert(vals[j] == x.0);
                assert(j != at);
                let i = if j < at {
                    j
                } else {
                    j - 1
                };
                assert(after[i] == x);
            }
        },
        None => {
            assert(after == entries);
            if entries.contains(x) {
                let j = choose|j: int| 0 <= j < entries.len() && entries[j] == x;
                assert(vals[j] == x.0);
                assert(vals.contains(x.0));
            }
        },
    }
}

/// A valid unique index holds no value twice.
pub proof fn lemma_values_distinct(index: Index)
    requires
        index.wf(),
    ensures
        values_of(index.entries()).no_duplicates(),
{
    let vals = values_of(index.entries());
    match index {
        Index::HashUnique(e) => {
            assert forall|i: int, j: int| 0 <= i < vals.len() && 0 <= j < vals.len() && i != j implies vals[i] != vals[j] by {
                assert(text_values(e@)[i] != text_values(e@)[j]);
            }
        },
        Index::BTreeUnique(e) => {
            assert forall|i: int, j: int| 0 <= i < vals.len() && 0 <= j < vals.len() && i != j implies vals[i] != vals[j] by {
                if i < j {
                    assert(number_values(e@)[i] < number_values(e@)[j]);
                } else {
                    assert(number_values(e@)[j] < number_values(e@)[i]);
                }
            }
        },
        Index::Hash(_) => {},
    }
}

/// An index in step with the records stays so when a record under a new key
/// comes and the index files what the record gives it.
pub proof fn lemma_consistent_after_insert(
    before: Index,
    after: Index,
    field: Seq<char>,
    data: Seq<Record>,
    record: Record,
)
    requires
        consistent(before, field, data),
        after.same_shape(before),
        after.entries() == entries_with(before, field, record.key@, record.value@),
    ensures
        consistent(after, field, data.push(record)),
{
    let grown = data.push(record);
    assert forall|v: Seq<char>| contribution(after, field, v) == contribution(before, field, v) by {}
    match contribution(before, field, record.value@) {
        Some(fk) => {
            lemma_added_contains(before.entries(), fk, record.key@);
        },
        None => {},
    }
    assert forall|r: int|
        0 <= r < grown.len() && entry_of(after, field, #[trigger] grown[r]) is Some
            implies after.entries().contains(entry_of(after, field, grown[r])->Some_0) by {
        let x = entry_of(after, field, grown[r])->Some_0;
        if r < data.len() {
            assert(grown[r] == data[r]);
            assert(entry_of(before, field, data[r]) == entry_of(after, field, grown[r]));
            assert(before.entries().contains(x));
            match contribution(before, field, record.value@) {
                Some(fk) => {
                    assert(added(before.entries(), fk, record.key@).contains(x));
                },
                None => {},
            }
        } else {
            assert(grown[r] == record);
            let fk = contribution(before, field, record.value@)->Some_0;
            assert(x == (fk, record.key@));
            assert(added(before.entries(), fk, record.key@).contains(x));
        }
    }
    assert forall|e: int| 0 <= e < after.entries().len() implies has_source(
        after,
        field,
        grown,
        #[trigger] after.entries()[e],
    ) by {
        let x = after.entries()[e];
        assert(after.entries().contains(x));
        if before.entries().contains(x) {
            let e0 = choose|e0: int| 0 <= e0 < before.entries().len() && before.entries()[e0] == x;
            assert(has_source(before, field, data, before.entries()[e0]));
            let r = choose|r: int|
                0 <= r < data.len() && entry_of(before, field, #[trigger] data[r]) == Some(
                    before.entries()[e0],
                );
            assert(grown[r] == data[r]);
            assert(entry_of(after, field, grown[r]) == Some(x));
        } else {
            assert(grown[data.len() as int] == record);
            assert(entry_of(after, field, grown[data.len() as int]) == Some(x));
        }
    }
}

/// Where no value stands twice, a value has one key.
pub proof fn lemma_one_key_per_value(
    entries: Seq<(FieldKey, Seq<char>)>,
    value: FieldKey,
    first: Seq<char>,
    second: Seq<char>,
)
    requires
        values_of(entries).no_duplicates(),
        entries.contains((value, first)),
        entries.contains((value, second)),
    ensures
        first == second,
{
    let i = choose|i: int| 0 <= i < entries.len() && entries[i] == (value, first);
    let j = choose|j: int| 0 <= j < entries.len() && entries[j] == (value, second);
    assert(values_of(entries)[i] == value);
    assert(values_of(entries)[j] == value);
}

/// An index holds a value exactly if it holds an entry of it.
pub proof fn lemma_contains_value(index: Index, value: FieldKey)
    ensures
        index.contains_value(value) <==> exists|key: Seq<char>|
            index.entries().contains((value, key)),
        index.values() == values_of(index.entries()),
{
    let entries = index.entries();
    assert(index.values() =~= values_of(entries));
    if index.contains_value(value) {
        let i = choose|i: int| 0 <= i < index.values().len() && index.values()[i] == value;
        assert(entries[i] == (value, entries[i].1));
        assert(entries.contains((value, entries[i].1)));
    }
    if exists|key: Seq<char>| entries.contains((value, key)) {
        let key = choose|key: Seq<char>| entries.contains((value, key));
        let i = choose|i: int| 0 <= i < entries.len() && entries[i] == (value, key);
        assert(index.values()[i] == value);
    }
}

/// An index in step with the records stays so when a record leaves and the
/// index drops what the record had filed.
pub proof fn lemma_consistent_after_delete(
    before: Index,
    after: Index,
    field: Seq<char>,
    data: Seq<Record>,
    at: int,
)
    requires
        consistent(before, field, data),
        record_keys(data).no_duplicates(),
        before.wf(),
        0 <= at < data.len(),
        after.same_shape(before),
        after.entries() == entries_without(before, field, data[at].value@),
    ensures
        consistent(after, field, data.remove(at)),
{
    let rest = data.remove(at);
    lemma_values_distinct(before);
    assert forall|v: Seq<char>| contribution(after, field, v) == contribution(before, field, v) by {}
    let gone = contribution(before, field, data[at].value@);
    if gone is Some {
        lemma_removed_contains(before.entries(), gone->Some_0);
    }
    assert forall|r: int|
        0 <= r < rest.len() && entry_of(after, field, #[trigger] rest[r]) is Some
            implies after.entries().contains(entry_of(after, field, rest[r])->Some_0) by {
        let x = entry_of(after, field, rest[r])->Some_0;
        let r0 = if r < at { r } else { r + 1 };
        assert(rest[r] == data[r0]);
        assert(entry_of(before, field, data[r0]) == Some(x));
        assert(before.entries().contains(x));
        if gone is Some {
            if x.0 == gone->Some_0 {
                assert(entry_of(before, field, data[at]) is Some);
                let y = entry_of(before, field, data[at])->Some_0;
                assert(before.entries().contains(y));
                lemma_one_key_per_value(before.entries(), x.0, x.1, y.1);
                assert(record_keys(data)[r0] == record_keys(data)[at]);
            }
            assert(removed(before.entries(), gone->Some_0).contains(x));
        }
    }
    assert forall|e: int| 0 <= e < after.entries().len() implies has_source(
        after,
        field,
        rest,
        #[trigger] after.entries()[e],
    ) by {
        let x = after.entries()[e];
        assert(after.entries().contains(x));
        if gone is Some {
            assert(removed(before.entries(), gone->Some_0).contains(x));
        }
        assert(before.entries().contains(x));
        let e0 = choose|e0: int| 0 <= e0 < before.entries().len() && before.entries()[e0] == x;
        assert(has_source(before, field, data, before.entries()[e0]));
        let r0 = choose|r0: int|
            0 <= r0 < data.len() && entry_of(before, field, #[trigger] data[r0]) == Some(
                before.entries()[e0],
            );
        assert(r0 != at);
        let r = if r0 < at { r0 } else { r0 - 1 };
        assert(rest[r] == data[r0]);
        assert(entry_of(after, field, rest[r]) == Some(x));
    }
}

/// An index in step with the records stays so when the value of one record
/// changes and the index swaps what the two values file.
pub proof fn lemma_consistent_after_update(
    before: Index,
    after: Index,
    field: Seq<char>,
    data: Seq<Record>,
    at: int,
    record: Record,
)
    requires
        consistent(before, field, data),
        record_keys(data).no_duplicates(),
        before.wf(),
        0 <= at < data.len(),
        record.key@ == data[at].key@,
        after.same_shape(before),
        after.entries() == entries_replaced(
            before,
            field,
            record.key@,
            data[at].value@,
            record.value@,
        ),
    ensures
        consistent(after, field, data.update(at, record)),
{
    let changed = data.update(at, record);
    lemma_values_distinct(before);
    assert forall|v: Seq<char>| contribution(after, field, v) == contribution(before, field, v) by {}
    let gone = contribution(before, field, data[at].value@);
    let come = contribution(before, field, record.value@);
    let mid = entries_without(before, field, data[at].value@);
    if gone is Some {
        lemma_removed_contains(before.entries(), gone->Some_0);
    }
    if come is Some {
        lemma_added_contains(mid, come->Some_0, record.key@);
    }
    assert forall|x: (FieldKey, Seq<char>)| mid.contains(x) implies after.entries().contains(x) by {
        if come is Some {
            assert(added(mid, come->Some_0, record.key@).contains(x));
        }
    }
    assert forall|r: int|
        0 <= r < changed.len() && entry_of(after, field, #[trigger] changed[r]) is Some
            implies after.entries().contains(entry_of(after, field, changed[r])->Some_0) by {
        let x = entry_of(after, field, changed[r])->Some_0;
        if r == at {
            assert(changed[r] == record);
            assert(x == (come->Some_0, record.key@));
            assert(added(mid, come->Some_0, record.key@).contains(x));
        } else {
            assert(changed[r] == data[r]);
            assert(entry_of(before, field, data[r]) == Some(x));
            assert(before.entries().contains(x));
            if gone is Some {
                if x.0 == gone->Some_0 {
                    let y = entry_of(before, field, data[at])->Some_0;
                    assert(before.entries().contains(y));
                    lemma_one_key_per_value(before.entries(), x.0, x.1, y.1);
                    assert(record_keys(data)[r] == record_keys(data)[at]);
                }
                assert(removed(before.entries(), gone->Some_0).contains(x));
            }
            assert(mid.contains(x));
        }
    }
    assert forall|e: int| 0 <= e < after.entries().len() implies has_source(
        after,
        field,
        changed,
        #[trigger] after.entries()[e],
    ) by {
        let x = after.entries()[e];
        assert(after.entries().contains(x));
        let fresh = come is Some && x == (come->Some_0, record.key@);
        if come is Some {
            assert(added(mid, come->Some_0, record.key@).contains(x));
        }
        if fresh {
            assert(changed[at] == record);
            assert(entry_of(after, field, changed[at]) == Some(x));
        } else {
            assert(mid.contains(x));
            if gone is Some {
                assert(removed(before.entries(), gone->Some_0).contains(x));
            }
            assert(before.entries().contains(x));
            let e0 = choose|e0: int| 0 <= e0 < before.entries().len() && before.entries()[e0] == x;
            assert(has_source(before, field, data, before.entries()[e0]));
            let r0 = choose|r0: int|
                0 <= r0 < data.len() && entry_of(before, field, #[trigger] data[r0]) == Some(
                    before.entries()[e0],
                );
            assert(r0 != at);
            assert(changed[r0] == data[r0]);
            assert(entry_of(after, field, changed[r0]) == Some(x));
        }
    }
}

/// A value that was free in an index, or that is the one just taken out, is
/// free afterwards.
pub proof fn lemma_free_after_unfile(
    before: Index,
    after: Index,
    gone: Option<FieldKey>,
    value: FieldKey,
)
    requires
        before.wf(),
        after.entries() == match gone {
            Some(g) => removed(before.entries(), g),
            None => before.entries(),
        },
        !before.contains_value(value) || gone == Some(value),
    ensures
        !after.contains_value(value),
{
    lemma_values_distinct(before);
    lemma_contains_value(before, value);
    lemma_contains_value(after, value);
    if gone is Some {
        lemma_removed_contains(before.entries(), gone->Some_0);
    }
    if after.contains_value(value) {
        let key = choose|key: Seq<char>| after.entries().contains((value, key));
        if gone is Some {
            assert(removed(before.entries(), gone->Some_0).contains((value, key)));
        }
        assert(before.entries().contains((value, key)));
    }
}

/// A back-fill that fails on some records fails on any more.
pub proof fn lemma_backfill_fails_on(
    field_type: FieldType,
    field: Seq<char>,
    data: Seq<Record>,
    upto: int,
)
    requires
        0 <= upto <= data.len(),
        backfilled(field_type, field, data.take(upto)) is None,
    ensures
        backfilled(field_type, field, data) is None,
    decreases data.len() - upto,
{
    if upto < data.len() {
        assert(data.take(upto + 1).drop_last() =~= data.take(upto));
        lemma_backfill_fails_on(field_type, field, data, upto + 1);
    } else {
        assert(data.take(upto) =~= data);
    }
}

} // verus!
