//! What holds of the database and of its queries as a whole.

use vstd::prelude::*;
use crate::database::{
    create_storage_relation, delete_storage_relation, deleted, inserted, record_keys,
    storage_names, updated, value_of, Database, Storage,
};
use crate::error::{Error, ErrorKind};
use crate::query_handler::query_outcome;
use crate::database::{
    consistent, contribution, entry_of, has_source, lemma_one_key_per_value, Record,
};
use crate::index::{values_of, FieldKey, Index};
use crate::sql::codegen::{generated, projection_of};
use crate::sql::parser::{AstView, FieldView};
use crate::text::lex_le;
use crate::witchvm_kv::{
    evaluate, full_scan, holds_of_value, mapped, InstructionView, PredicateView,
};
use crate::witchvm_kv::{
    inserted_by_key, limited, offset_by, sort_key, sorted_by_key, StepKind, VmState,
};

verus! {

/// A storage that is created and then deleted leaves the storages of the
/// database as they were, where no storage had the name before.
pub proof fn law_create_then_delete_storage(
    before: Database,
    created: Database,
    deleted: Database,
    name: Seq<char>,
    first: Result<(), Error>,
    second: Result<(), Error>,
)
    requires
        before.wf(),
        before.position(name) is None,
        create_storage_relation(before, created, name, first),
        delete_storage_relation(created, deleted, name, second),
    ensures
        first is Ok,
        second is Ok,
        deleted.storages@ == before.storages@,
{
    let names = storage_names(created.storages@);
    let last = before.storages@.len() as int;
    names.index_of_first_ensures(name);
    storage_names(before.storages@).index_of_first_ensures(name);
    assert(names[last] == name);
    assert(created.position(name) == Some(last)) by {
        let found = names.index_of_first(name)->Some_0;
        if found < last {
            assert(created.storages@.drop_last()[found] == created.storages@[found]);
            assert(storage_names(before.storages@)[found] == name);
        }
    }
    assert(created.storages@.remove(last) =~= created.storages@.drop_last());
}

/// `LIMIT n OFFSET m` gives the values of the unpaged output from place
/// `m` up to place `m + n`, as far as the output has them, in their order.
pub proof fn law_pagination(output: Seq<Seq<char>>, limit: u64, offset: u64)
    ensures
        limited(offset_by(output, offset), limit) == output.subrange(
            if offset < output.len() {
                offset as int
            } else {
                output.len() as int
            },
            if offset + limit < output.len() {
                offset + limit
            } else {
                output.len() as int
            },
        ),
{
    let from = if offset < output.len() {
        offset as int
    } else {
        output.len() as int
    };
    let to = if offset + limit < output.len() {
        offset + limit
    } else {
        output.len() as int
    };
    assert(limited(offset_by(output, offset), limit) =~= output.subrange(from, to));
}

/// The same query run twice in succession answers the same both times,
/// and leaves the database as it was.
pub proof fn law_query_repeats(
    before: Database,
    between: Database,
    after: Database,
    query: Seq<char>,
    first: Result<String, Error>,
    second: Result<String, Error>,
)
    requires
        query_outcome(before, between, query, first),
        query_outcome(between, after, query, second),
    ensures
        after == before,
        first is Ok <==> second is Ok,
        first is Ok ==> first->Ok_0@ == second->Ok_0@,
        first is Err ==> first->Err_0.kind() == second->Err_0.kind(),
{
}

/// After an insert the key holds the inserted value, and every other key
/// what it held.
pub proof fn law_get_after_insert(
    before: Storage,
    after: Storage,
    key: Seq<char>,
    value: Seq<char>,
    other: Seq<char>,
)
    requires
        before.position(key) is None,
        inserted(before, after, key, value),
    ensures
        value_of(after.data@, key) == Some(value),
        other != key ==> value_of(after.data@, other) == value_of(before.data@, other),
{
    let old_keys = record_keys(before.data@);
    let new_keys = record_keys(after.data@);
    let last = before.data@.len() as int;
    assert(new_keys =~= old_keys.push(key)) by {
        assert forall|i: int| 0 <= i < last implies new_keys[i] == old_keys[i] by {
            assert(after.data@.drop_last()[i] == after.data@[i]);
        }
    }
    old_keys.index_of_first_ensures(key);
    new_keys.index_of_first_ensures(key);
    assert(new_keys[last] == key);
    old_keys.index_of_first_ensures(other);
    new_keys.index_of_first_ensures(other);
    if other != key {
        match old_keys.index_of_first(other) {
            Some(at) => {
                assert(new_keys[at] == other);
                assert(after.data@.drop_last()[at] == after.data@[at]);
            },
            None => {
                if new_keys.contains(other) {
                    let at = new_keys.index_of_first(other)->Some_0;
                    assert(old_keys[at] == other);
                }
            },
        }
    }
}

/// After an update the key holds the new value, and every other key what
/// it held.
pub proof fn law_get_after_update(
    before: Storage,
    after: Storage,
    key: Seq<char>,
    new_value: Seq<char>,
    other: Seq<char>,
)
    requires
        before.position(key) is Some,
        updated(before, after, before.position(key)->Some_0, new_value),
    ensures
        value_of(after.data@, key) == Some(new_value),
        other != key ==> value_of(after.data@, other) == value_of(before.data@, other),
{
    let old_keys = record_keys(before.data@);
    let new_keys = record_keys(after.data@);
    old_keys.index_of_first_ensures(key);
    let at = before.position(key)->Some_0;
    assert(new_keys =~= old_keys);
    old_keys.index_of_first_ensures(other);
}

/// After a delete the key holds nothing, and every other key what it held,
/// where no key is bound twice.
pub proof fn law_get_after_delete(
    before: Storage,
    after: Storage,
    key: Seq<char>,
    other: Seq<char>,
)
    requires
        record_keys(before.data@).no_duplicates(),
        before.position(key) is Some,
        deleted(before, after, before.position(key)->Some_0),
    ensures
        value_of(after.data@, key) is None,
        other != key ==> value_of(after.data@, other) == value_of(before.data@, other),
{
    let old_keys = record_keys(before.data@);
    let new_keys = record_keys(after.data@);
    old_keys.index_of_first_ensures(key);
    let at = before.position(key)->Some_0;
    assert(new_keys =~= old_keys.remove(at));
    new_keys.index_of_first_ensures(key);
    if new_keys.contains(key) {
        let i = new_keys.index_of_first(key)->Some_0;
        let j = if i < at { i } else { i + 1 };
        assert(old_keys[j] == key);
    }
    old_keys.index_of_first_ensures(other);
    new_keys.index_of_first_ensures(other);
    if other != key {
        match old_keys.index_of_first(other) {
            Some(j) => {
                let i = if j < at { j } else { j - 1 };
                assert(new_keys[i] == other);
                let found = new_keys.index_of_first(other)->Some_0;
                let back = if found < at { found } else { found + 1 };
                assert(old_keys[back] == other);
                assert(back == j);
            },
            None => {
                if new_keys.contains(other) {
                    let i = new_keys.index_of_first(other)->Some_0;
                    let j = if i < at { i } else { i + 1 };
                    assert(old_keys[j] == other);
                }
            },
        }
    }
}

/// Of two texts one comes before the other, or they are one text.
pub proof fn lemma_lex_total(a: Seq<char>, b: Seq<char>)
    ensures
        lex_le(a, b) || lex_le(b, a),
    decreases a.len(),
{
    if a.len() > 0 && b.len() > 0 && a[0] == b[0] {
        lemma_lex_total(a.drop_first(), b.drop_first());
    }
}

/// What comes before a text comes before what the text comes before.
pub proof fn lemma_lex_transitive(a: Seq<char>, b: Seq<char>, c: Seq<char>)
    requires
        lex_le(a, b),
        lex_le(b, c),
    ensures
        lex_le(a, c),
    decreases a.len(),
{
    if a.len() > 0 && b.len() > 0 && c.len() > 0 && a[0] == b[0] && b[0] == c[0] {
        lemma_lex_transitive(a.drop_first(), b.drop_first(), c.drop_first());
    }
}

/// The keys of the values ascend.
pub open spec fn ordered_by_key(values: Seq<Seq<char>>, field: Seq<char>) -> bool {
    forall|i: int, j: int|
        0 <= i < j < values.len() ==> lex_le(
            sort_key(field, #[trigger] values[i]),
            sort_key(field, #[trigger] values[j]),
        )
}

/// A value that takes its place among ordered values leaves them ordered,
/// and adds itself to them and nothing else.
pub proof fn lemma_insert_keeps_order(sorted: Seq<Seq<char>>, value: Seq<char>, field: Seq<char>)
    requires
        ordered_by_key(sorted, field),
    ensures
        ordered_by_key(inserted_by_key(sorted, value, field), field),
        inserted_by_key(sorted, value, field).to_multiset() == sorted.to_multiset().insert(value),
        inserted_by_key(sorted, value, field).len() == sorted.len() + 1,
    decreases sorted.len(),
{
    let result = inserted_by_key(sorted, value, field);
    sorted.to_multiset_ensures();
    if sorted.len() == 0 {
        assert(result =~= Seq::<Seq<char>>::empty().push(value));
        Seq::<Seq<char>>::empty().to_multiset_ensures();
        assert(sorted =~= Seq::<Seq<char>>::empty());
    } else if lex_le(sort_key(field, sorted.last()), sort_key(field, value)) {
        assert forall|i: int, j: int| 0 <= i < j < result.len() implies lex_le(
            sort_key(field, #[trigger] result[i]),
            sort_key(field, #[trigger] result[j]),
        ) by {
            if j == sorted.len() {
                if i < sorted.len() - 1 {
                    assert(lex_le(
                        sort_key(field, sorted[i]),
                        sort_key(field, sorted[sorted.len() - 1]),
                    ));
                    lemma_lex_transitive(
                        sort_key(field, sorted[i]),
                        sort_key(field, sorted.last()),
                        sort_key(field, value),
                    );
                }
            } else {
                assert(lex_le(sort_key(field, sorted[i]), sort_key(field, sorted[j])));
            }
        }
    } else {
        let rest = sorted.drop_last();
        let last = sorted.last();
        assert forall|i: int, j: int| 0 <= i < j < rest.len() implies lex_le(
            sort_key(field, #[trigger] rest[i]),
            sort_key(field, #[trigger] rest[j]),
        ) by {
            assert(lex_le(sort_key(field, sorted[i]), sort_key(field, sorted[j])));
        }
        lemma_insert_keeps_order(rest, value, field);
        let inner = inserted_by_key(rest, value, field);
        assert(result == inner.push(last));
        inner.to_multiset_ensures();
        rest.to_multiset_ensures();
        assert(sorted =~= rest.push(last));
        assert(result.to_multiset() =~= sorted.to_multiset().insert(value));
        lemma_lex_total(sort_key(field, last), sort_key(field, value));
        assert forall|i: int, j: int| 0 <= i < j < result.len() implies lex_le(
            sort_key(field, #[trigger] result[i]),
            sort_key(field, #[trigger] result[j]),
        ) by {
            if j == inner.len() {
                let x = inner[i];
                assert(inner.contains(x));
                assert(inner.to_multiset().count(x) > 0);
                if x == value {
                } else {
                    assert(rest.to_multiset().count(x) > 0);
                    assert(rest.contains(x));
                    let k = choose|k: int| 0 <= k < rest.len() && rest[k] == x;
                    assert(lex_le(
                        sort_key(field, sorted[k]),
                        sort_key(field, sorted[sorted.len() - 1]),
                    ));
                }
            } else {
                assert(lex_le(sort_key(field, inner[i]), sort_key(field, inner[j])));
            }
        }
    }
}

/// `ORDER BY` gives the values in the ascending lexicographic order of
/// the JSON text of the field, and gives each value as often as it came.
pub proof fn law_sort_orders(values: Seq<Seq<char>>, field: Seq<char>)
    ensures
        ordered_by_key(sorted_by_key(values, field), field),
        sorted_by_key(values, field).to_multiset() == values.to_multiset(),
        sorted_by_key(values, field).len() == values.len(),
    decreases values.len(),
{
    values.to_multiset_ensures();
    if values.len() == 0 {
        assert(sorted_by_key(values, field) =~= values);
    } else {
        let rest = values.drop_last();
        law_sort_orders(rest, field);
        lemma_insert_keeps_order(sorted_by_key(rest, field), values.last(), field);
        rest.to_multiset_ensures();
        assert(values =~= rest.push(values.last()));
    }
}

/// The stored values, in the order of the records.
pub open spec fn all_values(data: Seq<Record>) -> Seq<Seq<char>> {
    Seq::new(data.len(), |i: int| data[i].value@)
}

/// A walk over all records under no condition finds every value.
pub proof fn lemma_full_scan_of_all(data: Seq<Record>)
    ensures
        full_scan(data, PredicateView::Always) == all_values(data),
    decreases data.len(),
{
    if data.len() == 0 {
        assert(all_values(data) =~= Seq::empty());
    } else {
        lemma_full_scan_of_all(data.drop_last());
        assert(all_values(data) =~= all_values(data.drop_last()).push(data.last().value@));
    }
}

/// A query without `WHERE`, `ORDER BY`, `LIMIT` and `OFFSET` gives every
/// value of the storage once, in the order of the records, each projected
/// as the select list asks.
pub proof fn law_select_without_condition(
    database: Database,
    fields: Seq<FieldView>,
    from: Seq<char>,
)
    requires
        database.position(from) is Some,
        projection_of(fields) is Ok,
    ensures
        ({
            let ast = AstView::Select {
                fields,
                from,
                where_clause: None,
                order_by: None,
                limit: None,
                offset: None,
            };
            let values = all_values(database.storages@[database.position(from)->Some_0].data@);
            let found = evaluate(
                database,
                VmState { storage: None, output: Seq::empty() },
                Seq::empty(),
                generated(ast)->Ok_0,
            );
            &&& generated(ast) is Ok
            &&& found is Ok
            &&& found->Ok_0.0.output == match projection_of(fields)->Ok_0 {
                Some(names) => mapped(values, names),
                None => values,
            }
        }),
{
    let ast = AstView::Select {
        fields,
        from,
        where_clause: None,
        order_by: None,
        limit: None,
        offset: None,
    };
    let at = database.position(from)->Some_0;
    let data = database.storages@[at].data@;
    let program = generated(ast)->Ok_0;
    let start = VmState { storage: None, output: Seq::empty() };
    lemma_full_scan_of_all(data);
    reveal_with_fuel(evaluate, 5);
    let scanned = VmState { storage: Some(from), output: all_values(data) };
    assert(Seq::<Seq<char>>::empty() + all_values(data) =~= all_values(data));
    assert(crate::sql::codegen::string_hints(Seq::empty()) =~= Seq::empty());
    match projection_of(fields)->Ok_0 {
        Some(names) => {
            assert(program =~= seq![
                InstructionView::UseStorage { name: from },
                InstructionView::Scan {
                    index_filter: PredicateView::Always,
                    full_scan_filter: PredicateView::Always,
                    string_fields_values: Seq::empty(),
                    number_fields_values: crate::sql::codegen::number_hints(Seq::empty()),
                },
                InstructionView::MapOutput { fields: names },
            ]);
            assert(program.drop_first().drop_first() =~= seq![
                InstructionView::MapOutput { fields: names },
            ]);
            assert(program.drop_first().drop_first().drop_first() =~= Seq::empty());
        },
        None => {
            assert(program =~= seq![
                InstructionView::UseStorage { name: from },
                InstructionView::Scan {
                    index_filter: PredicateView::Always,
                    full_scan_filter: PredicateView::Always,
                    string_fields_values: Seq::empty(),
                    number_fields_values: crate::sql::codegen::number_hints(Seq::empty()),
                },
            ]);
            assert(program.drop_first().drop_first() =~= Seq::empty());
        },
    }
}

/// How many of the records give the index on `field` something to file.
pub open spec fn filing_records(index: Index, field: Seq<char>, data: Seq<Record>) -> nat
    decreases data.len(),
{
    if data.len() == 0 {
        0
    } else {
        filing_records(index, field, data.drop_last()) + if contribution(
            index,
            field,
            data.last().value@,
        ) is Some {
            1nat
        } else {
            0nat
        }
    }
}

/// Entries in step with the records: each record that has something to
/// file has its entry among them, and each of them comes from a record.
pub open spec fn in_step(
    index: Index,
    entries: Seq<(FieldKey, Seq<char>)>,
    field: Seq<char>,
    data: Seq<Record>,
) -> bool {
    &&& forall|r: int|
        0 <= r < data.len() && entry_of(index, field, #[trigger] data[r]) is Some
            ==> entries.contains(entry_of(index, field, data[r])->Some_0)
    &&& forall|e: int|
        0 <= e < entries.len() ==> has_source(index, field, data, #[trigger] entries[e])
}

/// Entries in step with records whose keys are unique, no field value
/// standing twice among them, are as many as the records that file.
pub proof fn lemma_entries_count(
    index: Index,
    entries: Seq<(FieldKey, Seq<char>)>,
    field: Seq<char>,
    data: Seq<Record>,
)
    requires
        in_step(index, entries, field, data),
        values_of(entries).no_duplicates(),
        crate::database::record_keys(data).no_duplicates(),
    ensures
        entries.len() == filing_records(index, field, data),
    decreases data.len(),
{
    if data.len() == 0 {
        if entries.len() > 0 {
            assert(has_source(index, field, data, entries[0]));
        }
    } else {
        let rest = data.drop_last();
        let last = data.last();
        let n = data.len() - 1;
        assert(data[n] == last);
        assert(crate::database::record_keys(rest) =~= crate::database::record_keys(
            data,
        ).drop_last());
        match entry_of(index, field, last) {
            None => {
                assert forall|r: int|
                    0 <= r < rest.len() && entry_of(index, field, #[trigger] rest[r]) is Some
                        implies entries.contains(entry_of(index, field, rest[r])->Some_0) by {
                    assert(rest[r] == data[r]);
                }
                assert forall|e: int| 0 <= e < entries.len() implies has_source(
                    index,
                    field,
                    rest,
                    #[trigger] entries[e],
                ) by {
                    assert(has_source(index, field, data, entries[e]));
                    let r = choose|r: int|
                        0 <= r < data.len() && entry_of(index, field, #[trigger] data[r]) == Some(
                            entries[e],
                        );
                    assert(r != n);
                    assert(rest[r] == data[r]);
                }
                lemma_entries_count(index, entries, field, rest);
            },
            Some(x) => {
                assert(entries.contains(x));
                let p = choose|p: int| 0 <= p < entries.len() && entries[p] == x;
                let fewer = entries.remove(p);
                assert(values_of(fewer) =~= values_of(entries).remove(p));
                crate::index::lemma_remove_keeps_distinct(values_of(entries), p);
                assert forall|r: int|
                    0 <= r < rest.len() && entry_of(index, field, #[trigger] rest[r]) is Some
                        implies fewer.contains(entry_of(index, field, rest[r])->Some_0) by {
                    assert(rest[r] == data[r]);
                    let y = entry_of(index, field, rest[r])->Some_0;
                    assert(entries.contains(y));
                    let q = choose|q: int| 0 <= q < entries.len() && entries[q] == y;
                    assert(y.1 == crate::database::record_keys(data)[r]);
                    assert(x.1 == crate::database::record_keys(data)[n]);
                    assert(q != p);
                    let q2 = if q < p { q } else { q - 1 };
                    assert(fewer[q2] == y);
                }
                assert forall|e: int| 0 <= e < fewer.len() implies has_source(
                    index,
                    field,
                    rest,
                    #[trigger] fewer[e],
                ) by {
                    let e0 = if e < p { e } else { e + 1 };
                    assert(fewer[e] == entries[e0]);
                    assert(has_source(index, field, data, entries[e0]));
                    let r = choose|r: int|
                        0 <= r < data.len() && entry_of(index, field, #[trigger] data[r]) == Some(
                            entries[e0],
                        );
                    if r == n {
                        assert(entries[e0] == x);
                        assert(values_of(entries)[e0] == values_of(entries)[p]);
                    }
                    assert(rest[r] == data[r]);
                }
                lemma_entries_count(index, fewer, field, rest);
            },
        }
    }
}

/// Every unique index of a valid storage holds exactly one entry for each
/// record whose value has, under the indexed field, a value of the type of
/// the index; and each of its entries is the entry of a record.
pub proof fn law_index_matches_records(storage: Storage, i: int)
    requires
        storage.wf(),
        0 <= i < storage.indexes.list@.len(),
    ensures
        storage.indexes.list@[i].index.entries().len() == filing_records(
            storage.indexes.list@[i].index,
            storage.indexes.list@[i].name@,
            storage.data@,
        ),
        forall|e: int|
            0 <= e < storage.indexes.list@[i].index.entries().len() ==> has_source(
                storage.indexes.list@[i].index,
                storage.indexes.list@[i].name@,
                storage.data@,
                #[trigger] storage.indexes.list@[i].index.entries()[e],
            ),
        forall|r: int|
            0 <= r < storage.data@.len() && entry_of(
                storage.indexes.list@[i].index,
                storage.indexes.list@[i].name@,
                #[trigger] storage.data@[r],
            ) is Some ==> storage.indexes.list@[i].index.entries().contains(
                entry_of(
                    storage.indexes.list@[i].index,
                    storage.indexes.list@[i].name@,
                    storage.data@[r],
                )->Some_0,
            ),
{
    let index = storage.indexes.list@[i].index;
    let field = storage.indexes.list@[i].name@;
    assert(index.wf());
    assert(consistent(index, field, storage.data@));
    crate::database::lemma_values_distinct(index);
    lemma_entries_count(index, index.entries(), field, storage.data@);
}

/// A program of two parts ends as its second part does on what the first
/// part left.
pub proof fn lemma_evaluate_parts(
    database: Database,
    state: VmState,
    trace: Seq<StepKind>,
    first: Seq<InstructionView>,
    second: Seq<InstructionView>,
)
    ensures
        evaluate(database, state, trace, first + second) == match evaluate(
            database,
            state,
            trace,
            first,
        ) {
            Err(kind) => Err(kind),
            Ok((next, steps)) => evaluate(database, next, steps, second),
        },
    decreases first.len(),
{
    if first.len() == 0 {
        assert(first + second =~= second);
    } else {
        assert((first + second)[0] == first[0]);
        assert((first + second).drop_first() =~= first.drop_first() + second);
        match crate::witchvm_kv::step(database, state, first[0]) {
            Err(kind) => {},
            Ok((next, steps)) => {
                lemma_evaluate_parts(database, next, trace + steps, first.drop_first(), second);
            },
        }
    }
}

/// The places of the unpaged output that `LIMIT limit OFFSET offset`
/// keeps.
pub open spec fn page(output: Seq<Seq<char>>, limit: u64, offset: u64) -> Seq<Seq<char>> {
    output.subrange(
        if offset < output.len() {
            offset as int
        } else {
            output.len() as int
        },
        if offset + limit < output.len() {
            offset + limit
        } else {
            output.len() as int
        },
    )
}

/// A query with `LIMIT` and `OFFSET` fails as the query without them
/// does, and gives else the values of its output from place `offset` up to
/// place `offset + limit`, in their order.
pub proof fn law_paged_query(
    database: Database,
    fields: Seq<FieldView>,
    from: Seq<char>,
    where_clause: Option<Box<AstView>>,
    order_by: Option<Seq<char>>,
    limit: u64,
    offset: u64,
)
    ensures
        ({
            let start = VmState { storage: None, output: Seq::empty() };
            let unpaged = generated(
                AstView::Select {
                    fields,
                    from,
                    where_clause,
                    order_by,
                    limit: None,
                    offset: None,
                },
            );
            let paged = generated(
                AstView::Select {
                    fields,
                    from,
                    where_clause,
                    order_by,
                    limit: Some(limit),
                    offset: Some(offset),
                },
            );
            match unpaged {
                Err(kind) => paged == Err::<Seq<InstructionView>, ErrorKind>(kind),
                Ok(program) => paged is Ok && match evaluate(
                    database,
                    start,
                    Seq::empty(),
                    program,
                ) {
                    Err(kind) => evaluate(database, start, Seq::empty(), paged->Ok_0) == Err::<
                        (VmState, Seq<StepKind>),
                        ErrorKind,
                    >(kind),
                    Ok((end, steps)) => {
                        let found = evaluate(database, start, Seq::empty(), paged->Ok_0);
                        found is Ok && found->Ok_0.0.output == page(end.output, limit, offset)
                    },
                },
            }
        }),
{
    let start = VmState { storage: None, output: Seq::empty() };
    let unpaged = generated(
        AstView::Select { fields, from, where_clause, order_by, limit: None, offset: None },
    );
    let paged = generated(
        AstView::Select {
            fields,
            from,
            where_clause,
            order_by,
            limit: Some(limit),
            offset: Some(offset),
        },
    );
    if unpaged is Ok {
        let program = unpaged->Ok_0;
        let cut = seq![
            InstructionView::SetOffset { count: offset },
            InstructionView::SetLimit { count: limit },
        ];
        assert(paged->Ok_0 =~= program + cut);
        lemma_evaluate_parts(database, start, Seq::empty(), program, cut);
        match evaluate(database, start, Seq::empty(), program) {
            Err(kind) => {},
            Ok((end, steps)) => {
                reveal_with_fuel(evaluate, 4);
                assert(cut.drop_first() =~= seq![InstructionView::SetLimit { count: limit }]);
                assert(cut.drop_first().drop_first() =~= Seq::empty());
                law_pagination(end.output, limit, offset);
            },
        }
    }
}

} // verus!
