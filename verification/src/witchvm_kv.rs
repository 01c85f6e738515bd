//! The query virtual machine: a linear program of instructions run against
//! the storages of a database, with a trace of the steps taken.

use vstd::prelude::*;
use vstd::string::*;
use crate::json::{json_document, json_string_text, parse_document, quote_text, Document, DocumentView};
use crate::database::{
    index_search, insert_relation, value_of, Database, Record, Storage,
};
use crate::error::{Error, ErrorKind};
use crate::index::{Index, IndexList};
use crate::sql::Operator;
use crate::text::{chars_of, lex_le, precedes};

verus! {

/// A condition on a record, as a tree of comparisons.
#[derive(Debug, PartialEq)]
pub enum Predicate {
    /// Holds of every record.
    Always,
    And(Box<Predicate>, Box<Predicate>),
    Or(Box<Predicate>, Box<Predicate>),
    /// Compares the integer under `column` with `literal`.
    Number { column: String, operator: Operator, literal: i64 },
    /// Compares the string under `column` with `literal`.
    Text { column: String, operator: Operator, literal: String },
}

/// The mathematical value of a [`Predicate`].
pub enum PredicateView {
    Always,
    And(Box<PredicateView>, Box<PredicateView>),
    Or(Box<PredicateView>, Box<PredicateView>),
    Number { column: Seq<char>, operator: Operator, literal: i64 },
    Text { column: Seq<char>, operator: Operator, literal: Seq<char> },
}

impl View for Predicate {
    type V = PredicateView;

    open spec fn view(&self) -> PredicateView {
        predicate_view(*self)
    }
}

/// The condition of a scan.
#[derive(Debug, PartialEq)]
pub enum Filter {
    Condition(Predicate),
}

/// A projection of records onto some of their fields.
#[derive(Debug, Clone, PartialEq)]
pub struct Projection {
    /// The names of the fields, in the order asked for.
    pub fields: Vec<String>,
}

/// How long a scan took.
#[derive(Debug, Clone, Copy, PartialEq, Eq)]
pub struct ScanTime {
    pub secs: u64,
    pub nanos: u32,
}

/// A step of the trace that the machine keeps of a run.
#[derive(Debug, Clone, PartialEq)]
pub enum ExplainStep {
    SetStorage(String),
    FullScan { time: ScanTime },
    IndexScan { time: ScanTime },
    MapOutput,
    SortOutput,
    Limit,
    Offset,
}

/// What a step of the trace says, the time left out.
pub enum StepKind {
    SetStorage(Seq<char>),
    FullScan,
    IndexScan,
    MapOutput,
    SortOutput,
    Limit,
    Offset,
}

/// An instruction of the machine.
#[derive(Debug, PartialEq)]
pub enum Instruction {
    /// Makes the storage of that name the current one.
    UseStorage { name: String },
    /// Adds to the output the values of the current storage that satisfy
    /// the condition, found through the indexes of the listed string fields
    /// where each of them has one, and by a walk over all records else.
    Scan {
        index_filter: Filter,
        full_scan_filter: Filter,
        string_fields_values: Vec<(String, String)>,
        number_fields_values: Vec<(String, i64)>,
    },
    /// Replaces each value of the output by its projection.
    MapOutput { map_fn: Projection },
    /// Sorts the output by the JSON text of a field.
    SortOutput { field: String },
    /// Cuts the output down to its first values.
    SetLimit { count: u64 },
    /// Drops the first values of the output.
    SetOffset { count: u64 },
    /// Adds the value under the key to the output.
    Get { key: String },
    /// Inserts the value under the key.
    SetValue { key: String, value: String },
    /// Checks that the value under the key is JSON with that field.
    GetJsonField { key: String, field: String },
}

/// The mathematical value of an [`Instruction`].
pub enum InstructionView {
    UseStorage { name: Seq<char> },
    Scan {
        index_filter: PredicateView,
        full_scan_filter: PredicateView,
        string_fields_values: Seq<(Seq<char>, Seq<char>)>,
        number_fields_values: Seq<(Seq<char>, i64)>,
    },
    MapOutput { fields: Seq<Seq<char>> },
    SortOutput { field: Seq<char> },
    SetLimit { count: u64 },
    SetOffset { count: u64 },
    Get { key: Seq<char> },
    SetValue { key: Seq<char>, value: Seq<char> },
    GetJsonField { key: Seq<char>, field: Seq<char> },
}

impl View for Instruction {
    type V = InstructionView;

    open spec fn view(&self) -> InstructionView {
        match self {
            Instruction::UseStorage { name } => InstructionView::UseStorage { name: name@ },
            Instruction::Scan {
                index_filter,
                full_scan_filter,
                string_fields_values,
                number_fields_values,
            } => InstructionView::Scan {
                index_filter: index_filter->Condition_0@,
                full_scan_filter: full_scan_filter->Condition_0@,
                string_fields_values: text_pair_views(string_fields_values@),
                number_fields_values: number_pair_views(number_fields_values@),
            },
            Instruction::MapOutput { map_fn } => InstructionView::MapOutput {
                fields: name_views(map_fn.fields@),
            },
            Instruction::SortOutput { field } => InstructionView::SortOutput { field: field@ },
            Instruction::SetLimit { count } => InstructionView::SetLimit { count: *count },
            Instruction::SetOffset { count } => InstructionView::SetOffset { count: *count },
            Instruction::Get { key } => InstructionView::Get { key: key@ },
            Instruction::SetValue { key, value } => InstructionView::SetValue { key: key@, value: value@ },
            Instruction::GetJsonField { key, field } => InstructionView::GetJsonField {
                key: key@,
                field: field@,
            },
        }
    }
}

/// The state of the machine: the name of the current storage, if one was
/// chosen, and the output so far.
pub struct VmState {
    pub storage: Option<Seq<char>>,
    pub output: Seq<Seq<char>>,
}

/// The clock type of the runtime.
#[verifier::external_type_specification]
#[verifier::external_body]
pub struct ExInstant(tokio::time::Instant);

/// The query virtual machine.
pub struct WitchVMKV {
    /// The name of the current storage, once one was chosen.
    pub instruction_storage_name: Option<String>,
    /// The output so far.
    pub output: Vec<String>,
}

impl View for WitchVMKV {
    type V = VmState;

    open spec fn view(&self) -> VmState {
        VmState {
            storage: match self.instruction_storage_name {
                Some(name) => Some(name@),
                None => None,
            },
            output: text_views(self.output@),
        }
    }
}

/// The value of a predicate.
pub open spec fn predicate_view(predicate: Predicate) -> PredicateView
    decreases predicate,
{
    match predicate {
        Predicate::Always => PredicateView::Always,
        Predicate::And(left, right) => PredicateView::And(
            Box::new(predicate_view(*left)),
            Box::new(predicate_view(*right)),
        ),
        Predicate::Or(left, right) => PredicateView::Or(
            Box::new(predicate_view(*left)),
            Box::new(predicate_view(*right)),
        ),
        Predicate::Number { column, operator, literal } => PredicateView::Number {
            column: column@,
            operator,
            literal,
        },
        Predicate::Text { column, operator, literal } => PredicateView::Text {
            column: column@,
            operator,
            literal: literal@,
        },
    }
}

/// What a comparison of two integers answers. A connective in the place of
/// a comparison answers no.
pub open spec fn number_holds(field: int, operator: Operator, value: int) -> bool {
    match operator {
        Operator::GreaterThan => field > value,
        Operator::GreaterThanEqual => field >= value,
        Operator::LessThan => field < value,
        Operator::LessThanEqual => field <= value,
        Operator::Equal => field == value,
        Operator::NotEqual => field != value,
        _ => false,
    }
}

/// What a comparison of two strings answers: strings know `=` and `!=`
/// only, every other operator answers no.
pub open spec fn text_holds(field: Seq<char>, operator: Operator, value: Seq<char>) -> bool {
    match operator {
        Operator::Equal => field == value,
        Operator::NotEqual => field != value,
        _ => false,
    }
}

/// Whether the predicate holds of a document. A comparison answers no
/// where the document has no member of the column's name, or one of
/// another type than the literal.
pub open spec fn holds(predicate: PredicateView, document: DocumentView) -> bool
    decreases predicate,
{
    match predicate {
        PredicateView::Always => true,
        PredicateView::And(left, right) => holds(*left, document) && holds(*right, document),
        PredicateView::Or(left, right) => holds(*left, document) || holds(*right, document),
        PredicateView::Number { column, operator, literal } => match document.integer_of(column) {
            Some(n) => number_holds(n as int, operator, literal as int),
            None => false,
        },
        PredicateView::Text { column, operator, literal } => match document.text_of(column) {
            Some(t) => text_holds(t, operator, literal),
            None => false,
        },
    }
}

/// Whether the predicate holds of a stored value.
pub open spec fn holds_of_value(predicate: PredicateView, value: Seq<char>) -> bool {
    holds(predicate, json_document(value))
}

/// Whether the predicate holds of a record of which only this is known:
/// that it holds the string `value` under `field`. A comparison on another
/// column, or with a number, answers no.
pub open spec fn holds_of_field(predicate: PredicateView, field: Seq<char>, value: Seq<char>) -> bool
    decreases predicate,
{
    match predicate {
        PredicateView::Always => true,
        PredicateView::And(left, right) => holds_of_field(*left, field, value) && holds_of_field(
            *right,
            field,
            value,
        ),
        PredicateView::Or(left, right) => holds_of_field(*left, field, value) || holds_of_field(
            *right,
            field,
            value,
        ),
        PredicateView::Number { column, operator, literal } => false,
        PredicateView::Text { column, operator, literal } => column == field && text_holds(
            value,
            operator,
            literal,
        ),
    }
}

/// The values of the names.
pub open spec fn name_views(names: Seq<String>) -> Seq<Seq<char>> {
    Seq::new(names.len(), |i: int| names[i]@)
}

/// The JSON text of the member of that name, or `null` where the document
/// has none.
pub open spec fn rendered_or_null(document: DocumentView, name: Seq<char>) -> Seq<char> {
    match document.member(name) {
        Some(member) => member.rendered,
        None => "null"@,
    }
}

/// The text of one member of a projected object.
pub open spec fn member_text(document: DocumentView, name: Seq<char>) -> Seq<char> {
    json_string_text(name) + ":"@ + rendered_or_null(document, name)
}

/// The members of a projected object, with commas between them: one for
/// each name, in the order of the names, a name that stands twice taken
/// where it stands first.
pub open spec fn members_text(document: DocumentView, names: Seq<Seq<char>>) -> Seq<char>
    decreases names.len(),
{
    if names.len() == 0 {
        Seq::empty()
    } else if names.drop_last().contains(names.last()) {
        members_text(document, names.drop_last())
    } else if names.len() == 1 {
        member_text(document, names.last())
    } else {
        members_text(document, names.drop_last()) + ","@ + member_text(document, names.last())
    }
}

/// What a stored value becomes when it is projected onto the names: a JSON
/// object with exactly those members, `null` standing for a member that
/// the value has not. A value that is not JSON becomes the empty object.
pub open spec fn projected(names: Seq<Seq<char>>, value: Seq<char>) -> Seq<char> {
    let document = json_document(value);
    if document is Invalid {
        "{}"@
    } else {
        "{"@ + members_text(document, names) + "}"@
    }
}

/// The text by which a stored value is ordered on a field: the JSON text of
/// the member of that name, or `null` where the value has none.
pub open spec fn sort_key(field: Seq<char>, value: Seq<char>) -> Seq<char> {
    rendered_or_null(json_document(value), field)
}

/// The sorted values with one more, which takes its place behind every
/// value whose key does not come after its own.
pub open spec fn inserted_by_key(sorted: Seq<Seq<char>>, value: Seq<char>, field: Seq<char>) -> Seq<
    Seq<char>,
>
    decreases sorted.len(),
{
    if sorted.len() == 0 {
        seq![value]
    } else if lex_le(sort_key(field, sorted.last()), sort_key(field, value)) {
        sorted.push(value)
    } else {
        inserted_by_key(sorted.drop_last(), value, field).push(sorted.last())
    }
}

/// The values in the ascending lexicographic order of their keys on the
/// field. Values of one key keep their order.
pub open spec fn sorted_by_key(values: Seq<Seq<char>>, field: Seq<char>) -> Seq<Seq<char>>
    decreases values.len(),
{
    if values.len() == 0 {
        Seq::empty()
    } else {
        inserted_by_key(sorted_by_key(values.drop_last(), field), values.last(), field)
    }
}

/// The values of the strings.
pub open spec fn text_views(texts: Seq<String>) -> Seq<Seq<char>> {
    Seq::new(texts.len(), |i: int| texts[i]@)
}

impl ExplainStep {
    /// What the step says, the time left out.
    pub open spec fn kind(self) -> StepKind {
        match self {
            ExplainStep::SetStorage(name) => StepKind::SetStorage(name@),
            ExplainStep::FullScan { time } => StepKind::FullScan,
            ExplainStep::IndexScan { time } => StepKind::IndexScan,
            ExplainStep::MapOutput => StepKind::MapOutput,
            ExplainStep::SortOutput => StepKind::SortOutput,
            ExplainStep::Limit => StepKind::Limit,
            ExplainStep::Offset => StepKind::Offset,
        }
    }
}

/// What the steps say, the times left out.
pub open spec fn step_kinds(steps: Seq<ExplainStep>) -> Seq<StepKind> {
    Seq::new(steps.len(), |i: int| steps[i].kind())
}

/// The values of pairs of strings.
pub open spec fn text_pair_views(pairs: Seq<(String, String)>) -> Seq<(Seq<char>, Seq<char>)> {
    Seq::new(pairs.len(), |i: int| (pairs[i].0@, pairs[i].1@))
}

/// The values of pairs of a string and a number.
pub open spec fn number_pair_views(pairs: Seq<(String, i64)>) -> Seq<(Seq<char>, i64)> {
    Seq::new(pairs.len(), |i: int| (pairs[i].0@, pairs[i].1))
}

/// The values of the instructions of a program.
pub open spec fn program_view(program: Seq<Instruction>) -> Seq<InstructionView> {
    Seq::new(program.len(), |i: int| program[i]@)
}

/// Whether each of the fields has an index.
pub open spec fn all_indexed(indexes: IndexList, fields: Seq<(Seq<char>, Seq<char>)>) -> bool {
    forall|i: int| 0 <= i < fields.len() ==> indexes.position((#[trigger] fields[i]).0) is Some
}

/// Whether a scan goes through the indexes: it does where it lists a
/// string field and each string field that it lists has an index.
pub open spec fn scans_index(storage: Storage, fields: Seq<(Seq<char>, Seq<char>)>) -> bool {
    fields.len() > 0 && all_indexed(storage.indexes, fields)
}

/// What a scan through the indexes of the listed fields finds: for one
/// field after the other what a search of its index finds. `None` where
/// the index of a listed field is the ordered one, which files no strings.
pub open spec fn index_scan(
    storage: Storage,
    fields: Seq<(Seq<char>, Seq<char>)>,
    predicate: PredicateView,
) -> Option<Seq<Seq<char>>>
    decreases fields.len(),
{
    if fields.len() == 0 {
        Some(Seq::empty())
    } else {
        match index_scan(storage, fields.drop_last(), predicate) {
            None => None,
            Some(found) => match storage.indexes.index_of(fields.last().0) {
                Some(index) => if index is BTreeUnique {
                    None
                } else {
                    Some(found + index_search(storage.data@, index, fields.last().0, predicate))
                },
                None => Some(found),
            },
        }
    }
}

/// What a walk over all records finds: the values that satisfy the
/// predicate, in the order of the records.
pub open spec fn full_scan(data: Seq<Record>, predicate: PredicateView) -> Seq<Seq<char>>
    decreases data.len(),
{
    if data.len() == 0 {
        Seq::empty()
    } else if holds_of_value(predicate, data.last().value@) {
        full_scan(data.drop_last(), predicate).push(data.last().value@)
    } else {
        full_scan(data.drop_last(), predicate)
    }
}

/// The output with each value projected onto the fields.
pub open spec fn mapped(output: Seq<Seq<char>>, fields: Seq<Seq<char>>) -> Seq<Seq<char>> {
    Seq::new(output.len(), |i: int| projected(fields, output[i]))
}

/// The first `count` values of the output, or all where there are fewer.
pub open spec fn limited(output: Seq<Seq<char>>, count: u64) -> Seq<Seq<char>> {
    if count < output.len() {
        output.take(count as int)
    } else {
        output
    }
}

/// The output without its first `count` values, or nothing where there are
/// no more.
pub open spec fn offset_by(output: Seq<Seq<char>>, count: u64) -> Seq<Seq<char>> {
    if count < output.len() {
        output.skip(count as int)
    } else {
        Seq::empty()
    }
}

/// What an instruction other than `SetValue` does to the state of the machine,
/// and what it adds to the trace; or the kind of the error it fails with.
pub open spec fn step(database: Database, state: VmState, instruction: InstructionView) -> Result<
    (VmState, Seq<StepKind>),
    ErrorKind,
> {
    match instruction {
        InstructionView::UseStorage { name } => Ok(
            (
                VmState { storage: Some(name), output: state.output },
                seq![StepKind::SetStorage(name)],
            ),
        ),
        InstructionView::Get { key } => match state.storage {
            None => Err(ErrorKind::Execution),
            Some(name) => match database.position(name) {
                None => Err(ErrorKind::Storage),
                Some(at) => match value_of(database.storages@[at].data@, key) {
                    None => Err(ErrorKind::KeyNotFound),
                    Some(value) => Ok(
                        (
                            VmState { storage: state.storage, output: state.output.push(value) },
                            Seq::empty(),
                        ),
                    ),
                },
            },
        },
        InstructionView::GetJsonField { key, field } => match state.storage {
            None => Err(ErrorKind::Execution),
            Some(name) => match database.position(name) {
                None => Err(ErrorKind::Execution),
                Some(at) => match value_of(database.storages@[at].data@, key) {
                    None => Err(ErrorKind::Execution),
                    Some(value) => if json_document(value).member(field) is Some {
                        Ok((state, Seq::empty()))
                    } else {
                        Err(ErrorKind::Execution)
                    },
                },
            },
        },
        InstructionView::Scan {
            index_filter,
            full_scan_filter,
            string_fields_values,
            number_fields_values,
        } => match state.storage {
            None => Err(ErrorKind::Execution),
            Some(name) => match database.position(name) {
                None => Err(ErrorKind::Storage),
                Some(at) => if scans_index(database.storages@[at], string_fields_values) {
                    match index_scan(database.storages@[at], string_fields_values, index_filter) {
                        None => Err(ErrorKind::Execution),
                        Some(found) => Ok(
                            (
                                VmState { storage: state.storage, output: state.output + found },
                                seq![StepKind::IndexScan],
                            ),
                        ),
                    }
                } else {
                    Ok(
                        (
                            VmState {
                                storage: state.storage,
                                output: state.output + full_scan(
                                    database.storages@[at].data@,
                                    full_scan_filter,
                                ),
                            },
                            seq![StepKind::FullScan],
                        ),
                    )
                },
            },
        },
        InstructionView::MapOutput { fields } => Ok(
            (
                VmState { storage: state.storage, output: mapped(state.output, fields) },
                seq![StepKind::MapOutput],
            ),
        ),
        InstructionView::SortOutput { field } => Ok(
            (
                VmState { storage: state.storage, output: sorted_by_key(state.output, field) },
                seq![StepKind::SortOutput],
            ),
        ),
        InstructionView::SetLimit { count } => Ok(
            (
                VmState { storage: state.storage, output: limited(state.output, count) },
                seq![StepKind::Limit],
            ),
        ),
        InstructionView::SetOffset { count } => Ok(
            (
                VmState { storage: state.storage, output: offset_by(state.output, count) },
                seq![StepKind::Offset],
            ),
        ),
        InstructionView::SetValue { key, value } => Err(ErrorKind::Execution),
    }
}

/// What a program without `SetValue` does: the state and the trace that it ends
/// with, or the kind of the first error.
pub open spec fn evaluate(
    database: Database,
    state: VmState,
    trace: Seq<StepKind>,
    program: Seq<InstructionView>,
) -> Result<(VmState, Seq<StepKind>), ErrorKind>
    decreases program.len(),
{
    if program.len() == 0 {
        Ok((state, trace))
    } else {
        match step(database, state, program[0]) {
            Err(kind) => Err(kind),
            Ok((next, steps)) => evaluate(database, next, trace + steps, program.drop_first()),
        }
    }
}

/// Whether a run of the program from `state`, on the database `before`,
/// can leave the database `after` with this outcome: the state and the
/// trace at the end, or the kind of the first error. Each instruction works
/// on what the one before it left; `SetValue` inserts into the database.
pub open spec fn runs(
    before: Database,
    state: VmState,
    trace: Seq<StepKind>,
    program: Seq<InstructionView>,
    after: Database,
    outcome: Result<(VmState, Seq<StepKind>), ErrorKind>,
) -> bool
    decreases program.len(),
{
    if program.len() == 0 {
        after == before && outcome == Ok::<(VmState, Seq<StepKind>), ErrorKind>((state, trace))
    } else {
        match program[0] {
            InstructionView::SetValue { key, value } => match state.storage {
                None => after == before && outcome == Err::<
                    (VmState, Seq<StepKind>),
                    ErrorKind,
                >(ErrorKind::Execution),
                Some(name) => exists|between: Database, result: Result<(), Error>|
                    {
                        &&& #[trigger] set_step(before, between, name, key, value, result)
                        &&& match result {
                            Err(e) => after == between && outcome == Err::<
                                (VmState, Seq<StepKind>),
                                ErrorKind,
                            >(e.kind()),
                            Ok(_) => runs(
                                between,
                                state,
                                trace,
                                program.drop_first(),
                                after,
                                outcome,
                            ),
                        }
                    },
            },
            other => match step(before, state, other) {
                Err(kind) => after == before && outcome == Err::<
                    (VmState, Seq<StepKind>),
                    ErrorKind,
                >(kind),
                Ok((next, steps)) => runs(
                    before,
                    next,
                    trace + steps,
                    program.drop_first(),
                    after,
                    outcome,
                ),
            },
        }
    }
}

/// An insert into the current storage leaves the valid database `between`
/// and answers `result`.
pub open spec fn set_step(
    before: Database,
    between: Database,
    storage_name: Seq<char>,
    key: Seq<char>,
    value: Seq<char>,
    result: Result<(), Error>,
) -> bool {
    &&& between.wf()
    &&& insert_relation(before, between, storage_name, key, value, result)
}

/// What a run answers: the state and the trace at its end, or the kind of
/// its error.
pub open spec fn outcome_of(result: Result<Vec<ExplainStep>, Error>, state: VmState) -> Result<
    (VmState, Seq<StepKind>),
    ErrorKind,
> {
    match result {
        Ok(steps) => Ok((state, step_kinds(steps@))),
        Err(e) => Err(e.kind()),
    }
}

/// Compares two integers.
pub fn num_cond(field: i64, operator: Operator, value: i64) -> (answer: bool)
    ensures
        answer == number_holds(field as int, operator, value as int),
{
    match operator {
        Operator::GreaterThan => field > value,
        Operator::GreaterThanEqual => field >= value,
        Operator::LessThan => field < value,
        Operator::LessThanEqual => field <= value,
        Operator::Equal => field == value,
        Operator::NotEqual => field != value,
        _ => false,
    }
}

/// Compares two strings.
pub fn str_cond(field: &String, operator: Operator, value: &String) -> (answer: bool)
    ensures
        answer == text_holds(field@, operator, value@),
{
    match operator {
        Operator::Equal => *field == *value,
        Operator::NotEqual => !(*field == *value),
        _ => false,
    }
}

impl Predicate {
    /// Tests the predicate on a document.
    pub fn matches(&self, document: &Document) -> (answer: bool)
        requires
            document@.names_distinct(),
        ensures
            answer == holds(self@, document@),
        decreases self,
    {
        match self {
            Predicate::Always => true,
            Predicate::And(left, right) => left.matches(document) && right.matches(document),
            Predicate::Or(left, right) => left.matches(document) || right.matches(document),
            Predicate::Number { column, operator, literal } => match document.find(column) {
                Some(member) => match member.integer {
                    Some(n) => num_cond(n, *operator, *literal),
                    None => false,
                },
                None => false,
            },
            Predicate::Text { column, operator, literal } => match document.find(column) {
                Some(member) => match &member.text {
                    Some(t) => str_cond(t, *operator, literal),
                    None => false,
                },
                None => false,
            },
        }
    }

    /// Tests the predicate on a stored value.
    pub fn matches_value(&self, value: &String) -> (answer: bool)
        ensures
            answer == holds_of_value(self@, value@),
    {
        let document = parse_document(value.as_str());
        self.matches(&document)
    }

    /// Tests the predicate on the string that a record holds under a field.
    pub fn matches_field(&self, field: &String, value: &String) -> (answer: bool)
        ensures
            answer == holds_of_field(self@, field@, value@),
        decreases self,
    {
        match self {
            Predicate::Always => true,
            Predicate::And(left, right) => left.matches_field(field, value) && right.matches_field(
                field,
                value,
            ),
            Predicate::Or(left, right) => left.matches_field(field, value) || right.matches_field(
                field,
                value,
            ),
            Predicate::Number { column, operator, literal } => false,
            Predicate::Text { column, operator, literal } => *column == *field && str_cond(
                value,
                *operator,
                literal,
            ),
        }
    }
}

impl Filter {
    /// The predicate of the filter.
    pub fn condition(&self) -> (predicate: &Predicate)
        ensures
            *predicate == self->Condition_0,
    {
        match self {
            Filter::Condition(condition) => condition,
        }
    }
}

impl Projection {
    /// Whether the name at `at` stands among the names before it.
    fn repeated(&self, at: usize) -> (answer: bool)
        requires
            at < self.fields@.len(),
        ensures
            answer == name_views(self.fields@).take(at as int).contains(self.fields@[at as int]@),
    {
        let mut i: usize = 0;
        while i < at
            invariant
                i <= at < self.fields@.len(),
                forall|k: int| 0 <= k < i ==> self.fields@[k]@ != self.fields@[at as int]@,
            decreases at - i,
        {
            if self.fields[i] == self.fields[at] {
                proof {
                    assert(name_views(self.fields@).take(at as int)[i as int]
                        == self.fields@[at as int]@);
                }
                return true;
            }
            i += 1;
        }
        false
    }

    /// Projects a stored value onto the fields.
    pub fn apply(&self, value: &String) -> (result: String)
        ensures
            result@ == projected(name_views(self.fields@), value@),
    {
        let document = parse_document(value.as_str());
        if matches!(document, Document::Invalid) {
            return String::from_str("{}");
        }
        let mut result = String::from_str("{");
        let mut i: usize = 0;
        let ghost names = name_views(self.fields@);
        proof {
            assert(names.take(0) =~= Seq::empty());
        }
        while i < self.fields.len()
            invariant
                i <= self.fields@.len(),
                names == name_views(self.fields@),
                document@ == json_document(value@),
                document@.names_distinct(),
                result@ == "{"@ + members_text(document@, names.take(i as int)),
            decreases self.fields.len() - i,
        {
            proof {
                assert(names.take(i + 1).drop_last() =~= names.take(i as int));
                assert(names.take(i + 1).last() == self.fields@[i as int]@);
            }
            if !self.repeated(i) {
                if i > 0 {
                    result.append(",");
                }
                let quoted = quote_text(self.fields[i].as_str());
                result.append(quoted.as_str());
                result.append(":");
                match document.find(&self.fields[i]) {
                    Some(member) => {
                        result.append(member.rendered.as_str());
                    },
                    None => {
                        result.append("null");
                    },
                }
                proof {
                    let name = self.fields@[i as int]@;
                    let before = "{"@ + members_text(document@, names.take(i as int));
                    if i > 0 {
                        assert(result@ =~= before + (","@ + member_text(document@, name)));
                        assert(before + (","@ + member_text(document@, name)) =~= "{"@ + (
                        members_text(document@, names.take(i as int)) + ","@ + member_text(
                            document@,
                            name,
                        )));
                    } else {
                        assert(members_text(document@, names.take(0)) =~= Seq::<char>::empty());
                        assert(result@ =~= "{"@ + member_text(document@, name));
                    }
                }
            }
            i += 1;
        }
        proof {
            assert(names.take(i as int) =~= names);
        }
        result.append("}");
        result
    }
}

/// The characters by which a stored value is ordered on a field.
pub fn key_of(field: &String, value: &String) -> (key: Vec<char>)
    ensures
        key@ == sort_key(field@, value@),
{
    let document = parse_document(value.as_str());
    match document.find(field) {
        Some(member) => chars_of(member.rendered.as_str()),
        None => chars_of("null"),
    }
}

/// Sorts the values by their keys on the field, values of one key keeping
/// their order.
pub fn sort_by_field(values: &Vec<String>, field: &String) -> (sorted: Vec<String>)
    ensures
        text_views(sorted@) == sorted_by_key(text_views(values@), field@),
{
    let mut sorted: Vec<String> = Vec::new();
    let mut keys: Vec<Vec<char>> = Vec::new();
    let mut i: usize = 0;
    proof {
        assert(text_views(values@).take(0) =~= Seq::empty());
        assert(text_views(sorted@) =~= Seq::empty());
    }
    while i < values.len()
        invariant
            i <= values@.len(),
            keys@.len() == sorted@.len(),
            forall|j: int|
                0 <= j < sorted@.len() ==> (#[trigger] keys@[j])@ == sort_key(
                    field@,
                    sorted@[j]@,
                ),
            text_views(sorted@) == sorted_by_key(text_views(values@).take(i as int), field@),
        decreases values.len() - i,
    {
        let key = key_of(field, &values[i]);
        let mut place: usize = sorted.len();
        while place > 0 && !precedes(&keys[place - 1], &key)
            invariant
                place <= sorted@.len(),
                keys@.len() == sorted@.len(),
                key@ == sort_key(field@, values@[i as int]@),
                forall|j: int|
                    0 <= j < sorted@.len() ==> (#[trigger] keys@[j])@ == sort_key(
                        field@,
                        sorted@[j]@,
                    ),
                forall|j: int|
                    place <= j < sorted@.len() ==> !lex_le(
                        sort_key(field@, #[trigger] text_views(sorted@)[j]),
                        sort_key(field@, values@[i as int]@),
                    ),
            decreases place,
        {
            proof {
                assert(text_views(sorted@)[place - 1] == sorted@[place - 1]@);
            }
            place -= 1;
        }
        proof {
            let before = text_views(sorted@);
            if place > 0 {
                assert(before[place - 1] == sorted@[place - 1]@);
                assert(keys@[place - 1]@ == sort_key(field@, sorted@[place - 1]@));
            }
            lemma_inserted_at(before, values@[i as int]@, field@, place as int);
            assert(text_views(values@).take(i + 1).drop_last() =~= text_views(values@).take(
                i as int,
            ));
            assert(text_views(values@).take(i + 1).last() == values@[i as int]@);
        }
        let ghost before = text_views(sorted@);
        sorted.insert(place, values[i].clone());
        keys.insert(place, key);
        proof {
            assert(text_views(sorted@) =~= before.insert(place as int, values@[i as int]@));
        }
        i += 1;
    }
    proof {
        assert(text_views(values@).take(i as int) =~= text_views(values@));
    }
    sorted
}

/// `tokio::time::Instant::now`: the present moment. Nothing is claimed of
/// it.
#[verifier::external_body]
fn clock_start() -> (start: tokio::time::Instant) {
    tokio::time::Instant::now()
}

/// `tokio::time::Instant::elapsed`, read through `Duration::as_secs` and
/// `Duration::subsec_nanos`: the time since `start`. Nothing is claimed of
/// it but that the nanoseconds stay below one second.
#[verifier::external_body]
fn clock_elapsed(start: &tokio::time::Instant) -> (time: ScanTime)
    ensures
        time.nanos < 1_000_000_000,
{
    let elapsed = start.elapsed();
    ScanTime { secs: elapsed.as_secs(), nanos: elapsed.subsec_nanos() }
}

/// Walks over all records and keeps the values that satisfy the predicate.
pub fn full_scan_values(storage: &Storage, predicate: &Predicate) -> (found: Vec<String>)
    ensures
        text_views(found@) == full_scan(storage.data@, predicate@),
{
    let mut found: Vec<String> = Vec::new();
    let mut i: usize = 0;
    proof {
        assert(storage.data@.take(0) =~= Seq::empty());
        assert(text_views(found@) =~= Seq::empty());
    }
    while i < storage.data.len()
        invariant
            i <= storage.data@.len(),
            text_views(found@) == full_scan(storage.data@.take(i as int), predicate@),
        decreases storage.data.len() - i,
    {
        proof {
            assert(storage.data@.take(i + 1).drop_last() =~= storage.data@.take(i as int));
            assert(storage.data@.take(i + 1).last() == storage.data@[i as int]);
        }
        let ghost before = text_views(found@);
        if predicate.matches_value(&storage.data[i].value) {
            found.push(storage.data[i].value.clone());
            proof {
                assert(text_views(found@) =~= before.push(storage.data@[i as int].value@));
            }
        }
        i += 1;
    }
    proof {
        assert(storage.data@.take(i as int) =~= storage.data@);
    }
    found
}

/// Tests whether each of the fields has an index.
pub fn fields_indexed(indexes: &IndexList, fields: &Vec<(String, String)>) -> (answer: bool)
    ensures
        answer == all_indexed(*indexes, text_pair_views(fields@)),
{
    let mut i: usize = 0;
    while i < fields.len()
        invariant
            i <= fields@.len(),
            forall|k: int|
                0 <= k < i ==> indexes.position((#[trigger] text_pair_views(fields@)[k]).0) is Some,
        decreases fields.len() - i,
    {
        if !indexes.index_exists(&fields[i].0) {
            proof {
                assert(text_pair_views(fields@)[i as int].0 == fields@[i as int].0@);
            }
            return false;
        }
        i += 1;
    }
    true
}

/// Searches the index of one listed field after the other. `None` where
/// the index of a listed field is the ordered one.
pub fn index_scan_values(
    storage: &Storage,
    fields: &Vec<(String, String)>,
    predicate: &Predicate,
) -> (found: Option<Vec<String>>)
    ensures
        match found {
            Some(values) => index_scan(*storage, text_pair_views(fields@), predicate@) == Some(
                text_views(values@),
            ),
            None => index_scan(*storage, text_pair_views(fields@), predicate@) is None,
        },
{
    let mut found: Vec<String> = Vec::new();
    let mut i: usize = 0;
    let ghost all = text_pair_views(fields@);
    proof {
        assert(all.take(0) =~= Seq::empty());
        assert(text_views(found@) =~= Seq::empty());
    }
    while i < fields.len()
        invariant
            i <= fields@.len(),
            all == text_pair_views(fields@),
            index_scan(*storage, all.take(i as int), predicate@) == Some(text_views(found@)),
        decreases fields.len() - i,
    {
        proof {
            assert(all.take(i + 1).drop_last() =~= all.take(i as int));
            assert(all.take(i + 1).last() == all[i as int]);
        }
        match storage.indexes.get_index(&fields[i].0) {
            Some(index) => {
                if matches!(index, Index::BTreeUnique(_)) {
                    proof {
                        lemma_index_scan_fails_on(*storage, all, predicate@, i + 1);
                    }
                    return None;
                }
                let keys = Storage::search_keys(index, &fields[i].0, predicate);
                let mut values = storage.values_under(&keys);
                let ghost before = text_views(found@);
                let ghost added = text_views(values@);
                found.append(&mut values);
                proof {
                    assert(text_views(found@) =~= before + added);
                }
            },
            None => {},
        }
        i += 1;
    }
    proof {
        assert(all.take(i as int) =~= all);
    }
    Some(found)
}

/// Projects each value of the output.
pub fn map_output(output: &Vec<String>, projection: &Projection) -> (result: Vec<String>)
    ensures
        text_views(result@) == mapped(text_views(output@), name_views(projection.fields@)),
{
    let mut result: Vec<String> = Vec::new();
    let mut i: usize = 0;
    while i < output.len()
        invariant
            i <= output@.len(),
            result@.len() == i,
            forall|k: int|
                0 <= k < i ==> (#[trigger] result@[k])@ == projected(
                    name_views(projection.fields@),
                    output@[k]@,
                ),
        decreases output.len() - i,
    {
        result.push(projection.apply(&output[i]));
        i += 1;
    }
    proof {
        assert(text_views(result@) =~= mapped(
            text_views(output@),
            name_views(projection.fields@),
        ));
    }
    result
}

/// The values from `from` up to `to`.
pub fn slice_of(output: &Vec<String>, from: usize, to: usize) -> (result: Vec<String>)
    requires
        from <= to <= output@.len(),
    ensures
        text_views(result@) == text_views(output@).subrange(from as int, to as int),
{
    let mut result: Vec<String> = Vec::new();
    let mut i: usize = from;
    while i < to
        invariant
            from <= i <= to <= output@.len(),
            result@.len() == i - from,
            forall|k: int| 0 <= k < i - from ==> (#[trigger] result@[k])@ == output@[from + k]@,
        decreases to - i,
    {
        result.push(output[i].clone());
        i += 1;
    }
    proof {
        assert(text_views(result@) =~= text_views(output@).subrange(from as int, to as int));
    }
    result
}

impl WitchVMKV {
    /// A machine with no storage chosen and no output.
    pub fn new() -> (vm: WitchVMKV)
        ensures
            vm@.storage is None,
            vm@.output =~= Seq::empty(),
    {
        WitchVMKV { instruction_storage_name: None, output: Vec::new() }
    }

    /// Gives up the machine for its output.
    pub fn into_output(self) -> (output: Vec<String>)
        ensures
            text_views(output@) == self@.output,
    {
        self.output
    }

    /// Runs one instruction other than `SetValue`.
    fn run_step(&mut self, database: &Database, instruction: &Instruction) -> (result: Result<
        Vec<ExplainStep>,
        Error,
    >)
        requires
            !(instruction is SetValue),
        ensures
            match result {
                Ok(steps) => step(*database, old(self)@, instruction@) == Ok::<
                    (VmState, Seq<StepKind>),
                    ErrorKind,
                >((final(self)@, step_kinds(steps@))),
                Err(e) => step(*database, old(self)@, instruction@) == Err::<
                    (VmState, Seq<StepKind>),
                    ErrorKind,
                >(e.kind()),
            },
    {
        let mut steps: Vec<ExplainStep> = Vec::new();
        match instruction {
            Instruction::UseStorage { name } => {
                self.instruction_storage_name = Some(name.clone());
                steps.push(ExplainStep::SetStorage(name.clone()));
                proof {
                    assert(step_kinds(steps@) =~= seq![StepKind::SetStorage(name@)]);
                }
            },
            Instruction::Get { key } => {
                let storage_name = match &self.instruction_storage_name {
                    Some(name) => name.clone(),
                    None => {
                        return Err(
                            Error::ExecutionError(String::from_str("No storage name provided")),
                        );
                    },
                };
                let ghost before = text_views(self.output@);
                match database.get(storage_name, key.clone()) {
                    Ok(value) => {
                        self.output.push(value);
                        proof {
                            assert(text_views(self.output@) =~= before.push(value@));
                            assert(step_kinds(steps@) =~= Seq::empty());
                        }
                    },
                    Err(e) => {
                        return Err(e);
                    },
                }
            },
            Instruction::GetJsonField { key, field } => {
                let storage_name = match &self.instruction_storage_name {
                    Some(name) => name.clone(),
                    None => {
                        return Err(
                            Error::ExecutionError(String::from_str("No storage name provided")),
                        );
                    },
                };
                match database.get(storage_name, key.clone()) {
                    Ok(value) => {
                        let document = parse_document(value.as_str());
                        if document.find(field).is_none() {
                            return Err(
                                Error::ExecutionError(
                                    crate::text::join5(
                                        "JSON field '",
                                        field.as_str(),
                                        "' not found in key '",
                                        key.as_str(),
                                        "'",
                                    ),
                                ),
                            );
                        }
                        proof {
                            assert(step_kinds(steps@) =~= Seq::empty());
                        }
                    },
                    Err(_) => {
                        return Err(
                            Error::ExecutionError(
                                crate::text::join3("Key '", key.as_str(), "' not found"),
                            ),
                        );
                    },
                }
            },
            Instruction::Scan {
                index_filter,
                full_scan_filter,
                string_fields_values,
                number_fields_values,
            } => {
                let start = clock_start();
                let storage_name = match &self.instruction_storage_name {
                    Some(name) => name.clone(),
                    None => {
                        return Err(
                            Error::ExecutionError(String::from_str("No storage name provided")),
                        );
                    },
                };
                let storage = match database.get_storage(storage_name) {
                    Ok(storage) => storage,
                    Err(e) => {
                        return Err(e);
                    },
                };
                let ghost before = text_views(self.output@);
                if string_fields_values.len() > 0 && fields_indexed(
                    &storage.indexes,
                    string_fields_values,
                ) {
                    match index_scan_values(storage, string_fields_values, index_filter.condition()) {
                        Some(found) => {
                            let mut found = found;
                            let ghost added = text_views(found@);
                            self.output.append(&mut found);
                            proof {
                                assert(text_views(self.output@) =~= before + added);
                            }
                        },
                        None => {
                            return Err(
                                Error::ExecutionError(
                                    String::from_str("BTreeUnique indexes are for numbers only"),
                                ),
                            );
                        },
                    }
                    steps.push(ExplainStep::IndexScan { time: clock_elapsed(&start) });
                    proof {
                        assert(step_kinds(steps@) =~= seq![StepKind::IndexScan]);
                    }
                } else {
                    let mut found = full_scan_values(storage, full_scan_filter.condition());
                    let ghost added = text_views(found@);
                    self.output.append(&mut found);
                    proof {
                        assert(text_views(self.output@) =~= before + added);
                    }
                    steps.push(ExplainStep::FullScan { time: clock_elapsed(&start) });
                    proof {
                        assert(step_kinds(steps@) =~= seq![StepKind::FullScan]);
                    }
                }
            },
            Instruction::MapOutput { map_fn } => {
                self.output = map_output(&self.output, map_fn);
                steps.push(ExplainStep::MapOutput);
                proof {
                    assert(step_kinds(steps@) =~= seq![StepKind::MapOutput]);
                }
            },
            Instruction::SortOutput { field } => {
                self.output = sort_by_field(&self.output, field);
                steps.push(ExplainStep::SortOutput);
                proof {
                    assert(step_kinds(steps@) =~= seq![StepKind::SortOutput]);
                }
            },
            Instruction::SetLimit { count } => {
                if *count < self.output.len() as u64 {
                    self.output = slice_of(&self.output, 0, *count as usize);
                }
                steps.push(ExplainStep::Limit);
                proof {
                    assert(step_kinds(steps@) =~= seq![StepKind::Limit]);
                }
            },
            Instruction::SetOffset { count } => {
                if *count < self.output.len() as u64 {
                    self.output = slice_of(&self.output, *count as usize, self.output.len());
                } else {
                    self.output = Vec::new();
                    proof {
                        assert(text_views(self.output@) =~= Seq::empty());
                    }
                }
                steps.push(ExplainStep::Offset);
                proof {
                    assert(step_kinds(steps@) =~= seq![StepKind::Offset]);
                }
            },
            Instruction::SetValue { key, value } => {},
        }
        Ok(steps)
    }

    /// Runs the program, one instruction after the other, each on what the
    /// one before it left. The first error ends the run.
    ///
    /// The answer is the trace of the run. What holds of the output after a
    /// failed run is not said.
    pub fn execute(&mut self, database: &mut Database, instructions: Vec<Instruction>) -> (result:
        Result<Vec<ExplainStep>, Error>)
        requires
            old(database).wf(),
        ensures
            final(database).wf(),
            runs(
                *old(database),
                old(self)@,
                Seq::empty(),
                program_view(instructions@),
                *final(database),
                outcome_of(result, final(self)@),
            ),
    {
        let mut explain: Vec<ExplainStep> = Vec::new();
        let ghost program = program_view(instructions@);
        let mut i: usize = 0;
        proof {
            assert(program.skip(0) =~= program);
            assert(step_kinds(explain@) =~= Seq::empty());
        }
        while i < instructions.len()
            invariant
                i <= instructions@.len(),
                database.wf(),
                program == program_view(instructions@),
                forall|after: Database, outcome: Result<(VmState, Seq<StepKind>), ErrorKind>|
                    #[trigger] runs(
                        *database,
                        self@,
                        step_kinds(explain@),
                        program.skip(i as int),
                        after,
                        outcome,
                    ) ==> runs(*old(database), old(self)@, Seq::empty(), program, after, outcome),
            decreases instructions.len() - i,
        {
            let ghost db_before = *database;
            let ghost state_before = self@;
            let ghost trace_before = step_kinds(explain@);
            let ghost rest = program.skip(i as int);
            proof {
                assert(rest.len() > 0);
                assert(rest[0] == instructions@[i as int]@);
                assert(rest.drop_first() =~= program.skip(i + 1));
            }
            match &instructions[i] {
                Instruction::SetValue { key, value } => {
                    let storage_name = match &self.instruction_storage_name {
                        Some(name) => name.clone(),
                        None => {
                            proof {
                                assert(runs(
                                    db_before,
                                    state_before,
                                    trace_before,
                                    rest,
                                    db_before,
                                    Err(ErrorKind::Execution),
                                ));
                            }
                            return Err(
                                Error::ExecutionError(String::from_str("No storage name provided")),
                            );
                        },
                    };
                    let inserted = database.insert(storage_name, key.clone(), value.clone());
                    match inserted {
                        Ok(_) => {
                            proof {
                                assert forall|
                                    after: Database,
                                    outcome: Result<(VmState, Seq<StepKind>), ErrorKind>,
                                | #[trigger]
                                    runs(
                                        *database,
                                        self@,
                                        step_kinds(explain@),
                                        program.skip(i + 1),
                                        after,
                                        outcome,
                                    ) implies runs(
                                    *old(database),
                                    old(self)@,
                                    Seq::empty(),
                                    program,
                                    after,
                                    outcome,
                                ) by {
                                    assert(rest.drop_first() == program.skip(i + 1));
                                    lemma_set_continues(
                                        db_before,
                                        state_before,
                                        trace_before,
                                        rest,
                                        *database,
                                        inserted,
                                        after,
                                        outcome,
                                    );
                                    assert(runs(
                                        db_before,
                                        state_before,
                                        trace_before,
                                        rest,
                                        after,
                                        outcome,
                                    ));
                                }
                            }
                        },
                        Err(e) => {
                            proof {
                                lemma_set_fails(
                                    db_before,
                                    state_before,
                                    trace_before,
                                    rest,
                                    *database,
                                    inserted,
                                );
                                assert(runs(
                                    db_before,
                                    state_before,
                                    trace_before,
                                    rest,
                                    *database,
                                    Err(e.kind()),
                                ));
                            }
                            return Err(e);
                        },
                    }
                },
                other => {
                    match self.run_step(database, other) {
                        Ok(steps) => {
                            let mut steps = steps;
                            let ghost added = step_kinds(steps@);
                            explain.append(&mut steps);
                            proof {
                                assert(step_kinds(explain@) =~= trace_before + added);
                                assert forall|
                                    after: Database,
                                    outcome: Result<(VmState, Seq<StepKind>), ErrorKind>,
                                | #[trigger]
                                    runs(
                                        *database,
                                        self@,
                                        step_kinds(explain@),
                                        program.skip(i + 1),
                                        after,
                                        outcome,
                                    ) implies runs(
                                    *old(database),
                                    old(self)@,
                                    Seq::empty(),
                                    program,
                                    after,
                                    outcome,
                                ) by {
                                    assert(runs(
                                        db_before,
                                        state_before,
                                        trace_before,
                                        rest,
                                        after,
                                        outcome,
                                    ));
                                }
                            }
                        },
                        Err(e) => {
                            proof {
                                assert(runs(
                                    db_before,
                                    state_before,
                                    trace_before,
                                    rest,
                                    db_before,
                                    Err(e.kind()),
                                ));
                            }
                            return Err(e);
                        },
                    }
                },
            }
            i += 1;
        }
        proof {
            assert(program.skip(i as int) =~= Seq::empty());
            assert(runs(
                *database,
                self@,
                step_kinds(explain@),
                program.skip(i as int),
                *database,
                Ok((self@, step_kinds(explain@))),
            ));
        }
        Ok(explain)
    }
}

/// The place that a value takes among sorted values is the first behind
/// which every key comes after its own.
pub proof fn lemma_inserted_at(
    sorted: Seq<Seq<char>>,
    value: Seq<char>,
    field: Seq<char>,
    place: int,
)
    requires
        0 <= place <= sorted.len(),
        forall|j: int|
            place <= j < sorted.len() ==> !lex_le(
                sort_key(field, #[trigger] sorted[j]),
                sort_key(field, value),
            ),
        place > 0 ==> lex_le(sort_key(field, sorted[place - 1]), sort_key(field, value)),
    ensures
        inserted_by_key(sorted, value, field) == sorted.insert(place, value),
    decreases sorted.len() - place,
{
    if sorted.len() == 0 {
        assert(sorted.insert(place, value) =~= seq![value]);
    } else if place == sorted.len() {
        assert(sorted.insert(place, value) =~= sorted.push(value));
    } else {
        let rest = sorted.drop_last();
        assert(!lex_le(sort_key(field, sorted[sorted.len() - 1]), sort_key(field, value)));
        assert forall|j: int| place <= j < rest.len() implies !lex_le(
            sort_key(field, #[trigger] rest[j]),
            sort_key(field, value),
        ) by {
            assert(rest[j] == sorted[j]);
        }
        lemma_inserted_at(rest, value, field, place);
        assert(rest.insert(place, value).push(sorted.last()) =~= sorted.insert(place, value));
    }
}

/// An index scan that fails on some fields fails on any more.
pub proof fn lemma_index_scan_fails_on(
    storage: Storage,
    fields: Seq<(Seq<char>, Seq<char>)>,
    predicate: PredicateView,
    upto: int,
)
    requires
        0 <= upto <= fields.len(),
        index_scan(storage, fields.take(upto), predicate) is None,
    ensures
        index_scan(storage, fields, predicate) is None,
    decreases fields.len() - upto,
{
    if upto < fields.len() {
        assert(fields.take(upto + 1).drop_last() =~= fields.take(upto));
        lemma_index_scan_fails_on(storage, fields, predicate, upto + 1);
    } else {
        assert(fields.take(upto) =~= fields);
    }
}

/// A failed insert ends a run.
pub proof fn lemma_set_fails(
    before: Database,
    state: VmState,
    trace: Seq<StepKind>,
    program: Seq<InstructionView>,
    between: Database,
    result: Result<(), Error>,
)
    requires
        program.len() > 0,
        program[0] is SetValue,
        state.storage is Some,
        result is Err,
        set_step(
            before,
            between,
            state.storage->Some_0,
            program[0]->SetValue_key,
            program[0]->SetValue_value,
            result,
        ),
    ensures
        runs(before, state, trace, program, between, Err(result->Err_0.kind())),
{
    let outcome = Err::<(VmState, Seq<StepKind>), ErrorKind>(result->Err_0.kind());
    let name = state.storage->Some_0;
    let key = program[0]->SetValue_key;
    let value = program[0]->SetValue_value;
    assert(set_step(before, between, name, key, value, result) && match result {
        Err(e) => between == between && outcome == Err::<(VmState, Seq<StepKind>), ErrorKind>(
            e.kind(),
        ),
        Ok(_) => runs(between, state, trace, program.drop_first(), between, outcome),
    });
}

/// A run goes on behind an insert that went well.
pub proof fn lemma_set_continues(
    before: Database,
    state: VmState,
    trace: Seq<StepKind>,
    program: Seq<InstructionView>,
    between: Database,
    result: Result<(), Error>,
    after: Database,
    outcome: Result<(VmState, Seq<StepKind>), ErrorKind>,
)
    requires
        program.len() > 0,
        program[0] is SetValue,
        state.storage is Some,
        result is Ok,
        set_step(
            before,
            between,
            state.storage->Some_0,
            program[0]->SetValue_key,
            program[0]->SetValue_value,
            result,
        ),
        runs(between, state, trace, program.drop_first(), after, outcome),
    ensures
        runs(before, state, trace, program, after, outcome),
{
    let name = state.storage->Some_0;
    let key = program[0]->SetValue_key;
    let value = program[0]->SetValue_value;
    assert(set_step(before, between, name, key, value, result) && match result {
        Err(e) => after == between && outcome == Err::<(VmState, Seq<StepKind>), ErrorKind>(
            e.kind(),
        ),
        Ok(_) => runs(between, state, trace, program.drop_first(), after, outcome),
    });
}

} // verus!
