//! The facade over the query pipeline: text to tokens, tokens to tree, tree
//! to program, program to output.

use vstd::prelude::*;
use vstd::string::*;
use crate::database::Database;
use crate::error::{Error, ErrorKind};
use crate::sql::codegen::generated;
use crate::sql::parser::parsed;
use crate::sql::{tokens_of, CodeGenerator, Lexer, Parser};
use crate::witchvm_kv::{
    evaluate, program_view, runs, step_kinds, text_views, ExplainStep, InstructionView, StepKind,
    VmState, WitchVMKV,
};

verus! {

/// The program of a query text, or the kind of the error: `Syntax` where
/// the text writes no query.
pub open spec fn compiled(query: Seq<char>) -> Result<Seq<InstructionView>, ErrorKind> {
    match parsed(tokens_of(query)) {
        None => Err(ErrorKind::Syntax),
        Some(ast) => generated(ast),
    }
}

/// What a query finds in a database: the state of a fresh machine after
/// the program of the query, with the trace of the run; or the kind of the
/// first error.
pub open spec fn answer(database: Database, query: Seq<char>) -> Result<
    (VmState, Seq<StepKind>),
    ErrorKind,
> {
    match compiled(query) {
        Err(kind) => Err(kind),
        Ok(program) => evaluate(
            database,
            VmState { storage: None, output: Seq::empty() },
            Seq::empty(),
            program,
        ),
    }
}

/// The texts one after the other, with a comma between each two.
pub open spec fn comma_joined(texts: Seq<Seq<char>>) -> Seq<char>
    decreases texts.len(),
{
    if texts.len() == 0 {
        Seq::empty()
    } else if texts.len() == 1 {
        texts[0]
    } else {
        comma_joined(texts.drop_last()) + ","@ + texts.last()
    }
}

/// What a query does, and what it answers: the database stays as it was;
/// the answer is the output that the query finds, its values joined by
/// commas, or an error of the kind that the query fails with.
pub open spec fn query_outcome(
    before: Database,
    after: Database,
    query: Seq<char>,
    result: Result<String, Error>,
) -> bool {
    &&& after == before
    &&& match result {
        Ok(text) => answer(before, query) is Ok && text@ == comma_joined(
            answer(before, query)->Ok_0.0.output,
        ),
        Err(e) => answer(before, query) == Err::<(VmState, Seq<StepKind>), ErrorKind>(e.kind()),
    }
}

/// Joins the texts with commas.
pub fn join_with_commas(texts: &Vec<String>) -> (joined: String)
    ensures
        joined@ == comma_joined(text_views(texts@)),
{
    let mut joined = String::new();
    let mut i: usize = 0;
    let ghost all = text_views(texts@);
    proof {
        assert(all.take(0) =~= Seq::empty());
    }
    while i < texts.len()
        invariant
            i <= texts@.len(),
            all == text_views(texts@),
            joined@ == comma_joined(all.take(i as int)),
        decreases texts.len() - i,
    {
        proof {
            assert(all.take(i + 1).drop_last() =~= all.take(i as int));
            assert(all.take(i + 1).last() == texts@[i as int]@);
            assert(all.take(i + 1)[0] == all[0]);
        }
        if i > 0 {
            joined.append(",");
        }
        joined.append(texts[i].as_str());
        proof {
            if i == 0 {
                assert(joined@ =~= texts@[0]@);
            }
        }
        i += 1;
    }
    proof {
        assert(all.take(i as int) =~= all);
    }
    joined
}

/// Runs a query: the output of the program that the text compiles to, its
/// values joined by commas.
///
/// Fails with `SyntaxError` where the text writes no query, and with the
/// first error of the program else. The database stays as it was.
pub fn handle_query(database: &mut Database, query: String) -> (result: Result<String, Error>)
    requires
        old(database).wf(),
    ensures
        query_outcome(*old(database), *final(database), query@, result),
{
    let mut vm = WitchVMKV::new();
    match run_query(database, &mut vm, query) {
        Ok(_) => Ok(join_with_commas(&vm.into_output())),
        Err(e) => Err(e),
    }
}

/// Runs a query for its trace: the steps that the program of the query
/// took, scans with the time they needed.
///
/// Fails as `handle_query` does. The database stays as it was.
pub fn explain_query(database: &mut Database, query: String) -> (result: Result<
    Vec<ExplainStep>,
    Error,
>)
    requires
        old(database).wf(),
    ensures
        *final(database) == *old(database),
        match result {
            Ok(steps) => answer(*old(database), query@) is Ok && step_kinds(steps@) == answer(
                *old(database),
                query@,
            )->Ok_0.1,
            Err(e) => answer(*old(database), query@) == Err::<(VmState, Seq<StepKind>), ErrorKind>(
                e.kind(),
            ),
        },
{
    let mut vm = WitchVMKV::new();
    run_query(database, &mut vm, query)
}

/// Compiles the query and runs its program on a fresh machine.
fn run_query(database: &mut Database, vm: &mut WitchVMKV, query: String) -> (result: Result<
    Vec<ExplainStep>,
    Error,
>)
    requires
        old(database).wf(),
        old(vm)@.storage is None,
        old(vm)@.output =~= Seq::empty(),
    ensures
        *final(database) == *old(database),
        match result {
            Ok(steps) => answer(*old(database), query@) == Ok::<
                (VmState, Seq<StepKind>),
                ErrorKind,
            >((final(vm)@, step_kinds(steps@))),
            Err(e) => answer(*old(database), query@) == Err::<(VmState, Seq<StepKind>), ErrorKind>(
                e.kind(),
            ),
        },
{
    let mut lexer = Lexer::new(query.as_str());
    let tokens = lexer.tokenize();
    let mut parser = Parser::new(tokens);
    let ast = match parser.parse() {
        Ok(ast) => ast,
        Err(e) => {
            return Err(e);
        },
    };
    let mut generator = CodeGenerator::new();
    match generator.generate(&ast) {
        Ok(_) => {},
        Err(e) => {
            return Err(e);
        },
    }
    proof {
        assert(program_view(generator.instructions@) =~= compiled(query@)->Ok_0);
        lemma_compiled_reads_only(query@);
    }
    let ghost program = program_view(generator.instructions@);
    let ghost start = vm@;
    let result = vm.execute(database, generator.instructions);
    proof {
        assert(start == VmState { storage: None, output: Seq::empty() });
        lemma_read_only_run(
            *old(database),
            start,
            Seq::empty(),
            program,
            *database,
            crate::witchvm_kv::outcome_of(result, vm@),
        );
    }
    result
}

/// A program without `SetValue` leaves the database as it was, and ends as
/// its evaluation says.
pub proof fn lemma_read_only_run(
    before: Database,
    state: VmState,
    trace: Seq<StepKind>,
    program: Seq<InstructionView>,
    after: Database,
    outcome: Result<(VmState, Seq<StepKind>), ErrorKind>,
)
    requires
        runs(before, state, trace, program, after, outcome),
        forall|i: int| 0 <= i < program.len() ==> !((#[trigger] program[i]) is SetValue),
    ensures
        after == before,
        outcome == evaluate(before, state, trace, program),
    decreases program.len(),
{
    if program.len() > 0 {
        assert(!(program[0] is SetValue));
        match crate::witchvm_kv::step(before, state, program[0]) {
            Err(kind) => {},
            Ok((next, steps)) => {
                let rest = program.drop_first();
                assert forall|i: int| 0 <= i < rest.len() implies !((#[trigger] rest[i]) is SetValue) by {
                    assert(rest[i] == program[i + 1]);
                }
                lemma_read_only_run(before, next, trace + steps, rest, after, outcome);
            },
        }
    }
}

/// The program of a query holds no `SetValue`.
pub proof fn lemma_compiled_reads_only(query: Seq<char>)
    requires
        compiled(query) is Ok,
    ensures
        forall|i: int|
            0 <= i < compiled(query)->Ok_0.len() ==> !((#[trigger] compiled(query)->Ok_0[i])
                is SetValue),
{
    let program = compiled(query)->Ok_0;
    let ast = parsed(tokens_of(query))->Some_0;
    assert(generated(ast) == Ok::<Seq<InstructionView>, ErrorKind>(program));
    assert forall|i: int| 0 <= i < program.len() implies !((#[trigger] program[i]) is SetValue) by {
        match ast {
            crate::sql::parser::AstView::Select {
                fields,
                from,
                where_clause,
                order_by,
                limit,
                offset,
            } => {
                let projection = crate::sql::codegen::projection_of(fields)->Ok_0;
                let tail = crate::sql::codegen::tail_of(projection, order_by, limit, offset);
                let a: Seq<InstructionView> = match projection {
                    Some(fields) => seq![InstructionView::MapOutput { fields }],
                    None => Seq::empty(),
                };
                let b: Seq<InstructionView> = match order_by {
                    Some(field) => seq![InstructionView::SortOutput { field }],
                    None => Seq::empty(),
                };
                let c: Seq<InstructionView> = match offset {
                    Some(count) => seq![InstructionView::SetOffset { count }],
                    None => Seq::empty(),
                };
                let d: Seq<InstructionView> = match limit {
                    Some(count) => seq![InstructionView::SetLimit { count }],
                    None => Seq::empty(),
                };
                assert(tail == a + b + c + d);
                if i >= 2 {
                    let k = i - 2;
                    assert(program[i] == tail[k]);
                    if k < a.len() {
                        assert(tail[k] == a[k]);
                    } else if k < a.len() + b.len() {
                        assert(tail[k] == b[k - a.len()]);
                    } else if k < a.len() + b.len() + c.len() {
                        assert(tail[k] == c[k - a.len() - b.len()]);
                    } else {
                        assert(tail[k] == d[k - a.len() - b.len() - c.len()]);
                    }
                }
            },
            _ => {},
        }
    }
}

} // verus!
