//! The code generator: syntax tree to program.
//!
//! A query becomes `UseStorage`, one `Scan` and, as far as the query asks
//! for them, `MapOutput`, `SortOutput`, `SetOffset` and `SetLimit`, in that
//! order.
//!
//! The scan carries the condition twice, for the index path and for the
//! walk over all records, and the equality comparisons of the condition as
//! hints, strings apart from numbers. Hints are taken from both sides of an
//! `OR`; an `AND` gives none, so a query whose condition is a conjunction
//! always walks over all records.

use vstd::prelude::*;
use vstd::string::*;
use crate::error::{Error, ErrorKind};
use crate::sql::parser::{
    ast_view, field_views, optional_text, whole_number, whole_part_up_to, AstNode, AstView,
    FieldExpression, FieldView, LiteralValue, LiteralView, Operator,
};
use crate::witchvm_kv::{
    name_views, number_pair_views, predicate_view, program_view, text_pair_views, Filter,
    Instruction, InstructionView, Predicate, PredicateView, Projection,
};

verus! {

/// The generator of the program of one query.
pub struct CodeGenerator {
    /// The program so far.
    pub instructions: Vec<Instruction>,
}

/// The integer that a written number stands for in a comparison: its whole
/// part, or the greatest integer where that is greater.
pub open spec fn literal_integer(digits: Seq<char>) -> i64 {
    whole_part_up_to(digits, i64::MAX as nat) as i64
}

/// The predicate that a condition writes, or `Query` where the tree is no
/// condition: where a node is neither a connective over two conditions nor
/// a comparison of a column with a literal.
pub open spec fn condition_of(condition: AstView) -> Result<PredicateView, ErrorKind>
    decreases condition,
{
    match condition {
        AstView::BinaryOp { left, operator, right } => match operator {
            Operator::And => match (condition_of(*left), condition_of(*right)) {
                (Ok(l), Ok(r)) => Ok(PredicateView::And(Box::new(l), Box::new(r))),
                _ => Err(ErrorKind::Query),
            },
            Operator::Or => match (condition_of(*left), condition_of(*right)) {
                (Ok(l), Ok(r)) => Ok(PredicateView::Or(Box::new(l), Box::new(r))),
                _ => Err(ErrorKind::Query),
            },
            _ => match (*left, *right) {
                (AstView::Column(column), AstView::Literal(LiteralView::Number(digits))) => Ok(
                    PredicateView::Number { column, operator, literal: literal_integer(digits) },
                ),
                (AstView::Column(column), AstView::Literal(LiteralView::String(text))) => Ok(
                    PredicateView::Text { column, operator, literal: text },
                ),
                _ => Err(ErrorKind::Query),
            },
        },
        _ => Err(ErrorKind::Query),
    }
}

/// The equality comparisons of a condition that serve as hints: those of
/// both sides of an `OR`, none of an `AND`.
pub open spec fn hints_of(condition: AstView) -> Seq<(Seq<char>, LiteralView)>
    decreases condition,
{
    match condition {
        AstView::BinaryOp { left, operator, right } => match operator {
            Operator::Or => hints_of(*left) + hints_of(*right),
            Operator::Equal => match (*left, *right) {
                (AstView::Column(column), AstView::Literal(literal)) => seq![(column, literal)],
                _ => Seq::empty(),
            },
            _ => Seq::empty(),
        },
        _ => Seq::empty(),
    }
}

/// The hints with a string, in their order.
pub open spec fn string_hints(hints: Seq<(Seq<char>, LiteralView)>) -> Seq<(Seq<char>, Seq<char>)>
    decreases hints.len(),
{
    if hints.len() == 0 {
        Seq::empty()
    } else {
        match hints.last().1 {
            LiteralView::String(text) => string_hints(hints.drop_last()).push(
                (hints.last().0, text),
            ),
            LiteralView::Number(_) => string_hints(hints.drop_last()),
        }
    }
}

/// The hints with a number, in their order.
pub open spec fn number_hints(hints: Seq<(Seq<char>, LiteralView)>) -> Seq<(Seq<char>, i64)>
    decreases hints.len(),
{
    if hints.len() == 0 {
        Seq::empty()
    } else {
        match hints.last().1 {
            LiteralView::Number(digits) => number_hints(hints.drop_last()).push(
                (hints.last().0, literal_integer(digits)),
            ),
            LiteralView::String(_) => number_hints(hints.drop_last()),
        }
    }
}

/// The names of a select list of names, in their order; `None` where `*`
/// stands among them.
pub open spec fn names_of(fields: Seq<FieldView>) -> Option<Seq<Seq<char>>>
    decreases fields.len(),
{
    if fields.len() == 0 {
        Some(Seq::empty())
    } else {
        match (names_of(fields.drop_last()), fields.last()) {
            (Some(names), FieldView::Field(name)) => Some(names.push(name)),
            _ => None,
        }
    }
}

/// The projection that a select list asks for: none for `*` alone, one
/// onto the names for a list of names. `Syntax` for an empty list and for
/// `*` beside anything else.
pub open spec fn projection_of(fields: Seq<FieldView>) -> Result<Option<Seq<Seq<char>>>, ErrorKind> {
    if fields.len() == 0 {
        Err(ErrorKind::Syntax)
    } else if fields.len() == 1 && fields[0] is AllColumns {
        Ok(None)
    } else {
        match names_of(fields) {
            Some(names) => Ok(Some(names)),
            None => Err(ErrorKind::Syntax),
        }
    }
}

/// The instructions behind the scan.
pub open spec fn tail_of(
    projection: Option<Seq<Seq<char>>>,
    order_by: Option<Seq<char>>,
    limit: Option<u64>,
    offset: Option<u64>,
) -> Seq<InstructionView> {
    (match projection {
        Some(fields) => seq![InstructionView::MapOutput { fields }],
        None => Seq::empty(),
    }) + (match order_by {
        Some(field) => seq![InstructionView::SortOutput { field }],
        None => Seq::empty(),
    }) + (match offset {
        Some(count) => seq![InstructionView::SetOffset { count }],
        None => Seq::empty(),
    }) + (match limit {
        Some(count) => seq![InstructionView::SetLimit { count }],
        None => Seq::empty(),
    })
}

/// The program of a query, or the kind of the error: `Query` where the
/// tree is no query or its condition no condition, `Syntax` for a select
/// list that is empty or holds `*` beside anything else.
pub open spec fn generated(ast: AstView) -> Result<Seq<InstructionView>, ErrorKind> {
    match ast {
        AstView::Select { fields, from, where_clause, order_by, limit, offset } => {
            let predicate = match where_clause {
                Some(condition) => condition_of(*condition),
                None => Ok(PredicateView::Always),
            };
            let hints = match where_clause {
                Some(condition) => hints_of(*condition),
                None => Seq::empty(),
            };
            match predicate {
                Err(kind) => Err(kind),
                Ok(p) => match projection_of(fields) {
                    Err(kind) => Err(kind),
                    Ok(projection) => Ok(
                        seq![
                            InstructionView::UseStorage { name: from },
                            InstructionView::Scan {
                                index_filter: p,
                                full_scan_filter: p,
                                string_fields_values: string_hints(hints),
                                number_fields_values: number_hints(hints),
                            },
                        ] + tail_of(projection, order_by, limit, offset),
                    ),
                },
            }
        },
        _ => Err(ErrorKind::Query),
    }
}

/// The hints of a condition, as the generator gathers them.
pub open spec fn hint_views(hints: Seq<(String, LiteralValue)>) -> Seq<(Seq<char>, LiteralView)> {
    Seq::new(hints.len(), |i: int| (hints[i].0@, hints[i].1@))
}

/// The integer that a written number stands for in a comparison.
pub fn integer_of(digits: &String) -> (integer: i64)
    ensures
        integer == literal_integer(digits@),
{
    whole_number(digits.as_str(), 0x7fff_ffff_ffff_ffffu64) as i64
}

impl CodeGenerator {
    /// A generator with an empty program.
    pub fn new() -> (generator: CodeGenerator)
        ensures
            generator.instructions@.len() == 0,
    {
        CodeGenerator { instructions: Vec::new() }
    }

    /// Adds an instruction to the program.
    fn emit(&mut self, instruction: Instruction)
        ensures
            final(self).instructions@ == old(self).instructions@.push(instruction),
    {
        self.instructions.push(instruction);
    }

    /// The predicate that a condition writes.
    fn generate_condition(&self, condition: &AstNode) -> (result: Result<Predicate, Error>)
        ensures
            match result {
                Ok(predicate) => condition_of(condition@) == Ok::<PredicateView, ErrorKind>(
                    predicate@,
                ),
                Err(e) => e is QueryError && condition_of(condition@) == Err::<
                    PredicateView,
                    ErrorKind,
                >(ErrorKind::Query),
            },
        decreases condition,
    {
        proof {
            reveal_with_fuel(ast_view, 3);
            reveal_with_fuel(predicate_view, 2);
        }
        match condition {
            AstNode::BinaryOp { left, operator, right } => match operator {
                Operator::And => {
                    let l = self.generate_condition(left)?;
                    let r = self.generate_condition(right)?;
                    Ok(Predicate::And(Box::new(l), Box::new(r)))
                },
                Operator::Or => {
                    let l = self.generate_condition(left)?;
                    let r = self.generate_condition(right)?;
                    Ok(Predicate::Or(Box::new(l), Box::new(r)))
                },
                _ => match (&**left, &**right) {
                    (AstNode::Column(column), AstNode::Literal(LiteralValue::Number(digits))) => Ok(
                        Predicate::Number {
                            column: column.clone(),
                            operator: *operator,
                            literal: integer_of(digits),
                        },
                    ),
                    (AstNode::Column(column), AstNode::Literal(LiteralValue::String(text))) => Ok(
                        Predicate::Text {
                            column: column.clone(),
                            operator: *operator,
                            literal: text.clone(),
                        },
                    ),
                    _ => Err(Error::QueryError(String::from_str("Unhandled Condition"))),
                },
            },
            _ => Err(Error::QueryError(String::from_str("Unhandled Condition"))),
        }
    }

    /// The equality comparisons of a condition that serve as hints.
    fn get_where_lefts_rights(&self, condition: &AstNode) -> (hints: Vec<(String, LiteralValue)>)
        ensures
            hint_views(hints@) == hints_of(condition@),
        decreases condition,
    {
        proof {
            reveal_with_fuel(ast_view, 3);
        }
        let mut hints: Vec<(String, LiteralValue)> = Vec::new();
        proof {
            assert(hint_views(hints@) =~= Seq::empty());
        }
        match condition {
            AstNode::BinaryOp { left, operator, right } => match operator {
                Operator::Or => {
                    let mut first = self.get_where_lefts_rights(left);
                    let mut second = self.get_where_lefts_rights(right);
                    let ghost a = hint_views(first@);
                    let ghost b = hint_views(second@);
                    hints.append(&mut first);
                    hints.append(&mut second);
                    proof {
                        assert(hint_views(hints@) =~= a + b);
                    }
                },
                Operator::Equal => match (&**left, &**right) {
                    (AstNode::Column(column), AstNode::Literal(literal)) => {
                        let value = match literal {
                            LiteralValue::Number(digits) => LiteralValue::Number(digits.clone()),
                            LiteralValue::String(text) => LiteralValue::String(text.clone()),
                        };
                        hints.push((column.clone(), value));
                        proof {
                            assert(hint_views(hints@) =~= seq![(column@, literal@)]);
                        }
                    },
                    _ => {},
                },
                _ => {},
            },
            _ => {},
        }
        hints
    }

    /// The names of a select list of names; `None` where `*` stands among
    /// them.
    fn field_names(fields: &Vec<FieldExpression>) -> (names: Option<Vec<String>>)
        ensures
            match names {
                Some(names) => names_of(field_views(fields@)) == Some(name_views(names@)),
                None => names_of(field_views(fields@)) is None,
            },
    {
        let mut names: Vec<String> = Vec::new();
        let mut i: usize = 0;
        let ghost all = field_views(fields@);
        proof {
            assert(all.take(0) =~= Seq::empty());
            assert(name_views(names@) =~= Seq::empty());
        }
        while i < fields.len()
            invariant
                i <= fields@.len(),
                all == field_views(fields@),
                names_of(all.take(i as int)) == Some(name_views(names@)),
            decreases fields.len() - i,
        {
            proof {
                assert(all.take(i + 1).drop_last() =~= all.take(i as int));
                assert(all.take(i + 1).last() == all[i as int]);
            }
            let ghost before = name_views(names@);
            match &fields[i] {
                FieldExpression::Field(name) => {
                    names.push(name.clone());
                    proof {
                        assert(name_views(names@) =~= before.push(name@));
                    }
                },
                FieldExpression::AllColumns => {
                    proof {
                        lemma_names_fail_on(all, i + 1);
                    }
                    return None;
                },
            }
            i += 1;
        }
        proof {
            assert(all.take(i as int) =~= all);
        }
        Some(names)
    }

    /// Adds the program of a query to the program so far.
    ///
    /// Fails with `QueryError` where the tree is no query or its condition
    /// no condition, and with `SyntaxError` where the select list is empty
    /// or holds `*` beside anything else. A failed call adds nothing.
    pub fn generate(&mut self, ast: &AstNode) -> (result: Result<(), Error>)
        ensures
            match result {
                Ok(_) => generated(ast@) is Ok && program_view(final(self).instructions@)
                    == program_view(old(self).instructions@) + generated(ast@)->Ok_0,
                Err(e) => generated(ast@) == Err::<Seq<InstructionView>, ErrorKind>(e.kind())
                    && final(self).instructions == old(self).instructions,
            },
    {
        proof {
            reveal_with_fuel(ast_view, 2);
        }
        match ast {
            AstNode::Select { fields, from, where_clause, order_by, limit, offset } => {
                let index_predicate = match where_clause {
                    Some(condition) => match self.generate_condition(condition) {
                        Ok(predicate) => predicate,
                        Err(e) => {
                            return Err(e);
                        },
                    },
                    None => Predicate::Always,
                };
                let scan_predicate = match where_clause {
                    Some(condition) => match self.generate_condition(condition) {
                        Ok(predicate) => predicate,
                        Err(e) => {
                            return Err(e);
                        },
                    },
                    None => Predicate::Always,
                };
                let hints = match where_clause {
                    Some(condition) => self.get_where_lefts_rights(condition),
                    None => Vec::new(),
                };
                let mut string_fields_values: Vec<(String, String)> = Vec::new();
                let mut number_fields_values: Vec<(String, i64)> = Vec::new();
                let mut i: usize = 0;
                let ghost all = hint_views(hints@);
                proof {
                    assert(all.take(0) =~= Seq::empty());
                    assert(text_pair_views(string_fields_values@) =~= Seq::empty());
                    assert(number_pair_views(number_fields_values@) =~= Seq::empty());
                }
                while i < hints.len()
                    invariant
                        i <= hints@.len(),
                        all == hint_views(hints@),
                        text_pair_views(string_fields_values@) == string_hints(all.take(i as int)),
                        number_pair_views(number_fields_values@) == number_hints(
                            all.take(i as int),
                        ),
                    decreases hints.len() - i,
                {
                    proof {
                        assert(all.take(i + 1).drop_last() =~= all.take(i as int));
                        assert(all.take(i + 1).last() == all[i as int]);
                    }
                    let ghost strings = text_pair_views(string_fields_values@);
                    let ghost numbers = number_pair_views(number_fields_values@);
                    match &hints[i].1 {
                        LiteralValue::String(text) => {
                            string_fields_values.push((hints[i].0.clone(), text.clone()));
                            proof {
                                assert(text_pair_views(string_fields_values@) =~= strings.push(
                                    (hints@[i as int].0@, text@),
                                ));
                            }
                        },
                        LiteralValue::Number(digits) => {
                            number_fields_values.push((hints[i].0.clone(), integer_of(digits)));
                            proof {
                                assert(number_pair_views(number_fields_values@) =~= numbers.push(
                                    (hints@[i as int].0@, literal_integer(digits@)),
                                ));
                            }
                        },
                    }
                    i += 1;
                }
                proof {
                    assert(all.take(i as int) =~= all);
                    if where_clause is None {
                        assert(all =~= Seq::empty());
                    }
                }
                if fields.len() == 0 {
                    return Err(
                        Error::SyntaxError(String::from_str("Syntax error: No fields in SELECT")),
                    );
                }
                let all_columns = fields.len() == 1 && matches!(
                    fields[0],
                    FieldExpression::AllColumns
                );
                let projection = if all_columns {
                    None
                } else {
                    match Self::field_names(fields) {
                        Some(names) => Some(Projection { fields: names }),
                        None => {
                            return Err(
                                Error::SyntaxError(
                                    String::from_str(
                                        "Syntax error: Multiple fields not allowed in SELECT with *",
                                    ),
                                ),
                            );
                        },
                    }
                };
                let ghost before = program_view(self.instructions@);
                self.emit(Instruction::UseStorage { name: from.clone() });
                self.emit(
                    Instruction::Scan {
                        index_filter: Filter::Condition(index_predicate),
                        full_scan_filter: Filter::Condition(scan_predicate),
                        string_fields_values,
                        number_fields_values,
                    },
                );
                let ghost head = program_view(self.instructions@);
                proof {
                    assert(head =~= before + seq![
                        InstructionView::UseStorage { name: from@ },
                        InstructionView::Scan {
                            index_filter: index_predicate@,
                            full_scan_filter: scan_predicate@,
                            string_fields_values: string_hints(all),
                            number_fields_values: number_hints(all),
                        },
                    ]);
                }
                let ghost mut tail: Seq<InstructionView> = Seq::empty();
                match projection {
                    Some(map_fn) => {
                        proof {
                            tail = tail + seq![
                                InstructionView::MapOutput { fields: name_views(map_fn.fields@) },
                            ];
                        }
                        self.emit(Instruction::MapOutput { map_fn });
                    },
                    None => {
                        proof {
                            tail = tail + Seq::empty();
                        }
                    },
                }
                proof {
                    assert(program_view(self.instructions@) =~= head + tail);
                }
                match order_by {
                    Some(field) => {
                        proof {
                            tail = tail + seq![InstructionView::SortOutput { field: field@ }];
                        }
                        self.emit(Instruction::SortOutput { field: field.clone() });
                    },
                    None => {
                        proof {
                            tail = tail + Seq::empty();
                        }
                    },
                }
                proof {
                    assert(program_view(self.instructions@) =~= head + tail);
                }
                match offset {
                    Some(count) => {
                        proof {
                            tail = tail + seq![InstructionView::SetOffset { count: *count }];
                        }
                        self.emit(Instruction::SetOffset { count: *count });
                    },
                    None => {
                        proof {
                            tail = tail + Seq::empty();
                        }
                    },
                }
                proof {
                    assert(program_view(self.instructions@) =~= head + tail);
                }
                match limit {
                    Some(count) => {
                        proof {
                            tail = tail + seq![InstructionView::SetLimit { count: *count }];
                        }
                        self.emit(Instruction::SetLimit { count: *count });
                    },
                    None => {
                        proof {
                            tail = tail + Seq::empty();
                        }
                    },
                }
                proof {
                    assert(program_view(self.instructions@) =~= head + tail);
                    assert(tail == tail_of(
                        match projection {
                            Some(map_fn) => Some(name_views(map_fn.fields@)),
                            None => None,
                        },
                        optional_text(*order_by),
                        *limit,
                        *offset,
                    ));
                    assert(head + tail =~= before + (seq![
                        InstructionView::UseStorage { name: from@ },
                        InstructionView::Scan {
                            index_filter: index_predicate@,
                            full_scan_filter: scan_predicate@,
                            string_fields_values: string_hints(all),
                            number_fields_values: number_hints(all),
                        },
                    ] + tail));
                }
                Ok(())
            },
            _ => Err(Error::QueryError(String::from_str("unhandled case"))),
        }
    }
}

/// A select list with `*` among some of its items has it among all.
pub proof fn lemma_names_fail_on(fields: Seq<FieldView>, upto: int)
    requires
        0 <= upto <= fields.len(),
        names_of(fields.take(upto)) is None,
    ensures
        names_of(fields) is None,
    decreases fields.len() - upto,
{
    if upto < fields.len() {
        assert(fields.take(upto + 1).drop_last() =~= fields.take(upto));
        lemma_names_fail_on(fields, upto + 1);
    } else {
        assert(fields.take(upto) =~= fields);
    }
}

} // verus!
