use resolution::{Clause, Literal, Round, Statement};

fn p(m: u32) -> Literal {
    Literal { m, negated: false }
}

fn n(m: u32) -> Literal {
    Literal { m, negated: true }
}

fn worked_example() -> Statement {
    Statement::new(&[
        Clause::new(&[p(1), p(3)]),
        Clause::new(&[n(1), p(2)]),
        Clause::new(&[n(2), p(3)]),
        Clause::new(&[n(3)]),
    ])
}

fn saturate(start: &Statement) -> (Statement, usize) {
    let mut kb = start.clone();
    let mut rounds = 1;
    loop {
        match kb.round() {
            Round::Grown(next) => kb = next,
            Round::Saturated => return (kb, rounds),
            Round::Refuted => panic!("refuted"),
        }
        rounds += 1;
    }
}

#[test]
fn refutes_the_worked_example() {
    assert!(worked_example().resolve());
}

#[test]
fn worked_example_is_refuted_in_the_third_round() {
    let kb = worked_example();
    let second = match kb.round() {
        Round::Grown(next) => next,
        other => panic!("unexpected {:?}", other),
    };
    assert_eq!(second.len(), 8);
    assert!(second.contains(&Clause::new(&[p(1)])));
    assert!(second.contains(&Clause::new(&[p(2), p(3)])));
    assert!(second.contains(&Clause::new(&[n(1), p(3)])));
    assert!(second.contains(&Clause::new(&[n(2)])));
    let third = match second.round() {
        Round::Grown(next) => next,
        other => panic!("unexpected {:?}", other),
    };
    assert!(third.contains(&Clause::new(&[p(3)])));
    assert!(third.contains(&Clause::new(&[n(1)])));
    assert!(matches!(third.round(), Round::Refuted));
}

#[test]
fn saturates_without_contradiction() {
    let statement = Statement::new(&[Clause::new(&[p(1)]), Clause::new(&[p(2)])]);
    assert!(matches!(statement.round(), Round::Saturated));
    assert!(!statement.resolve());
}

#[test]
fn resolve_leaves_the_statement_alone() {
    let statement = worked_example();
    assert!(statement.resolve());
    assert_eq!(statement.len(), 4);
    assert!(statement.resolve());
}

#[test]
fn two_complementary_units_are_refuted_at_once() {
    let statement = Statement::new(&[Clause::new(&[p(1)]), Clause::new(&[n(1)])]);
    assert!(matches!(statement.round(), Round::Refuted));
    assert!(statement.resolve());
}

#[test]
fn all_four_clauses_over_two_variables_are_refuted() {
    let statement = Statement::new(&[
        Clause::new(&[p(1), p(2)]),
        Clause::new(&[n(1), p(2)]),
        Clause::new(&[p(1), n(2)]),
        Clause::new(&[n(1), n(2)]),
    ]);
    assert!(statement.resolve());
}

#[test]
fn growth_without_contradiction_ends_saturated() {
    let statement = Statement::new(&[Clause::new(&[p(1), p(2)]), Clause::new(&[n(1), p(3)])]);
    let next = match statement.round() {
        Round::Grown(next) => next,
        other => panic!("unexpected {:?}", other),
    };
    assert_eq!(next.len(), 3);
    assert!(next.contains(&Clause::new(&[p(1), p(2)])));
    assert!(next.contains(&Clause::new(&[n(1), p(3)])));
    assert!(next.contains(&Clause::new(&[p(2), p(3)])));
    assert!(matches!(next.round(), Round::Saturated));
    assert!(!statement.resolve());
}

#[test]
fn saturated_statement_stays_as_it_is() {
    let start = Statement::new(&[
        Clause::new(&[p(1)]),
        Clause::new(&[n(1), p(2)]),
        Clause::new(&[n(2), p(3)]),
        Clause::new(&[n(3), p(4)]),
    ]);
    assert!(!start.resolve());
    let (closed, rounds) = saturate(&start);
    assert!(rounds > 1);
    assert!(closed.len() > start.len());
    assert!(matches!(closed.round(), Round::Saturated));
    assert!(!closed.resolve());
    assert!(!closed.resolve());
    let (again, rounds_again) = saturate(&closed);
    assert_eq!(rounds_again, 1);
    assert_eq!(again.len(), closed.len());
}

#[test]
fn tautology_is_kept_and_refutes_nothing() {
    let statement = Statement::new(&[Clause::new(&[p(1), n(1)])]);
    assert_eq!(statement.len(), 1);
    assert!(matches!(statement.round(), Round::Saturated));
    assert!(!statement.resolve());
}

#[test]
fn supersets_are_not_removed() {
    let mut statement = Statement::new(&[Clause::new(&[p(1)])]);
    assert!(statement.insert(Clause::new(&[p(1), p(2)])));
    assert_eq!(statement.len(), 2);
}

#[test]
fn empty_statement_is_saturated() {
    let statement = Statement::new(&[]);
    assert_eq!(statement.len(), 0);
    assert!(matches!(statement.round(), Round::Saturated));
    assert!(!statement.resolve());
}

#[test]
fn only_a_derived_empty_clause_refutes() {
    let statement = Statement::new(&[Clause::new(&[])]);
    assert_eq!(statement.len(), 1);
    assert!(!statement.resolve());
}

#[test]
fn new_collapses_equal_clauses() {
    let statement = Statement::new(&[
        Clause::new(&[p(1), p(2)]),
        Clause::new(&[p(2), p(1)]),
        Clause::new(&[p(1), p(2), p(1)]),
        Clause::new(&[p(3)]),
    ]);
    assert_eq!(statement.len(), 2);
    assert!(statement.contains(&Clause::new(&[p(1), p(2)])));
    assert!(statement.contains(&Clause::new(&[p(3)])));
    assert!(!statement.contains(&Clause::new(&[p(1)])));
}

#[test]
fn insert_reports_new_knowledge_once() {
    let mut statement = Statement::new(&[Clause::new(&[p(1)])]);
    assert_eq!(statement.len(), 1);
    assert!(!statement.insert(Clause::new(&[p(1)])));
    assert_eq!(statement.len(), 1);
    assert!(statement.insert(Clause::new(&[n(1)])));
    assert_eq!(statement.len(), 2);
    assert!(!statement.insert(Clause::new(&[n(1)])));
    assert_eq!(statement.len(), 2);
    assert!(statement.insert(Clause::new(&[n(1), p(1)])));
    assert!(!statement.insert(Clause::new(&[p(1), n(1)])));
    assert_eq!(statement.len(), 3);
}

#[test]
fn clone_holds_the_same_clauses() {
    let statement = worked_example();
    let copy = statement.clone();
    assert_eq!(copy.len(), 4);
    assert!(copy.contains(&Clause::new(&[p(3), p(1)])));
    assert!(copy.contains(&Clause::new(&[n(3)])));
    assert!(copy.resolve());
}

#[test]
fn chain_over_ten_variables_terminates_unrefuted() {
    let mut clauses = vec![Clause::new(&[p(1)])];
    for i in 1..10 {
        clauses.push(Clause::new(&[n(i), p(i + 1)]));
    }
    let statement = Statement::new(&clauses);
    assert!(!statement.resolve());
    let (closed, rounds) = saturate(&statement);
    assert_eq!(closed.len(), 55);
    assert_eq!(rounds, 5);
}

#[test]
fn chain_over_ten_variables_terminates_refuted() {
    let mut clauses = vec![Clause::new(&[p(1)])];
    for i in 1..10 {
        clauses.push(Clause::new(&[n(i), p(i + 1)]));
    }
    clauses.push(Clause::new(&[n(10)]));
    assert!(Statement::new(&clauses).resolve());
}

#[test]
fn five_clauses_of_three_literals_terminate() {
    let mut clauses = Vec::new();
    for i in 0..5u32 {
        let mut literals = Vec::new();
        for j in 0..3u32 {
            literals.push(Literal {
                m: j + (i % 50),
                negated: (j * i) % 1000 == 0,
            });
        }
        clauses.push(Clause::new(&literals));
    }
    let statement = Statement::new(&clauses);
    assert!(!statement.clone().resolve());
    let (closed, rounds) = saturate(&statement);
    assert_eq!(closed.len(), 22);
    assert_eq!(rounds, 4);
}

fn satisfiable(formula: &[Vec<Literal>], variables: u32) -> bool {
    (0u32..(1 << variables)).any(|bits| {
        formula.iter().all(|clause| {
            clause
                .iter()
                .any(|l| ((bits >> l.m) & 1 == 1) != l.negated)
        })
    })
}

fn statement_of(formula: &[Vec<Literal>]) -> Statement {
    let clauses: Vec<Clause> = formula.iter().map(|c| Clause::new(c)).collect();
    Statement::new(&clauses)
}

#[test]
fn resolve_agrees_with_truth_tables_over_two_variables() {
    let literals = [p(0), n(0), p(1), n(1)];
    let mut clauses: Vec<Vec<Literal>> = Vec::new();
    for mask in 1u32..16 {
        clauses.push(
            (0..4)
                .filter(|i| (mask >> i) & 1 == 1)
                .map(|i| literals[i])
                .collect(),
        );
    }
    let mut tried = 0;
    for a in 0..clauses.len() {
        for b in a..clauses.len() {
            for c in b..clauses.len() {
                let formula = vec![clauses[a].clone(), clauses[b].clone(), clauses[c].clone()];
                assert_eq!(
                    statement_of(&formula).resolve(),
                    !satisfiable(&formula, 2),
                    "{:?}",
                    formula
                );
                tried += 1;
            }
        }
    }
    assert_eq!(tried, 680);
}

#[test]
fn resolve_agrees_with_truth_tables_on_mixed_formulas() {
    let mut state: u32 = 12345;
    let mut next = move |bound: u32| {
        state = state.wrapping_mul(1664525).wrapping_add(1013904223);
        (state >> 16) % bound
    };
    let mut refuted = 0;
    for _ in 0..300 {
        let mut formula: Vec<Vec<Literal>> = Vec::new();
        let clauses = 1 + next(7);
        for _ in 0..clauses {
            let width = 1 + next(3);
            let mut clause = Vec::new();
            for _ in 0..width {
                clause.push(Literal {
                    m: next(4),
                    negated: next(2) == 1,
                });
            }
            formula.push(clause);
        }
        let answer = statement_of(&formula).resolve();
        assert_eq!(answer, !satisfiable(&formula, 4), "{:?}", formula);
        if answer {
            refuted += 1;
        }
    }
    assert!(refuted > 0);
    assert!(refuted < 300);
}
