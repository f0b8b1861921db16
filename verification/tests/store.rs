use minilog::ast::Node;
use minilog::goals::{con_and, con_neg, get_goals, GoalAtom};
use minilog::interpreter::{Env, Fact, Name, StoreError};
use minilog::lexer::Lexer;
use minilog::parser::Parser;

fn parse_stmt(text: &str) -> Node {
    let mut lex = Lexer::new(text.to_string());
    let mut p = Parser::new();
    p.parse(&mut lex).expect("statement should parse");
    p.buffer.remove(0)
}

#[test]
fn add_fact_stores_name_and_arguments() {
    let node = parse_stmt("likes(mary,tom).");
    let mut env = Env::new();
    let stored = env.unpack_fact(&node).expect("a fact node unpacks");
    assert_eq!(stored.universe(), "likes");
    assert_eq!(stored.arity(), 2);
    assert_eq!(
        stored.args(),
        &vec![
            Name::Atom("mary".to_string()),
            Name::Atom("tom".to_string())
        ]
    );
    assert!(env.add_fact(&node).is_ok());
}

#[test]
fn query_with_variable_matches_stored_atom() {
    let mut env = Env::new();
    assert!(env.add_fact(&parse_stmt("likes(mary,tom).")).is_ok());
    let q = parse_stmt("?likes(mary,X).");
    assert!(env.add_query(&q).is_ok());
    let query = env.queries.pop().expect("the query was pushed");
    let hit = env.query_fact(&query);
    assert!(hit.is_some());
    assert_eq!(hit.unwrap().universe(), "likes");
}

#[test]
fn query_of_unknown_predicate_is_none() {
    let mut env = Env::new();
    assert!(env.add_fact(&parse_stmt("likes(mary,tom).")).is_ok());
    let q = parse_stmt("?knows(mary,X).");
    assert!(env.add_query(&q).is_ok());
    let query = env.queries.pop().unwrap();
    assert!(env.query_fact(&query).is_none());
}

#[test]
fn atoms_match_only_equal_text() {
    let a = Fact::new("p".to_string(), vec![Name::Atom("a".to_string())]);
    let b = Fact::new("p".to_string(), vec![Name::Atom("b".to_string())]);
    assert!(!a.matches(&b));
    assert!(!b.matches(&a));
}

#[test]
fn variables_are_wildcards_on_either_side() {
    let atom = Fact::new("p".to_string(), vec![Name::Atom("a".to_string())]);
    let var = Fact::new("p".to_string(), vec![Name::Variable("X".to_string())]);
    let var2 = Fact::new("p".to_string(), vec![Name::Variable("Y".to_string())]);
    assert!(var.matches(&atom));
    assert!(atom.matches(&var));
    assert!(var.matches(&var2));
}

#[test]
fn matching_checks_arity_first() {
    let one = Fact::new("p".to_string(), vec![Name::Variable("X".to_string())]);
    let two = Fact::new(
        "p".to_string(),
        vec![
            Name::Variable("X".to_string()),
            Name::Variable("Y".to_string()),
        ],
    );
    assert!(!one.matches(&two));
    assert!(!two.matches(&one));
}

#[test]
fn a_fact_queried_right_after_adding_it_is_found() {
    let mut env = Env::new();
    let node = parse_stmt("edge(a,b).");
    assert!(env.add_fact(&node).is_ok());
    let query = env.unpack_fact(&node).unwrap();
    let hit = env.query_fact(&query).expect("the fact matches itself");
    assert_eq!(hit.universe(), "edge");
    assert_eq!(hit.args(), query.args());
}

#[test]
fn zero_arity_facts_are_stored_and_found() {
    let mut env = Env::new();
    let node = parse_stmt("sunny.");
    assert_eq!(node, Node::Fact("sunny".to_string(), None));
    assert!(env.add_fact(&node).is_ok());
    let q = env.unpack_fact(&node).unwrap();
    assert_eq!(q.arity(), 0);
    assert!(env.query_fact(&q).is_some());
}

#[test]
fn mixed_arities_share_a_predicate_name() {
    let mut env = Env::new();
    assert!(env.add_fact(&parse_stmt("p(a).")).is_ok());
    assert!(env.add_fact(&parse_stmt("p(a,b).")).is_ok());
    let q1 = env.unpack_fact(&parse_stmt("p(a).")).unwrap();
    let q2 = env.unpack_fact(&parse_stmt("p(a,b).")).unwrap();
    assert!(env.query_fact(&q1).is_some());
    assert!(env.query_fact(&q2).is_some());
}

#[test]
fn first_matching_fact_in_insertion_order_wins() {
    let mut env = Env::new();
    assert!(env.add_fact(&parse_stmt("p(a,b).")).is_ok());
    assert!(env.add_fact(&parse_stmt("p(c,d).")).is_ok());
    let q = env.unpack_fact(&parse_stmt("p(X,Y).")).unwrap();
    let hit = env.query_fact(&q).unwrap();
    assert_eq!(
        hit.args(),
        &vec![Name::Atom("a".to_string()), Name::Atom("b".to_string())]
    );
}

#[test]
fn store_rejects_wrong_node_shapes() {
    let mut env = Env::new();
    assert_eq!(
        env.add_fact(&Node::Atom("a".to_string())),
        Err(StoreError::BadFact)
    );
    assert_eq!(
        env.add_query(&parse_stmt("likes(mary,tom).")),
        Err(StoreError::NotAQuery)
    );
    let bad_query = Node::Query(Box::new(Node::Atom("a".to_string())));
    assert_eq!(env.add_query(&bad_query), Err(StoreError::BadFact));
}

fn atom(name: &str, neg: bool) -> GoalAtom {
    GoalAtom {
        name: name.to_string(),
        neg,
    }
}

fn names(rows: &[Vec<GoalAtom>]) -> Vec<Vec<(String, bool)>> {
    rows.iter()
        .map(|r| r.iter().map(|a| (a.name.clone(), a.neg)).collect())
        .collect()
}

#[test]
fn goals_of_conjunction_share_one_row() {
    let body = Node::And(
        Box::new(Node::Atom("a".to_string())),
        Box::new(Node::Atom("b".to_string())),
    );
    let goals = get_goals(&body);
    assert_eq!(
        names(&goals),
        vec![vec![("a".to_string(), false), ("b".to_string(), false)]]
    );
}

#[test]
fn goals_of_disjunction_are_separate_rows() {
    let body = Node::Or(
        Box::new(Node::Atom("a".to_string())),
        Box::new(Node::Atom("b".to_string())),
    );
    let goals = get_goals(&body);
    assert_eq!(
        names(&goals),
        vec![
            vec![("a".to_string(), false)],
            vec![("b".to_string(), false)]
        ]
    );
}

#[test]
fn goals_of_negation_flip_signs() {
    let body = Node::Neg(Box::new(Node::Atom("a".to_string())));
    let goals = get_goals(&body);
    assert_eq!(names(&goals), vec![vec![("a".to_string(), true)]]);
}

#[test]
fn negating_one_atom_flips_its_sign() {
    let goals = vec![vec![atom("a", false)]];
    let negated = con_neg(&goals);
    assert_eq!(names(&negated), vec![vec![("a".to_string(), true)]]);
}

#[test]
fn negating_two_rows_picks_one_atom_from_each() {
    let goals = vec![vec![atom("a", false), atom("b", false)], vec![atom("c", false)]];
    let negated = con_neg(&goals);
    assert_eq!(
        names(&negated),
        vec![
            vec![("c".to_string(), true), ("a".to_string(), true)],
            vec![("c".to_string(), true), ("b".to_string(), true)]
        ]
    );
}

#[test]
fn con_and_drains_the_right_side_into_the_first_row() {
    let mut lh = vec![vec![atom("a", false)], vec![atom("b", false)]];
    let mut rh = vec![vec![atom("c", false)], vec![atom("d", false)]];
    let combined = con_and(&mut lh, &mut rh);
    assert_eq!(
        names(&combined),
        vec![
            vec![
                ("a".to_string(), false),
                ("c".to_string(), false),
                ("d".to_string(), false)
            ],
            vec![("b".to_string(), false)]
        ]
    );
    assert_eq!(rh.len(), 2);
    assert!(rh.iter().all(|r| r.is_empty()));
    assert_eq!(lh.len(), 2);
}
