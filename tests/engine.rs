use prolog::engine::{rename, solve, Clause, Database, QueryError, Runner, Step};
use prolog::parser::Parser;
use prolog::term::{Substitution, Term};
use prolog::tokenizer::Tokenizer;
use prolog::engine::UNIFY_DEPTH;
use prolog::term::apply;
use prolog::unify::{unify, Unified};

fn clauses(input: &str) -> Vec<Clause> {
    let tokens = Tokenizer::from_str(input).parse().ok().unwrap();
    Parser::from_tokens(tokens).parse().ok().unwrap()
}

fn query(input: &str) -> Clause {
    clauses(input).into_iter().next().unwrap()
}

fn var(n: u64) -> Term {
    Term::Var(n)
}

fn constant(s: &str) -> Term {
    Term::Const(String::from(s))
}

fn compound(f: &str, args: Vec<Term>) -> Term {
    Term::Compound(String::from(f), args)
}

fn same(a: &Term, b: &Term) -> bool {
    match (a, b) {
        (Term::Var(x), Term::Var(y)) => x == y,
        (Term::Const(c), Term::Const(d)) => c == d,
        (Term::Compound(f, xs), Term::Compound(g, ys)) => {
            f == g && xs.len() == ys.len() && xs.iter().zip(ys.iter()).all(|(x, y)| same(x, y))
        }
        _ => false,
    }
}

fn text(t: &Term) -> String {
    match t {
        Term::Var(v) => format!("_{}", v),
        Term::Const(c) => c.clone(),
        Term::Compound(f, args) => {
            let inner: Vec<String> = args.iter().map(text).collect();
            format!("{}({})", f, inner.join(","))
        }
    }
}

fn answers(q: &str, program: &str) -> Vec<Vec<(String, String)>> {
    let (found, ended) = solve(query(q), clauses(program), 10_000).ok().unwrap();
    assert!(ended);
    found
        .iter()
        .map(|a| a.iter().map(|(n, t)| (n.clone(), text(t))).collect())
        .collect()
}

fn unify_in(a: &Term, b: &Term, s: &Substitution) -> Option<Substitution> {
    match unify(a, b, s.duplicate(), UNIFY_DEPTH) {
        Unified::Bound(r) => Some(r),
        _ => None,
    }
}

fn bound(s: &Substitution, x: u64) -> Option<Term> {
    Some(apply(&Term::Var(x), s))
}

#[test]
fn it_unifies_variables() {
    let t = "nat(X).";
    let c = "nat(s(Y)).";
    let clause_t = clauses(t);
    let clause_c = clauses(c);
    let n = clause_c[0].names.len() as u64;
    let renamed = rename(&clause_c[0].head, clause_t[0].names.len() as u64, n);
    let u = unify_in(&clause_t[0].head, &renamed, &Substitution::new()).unwrap();
    assert_eq!(u.bindings.len(), 1);
    assert!(same(&bound(&u, 0).unwrap(), &compound("s", vec![var(1)])));
}

#[test]
fn it_unifies_rules() {
    let t = "len(list(one,list()), one).";
    let c = "len(list(H,T), X):-len(T,Y),plus(Y,num,X).";
    let clause_t = clauses(t);
    let clause_c = clauses(c);
    let u = unify_in(&clause_c[0].head, &clause_t[0].head, &Substitution::new()).unwrap();
    assert!(same(&bound(&u, 0).unwrap(), &constant("one")));
    assert!(same(&bound(&u, 1).unwrap(), &compound("list", vec![])));
    assert!(same(&bound(&u, 2).unwrap(), &constant("one")));
}

#[test]
fn it_evaluates_facts() {
    let t = "cat(list(), list(one,list(two,list())), X).";
    let c = "cat(list(), L, L).";
    let found = answers(t, c);
    assert_eq!(
        found,
        vec![vec![(String::from("X"), String::from("list(one,list(two,list()))"))]]
    );
}

#[test]
fn it_evaluates_rules() {
    let t = "append(list(), L, L). append(list(X,Y), L, list(X,R)):-append(Y,L,R).";
    let c = "append(list(a,list(b,list())), list(), Z).";
    let found = answers(c, t);
    assert_eq!(
        found,
        vec![vec![(String::from("Z"), String::from("list(a,list(b,list()))"))]]
    );
}

#[test]
fn constant_mismatch_fails() {
    assert!(unify_in(&constant("a"), &constant("b"), &Substitution::new()).is_none());
}

#[test]
fn arity_mismatch_fails() {
    let a = compound("p", vec![var(0)]);
    let b = compound("p", vec![var(0), var(1)]);
    assert!(unify_in(&a, &b, &Substitution::new()).is_none());
}

#[test]
fn variable_is_bound_to_compound() {
    let b = compound("s", vec![var(1)]);
    let u = unify_in(&var(0), &b, &Substitution::new()).unwrap();
    assert_eq!(u.bindings.len(), 1);
    assert!(same(&bound(&u, 0).unwrap(), &b));
}

#[test]
fn ground_unification_adds_nothing() {
    let a = compound("f", vec![constant("a"), compound("g", vec![constant("b")])]);
    let s = unify_in(&var(5), &constant("c"), &Substitution::new()).unwrap();
    let u = unify_in(&a, &a, &s).unwrap();
    assert_eq!(u.bindings.len(), 1);
    assert!(same(&bound(&u, 5).unwrap(), &constant("c")));
}

#[test]
fn unification_is_symmetric_on_an_example() {
    let a = compound("f", vec![var(0), constant("b")]);
    let b = compound("f", vec![constant("a"), var(1)]);
    let l = unify_in(&a, &b, &Substitution::new()).unwrap();
    let r = unify_in(&b, &a, &Substitution::new()).unwrap();
    for u in [&l, &r] {
        assert!(same(&bound(u, 0).unwrap(), &constant("a")));
        assert!(same(&bound(u, 1).unwrap(), &constant("b")));
    }
    let c = compound("f", vec![constant("c"), constant("c")]);
    assert!(unify_in(&a, &c, &Substitution::new()).is_none());
    assert!(unify_in(&c, &a, &Substitution::new()).is_none());
}

#[test]
fn bindings_are_resolved_through_chains() {
    let s = unify_in(&var(0), &var(1), &Substitution::new()).unwrap();
    let s = unify_in(&var(1), &constant("z"), &s).unwrap();
    assert!(same(&bound(&s, 0).unwrap(), &constant("z")));
    assert!(same(&bound(&s, 1).unwrap(), &constant("z")));
    assert_eq!(s.bindings.len(), 2);
    assert_eq!(s.bindings[0].0, 0);
    assert!(same(&s.bindings[0].1, &var(1)));
    assert_eq!(s.bindings[1].0, 1);
    assert!(same(&s.bindings[1].1, &constant("z")));
}

#[test]
fn variable_binds_to_term_containing_it() {
    let b = compound("f", vec![var(0)]);
    let u = unify_in(&var(0), &b, &Substitution::new()).unwrap();
    assert_eq!(u.bindings.len(), 1);
    assert!(same(&u.bindings[0].1, &b));
}

#[test]
fn cyclic_binding_gives_one_answer() {
    let found = answers("eq(Y, f(Y)).", "eq(X, X).");
    assert_eq!(found, vec![vec![(String::from("Y"), String::from("f(_0)"))]]);
}

#[test]
fn facts_give_solutions_in_order() {
    let found = answers("color(X).", "color(red). color(blue).");
    assert_eq!(
        found,
        vec![
            vec![(String::from("X"), String::from("red"))],
            vec![(String::from("X"), String::from("blue"))]
        ]
    );
}

#[test]
fn no_candidates_gives_no_solutions() {
    let found = answers("ghost(a).", "color(red). color(blue).");
    assert!(found.is_empty());
}

#[test]
fn two_activations_of_one_rule_stay_apart() {
    let program = "nat(z). nat(s(X)):-nat(X). two(A, B):-nat(A),nat(B).";
    let (found, ended) = solve(query("two(s(z), z)."), clauses(program), 10_000).ok().unwrap();
    assert!(ended);
    assert_eq!(found.len(), 1);
    let mut runner = Runner::from_input(query("two(A, B)."), clauses(program)).ok().unwrap();
    let (found, ended) = runner.run(200);
    assert!(!ended);
    assert!(found.len() >= 3);
    let shown: Vec<(String, String)> = found[..3]
        .iter()
        .map(|a| (text(&a[0].1), text(&a[1].1)))
        .collect();
    assert_eq!(
        shown,
        vec![
            (String::from("z"), String::from("z")),
            (String::from("z"), String::from("s(z)")),
            (String::from("z"), String::from("s(s(z))")),
        ]
    );
}

#[test]
fn solving_twice_gives_the_same_answers() {
    let program = "color(red). color(blue). pair(X, Y):-color(X),color(Y).";
    let first = answers("pair(A, B).", program);
    let second = answers("pair(A, B).", program);
    assert_eq!(first, second);
    assert_eq!(first.len(), 4);
    assert_eq!(first[1], vec![(String::from("A"), String::from("red")), (String::from("B"), String::from("blue"))]);
}

#[test]
fn query_must_be_compound() {
    let bare = Clause { head: var(0), body: vec![], names: vec![String::from("X")] };
    match solve(bare, clauses("p(a)."), 10) {
        Err(QueryError::MalformedQuery) => {}
        _ => panic!("expected a malformed query"),
    }
}

#[test]
fn runner_steps_through_the_search() {
    let mut runner = Runner::from_input(query("color(X)."), clauses("color(red).")).ok().unwrap();
    assert!(matches!(runner.advance(), Step::Progress));
    match runner.advance() {
        Step::Solution(a) => assert_eq!(text(&a[0].1), "red"),
        _ => panic!("expected a solution"),
    }
    assert!(matches!(runner.advance(), Step::Progress));
    assert!(matches!(runner.advance(), Step::Done));
    assert!(matches!(runner.advance(), Step::Done));
}

#[test]
fn candidates_follow_program_order() {
    let mut db = Database::new();
    for c in clauses("p(a). q(a). p(b). p(a, b).") {
        db.add(c);
    }
    let goal = compound("p", vec![var(0)]);
    assert_eq!(db.candidates(&goal), vec![0, 2]);
    assert!(db.candidates(&var(0)).is_empty());
}

#[test]
fn clause_with_unnamed_variable_is_rejected() {
    let bad = Clause { head: compound("p", vec![var(3)]), body: vec![], names: vec![] };
    match solve(query("p(X)."), vec![bad], 10) {
        Err(QueryError::MalformedClause) => {}
        _ => panic!("expected a malformed clause"),
    }
}

#[test]
fn running_out_of_identities_stops_the_search() {
    let mut runner = Runner::from_input(query("p(X)."), clauses("p(Y).")).ok().unwrap();
    runner.next_id = u64::MAX;
    assert!(matches!(runner.advance(), Step::OutOfIds));
}
