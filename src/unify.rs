//! First-order unification over substitutions that keep their bindings in
//! the order they were made. There is no occurs check: a variable may be
//! bound to a term that contains it, which makes the substitution cyclic.
//! Unifying through cyclic bindings may not finish, so unification takes a
//! depth bound and reports when it is reached.
use vstd::prelude::*;
use crate::term::{bounded, copy_term, ground, vars_below, keys_unique, lemma_to_map, occurs, to_map, Substitution, Term, Tree};

verus! {

/// What unification yields.
pub enum Unified {
    /// The terms are made equal by these bindings.
    Bound(Substitution),
    /// The terms cannot be made equal.
    Clash,
    /// The depth bound was reached first.
    TooDeep,
}

/// The model of a unification outcome.
pub enum UnifiedView {
    Bound(Map<u64, Tree>),
    Clash,
    TooDeep,
}

impl View for Unified {
    type V = UnifiedView;

    open spec fn view(&self) -> UnifiedView {
        match self {
            Unified::Bound(s) => UnifiedView::Bound(s@),
            Unified::Clash => UnifiedView::Clash,
            Unified::TooDeep => UnifiedView::TooDeep,
        }
    }
}

/// Follows the bindings of `m` from `t` until an unbound variable or a
/// non-variable term is reached, following at most `fuel` bindings.
pub open spec fn walk(t: Tree, m: Map<u64, Tree>, fuel: nat) -> Option<Tree>
    decreases fuel,
{
    match t {
        Tree::Var(v) => if !m.contains_key(v) {
            Some(t)
        } else if fuel == 0 {
            None
        } else {
            walk(m[v], m, (fuel - 1) as nat)
        },
        _ => Some(t),
    }
}

/// Unification of `a` and `b` under `m`, at most `fuel` levels deep.
///
/// Both terms are first walked through `m`. Two equal unbound variables
/// unify as they are; an unbound variable is bound to the other side, the
/// left one first; equal constants unify; compounds of the same name and
/// arity unify argument by argument, left to right; anything else clashes.
pub open spec fn unify_spec(a: Tree, b: Tree, m: Map<u64, Tree>, fuel: nat) -> UnifiedView
    decreases fuel, 0int,
{
    if fuel == 0 {
        UnifiedView::TooDeep
    } else {
        match walk(a, m, fuel) {
            None => UnifiedView::TooDeep,
            Some(x) => match walk(b, m, fuel) {
                None => UnifiedView::TooDeep,
                Some(y) => if x is Var && x == y {
                    UnifiedView::Bound(m)
                } else if x is Var {
                    UnifiedView::Bound(m.insert(x->Var_0, y))
                } else if y is Var {
                    UnifiedView::Bound(m.insert(y->Var_0, x))
                } else if x is Const && y is Const {
                    if x == y {
                        UnifiedView::Bound(m)
                    } else {
                        UnifiedView::Clash
                    }
                } else if x is App && y is App {
                    if x->App_0 == y->App_0 && x->App_1.len() == y->App_1.len() {
                        unify_args(x->App_1, y->App_1, 0, m, (fuel - 1) as nat)
                    } else {
                        UnifiedView::Clash
                    }
                } else {
                    UnifiedView::Clash
                },
            },
        }
    }
}

/// Unification of the argument pairs from position `i` on, left to right.
pub open spec fn unify_args(
    xs: Seq<Tree>,
    ys: Seq<Tree>,
    i: int,
    m: Map<u64, Tree>,
    fuel: nat,
) -> UnifiedView
    decreases fuel, xs.len() + 1 - i,
{
    if i < 0 || i >= xs.len() || i >= ys.len() {
        UnifiedView::Bound(m)
    } else {
        match unify_spec(xs[i], ys[i], m, fuel) {
            UnifiedView::Bound(m2) => unify_args(xs, ys, i + 1, m2, fuel),
            other => other,
        }
    }
}

/// `t` is no more than `fuel` levels deep.
pub open spec fn fits(t: Tree, fuel: nat) -> bool
    decreases t,
{
    fuel > 0 && match t {
        Tree::App(_, args) => forall|i: int|
            0 <= i < args.len() ==> fits(#[trigger] args[i], (fuel - 1) as nat),
        _ => true,
    }
}

/// Unifying a ground term with itself, within the depth bound, succeeds and
/// adds no binding.
pub proof fn lemma_unify_ground_same(t: Tree, m: Map<u64, Tree>, fuel: nat)
    requires
        ground(t),
        fits(t, fuel),
    ensures
        unify_spec(t, t, m, fuel) == UnifiedView::Bound(m),
    decreases t, 0int,
{
    if let Tree::App(f, args) = t {
        assert forall|j: int| 0 <= j < args.len() implies ground(#[trigger] args[j]) by {
            assert forall|x: u64| !occurs(args[j], x) by {
                if occurs(args[j], x) {
                    assert(occurs(t, x));
                }
            }
        }
        lemma_args_same(args, 0, m, (fuel - 1) as nat);
    } else if let Tree::Var(v) = t {
        assert(occurs(t, v));
    }
}

proof fn lemma_args_same(args: Seq<Tree>, i: int, m: Map<u64, Tree>, fuel: nat)
    requires
        0 <= i <= args.len(),
        forall|j: int| 0 <= j < args.len() ==> ground(#[trigger] args[j]),
        forall|j: int| 0 <= j < args.len() ==> fits(#[trigger] args[j], fuel),
    ensures
        unify_args(args, args, i, m, fuel) == UnifiedView::Bound(m),
    decreases args, args.len() - i,
{
    if i < args.len() {
        lemma_unify_ground_same(args[i], m, fuel);
        lemma_args_same(args, i + 1, m, fuel);
    }
}

/// A walk stays below a bound that covers the term and the bindings.
proof fn lemma_walk_below(t: Tree, m: Map<u64, Tree>, fuel: nat, n: nat)
    requires
        vars_below(t, n),
        bounded(m, n),
        walk(t, m, fuel) is Some,
    ensures
        vars_below(walk(t, m, fuel)->0, n),
    decreases fuel,
{
    if let Tree::Var(v) = t {
        if m.contains_key(v) && fuel > 0 {
            lemma_walk_below(m[v], m, (fuel - 1) as nat, n);
        }
    }
}

/// Unification keeps every variable below a bound that covers the terms and
/// the bindings, so it never mentions a variable from outside them.
pub proof fn lemma_unify_bounded(a: Tree, b: Tree, m: Map<u64, Tree>, fuel: nat, n: nat)
    requires
        vars_below(a, n),
        vars_below(b, n),
        bounded(m, n),
    ensures
        unify_spec(a, b, m, fuel) is Bound ==> bounded(unify_spec(a, b, m, fuel)->Bound_0, n),
    decreases fuel, 0int,
{
    if fuel > 0 && walk(a, m, fuel) is Some && walk(b, m, fuel) is Some {
        let x = walk(a, m, fuel)->0;
        let y = walk(b, m, fuel)->0;
        lemma_walk_below(a, m, fuel, n);
        lemma_walk_below(b, m, fuel, n);
        if x is Var {
            assert(occurs(x, x->Var_0));
        }
        if y is Var {
            assert(occurs(y, y->Var_0));
        }
        if x is App && y is App && x->App_0 == y->App_0 && x->App_1.len() == y->App_1.len() {
            assert forall|j: int| 0 <= j < x->App_1.len() implies vars_below(#[trigger] x->App_1[j], n) by {
                assert forall|v: u64| occurs(x->App_1[j], v) implies v < n by {
                    assert(occurs(x, v));
                }
            }
            assert forall|j: int| 0 <= j < y->App_1.len() implies vars_below(#[trigger] y->App_1[j], n) by {
                assert forall|v: u64| occurs(y->App_1[j], v) implies v < n by {
                    assert(occurs(y, v));
                }
            }
            lemma_args_bounded(x->App_1, y->App_1, 0, m, (fuel - 1) as nat, n);
        }
    }
}

proof fn lemma_args_bounded(xs: Seq<Tree>, ys: Seq<Tree>, i: int, m: Map<u64, Tree>, fuel: nat, n: nat)
    requires
        forall|j: int| 0 <= j < xs.len() ==> vars_below(#[trigger] xs[j], n),
        forall|j: int| 0 <= j < ys.len() ==> vars_below(#[trigger] ys[j], n),
        bounded(m, n),
    ensures
        unify_args(xs, ys, i, m, fuel) is Bound ==> bounded(unify_args(xs, ys, i, m, fuel)->Bound_0, n),
    decreases fuel, xs.len() + 1 - i,
{
    if 0 <= i < xs.len() && i < ys.len() {
        lemma_unify_bounded(xs[i], ys[i], m, fuel, n);
        if unify_spec(xs[i], ys[i], m, fuel) is Bound {
            lemma_args_bounded(xs, ys, i + 1, unify_spec(xs[i], ys[i], m, fuel)->Bound_0, fuel, n);
        }
    }
}

/// A walk that ends at a variable ends at an unbound one.
proof fn lemma_walk_unbound(t: Tree, m: Map<u64, Tree>, fuel: nat)
    requires
        walk(t, m, fuel) is Some,
    ensures
        walk(t, m, fuel)->0 is Var ==> !m.contains_key(walk(t, m, fuel)->0->Var_0),
    decreases fuel,
{
    if let Tree::Var(v) = t {
        if m.contains_key(v) && fuel > 0 {
            lemma_walk_unbound(m[v], m, (fuel - 1) as nat);
        }
    }
}

/// Walks `t` through `s`, following at most `fuel` bindings.
fn walk_exec(t: &Term, s: &Substitution, fuel: u64) -> (r: Option<Term>)
    requires
        s.wf(),
    ensures
        match walk(t@, s@, fuel as nat) {
            Some(x) => r is Some && r->0@ == x,
            None => r is None,
        },
    decreases fuel,
{
    match t {
        Term::Var(v) => match s.lookup(*v) {
            None => Some(Term::Var(*v)),
            Some(u) => {
                if fuel == 0 {
                    None
                } else {
                    walk_exec(u, s, fuel - 1)
                }
            },
        },
        _ => Some(copy_term(t)),
    }
}

/// Adds the binding `x -> u`, which must be new.
fn bind(s: Substitution, x: u64, u: Term) -> (r: Substitution)
    requires
        s.wf(),
        !s@.contains_key(x),
    ensures
        r.wf(),
        r@ == s@.insert(x, u@),
        r.bindings@ == s.bindings@.push((x, u)),
{
    proof {
        lemma_to_map(s.bindings@);
    }
    let mut b = s.bindings;
    let ghost old_b = b@;
    b.push((x, u));
    proof {
        assert forall|i: int, j: int| 0 <= i < j < b@.len() implies b@[i].0 != b@[j].0 by {
            if j == b@.len() - 1 {
                assert(s@.contains_key(old_b[i].0));
            }
        }
        assert(b@.drop_last() =~= old_b);
    }
    Substitution { bindings: b }
}

/// Unifies `a` and `b` under `s`, at most `fuel` levels deep, as
/// `unify_spec` describes. On success the old bindings are kept as they
/// were, in order, and the new ones follow them.
pub fn unify(a: &Term, b: &Term, s: Substitution, fuel: u64) -> (r: Unified)
    requires
        s.wf(),
    ensures
        r@ == unify_spec(a@, b@, s@, fuel as nat),
        r is Bound ==> r->Bound_0.wf(),
        r is Bound ==> r->Bound_0.bindings@.len() >= s.bindings@.len()
            && r->Bound_0.bindings@.subrange(0, s.bindings@.len() as int) == s.bindings@,
    decreases fuel, 0int,
{
    if fuel == 0 {
        return Unified::TooDeep;
    }
    let x = match walk_exec(a, &s, fuel) {
        None => {
            return Unified::TooDeep;
        },
        Some(x) => x,
    };
    let y = match walk_exec(b, &s, fuel) {
        None => {
            return Unified::TooDeep;
        },
        Some(y) => y,
    };
    proof {
        lemma_walk_unbound(a@, s@, fuel as nat);
        lemma_walk_unbound(b@, s@, fuel as nat);
        assert(s.bindings@.subrange(0, s.bindings@.len() as int) =~= s.bindings@);
    }
    match (&x, &y) {
        (Term::Var(p), Term::Var(q)) if *p == *q => Unified::Bound(s),
        (Term::Var(p), _) => {
            let ghost old_b = s.bindings@;
            let r = bind(s, *p, y);
            assert(r.bindings@.subrange(0, old_b.len() as int) =~= old_b);
            Unified::Bound(r)
        },
        (_, Term::Var(q)) => {
            let ghost old_b = s.bindings@;
            let r = bind(s, *q, x);
            assert(r.bindings@.subrange(0, old_b.len() as int) =~= old_b);
            Unified::Bound(r)
        },
        (Term::Const(c), Term::Const(d)) => {
            if *c == *d {
                Unified::Bound(s)
            } else {
                Unified::Clash
            }
        },
        (Term::Compound(f, xs), Term::Compound(g, ys)) => {
            if !(*f == *g) || xs.len() != ys.len() {
                proof {
                    assert(x@->App_0 == f@ && y@->App_0 == g@);
                    assert(x@->App_1.len() == xs.len() && y@->App_1.len() == ys.len());
                }
                return Unified::Clash;
            }
            let ghost m0 = s@;
            let ghost b0 = s.bindings@;
            let ghost f1 = (fuel - 1) as nat;
            assert(unify_spec(a@, b@, m0, fuel as nat) == unify_args(x@->App_1, y@->App_1, 0, m0, f1));
            let mut cur = s;
            let mut i: usize = 0;
            while i < xs.len()
                invariant
                    i <= xs.len(),
                    xs.len() == ys.len(),
                    x@ == Tree::App(f@, x@->App_1),
                    x@->App_1.len() == xs.len(),
                    y@->App_1.len() == ys.len(),
                    forall|j: int| 0 <= j < xs.len() ==> x@->App_1[j] == #[trigger] xs[j]@,
                    forall|j: int| 0 <= j < ys.len() ==> y@->App_1[j] == #[trigger] ys[j]@,
                    fuel > 0,
                    f1 == fuel - 1,
                    m0 == s@,
                    b0 == s.bindings@,
                    unify_spec(a@, b@, m0, fuel as nat) == unify_args(x@->App_1, y@->App_1, 0, m0, f1),
                    cur.wf(),
                    cur.bindings@.len() >= b0.len(),
                    cur.bindings@.subrange(0, b0.len() as int) == b0,
                    unify_args(x@->App_1, y@->App_1, 0, m0, f1) == unify_args(
                        x@->App_1,
                        y@->App_1,
                        i as int,
                        cur@,
                        f1,
                    ),
                decreases xs.len() - i,
            {
                let ghost before = cur.bindings@;
                let ghost m_i = cur@;
                assert(unify_args(x@->App_1, y@->App_1, i as int, m_i, f1) == match unify_spec(
                    x@->App_1[i as int],
                    y@->App_1[i as int],
                    m_i,
                    f1,
                ) {
                    UnifiedView::Bound(m2) => unify_args(x@->App_1, y@->App_1, i + 1, m2, f1),
                    other => other,
                });
                match unify(&xs[i], &ys[i], cur, fuel - 1) {
                    Unified::Bound(next) => {
                        assert(next.bindings@.subrange(0, b0.len() as int) =~= before.subrange(0, b0.len() as int));
                        cur = next;
                    },
                    Unified::Clash => {
                        return Unified::Clash;
                    },
                    Unified::TooDeep => {
                        return Unified::TooDeep;
                    },
                }
                i = i + 1;
            }
            Unified::Bound(cur)
        },
        _ => Unified::Clash,
    }
}

} // verus!
