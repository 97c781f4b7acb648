//! Terms, their mathematical model, and substitutions over them.
use vstd::prelude::*;

verus! {

/// A logic value: a variable (identified by a number), a constant, or a
/// compound functor application `name(arg, ...)`.
pub enum Term {
    Var(u64),
    Const(String),
    Compound(String, Vec<Term>),
}

/// The mathematical model of a `Term`.
#[verifier::ext_equal]
pub enum Tree {
    Var(u64),
    Const(Seq<char>),
    App(Seq<char>, Seq<Tree>),
}

/// The model of a term.
pub open spec fn model(t: Term) -> Tree
    decreases t,
{
    match t {
        Term::Var(v) => Tree::Var(v),
        Term::Const(c) => Tree::Const(c@),
        Term::Compound(f, args) => Tree::App(
            f@,
            Seq::new(
                args.len() as nat,
                |i: int|
                    if 0 <= i < args.len() {
                        model(args[i])
                    } else {
                        Tree::Var(0)
                    },
            ),
        ),
    }
}

impl View for Term {
    type V = Tree;

    open spec fn view(&self) -> Tree {
        model(*self)
    }
}

/// Whether variable `x` occurs in `t`.
pub open spec fn occurs(t: Tree, x: u64) -> bool
    decreases t,
{
    match t {
        Tree::Var(v) => v == x,
        Tree::Const(_) => false,
        Tree::App(_, args) => exists|i: int| 0 <= i < args.len() && occurs(#[trigger] args[i], x),
    }
}

/// A term with no variables.
pub open spec fn ground(t: Tree) -> bool {
    forall|x: u64| !occurs(t, x)
}

/// Makes an exact copy of a term.
pub fn copy_term(t: &Term) -> (r: Term)
    ensures
        r@ == t@,
    decreases t@,
{
    match t {
        Term::Var(v) => Term::Var(*v),
        Term::Const(c) => Term::Const(c.clone()),
        Term::Compound(f, args) => {
            let mut out: Vec<Term> = Vec::new();
            let mut i: usize = 0;
            while i < args.len()
                invariant
                    i <= args.len(),
                    *t == Term::Compound(*f, *args),
                    out.len() == i,
                    forall|j: int| 0 <= j < i ==> out[j]@ == args[j]@,
                decreases args.len() - i,
            {
                proof {
                    assert(t@->App_1[i as int] == args[i as int]@);
                }
                let c = copy_term(&args[i]);
                out.push(c);
                i = i + 1;
            }
            let g = f.clone();
            proof {
                assert(out@.len() == args@.len());
            }
            let r = Term::Compound(g, out);
            assert(model(r)->App_1 =~= model(*t)->App_1);
            r
        },
    }
}

/// Every variable of `t` is below `n`.
pub open spec fn vars_below(t: Tree, n: nat) -> bool {
    forall|v: u64| occurs(t, v) ==> v < n
}

/// Every variable that `s` binds or mentions is below `n`.
pub open spec fn bounded(s: Map<u64, Tree>, n: nat) -> bool {
    forall|k: u64| #[trigger] s.contains_key(k) ==> k < n && vars_below(s[k], n)
}

/// An ordered set of variable bindings, with each variable bound at most once.
/// The bindings are kept in the order they were made, each as it was made:
/// a binding is never edited or removed, and a bound term may mention
/// variables bound later, or the bound variable itself.
pub struct Substitution {
    pub bindings: Vec<(u64, Term)>,
}

/// The map that a sequence of bindings denotes (a later binding of a key
/// replaces an earlier one).
pub open spec fn to_map(b: Seq<(u64, Term)>) -> Map<u64, Tree>
    decreases b.len(),
{
    if b.len() == 0 {
        Map::empty()
    } else {
        to_map(b.drop_last()).insert(b.last().0, b.last().1@)
    }
}

/// Each key appears once.
pub open spec fn keys_unique(b: Seq<(u64, Term)>) -> bool {
    forall|i: int, j: int| 0 <= i < j < b.len() ==> b[i].0 != b[j].0
}

impl View for Substitution {
    type V = Map<u64, Tree>;

    open spec fn view(&self) -> Map<u64, Tree> {
        to_map(self.bindings@)
    }
}

/// Lookup in a sequence of unique bindings.
pub proof fn lemma_to_map(b: Seq<(u64, Term)>)
    requires
        keys_unique(b),
    ensures
        forall|k: u64| to_map(b).contains_key(k) <==> exists|i: int| 0 <= i < b.len() && b[i].0 == k,
        forall|i: int| 0 <= i < b.len() ==> #[trigger] to_map(b)[b[i].0] == b[i].1@,
        to_map(b).dom().len() == b.len(),
        to_map(b).dom().finite(),
    decreases b.len(),
{
    if b.len() > 0 {
        let p = b.drop_last();
        lemma_to_map(p);
        assert forall|k: u64| to_map(b).contains_key(k) <==> exists|i: int| 0 <= i < b.len() && b[i].0 == k by {
            if to_map(b).contains_key(k) && k != b.last().0 {
                let i = choose|i: int| 0 <= i < p.len() && p[i].0 == k;
                assert(b[i].0 == k);
            }
            if exists|i: int| 0 <= i < b.len() && b[i].0 == k {
                let i = choose|i: int| 0 <= i < b.len() && b[i].0 == k;
                if i < p.len() {
                    assert(p[i].0 == k);
                }
            }
        }
        assert forall|i: int| 0 <= i < b.len() implies #[trigger] to_map(b)[b[i].0] == b[i].1@ by {
            if i < p.len() {
                assert(p[i].0 == b[i].0);
                assert(to_map(p)[p[i].0] == p[i].1@);
            }
        }
        assert(!to_map(p).contains_key(b.last().0)) by {
            if to_map(p).contains_key(b.last().0) {
                let i = choose|i: int| 0 <= i < p.len() && p[i].0 == b.last().0;
                assert(b[i].0 == b[b.len() - 1].0);
            }
        }
        assert(to_map(b).dom() =~= to_map(p).dom().insert(b.last().0));
    } else {
        assert(to_map(b).dom() =~= Set::empty());
    }
}

impl Substitution {
    /// Each variable is bound at most once.
    pub open spec fn wf(&self) -> bool {
        keys_unique(self.bindings@)
    }

    /// The empty substitution.
    pub fn new() -> (r: Substitution)
        ensures
            r.wf(),
            r@ == Map::<u64, Tree>::empty(),
            r.bindings@.len() == 0,
    {
        let r = Substitution { bindings: Vec::new() };
        assert(r@ =~= Map::<u64, Tree>::empty());
        r
    }

    /// The term bound to `x`, if any.
    pub fn lookup(&self, x: u64) -> (r: Option<&Term>)
        requires
            keys_unique(self.bindings@),
        ensures
            r is Some <==> self@.contains_key(x),
            r is Some ==> r->0@ == self@[x],
    {
        proof {
            lemma_to_map(self.bindings@);
        }
        let mut i: usize = 0;
        while i < self.bindings.len()
            invariant
                i <= self.bindings.len(),
                keys_unique(self.bindings@),
                forall|j: int| 0 <= j < i ==> self.bindings@[j].0 != x,
            decreases self.bindings.len() - i,
        {
            if self.bindings[i].0 == x {
                proof {
                    lemma_to_map(self.bindings@);
                    assert(self@[self.bindings@[i as int].0] == self.bindings@[i as int].1@);
                }
                return Some(&self.bindings[i].1);
            }
            i = i + 1;
        }
        None
    }
}

impl Substitution {
    /// A copy of the substitution, binding for binding.
    pub fn duplicate(&self) -> (r: Substitution)
        requires
            self.wf(),
        ensures
            r.wf(),
            r@ == self@,
            r.bindings@.len() == self.bindings@.len(),
            forall|i: int|
                0 <= i < r.bindings@.len() ==> (#[trigger] r.bindings@[i]).0 == self.bindings@[i].0
                    && r.bindings@[i].1@ == self.bindings@[i].1@,
    {
        let mut b: Vec<(u64, Term)> = Vec::new();
        let mut i: usize = 0;
        while i < self.bindings.len()
            invariant
                i <= self.bindings.len(),
                b.len() == i,
                forall|j: int| 0 <= j < i ==> (#[trigger] b@[j]).0 == self.bindings@[j].0 && b@[j].1@ == self.bindings@[j].1@,
            decreases self.bindings.len() - i,
        {
            b.push((self.bindings[i].0, copy_term(&self.bindings[i].1)));
            i = i + 1;
        }
        proof {
            lemma_to_map_same(b@, self.bindings@, b@.len() as int);
            assert(b@.subrange(0, b@.len() as int) =~= b@);
            assert(self.bindings@.subrange(0, b@.len() as int) =~= self.bindings@);
        }
        Substitution { bindings: b }
    }
}

/// Sequences of bindings that agree binding for binding denote the same map.
proof fn lemma_to_map_same(b1: Seq<(u64, Term)>, b2: Seq<(u64, Term)>, n: int)
    requires
        b1.len() == b2.len(),
        0 <= n <= b1.len(),
        forall|j: int| 0 <= j < b1.len() ==> (#[trigger] b1[j]).0 == b2[j].0 && b1[j].1@ == b2[j].1@,
    ensures
        to_map(b1.subrange(0, n)) == to_map(b2.subrange(0, n)),
    decreases n,
{
    if n > 0 {
        lemma_to_map_same(b1, b2, n - 1);
        assert(b1.subrange(0, n).drop_last() =~= b1.subrange(0, n - 1));
        assert(b2.subrange(0, n).drop_last() =~= b2.subrange(0, n - 1));
    }
}

/// `t` with its bound variables replaced by their bindings, expanded again
/// inside, at most `depth` bindings deep along any path. An acyclic
/// substitution of `depth` bindings is fully resolved this way; a cyclic one
/// leaves a variable where the unfolding stops.
pub open spec fn expand(t: Tree, m: Map<u64, Tree>, depth: nat) -> Tree
    decreases depth, t,
{
    match t {
        Tree::Var(v) => if m.contains_key(v) && depth > 0 {
            expand(m[v], m, (depth - 1) as nat)
        } else {
            t
        },
        Tree::Const(_) => t,
        Tree::App(f, args) => Tree::App(
            f,
            Seq::new(
                args.len(),
                |i: int|
                    if 0 <= i < args.len() {
                        expand(args[i], m, depth)
                    } else {
                        Tree::Var(0)
                    },
            ),
        ),
    }
}

/// Expands `t` through `s`, up to `depth` bindings deep.
fn expand_to(t: &Term, s: &Substitution, depth: u64) -> (r: Term)
    requires
        s.wf(),
    ensures
        r@ == expand(t@, s@, depth as nat),
    decreases depth, t@,
{
    match t {
        Term::Var(v) => {
            if depth > 0 {
                match s.lookup(*v) {
                    Some(u) => expand_to(u, s, depth - 1),
                    None => Term::Var(*v),
                }
            } else {
                Term::Var(*v)
            }
        },
        Term::Const(c) => Term::Const(c.clone()),
        Term::Compound(f, args) => {
            let mut out: Vec<Term> = Vec::new();
            let mut i: usize = 0;
            while i < args.len()
                invariant
                    i <= args.len(),
                    s.wf(),
                    *t == Term::Compound(*f, *args),
                    out.len() == i,
                    forall|j: int| 0 <= j < i ==> out[j]@ == expand(args[j]@, s@, depth as nat),
                decreases args.len() - i,
            {
                proof {
                    assert(t@->App_1[i as int] == args[i as int]@);
                }
                let c = expand_to(&args[i], s, depth);
                out.push(c);
                i = i + 1;
            }
            let g = f.clone();
            let r = Term::Compound(g, out);
            assert(model(r)->App_1 =~= expand(model(*t), s@, depth as nat)->App_1);
            r
        },
    }
}

/// Applies `s` to `t`: every bound variable is replaced by its binding,
/// expanded again inside, as many bindings deep as `s` has bindings. Chains
/// of bindings are thereby fully resolved; a cyclic binding is unfolded that
/// many times and then left as its variable.
pub fn apply(t: &Term, s: &Substitution) -> (r: Term)
    requires
        s.wf(),
    ensures
        r@ == expand(t@, s@, s.bindings@.len()),
{
    let n = s.bindings.len() as u64;
    expand_to(t, s, n)
}

} // verus!
