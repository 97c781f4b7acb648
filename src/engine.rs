//! Clauses, the clause database, renaming apart, and depth-first SLD
//! resolution with chronological backtracking.
use vstd::prelude::*;
use crate::term::{apply, bounded, copy_term, expand, lemma_to_map, occurs, vars_below, Substitution, Term, Tree};
use crate::unify::unify;
use crate::unify::{lemma_unify_bounded, unify_spec, Unified, UnifiedView};

verus! {

/// `t` with each variable `v` renamed to `v + base`.
pub open spec fn shift(t: Tree, base: u64) -> Tree
    decreases t,
{
    match t {
        Tree::Var(v) => Tree::Var((v + base) as u64),
        Tree::Const(_) => t,
        Tree::App(f, args) => Tree::App(
            f,
            Seq::new(
                args.len(),
                |i: int|
                    if 0 <= i < args.len() {
                        shift(args[i], base)
                    } else {
                        Tree::Var(0)
                    },
            ),
        ),
    }
}

/// Renames the variables of `t`, all below `n`, to fresh ones starting at
/// `base`: variable `v` becomes `v + base`.
pub fn rename(t: &Term, base: u64, n: u64) -> (r: Term)
    requires
        vars_below(t@, n as nat),
        base + n <= u64::MAX,
    ensures
        r@ == shift(t@, base),
    decreases t@,
{
    match t {
        Term::Var(v) => {
            assert(occurs(t@, *v));
            Term::Var(*v + base)
        },
        Term::Const(c) => Term::Const(c.clone()),
        Term::Compound(f, args) => {
            let mut out: Vec<Term> = Vec::new();
            let mut i: usize = 0;
            while i < args.len()
                invariant
                    i <= args.len(),
                    *t == Term::Compound(*f, *args),
                    vars_below(t@, n as nat),
                    base + n <= u64::MAX,
                    out.len() == i,
                    forall|j: int| 0 <= j < i ==> out[j]@ == shift(args[j]@, base),
                decreases args.len() - i,
            {
                proof {
                    assert(t@->App_1[i as int] == args[i as int]@);
                    assert forall|v: u64| occurs(args[i as int]@, v) implies v < n by {
                        assert(occurs(t@, v));
                    }
                }
                let c = rename(&args[i], base, n);
                out.push(c);
                i = i + 1;
            }
            let g = f.clone();
            let r = Term::Compound(g, out);
            assert(r@->App_1 =~= shift(t@, base)->App_1);
            r
        },
    }
}

/// Whether every variable of `t` is below `n`.
pub fn check_vars_below(t: &Term, n: u64) -> (r: bool)
    ensures
        r == vars_below(t@, n as nat),
    decreases t@,
{
    match t {
        Term::Var(v) => {
            assert(occurs(t@, *v));
            *v < n
        },
        Term::Const(_) => true,
        Term::Compound(f, args) => {
            let mut i: usize = 0;
            while i < args.len()
                invariant
                    i <= args.len(),
                    *t == Term::Compound(*f, *args),
                    forall|j: int| 0 <= j < i ==> vars_below(#[trigger] args[j]@, n as nat),
                decreases args.len() - i,
            {
                proof {
                    assert(t@->App_1[i as int] == args[i as int]@);
                }
                if !check_vars_below(&args[i], n) {
                    proof {
                        let v = choose|v: u64| occurs(args[i as int]@, v) && !(v < n);
                        assert(occurs(t@, v));
                    }
                    return false;
                }
                i = i + 1;
            }
            proof {
                assert forall|v: u64| occurs(t@, v) implies v < n by {
                    let j = choose|j: int| 0 <= j < t@->App_1.len() && occurs(#[trigger] t@->App_1[j], v);
                    assert(t@->App_1[j] == args[j]@);
                }
            }
            true
        },
    }
}

/// A stored clause: a head and an ordered body, empty for a fact. Its
/// variables are numbered from 0; `names` gives their source names.
pub struct Clause {
    pub head: Term,
    pub body: Vec<Term>,
    pub names: Vec<String>,
}

impl Clause {
    /// Every variable of the clause has a name.
    pub open spec fn wf(&self) -> bool {
        &&& vars_below(self.head@, self.names.len() as nat)
        &&& forall|i: int|
            0 <= i < self.body.len() ==> vars_below(#[trigger] self.body[i]@, self.names.len() as nat)
    }

    /// Whether the clause is a fact (has an empty body).
    pub fn is_fact(&self) -> (r: bool)
        ensures
            r == (self.body.len() == 0),
    {
        self.body.len() == 0
    }

    /// Whether every variable of the clause has a name.
    pub fn check(&self) -> (r: bool)
        ensures
            r == self.wf(),
    {
        let n = self.names.len() as u64;
        if !check_vars_below(&self.head, n) {
            return false;
        }
        let mut i: usize = 0;
        while i < self.body.len()
            invariant
                i <= self.body.len(),
                n == self.names.len(),
                forall|j: int| 0 <= j < i ==> vars_below(#[trigger] self.body[j]@, n as nat),
            decreases self.body.len() - i,
        {
            if !check_vars_below(&self.body[i], n) {
                return false;
            }
            i = i + 1;
        }
        true
    }
}

/// `head` and `goal` are compounds with the same functor name and arity.
pub open spec fn same_symbol(head: Tree, goal: Tree) -> bool {
    head is App && goal is App && head->App_0 == goal->App_0 && head->App_1.len()
        == goal->App_1.len()
}

/// Whether `head` can answer `goal`: same functor name and arity.
pub fn same_functor(head: &Term, goal: &Term) -> (r: bool)
    ensures
        r == same_symbol(head@, goal@),
{
    match (head, goal) {
        (Term::Compound(f, xs), Term::Compound(g, ys)) => *f == *g && xs.len() == ys.len(),
        _ => false,
    }
}

/// An ordered collection of clauses, in insertion order.
pub struct Database {
    pub clauses: Vec<Clause>,
}

impl Database {
    /// Every clause names its variables.
    pub open spec fn wf(&self) -> bool {
        forall|i: int| 0 <= i < self.clauses.len() ==> (#[trigger] self.clauses[i]).wf()
    }

    /// An empty database.
    pub fn new() -> (r: Database)
        ensures
            r.clauses@.len() == 0,
    {
        Database { clauses: Vec::new() }
    }

    /// Appends a clause.
    pub fn add(&mut self, c: Clause)
        ensures
            final(self).clauses@ == old(self).clauses@.push(c),
    {
        self.clauses.push(c);
    }

    /// The positions of the clauses whose head has the functor name and
    /// arity of `goal`, in insertion order. A goal that is not a compound
    /// has none.
    pub fn candidates(&self, goal: &Term) -> (r: Vec<usize>)
        ensures
            forall|k: int, l: int| 0 <= k < l < r.len() ==> r[k] < r[l],
            forall|k: int|
                0 <= k < r.len() ==> r[k] < self.clauses.len() && same_symbol(
                    #[trigger] self.clauses[r[k] as int].head@,
                    goal@,
                ),
            forall|i: int|
                0 <= i < self.clauses.len() && same_symbol(#[trigger] self.clauses[i].head@, goal@)
                    ==> exists|k: int| 0 <= k < r.len() && r[k] == i,
    {
        let mut r: Vec<usize> = Vec::new();
        let mut i: usize = 0;
        while i < self.clauses.len()
            invariant
                i <= self.clauses.len(),
                forall|k: int, l: int| 0 <= k < l < r.len() ==> r[k] < r[l],
                forall|k: int| 0 <= k < r.len() ==> r[k] < i,
                forall|k: int|
                    0 <= k < r.len() ==> same_symbol(#[trigger] self.clauses[r[k] as int].head@, goal@),
                forall|j: int|
                    0 <= j < i && same_symbol(#[trigger] self.clauses[j].head@, goal@) ==> exists|k: int|
                        0 <= k < r.len() && r[k] == j,
            decreases self.clauses.len() - i,
        {
            let ghost prev = r@;
            if same_functor(&self.clauses[i].head, goal) {
                r.push(i);
                assert(r[r.len() - 1] == i);
            }
            assert forall|j: int|
                0 <= j < i + 1 && same_symbol(#[trigger] self.clauses[j].head@, goal@) implies exists|k: int|
                    0 <= k < r.len() && r[k] == j by {
                if j < i {
                    let k = choose|k: int| 0 <= k < prev.len() && prev[k] == j;
                    assert(r[k] == j);
                } else {
                    assert(r[r.len() - 1] == i);
                }
            }
            i = i + 1;
        }
        r
    }
}

/// A saved search state: the pending goals (leftmost first), the
/// substitution reached, and the position of the next clause to try for the
/// first goal.
pub struct Frame {
    pub goals: Vec<Term>,
    pub subst: Substitution,
    pub next: usize,
}

/// How deep one unification may go: the largest bound there is, so that
/// only a unification that would not finish reaches it.
pub const UNIFY_DEPTH: u64 = u64::MAX;

/// What one step of the search produced.
pub enum Step {
    /// A proof of the query: each query variable's name with its value.
    Solution(Vec<(String, Term)>),
    /// The search moved on (a clause was entered, or a goal failed and the
    /// search backtracked).
    Progress,
    /// The search space is exhausted: there are no further solutions.
    Done,
    /// No fresh variable identities are left.
    OutOfIds,
    /// A unification reached the depth bound (it runs through cyclic
    /// bindings without end).
    TooDeep,
}

/// Why a query cannot be run.
pub enum QueryError {
    /// The query is not a single compound goal with named variables.
    MalformedQuery,
    /// A clause of the program uses a variable without a name.
    MalformedClause,
}

/// `ans` reports, for each query variable in order, its name and its value
/// under `s`, expanded through all of its bindings.
pub open spec fn is_answer(ans: Seq<(String, Term)>, names: Seq<String>, s: Substitution) -> bool {
    &&& ans.len() == names.len()
    &&& forall|i: int|
        0 <= i < ans.len() ==> (#[trigger] ans[i]).0@ == names[i]@ && ans[i].1@ == expand(
            Tree::Var(i as u64),
            s@,
            s.bindings@.len(),
        )
}

/// Clause `c`, renamed to identities from `base` on, clashes with `goal`
/// under `s`.
pub open spec fn fails_at(c: Clause, goal: Tree, s: Map<u64, Tree>, base: u64) -> bool {
    unify_spec(goal, shift(c.head@, base), s, UNIFY_DEPTH as nat) is Clash
}

/// The identities from `base` on cannot hold the variables of `c`.
pub open spec fn overflows(c: Clause, base: u64) -> bool {
    base + c.names.len() > u64::MAX
}

/// Every candidate for `goal` among `cs[from..to]`, renamed from `base` on,
/// fits and clashes.
pub open spec fn all_fail(
    cs: Seq<Clause>,
    goal: Tree,
    s: Map<u64, Tree>,
    base: u64,
    from: int,
    to: int,
) -> bool {
    forall|j: int|
        from <= j < to && same_symbol(#[trigger] cs[j].head@, goal) ==> !overflows(cs[j], base)
            && fails_at(cs[j], goal, s, base)
}

/// One step of the search takes runner `a` to runner `b`, reporting `r`.
///
/// With no saved state left the search is done. A state with no pending
/// goals is a proof: its answer is reported and the state dropped. Otherwise
/// the first pending goal is tried against the candidate clauses from the
/// state's next position on, in order, each renamed to fresh identities
/// from `next_id` on. On the first that unifies, the state is saved to
/// resume after that clause and a new state is pushed with the unifier and
/// with the clause's body ahead of the remaining goals. When all clash, the
/// state is dropped, which resumes the most recent choice point. When a
/// candidate is reached whose variables do not fit in the identities left,
/// or whose unification reaches the depth bound, the state is dropped and
/// the search stops.
pub open spec fn steps_to(a: Runner, b: Runner, r: Step) -> bool {
    &&& b.wf()
    &&& b.goal == a.goal
    &&& b.names == a.names
    &&& b.db == a.db
    &&& (r is Done <==> a.stack.len() == 0)
    &&& a.stack.len() == 0 ==> b.stack@ == a.stack@ && b.next_id == a.next_id
    &&& a.stack.len() > 0 ==> ({
        let top = a.stack@.last();
        let rest = a.stack@.drop_last();
        let cs = a.db.clauses@;
        let g = top.goals[0]@;
        let base = a.next_id;
        let d = UNIFY_DEPTH as nat;
        &&& top.goals.len() == 0 ==> r is Solution && is_answer(r->Solution_0@, a.names@, top.subst)
            && b.stack@ == rest && b.next_id == a.next_id
        &&& top.goals.len() > 0 ==> (r is Progress || r is OutOfIds || r is TooDeep)
        &&& top.goals.len() > 0 ==> (r is OutOfIds <==> exists|j: int|
            top.next <= j < cs.len() && same_symbol(#[trigger] cs[j].head@, g) && all_fail(
                cs,
                g,
                top.subst@,
                base,
                top.next as int,
                j,
            ) && overflows(cs[j], base))
        &&& top.goals.len() > 0 ==> (r is TooDeep <==> exists|j: int|
            top.next <= j < cs.len() && same_symbol(#[trigger] cs[j].head@, g) && all_fail(
                cs,
                g,
                top.subst@,
                base,
                top.next as int,
                j,
            ) && !overflows(cs[j], base) && unify_spec(g, shift(cs[j].head@, base), top.subst@, d) is TooDeep)
        &&& (r is OutOfIds || r is TooDeep) ==> b.stack@ == rest && b.next_id == a.next_id
        &&& top.goals.len() > 0 && r is Progress ==> (b.stack@ == rest && b.next_id == a.next_id
            && all_fail(cs, g, top.subst@, base, top.next as int, cs.len() as int)) || ({
            let n = b.stack.len();
            let saved = b.stack[n - 2];
            let new = b.stack[n - 1];
            let j = saved.next - 1;
            let c = cs[j];
            &&& n == a.stack.len() + 1
            &&& b.stack@.subrange(0, n - 2) == rest
            &&& saved.goals == top.goals && saved.subst == top.subst
            &&& top.next <= j < cs.len()
            &&& same_symbol(c.head@, g)
            &&& all_fail(cs, g, top.subst@, base, top.next as int, j)
            &&& !overflows(c, base)
            &&& b.next_id == base + c.names.len()
            &&& unify_spec(g, shift(c.head@, base), top.subst@, d) == UnifiedView::Bound(new.subst@)
            &&& trees(new.goals@) == Seq::new(c.body.len() as nat, |k: int| shift(c.body[k]@, base))
                + trees(top.goals@).drop_first()
            &&& new.next == 0
        })
    })
}

/// Every variable that frame `f` mentions is below `n`.
pub open spec fn frame_below(f: Frame, n: nat) -> bool {
    &&& bounded(f.subst@, n)
    &&& forall|i: int| 0 <= i < f.goals.len() ==> vars_below(#[trigger] f.goals[i]@, n)
}

/// The models of a sequence of terms.
pub open spec fn trees(ts: Seq<Term>) -> Seq<Tree> {
    Seq::new(ts.len(), |i: int| ts[i]@)
}

/// `q` is the runner prepared for `goal` over `clauses`: a single saved
/// state holding the query as its only goal, with nothing bound.
pub open spec fn starts(goal: Clause, clauses: Vec<Clause>, q: Runner) -> bool {
    &&& q.wf()
    &&& q.goal@ == goal.head@
    &&& q.names@ == goal.names@
    &&& q.db.clauses@ == clauses@
    &&& q.next_id == goal.names.len()
    &&& q.stack.len() == 1
    &&& trees(q.stack[0].goals@) == seq![goal.head@]
    &&& q.stack[0].subst@ == Map::<u64, Tree>::empty()
    &&& q.stack[0].next == 0
}

/// The answers that a sequence of step results reports, in order.
pub open spec fn answers_of(rs: Seq<Step>) -> Seq<Vec<(String, Term)>>
    decreases rs.len(),
{
    if rs.len() == 0 {
        Seq::empty()
    } else {
        let p = answers_of(rs.drop_last());
        if rs.last() is Solution {
            p.push(rs.last()->Solution_0)
        } else {
            p
        }
    }
}

/// Each runner of `states` steps to the next, reporting the matching result
/// of `rs`.
pub open spec fn is_run(states: Seq<Runner>, rs: Seq<Step>) -> bool {
    &&& states.len() == rs.len() + 1
    &&& forall|i: int| 0 <= i < rs.len() ==> steps_to(states[i], states[i + 1], #[trigger] rs[i])
}

/// The search from `a` to `b` took at most `steps` steps and reported
/// `ans`: exactly `steps` steps that did not end the search when `ended` is
/// false; otherwise steps of which only the last found the search done,
/// out of identities, or stopped at the depth bound.
pub open spec fn ran(a: Runner, b: Runner, steps: nat, ans: Seq<Vec<(String, Term)>>, ended: bool) -> bool {
    exists|states: Seq<Runner>, rs: Seq<Step>|
        #[trigger] is_run(states, rs) && states[0] == a && states.last() == b && answers_of(rs) == ans
            && if ended {
            &&& 0 < rs.len() <= steps
            &&& (rs.last() is Done || rs.last() is OutOfIds || rs.last() is TooDeep)
            &&& forall|i: int| 0 <= i < rs.len() - 1 ==> (#[trigger] rs[i] is Solution || rs[i] is Progress)
        } else {
            &&& rs.len() == steps
            &&& forall|i: int| 0 <= i < rs.len() ==> (#[trigger] rs[i] is Solution || rs[i] is Progress)
        }
}

/// Some run of at most `steps` steps from the runner prepared for `query`
/// over `clauses` reports `ans`, and has ended exactly when `ended`.
pub open spec fn solved(
    query: Clause,
    clauses: Vec<Clause>,
    steps: nat,
    ans: Seq<Vec<(String, Term)>>,
    ended: bool,
) -> bool {
    exists|a: Runner, b: Runner|
        #![trigger starts(query, clauses, a), ran(a, b, steps, ans, ended)]
        starts(query, clauses, a) && ran(a, b, steps, ans, ended)
}

/// A resolution engine for one query over one program. The search is
/// depth-first and left to right: candidate clauses are tried in program
/// order, the subgoals of a body before the remaining goals, and on failure
/// the most recent choice point is resumed.
pub struct Runner {
    pub goal: Term,
    pub names: Vec<String>,
    pub db: Database,
    pub stack: Vec<Frame>,
    pub next_id: u64,
}

impl Runner {
    /// The program is well formed, every saved substitution binds each
    /// variable at most once, and every variable in use is below `next_id`,
    /// so identities from `next_id` on are fresh.
    pub open spec fn wf(&self) -> bool {
        &&& self.db.wf()
        &&& self.names.len() <= self.next_id
        &&& forall|k: int| 0 <= k < self.stack.len() ==> (#[trigger] self.stack[k]).subst.wf()
        &&& forall|k: int| 0 <= k < self.stack.len() ==> frame_below(#[trigger] self.stack[k], self.next_id as nat)
    }

    /// Prepares the search for `goal` (the head of a clause with an empty
    /// body) over `clauses`. Query variables keep their numbers; fresh
    /// identities start after them.
    pub fn from_input(goal: Clause, clauses: Vec<Clause>) -> (r: Result<Runner, QueryError>)
        ensures
            (r is Err && r->Err_0 is MalformedQuery) <==> !(goal.head@ is App && goal.body.len() == 0
                && goal.wf()),
            (r is Err && r->Err_0 is MalformedClause) <==> (goal.head@ is App && goal.body.len() == 0
                && goal.wf() && exists|i: int| 0 <= i < clauses.len() && !(#[trigger] clauses[i]).wf()),
            r is Ok ==> starts(goal, clauses, r->Ok_0),
    {
        let compound = match &goal.head {
            Term::Compound(_, _) => true,
            _ => false,
        };
        if !compound || goal.body.len() != 0 || !goal.check() {
            return Err(QueryError::MalformedQuery);
        }
        let mut i: usize = 0;
        while i < clauses.len()
            invariant
                i <= clauses.len(),
                goal.head@ is App && goal.body.len() == 0 && goal.wf(),
                forall|j: int| 0 <= j < i ==> (#[trigger] clauses[j]).wf(),
            decreases clauses.len() - i,
        {
            if !clauses[i].check() {
                return Err(QueryError::MalformedClause);
            }
            i = i + 1;
        }
        let first = copy_term(&goal.head);
        let frame = Frame { goals: vec![first], subst: Substitution::new(), next: 0 };
        assert(trees(frame.goals@) =~= seq![goal.head@]);
        let next_id = goal.names.len() as u64;
        let stack = vec![frame];
        assert(frame_below(stack[0], next_id as nat)) by {
            assert(frame.goals[0]@ == goal.head@);
        }
        Ok(Runner { goal: goal.head, names: goal.names, db: Database { clauses }, stack, next_id })
    }

    /// The answer that substitution `s` gives to the query.
    fn answer(&self, s: &Substitution) -> (r: Vec<(String, Term)>)
        requires
            s.wf(),
        ensures
            is_answer(r@, self.names@, *s),
    {
        let mut r: Vec<(String, Term)> = Vec::new();
        let mut i: usize = 0;
        while i < self.names.len()
            invariant
                i <= self.names.len(),
                s.wf(),
                r.len() == i,
                forall|j: int|
                    0 <= j < i ==> (#[trigger] r[j]).0@ == self.names[j]@ && r[j].1@ == expand(
                        Tree::Var(j as u64),
                        s@,
                        s.bindings@.len(),
                    ),
            decreases self.names.len() - i,
        {
            let v = Term::Var(i as u64);
            let value = apply(&v, s);
            r.push((self.names[i].clone(), value));
            i = i + 1;
        }
        r
    }

    /// Performs one step of the search, as `steps_to` describes.
    pub fn advance(&mut self) -> (r: Step)
        requires
            old(self).wf(),
        ensures
            final(self).wf(),
            steps_to(*old(self), *final(self), r),
    {
        let f = match self.stack.pop() {
            None => {
                return Step::Done;
            },
            Some(f) => f,
        };
        if f.goals.len() == 0 {
            let ans = self.answer(&f.subst);
            return Step::Solution(ans);
        }
        let ghost cs = self.db.clauses@;
        let ghost g = f.goals[0]@;
        let base = self.next_id;
        let mut i: usize = f.next;
        while i < self.db.clauses.len()
            invariant
                self.wf(),
                self.goal == old(self).goal,
                self.names == old(self).names,
                self.db == old(self).db,
                self.next_id == old(self).next_id,
                base == self.next_id,
                cs == self.db.clauses@,
                old(self).stack.len() > 0,
                self.stack@ == old(self).stack@.drop_last(),
                f == old(self).stack@.last(),
                f.subst.wf(),
                frame_below(f, base as nat),
                f.goals.len() > 0,
                g == f.goals[0]@,
                f.next <= i,
                all_fail(cs, g, f.subst@, base, f.next as int, i as int),
            decreases self.db.clauses.len() - i,
        {
            let c = &self.db.clauses[i];
            if same_functor(&c.head, &f.goals[0]) {
                let n = c.names.len() as u64;
                if base > u64::MAX - n {
                    assert(overflows(cs[i as int], base));
                    return Step::OutOfIds;
                }
                assert(c.wf());
                let head = rename(&c.head, base, n);
                let work = f.subst.duplicate();
                match unify(&f.goals[0], &head, work, UNIFY_DEPTH) {
                    Unified::Bound(s1) => {
                        let mut goals: Vec<Term> = Vec::new();
                        let mut k: usize = 0;
                        while k < c.body.len()
                            invariant
                                k <= c.body.len(),
                                c.wf(),
                                n == c.names.len(),
                                base + n <= u64::MAX,
                                goals.len() == k,
                                forall|m: int| 0 <= m < k ==> goals[m]@ == shift(c.body[m]@, base),
                            decreases c.body.len() - k,
                        {
                            goals.push(rename(&c.body[k], base, n));
                            k = k + 1;
                        }
                        let mut m: usize = 1;
                        while m < f.goals.len()
                            invariant
                                1 <= m <= f.goals.len(),
                                goals.len() == c.body.len() + m - 1,
                                forall|q: int| 0 <= q < c.body.len() ==> goals[q]@ == shift(c.body[q]@, base),
                                forall|q: int|
                                    c.body.len() <= q < goals.len() ==> goals[q]@ == f.goals[q - c.body.len() + 1]@,
                            decreases f.goals.len() - m,
                        {
                            goals.push(copy_term(&f.goals[m]));
                            m = m + 1;
                        }
                        self.next_id = base + n;
                        let ghost fg = f.goals;
                        proof {
                            assert(trees(goals@) =~= Seq::new(c.body.len() as nat, |q: int| shift(c.body[q]@, base))
                                + trees(fg@).drop_first());
                        }
                        let ghost fs = f.subst;
                        proof {
                            let top = base + n;
                            assert(vars_below(shift(c.head@, base), top as nat)) by {
                                assert forall|v: u64| occurs(shift(c.head@, base), v) implies v < top by {
                                    lemma_shift_occurs(c.head@, base, n as nat, v);
                                }
                            }
                            assert(vars_below(g, top as nat));
                            assert(bounded(fs@, top as nat));
                            lemma_unify_bounded(g, shift(c.head@, base), fs@, UNIFY_DEPTH as nat, top as nat);
                            assert forall|q: int| 0 <= q < goals.len() implies vars_below(#[trigger] goals[q]@, top as nat) by {
                                if q < c.body.len() {
                                    assert(vars_below(c.body[q]@, n as nat));
                                    assert forall|v: u64| occurs(goals[q]@, v) implies v < top by {
                                        lemma_shift_occurs(c.body[q]@, base, n as nat, v);
                                    }
                                } else {
                                    assert(vars_below(f.goals[q - c.body.len() + 1]@, base as nat));
                                }
                            }
                            assert forall|k: int| 0 <= k < self.stack.len() implies frame_below(#[trigger] self.stack[k], top as nat) by {
                                assert(frame_below(self.stack[k], base as nat));
                            }
                        }
                        let saved = Frame { goals: f.goals, subst: f.subst, next: i + 1 };
                        self.stack.push(saved);
                        let new = Frame { goals, subst: s1, next: 0 };
                        self.stack.push(new);
                        proof {
                            let d = UNIFY_DEPTH as nat;
                            assert(cs[i as int] == *c);
                            assert forall|j: int|
                                f.next <= j < cs.len() && same_symbol(#[trigger] cs[j].head@, g) implies !(
                                all_fail(cs, g, fs@, base, f.next as int, j) && overflows(cs[j], base)) && !(
                                all_fail(cs, g, fs@, base, f.next as int, j) && !overflows(cs[j], base)
                                && unify_spec(g, shift(cs[j].head@, base), fs@, d) is TooDeep) by {
                                if j > i {
                                    if all_fail(cs, g, fs@, base, f.next as int, j) {
                                        assert(same_symbol(cs[i as int].head@, g));
                                        assert(fails_at(cs[i as int], g, fs@, base));
                                        assert(false);
                                    }
                                } else if j < i {
                                    assert(!overflows(cs[j], base));
                                    assert(fails_at(cs[j], g, fs@, base));
                                }
                            }
                            let b = *self;
                            let nn = b.stack.len();
                            assert(b.stack@.subrange(0, nn - 2) =~= old(self).stack@.drop_last());
                            assert(b.stack@ != old(self).stack@.drop_last());
                            assert forall|k2: int| 0 <= k2 < b.stack.len() implies (#[trigger] b.stack[k2]).subst.wf() by {
                                if k2 < nn - 2 {
                                    assert(b.stack[k2] == old(self).stack@.drop_last()[k2]);
                                }
                            }
                        }
                        return Step::Progress;
                    },
                    Unified::Clash => {
                        assert(fails_at(cs[i as int], g, f.subst@, base));
                    },
                    Unified::TooDeep => {
                        assert(cs[i as int] == *c);
                        return Step::TooDeep;
                    },
                }
            }
            i = i + 1;
        }
        Step::Progress
    }

    /// Runs at most `steps` steps of the search and returns the solutions
    /// found, in order, with whether the search ended (no further solutions
    /// exist, or fresh identities ran out). The search can be resumed by a
    /// further call; it may run forever on some programs.
    pub fn run(&mut self, steps: u64) -> (r: (Vec<Vec<(String, Term)>>, bool))
        requires
            old(self).wf(),
        ensures
            final(self).wf(),
            ran(*old(self), *final(self), steps as nat, r.0@, r.1),
    {
        let mut found: Vec<Vec<(String, Term)>> = Vec::new();
        let mut left = steps;
        let ghost mut states: Seq<Runner> = seq![*self];
        let ghost mut rs: Seq<Step> = Seq::empty();
        while left > 0
            invariant
                self.wf(),
                left <= steps,
                is_run(states, rs),
                states[0] == *old(self),
                states.last() == *self,
                rs.len() == steps - left,
                forall|i: int| 0 <= i < rs.len() ==> (#[trigger] rs[i] is Solution || rs[i] is Progress),
                found@ == answers_of(rs),
            decreases left,
        {
            let ghost mid = *self;
            left = left - 1;
            let r = self.advance();
            let ghost rg = r;
            proof {
                let states2 = states.push(*self);
                let rs2 = rs.push(rg);
                assert forall|i: int| 0 <= i < rs2.len() implies steps_to(states2[i], states2[i + 1], #[trigger] rs2[i]) by {
                    if i < rs.len() {
                        assert(steps_to(states[i], states[i + 1], rs[i]));
                    }
                }
                assert(rs2.drop_last() =~= rs);
                states = states2;
                rs = rs2;
            }
            match r {
                Step::Solution(ans) => {
                    found.push(ans);
                },
                Step::Progress => {},
                Step::Done => {
                    assert(is_run(states, rs));
                    return (found, true);
                },
                Step::OutOfIds => {
                    assert(is_run(states, rs));
                    return (found, true);
                },
                Step::TooDeep => {
                    assert(is_run(states, rs));
                    return (found, true);
                },
            }
        }
        assert(is_run(states, rs));
        (found, false)
    }
}

/// Solves `query` (a clause with a compound head and no body) against
/// `clauses`, within at most `steps` search steps: the answers in order, and
/// whether the search ended.
pub fn solve(query: Clause, clauses: Vec<Clause>, steps: u64) -> (r: Result<
    (Vec<Vec<(String, Term)>>, bool),
    QueryError,
>)
    ensures
        r is Err <==> !(query.head@ is App && query.body.len() == 0 && query.wf()) || exists|i: int|
            0 <= i < clauses.len() && !(#[trigger] clauses[i]).wf(),
        r is Ok ==> solved(query, clauses, steps as nat, r->Ok_0.0@, r->Ok_0.1),
{
    let ghost q = query;
    let ghost cs = clauses;
    let mut runner = Runner::from_input(query, clauses)?;
    let ghost a = runner;
    let res = runner.run(steps);
    assert(q == query && cs == clauses);
    assert(starts(query, clauses, a) && ran(a, runner, steps as nat, res.0@, res.1));
    assert(solved(query, clauses, steps as nat, res.0@, res.1));
    Ok(res)
}

/// Each variable of a renamed term is a variable of the term moved by `base`.
pub proof fn lemma_shift_occurs(t: Tree, base: u64, n: nat, v: u64)
    requires
        vars_below(t, n),
        base + n <= u64::MAX,
        occurs(shift(t, base), v),
    ensures
        base <= v < base + n,
    decreases t,
{
    match t {
        Tree::Var(w) => {
            assert(occurs(t, w));
        },
        Tree::Const(_) => {},
        Tree::App(f, args) => {
            let r = shift(t, base);
            let i = choose|i: int| 0 <= i < r->App_1.len() && occurs(#[trigger] r->App_1[i], v);
            assert forall|w: u64| occurs(args[i], w) implies w < n by {
                assert(occurs(t, w));
            }
            lemma_shift_occurs(args[i], base, n, v);
        },
    }
}

/// Two frames agree on everything the search reads of them.
pub open spec fn same_frame(f: Frame, g: Frame) -> bool {
    &&& trees(f.goals@) == trees(g.goals@)
    &&& f.subst@ == g.subst@
    &&& f.subst.bindings@.len() == g.subst.bindings@.len()
    &&& f.next == g.next
}

/// Two runners agree on everything the search reads of them.
pub open spec fn same_state(a: Runner, b: Runner) -> bool {
    &&& a.names@ == b.names@
    &&& a.db.clauses@ == b.db.clauses@
    &&& a.next_id == b.next_id
    &&& a.stack.len() == b.stack.len()
    &&& forall|k: int| 0 <= k < a.stack.len() ==> same_frame(#[trigger] a.stack[k], b.stack[k])
}

/// Two answers report the same names with the same values.
pub open spec fn same_answer(x: Vec<(String, Term)>, y: Vec<(String, Term)>) -> bool {
    &&& x.len() == y.len()
    &&& forall|i: int| 0 <= i < x.len() ==> (#[trigger] x@[i]).0@ == y@[i].0@ && x@[i].1@ == y@[i].1@
}

/// Two step results are of the same kind, with the same answer if any.
pub open spec fn same_step(r: Step, q: Step) -> bool {
    match (r, q) {
        (Step::Solution(x), Step::Solution(y)) => same_answer(x, y),
        (Step::Progress, Step::Progress) => true,
        (Step::Done, Step::Done) => true,
        (Step::OutOfIds, Step::OutOfIds) => true,
        (Step::TooDeep, Step::TooDeep) => true,
        _ => false,
    }
}

/// One step is a function of what the search reads: from agreeing runners
/// it reports the same result and reaches agreeing runners.
pub proof fn lemma_step_determined(a: Runner, a2: Runner, b: Runner, b2: Runner, r: Step, r2: Step)
    requires
        same_state(a, a2),
        a.wf(),
        a2.wf(),
        steps_to(a, b, r),
        steps_to(a2, b2, r2),
    ensures
        same_state(b, b2),
        same_step(r, r2),
{
    if a.stack.len() > 0 {
        let n = a.stack.len();
        let top = a.stack@.last();
        let top2 = a2.stack@.last();
        assert(same_frame(a.stack[n - 1], a2.stack[n - 1]));
        assert(trees(top.goals@).len() == top.goals.len());
        assert(trees(top2.goals@).len() == top2.goals.len());
        let cs = a.db.clauses@;
        let base = a.next_id;
        let d = UNIFY_DEPTH as nat;
        if top.goals.len() == 0 {
            let x = r->Solution_0;
            let y = r2->Solution_0;
            assert(same_answer(x, y));
            assert forall|k: int| 0 <= k < b.stack.len() implies same_frame(#[trigger] b.stack[k], b2.stack[k]) by {
                assert(b.stack[k] == a.stack[k]);
                assert(b2.stack[k] == a2.stack[k]);
            }
        } else {
            let g = top.goals[0]@;
            assert(trees(top.goals@)[0] == g);
            assert(trees(top2.goals@)[0] == top2.goals[0]@);
            assert(top2.goals[0]@ == g);
            if r is Progress && r2 is Progress {
                let bt = b.stack@ == a.stack@.drop_last() && b.next_id == a.next_id && all_fail(
                    cs, g, top.subst@, base, top.next as int, cs.len() as int);
                let bt2 = b2.stack@ == a2.stack@.drop_last() && b2.next_id == a2.next_id && all_fail(
                    cs, g, top.subst@, base, top.next as int, cs.len() as int);
                if bt && bt2 {
                    assert forall|k: int| 0 <= k < b.stack.len() implies same_frame(#[trigger] b.stack[k], b2.stack[k]) by {
                        assert(b.stack[k] == a.stack[k]);
                        assert(b2.stack[k] == a2.stack[k]);
                    }
                } else if bt && !bt2 {
                    let m = b2.stack.len();
                    let j = b2.stack[m - 2].next - 1;
                    assert(same_symbol(cs[j].head@, g));
                    assert(fails_at(cs[j], g, top.subst@, base));
                } else if !bt && bt2 {
                    let m = b.stack.len();
                    let j = b.stack[m - 2].next - 1;
                    assert(same_symbol(cs[j].head@, g));
                    assert(fails_at(cs[j], g, top.subst@, base));
                } else {
                    let m = b.stack.len();
                    let j = b.stack[m - 2].next - 1;
                    let j2 = b2.stack[m - 2].next - 1;
                    if j < j2 {
                        assert(same_symbol(cs[j].head@, g));
                        assert(fails_at(cs[j], g, top.subst@, base));
                    } else if j2 < j {
                        assert(same_symbol(cs[j2].head@, g));
                        assert(fails_at(cs[j2], g, top.subst@, base));
                    } else {
                        let new = b.stack[m - 1];
                        let new2 = b2.stack[m - 1];
                        assert(new.subst.wf() && new2.subst.wf());
                        lemma_to_map(new.subst.bindings@);
                        lemma_to_map(new2.subst.bindings@);
                        assert(new.subst@ == new2.subst@);
                        assert(same_frame(new, new2));
                        assert forall|k: int| 0 <= k < b.stack.len() implies same_frame(#[trigger] b.stack[k], b2.stack[k]) by {
                            if k < m - 2 {
                                assert(b.stack@.subrange(0, m - 2)[k] == b.stack[k]);
                                assert(b2.stack@.subrange(0, m - 2)[k] == b2.stack[k]);
                                assert(a.stack[k] == b.stack[k]);
                                assert(a2.stack[k] == b2.stack[k]);
                            }
                        }
                    }
                }
            } else {
                assert forall|k: int| 0 <= k < b.stack.len() implies same_frame(#[trigger] b.stack[k], b2.stack[k]) by {
                    assert(b.stack[k] == a.stack[k]);
                    assert(b2.stack[k] == a2.stack[k]);
                }
            }
        }
    }
}

/// Two answer sequences agree answer by answer.
pub open spec fn same_answers(x: Seq<Vec<(String, Term)>>, y: Seq<Vec<(String, Term)>>) -> bool {
    &&& x.len() == y.len()
    &&& forall|i: int| 0 <= i < x.len() ==> same_answer(#[trigger] x[i], y[i])
}

proof fn lemma_answers_agree(rs: Seq<Step>, rs2: Seq<Step>)
    requires
        rs.len() == rs2.len(),
        forall|i: int| 0 <= i < rs.len() ==> same_step(#[trigger] rs[i], rs2[i]),
    ensures
        same_answers(answers_of(rs), answers_of(rs2)),
    decreases rs.len(),
{
    if rs.len() > 0 {
        lemma_answers_agree(rs.drop_last(), rs2.drop_last());
        assert(same_step(rs[rs.len() - 1], rs2[rs.len() - 1]));
    }
}

proof fn lemma_runs_agree(st: Seq<Runner>, rs: Seq<Step>, st2: Seq<Runner>, rs2: Seq<Step>, i: int)
    requires
        is_run(st, rs),
        is_run(st2, rs2),
        same_state(st[0], st2[0]),
        st[0].wf(),
        st2[0].wf(),
        0 <= i <= rs.len(),
        i <= rs2.len(),
    ensures
        same_state(st[i], st2[i]),
        st[i].wf(),
        st2[i].wf(),
        forall|j: int| 0 <= j < i ==> same_step(#[trigger] rs[j], rs2[j]),
    decreases i,
{
    if i > 0 {
        lemma_runs_agree(st, rs, st2, rs2, i - 1);
        assert(steps_to(st[i - 1], st[i], rs[i - 1]));
        assert(steps_to(st2[i - 1], st2[i], rs2[i - 1]));
        lemma_step_determined(st[i - 1], st2[i - 1], st[i], st2[i], rs[i - 1], rs2[i - 1]);
    }
}

/// Solving the same query over the same program twice, with the same step
/// bound, ends alike and reports the same answers in the same order.
pub proof fn lemma_solve_repeatable(
    query: Clause,
    clauses: Vec<Clause>,
    steps: nat,
    ans: Seq<Vec<(String, Term)>>,
    ended: bool,
    ans2: Seq<Vec<(String, Term)>>,
    ended2: bool,
)
    requires
        solved(query, clauses, steps, ans, ended),
        solved(query, clauses, steps, ans2, ended2),
    ensures
        ended == ended2,
        same_answers(ans, ans2),
{
    let (a, b) = choose|a: Runner, b: Runner| starts(query, clauses, a) && ran(a, b, steps, ans, ended);
    let (a2, b2) = choose|a: Runner, b: Runner| starts(query, clauses, a) && ran(a, b, steps, ans2, ended2);
    let (st, rs) = choose|states: Seq<Runner>, rs: Seq<Step>|
        #[trigger] is_run(states, rs) && states[0] == a && states.last() == b && answers_of(rs) == ans
            && if ended {
            &&& 0 < rs.len() <= steps
            &&& (rs.last() is Done || rs.last() is OutOfIds || rs.last() is TooDeep)
            &&& forall|i: int| 0 <= i < rs.len() - 1 ==> (#[trigger] rs[i] is Solution || rs[i] is Progress)
        } else {
            &&& rs.len() == steps
            &&& forall|i: int| 0 <= i < rs.len() ==> (#[trigger] rs[i] is Solution || rs[i] is Progress)
        };
    let (st2, rs2) = choose|states: Seq<Runner>, rs: Seq<Step>|
        #[trigger] is_run(states, rs) && states[0] == a2 && states.last() == b2 && answers_of(rs) == ans2
            && if ended2 {
            &&& 0 < rs.len() <= steps
            &&& (rs.last() is Done || rs.last() is OutOfIds || rs.last() is TooDeep)
            &&& forall|i: int| 0 <= i < rs.len() - 1 ==> (#[trigger] rs[i] is Solution || rs[i] is Progress)
        } else {
            &&& rs.len() == steps
            &&& forall|i: int| 0 <= i < rs.len() ==> (#[trigger] rs[i] is Solution || rs[i] is Progress)
        };
    lemma_to_map(a.stack[0].subst.bindings@);
    lemma_to_map(a2.stack[0].subst.bindings@);
    assert(same_frame(a.stack[0], a2.stack[0]));
    assert(same_state(a, a2));
    let l = if rs.len() <= rs2.len() { rs.len() as int } else { rs2.len() as int };
    lemma_runs_agree(st, rs, st2, rs2, l);
    if rs.len() < rs2.len() {
        assert(same_step(rs[rs.len() - 1], rs2[rs.len() - 1]));
    } else if rs2.len() < rs.len() {
        assert(same_step(rs[rs2.len() - 1], rs2[rs2.len() - 1]));
    }
    assert(rs.len() == rs2.len());
    if ended != ended2 {
        assert(same_step(rs[rs.len() - 1], rs2[rs.len() - 1]));
    }
    lemma_answers_agree(rs, rs2);
}

/// Step results that hold no solution report no answers.
proof fn lemma_no_answers(rs: Seq<Step>)
    requires
        forall|i: int| 0 <= i < rs.len() ==> !(#[trigger] rs[i] is Solution),
    ensures
        answers_of(rs) == Seq::<Vec<(String, Term)>>::empty(),
    decreases rs.len(),
{
    if rs.len() > 0 {
        lemma_no_answers(rs.drop_last());
        assert(!(rs[rs.len() - 1] is Solution));
    }
}

/// Once no state is saved, every later step finds the search done.
proof fn lemma_stays_done(states: Seq<Runner>, rs: Seq<Step>, i: int)
    requires
        is_run(states, rs),
        1 <= i < states.len(),
        states[1].stack.len() == 0,
    ensures
        states[i].stack.len() == 0,
    decreases i,
{
    if i > 1 {
        lemma_stays_done(states, rs, i - 1);
        assert(steps_to(states[i - 1], states[i], rs[i - 1]));
    }
}

/// A query with no candidate clause has no solution: the search reports
/// nothing and no error.
pub proof fn lemma_no_candidates(
    query: Clause,
    clauses: Vec<Clause>,
    steps: nat,
    ans: Seq<Vec<(String, Term)>>,
    ended: bool,
)
    requires
        solved(query, clauses, steps, ans, ended),
        forall|i: int| 0 <= i < clauses.len() ==> !same_symbol(#[trigger] clauses[i].head@, query.head@),
    ensures
        ans.len() == 0,
{
    let (a, b) = choose|a: Runner, b: Runner| starts(query, clauses, a) && ran(a, b, steps, ans, ended);
    let (states, rs) = choose|states: Seq<Runner>, rs: Seq<Step>|
        #[trigger] is_run(states, rs) && states[0] == a && states.last() == b && answers_of(rs) == ans
            && if ended {
            &&& 0 < rs.len() <= steps
            &&& (rs.last() is Done || rs.last() is OutOfIds || rs.last() is TooDeep)
            &&& forall|i: int| 0 <= i < rs.len() - 1 ==> (#[trigger] rs[i] is Solution || rs[i] is Progress)
        } else {
            &&& rs.len() == steps
            &&& forall|i: int| 0 <= i < rs.len() ==> (#[trigger] rs[i] is Solution || rs[i] is Progress)
        };
    if rs.len() > 0 {
        assert(steps_to(states[0], states[1], rs[0]));
        let top = a.stack@.last();
        assert(trees(top.goals@).len() == 1);
        assert(top.goals.len() == 1);
        assert(trees(top.goals@)[0] == top.goals[0]@);
        assert(top.goals[0]@ == query.head@);
        assert(a.db.clauses@ == clauses@);
        assert(!(rs[0] is OutOfIds));
        assert(!(rs[0] is TooDeep));
        assert(!(rs[0] is Solution));
        assert(states[1].stack.len() == 0);
        assert forall|i: int| 0 <= i < rs.len() implies !(#[trigger] rs[i] is Solution) by {
            if i >= 1 {
                lemma_stays_done(states, rs, i);
                assert(steps_to(states[i], states[i + 1], rs[i]));
            }
        }
    }
    lemma_no_answers(rs);
}

/// Renaming apart in the engine: a clause term renamed into identities from
/// the runner's `next_id` on (as each step does) shares no variable with
/// any pending goal or binding of any saved state, so the activation cannot
/// capture or be bound through a variable of another one.
pub proof fn lemma_activation_fresh(r: Runner, t: Tree, n: nat, base: u64, v: u64, k: int)
    requires
        r.wf(),
        vars_below(t, n),
        base >= r.next_id,
        base + n <= u64::MAX,
        occurs(shift(t, base), v),
        0 <= k < r.stack.len(),
    ensures
        !r.stack[k].subst@.contains_key(v),
        forall|key: u64| #[trigger] r.stack[k].subst@.contains_key(key) ==> !occurs(r.stack[k].subst@[key], v),
        forall|i: int| 0 <= i < r.stack[k].goals.len() ==> !occurs(#[trigger] r.stack[k].goals[i]@, v),
{
    lemma_shift_occurs(t, base, n, v);
    assert(frame_below(r.stack[k], r.next_id as nat));
}

/// Renaming apart along a whole run: at every state the search reaches,
/// a clause renamed from that state's `next_id` on (as the next step does)
/// shares no variable with any pending goal or binding of any saved state.
pub proof fn lemma_run_fresh(
    states: Seq<Runner>,
    rs: Seq<Step>,
    i: int,
    t: Tree,
    n: nat,
    base: u64,
    v: u64,
    k: int,
)
    requires
        is_run(states, rs),
        states[0].wf(),
        0 <= i < states.len(),
        vars_below(t, n),
        base >= states[i].next_id,
        base + n <= u64::MAX,
        occurs(shift(t, base), v),
        0 <= k < states[i].stack.len(),
    ensures
        !states[i].stack[k].subst@.contains_key(v),
        forall|key: u64|
            #[trigger] states[i].stack[k].subst@.contains_key(key) ==> !occurs(
                states[i].stack[k].subst@[key],
                v,
            ),
        forall|g: int|
            0 <= g < states[i].stack[k].goals.len() ==> !occurs(#[trigger] states[i].stack[k].goals[g]@, v),
{
    if i > 0 {
        assert(steps_to(states[i - 1], states[i], rs[i - 1]));
    }
    lemma_activation_fresh(states[i], t, n, base, v, k);
}

/// Renaming apart: two clause activations renamed into disjoint blocks of
/// identities (the second block starting where the first ends, as the
/// engine allocates them) share no variable, so neither activation's
/// unification can bind a variable of the other.
pub proof fn lemma_rename_apart(t1: Tree, n1: nat, b1: u64, t2: Tree, n2: nat, b2: u64, v: u64)
    requires
        vars_below(t1, n1),
        vars_below(t2, n2),
        b1 + n1 <= b2,
        b2 + n2 <= u64::MAX,
    ensures
        !(occurs(shift(t1, b1), v) && occurs(shift(t2, b2), v)),
{
    if occurs(shift(t1, b1), v) && occurs(shift(t2, b2), v) {
        lemma_shift_occurs(t1, b1, n1, v);
        lemma_shift_occurs(t2, b2, n2, v);
    }
}

} // verus!
