//! The syntax layer: turns tokens into clauses.
//!
//! ```text
//! Clause  ::= Functor "." | Functor ":-" Functor ("," Functor)* "."
//! Functor ::= name "(" [Arg ("," Arg)*] ")"
//! Arg     ::= Variable | name | numeral | Functor
//! ```
//!
//! The variables of a clause are numbered in order of first occurrence.
use vstd::prelude::*;
use crate::engine::{trees, Clause};
use crate::term::{occurs, vars_below, Term, Tree};
use crate::tokenizer::{string_of, token_views, SpecialSymbol, Token, TokenView};
use crate::term::model;

verus! {

/// A syntax error, with a message of the form
/// `expected <X> at position <p>, found <Y>`.
pub enum ParserError {
    BaseError { msg: String },
}

/// The character of a decimal digit.
pub open spec fn digit_char(d: nat) -> char {
    if d == 0 {
        '0'
    } else if d == 1 {
        '1'
    } else if d == 2 {
        '2'
    } else if d == 3 {
        '3'
    } else if d == 4 {
        '4'
    } else if d == 5 {
        '5'
    } else if d == 6 {
        '6'
    } else if d == 7 {
        '7'
    } else if d == 8 {
        '8'
    } else {
        '9'
    }
}

/// The decimal notation of `n`, without leading zeros.
pub open spec fn decimal_digits(n: nat) -> Seq<char>
    decreases n,
{
    if n < 10 {
        seq![digit_char(n)]
    } else {
        decimal_digits(n / 10).push(digit_char(n % 10))
    }
}

/// Relies on `ToString` for `u64`: the decimal notation of the number.
#[verifier::external_body]
fn number_text(n: u64) -> (r: String)
    ensures
        r@ == decimal_digits(n as nat),
{
    n.to_string()
}

/// Appends the characters of `s` to `v`.
fn push_str(v: &mut Vec<char>, s: &String)
    ensures
        final(v)@ == old(v)@ + s@,
{
    let cs = crate::tokenizer::chars_of(s.as_str());
    let mut i: usize = 0;
    while i < cs.len()
        invariant
            i <= cs.len(),
            cs@ == s@,
            v@ == old(v)@ + cs@.subrange(0, i as int),
        decreases cs.len() - i,
    {
        v.push(cs[i]);
        i = i + 1;
        assert(v@ =~= old(v)@ + cs@.subrange(0, i as int));
    }
    assert(cs@.subrange(0, cs.len() as int) =~= cs@);
}

/// The text of a punctuation symbol.
pub open spec fn symbol_text(s: SpecialSymbol) -> Seq<char> {
    match s {
        SpecialSymbol::LBrace => "("@,
        SpecialSymbol::RBrace => ")"@,
        SpecialSymbol::Comma => ","@,
        SpecialSymbol::Dot => "."@,
        SpecialSymbol::Dots => ":"@,
        SpecialSymbol::Eq => "="@,
        SpecialSymbol::LThan => "<"@,
        SpecialSymbol::GThan => ">"@,
        SpecialSymbol::Minus => "-"@,
    }
}

/// How a token is shown in messages.
pub open spec fn token_text(t: TokenView) -> Seq<char> {
    match t {
        TokenView::Constant(s) => s,
        TokenView::Variable(s) => s,
        TokenView::Number(n) => decimal_digits(n as nat),
        TokenView::Whitespace(_) => "whitespace"@,
        TokenView::SpecialSymbol(s) => symbol_text(s),
    }
}

/// What a syntax error reports as found at `p`: the token there, or the
/// end of the input.
pub open spec fn found_text(t: Seq<TokenView>, p: int) -> Seq<char> {
    if 0 <= p < t.len() {
        token_text(t[p])
    } else {
        "end of input"@
    }
}

/// A short description of a token, for messages.
fn describe(t: &Token) -> (r: String)
    ensures
        r@ == token_text(t@),
{
    match t {
        Token::Constant(s) => s.clone(),
        Token::Variable(s) => s.clone(),
        Token::Number(n) => number_text(*n as u64),
        Token::Whitespace(_) => String::from_str("whitespace"),
        Token::SpecialSymbol(s) => String::from_str(match s {
            SpecialSymbol::LBrace => "(",
            SpecialSymbol::RBrace => ")",
            SpecialSymbol::Comma => ",",
            SpecialSymbol::Dot => ".",
            SpecialSymbol::Dots => ":",
            SpecialSymbol::Eq => "=",
            SpecialSymbol::LThan => "<",
            SpecialSymbol::GThan => ">",
            SpecialSymbol::Minus => "-",
        }),
    }
}

impl ParserError {
    /// The error for finding `token_r` at `pos` where `token_e` was expected.
    pub fn expected_error(pos: usize, token_e: &Token, token_r: &Token) -> (r: ParserError)
        ensures
            r->BaseError_msg@ == "expected "@ + token_text(token_e@) + " at position "@
                + decimal_digits(pos as nat) + ", found "@ + token_text(token_r@),
    {
        ParserError::expected(pos, &describe(token_e), &describe(token_r))
    }

    /// The error for finding `found` at `pos` where `what` was expected.
    fn expected(pos: usize, what: &String, found: &String) -> (r: ParserError)
        ensures
            r->BaseError_msg@ == "expected "@ + what@ + " at position "@ + decimal_digits(pos as nat)
                + ", found "@ + found@,
    {
        let mut v: Vec<char> = Vec::new();
        push_str(&mut v, &String::from_str("expected "));
        push_str(&mut v, what);
        push_str(&mut v, &String::from_str(" at position "));
        push_str(&mut v, &number_text(pos as u64));
        push_str(&mut v, &String::from_str(", found "));
        push_str(&mut v, found);
        let r = ParserError::BaseError { msg: string_of(v.as_slice()) };
        r
    }

    /// The message.
    pub fn message(&self) -> (r: String)
        ensures
            r@ == self->BaseError_msg@,
    {
        match self {
            ParserError::BaseError { msg } => msg.clone(),
        }
    }
}

/// The texts of a sequence of names.
pub open spec fn name_views(ns: Seq<String>) -> Seq<Seq<char>> {
    Seq::new(ns.len(), |i: int| ns[i]@)
}

/// The position of the first `v` in `names` from `i` on, or the length.
pub open spec fn index_from(names: Seq<Seq<char>>, v: Seq<char>, i: int) -> int
    decreases names.len() - i,
{
    if i < 0 || i >= names.len() {
        names.len() as int
    } else if names[i] == v {
        i
    } else {
        index_from(names, v, i + 1)
    }
}

/// The number of variable `v` given the names met so far, and the names
/// after it: a new name is added at the end.
pub open spec fn intern(names: Seq<Seq<char>>, v: Seq<char>) -> (nat, Seq<Seq<char>>) {
    let i = index_from(names, v, 0);
    if i < names.len() {
        (i as nat, names)
    } else {
        (names.len(), names.push(v))
    }
}

/// Token `p` of `t` is the symbol `sym`.
pub open spec fn at_sym(t: Seq<TokenView>, p: int, sym: SpecialSymbol) -> bool {
    0 <= p < t.len() && t[p] == TokenView::SpecialSymbol(sym)
}

/// What parsing yields from a position: a term, the position after it, and
/// the variable names met so far.
pub type Parsed = Option<(Tree, int, Seq<Seq<char>>)>;

/// An argument at `p`: a variable, a name, a numeral, or a compound.
pub open spec fn p_arg(t: Seq<TokenView>, p: int, ns: Seq<Seq<char>>) -> Parsed
    decreases t.len() - p, 0nat,
{
    if p < 0 || p >= t.len() {
        None
    } else {
        match t[p] {
            TokenView::Variable(v) => {
                let (i, ns2) = intern(ns, v);
                Some((Tree::Var(i as u64), p + 1, ns2))
            },
            TokenView::Constant(c) => if at_sym(t, p + 1, SpecialSymbol::LBrace) {
                p_compound(t, p + 1, c, ns)
            } else {
                Some((Tree::Const(c), p + 1, ns))
            },
            TokenView::Number(n) => Some((Tree::Const(decimal_digits(n as nat)), p + 1, ns)),
            _ => None,
        }
    }
}

/// The arguments of functor `f` from the `(` at `p` through the `)`.
pub open spec fn p_compound(t: Seq<TokenView>, p: int, f: Seq<char>, ns: Seq<Seq<char>>) -> Parsed
    decreases t.len() - p, 2nat,
{
    if p < 0 || p >= t.len() || !at_sym(t, p, SpecialSymbol::LBrace) {
        None
    } else if at_sym(t, p + 1, SpecialSymbol::RBrace) {
        Some((Tree::App(f, Seq::empty()), p + 2, ns))
    } else {
        p_args(t, p + 1, f, Seq::empty(), ns)
    }
}

/// The arguments from `p` on, `acc` being those already read.
pub open spec fn p_args(
    t: Seq<TokenView>,
    p: int,
    f: Seq<char>,
    acc: Seq<Tree>,
    ns: Seq<Seq<char>>,
) -> Parsed
    decreases t.len() - p, 1nat,
{
    if p < 0 || p >= t.len() {
        None
    } else {
        match p_arg(t, p, ns) {
            None => None,
            Some((a, q, ns2)) => if q <= p {
                None
            } else if at_sym(t, q, SpecialSymbol::Comma) {
                p_args(t, q + 1, f, acc.push(a), ns2)
            } else if at_sym(t, q, SpecialSymbol::RBrace) {
                Some((Tree::App(f, acc.push(a)), q + 1, ns2))
            } else {
                None
            },
        }
    }
}

/// A functor at `p`: a name and its arguments.
pub open spec fn p_functor(t: Seq<TokenView>, p: int, ns: Seq<Seq<char>>) -> Parsed {
    if 0 <= p < t.len() && t[p] is Constant {
        p_compound(t, p + 1, t[p]->Constant_0, ns)
    } else {
        None
    }
}

/// The model of a clause: head, body, and variable names.
pub type ClauseTree = (Tree, Seq<Tree>, Seq<Seq<char>>);

/// The model of a parsed clause.
pub open spec fn clause_tree(c: Clause) -> ClauseTree {
    (c.head@, trees(c.body@), name_views(c.names@))
}

/// The models of a sequence of clauses.
pub open spec fn clause_trees(cs: Seq<Clause>) -> Seq<ClauseTree> {
    Seq::new(cs.len(), |i: int| clause_tree(cs[i]))
}

/// The rest of a rule body from `p` on, `acc` being the goals already read.
pub open spec fn p_body(
    t: Seq<TokenView>,
    p: int,
    h: Tree,
    acc: Seq<Tree>,
    ns: Seq<Seq<char>>,
) -> Option<(ClauseTree, int)>
    decreases t.len() - p,
{
    match p_functor(t, p, ns) {
        None => None,
        Some((g, q, ns2)) => if q <= p {
            None
        } else if at_sym(t, q, SpecialSymbol::Comma) {
            p_body(t, q + 1, h, acc.push(g), ns2)
        } else if at_sym(t, q, SpecialSymbol::Dot) {
            Some(((h, acc.push(g), ns2), q + 1))
        } else {
            None
        },
    }
}

/// A clause at `p`, and the position after it.
pub open spec fn p_clause(t: Seq<TokenView>, p: int) -> Option<(ClauseTree, int)> {
    if p < 0 || p >= t.len() {
        None
    } else {
        match p_functor(t, p, Seq::empty()) {
            None => None,
            Some((h, q, ns)) => if at_sym(t, q, SpecialSymbol::Dots) {
                if at_sym(t, q + 1, SpecialSymbol::Minus) {
                    p_body(t, q + 2, h, Seq::empty(), ns)
                } else {
                    None
                }
            } else if at_sym(t, q, SpecialSymbol::Dot) {
                Some(((h, Seq::empty(), ns), q + 1))
            } else {
                None
            },
        }
    }
}

/// The clauses from `p` to the end, if they all parse.
pub open spec fn p_program(t: Seq<TokenView>, p: int) -> Option<Seq<ClauseTree>>
    decreases t.len() - p,
{
    if p < 0 || p >= t.len() {
        Some(Seq::empty())
    } else {
        match p_clause(t, p) {
            None => None,
            Some((c, q)) => if q <= p || q > t.len() {
                None
            } else {
                match p_program(t, q) {
                    None => None,
                    Some(cs) => Some(seq![c] + cs),
                }
            },
        }
    }
}

/// `b` is `a` with possibly more items after it.
pub open spec fn extends(a: Seq<String>, b: Seq<String>) -> bool {
    a.len() <= b.len() && forall|i: int| 0 <= i < a.len() ==> #[trigger] b[i] == a[i]
}

/// The number of variable `name` among `names`, adding it at the end when
/// it is new.
fn var_index(names: &mut Vec<String>, name: &String) -> (r: u64)
    ensures
        (r as nat, name_views(final(names)@)) == intern(name_views(old(names)@), name@),
        extends(old(names)@, final(names)@),
        final(names).len() <= old(names).len() + 1,
        r < final(names).len(),
        final(names)@[r as int]@ == name@,
{
    let mut i: usize = 0;
    while i < names.len()
        invariant
            i <= names.len(),
            names@ == old(names)@,
            index_from(name_views(names@), name@, 0) == index_from(name_views(names@), name@, i as int),
        decreases names.len() - i,
    {
        if names[i] == *name {
            return i as u64;
        }
        i = i + 1;
    }
    let n = names.len();
    names.push(name.clone());
    assert(name_views(names@) =~= name_views(old(names)@).push(name@));
    n as u64
}

/// The compound `name(args)`.
fn make_compound(name: String, args: Vec<Term>, Ghost(n): Ghost<nat>) -> (t: Term)
    requires
        forall|i: int| 0 <= i < args.len() ==> vars_below(#[trigger] args[i]@, n),
    ensures
        t@ == Tree::App(name@, trees(args@)),
        vars_below(t@, n),
{
    let t = Term::Compound(name, args);
    proof {
        assert(t@->App_1 =~= trees(args@));
        assert forall|x: u64| occurs(t@, x) implies x < n by {
            let i = choose|i: int| 0 <= i < t@->App_1.len() && occurs(#[trigger] t@->App_1[i], x);
            assert(t@->App_1[i] == args[i]@);
        }
    }
    t
}

/// A recursive-descent parser over a token sequence.
pub struct Parser {
    pos: usize,
    tokens: Vec<Token>,
}

impl Parser {
    /// The position reached.
    pub closed spec fn position(&self) -> int {
        self.pos as int
    }

    /// The tokens being parsed.
    pub closed spec fn token_seq(&self) -> Seq<Token> {
        self.tokens@
    }

    /// A parser at the start of `tokens`.
    pub fn from_tokens(tokens: Vec<Token>) -> (r: Parser)
        ensures
            r.position() == 0,
            r.token_seq() == tokens@,
    {
        Parser { tokens, pos: 0 }
    }

    /// Whether the current token is the symbol `sym`.
    fn at_symbol(&self, sym: SpecialSymbol) -> (r: bool)
        ensures
            r ==> self.pos < self.tokens.len(),
            r == at_sym(token_views(self.tokens@), self.pos as int, sym),
    {
        if self.pos < self.tokens.len() {
            match &self.tokens[self.pos] {
                Token::SpecialSymbol(s) => *s == sym,
                _ => false,
            }
        } else {
            false
        }
    }

    /// The error for an unexpected current token.
    fn unexpected(&self, what: &str) -> (r: ParserError)
        ensures
            r->BaseError_msg@ == "expected "@ + what@ + " at position "@ + decimal_digits(
                self.pos as nat,
            ) + ", found "@ + found_text(token_views(self.tokens@), self.pos as int),
    {
        let found = if self.pos < self.tokens.len() {
            describe(&self.tokens[self.pos])
        } else {
            String::from_str("end of input")
        };
        ParserError::expected(self.pos, &String::from_str(what), &found)
    }

    /// Consumes the symbol `sym`, or fails without moving.
    fn expect(&mut self, sym: SpecialSymbol, what: &str) -> (r: Result<(), ParserError>)
        requires
            old(self).pos <= old(self).tokens.len(),
        ensures
            final(self).tokens == old(self).tokens,
            r is Ok ==> final(self).pos == old(self).pos + 1 && final(self).pos <= final(self).tokens.len(),
            r is Err ==> final(self).pos == old(self).pos,
            r is Ok <==> at_sym(token_views(old(self).tokens@), old(self).pos as int, sym),
            r is Err ==> r->Err_0->BaseError_msg@ == "expected "@ + what@ + " at position "@
                + decimal_digits(old(self).pos as nat) + ", found "@ + found_text(
                token_views(old(self).tokens@),
                old(self).pos as int,
            ),
    {
        if self.at_symbol(sym) {
            self.pos = self.pos + 1;
            Ok(())
        } else {
            Err(self.unexpected(what))
        }
    }

    /// Parses an argument: a variable, a name, or a compound.
    fn parse_arg(&mut self, names: &mut Vec<String>) -> (r: Result<Term, ParserError>)
        requires
            old(self).pos <= old(self).tokens.len(),
        ensures
            final(self).tokens == old(self).tokens,
            final(self).pos <= final(self).tokens.len(),
            extends(old(names)@, final(names)@),
            r is Ok ==> final(self).pos > old(self).pos,
            r is Ok ==> vars_below(r->Ok_0@, final(names).len() as nat),
            match p_arg(token_views(old(self).tokens@), old(self).pos as int, name_views(old(names)@)) {
                Some((t, q, ns)) => r is Ok && r->Ok_0@ == t && final(self).pos == q && name_views(
                    final(names)@,
                ) == ns,
                None => r is Err,
            },
        decreases old(self).tokens.len() - old(self).pos, 0nat,
    {
        if self.pos >= self.tokens.len() {
            return Err(self.unexpected("an argument"));
        }
        match &self.tokens[self.pos] {
            Token::Variable(v) => {
                let name = v.clone();
                self.pos = self.pos + 1;
                let i = var_index(names, &name);
                let t = Term::Var(i);
                assert(forall|x: u64| occurs(t@, x) ==> x == i);
                Ok(t)
            },
            Token::Constant(c) => {
                let name = c.clone();
                self.pos = self.pos + 1;
                if self.at_symbol(SpecialSymbol::LBrace) {
                    self.parse_compound(name, names)
                } else {
                    Ok(Term::Const(name))
                }
            },
            Token::Number(n) => {
                let name = number_text(*n as u64);
                self.pos = self.pos + 1;
                Ok(Term::Const(name))
            },
            _ => Err(self.unexpected("an argument")),
        }
    }

    /// Parses `"(" [Arg ("," Arg)*] ")"` after the functor name `name`.
    fn parse_compound(&mut self, name: String, names: &mut Vec<String>) -> (r: Result<Term, ParserError>)
        requires
            old(self).pos <= old(self).tokens.len(),
        ensures
            final(self).tokens == old(self).tokens,
            final(self).pos <= final(self).tokens.len(),
            extends(old(names)@, final(names)@),
            r is Ok ==> final(self).pos > old(self).pos,
            r is Ok ==> r->Ok_0@ is App,
            r is Ok ==> vars_below(r->Ok_0@, final(names).len() as nat),
            match p_compound(
                token_views(old(self).tokens@),
                old(self).pos as int,
                name@,
                name_views(old(names)@),
            ) {
                Some((t, q, ns)) => r is Ok && r->Ok_0@ == t && final(self).pos == q && name_views(
                    final(names)@,
                ) == ns,
                None => r is Err,
            },
        decreases old(self).tokens.len() - old(self).pos, 2nat,
    {
        self.expect(SpecialSymbol::LBrace, "(")?;
        let ghost t0 = token_views(self.tokens@);
        let ghost ns0 = name_views(old(names)@);
        let mut args: Vec<Term> = Vec::new();
        if self.at_symbol(SpecialSymbol::RBrace) {
            self.pos = self.pos + 1;
            let t = make_compound(name, args, Ghost(names.len() as nat));
            assert(trees(Seq::<Term>::empty()) =~= Seq::<Tree>::empty());
            assert(name_views(names@) == ns0);
            return Ok(t);
        }
        assert(trees(args@) =~= Seq::<Tree>::empty());
        assert(name_views(names@) == ns0);
        loop
            invariant
                self.tokens == old(self).tokens,
                t0 == token_views(self.tokens@),
                ns0 == name_views(old(names)@),
                old(self).pos < self.pos <= self.tokens.len(),
                extends(old(names)@, names@),
                forall|i: int| 0 <= i < args.len() ==> vars_below(#[trigger] args[i]@, names.len() as nat),
                p_compound(t0, old(self).pos as int, name@, ns0) == p_args(
                    t0,
                    self.pos as int,
                    name@,
                    trees(args@),
                    name_views(names@),
                ),
            decreases self.tokens.len() - self.pos,
        {
            let ghost before = names@;
            let ghost p = self.pos as int;
            let ghost acc0 = trees(args@);
            let ghost step = p_arg(t0, p, name_views(before));
            assert(p_args(t0, p, name@, acc0, name_views(before)) == match step {
                None => None,
                Some((a, q, ns2)) => if q <= p {
                    None
                } else if at_sym(t0, q, SpecialSymbol::Comma) {
                    p_args(t0, q + 1, name@, acc0.push(a), ns2)
                } else if at_sym(t0, q, SpecialSymbol::RBrace) {
                    Some((Tree::App(name@, acc0.push(a)), q + 1, ns2))
                } else {
                    None
                },
            });
            let a = match self.parse_arg(names) {
                Ok(a) => a,
                Err(e) => {
                    assert(step is None);
                    assert(p_compound(t0, old(self).pos as int, name@, ns0) is None);
                    return Err(e);
                },
            };
            proof {
                assert forall|i: int| 0 <= i < args.len() implies vars_below(#[trigger] args[i]@, names.len() as nat) by {
                    assert forall|x: u64| occurs(args[i]@, x) implies x < names.len() by {
                        assert(x < before.len());
                    }
                }
            }
            let ghost acc = trees(args@);
            args.push(a);
            proof {
                assert(trees(args@) =~= acc.push(a@));
            }
            if self.at_symbol(SpecialSymbol::Comma) {
                self.pos = self.pos + 1;
            } else {
                let ghost q = self.pos as int;
                assert(step == Some((a@, q, name_views(names@))));
                if self.at_symbol(SpecialSymbol::RBrace) {
                    self.pos = self.pos + 1;
                    let t = make_compound(name, args, Ghost(names.len() as nat));
                    assert(p_compound(t0, old(self).pos as int, name@, ns0) == Some((t@, q + 1, name_views(names@))));
                    return Ok(t);
                } else {
                    assert(p_compound(t0, old(self).pos as int, name@, ns0) is None);
                    return Err(self.unexpected(")"));
                }
            }
        }
    }

    /// Parses a functor: a name followed by its arguments.
    fn parse_functor(&mut self, names: &mut Vec<String>) -> (r: Result<Term, ParserError>)
        requires
            old(self).pos <= old(self).tokens.len(),
        ensures
            final(self).tokens == old(self).tokens,
            final(self).pos <= final(self).tokens.len(),
            extends(old(names)@, final(names)@),
            r is Ok ==> final(self).pos > old(self).pos,
            r is Ok ==> r->Ok_0@ is App,
            r is Ok ==> vars_below(r->Ok_0@, final(names).len() as nat),
            match p_functor(token_views(old(self).tokens@), old(self).pos as int, name_views(old(names)@)) {
                Some((t, q, ns)) => r is Ok && r->Ok_0@ == t && final(self).pos == q && name_views(
                    final(names)@,
                ) == ns,
                None => r is Err,
            },
    {
        if self.pos < self.tokens.len() {
            if let Token::Constant(c) = &self.tokens[self.pos] {
                let name = c.clone();
                self.pos = self.pos + 1;
                return self.parse_compound(name, names);
            }
        }
        Err(self.unexpected("a name"))
    }

    /// Parses one clause: a fact or a rule.
    fn parse_clause(&mut self) -> (r: Result<Clause, ParserError>)
        requires
            old(self).pos <= old(self).tokens.len(),
        ensures
            final(self).tokens == old(self).tokens,
            final(self).pos <= final(self).tokens.len(),
            r is Ok ==> final(self).pos > old(self).pos,
            r is Ok ==> r->Ok_0.wf(),
            match p_clause(token_views(old(self).tokens@), old(self).pos as int) {
                Some((c, q)) => r is Ok && clause_tree(r->Ok_0) == c && final(self).pos == q,
                None => r is Err,
            },
    {
        let ghost t0 = token_views(self.tokens@);
        let ghost start = self.pos as int;
        let mut names: Vec<String> = Vec::new();
        assert(name_views(names@) =~= Seq::<Seq<char>>::empty());
        let head = self.parse_functor(&mut names)?;
        let mut body: Vec<Term> = Vec::new();
        if self.at_symbol(SpecialSymbol::Dots) {
            self.pos = self.pos + 1;
            self.expect(SpecialSymbol::Minus, "-")?;
            assert(trees(body@) =~= Seq::<Tree>::empty());
            loop
                invariant
                    self.tokens == old(self).tokens,
                    t0 == token_views(self.tokens@),
                    start == old(self).pos,
                    old(self).pos < self.pos <= self.tokens.len(),
                    vars_below(head@, names.len() as nat),
                    forall|i: int| 0 <= i < body.len() ==> vars_below(#[trigger] body[i]@, names.len() as nat),
                    p_clause(t0, start) == p_body(t0, self.pos as int, head@, trees(body@), name_views(names@)),
                decreases self.tokens.len() - self.pos,
            {
                let ghost before = names@;
                let ghost p = self.pos as int;
                let ghost acc0 = trees(body@);
                let ghost step = p_functor(t0, p, name_views(before));
                let g = match self.parse_functor(&mut names) {
                    Ok(g) => g,
                    Err(e) => {
                        assert(step is None);
                        return Err(e);
                    },
                };
                proof {
                    assert forall|i: int| 0 <= i < body.len() implies vars_below(#[trigger] body[i]@, names.len() as nat) by {
                        assert forall|x: u64| occurs(body[i]@, x) implies x < names.len() by {
                            assert(x < before.len());
                        }
                    }
                    assert forall|x: u64| occurs(head@, x) implies x < names.len() by {
                        assert(x < before.len());
                    }
                }
                body.push(g);
                proof {
                    assert(trees(body@) =~= acc0.push(g@));
                }
                if self.at_symbol(SpecialSymbol::Comma) {
                    self.pos = self.pos + 1;
                } else if self.at_symbol(SpecialSymbol::Dot) {
                    self.pos = self.pos + 1;
                    let c = Clause { head, body, names };
                    return Ok(c);
                } else {
                    return Err(self.unexpected("."));
                }
            }
        } else {
            self.expect(SpecialSymbol::Dot, ".")?;
            assert(trees(body@) =~= Seq::<Tree>::empty());
        }
        Ok(Clause { head, body, names })
    }

    /// Parses the remaining tokens as a sequence of clauses, numbering the
    /// variables of each clause from 0 in order of first occurrence.
    pub fn parse(&mut self) -> (r: Result<Vec<Clause>, ParserError>)
        requires
            old(self).position() <= old(self).token_seq().len(),
        ensures
            final(self).token_seq() == old(self).token_seq(),
            r is Ok ==> final(self).position() == final(self).token_seq().len(),
            r is Ok ==> forall|i: int| 0 <= i < r->Ok_0.len() ==> (#[trigger] r->Ok_0[i]).wf(),
            match p_program(token_views(old(self).token_seq()), old(self).position()) {
                Some(cs) => r is Ok && clause_trees(r->Ok_0@) == cs,
                None => r is Err,
            },
    {
        let ghost t0 = token_views(self.tokens@);
        let ghost start = self.pos as int;
        let mut clauses: Vec<Clause> = Vec::new();
        assert(clause_trees(clauses@) =~= Seq::<ClauseTree>::empty());
        while self.pos < self.tokens.len()
            invariant
                self.tokens == old(self).tokens,
                t0 == token_views(self.tokens@),
                start == old(self).pos,
                self.pos <= self.tokens.len(),
                forall|i: int| 0 <= i < clauses.len() ==> (#[trigger] clauses[i]).wf(),
                p_program(t0, start) == match p_program(t0, self.pos as int) {
                    None => None,
                    Some(cs) => Some(clause_trees(clauses@) + cs),
                },
            decreases self.tokens.len() - self.pos,
        {
            let ghost before = clause_trees(clauses@);
            let c = self.parse_clause()?;
            clauses.push(c);
            proof {
                assert(clause_trees(clauses@) =~= before.push(clause_tree(c)));
                match p_program(t0, self.pos as int) {
                    None => {},
                    Some(cs) => {
                        assert(before + (seq![clause_tree(c)] + cs) =~= clause_trees(clauses@) + cs);
                    },
                }
            }
        }
        proof {
            assert(clause_trees(clauses@) + Seq::<ClauseTree>::empty() =~= clause_trees(clauses@));
        }
        Ok(clauses)
    }
}

} // verus!
