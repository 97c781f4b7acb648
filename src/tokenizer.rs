//! The lexer: turns source text into tokens.
use vstd::prelude::*;

verus! {

/// A punctuation token.
#[derive(Clone, Copy, Debug, PartialEq, Eq, Structural)]
pub enum SpecialSymbol {
    LBrace,
    RBrace,
    Comma,
    Dot,
    Dots,
    Eq,
    LThan,
    GThan,
    Minus,
}

/// The two shapes of an atomic value in source text.
pub enum Constant {
    Literal(String),
    Number(u32),
}

/// A token of source text.
#[derive(Debug)]
pub enum Token {
    Constant(String),
    Number(u32),
    Variable(String),
    SpecialSymbol(SpecialSymbol),
    Whitespace(String),
}

/// The model of a token.
pub enum TokenView {
    Constant(Seq<char>),
    Number(u32),
    Variable(Seq<char>),
    SpecialSymbol(SpecialSymbol),
    Whitespace(Seq<char>),
}

impl View for Token {
    type V = TokenView;

    open spec fn view(&self) -> TokenView {
        match self {
            Token::Constant(s) => TokenView::Constant(s@),
            Token::Number(n) => TokenView::Number(*n),
            Token::Variable(s) => TokenView::Variable(s@),
            Token::SpecialSymbol(s) => TokenView::SpecialSymbol(*s),
            Token::Whitespace(s) => TokenView::Whitespace(s@),
        }
    }
}

/// A lexical error: where it happened and what was expected.
#[derive(Debug)]
pub enum TokenizerError {
    BaseError { position: usize, msg: String },
}

impl TokenizerError {
    /// An error at `position` with message `msg`.
    pub fn new_base_error(position: usize, msg: &str) -> (r: TokenizerError)
        ensures
            r->BaseError_position == position,
            r->BaseError_msg@ == msg@,
    {
        TokenizerError::BaseError { position, msg: String::from_str(msg) }
    }
}

impl PartialEq for TokenizerError {
    fn eq(&self, o: &TokenizerError) -> (r: bool)
        ensures
            r == (self->BaseError_position == o->BaseError_position && self->BaseError_msg@
                == o->BaseError_msg@),
    {
        match (self, o) {
            (
                TokenizerError::BaseError { position: p, msg: m },
                TokenizerError::BaseError { position: q, msg: n },
            ) => *p == *q && *m == *n,
        }
    }
}

impl vstd::std_specs::cmp::PartialEqSpecImpl for TokenizerError {
    open spec fn obeys_eq_spec() -> bool {
        true
    }

    open spec fn eq_spec(&self, o: &TokenizerError) -> bool {
        self->BaseError_position == o->BaseError_position && self->BaseError_msg@
            == o->BaseError_msg@
    }
}

/// What `char::is_whitespace` answers.
pub uninterp spec fn is_space(c: char) -> bool;

/// What `char::is_uppercase` answers.
pub uninterp spec fn is_upper(c: char) -> bool;

/// What `char::is_lowercase` answers.
pub uninterp spec fn is_lower(c: char) -> bool;

/// What `char::is_alphabetic` answers.
pub uninterp spec fn is_alpha(c: char) -> bool;

/// Relies on char::is_whitespace, Unicode's White_Space property.
#[verifier::external_body]
fn whitespace(c: char) -> (r: bool)
    ensures
        r == is_space(c),
{
    c.is_whitespace()
}

/// Relies on char::is_uppercase, Unicode's Uppercase property.
#[verifier::external_body]
fn uppercase(c: char) -> (r: bool)
    ensures
        r == is_upper(c),
{
    c.is_uppercase()
}

/// Relies on char::is_lowercase, Unicode's Lowercase property.
#[verifier::external_body]
fn lowercase(c: char) -> (r: bool)
    ensures
        r == is_lower(c),
{
    c.is_lowercase()
}

/// Relies on char::is_alphabetic, Unicode's Alphabetic property.
#[verifier::external_body]
fn alphabetic(c: char) -> (r: bool)
    ensures
        r == is_alpha(c),
{
    c.is_alphabetic()
}

/// Relies on str::chars: the characters of the text, in order.
#[verifier::external_body]
pub(crate) fn chars_of(s: &str) -> (r: Vec<char>)
    ensures
        r@ == s@,
{
    s.chars().collect()
}

/// Relies on String's FromIterator<char>: the characters, in order.
#[verifier::external_body]
pub(crate) fn string_of(cs: &[char]) -> (r: String)
    ensures
        r@ == cs@,
{
    cs.iter().collect()
}

/// An ASCII decimal digit.
pub open spec fn digit(c: char) -> bool {
    '0' <= c <= '9'
}

/// A character that may continue a name: a digit, a letter, or `_`.
pub open spec fn word_char(c: char) -> bool {
    digit(c) || is_alpha(c) || c == '_'
}

/// The classes of a character that the lexer asks about.
#[derive(Clone, Copy)]
pub struct CharClass {
    pub space: bool,
    pub upper: bool,
    pub lower: bool,
    pub alpha: bool,
}

/// The classes that std gives a character.
pub open spec fn class_of(c: char) -> CharClass {
    CharClass { space: is_space(c), upper: is_upper(c), lower: is_lower(c), alpha: is_alpha(c) }
}

/// The classes of each character of `s`.
pub open spec fn classes_of(s: Seq<char>) -> Seq<CharClass> {
    Seq::new(s.len(), |i: int| class_of(s[i]))
}

/// `c`, of classes `k`, may continue a name: a digit, a letter, or `_`.
pub open spec fn name_char(c: char, k: CharClass) -> bool {
    digit(c) || k.alpha || c == '_'
}

/// The punctuation characters.
pub open spec fn symbol_char(c: char) -> bool {
    c == '(' || c == ')' || c == ',' || c == '.' || c == ':' || c == '=' || c == '<' || c == '>'
        || c == '-'
}

/// The symbol that a punctuation character stands for.
pub open spec fn symbol_of(c: char) -> SpecialSymbol {
    if c == '(' {
        SpecialSymbol::LBrace
    } else if c == ')' {
        SpecialSymbol::RBrace
    } else if c == ',' {
        SpecialSymbol::Comma
    } else if c == '.' {
        SpecialSymbol::Dot
    } else if c == ':' {
        SpecialSymbol::Dots
    } else if c == '=' {
        SpecialSymbol::Eq
    } else if c == '<' {
        SpecialSymbol::LThan
    } else if c == '>' {
        SpecialSymbol::GThan
    } else {
        SpecialSymbol::Minus
    }
}

/// The value of a string of decimal digits.
pub open spec fn decimal(s: Seq<char>) -> nat
    decreases s.len(),
{
    if s.len() == 0 {
        0
    } else {
        (decimal(s.drop_last()) * 10 + (s.last() as int - '0' as int)) as nat
    }
}

/// The end of the run of name characters that starts at `pos`.
pub open spec fn word_end(s: Seq<char>, cls: Seq<CharClass>, pos: int) -> int
    decreases s.len() - pos,
{
    if pos < 0 || pos >= s.len() || !name_char(s[pos], cls[pos]) {
        pos
    } else {
        word_end(s, cls, pos + 1)
    }
}

/// The end of the run of digits that starts at `pos`.
pub open spec fn digits_end(s: Seq<char>, pos: int) -> int
    decreases s.len() - pos,
{
    if pos < 0 || pos >= s.len() || !digit(s[pos]) {
        pos
    } else {
        digits_end(s, pos + 1)
    }
}

/// A lexing outcome with `prefix` put before its tokens.
pub open spec fn after(prefix: Seq<TokenView>, r: Result<Seq<TokenView>, (int, Seq<char>)>) -> Result<
    Seq<TokenView>,
    (int, Seq<char>),
> {
    match r {
        Ok(ts) => Ok(prefix + ts),
        Err(e) => Err(e),
    }
}

/// The tokens of `s` from position `pos` on, or the position and message of
/// the first lexical error. Whitespace separates tokens; an uppercase letter
/// starts a variable, a lowercase letter a name and a digit a number, each
/// running on over name characters (digits for a number); a punctuation
/// character is a token of its own; any other character is an error.
pub open spec fn lex(s: Seq<char>, cls: Seq<CharClass>, pos: int) -> Result<Seq<TokenView>, (int, Seq<char>)>
    decreases s.len() - pos
    via lex_decreases
{
    if pos < 0 || pos >= s.len() {
        Ok(Seq::empty())
    } else {
        let c = s[pos];
        if cls[pos].space {
            lex(s, cls, pos + 1)
        } else if cls[pos].upper {
            let e = word_end(s, cls, pos + 1);
            after(seq![TokenView::Variable(s.subrange(pos, e))], lex(s, cls, e))
        } else if digit(c) {
            let e = digits_end(s, pos + 1);
            let v = decimal(s.subrange(pos, e));
            if v > u32::MAX {
                Err((pos, "Number too large"@))
            } else {
                after(seq![TokenView::Number(v as u32)], lex(s, cls, e))
            }
        } else if cls[pos].lower {
            let e = word_end(s, cls, pos + 1);
            after(seq![TokenView::Constant(s.subrange(pos, e))], lex(s, cls, e))
        } else if symbol_char(c) {
            after(seq![TokenView::SpecialSymbol(symbol_of(c))], lex(s, cls, pos + 1))
        } else {
            Err((pos, "Unrecognised character"@))
        }
    }
}

/// A run of name characters ends at or after its start, within the text.
pub proof fn lemma_word_end(s: Seq<char>, cls: Seq<CharClass>, pos: int)
    requires
        0 <= pos <= s.len(),
    ensures
        pos <= word_end(s, cls, pos) <= s.len(),
    decreases s.len() - pos,
{
    if pos < s.len() && name_char(s[pos], cls[pos]) {
        lemma_word_end(s, cls, pos + 1);
    }
}

/// A run of digits ends at or after its start, within the text.
pub proof fn lemma_digits_end(s: Seq<char>, pos: int)
    requires
        0 <= pos <= s.len(),
    ensures
        pos <= digits_end(s, pos) <= s.len(),
    decreases s.len() - pos,
{
    if pos < s.len() && digit(s[pos]) {
        lemma_digits_end(s, pos + 1);
    }
}

#[via_fn]
proof fn lex_decreases(s: Seq<char>, cls: Seq<CharClass>, pos: int) {
    if 0 <= pos < s.len() {
        lemma_word_end(s, cls, pos + 1);
        lemma_digits_end(s, pos + 1);
    }
}

/// The models of a sequence of tokens.
pub open spec fn token_views(ts: Seq<Token>) -> Seq<TokenView> {
    Seq::new(ts.len(), |i: int| ts[i]@)
}

/// A lexer over a text, with the classes of its characters and its current
/// position.
pub struct Tokenizer {
    input: Vec<char>,
    classes: Vec<CharClass>,
    pos: usize,
}

/// The classes of `c`, as std gives them.
fn classify(c: char) -> (r: CharClass)
    ensures
        r == class_of(c),
{
    CharClass { space: whitespace(c), upper: uppercase(c), lower: lowercase(c), alpha: alphabetic(c) }
}

/// Lexes `text`, whose characters have the classes `classes`, from the
/// start, as `lex` describes.
pub fn lex_classified(text: Vec<char>, classes: Vec<CharClass>) -> (r: Result<Vec<Token>, TokenizerError>)
    requires
        classes.len() == text.len(),
    ensures
        match lex(text@, classes@, 0) {
            Ok(ts) => r is Ok && token_views(r->Ok_0@) == ts,
            Err((p, m)) => r is Err && r->Err_0->BaseError_position == p && r->Err_0->BaseError_msg@
                == m,
        },
{
    let mut t = Tokenizer { input: text, classes, pos: 0 };
    t.run()
}

impl Tokenizer {
    /// The text being lexed.
    pub closed spec fn text(&self) -> Seq<char> {
        self.input@
    }

    /// The classes of the characters of the text.
    pub closed spec fn classes(&self) -> Seq<CharClass> {
        self.classes@
    }

    /// The current position.
    pub closed spec fn position(&self) -> int {
        self.pos as int
    }

    /// A lexer at the start of `input_str`.
    pub fn from_str(input_str: &str) -> (r: Tokenizer)
        ensures
            r.text() == input_str@,
            r.classes() == classes_of(input_str@),
            r.position() == 0,
    {
        let input = chars_of(input_str);
        let mut classes: Vec<CharClass> = Vec::new();
        let mut i: usize = 0;
        while i < input.len()
            invariant
                i <= input.len(),
                classes.len() == i,
                forall|j: int| 0 <= j < i ==> classes@[j] == class_of(input@[j]),
            decreases input.len() - i,
        {
            classes.push(classify(input[i]));
            i = i + 1;
        }
        assert(classes@ =~= classes_of(input@));
        Tokenizer { input, classes, pos: 0 }
    }

    /// Reads the run of characters from the current position, the first
    /// taken as it is and the rest while they are digits (or name
    /// characters).
    fn scan(&mut self, digits: bool) -> (r: Vec<char>)
        requires
            old(self).pos < old(self).input.len(),
            old(self).classes.len() == old(self).input.len(),
        ensures
            final(self).input == old(self).input,
            final(self).classes == old(self).classes,
            final(self).pos == (if digits {
                digits_end(old(self).input@, old(self).pos + 1)
            } else {
                word_end(old(self).input@, old(self).classes@, old(self).pos + 1)
            }),
            r@ == old(self).input@.subrange(old(self).pos as int, final(self).pos as int),
            old(self).pos < final(self).pos <= old(self).input.len(),
            digits ==> forall|i: int|
                old(self).pos < i < final(self).pos ==> digit(#[trigger] old(self).input@[i]),
    {
        let start = self.pos;
        let mut out: Vec<char> = Vec::new();
        out.push(self.input[self.pos]);
        self.pos = self.pos + 1;
        while self.pos < self.input.len() && continues(self.input[self.pos], self.classes[self.pos], digits)
            invariant
                self.input == old(self).input,
                self.classes == old(self).classes,
                self.classes.len() == self.input.len(),
                start == old(self).pos,
                start < self.pos <= self.input.len(),
                digits ==> forall|i: int| start < i < self.pos ==> digit(#[trigger] self.input@[i]),
                out@ == self.input@.subrange(start as int, self.pos as int),
                (if digits {
                    digits_end(self.input@, start + 1)
                } else {
                    word_end(self.input@, self.classes@, start + 1)
                }) == (if digits {
                    digits_end(self.input@, self.pos as int)
                } else {
                    word_end(self.input@, self.classes@, self.pos as int)
                }),
            decreases self.input.len() - self.pos,
        {
            let c = self.input[self.pos];
            out.push(c);
            self.pos = self.pos + 1;
            assert(out@ =~= self.input@.subrange(start as int, self.pos as int));
        }
        out
    }

    /// Lexes the rest of the text.
    fn run(&mut self) -> (r: Result<Vec<Token>, TokenizerError>)
        requires
            old(self).classes.len() == old(self).input.len(),
        ensures
            final(self).input == old(self).input,
            final(self).classes == old(self).classes,
            match lex(old(self).input@, old(self).classes@, old(self).pos as int) {
                Ok(ts) => r is Ok && token_views(r->Ok_0@) == ts,
                Err((p, m)) => r is Err && r->Err_0->BaseError_position == p
                    && r->Err_0->BaseError_msg@ == m,
            },
    {
        let mut tokens: Vec<Token> = Vec::new();
        let ghost s = self.input@;
        let ghost cls = self.classes@;
        let ghost start = self.pos as int;
        while self.pos < self.input.len()
            invariant
                self.input == old(self).input,
                self.classes == old(self).classes,
                self.classes.len() == self.input.len(),
                s == old(self).input@,
                cls == old(self).classes@,
                start == old(self).pos,
                lex(s, cls, start) == after(token_views(tokens@), lex(s, cls, self.pos as int)),
            decreases self.input.len() - self.pos,
        {
            let ghost before = tokens@;
            let at = self.pos;
            let c = self.input[self.pos];
            let k = self.classes[self.pos];
            if k.space {
                self.pos = self.pos + 1;
                continue;
            }
            let token: Token;
            if k.upper {
                let cs = self.scan(false);
                token = Token::Variable(string_of(cs.as_slice()));
            } else if '0' <= c && c <= '9' {
                let cs = self.scan(true);
                match number_of(&cs) {
                    Some(n) => {
                        token = Token::Number(n);
                    },
                    None => {
                        return Err(TokenizerError::new_base_error(at, "Number too large"));
                    },
                }
            } else if k.lower {
                let cs = self.scan(false);
                token = Token::Constant(string_of(cs.as_slice()));
            } else if SpecialSymbol::starts_with(c) {
                token = Token::SpecialSymbol(symbol(c));
                self.pos = self.pos + 1;
            } else {
                return Err(TokenizerError::new_base_error(self.pos, "Unrecognised character"));
            }
            tokens.push(token);
            proof {
                assert(token_views(tokens@) =~= token_views(before) + seq![token@]);
                let rest = lex(s, cls, self.pos as int);
                match rest {
                    Ok(ts) => {
                        assert(token_views(before) + (seq![token@] + ts) =~= token_views(tokens@) + ts);
                    },
                    Err(e) => {},
                }
            }
        }
        Ok(tokens)
    }

    /// Lexes the rest of the text, each character classed as std classes it.
    pub fn parse(&mut self) -> (r: Result<Vec<Token>, TokenizerError>)
        requires
            old(self).classes() == classes_of(old(self).text()),
        ensures
            final(self).text() == old(self).text(),
            match lex(old(self).text(), classes_of(old(self).text()), old(self).position()) {
                Ok(ts) => r is Ok && token_views(r->Ok_0@) == ts,
                Err((p, m)) => r is Err && r->Err_0->BaseError_position == p
                    && r->Err_0->BaseError_msg@ == m,
            },
    {
        self.run()
    }
}

/// Whether `c` continues a run of digits, or of name characters.
fn continues(c: char, k: CharClass, digits: bool) -> (r: bool)
    ensures
        r == (if digits {
            digit(c)
        } else {
            name_char(c, k)
        }),
{
    if digits {
        '0' <= c && c <= '9'
    } else {
        ('0' <= c && c <= '9') || k.alpha || c == '_'
    }
}

/// The value of a run of decimal digits, if it fits in a `u32`.
fn number_of(cs: &Vec<char>) -> (r: Option<u32>)
    requires
        forall|i: int| 0 <= i < cs.len() ==> digit(#[trigger] cs[i]),
    ensures
        r is Some <==> decimal(cs@) <= u32::MAX,
        r is Some ==> r->0 == decimal(cs@),
{
    let mut v: u64 = 0;
    let mut i: usize = 0;
    while i < cs.len()
        invariant
            i <= cs.len(),
            forall|k: int| 0 <= k < cs.len() ==> digit(#[trigger] cs[k]),
            v == decimal(cs@.subrange(0, i as int)),
            v <= u32::MAX,
        decreases cs.len() - i,
    {
        let d = (cs[i] as u32 - '0' as u32) as u64;
        assert(cs@.subrange(0, i + 1).drop_last() =~= cs@.subrange(0, i as int));
        let w = v * 10 + d;
        if w > u32::MAX as u64 {
            proof {
                lemma_decimal_grows(cs@, i as int + 1);
            }
            return None;
        }
        v = w;
        i = i + 1;
    }
    assert(cs@.subrange(0, cs.len() as int) =~= cs@);
    Some(v as u32)
}

/// A prefix of a digit string has no larger value than the whole.
proof fn lemma_decimal_grows(s: Seq<char>, n: int)
    requires
        0 <= n <= s.len(),
        forall|i: int| 0 <= i < s.len() ==> digit(#[trigger] s[i]),
    ensures
        decimal(s.subrange(0, n)) <= decimal(s),
    decreases s.len() - n,
{
    if n < s.len() {
        lemma_decimal_grows(s, n + 1);
        assert(s.subrange(0, n + 1).drop_last() =~= s.subrange(0, n));
    } else {
        assert(s.subrange(0, n) =~= s);
    }
}

/// The symbol of a punctuation character.
fn symbol(c: char) -> (r: SpecialSymbol)
    requires
        symbol_char(c),
    ensures
        r == symbol_of(c),
{
    if c == '(' {
        SpecialSymbol::LBrace
    } else if c == ')' {
        SpecialSymbol::RBrace
    } else if c == ',' {
        SpecialSymbol::Comma
    } else if c == '.' {
        SpecialSymbol::Dot
    } else if c == ':' {
        SpecialSymbol::Dots
    } else if c == '=' {
        SpecialSymbol::Eq
    } else if c == '<' {
        SpecialSymbol::LThan
    } else if c == '>' {
        SpecialSymbol::GThan
    } else {
        SpecialSymbol::Minus
    }
}

/// A characterisation of characters that can start a token.
pub trait StartsWith {
    spec fn starts(ch: char) -> bool;

    fn starts_with(ch: char) -> (r: bool)
        ensures
            r == Self::starts(ch),
    ;
}

impl StartsWith for SpecialSymbol {
    open spec fn starts(ch: char) -> bool {
        symbol_char(ch)
    }

    fn starts_with(ch: char) -> (r: bool) {
        ch == '(' || ch == ')' || ch == ',' || ch == '.' || ch == ':' || ch == '=' || ch == '<'
            || ch == '>' || ch == '-'
    }
}

impl StartsWith for Constant {
    open spec fn starts(ch: char) -> bool {
        word_char(ch)
    }

    fn starts_with(ch: char) -> (r: bool) {
        ('0' <= ch && ch <= '9') || alphabetic(ch) || ch == '_'
    }
}

} // verus!
