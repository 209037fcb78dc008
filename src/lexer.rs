//! Lexical analysis: characters to tokens.
use vstd::prelude::*;

verus! {

/// A self-evaluating value.
#[derive(Debug, PartialEq, Clone)]
pub enum Literal {
    Number(i32),
    Boolean(bool),
    Character(char),
    String(String),
}

/// The mathematical value of a `Literal`.
pub enum LiteralV {
    Number(i32),
    Boolean(bool),
    Character(char),
    Text(Seq<char>),
}

impl View for Literal {
    type V = LiteralV;

    open spec fn view(&self) -> LiteralV {
        match self {
            Literal::Number(n) => LiteralV::Number(*n),
            Literal::Boolean(b) => LiteralV::Boolean(*b),
            Literal::Character(c) => LiteralV::Character(*c),
            Literal::String(s) => LiteralV::Text(s@),
        }
    }
}

/// A lexical unit.
#[derive(Debug, PartialEq, Clone)]
pub enum Token {
    Identifier(String),
    LParen,
    RParen,
    Literal(Literal),
}

/// The mathematical value of a `Token`.
pub enum TokenV {
    Identifier(Seq<char>),
    LParen,
    RParen,
    Literal(LiteralV),
}

impl View for Token {
    type V = TokenV;

    open spec fn view(&self) -> TokenV {
        match self {
            Token::Identifier(s) => TokenV::Identifier(s@),
            Token::LParen => TokenV::LParen,
            Token::RParen => TokenV::RParen,
            Token::Literal(l) => TokenV::Literal(l@),
        }
    }
}

/// Why a token could not be read.
#[derive(Debug, PartialEq, Eq, Clone, Copy)]
pub enum LexError {
    /// No token shape fits at the current position; the rest of the input is dropped.
    Unmatched,
    /// A string literal holds an escape other than `\\`, `\n` or `\t`.
    BadEscape,
    /// A run of digits whose value does not fit in an `i32`.
    NumberOverflow,
}

pub open spec fn token_result_view(r: Result<Token, LexError>) -> Result<TokenV, LexError> {
    match r {
        Ok(t) => Ok(t@),
        Err(e) => Err(e),
    }
}

pub open spec fn is_space(c: char) -> bool {
    c == ' ' || c == '\n'
}

pub open spec fn is_delimiter(c: char) -> bool {
    c == '(' || c == ')' || c == '[' || c == ']'
}

pub open spec fn is_digit(c: char) -> bool {
    '0' <= c && c <= '9'
}

pub open spec fn all_digits(w: Seq<char>) -> bool {
    forall|i: int| 0 <= i < w.len() ==> is_digit(#[trigger] w[i])
}

pub open spec fn digit_value(c: char) -> int {
    (c as u32) as int - ('0' as u32) as int
}

/// The decimal value of a run of digits.
pub open spec fn digits_value(w: Seq<char>) -> int
    decreases w.len(),
{
    if w.len() == 0 {
        0
    } else {
        digits_value(w.drop_last()) * 10 + digit_value(w.last())
    }
}

/// The character that a backslash followed by `c` stands for in a string literal.
pub open spec fn escape_of(c: char) -> Option<char> {
    if c == '\\' {
        Some('\\')
    } else if c == 'n' {
        Some('\n')
    } else if c == 't' {
        Some('\t')
    } else {
        None
    }
}

pub open spec fn prepend(p: Seq<char>, o: Option<Seq<char>>) -> Option<Seq<char>> {
    match o {
        Some(r) => Some(p + r),
        None => None,
    }
}

/// The body of a string literal with its escapes resolved, or `None` for a bad escape.
pub open spec fn unescape(s: Seq<char>) -> Option<Seq<char>>
    decreases s.len(),
{
    if s.len() == 0 {
        Some(Seq::empty())
    } else if s[0] == '\\' {
        if s.len() < 2 {
            None
        } else {
            match escape_of(s[1]) {
                Some(c) => prepend(seq![c], unescape(s.subrange(2, s.len() as int))),
                None => None,
            }
        }
    } else {
        prepend(seq![s[0]], unescape(s.drop_first()))
    }
}

pub open spec fn ci_eq(name: Seq<char>, lower: Seq<char>, upper: Seq<char>) -> bool {
    &&& name.len() == lower.len()
    &&& name.len() == upper.len()
    &&& forall|i: int| 0 <= i < name.len() ==> name[i] == lower[i] || name[i] == upper[i]
}

/// The character named after `#\`: one character stands for itself, and
/// `newline` and `space` are recognised whatever their case.
pub open spec fn char_name(name: Seq<char>) -> Option<char> {
    if name.len() == 1 {
        Some(name[0])
    } else if ci_eq(name, seq!['n', 'e', 'w', 'l', 'i', 'n', 'e'], seq!['N', 'E', 'W', 'L', 'I', 'N', 'E']) {
        Some('\n')
    } else if ci_eq(name, seq!['s', 'p', 'a', 'c', 'e'], seq!['S', 'P', 'A', 'C', 'E']) {
        Some(' ')
    } else {
        None
    }
}

/// The token that the text `w` stands for.
pub open spec fn classify(w: Seq<char>) -> Result<TokenV, LexError> {
    if w == seq!['('] || w == seq!['['] {
        Ok(TokenV::LParen)
    } else if w == seq![')'] || w == seq![']'] {
        Ok(TokenV::RParen)
    } else if w.len() == 0 {
        Err(LexError::Unmatched)
    } else if all_digits(w) {
        if digits_value(w) <= i32::MAX {
            Ok(TokenV::Literal(LiteralV::Number(digits_value(w) as i32)))
        } else {
            Err(LexError::NumberOverflow)
        }
    } else if w[0] == '#' {
        if w.len() == 2 && (w[1] == 't' || w[1] == 'T') {
            Ok(TokenV::Literal(LiteralV::Boolean(true)))
        } else if w.len() == 2 && (w[1] == 'f' || w[1] == 'F') {
            Ok(TokenV::Literal(LiteralV::Boolean(false)))
        } else if w.len() >= 3 && w[1] == '\\' {
            match char_name(w.subrange(2, w.len() as int)) {
                Some(c) => Ok(TokenV::Literal(LiteralV::Character(c))),
                None => Err(LexError::Unmatched),
            }
        } else {
            Err(LexError::Unmatched)
        }
    } else if w[0] == '"' {
        if w.len() >= 2 && w.last() == '"' {
            match unescape(w.subrange(1, w.len() - 1)) {
                Some(t) => Ok(TokenV::Literal(LiteralV::Text(t))),
                None => Err(LexError::BadEscape),
            }
        } else {
            Err(LexError::Unmatched)
        }
    } else {
        Ok(TokenV::Identifier(w))
    }
}

/// Relies on `String`'s `FromIterator<&char>`: the string holds the characters in order.
#[verifier::external_body]
fn string_from_chars(cs: &[char]) -> (r: String)
    ensures
        r@ == cs@,
{
    cs.iter().collect()
}

fn copy_range(v: &Vec<char>, from: usize, to: usize) -> (r: Vec<char>)
    requires
        from <= to <= v@.len(),
    ensures
        r@ == v@.subrange(from as int, to as int),
{
    let mut r: Vec<char> = Vec::new();
    let mut i: usize = from;
    while i < to
        invariant
            from <= i <= to <= v@.len(),
            r@ == v@.subrange(from as int, i as int),
        decreases to - i,
    {
        r.push(v[i]);
        i = i + 1;
        assert(r@ =~= v@.subrange(from as int, i as int));
    }
    r
}

fn eq_ignore_case(name: &[char], lower: &[char], upper: &[char]) -> (r: bool)
    ensures
        r == ci_eq(name@, lower@, upper@),
{
    if name.len() != lower.len() || name.len() != upper.len() {
        return false;
    }
    let mut i: usize = 0;
    while i < name.len()
        invariant
            name@.len() == lower@.len(),
            name@.len() == upper@.len(),
            0 <= i <= name@.len(),
            forall|j: int| 0 <= j < i ==> name@[j] == lower@[j] || name@[j] == upper@[j],
        decreases name@.len() - i,
    {
        if name[i] != lower[i] && name[i] != upper[i] {
            return false;
        }
        i = i + 1;
    }
    true
}

fn read_char_name(name: &Vec<char>) -> (r: Option<char>)
    ensures
        r == char_name(name@),
{
    if name.len() == 1 {
        return Some(name[0]);
    }
    let nl_lo = ['n', 'e', 'w', 'l', 'i', 'n', 'e'];
    let nl_up = ['N', 'E', 'W', 'L', 'I', 'N', 'E'];
    let sp_lo = ['s', 'p', 'a', 'c', 'e'];
    let sp_up = ['S', 'P', 'A', 'C', 'E'];
    proof {
        assert(nl_lo@ =~= seq!['n', 'e', 'w', 'l', 'i', 'n', 'e']);
        assert(nl_up@ =~= seq!['N', 'E', 'W', 'L', 'I', 'N', 'E']);
        assert(sp_lo@ =~= seq!['s', 'p', 'a', 'c', 'e']);
        assert(sp_up@ =~= seq!['S', 'P', 'A', 'C', 'E']);
    }
    if eq_ignore_case(name.as_slice(), &nl_lo, &nl_up) {
        Some('\n')
    } else if eq_ignore_case(name.as_slice(), &sp_lo, &sp_up) {
        Some(' ')
    } else {
        None
    }
}

proof fn lemma_digits_nonneg(w: Seq<char>)
    requires
        all_digits(w),
    ensures
        digits_value(w) >= 0,
    decreases w.len(),
{
    if w.len() > 0 {
        assert(all_digits(w.drop_last())) by {
            assert forall|i: int| 0 <= i < w.drop_last().len() implies is_digit(#[trigger] w.drop_last()[i]) by {
                assert(is_digit(w[i]));
            }
        }
        lemma_digits_nonneg(w.drop_last());
        assert(is_digit(w[w.len() - 1]));
    }
}

/// A longer run of digits is worth at least as much as its prefix.
proof fn lemma_digits_prefix(w: Seq<char>, k: int)
    requires
        all_digits(w),
        0 <= k <= w.len(),
    ensures
        digits_value(w.subrange(0, k)) <= digits_value(w),
    decreases w.len(),
{
    if k < w.len() {
        let d = w.drop_last();
        assert(all_digits(d)) by {
            assert forall|i: int| 0 <= i < d.len() implies is_digit(#[trigger] d[i]) by {
                assert(is_digit(w[i]));
            }
        }
        lemma_digits_prefix(d, k);
        assert(d.subrange(0, k) =~= w.subrange(0, k));
        lemma_digits_nonneg(d);
        assert(is_digit(w[w.len() - 1]));
    } else {
        assert(w.subrange(0, k) =~= w);
    }
}

/// The value of a non-empty run of digits, or `None` where it exceeds `i32::MAX`.
fn parse_digits(w: &Vec<char>) -> (r: Option<i32>)
    requires
        all_digits(w@),
    ensures
        match r {
            Some(n) => n as int == digits_value(w@),
            None => digits_value(w@) > i32::MAX,
        },
{
    let mut acc: u64 = 0;
    let mut i: usize = 0;
    while i < w.len()
        invariant
            all_digits(w@),
            0 <= i <= w@.len(),
            acc as int == digits_value(w@.subrange(0, i as int)),
            acc <= i32::MAX,
        decreases w@.len() - i,
    {
        assert(is_digit(w@[i as int]));
        let d: u64 = (w[i] as u32 - '0' as u32) as u64;
        acc = acc * 10 + d;
        proof {
            let p = w@.subrange(0, i + 1);
            assert(p.drop_last() =~= w@.subrange(0, i as int));
            assert(p.last() == w@[i as int]);
        }
        i = i + 1;
        if acc > 2147483647 {
            proof {
                lemma_digits_prefix(w@, i as int);
            }
            return None;
        }
    }
    assert(w@.subrange(0, i as int) =~= w@);
    Some(acc as i32)
}

fn all_digits_exec(w: &Vec<char>) -> (r: bool)
    ensures
        r == all_digits(w@),
{
    let mut i: usize = 0;
    while i < w.len()
        invariant
            0 <= i <= w@.len(),
            forall|j: int| 0 <= j < i ==> is_digit(#[trigger] w@[j]),
        decreases w@.len() - i,
    {
        if !('0' <= w[i] && w[i] <= '9') {
            return false;
        }
        i = i + 1;
    }
    true
}

/// Resolves the escapes of a string literal's body; `None` for a bad escape.
fn unescape_chars(s: &Vec<char>) -> (r: Option<Vec<char>>)
    ensures
        match r {
            Some(v) => unescape(s@) == Some(v@),
            None => unescape(s@) is None,
        },
{
    let mut out: Vec<char> = Vec::new();
    let mut i: usize = 0;
    let n = s.len();
    assert(s@.subrange(0, n as int) =~= s@);
    while i < n
        invariant
            n == s@.len(),
            0 <= i <= n,
            unescape(s@) == prepend(out@, unescape(s@.subrange(i as int, n as int))),
        decreases n - i,
    {
        let ghost rest = s@.subrange(i as int, n as int);
        if s[i] == '\\' {
            if i + 1 >= n {
                return None;
            }
            let c = s[i + 1];
            let e = if c == '\\' {
                '\\'
            } else if c == 'n' {
                '\n'
            } else if c == 't' {
                '\t'
            } else {
                return None;
            };
            proof {
                assert(rest.subrange(2, rest.len() as int) =~= s@.subrange(i + 2, n as int));
                assert(escape_of(rest[1]) == Some(e));
                match unescape(s@.subrange(i + 2, n as int)) {
                    Some(t) => {
                        assert(out@ + (seq![e] + t) =~= out@.push(e) + t);
                    },
                    None => {},
                }
            }
            out.push(e);
            i = i + 2;
        } else {
            let c = s[i];
            proof {
                assert(rest.drop_first() =~= s@.subrange(i + 1, n as int));
                match unescape(s@.subrange(i + 1, n as int)) {
                    Some(t) => {
                        assert(out@ + (seq![c] + t) =~= out@.push(c) + t);
                    },
                    None => {},
                }
            }
            out.push(c);
            i = i + 1;
        }
    }
    proof {
        assert(s@.subrange(n as int, n as int) =~= Seq::<char>::empty());
        assert(out@ + Seq::<char>::empty() =~= out@);
    }
    Some(out)
}

/// The token that the text `w` stands for.
pub fn classify_word(w: &Vec<char>) -> (r: Result<Token, LexError>)
    ensures
        token_result_view(r) == classify(w@),
{
    let n = w.len();
    if n == 1 && (w[0] == '(' || w[0] == '[') {
        assert(w@ =~= seq![w@[0]]);
        return Ok(Token::LParen);
    }
    if n == 1 && (w[0] == ')' || w[0] == ']') {
        assert(w@ =~= seq![w@[0]]);
        return Ok(Token::RParen);
    }
    proof {
        if n != 1 {
            assert(w@.len() != seq!['('].len());
        }
        if n == 1 {
            assert(seq!['('][0] == '(');
            assert(seq!['['][0] == '[');
            assert(seq![')'][0] == ')');
            assert(seq![']'][0] == ']');
            assert(w@ != seq!['('] && w@ != seq!['['] && w@ != seq![')'] && w@ != seq![']']) by {
                if w@ == seq!['('] { assert(w@[0] == '('); }
                if w@ == seq!['['] { assert(w@[0] == '['); }
                if w@ == seq![')'] { assert(w@[0] == ')'); }
                if w@ == seq![']'] { assert(w@[0] == ']'); }
            }
        }
    }
    if n == 0 {
        return Err(LexError::Unmatched);
    }
    if all_digits_exec(w) {
        return match parse_digits(w) {
            Some(v) => Ok(Token::Literal(Literal::Number(v))),
            None => Err(LexError::NumberOverflow),
        };
    }
    if w[0] == '#' {
        if n == 2 && (w[1] == 't' || w[1] == 'T') {
            return Ok(Token::Literal(Literal::Boolean(true)));
        }
        if n == 2 && (w[1] == 'f' || w[1] == 'F') {
            return Ok(Token::Literal(Literal::Boolean(false)));
        }
        if n >= 3 && w[1] == '\\' {
            let name = copy_range(w, 2, n);
            return match read_char_name(&name) {
                Some(c) => Ok(Token::Literal(Literal::Character(c))),
                None => Err(LexError::Unmatched),
            };
        }
        return Err(LexError::Unmatched);
    }
    if w[0] == '"' {
        if n >= 2 && w[n - 1] == '"' {
            let body = copy_range(w, 1, n - 1);
            return match unescape_chars(&body) {
                Some(t) => Ok(Token::Literal(Literal::String(string_from_chars(t.as_slice())))),
                None => Err(LexError::BadEscape),
            };
        }
        return Err(LexError::Unmatched);
    }
    Ok(Token::Identifier(string_from_chars(w.as_slice())))
}

/// The first position at or after `i` that does not hold whitespace.
pub open spec fn skip_spaces(s: Seq<char>, i: int) -> int
    decreases s.len() - i,
{
    if 0 <= i < s.len() && is_space(s[i]) {
        skip_spaces(s, i + 1)
    } else {
        i
    }
}

proof fn lemma_skip_spaces(s: Seq<char>, i: int)
    ensures
        skip_spaces(s, i) >= i,
        i >= s.len() ==> skip_spaces(s, i) == i,
    decreases s.len() - i,
{
    if 0 <= i < s.len() && is_space(s[i]) {
        lemma_skip_spaces(s, i + 1);
    }
}

/// The first position at or after `i` that holds whitespace or a delimiter, or the end.
pub open spec fn word_end(s: Seq<char>, i: int) -> int
    decreases s.len() - i,
{
    if 0 <= i < s.len() && !is_space(s[i]) && !is_delimiter(s[i]) {
        word_end(s, i + 1)
    } else {
        i
    }
}

/// One step of lexing `s` from position `i`: the token found there and the
/// position after it, or `None` where only whitespace is left. After an
/// `Unmatched` error the rest of the input is dropped.
pub open spec fn lex_at(s: Seq<char>, i: int) -> Option<(Result<TokenV, LexError>, int)> {
    let j = skip_spaces(s, i);
    if j >= s.len() {
        None
    } else if is_delimiter(s[j]) {
        Some((classify(seq![s[j]]), j + 1))
    } else {
        let k = word_end(s, j);
        let t = classify(s.subrange(j, k));
        Some((t, if t == Err::<TokenV, LexError>(LexError::Unmatched) { s.len() as int } else { k }))
    }
}

proof fn lemma_word_end(s: Seq<char>, i: int)
    requires
        0 <= i <= s.len(),
    ensures
        i <= word_end(s, i) <= s.len(),
    decreases s.len() - i,
{
    if 0 <= i < s.len() && !is_space(s[i]) && !is_delimiter(s[i]) {
        lemma_word_end(s, i + 1);
    }
}

/// Each step of `lex_at` moves forward and stays within the input.
proof fn lemma_lex_at_progress(s: Seq<char>, i: int)
    requires
        0 <= i <= s.len(),
    ensures
        lex_at(s, i) matches Some((t, k)) ==> i < k <= s.len(),
{
    lemma_skip_spaces(s, i);
    let j = skip_spaces(s, i);
    if j < s.len() && !is_delimiter(s[j]) {
        lemma_word_end(s, j);
        lemma_skip_not_space(s, i);
        assert(word_end(s, j) == word_end(s, j + 1));
        lemma_word_end(s, j + 1);
    }
}

proof fn lemma_skip_not_space(s: Seq<char>, i: int)
    ensures
        0 <= skip_spaces(s, i) < s.len() ==> !is_space(s[skip_spaces(s, i)]),
        0 <= i ==> skip_spaces(s, skip_spaces(s, i)) == skip_spaces(s, i),
    decreases s.len() - i,
{
    if 0 <= i < s.len() && is_space(s[i]) {
        lemma_skip_not_space(s, i + 1);
    }
}

/// All the tokens of `s` from position `i` on, in order.
pub open spec fn lex_all(s: Seq<char>, i: int) -> Seq<Result<TokenV, LexError>>
    decreases s.len() - i,
{
    match lex_at(s, i) {
        None => Seq::empty(),
        Some((t, k)) => if i < k <= s.len() {
            seq![t] + lex_all(s, k)
        } else {
            Seq::empty()
        },
    }
}

proof fn lemma_lex_all_step(s: Seq<char>, i: int)
    requires
        0 <= i <= s.len(),
    ensures
        match lex_at(s, i) {
            None => lex_all(s, i).len() == 0,
            Some((t, k)) => lex_all(s, i).len() > 0 && lex_all(s, i)[0] == t && lex_all(s, i).drop_first()
                == lex_all(s, k),
        },
{
    lemma_lex_at_progress(s, i);
    if let Some((t, k)) = lex_at(s, i) {
        assert((seq![t] + lex_all(s, k)).drop_first() =~= lex_all(s, k));
    }
}

/// A forward-only source of tokens.
pub trait Lexer {
    /// The lexer's own well-formedness.
    spec fn inv(&self) -> bool;

    /// The tokens and errors still to come, in order.
    spec fn upcoming(&self) -> Seq<Result<TokenV, LexError>>;

    /// Hands out the first of the upcoming tokens, or `None` where none is left.
    fn next_token(&mut self) -> (r: Option<Result<Token, LexError>>)
        requires
            old(self).inv(),
        ensures
            final(self).inv(),
            old(self).upcoming().len() == 0 ==> r is None && final(self).upcoming().len() == 0,
            old(self).upcoming().len() > 0 ==> (r matches Some(t) && token_result_view(t) == old(
                self,
            ).upcoming()[0]) && final(self).upcoming() == old(self).upcoming().drop_first(),
    ;
}

/// A lexer over a sequence of characters, with one character of lookahead.
pub struct IteratorLexer {
    chars: Vec<char>,
    pos: usize,
}

impl IteratorLexer {
    /// The whole input.
    pub closed spec fn text(&self) -> Seq<char> {
        self.chars@
    }

    /// The position of the lookahead character in `text()`.
    pub closed spec fn position(&self) -> int {
        self.pos as int
    }

    pub closed spec fn wf(&self) -> bool {
        self.pos <= self.chars@.len()
    }

    pub fn new(it: Vec<char>) -> (r: Self)
        ensures
            r.wf(),
            r.text() == it@,
            r.position() == 0,
            r.upcoming() == lex_all(it@, 0),
    {
        IteratorLexer { chars: it, pos: 0 }
    }

    /// Consumes the lookahead character.
    fn skip(&mut self) -> (r: Option<char>)
        requires
            old(self).wf(),
        ensures
            final(self).wf(),
            final(self).chars == old(self).chars,
            old(self).pos < old(self).chars@.len() ==> r == Some(old(self).chars@[old(self).pos as int])
                && final(self).pos == old(self).pos + 1,
            old(self).pos >= old(self).chars@.len() ==> r is None && final(self).pos == old(self).pos,
    {
        if self.pos < self.chars.len() {
            let c = self.chars[self.pos];
            self.pos = self.pos + 1;
            Some(c)
        } else {
            None
        }
    }

    /// Whether the lookahead character is whitespace.
    fn peekws(&self) -> (r: bool)
        requires
            self.wf(),
        ensures
            r == (self.pos < self.chars@.len() && is_space(self.chars@[self.pos as int])),
    {
        self.pos < self.chars.len() && (self.chars[self.pos] == ' ' || self.chars[self.pos] == '\n')
    }

    fn skipws(&mut self)
        requires
            old(self).wf(),
        ensures
            final(self).wf(),
            final(self).chars == old(self).chars,
            final(self).pos == skip_spaces(old(self).chars@, old(self).pos as int),
    {
        while self.peekws()
            invariant
                self.wf(),
                self.chars == old(self).chars,
                skip_spaces(self.chars@, self.pos as int) == skip_spaces(
                    old(self).chars@,
                    old(self).pos as int,
                ),
            decreases self.chars@.len() - self.pos,
        {
            self.skip();
        }
    }

    /// The delimiter token that the lookahead character stands for, if any.
    fn peeksingle(&self) -> (r: Option<Token>)
        requires
            self.wf(),
        ensures
            r is Some <==> (self.pos < self.chars@.len() && is_delimiter(self.chars@[self.pos as int])),
            r matches Some(t) ==> Ok::<TokenV, LexError>(t@) == classify(seq![self.chars@[self.pos as int]]),
    {
        if self.pos >= self.chars.len() {
            return None;
        }
        let c = self.chars[self.pos];
        if c == '(' || c == '[' {
            Some(Token::LParen)
        } else if c == ')' || c == ']' {
            Some(Token::RParen)
        } else {
            None
        }
    }
}

impl Lexer for IteratorLexer {
    open spec fn inv(&self) -> bool {
        self.wf()
    }

    open spec fn upcoming(&self) -> Seq<Result<TokenV, LexError>> {
        lex_all(self.text(), self.position())
    }

    /// Reads the token at the current position, exactly as `lex_at` says.
    fn next_token(&mut self) -> (r: Option<Result<Token, LexError>>)
        ensures
            match lex_at(old(self).text(), old(self).position()) {
                None => r is None && final(self).position() == skip_spaces(
                    old(self).text(),
                    old(self).position(),
                ),
                Some((t, k)) => r matches Some(x) && token_result_view(x) == t
                    && final(self).position() == k,
            },
            final(self).text() == old(self).text(),
    {
        self.skipws();
        proof {
            lemma_skip_spaces(old(self).chars@, old(self).pos as int);
            lemma_skip_not_space(old(self).chars@, old(self).pos as int);
            lemma_lex_at_progress(old(self).chars@, old(self).pos as int);
            lemma_lex_all_step(old(self).chars@, old(self).pos as int);
        }
        if let Some(t) = self.peeksingle() {
            self.skip();
            return Some(Ok(t));
        }
        if self.pos >= self.chars.len() {
            proof {
                lemma_lex_all_step(self.chars@, self.pos as int);
            }
            return None;
        }
        let start = self.pos;
        while self.pos < self.chars.len() && self.peeksingle().is_none() && !self.peekws()
            invariant
                self.wf(),
                self.chars == old(self).chars,
                start <= self.pos,
                word_end(self.chars@, start as int) == word_end(self.chars@, self.pos as int),
            decreases self.chars@.len() - self.pos,
        {
            self.skip();
        }
        let w = copy_range(&self.chars, start, self.pos);
        let t = classify_word(&w);
        if let Err(LexError::Unmatched) = t {
            self.pos = self.chars.len();
        }
        Some(t)
    }
}

/// The first match of the regular expression `pattern` in `text`: the text
/// before it, the match, and the text after it; `None` where nothing matches
/// or the pattern does not compile.
pub uninterp spec fn first_match(pattern: Seq<char>, text: Seq<char>) -> Option<
    (Seq<char>, Seq<char>, Seq<char>),
>;

/// Relies on `regex::Regex::new` and `regex::Regex::find`: the result depends
/// on the pattern and the text alone, and a match lies between two character
/// boundaries of the text, so the text before it, the match and the text
/// after it make up the text.
#[verifier::external_body]
fn find_first(pattern: &str, text: &str) -> (r: Option<(String, String, String)>)
    ensures
        found_view(r) == first_match(pattern@, text@),
        r matches Some((b, m, a)) ==> b@ + m@ + a@ == text@,
{
    match regex::Regex::new(pattern) {
        Ok(re) => match re.find(text) {
            Some(m) => Some((
                text[..m.start()].to_string(),
                m.as_str().to_string(),
                text[m.end()..].to_string(),
            )),
            None => None,
        },
        Err(_) => None,
    }
}

/// Relies on `str::chars` collected into a `Vec`: the characters in order.
#[verifier::external_body]
fn chars_of(s: &str) -> (r: Vec<char>)
    ensures
        r@ == s@,
{
    s.chars().collect()
}

/// The shapes of all tokens, after optional whitespace.
pub const TOKEN_PATTERN: &'static str = r#"(?i)[ \n]*(?:[(\[]|[)\]]|[a-z!$%&*/:<=>?~_^][a-z!$%&*/:<=>?~_^0-9.+-]*|#[tf]|[0-9]+|#\\(?:newline|space|.)|"(?:[^\\"]|\\.)*")"#;

pub open spec fn is_blank(s: Seq<char>) -> bool {
    forall|i: int| 0 <= i < s.len() ==> is_space(#[trigger] s[i])
}

pub open spec fn split_of(text: Seq<char>, found: Option<(Seq<char>, Seq<char>, Seq<char>)>) -> bool {
    found matches Some((b, m, a)) ==> b + m + a == text
}

pub open spec fn found_view(found: Option<(String, String, String)>) -> Option<(Seq<char>, Seq<char>, Seq<char>)> {
    match found {
        Some((b, m, a)) => Some((b@, m@, a@)),
        None => None,
    }
}

/// One step of the pattern-based lexer on the input `rest`, given where the
/// token pattern was found in it: `None` where only whitespace is left; the
/// token that the match stands for, and the text after it, where the match
/// starts the input; an `Unmatched` error, and nothing left, otherwise.
pub open spec fn regex_step(rest: Seq<char>, found: Option<(Seq<char>, Seq<char>, Seq<char>)>) -> Option<
    (Result<TokenV, LexError>, Seq<char>),
> {
    if is_blank(rest) {
        None
    } else {
        match found {
            Some((b, m, a)) => if b.len() == 0 {
                let t = classify(m.subrange(skip_spaces(m, 0), m.len() as int));
                Some((t, if t == Err::<TokenV, LexError>(LexError::Unmatched) { Seq::empty() } else { a }))
            } else {
                Some((Err(LexError::Unmatched), Seq::empty()))
            },
            None => Some((Err(LexError::Unmatched), Seq::empty())),
        }
    }
}

fn blank_exec(s: &str) -> (r: bool)
    ensures
        r == is_blank(s@),
{
    let cs = chars_of(s);
    let mut i: usize = 0;
    while i < cs.len()
        invariant
            cs@ == s@,
            0 <= i <= cs@.len(),
            forall|j: int| 0 <= j < i ==> is_space(#[trigger] cs@[j]),
        decreases cs@.len() - i,
    {
        if cs[i] != ' ' && cs[i] != '\n' {
            return false;
        }
        i = i + 1;
    }
    true
}

/// Finishes one step of the pattern-based lexer on `rest`, from where the
/// token pattern was `found` in it: the token or error, and the input left.
pub fn lex_match(rest: &str, found: Option<(String, String, String)>) -> (r: (
    Option<Result<Token, LexError>>,
    String,
))
    requires
        split_of(rest@, found_view(found)),
    ensures
        match regex_step(rest@, found_view(found)) {
            None => r.0 is None && r.1@ == rest@,
            Some((t, left)) => r.0 matches Some(x) && token_result_view(x) == t && r.1@ == left,
        },
{
    if blank_exec(rest) {
        return (None, rest.to_string());
    }
    match found {
        Some((b, m, a)) => {
            if b.as_str().is_empty() {
                let mc = chars_of(m.as_str());
                let mut j: usize = 0;
                while j < mc.len() && (mc[j] == ' ' || mc[j] == '\n')
                    invariant
                        0 <= j <= mc@.len(),
                        skip_spaces(mc@, 0) == skip_spaces(mc@, j as int),
                    decreases mc@.len() - j,
                {
                    j = j + 1;
                }
                let w = copy_range(&mc, j, mc.len());
                let t = classify_word(&w);
                if let Err(LexError::Unmatched) = t {
                    return (Some(t), String::new());
                }
                return (Some(t), a);
            }
            (Some(Err(LexError::Unmatched)), String::new())
        },
        None => (Some(Err(LexError::Unmatched)), String::new()),
    }
}

/// Where the token pattern first matches in `text`.
pub open spec fn token_match(text: Seq<char>) -> Option<(Seq<char>, Seq<char>, Seq<char>)> {
    first_match(TOKEN_PATTERN@, text)
}

/// All the tokens that the pattern-based lexer reads from `rest`, in order.
pub open spec fn regex_tokens(rest: Seq<char>) -> Seq<Result<TokenV, LexError>>
    decreases rest.len(),
{
    match regex_step(rest, token_match(rest)) {
        None => Seq::empty(),
        Some((t, left)) => if left.len() < rest.len() {
            seq![t] + regex_tokens(left)
        } else {
            Seq::empty()
        },
    }
}

/// A lexer that finds each token with a regular expression.
pub struct RegexLexer {
    rest: String,
}

impl RegexLexer {
    /// The input not yet read.
    pub closed spec fn remaining(&self) -> Seq<char> {
        self.rest@
    }

    pub fn new(text: &str) -> (r: Self)
        ensures
            r.remaining() == text@,
            r.upcoming() == regex_tokens(text@),
    {
        RegexLexer { rest: text.to_string() }
    }
}

impl Lexer for RegexLexer {
    open spec fn inv(&self) -> bool {
        true
    }

    open spec fn upcoming(&self) -> Seq<Result<TokenV, LexError>> {
        regex_tokens(self.remaining())
    }

    /// Reads one token, as `regex_step` says for where the token pattern
    /// first matches the input left.
    fn next_token(&mut self) -> (r: Option<Result<Token, LexError>>)
        ensures
            match regex_step(old(self).remaining(), token_match(old(self).remaining())) {
                None => r is None && final(self).remaining() == old(self).remaining(),
                Some((t, left)) => r matches Some(x) && token_result_view(x) == t
                    && final(self).remaining() == left,
            },
    {
        let found = find_first(TOKEN_PATTERN, self.rest.as_str());
        let ghost f = found_view(found);
        let ghost rs = self.rest@;
        let (r, left) = lex_match(self.rest.as_str(), found);
        proof {
            if !is_blank(rs) {
                if let Some((b, m, a)) = f {
                    let w = m.subrange(skip_spaces(m, 0), m.len() as int);
                    if b.len() == 0 && classify(w) != Err::<TokenV, LexError>(LexError::Unmatched) {
                        assert(w.len() > 0);
                        lemma_skip_spaces(m, 0);
                        assert(rs =~= b + m + a);
                    }
                }
            }
            if let Some((t, l)) = regex_step(rs, f) {
                assert((seq![t] + regex_tokens(l)).drop_first() =~= regex_tokens(l));
            }
        }
        self.rest = left;
        r
    }
}

} // verus!
