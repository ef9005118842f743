//! Lexical analysis: source text to a sequence of tokens.

use vstd::prelude::*;

verus! {

/// Operators and punctuation.
#[derive(Clone, Copy, Debug, PartialEq, Eq, Structural)]
pub enum OperatorKind {
    TkAdd,
    TkSub,
    TkMul,
    TkDiv,
    TkPrSt,
    TkPrEd,
    TkBrSt,
    TkBrEd,
    TkEq,
    TkNEq,
    TkLt,
    TkGt,
    TkLe,
    TkGe,
    TkAssign,
    TkExprEnd,
}

/// Reserved words. `TkWhile` and `TkFor` are reserved but not recognised.
#[derive(Clone, Copy, Debug, PartialEq, Eq, Structural)]
pub enum KeywordKind {
    TkReturn,
    TkIf,
    TkElse,
    TkWhile,
    TkFor,
}

/// One token of the source text.
#[derive(Debug, PartialEq, Eq)]
pub enum Token {
    Operator { kind: OperatorKind },
    Number { val: i32 },
    Ident { name: String },
    Return,
    If,
    Else,
    While,
    For,
}

/// The mathematical value of a token: an identifier is its characters.
pub enum TokenView {
    Operator(OperatorKind),
    Number(i32),
    Ident(Seq<char>),
    Return,
    If,
    Else,
    While,
    For,
}

impl View for Token {
    type V = TokenView;

    open spec fn view(&self) -> TokenView {
        match self {
            Token::Operator { kind } => TokenView::Operator(*kind),
            Token::Number { val } => TokenView::Number(*val),
            Token::Ident { name } => TokenView::Ident(name@),
            Token::Return => TokenView::Return,
            Token::If => TokenView::If,
            Token::Else => TokenView::Else,
            Token::While => TokenView::While,
            Token::For => TokenView::For,
        }
    }
}

/// A lexical error, at a character position of the source text.
#[derive(Clone, Copy, Debug, PartialEq, Eq, Structural)]
pub enum LexError {
    /// No token starts with the character at `pos`.
    UnrecognizedCharacter { pos: usize },
    /// The run of digits starting at `pos` does not fit in an `i32`.
    NumericLiteralOverflow { pos: usize },
}

pub open spec fn is_space(c: char) -> bool {
    c == ' ' || c == '\t' || c == '\n'
}

pub open spec fn is_digit(c: char) -> bool {
    '0' <= c && c <= '9'
}

pub open spec fn is_lower(c: char) -> bool {
    'a' <= c && c <= 'z'
}

pub open spec fn digit_value(c: char) -> int {
    c as int - '0' as int
}

/// End of the maximal run of spaces that starts at `i`.
pub open spec fn spaces_end(s: Seq<char>, i: int) -> int
    decreases s.len() - i,
{
    if 0 <= i < s.len() && is_space(s[i]) {
        spaces_end(s, i + 1)
    } else {
        i
    }
}

/// End of the maximal run of digits that starts at `i`.
pub open spec fn digits_end(s: Seq<char>, i: int) -> int
    decreases s.len() - i,
{
    if 0 <= i < s.len() && is_digit(s[i]) {
        digits_end(s, i + 1)
    } else {
        i
    }
}

/// End of the maximal run of lowercase letters that starts at `i`.
pub open spec fn letters_end(s: Seq<char>, i: int) -> int
    decreases s.len() - i,
{
    if 0 <= i < s.len() && is_lower(s[i]) {
        letters_end(s, i + 1)
    } else {
        i
    }
}

/// The decimal value of a run of digits.
pub open spec fn digits_value(d: Seq<char>) -> int
    decreases d.len(),
{
    if d.len() == 0 {
        0
    } else {
        digits_value(d.drop_last()) * 10 + digit_value(d.last())
    }
}

/// The keyword that a whole word spells, if any. `while` and `for` are not
/// recognised and stay identifiers.
pub open spec fn keyword(w: Seq<char>) -> Option<KeywordKind> {
    if w.len() == 6 && w[0] == 'r' && w[1] == 'e' && w[2] == 't' && w[3] == 'u' && w[4] == 'r'
        && w[5] == 'n' {
        Some(KeywordKind::TkReturn)
    } else if w.len() == 2 && w[0] == 'i' && w[1] == 'f' {
        Some(KeywordKind::TkIf)
    } else if w.len() == 4 && w[0] == 'e' && w[1] == 'l' && w[2] == 's' && w[3] == 'e' {
        Some(KeywordKind::TkElse)
    } else {
        None
    }
}

/// The token for a maximal run of lowercase letters.
pub open spec fn word_token(w: Seq<char>) -> TokenView {
    match keyword(w) {
        Some(KeywordKind::TkReturn) => TokenView::Return,
        Some(KeywordKind::TkIf) => TokenView::If,
        Some(KeywordKind::TkElse) => TokenView::Else,
        _ => TokenView::Ident(w),
    }
}

/// A two-character operator: its first character, followed by `=`.
pub open spec fn two_char_operator(c: char) -> Option<OperatorKind> {
    if c == '=' {
        Some(OperatorKind::TkEq)
    } else if c == '!' {
        Some(OperatorKind::TkNEq)
    } else if c == '<' {
        Some(OperatorKind::TkLe)
    } else if c == '>' {
        Some(OperatorKind::TkGe)
    } else {
        None
    }
}

pub open spec fn one_char_operator(c: char) -> Option<OperatorKind> {
    if c == '+' {
        Some(OperatorKind::TkAdd)
    } else if c == '-' {
        Some(OperatorKind::TkSub)
    } else if c == '*' {
        Some(OperatorKind::TkMul)
    } else if c == '/' {
        Some(OperatorKind::TkDiv)
    } else if c == '(' {
        Some(OperatorKind::TkPrSt)
    } else if c == ')' {
        Some(OperatorKind::TkPrEd)
    } else if c == '{' {
        Some(OperatorKind::TkBrSt)
    } else if c == '}' {
        Some(OperatorKind::TkBrEd)
    } else if c == '<' {
        Some(OperatorKind::TkLt)
    } else if c == '>' {
        Some(OperatorKind::TkGt)
    } else if c == '=' {
        Some(OperatorKind::TkAssign)
    } else if c == ';' {
        Some(OperatorKind::TkExprEnd)
    } else {
        None
    }
}

/// The operator at position `j` and its length; two-character forms first.
pub open spec fn operator_at(s: Seq<char>, j: int) -> Option<(OperatorKind, int)> {
    if j < 0 || j >= s.len() {
        None
    } else if j + 1 < s.len() && s[j + 1] == '=' && two_char_operator(s[j]) is Some {
        Some((two_char_operator(s[j])->0, 2))
    } else {
        match one_char_operator(s[j]) {
            Some(k) => Some((k, 1)),
            None => None,
        }
    }
}

/// A token and the position of its first character.
pub type Lexeme = (TokenView, int);

pub open spec fn cons_ok<E>(x: Lexeme, r: Result<Seq<Lexeme>, E>) -> Result<Seq<Lexeme>, E> {
    match r {
        Ok(xs) => Ok(seq![x] + xs),
        Err(e) => Err(e),
    }
}

pub open spec fn append_ok<E>(pre: Seq<Lexeme>, r: Result<Seq<Lexeme>, E>) -> Result<
    Seq<Lexeme>,
    E,
> {
    match r {
        Ok(xs) => Ok(pre + xs),
        Err(e) => Err(e),
    }
}

/// The tokens of `s` from position `i` on. After skipping spaces, a digit
/// starts a number, a lowercase letter starts a word (a keyword or an
/// identifier), and anything else must start an operator.
pub open spec fn lex_from(s: Seq<char>, i: int) -> Result<Seq<Lexeme>, LexError>
    decreases s.len() - i,
{
    let j = spaces_end(s, i);
    if i < 0 || j >= s.len() {
        Ok(seq![])
    } else {
        proof {
            lemma_spaces_end(s, i);
            lemma_digits_end(s, j);
            lemma_letters_end(s, j);
        }
        if is_digit(s[j]) {
            let e = digits_end(s, j);
            let v = digits_value(s.subrange(j, e));
            if v > i32::MAX {
                Err(LexError::NumericLiteralOverflow { pos: j as usize })
            } else {
                cons_ok((TokenView::Number(v as i32), j), lex_from(s, e))
            }
        } else if is_lower(s[j]) {
            let e = letters_end(s, j);
            cons_ok((word_token(s.subrange(j, e)), j), lex_from(s, e))
        } else {
            match operator_at(s, j) {
                Some((k, n)) => cons_ok((TokenView::Operator(k), j), lex_from(s, j + n)),
                None => Err(LexError::UnrecognizedCharacter { pos: j as usize }),
            }
        }
    }
}

/// The tokens of a whole source text, each with its position.
pub open spec fn lex(s: Seq<char>) -> Result<Seq<Lexeme>, LexError> {
    lex_from(s, 0)
}

/// The views of a sequence of tokens.
pub open spec fn token_views(t: Seq<Token>) -> Seq<TokenView> {
    t.map_values(|x: Token| x@)
}

/// The tokens alone, without positions.
pub open spec fn tokens_of(r: Seq<Lexeme>) -> Seq<TokenView> {
    r.map_values(|x: Lexeme| x.0)
}

pub proof fn lemma_spaces_end(s: Seq<char>, i: int)
    ensures
        i <= spaces_end(s, i),
        0 <= i <= s.len() ==> spaces_end(s, i) <= s.len(),
        0 <= i ==> spaces_end(s, spaces_end(s, i)) == spaces_end(s, i),
    decreases s.len() - i,
{
    if 0 <= i < s.len() && is_space(s[i]) {
        lemma_spaces_end(s, i + 1);
    }
}

pub proof fn lemma_digits_end(s: Seq<char>, i: int)
    ensures
        i <= digits_end(s, i),
        0 <= i <= s.len() ==> digits_end(s, i) <= s.len(),
        0 <= i < s.len() && is_digit(s[i]) ==> i < digits_end(s, i),
        forall|k: int| i <= k < digits_end(s, i) ==> is_digit(#[trigger] s[k]),
    decreases s.len() - i,
{
    if 0 <= i < s.len() && is_digit(s[i]) {
        lemma_digits_end(s, i + 1);
    }
}

pub proof fn lemma_letters_end(s: Seq<char>, i: int)
    ensures
        i <= letters_end(s, i),
        0 <= i <= s.len() ==> letters_end(s, i) <= s.len(),
        0 <= i < s.len() && is_lower(s[i]) ==> i < letters_end(s, i),
    decreases s.len() - i,
{
    if 0 <= i < s.len() && is_lower(s[i]) {
        lemma_letters_end(s, i + 1);
    }
}

fn is_space_exec(c: char) -> (r: bool)
    ensures
        r == is_space(c),
{
    c == ' ' || c == '\t' || c == '\n'
}

fn is_digit_exec(c: char) -> (r: bool)
    ensures
        r == is_digit(c),
{
    '0' <= c && c <= '9'
}

fn is_lower_exec(c: char) -> (r: bool)
    ensures
        r == is_lower(c),
{
    'a' <= c && c <= 'z'
}

fn skip_spaces(chars: &Vec<char>, i: usize) -> (r: usize)
    requires
        i <= chars.len(),
    ensures
        r == spaces_end(chars@, i as int),
        r <= chars.len(),
{
    let mut k = i;
    while k < chars.len() && is_space_exec(chars[k])
        invariant
            i <= k <= chars.len(),
            spaces_end(chars@, i as int) == spaces_end(chars@, k as int),
        decreases chars.len() - k,
    {
        k += 1;
    }
    k
}

fn skip_digits(chars: &Vec<char>, i: usize) -> (r: usize)
    requires
        i <= chars.len(),
    ensures
        r == digits_end(chars@, i as int),
        r <= chars.len(),
{
    let mut k = i;
    while k < chars.len() && is_digit_exec(chars[k])
        invariant
            i <= k <= chars.len(),
            digits_end(chars@, i as int) == digits_end(chars@, k as int),
        decreases chars.len() - k,
    {
        k += 1;
    }
    k
}

fn skip_letters(chars: &Vec<char>, i: usize) -> (r: usize)
    requires
        i <= chars.len(),
    ensures
        r == letters_end(chars@, i as int),
        r <= chars.len(),
{
    let mut k = i;
    while k < chars.len() && is_lower_exec(chars[k])
        invariant
            i <= k <= chars.len(),
            letters_end(chars@, i as int) == letters_end(chars@, k as int),
        decreases chars.len() - k,
    {
        k += 1;
    }
    k
}

proof fn lemma_digits_prefix(d: Seq<char>, k: int)
    requires
        0 <= k <= d.len(),
        forall|m: int| 0 <= m < d.len() ==> is_digit(#[trigger] d[m]),
    ensures
        0 <= digits_value(d.take(k)) <= digits_value(d),
    decreases d.len(),
{
    if k < d.len() {
        lemma_digits_prefix(d.drop_last(), k);
        assert(d.drop_last().take(k) =~= d.take(k));
    } else {
        assert(d.take(k) =~= d);
        if d.len() > 0 {
            lemma_digits_prefix(d.drop_last(), k - 1);
        }
    }
}

/// The value of the digits `chars[start..end]`, or the overflow error at
/// `start` where it exceeds `i32::MAX`.
fn number_value(chars: &Vec<char>, start: usize, end: usize) -> (r: Result<i32, LexError>)
    requires
        start <= end <= chars.len(),
        forall|m: int| start <= m < end ==> is_digit(#[trigger] chars@[m]),
    ensures
        match r {
            Ok(v) => v as int == digits_value(chars@.subrange(start as int, end as int)),
            Err(e) => e == (LexError::NumericLiteralOverflow { pos: start })
                && digits_value(chars@.subrange(start as int, end as int)) > i32::MAX,
        },
{
    let ghost d = chars@.subrange(start as int, end as int);
    let mut v: u64 = 0;
    let mut k = start;
    while k < end
        invariant
            start <= k <= end <= chars.len(),
            d == chars@.subrange(start as int, end as int),
            forall|m: int| start <= m < end ==> is_digit(#[trigger] chars@[m]),
            v as int == digits_value(chars@.subrange(start as int, k as int)),
            v <= i32::MAX,
        decreases end - k,
    {
        let c = chars[k];
        let digit = (c as u32 - '0' as u32) as u64;
        assert(chars@.subrange(start as int, k + 1).drop_last() =~= chars@.subrange(
            start as int,
            k as int,
        ));
        v = v * 10 + digit;
        k += 1;
        if v > i32::MAX as u64 {
            proof {
                assert(d.take(k - start) =~= chars@.subrange(start as int, k as int));
                lemma_digits_prefix(d, k - start);
            }
            return Err(LexError::NumericLiteralOverflow { pos: start });
        }
    }
    Ok(v as i32)
}

/// The keyword spelt by the word `chars[start..end]`, if any.
fn keyword_at(chars: &Vec<char>, start: usize, end: usize) -> (r: Option<KeywordKind>)
    requires
        start <= end <= chars.len(),
    ensures
        r == keyword(chars@.subrange(start as int, end as int)),
{
    let n = end - start;
    if n == 6 && chars[start] == 'r' && chars[start + 1] == 'e' && chars[start + 2] == 't'
        && chars[start + 3] == 'u' && chars[start + 4] == 'r' && chars[start + 5] == 'n' {
        Some(KeywordKind::TkReturn)
    } else if n == 2 && chars[start] == 'i' && chars[start + 1] == 'f' {
        Some(KeywordKind::TkIf)
    } else if n == 4 && chars[start] == 'e' && chars[start + 1] == 'l' && chars[start + 2] == 's'
        && chars[start + 3] == 'e' {
        Some(KeywordKind::TkElse)
    } else {
        None
    }
}

fn two_char_operator_exec(c: char) -> (r: Option<OperatorKind>)
    ensures
        r == two_char_operator(c),
{
    if c == '=' {
        Some(OperatorKind::TkEq)
    } else if c == '!' {
        Some(OperatorKind::TkNEq)
    } else if c == '<' {
        Some(OperatorKind::TkLe)
    } else if c == '>' {
        Some(OperatorKind::TkGe)
    } else {
        None
    }
}

fn one_char_operator_exec(c: char) -> (r: Option<OperatorKind>)
    ensures
        r == one_char_operator(c),
{
    if c == '+' {
        Some(OperatorKind::TkAdd)
    } else if c == '-' {
        Some(OperatorKind::TkSub)
    } else if c == '*' {
        Some(OperatorKind::TkMul)
    } else if c == '/' {
        Some(OperatorKind::TkDiv)
    } else if c == '(' {
        Some(OperatorKind::TkPrSt)
    } else if c == ')' {
        Some(OperatorKind::TkPrEd)
    } else if c == '{' {
        Some(OperatorKind::TkBrSt)
    } else if c == '}' {
        Some(OperatorKind::TkBrEd)
    } else if c == '<' {
        Some(OperatorKind::TkLt)
    } else if c == '>' {
        Some(OperatorKind::TkGt)
    } else if c == '=' {
        Some(OperatorKind::TkAssign)
    } else if c == ';' {
        Some(OperatorKind::TkExprEnd)
    } else {
        None
    }
}

/// The operator at position `j` and its length; none at the end of input.
fn tokenize_operator(chars: &Vec<char>, j: usize) -> (r: Option<(OperatorKind, usize)>)
    requires
        j <= chars.len(),
    ensures
        match r {
            Some((k, n)) => operator_at(chars@, j as int) == Some((k, n as int)),
            None => operator_at(chars@, j as int) is None,
        },
{
    if j >= chars.len() {
        return None;
    }
    if j + 1 < chars.len() && chars[j + 1] == '=' {
        if let Some(k) = two_char_operator_exec(chars[j]) {
            return Some((k, 2));
        }
    }
    match one_char_operator_exec(chars[j]) {
        Some(k) => Some((k, 1)),
        None => None,
    }
}

/// Tokens paired with their positions.
pub open spec fn lexemes(toks: Seq<Token>, pos: Seq<usize>) -> Seq<Lexeme> {
    Seq::new(toks.len(), |k: int| (toks[k]@, pos[k] as int))
}

/// Splits `input` into tokens, giving each the character position where it
/// starts, or gives the first lexical error.
pub fn tokenize_with_positions(input: &str) -> (r: Result<(Vec<Token>, Vec<usize>), LexError>)
    ensures
        match r {
            Ok((toks, pos)) => {
                &&& toks@.len() == pos@.len()
                &&& toks@.len() <= input@.len()
                &&& lex(input@) == Ok::<Seq<Lexeme>, LexError>(lexemes(toks@, pos@))
            },
            Err(e) => lex(input@) == Err::<Seq<Lexeme>, LexError>(e),
        },
{
    let mut chars: Vec<char> = Vec::new();
    for c in it: input.chars()
        invariant
            chars@ == it.seq().take(it.index() as int),
    {
        chars.push(c);
        assert(chars@ =~= it.seq().take(it.index() as int + 1));
    }
    let n = chars.len();
    assert(chars@ =~= input@);
    let ghost s = chars@;
    let mut toks: Vec<Token> = Vec::new();
    let mut pos: Vec<usize> = Vec::new();
    let mut i = skip_spaces(&chars, 0);
    proof {
        lemma_spaces_end(s, 0);
    }
    while i < n
        invariant
            s == chars@,
            s == input@,
            n == s.len(),
            i <= n,
            i == spaces_end(s, i as int),
            toks@.len() == pos@.len(),
            toks@.len() <= i,
            lex(s) == append_ok(lexemes(toks@, pos@), lex_from(s, i as int)),
        decreases n - i,
    {
        let ghost pre = lexemes(toks@, pos@);
        let ghost j = i as int;
        proof {
            lemma_digits_end(s, j);
            lemma_letters_end(s, j);
        }
        let c = chars[i];
        let e: usize;
        let tok: Token;
        if is_digit_exec(c) {
            e = skip_digits(&chars, i);
            match number_value(&chars, i, e) {
                Ok(v) => {
                    tok = Token::Number { val: v };
                },
                Err(err) => {
                    return Err(err);
                },
            }
        } else if is_lower_exec(c) {
            e = skip_letters(&chars, i);
            tok = match keyword_at(&chars, i, e) {
                Some(KeywordKind::TkReturn) => Token::Return,
                Some(KeywordKind::TkIf) => Token::If,
                Some(KeywordKind::TkElse) => Token::Else,
                _ => Token::Ident { name: input.substring_char(i, e).to_owned() },
            };
        } else {
            match tokenize_operator(&chars, i) {
                Some((kind, len)) => {
                    e = i + len;
                    tok = Token::Operator { kind };
                },
                None => {
                    return Err(LexError::UnrecognizedCharacter { pos: i });
                },
            }
        }
        assert(lex_from(s, j) == cons_ok((tok@, j), lex_from(s, e as int)));
        toks.push(tok);
        pos.push(i);
        assert(lexemes(toks@, pos@) =~= pre.push((tok@, j)));
        assert(append_ok(pre, lex_from(s, j)) == append_ok(lexemes(toks@, pos@), lex_from(s, e as int))) by {
            match lex_from(s, e as int) {
                Ok(xs) => {
                    assert(pre + (seq![(tok@, j)] + xs) =~= pre.push((tok@, j)) + xs);
                },
                Err(_) => {},
            }
        }
        proof {
            lemma_spaces_end(s, e as int);
        }
        i = skip_spaces(&chars, e);
        assert(lex_from(s, e as int) == lex_from(s, i as int));
    }
    proof {
        assert(lexemes(toks@, pos@) + seq![] =~= lexemes(toks@, pos@));
    }
    Ok((toks, pos))
}

/// Splits `input` into tokens, or gives the first lexical error.
pub fn tokenize(input: String) -> (r: Result<Vec<Token>, LexError>)
    ensures
        match r {
            Ok(toks) => toks@.len() <= input@.len() && lex(input@) is Ok && token_views(toks@) == tokens_of(
                lex(input@)->Ok_0,
            ),
            Err(e) => lex(input@) == Err::<Seq<Lexeme>, LexError>(e),
        },
{
    match tokenize_with_positions(input.as_str()) {
        Ok((toks, pos)) => {
            proof {
                assert(token_views(toks@) =~= tokens_of(lexemes(toks@, pos@)));
            }
            Ok(toks)
        },
        Err(e) => Err(e),
    }
}

/// Every token takes at least one character.
pub proof fn lemma_lex_len(s: Seq<char>, i: int)
    requires
        0 <= i <= s.len(),
    ensures
        lex_from(s, i) is Ok ==> lex_from(s, i)->Ok_0.len() <= s.len() - i,
    decreases s.len() - i,
{
    let j = spaces_end(s, i);
    lemma_spaces_end(s, i);
    if j < s.len() {
        lemma_digits_end(s, j);
        lemma_letters_end(s, j);
        if is_digit(s[j]) {
            lemma_lex_len(s, digits_end(s, j));
        } else if is_lower(s[j]) {
            lemma_lex_len(s, letters_end(s, j));
        } else {
            match operator_at(s, j) {
                Some((k, n)) => lemma_lex_len(s, j + n),
                None => {},
            }
        }
    }
}

} // verus!
