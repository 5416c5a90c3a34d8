use vstd::prelude::*;
use crate::sheet::{
    Cell, CellModel, Expr, Formula, Range, args_model, cell_model, formula_model, range_is_ordered,
};

verus! {

/// True of a non-empty sequence of the letters `A` to `Z`.
pub open spec fn is_column_letters(s: Seq<char>) -> bool {
    &&& s.len() > 0
    &&& forall|i: int| 0 <= i < s.len() ==> 'A' <= #[trigger] s[i] <= 'Z'
}

/// The digit that an upper-case letter stands for: `A` is 1, `Z` is 26.
pub open spec fn letter_digit(c: char) -> int {
    (c as int) - 64
}

/// The letter for a digit from 0 (`A`) to 25 (`Z`).
pub open spec fn digit_letter(d: int) -> char {
    ((d + 65) as u8) as char
}

/// The bijective base-26 value of a column name: "A" is 1, "Z" is 26, "AA" is 27.
pub open spec fn column_value(s: Seq<char>) -> int
    decreases s.len(),
{
    if s.len() == 0 {
        0
    } else {
        column_value(s.drop_last()) * 26 + letter_digit(s.last())
    }
}

/// The column name whose bijective base-26 value is `n`; empty for 0.
pub open spec fn letters_of(n: nat) -> Seq<char>
    decreases n,
{
    if n == 0 {
        Seq::empty()
    } else {
        letters_of(((n - 1) / 26) as nat).push(digit_letter((n - 1) % 26))
    }
}

proof fn lemma_digit_letter(d: int)
    requires
        0 <= d < 26,
    ensures
        'A' <= digit_letter(d) <= 'Z',
        letter_digit(digit_letter(d)) == d + 1,
{
}

proof fn lemma_letter_digit(c: char)
    requires
        'A' <= c <= 'Z',
    ensures
        1 <= letter_digit(c) <= 26,
        digit_letter(letter_digit(c) - 1) == c,
{
}


proof fn lemma_value_of_letters(n: nat)
    ensures
        column_value(letters_of(n)) == n,
        n > 0 ==> is_column_letters(letters_of(n)),
        forall|i: int| 0 <= i < letters_of(n).len() ==> 'A' <= #[trigger] letters_of(n)[i] <= 'Z',
    decreases n,
{
    if n > 0 {
        let q = ((n - 1) / 26) as nat;
        let d = (n - 1) % 26;
        lemma_value_of_letters(q);
        lemma_digit_letter(d);
        let l = letters_of(n);
        assert(l.drop_last() =~= letters_of(q));
        assert(l.len() > 0);
    }
}

proof fn lemma_letters_of_value(s: Seq<char>)
    requires
        forall|i: int| 0 <= i < s.len() ==> 'A' <= #[trigger] s[i] <= 'Z',
    ensures
        column_value(s) >= s.len(),
        letters_of(column_value(s) as nat) == s,
    decreases s.len(),
{
    if s.len() > 0 {
        let p = s.drop_last();
        assert(forall|i: int| 0 <= i < p.len() ==> p[i] == s[i]);
        lemma_letters_of_value(p);
        lemma_letter_digit(s.last());
        let v = column_value(s);
        assert((v - 1) / 26 == column_value(p));
        assert((v - 1) % 26 == letter_digit(s.last()) - 1);
        assert(letters_of(v as nat) =~= s);
    } else {
        assert(letters_of(0) =~= s);
    }
}

proof fn lemma_prefix_value(s: Seq<char>, i: int)
    requires
        0 <= i <= s.len(),
        forall|k: int| 0 <= k < s.len() ==> 'A' <= #[trigger] s[k] <= 'Z',
    ensures
        0 <= column_value(s.subrange(0, i)) <= column_value(s),
    decreases s.len() - i,
{
    if i < s.len() {
        lemma_prefix_value(s, i + 1);
        let a = s.subrange(0, i + 1);
        assert(a.drop_last() =~= s.subrange(0, i));
        lemma_letter_digit(a.last());
        lemma_letters_of_value(s.subrange(0, i));
    } else {
        assert(s.subrange(0, i) =~= s);
        lemma_letters_of_value(s);
    }
}

/// Relies on String::push: the character is appended at the end.
#[verifier::external_body]
fn push_char(s: &mut String, c: char)
    ensures
        final(s)@ == old(s)@.push(c),
{
    s.push(c);
}

/// The zero-based column index that a column name such as "A" (0) or "AB" (27) stands for.
pub fn letter_to_index(letter: &str) -> (r: u32)
    requires
        is_column_letters(letter@),
        column_value(letter@) <= u32::MAX + 1,
    ensures
        r == column_value(letter@) - 1,
{
    let n = letter.unicode_len();
    let mut column: u64 = 0;
    let mut i: usize = 0;
    while i < n
        invariant
            n == letter@.len(),
            i <= n,
            is_column_letters(letter@),
            column_value(letter@) <= u32::MAX + 1,
            column == column_value(letter@.subrange(0, i as int)),
        decreases n - i,
    {
        let c = letter.get_char(i);
        proof {
            lemma_prefix_value(letter@, i + 1);
            let a = letter@.subrange(0, i + 1);
            assert(a.drop_last() =~= letter@.subrange(0, i as int));
            assert(a.last() == c);
        }
        column = column * 26 + (c as u64 - 64);
        i = i + 1;
    }
    proof {
        assert(letter@.subrange(0, n as int) =~= letter@);
        lemma_letters_of_value(letter@);
    }
    (column - 1) as u32
}

/// The column name of a zero-based column index: 0 gives "A", 25 "Z", 26 "AA".
pub fn index_to_letter(column: u32) -> (r: String)
    ensures
        r@ == letters_of(column as nat + 1),
        is_column_letters(r@),
{
    let mut n: u64 = column as u64 + 1;
    let mut rev: Vec<char> = Vec::new();
    while n > 0
        invariant
            letters_of(n as nat) + rev@.reverse() == letters_of(column as nat + 1),
        decreases n,
    {
        let d: u64 = (n - 1) % 26;
        let c = ((d as u8) + 65u8) as char;
        proof {
            assert(c == digit_letter(d as int));
            let q = ((n - 1) / 26) as nat;
            assert(letters_of(n as nat) == letters_of(q).push(c));
        }
        let ghost old_rev = rev@;
        rev.push(c);
        proof {
            assert(rev@.reverse() =~= seq![c] + old_rev.reverse());
            assert(letters_of(((n - 1) / 26) as nat) + rev@.reverse() =~= letters_of(n as nat) + old_rev.reverse());
        }
        n = (n - 1) / 26;
    }
    let mut letter = String::new();
    let mut i: usize = rev.len();
    while i > 0
        invariant
            i <= rev.len(),
            letter@ + rev@.subrange(0, i as int).reverse() == letters_of(column as nat + 1),
        decreases i,
    {
        let ghost before = letter@;
        push_char(&mut letter, rev[i - 1]);
        proof {
            assert(rev@.subrange(0, i as int).reverse() =~= seq![rev@[i - 1]] + rev@.subrange(0, i - 1).reverse());
            assert(letter@ + rev@.subrange(0, i - 1).reverse() =~= before + rev@.subrange(0, i as int).reverse());
        }
        i = i - 1;
    }
    proof {
        assert(letter@ =~= letter@ + rev@.subrange(0, 0).reverse());
        lemma_value_of_letters(column as nat + 1);
    }
    letter
}

/// Converting an index to a column name and back gives the index again, and
/// converting a column name to an index and back gives the name again.
pub proof fn lemma_codec_round_trip(n: u32, s: Seq<char>)
    requires
        is_column_letters(s),
        column_value(s) <= u32::MAX + 1,
    ensures
        is_column_letters(letters_of(n as nat + 1)),
        column_value(letters_of(n as nat + 1)) <= u32::MAX + 1,
        column_value(letters_of(n as nat + 1)) - 1 == n,
        letters_of(((column_value(s) - 1) + 1) as nat) == s,
{
    lemma_value_of_letters(n as nat + 1);
    lemma_letters_of_value(s);
}


/// A lexical token of formula text.
#[derive(Clone, Debug, PartialEq, Hash)]
pub enum Token {
    /// A character that starts no token.
    Error,
    LParen,
    RParen,
    Comma,
    Equals,
    Colon,
    Number(i64),
    Identifier(String),
    /// Text between double quotes, without the quotes.
    String(String),
}

/// The mathematical value of a token: its text as a character sequence.
pub enum Lexeme {
    Error,
    LParen,
    RParen,
    Comma,
    Equals,
    Colon,
    Number(i64),
    Identifier(Seq<char>),
    Quoted(Seq<char>),
}

pub open spec fn token_model(t: Token) -> Lexeme {
    match t {
        Token::Error => Lexeme::Error,
        Token::LParen => Lexeme::LParen,
        Token::RParen => Lexeme::RParen,
        Token::Comma => Lexeme::Comma,
        Token::Equals => Lexeme::Equals,
        Token::Colon => Lexeme::Colon,
        Token::Number(n) => Lexeme::Number(n),
        Token::Identifier(s) => Lexeme::Identifier(s@),
        Token::String(s) => Lexeme::Quoted(s@),
    }
}

pub open spec fn tokens_model(ts: Seq<Token>) -> Seq<Lexeme> {
    ts.map_values(|t: Token| token_model(t))
}

pub open spec fn is_space(c: char) -> bool {
    c == ' ' || c == '\t' || c == '\n' || c == '\x0c'
}

pub open spec fn is_digit(c: char) -> bool {
    '0' <= c <= '9'
}

pub open spec fn is_alpha(c: char) -> bool {
    ('a' <= c <= 'z') || ('A' <= c <= 'Z')
}

pub open spec fn is_name_char(c: char) -> bool {
    is_alpha(c) || c == '_'
}

/// The decimal value of a sequence of digits.
pub open spec fn decimal_value(s: Seq<char>) -> int
    decreases s.len(),
{
    if s.len() == 0 {
        0
    } else {
        decimal_value(s.drop_last()) * 10 + ((s.last() as int) - 48)
    }
}

/// How many digits follow one another from position `i` on.
pub open spec fn digit_run(s: Seq<char>, i: int) -> nat
    decreases s.len() - i,
{
    if 0 <= i < s.len() && is_digit(s[i]) {
        1 + digit_run(s, i + 1)
    } else {
        0
    }
}

/// How many letters and underscores follow one another from position `i` on.
pub open spec fn name_run(s: Seq<char>, i: int) -> nat
    decreases s.len() - i,
{
    if 0 <= i < s.len() && is_name_char(s[i]) {
        1 + name_run(s, i + 1)
    } else {
        0
    }
}

/// How many characters other than a double quote follow one another from position `i` on.
pub open spec fn text_run(s: Seq<char>, i: int) -> nat
    decreases s.len() - i,
{
    if 0 <= i < s.len() && s[i] != '"' {
        1 + text_run(s, i + 1)
    } else {
        0
    }
}

proof fn lemma_runs_bounded(s: Seq<char>, i: int)
    requires
        0 <= i <= s.len(),
    ensures
        digit_run(s, i) <= s.len() - i,
        name_run(s, i) <= s.len() - i,
        text_run(s, i) <= s.len() - i,
    decreases s.len() - i,
{
    if i < s.len() {
        lemma_runs_bounded(s, i + 1);
    }
}

#[via_fn]
proof fn lex_from_decreases(s: Seq<char>, i: int) {
    if 0 <= i < s.len() {
        lemma_runs_bounded(s, i + 1);
    }
}

/// The tokens of `s` from position `i` on. Each token is the longest that
/// starts there; white space separates tokens and yields none; a character
/// that starts no token yields `Error`, and so does a number above `i64::MAX`.
pub open spec fn lex_from(s: Seq<char>, i: int) -> Seq<Lexeme>
    decreases s.len() - i,
    via lex_from_decreases
{
    if i < 0 || i >= s.len() {
        Seq::empty()
    } else {
        let c = s[i];
        if is_space(c) {
            lex_from(s, i + 1)
        } else if c == '(' {
            seq![Lexeme::LParen] + lex_from(s, i + 1)
        } else if c == ')' {
            seq![Lexeme::RParen] + lex_from(s, i + 1)
        } else if c == ',' {
            seq![Lexeme::Comma] + lex_from(s, i + 1)
        } else if c == '=' {
            seq![Lexeme::Equals] + lex_from(s, i + 1)
        } else if c == ':' {
            seq![Lexeme::Colon] + lex_from(s, i + 1)
        } else if is_digit(c) {
            let j = i + 1 + digit_run(s, i + 1);
            let v = decimal_value(s.subrange(i, j));
            seq![if v <= i64::MAX { Lexeme::Number(v as i64) } else { Lexeme::Error }] + lex_from(s, j)
        } else if is_alpha(c) {
            let j = i + 1 + name_run(s, i + 1);
            seq![Lexeme::Identifier(s.subrange(i, j))] + lex_from(s, j)
        } else if c == '"' {
            let k = i + 1 + text_run(s, i + 1);
            if k < s.len() {
                seq![Lexeme::Quoted(s.subrange(i + 1, k))] + lex_from(s, k + 1)
            } else {
                seq![Lexeme::Error] + lex_from(s, i + 1)
            }
        } else {
            seq![Lexeme::Error] + lex_from(s, i + 1)
        }
    }
}


fn digit_char(c: char) -> (r: bool)
    ensures
        r == is_digit(c),
{
    '0' <= c && c <= '9'
}

fn name_char(c: char) -> (r: bool)
    ensures
        r == is_name_char(c),
{
    ('a' <= c && c <= 'z') || ('A' <= c && c <= 'Z') || c == '_'
}

/// Reads the run of digits that starts at `i`, as a number, or as `Error`
/// where its value exceeds `i64::MAX`.
fn lex_number(s: &str, i: usize) -> (r: (Token, usize))
    requires
        i < s@.len(),
        is_digit(s@[i as int]),
    ensures
        r.1 == i + 1 + digit_run(s@, i + 1),
        token_model(r.0) == (if decimal_value(s@.subrange(i as int, r.1 as int)) <= i64::MAX {
            Lexeme::Number(decimal_value(s@.subrange(i as int, r.1 as int)) as i64)
        } else {
            Lexeme::Error
        }),
{
    let n = s.unicode_len();
    let mut k: usize = i;
    let mut acc: u64 = 0;
    let mut over = false;
    proof {
        assert(s@.subrange(i as int, i as int) =~= Seq::<char>::empty());
    }
    while k < n && digit_char(s.get_char(k))
        invariant
            n == s@.len(),
            i <= k <= n,
            i < n,
            is_digit(s@[i as int]),
            i + 1 + digit_run(s@, i + 1) == k + digit_run(s@, k as int),
            !over ==> acc == decimal_value(s@.subrange(i as int, k as int)) && acc <= i64::MAX,
            over ==> decimal_value(s@.subrange(i as int, k as int)) > i64::MAX,
        decreases n - k,
    {
        let c = s.get_char(k);
        let d: u64 = c as u64 - 48;
        proof {
            let a = s@.subrange(i as int, k + 1);
            assert(a.drop_last() =~= s@.subrange(i as int, k as int));
            assert(decimal_value(a) == decimal_value(s@.subrange(i as int, k as int)) * 10 + d);
        }
        if !over {
            if acc > (9223372036854775807u64 - d) / 10 {
                over = true;
            } else {
                acc = acc * 10 + d;
            }
        }
        k = k + 1;
    }
    if over {
        (Token::Error, k)
    } else {
        (Token::Number(acc as i64), k)
    }
}

/// Reads the run of letters and underscores that starts at `i`.
fn lex_name(s: &str, i: usize) -> (r: (String, usize))
    requires
        i < s@.len(),
        is_alpha(s@[i as int]),
    ensures
        r.1 == i + 1 + name_run(s@, i + 1),
        r.0@ == s@.subrange(i as int, r.1 as int),
{
    let n = s.unicode_len();
    let mut k: usize = i;
    let mut name = String::new();
    while k < n && name_char(s.get_char(k))
        invariant
            n == s@.len(),
            i <= k <= n,
            i < n,
            is_alpha(s@[i as int]),
            i + 1 + name_run(s@, i + 1) == k + name_run(s@, k as int),
            name@ == s@.subrange(i as int, k as int),
        decreases n - k,
    {
        let c = s.get_char(k);
        push_char(&mut name, c);
        proof {
            assert(name@ =~= s@.subrange(i as int, k + 1));
        }
        k = k + 1;
    }
    (name, k)
}

/// Reads the characters from `i` up to the next double quote, or to the end.
fn lex_text(s: &str, i: usize) -> (r: (String, usize))
    requires
        i <= s@.len(),
    ensures
        r.1 == i + text_run(s@, i as int),
        r.0@ == s@.subrange(i as int, r.1 as int),
{
    let n = s.unicode_len();
    let mut k: usize = i;
    let mut text = String::new();
    proof {
        assert(text@ =~= s@.subrange(i as int, i as int));
    }
    while k < n && s.get_char(k) != '"'
        invariant
            n == s@.len(),
            i <= k <= n,
            i + text_run(s@, i as int) == k + text_run(s@, k as int),
            text@ == s@.subrange(i as int, k as int),
        decreases n - k,
    {
        let c = s.get_char(k);
        push_char(&mut text, c);
        proof {
            assert(text@ =~= s@.subrange(i as int, k + 1));
        }
        k = k + 1;
    }
    (text, k)
}


proof fn lemma_tokens_push(a: Seq<Token>, t: Token)
    ensures
        tokens_model(a.push(t)) == tokens_model(a).push(token_model(t)),
{
    assert(tokens_model(a.push(t)) =~= tokens_model(a).push(token_model(t)));
}

/// Splits formula text into tokens, dropping white space and keeping going
/// past characters that start no token.
pub fn lex(s: &str) -> (r: Vec<Token>)
    ensures
        tokens_model(r@) == lex_from(s@, 0),
{
    let n = s.unicode_len();
    let mut toks: Vec<Token> = Vec::new();
    let mut i: usize = 0;
    proof {
        assert(tokens_model(toks@) =~= Seq::<Lexeme>::empty());
        assert(tokens_model(toks@) + lex_from(s@, 0) =~= lex_from(s@, 0));
    }
    while i < n
        invariant
            n == s@.len(),
            i <= n,
            tokens_model(toks@) + lex_from(s@, i as int) == lex_from(s@, 0),
        decreases n - i,
    {
        let c = s.get_char(i);
        let ghost before = toks@;
        let ghost rest = lex_from(s@, i as int);
        if c == ' ' || c == '\t' || c == '\n' || c == '\x0c' {
            i = i + 1;
        } else {
            let tok: Token;
            let next: usize;
            if c == '(' {
                tok = Token::LParen;
                next = i + 1;
            } else if c == ')' {
                tok = Token::RParen;
                next = i + 1;
            } else if c == ',' {
                tok = Token::Comma;
                next = i + 1;
            } else if c == '=' {
                tok = Token::Equals;
                next = i + 1;
            } else if c == ':' {
                tok = Token::Colon;
                next = i + 1;
            } else if digit_char(c) {
                let (t, j) = lex_number(s, i);
                tok = t;
                next = j;
            } else if ('a' <= c && c <= 'z') || ('A' <= c && c <= 'Z') {
                let (name, j) = lex_name(s, i);
                tok = Token::Identifier(name);
                next = j;
            } else if c == '"' {
                let (text, k) = lex_text(s, i + 1);
                if k < n {
                    tok = Token::String(text);
                    next = k + 1;
                } else {
                    tok = Token::Error;
                    next = i + 1;
                }
            } else {
                tok = Token::Error;
                next = i + 1;
            }
            proof {
                lemma_runs_bounded(s@, i + 1);
                assert(rest == seq![token_model(tok)] + lex_from(s@, next as int));
                lemma_tokens_push(before, tok);
                assert(tokens_model(before) + rest =~= tokens_model(before).push(token_model(tok))
                    + lex_from(s@, next as int));
            }
            toks.push(tok);
            i = next;
        }
    }
    proof {
        assert(lex_from(s@, i as int) =~= Seq::<Lexeme>::empty());
        assert(tokens_model(toks@) + lex_from(s@, i as int) =~= tokens_model(toks@));
    }
    toks
}


/// What the parser looked for where it stopped.
#[derive(Clone, Copy, Debug, PartialEq, Eq)]
pub enum Expectation {
    /// A function call, a range or a quoted text.
    Expression,
    /// `(` after a function name, or a row number after column letters.
    OpenParenOrRow,
    /// `:` between the two corners of a range.
    Colon,
    /// The column letters of a range's second corner.
    ColumnLetters,
    /// The row number of a range's second corner.
    RowNumber,
    /// `,` or `)` after an argument.
    CommaOrCloseParen,
}

/// Why formula text could not be parsed.
#[derive(Clone, Copy, Debug, PartialEq, Eq)]
pub enum ParseError {
    /// The token at `position` (or the end of the tokens, where `position` is
    /// their number) is not what the grammar allows there.
    Unexpected { expected: Expectation, position: usize },
    /// The range corner whose column letters stand at `position` names no cell
    /// that an index can hold: its letters are not all upper case, its column
    /// lies past `u32::MAX`, or its row is 0 or past `usize::MAX + 1`.
    Unsupported { position: usize },
    /// The range whose first corner's letters stand at `position` has its second
    /// corner left of or above its first.
    Reversed { position: usize },
}

pub open spec fn unexpected(expected: Expectation, position: int) -> ParseError {
    ParseError::Unexpected { expected, position: position as usize }
}

/// True of column letters and a one-based row number that name a cell.
pub open spec fn corner_ok(letters: Seq<char>, row: i64) -> bool {
    &&& is_column_letters(letters)
    &&& column_value(letters) <= u32::MAX + 1
    &&& 1 <= row
    &&& row - 1 <= usize::MAX
}

/// The zero-based (column, row) of a corner that `corner_ok` admits.
pub open spec fn corner(letters: Seq<char>, row: i64) -> (usize, usize) {
    ((column_value(letters) - 1) as usize, (row - 1) as usize)
}

/// A range `<letters><row>:<letters><row>` whose first corner's letters stand at
/// `p`; a range whose second corner lies left of or above its first is rejected.
pub open spec fn parse_range_at(t: Seq<Lexeme>, p: int, c1: Seq<char>, n1: i64) -> Result<
    (Expr, int),
    ParseError,
> {
    if !(p + 2 < t.len() && t[p + 2] is Colon) {
        Err(unexpected(Expectation::Colon, p + 2))
    } else if !(p + 3 < t.len() && t[p + 3] is Identifier) {
        Err(unexpected(Expectation::ColumnLetters, p + 3))
    } else if !(p + 4 < t.len() && t[p + 4] is Number) {
        Err(unexpected(Expectation::RowNumber, p + 4))
    } else {
        let c2 = t[p + 3]->Identifier_0;
        let n2 = t[p + 4]->Number_0;
        if !corner_ok(c1, n1) {
            Err(ParseError::Unsupported { position: p as usize })
        } else if !corner_ok(c2, n2) {
            Err(ParseError::Unsupported { position: (p + 3) as usize })
        } else if !range_is_ordered(Range { start: corner(c1, n1), end: corner(c2, n2) }) {
            Err(ParseError::Reversed { position: p as usize })
        } else {
            Ok((Expr::Range(Range { start: corner(c1, n1), end: corner(c2, n2) }), p + 5))
        }
    }
}

/// The expression that starts at position `p` of the tokens, with the position
/// just past it.
pub open spec fn parse_expr_at(t: Seq<Lexeme>, p: int) -> Result<(Expr, int), ParseError>
    decreases t.len() - p, 0int,
{
    if p < 0 || p >= t.len() {
        Err(unexpected(Expectation::Expression, p))
    } else {
        match t[p] {
            Lexeme::Identifier(name) => {
                if p + 1 < t.len() && t[p + 1] is LParen {
                    if p + 2 < t.len() && t[p + 2] is RParen {
                        Ok((Expr::Function(name, Seq::empty()), p + 3))
                    } else {
                        match parse_args_at(t, p + 2, Seq::empty()) {
                            Ok((args, q)) => Ok((Expr::Function(name, args), q)),
                            Err(e) => Err(e),
                        }
                    }
                } else if p + 1 < t.len() && t[p + 1] is Number {
                    parse_range_at(t, p, name, t[p + 1]->Number_0)
                } else {
                    Err(unexpected(Expectation::OpenParenOrRow, p + 1))
                }
            },
            Lexeme::Quoted(text) => Ok((Expr::Text(text), p + 1)),
            _ => Err(unexpected(Expectation::Expression, p)),
        }
    }
}

/// The arguments from position `p` up to and past the closing `)`, after the
/// arguments `acc` already read.
pub open spec fn parse_args_at(t: Seq<Lexeme>, p: int, acc: Seq<Expr>) -> Result<
    (Seq<Expr>, int),
    ParseError,
>
    decreases t.len() - p, 1int,
{
    match parse_expr_at(t, p) {
        Ok((e, q)) => {
            if p < q < t.len() && t[q] is Comma {
                parse_args_at(t, q + 1, acc.push(e))
            } else if 0 <= q < t.len() && t[q] is RParen {
                Ok((acc.push(e), q + 1))
            } else {
                Err(unexpected(Expectation::CommaOrCloseParen, q))
            }
        },
        Err(e) => Err(e),
    }
}

/// What a cell's text means: a formula where its first token is `=`; the quoted
/// text without its quotes where its first token is a quoted text; else the
/// text itself.
pub open spec fn parsed_cell(s: Seq<char>) -> Result<CellModel, ParseError> {
    let t = lex_from(s, 0);
    if t.len() > 0 && t[0] is Equals {
        match parse_expr_at(t, 1) {
            Ok((e, _)) => Ok(CellModel::Formula(e)),
            Err(e) => Err(e),
        }
    } else {
        if t.len() > 0 && t[0] is Quoted {
            Ok(CellModel::Text(t[0]->Quoted_0))
        } else {
            Ok(CellModel::Text(s))
        }
    }
}


pub open spec fn expr_result_model(r: Result<(Formula, usize), ParseError>) -> Result<
    (Expr, int),
    ParseError,
> {
    match r {
        Ok((f, q)) => Ok((formula_model(f), q as int)),
        Err(e) => Err(e),
    }
}

pub open spec fn args_result_model(r: Result<(Vec<Formula>, usize), ParseError>) -> Result<
    (Seq<Expr>, int),
    ParseError,
> {
    match r {
        Ok((v, q)) => Ok((args_model(v@), q as int)),
        Err(e) => Err(e),
    }
}

pub open spec fn cell_result_model(r: Result<Cell, ParseError>) -> Result<CellModel, ParseError> {
    match r {
        Ok(c) => Ok(cell_model(c)),
        Err(e) => Err(e),
    }
}

/// The zero-based index of a column name, or `None` where the name is not
/// upper-case letters or its index exceeds `u32::MAX`.
fn column_of(letters: &String) -> (r: Option<u32>)
    ensures
        r == (if is_column_letters(letters@) && column_value(letters@) <= u32::MAX + 1 {
            Some((column_value(letters@) - 1) as u32)
        } else {
            None::<u32>
        }),
{
    let n = letters.as_str().unicode_len();
    if n == 0 {
        return None;
    }
    let mut acc: u64 = 0;
    let mut big = false;
    let mut i: usize = 0;
    while i < n
        invariant
            n == letters@.len(),
            i <= n,
            forall|k: int| 0 <= k < i ==> 'A' <= #[trigger] letters@[k] <= 'Z',
            !big ==> acc == column_value(letters@.subrange(0, i as int)) && acc <= u32::MAX + 1,
            big ==> column_value(letters@.subrange(0, i as int)) > u32::MAX + 1,
        decreases n - i,
    {
        let c = letters.as_str().get_char(i);
        if !('A' <= c && c <= 'Z') {
            return None;
        }
        proof {
            let a = letters@.subrange(0, i + 1);
            assert(a.drop_last() =~= letters@.subrange(0, i as int));
            assert(a.last() == c);
            assert(forall|k: int| 0 <= k < a.drop_last().len() ==> 'A' <= #[trigger] a.drop_last()[k] <= 'Z');
            lemma_letters_of_value(a.drop_last());
        }
        if !big {
            let v: u64 = acc * 26 + (c as u64 - 64);
            if v > 4294967296 {
                big = true;
            } else {
                acc = v;
            }
        }
        i = i + 1;
    }
    proof {
        assert(letters@.subrange(0, n as int) =~= letters@);
    }
    if big {
        None
    } else {
        Some(letter_to_index(letters.as_str()))
    }
}

/// The zero-based row of a one-based row number, or `None` where no `usize` holds it.
fn row_of(n: i64) -> (r: Option<usize>)
    ensures
        r == (if 1 <= n && n - 1 <= usize::MAX {
            Some((n - 1) as usize)
        } else {
            None::<usize>
        }),
{
    if n >= 1 && ((n - 1) as u64) <= (usize::MAX as u64) {
        Some((n - 1) as usize)
    } else {
        None
    }
}

/// Reads the rest of a range whose first corner's letters `c1` stand at `p`
/// and whose row number `n1` follows them.
fn parse_range(tokens: &Vec<Token>, p: usize, c1: &String, n1: i64) -> (r: Result<
    (Formula, usize),
    ParseError,
>)
    requires
        p + 1 < tokens.len(),
    ensures
        expr_result_model(r) == parse_range_at(tokens_model(tokens@), p as int, c1@, n1),
        r is Ok ==> p < r->Ok_0.1 <= tokens.len(),
{
    let ghost t = tokens_model(tokens@);
    let len = tokens.len();
    if !(p + 2 < len && matches!(tokens[p + 2], Token::Colon)) {
        return Err(ParseError::Unexpected { expected: Expectation::Colon, position: p + 2 });
    }
    proof {
        assert(t[p + 2] == token_model(tokens@[p + 2]));
    }
    if p + 3 >= len {
        return Err(ParseError::Unexpected { expected: Expectation::ColumnLetters, position: p + 3 });
    }
    proof {
        assert(t[p + 3] == token_model(tokens@[p + 3]));
    }
    let c2: &String = match &tokens[p + 3] {
        Token::Identifier(c2) => c2,
        _ => {
            return Err(
                ParseError::Unexpected { expected: Expectation::ColumnLetters, position: p + 3 },
            );
        },
    };
    if p + 4 >= len {
        return Err(ParseError::Unexpected { expected: Expectation::RowNumber, position: p + 4 });
    }
    proof {
        assert(t[p + 4] == token_model(tokens@[p + 4]));
    }
    let n2: i64 = match &tokens[p + 4] {
        Token::Number(n2) => *n2,
        _ => {
            return Err(
                ParseError::Unexpected { expected: Expectation::RowNumber, position: p + 4 },
            );
        },
    };
    let col1 = column_of(c1);
    let row1 = row_of(n1);
    if col1.is_none() || row1.is_none() {
        return Err(ParseError::Unsupported { position: p });
    }
    let col2 = column_of(c2);
    let row2 = row_of(n2);
    if col2.is_none() || row2.is_none() {
        return Err(ParseError::Unsupported { position: p + 3 });
    }
    let (col1, row1, col2, row2) = (
        col1.unwrap() as usize,
        row1.unwrap(),
        col2.unwrap() as usize,
        row2.unwrap(),
    );
    if col1 > col2 || row1 > row2 {
        proof {
            lemma_letters_of_value(c1@);
            lemma_letters_of_value(c2@);
            assert(t[p + 3]->Identifier_0 == c2@);
            assert(t[p + 4]->Number_0 == n2);
        }
        return Err(ParseError::Reversed { position: p });
    }
    let range = Range::new((col1, row1), (col2, row2));
    proof {
        lemma_letters_of_value(c1@);
        lemma_letters_of_value(c2@);
        assert(t[p + 3]->Identifier_0 == c2@);
        assert(t[p + 4]->Number_0 == n2);
        assert(range.start == corner(c1@, n1));
        assert(range.end == corner(c2@, n2));
        assert(range == Range { start: corner(c1@, n1), end: corner(c2@, n2) });
    }
    Ok((Formula::Range(range), p + 5))
}

/// Reads the expression that starts at token `p`; on success also gives the
/// position just past it.
fn parse_expr(tokens: &Vec<Token>, p: usize) -> (r: Result<(Formula, usize), ParseError>)
    requires
        p <= tokens.len(),
    ensures
        expr_result_model(r) == parse_expr_at(tokens_model(tokens@), p as int),
        r is Ok ==> p < r->Ok_0.1 <= tokens.len(),
    decreases tokens.len() - p, 0int,
{
    let ghost t = tokens_model(tokens@);
    let len = tokens.len();
    if p >= len {
        return Err(ParseError::Unexpected { expected: Expectation::Expression, position: p });
    }
    proof {
        assert(t[p as int] == token_model(tokens@[p as int]));
        if p + 1 < len {
            assert(t[p + 1] == token_model(tokens@[p + 1]));
        }
        if p + 2 < len {
            assert(t[p + 2] == token_model(tokens@[p + 2]));
        }
    }
    match &tokens[p] {
        Token::Identifier(name) => {
            if p + 1 < len && matches!(tokens[p + 1], Token::LParen) {
                if p + 2 < len && matches!(tokens[p + 2], Token::RParen) {
                    let none: Vec<Formula> = Vec::new();
                    proof {
                        assert(args_model(none@) =~= Seq::<Expr>::empty());
                    }
                    Ok((Formula::Function(name.clone(), none), p + 3))
                } else {
                    let acc: Vec<Formula> = Vec::new();
                    proof {
                        assert(args_model(acc@) =~= Seq::<Expr>::empty());
                    }
                    match parse_args(tokens, p + 2, acc) {
                        Ok((args, q)) => Ok((Formula::Function(name.clone(), args), q)),
                        Err(e) => Err(e),
                    }
                }
            } else if p + 1 < len && matches!(tokens[p + 1], Token::Number(_)) {
                let n1: i64 = match &tokens[p + 1] {
                    Token::Number(n1) => *n1,
                    _ => 0,
                };
                parse_range(tokens, p, name, n1)
            } else {
                Err(ParseError::Unexpected { expected: Expectation::OpenParenOrRow, position: p + 1 })
            }
        },
        Token::String(text) => Ok((Formula::Text(text.clone()), p + 1)),
        _ => Err(ParseError::Unexpected { expected: Expectation::Expression, position: p }),
    }
}

/// Reads arguments from token `p` up to and past the closing `)`, after the
/// arguments `acc` already read.
fn parse_args(tokens: &Vec<Token>, p: usize, acc: Vec<Formula>) -> (r: Result<
    (Vec<Formula>, usize),
    ParseError,
>)
    requires
        p <= tokens.len(),
    ensures
        args_result_model(r) == parse_args_at(tokens_model(tokens@), p as int, args_model(acc@)),
        r is Ok ==> p < r->Ok_0.1 <= tokens.len(),
    decreases tokens.len() - p, 1int,
{
    let ghost t = tokens_model(tokens@);
    let mut acc = acc;
    match parse_expr(tokens, p) {
        Err(e) => Err(e),
        Ok((f, q)) => {
            let ghost before = acc@;
            let ghost gf = formula_model(f);
            acc.push(f);
            proof {
                assert(acc@.drop_last() =~= before);
                assert(args_model(acc@) == args_model(before).push(gf));
            }
            if q < tokens.len() {
                proof {
                    assert(t[q as int] == token_model(tokens@[q as int]));
                }
                match &tokens[q] {
                    Token::Comma => parse_args(tokens, q + 1, acc),
                    Token::RParen => Ok((acc, q + 1)),
                    _ => Err(
                        ParseError::Unexpected {
                            expected: Expectation::CommaOrCloseParen,
                            position: q,
                        },
                    ),
                }
            } else {
                Err(ParseError::Unexpected { expected: Expectation::CommaOrCloseParen, position: q })
            }
        },
    }
}

/// Parsing depends on the text alone: two results of parsing the same text
/// are equal in structure.
pub proof fn lemma_parse_deterministic(
    s: Seq<char>,
    r1: Result<Cell, ParseError>,
    r2: Result<Cell, ParseError>,
)
    requires
        cell_result_model(r1) == parsed_cell(s),
        cell_result_model(r2) == parsed_cell(s),
    ensures
        cell_result_model(r1) == cell_result_model(r2),
{
}

/// Parses a cell's text: a formula where its first token is `=`, the quoted
/// text where its first token is a quoted text, else the text itself.
pub fn parse(s: &str) -> (r: Result<Cell, ParseError>)
    ensures
        cell_result_model(r) == parsed_cell(s@),
{
    let toks = lex(s);
    if toks.len() > 0 && matches!(toks[0], Token::Equals) {
        proof {
            assert(tokens_model(toks@)[0] == token_model(toks@[0]));
        }
        match parse_expr(&toks, 1) {
            Ok((f, _)) => Ok(Cell::Formula(f)),
            Err(e) => Err(e),
        }
    } else {
        proof {
            if toks.len() > 0 {
                assert(tokens_model(toks@)[0] == token_model(toks@[0]));
            }
        }
        if toks.len() > 0 {
            if let Token::String(text) = &toks[0] {
                return Ok(Cell::Text(text.clone()));
            }
        }
        Ok(Cell::Text(s.to_owned()))
    }
}

} // verus!
