use vstd::prelude::*;
use vstd::string::StrSliceExecFns;

verus! {

/// A lexical unit of the language.
#[derive(Debug)]
pub enum Token {
    Identifier(String),
    StringLiteral(String),
    IntegerLiteral(i64),
    TypeString,
    TypeInteger,
    TypeUnknown,
    TypeTrue,
    TypeFalse,
    LeftBracket,
    RightBracket,
    LeftBrace,
    RightBrace,
    LeftParen,
    RightParen,
    Equals,
    NotEquals,
    Colon,
    Comma,
    If,
    Func,
    Comment(String),
    EOF,
}

/// The mathematical model of a token: text is a sequence of characters.
pub ghost enum SToken {
    Identifier(Seq<char>),
    StringLiteral(Seq<char>),
    IntegerLiteral(i64),
    TypeString,
    TypeInteger,
    TypeUnknown,
    TypeTrue,
    TypeFalse,
    LeftBracket,
    RightBracket,
    LeftBrace,
    RightBrace,
    LeftParen,
    RightParen,
    Equals,
    NotEquals,
    Colon,
    Comma,
    If,
    Func,
    Comment(Seq<char>),
    EOF,
}

impl View for Token {
    type V = SToken;

    open spec fn view(&self) -> SToken {
        match self {
            Token::Identifier(s) => SToken::Identifier(s@),
            Token::StringLiteral(s) => SToken::StringLiteral(s@),
            Token::IntegerLiteral(i) => SToken::IntegerLiteral(*i),
            Token::TypeString => SToken::TypeString,
            Token::TypeInteger => SToken::TypeInteger,
            Token::TypeUnknown => SToken::TypeUnknown,
            Token::TypeTrue => SToken::TypeTrue,
            Token::TypeFalse => SToken::TypeFalse,
            Token::LeftBracket => SToken::LeftBracket,
            Token::RightBracket => SToken::RightBracket,
            Token::LeftBrace => SToken::LeftBrace,
            Token::RightBrace => SToken::RightBrace,
            Token::LeftParen => SToken::LeftParen,
            Token::RightParen => SToken::RightParen,
            Token::Equals => SToken::Equals,
            Token::NotEquals => SToken::NotEquals,
            Token::Colon => SToken::Colon,
            Token::Comma => SToken::Comma,
            Token::If => SToken::If,
            Token::Func => SToken::Func,
            Token::Comment(s) => SToken::Comment(s@),
            Token::EOF => SToken::EOF,
        }
    }
}

impl Token {
    /// A copy of the token, equal in its model.
    pub fn copy(&self) -> (r: Token)
        ensures
            r@ == self@,
    {
        match self {
            Token::Identifier(s) => Token::Identifier(s.clone()),
            Token::StringLiteral(s) => Token::StringLiteral(s.clone()),
            Token::IntegerLiteral(i) => Token::IntegerLiteral(*i),
            Token::TypeString => Token::TypeString,
            Token::TypeInteger => Token::TypeInteger,
            Token::TypeUnknown => Token::TypeUnknown,
            Token::TypeTrue => Token::TypeTrue,
            Token::TypeFalse => Token::TypeFalse,
            Token::LeftBracket => Token::LeftBracket,
            Token::RightBracket => Token::RightBracket,
            Token::LeftBrace => Token::LeftBrace,
            Token::RightBrace => Token::RightBrace,
            Token::LeftParen => Token::LeftParen,
            Token::RightParen => Token::RightParen,
            Token::Equals => Token::Equals,
            Token::NotEquals => Token::NotEquals,
            Token::Colon => Token::Colon,
            Token::Comma => Token::Comma,
            Token::If => Token::If,
            Token::Func => Token::Func,
            Token::Comment(s) => Token::Comment(s.clone()),
            Token::EOF => Token::EOF,
        }
    }

    /// Whether two tokens are equal in their model.
    pub fn same(&self, other: &Token) -> (r: bool)
        ensures
            r == (self@ == other@),
    {
        match (self, other) {
            (Token::Identifier(a), Token::Identifier(b)) => *a == *b,
            (Token::StringLiteral(a), Token::StringLiteral(b)) => *a == *b,
            (Token::IntegerLiteral(a), Token::IntegerLiteral(b)) => *a == *b,
            (Token::Comment(a), Token::Comment(b)) => *a == *b,
            (Token::TypeString, Token::TypeString) => true,
            (Token::TypeInteger, Token::TypeInteger) => true,
            (Token::TypeUnknown, Token::TypeUnknown) => true,
            (Token::TypeTrue, Token::TypeTrue) => true,
            (Token::TypeFalse, Token::TypeFalse) => true,
            (Token::LeftBracket, Token::LeftBracket) => true,
            (Token::RightBracket, Token::RightBracket) => true,
            (Token::LeftBrace, Token::LeftBrace) => true,
            (Token::RightBrace, Token::RightBrace) => true,
            (Token::LeftParen, Token::LeftParen) => true,
            (Token::RightParen, Token::RightParen) => true,
            (Token::Equals, Token::Equals) => true,
            (Token::NotEquals, Token::NotEquals) => true,
            (Token::Colon, Token::Colon) => true,
            (Token::Comma, Token::Comma) => true,
            (Token::If, Token::If) => true,
            (Token::Func, Token::Func) => true,
            (Token::EOF, Token::EOF) => true,
            _ => false,
        }
    }
}


/// Unicode's `White_Space` property: tab to carriage return, space, next line,
/// no-break space, Ogham space mark, the spaces from en quad to hair space, line
/// and paragraph separators, narrow no-break space, medium mathematical space
/// and ideographic space.
pub open spec fn is_white_space(c: char) -> bool {
    ('\u{9}' <= c && c <= '\u{d}') || c == ' ' || c == '\u{85}' || c == '\u{a0}' || c == '\u{1680}'
        || ('\u{2000}' <= c && c <= '\u{200a}') || c == '\u{2028}' || c == '\u{2029}'
        || c == '\u{202f}' || c == '\u{205f}' || c == '\u{3000}'
}

/// Whether `char::is_alphabetic` holds of a character beyond ASCII (Unicode `Alphabetic`).
pub uninterp spec fn alphabetic_of(c: char) -> bool;

/// Whether `char::is_numeric` holds of a character beyond ASCII (Unicode general
/// categories `Nd`, `Nl`, `No`).
pub uninterp spec fn numeric_of(c: char) -> bool;

/// `char::is_alphabetic`: within ASCII exactly the letters `a` to `z` and `A` to `Z`.
pub open spec fn is_alpha(c: char) -> bool {
    if c <= '\u{7f}' {
        ('a' <= c && c <= 'z') || ('A' <= c && c <= 'Z')
    } else {
        alphabetic_of(c)
    }
}

/// `char::is_numeric`: within ASCII exactly the digits `0` to `9`.
pub open spec fn is_num(c: char) -> bool {
    if c <= '\u{7f}' {
        '0' <= c && c <= '9'
    } else {
        numeric_of(c)
    }
}

/// Relies on `char::is_whitespace`, which holds exactly of the characters with
/// Unicode's `White_Space` property, to skip whitespace between tokens and to trim
/// comment text.
#[verifier::external_body]
fn is_space(c: char) -> (r: bool)
    ensures
        r == is_white_space(c),
{
    c.is_whitespace()
}

/// Relies on `char::is_alphabetic` (a function of the character alone, which
/// within ASCII holds of the letters only) to find where words start and which
/// characters they hold.
#[verifier::external_body]
fn is_letter(c: char) -> (r: bool)
    ensures
        c <= '\u{7f}' ==> r == (('a' <= c && c <= 'z') || ('A' <= c && c <= 'Z')),
        c > '\u{7f}' ==> r == alphabetic_of(c),
{
    c.is_alphabetic()
}

/// Relies on `char::is_numeric` (a function of the character alone, which within
/// ASCII holds of the digits only) for the characters that words hold besides
/// letters and `_`.
#[verifier::external_body]
fn is_numeral(c: char) -> (r: bool)
    ensures
        c <= '\u{7f}' ==> r == ('0' <= c && c <= '9'),
        c > '\u{7f}' ==> r == numeric_of(c),
{
    c.is_numeric()
}

/// A character of an identifier: alphanumeric (alphabetic or numeric) or `_`.
pub open spec fn is_ident_char(c: char) -> bool {
    is_alpha(c) || is_num(c) || c == '_'
}

pub open spec fn is_decimal_digit(c: char) -> bool {
    '0' <= c && c <= '9'
}

/// The classes of characters over which the lexer scans maximal runs.
pub enum CharClass {
    Space,
    Word,
    Digit,
    LineText,
    LiteralBody,
}

pub open spec fn in_class(k: CharClass, c: char) -> bool {
    match k {
        CharClass::Space => is_white_space(c),
        CharClass::Word => is_ident_char(c),
        CharClass::Digit => is_decimal_digit(c),
        CharClass::LineText => c != '\n' && c != '\r',
        CharClass::LiteralBody => c != ')',
    }
}

fn class_holds(k: &CharClass, c: char) -> (r: bool)
    ensures
        r == in_class(*k, c),
{
    match k {
        CharClass::Space => is_space(c),
        CharClass::Word => is_letter(c) || is_numeral(c) || c == '_',
        CharClass::Digit => '0' <= c && c <= '9',
        CharClass::LineText => c != '\n' && c != '\r',
        CharClass::LiteralBody => c != ')',
    }
}

/// The end of the maximal run of characters of class `k` that starts at `p`.
pub open spec fn run_end(s: Seq<char>, p: int, k: CharClass) -> int
    decreases s.len() - p,
{
    if 0 <= p < s.len() && in_class(k, s[p]) {
        run_end(s, p + 1, k)
    } else {
        p
    }
}

pub proof fn lemma_run_end_bounds(s: Seq<char>, p: int, k: CharClass)
    requires
        0 <= p <= s.len(),
    ensures
        p <= run_end(s, p, k) <= s.len(),
    decreases s.len() - p,
{
    if p < s.len() && in_class(k, s[p]) {
        lemma_run_end_bounds(s, p + 1, k);
    }
}

/// The end of `t[lo..q]` once trailing whitespace is removed.
pub open spec fn trim_back(t: Seq<char>, lo: int, q: int) -> int
    decreases q - lo,
{
    if lo < q <= t.len() && is_white_space(t[q - 1]) {
        trim_back(t, lo, q - 1)
    } else {
        q
    }
}

/// `t` without leading and trailing whitespace.
pub open spec fn trimmed(t: Seq<char>) -> Seq<char> {
    let a = run_end(t, 0, CharClass::Space);
    t.subrange(a, trim_back(t, a, t.len() as int))
}

pub open spec fn digit_value(c: char) -> int {
    (c as int) - ('0' as int)
}

/// The number that a sequence of decimal digits denotes.
pub open spec fn digits_value(d: Seq<char>) -> int
    decreases d.len(),
{
    if d.len() == 0 {
        0
    } else {
        digits_value(d.drop_last()) * 10 + digit_value(d.last())
    }
}

pub open spec fn all_digits(d: Seq<char>) -> bool {
    forall|i: int| 0 <= i < d.len() ==> is_decimal_digit(#[trigger] d[i])
}

/// What reading `t` as a 64-bit signed integer gives: an optional sign, then
/// at least one decimal digit, in range.
pub open spec fn parse_i64(t: Seq<char>) -> Option<i64> {
    let signed = t.len() > 0 && (t[0] == '-' || t[0] == '+');
    let d = if signed { t.drop_first() } else { t };
    let v = if t.len() > 0 && t[0] == '-' { -digits_value(d) } else { digits_value(d) };
    if d.len() > 0 && all_digits(d) && i64::MIN <= v <= i64::MAX {
        Some(v as i64)
    } else {
        None
    }
}

/// The integer that an integer literal's text gives: unreadable text gives zero.
pub open spec fn literal_value(t: Seq<char>) -> i64 {
    match parse_i64(t) {
        Some(v) => v,
        None => 0,
    }
}

proof fn lemma_digits_monotone(d: Seq<char>, k: int, n: int)
    requires
        0 <= k <= n <= d.len(),
        all_digits(d),
    ensures
        0 <= digits_value(d.subrange(0, k)) <= digits_value(d.subrange(0, n)),
    decreases n - k,
{
    if k < n {
        lemma_digits_monotone(d, k, n - 1);
        assert(d.subrange(0, n).drop_last() =~= d.subrange(0, n - 1));
        assert(is_decimal_digit(d[n - 1]));
    } else {
        lemma_digits_nonneg(d.subrange(0, k));
    }
}

proof fn lemma_digits_nonneg(d: Seq<char>)
    requires
        all_digits(d),
    ensures
        digits_value(d) >= 0,
    decreases d.len(),
{
    if d.len() > 0 {
        assert(all_digits(d.drop_last()));
        lemma_digits_nonneg(d.drop_last());
        assert(is_decimal_digit(d[d.len() - 1]));
    }
}

const TWO_POW_63: u128 = 9223372036854775808;

/// Reads `s[start..end]` as a 64-bit signed integer.
pub fn parse_integer(s: &Vec<char>, start: usize, end: usize) -> (r: Option<i64>)
    requires
        start <= end <= s.len(),
    ensures
        r == parse_i64(s@.subrange(start as int, end as int)),
{
    let ghost t = s@.subrange(start as int, end as int);
    let mut i: usize = start;
    let neg = start < end && s[start] == '-';
    if start < end && (s[start] == '-' || s[start] == '+') {
        i = start + 1;
    }
    let ghost d = s@.subrange(i as int, end as int);
    assert(t.len() > 0 && (t[0] == '-' || t[0] == '+') ==> d =~= t.drop_first());
    assert(!(t.len() > 0 && (t[0] == '-' || t[0] == '+')) ==> d =~= t);
    assert(d.subrange(0, 0) =~= Seq::<char>::empty());
    if i == end {
        return None;
    }
    let first = i;
    let mut acc: u128 = 0;
    while i < end
        invariant
            first <= i <= end <= s.len(),
            d == s@.subrange(first as int, end as int),
            t == s@.subrange(start as int, end as int),
            t.len() > 0 && (t[0] == '-' || t[0] == '+') ==> d == t.drop_first(),
            !(t.len() > 0 && (t[0] == '-' || t[0] == '+')) ==> d == t,
            neg == (t.len() > 0 && t[0] == '-'),
            acc <= TWO_POW_63,
            acc as int == digits_value(d.subrange(0, i - first)),
            all_digits(d.subrange(0, i - first)),
        decreases end - i,
    {
        let c = s[i];
        if !('0' <= c && c <= '9') {
            assert(d[i - first] == c);
            assert(!all_digits(d));
            return None;
        }
        let ghost pre = d.subrange(0, i - first);
        assert(d.subrange(0, i + 1 - first).drop_last() =~= pre);
        assert(d.subrange(0, i + 1 - first).last() == c);
        acc = acc * 10 + (c as u128 - '0' as u128);
        assert(all_digits(d.subrange(0, i + 1 - first))) by {
            assert forall|j: int| 0 <= j < i + 1 - first implies is_decimal_digit(
                #[trigger] d.subrange(0, i + 1 - first)[j],
            ) by {
                if j < i - first {
                    assert(d.subrange(0, i + 1 - first)[j] == pre[j]);
                }
            }
        }
        i = i + 1;
        if acc > TWO_POW_63 {
            proof {
                if all_digits(d) {
                    lemma_digits_monotone(d, i - first, d.len() as int);
                    assert(d.subrange(0, d.len() as int) =~= d);
                    assert(digits_value(d) > TWO_POW_63);
                }
            }
            return None;
        }
    }
    assert(d.subrange(0, i - first) =~= d);
    if neg {
        Some((0 - (acc as i128)) as i64)
    } else if acc <= 9223372036854775807 {
        Some(acc as i64)
    } else {
        None
    }
}

/// The token that a word (a maximal identifier run) stands for.
pub open spec fn word_token(w: Seq<char>) -> SToken {
    if w == "String"@ {
        SToken::TypeString
    } else if w == "Integer"@ {
        SToken::TypeInteger
    } else if w == "True"@ {
        SToken::TypeTrue
    } else if w == "False"@ {
        SToken::TypeFalse
    } else if w == "Unknown"@ {
        SToken::TypeUnknown
    } else if w == "if"@ {
        SToken::If
    } else if w == "func"@ {
        SToken::Func
    } else {
        SToken::Identifier(w)
    }
}

/// How many characters of ` not` stand in `s` from `p` on.
pub open spec fn not_prefix_len(s: Seq<char>, p: int) -> int {
    if p < s.len() && s[p] == ' ' {
        if p + 1 < s.len() && s[p + 1] == 'n' {
            if p + 2 < s.len() && s[p + 2] == 'o' {
                if p + 3 < s.len() && s[p + 3] == 't' {
                    4
                } else {
                    3
                }
            } else {
                2
            }
        } else {
            1
        }
    } else {
        0
    }
}

/// The end of a parenthesised literal body whose `(` stands at `e`, closing `)` consumed.
pub open spec fn literal_close(s: Seq<char>, e: int) -> int {
    let b = run_end(s, e + 1, CharClass::LiteralBody);
    if b < s.len() {
        b + 1
    } else {
        b
    }
}

/// A word starting with a letter at `p`, where `String(...)` and `Integer(...)`
/// are literals whose body is raw text up to the next `)`.
pub open spec fn lex_word(s: Seq<char>, p: int) -> (SToken, int) {
    let e = run_end(s, p, CharClass::Word);
    let w = s.subrange(p, e);
    let body = s.subrange(e + 1, run_end(s, e + 1, CharClass::LiteralBody));
    if e < s.len() && s[e] == '(' && w == "String"@ {
        (SToken::StringLiteral(body), literal_close(s, e))
    } else if e < s.len() && s[e] == '(' && w == "Integer"@ {
        (SToken::IntegerLiteral(literal_value(body)), literal_close(s, e))
    } else {
        (word_token(w), e)
    }
}

/// The token that starts at `i`: `is`, `is not`, or a word that starts with `i`.
pub open spec fn lex_i(s: Seq<char>, p: int) -> (SToken, int) {
    if p + 1 < s.len() && s[p + 1] == 's' {
        let m = not_prefix_len(s, p + 2);
        if m == 4 {
            (SToken::NotEquals, p + 6)
        } else {
            (SToken::Equals, p + 2 + m)
        }
    } else {
        let e = run_end(s, p + 1, CharClass::Word);
        let w = s.subrange(p, e);
        (if w == "if"@ { SToken::If } else { SToken::Identifier(w) }, e)
    }
}

/// The single-character tokens.
pub open spec fn symbol_token(c: char) -> Option<SToken> {
    if c == '[' {
        Some(SToken::LeftBracket)
    } else if c == ']' {
        Some(SToken::RightBracket)
    } else if c == '{' {
        Some(SToken::LeftBrace)
    } else if c == '}' {
        Some(SToken::RightBrace)
    } else if c == '(' {
        Some(SToken::LeftParen)
    } else if c == ')' {
        Some(SToken::RightParen)
    } else if c == ':' {
        Some(SToken::Colon)
    } else if c == ',' {
        Some(SToken::Comma)
    } else {
        None
    }
}

/// The next token of `s` from position `p` on, and the position after it.
/// Whitespace and unrecognised characters are skipped.
pub open spec fn lex_one(s: Seq<char>, p: int) -> (SToken, int)
    decreases s.len() - p,
{
    if p < 0 || p >= s.len() {
        (SToken::EOF, p)
    } else {
        let c = s[p];
        if is_white_space(c) {
            lex_one(s, p + 1)
        } else if c == '/' && p + 1 < s.len() && s[p + 1] == '/' {
            let e = run_end(s, p + 2, CharClass::LineText);
            (SToken::Comment(trimmed(s.subrange(p + 2, e))), e)
        } else if symbol_token(c) is Some {
            (symbol_token(c)->0, p + 1)
        } else if c == 'i' {
            lex_i(s, p)
        } else if is_alpha(c) {
            lex_word(s, p)
        } else if is_decimal_digit(c) {
            let e = run_end(s, p, CharClass::Digit);
            (SToken::IntegerLiteral(literal_value(s.subrange(p, e))), e)
        } else {
            lex_one(s, p + 1)
        }
    }
}

pub proof fn lemma_lex_one_advances(s: Seq<char>, p: int)
    ensures
        lex_one(s, p).0 != SToken::EOF ==> p < lex_one(s, p).1 <= s.len(),
    decreases s.len() - p,
{
    if 0 <= p < s.len() {
        let c = s[p];
        if is_white_space(c) {
            lemma_lex_one_advances(s, p + 1);
        } else if c == '/' && p + 1 < s.len() && s[p + 1] == '/' {
            lemma_run_end_bounds(s, p + 2, CharClass::LineText);
        } else if symbol_token(c) is Some {
        } else if c == 'i' {
            lemma_run_end_bounds(s, p + 1, CharClass::Word);
        } else if is_alpha(c) {
            lemma_run_end_bounds(s, p + 1, CharClass::Word);
            assert(run_end(s, p, CharClass::Word) == run_end(s, p + 1, CharClass::Word));
            let e = run_end(s, p, CharClass::Word);
            if e < s.len() {
                lemma_run_end_bounds(s, e + 1, CharClass::LiteralBody);
            }
        } else if is_decimal_digit(c) {
            lemma_run_end_bounds(s, p + 1, CharClass::Digit);
            assert(run_end(s, p, CharClass::Digit) == run_end(s, p + 1, CharClass::Digit));
        } else {
            lemma_lex_one_advances(s, p + 1);
        }
    }
}

/// All tokens of `s` from position `p` on, ending with the end-of-input token.
pub open spec fn lex_all(s: Seq<char>, p: int) -> Seq<SToken>
    decreases s.len() - p,
    via lex_all_decreases
{
    let (t, q) = lex_one(s, p);
    if t == SToken::EOF {
        seq![t]
    } else {
        seq![t] + lex_all(s, q)
    }
}

#[via_fn]
proof fn lex_all_decreases(s: Seq<char>, p: int) {
    lemma_lex_one_advances(s, p);
}

/// The models of a sequence of tokens.
pub open spec fn token_views(v: Seq<Token>) -> Seq<SToken> {
    v.map_values(|t: Token| t@)
}

/// Whether `s[a..b]` is the text of `w`.
fn word_is(s: &Vec<char>, a: usize, b: usize, w: &str) -> (r: bool)
    requires
        a <= b <= s.len(),
    ensures
        r == (s@.subrange(a as int, b as int) == w@),
{
    let n = w.unicode_len();
    if b - a != n {
        return false;
    }
    let mut i: usize = 0;
    while i < n
        invariant
            n == w@.len(),
            b - a == n,
            a <= b <= s.len(),
            i <= n,
            forall|j: int| 0 <= j < i ==> s@[a + j] == w@[j],
        decreases n - i,
    {
        if s[a + i] != w.get_char(i) {
            assert(s@.subrange(a as int, b as int)[i as int] != w@[i as int]);
            return false;
        }
        i = i + 1;
    }
    assert(s@.subrange(a as int, b as int) =~= w@);
    true
}

/// The characters of a string.
pub fn chars_of(text: &str) -> (r: Vec<char>)
    ensures
        r@ == text@,
{
    let n = text.unicode_len();
    let mut r: Vec<char> = Vec::new();
    let mut i: usize = 0;
    while i < n
        invariant
            n == text@.len(),
            i <= n,
            r@ == text@.subrange(0, i as int),
        decreases n - i,
    {
        r.push(text.get_char(i));
        i = i + 1;
        assert(r@ =~= text@.subrange(0, i as int));
    }
    assert(r@ =~= text@);
    r
}

/// Converts source text into tokens, one at a time.
pub struct Lexer {
    source: String,
    chars: Vec<char>,
    pos: usize,
}

impl Lexer {
    /// The text being scanned.
    pub closed spec fn input(&self) -> Seq<char> {
        self.chars@
    }

    /// The position of the next character to scan.
    pub closed spec fn position(&self) -> int {
        self.pos as int
    }

    pub closed spec fn wf(&self) -> bool {
        self.source@ == self.chars@ && self.pos <= self.chars.len()
    }

    pub fn new(input: &str) -> (r: Lexer)
        ensures
            r.wf(),
            r.input() == input@,
            r.position() == 0,
    {
        Lexer { source: input.to_owned(), chars: chars_of(input), pos: 0 }
    }

    /// The end of the run of class `k` from the current position on.
    fn scan(&self, from: usize, k: CharClass) -> (r: usize)
        requires
            self.wf(),
            from <= self.chars.len(),
        ensures
            r == run_end(self.chars@, from as int, k),
    {
        let mut i = from;
        while i < self.chars.len() && class_holds(&k, self.chars[i])
            invariant
                self.wf(),
                from <= i <= self.chars.len(),
                run_end(self.chars@, i as int, k) == run_end(self.chars@, from as int, k),
            decreases self.chars.len() - i,
        {
            i = i + 1;
        }
        i
    }

    /// The text `input[a..b]` as a string.
    fn text(&self, a: usize, b: usize) -> (r: String)
        requires
            self.wf(),
            a <= b <= self.chars.len(),
        ensures
            r@ == self.chars@.subrange(a as int, b as int),
    {
        self.source.as_str().substring_char(a, b).to_owned()
    }

    /// `input[a..b]` without leading and trailing whitespace, as a string.
    fn trimmed_text(&self, a: usize, b: usize) -> (r: String)
        requires
            self.wf(),
            a <= b <= self.chars.len(),
        ensures
            r@ == trimmed(self.chars@.subrange(a as int, b as int)),
    {
        let ghost t = self.chars@.subrange(a as int, b as int);
        let mut lo = a;
        while lo < b && is_space(self.chars[lo])
            invariant
                self.wf(),
                a <= lo <= b <= self.chars.len(),
                t == self.chars@.subrange(a as int, b as int),
                run_end(t, lo - a, CharClass::Space) == run_end(t, 0, CharClass::Space),
            decreases b - lo,
        {
            lo = lo + 1;
        }
        let ghost start = lo - a;
        let mut hi = b;
        while hi > lo && is_space(self.chars[hi - 1])
            invariant
                self.wf(),
                a <= lo <= hi <= b <= self.chars.len(),
                t == self.chars@.subrange(a as int, b as int),
                start == lo - a,
                trim_back(t, start, hi - a) == trim_back(t, start, t.len() as int),
            decreases hi - lo,
        {
            hi = hi - 1;
        }
        assert(t.subrange(lo - a, hi - a) =~= self.chars@.subrange(lo as int, hi as int));
        self.text(lo, hi)
    }

    /// Reads the token that starts with `i` at the current position.
    fn read_i(&mut self) -> (r: Token)
        requires
            old(self).wf(),
            old(self).pos < old(self).chars.len(),
            old(self).chars[old(self).pos as int] == 'i',
        ensures
            final(self).wf(),
            final(self).chars == old(self).chars,
            (r@, final(self).pos as int) == lex_i(old(self).chars@, old(self).pos as int),
    {
        let s = &self.chars;
        let p = self.pos;
        let n = s.len();
        if p + 1 < n && s[p + 1] == 's' {
            let mut q = p + 2;
            if q < n && s[q] == ' ' {
                q = q + 1;
                if q < n && s[q] == 'n' {
                    q = q + 1;
                    if q < n && s[q] == 'o' {
                        q = q + 1;
                        if q < n && s[q] == 't' {
                            self.pos = q + 1;
                            return Token::NotEquals;
                        }
                    }
                }
            }
            self.pos = q;
            Token::Equals
        } else {
            let e = self.scan(p + 1, CharClass::Word);
            proof {
                lemma_run_end_bounds(self.chars@, p + 1, CharClass::Word);
            }
            let r = if word_is(&self.chars, p, e, "if") {
                Token::If
            } else {
                Token::Identifier(self.text(p, e))
            };
            self.pos = e;
            r
        }
    }

    /// Reads a word, or a `String(...)` / `Integer(...)` literal, at the current position.
    fn read_type_value(&mut self) -> (r: Token)
        requires
            old(self).wf(),
            old(self).pos < old(self).chars.len(),
        ensures
            final(self).wf(),
            final(self).chars == old(self).chars,
            (r@, final(self).pos as int) == lex_word(old(self).chars@, old(self).pos as int),
    {
        let p = self.pos;
        let e = self.scan(p, CharClass::Word);
        proof {
            lemma_run_end_bounds(self.chars@, p as int, CharClass::Word);
        }
        let n = self.chars.len();
        if e < n && self.chars[e] == '(' {
            let is_string = word_is(&self.chars, p, e, "String");
            let is_integer = word_is(&self.chars, p, e, "Integer");
            if is_string || is_integer {
                let b = self.scan(e + 1, CharClass::LiteralBody);
                proof {
                    lemma_run_end_bounds(self.chars@, e + 1, CharClass::LiteralBody);
                }
                self.pos = if b < n {
                    b + 1
                } else {
                    b
                };
                if is_string {
                    return Token::StringLiteral(self.text(e + 1, b));
                } else {
                    let v = match parse_integer(&self.chars, e + 1, b) {
                        Some(v) => v,
                        None => 0,
                    };
                    return Token::IntegerLiteral(v);
                }
            }
        }
        self.pos = e;
        if word_is(&self.chars, p, e, "String") {
            Token::TypeString
        } else if word_is(&self.chars, p, e, "Integer") {
            Token::TypeInteger
        } else if word_is(&self.chars, p, e, "True") {
            Token::TypeTrue
        } else if word_is(&self.chars, p, e, "False") {
            Token::TypeFalse
        } else if word_is(&self.chars, p, e, "Unknown") {
            Token::TypeUnknown
        } else if word_is(&self.chars, p, e, "if") {
            Token::If
        } else if word_is(&self.chars, p, e, "func") {
            Token::Func
        } else {
            Token::Identifier(self.text(p, e))
        }
    }

    /// Scans the next token; at the end of the input, the end-of-input token.
    pub fn next_token(&mut self) -> (r: Token)
        requires
            old(self).wf(),
        ensures
            final(self).wf(),
            final(self).input() == old(self).input(),
            (r@, final(self).position()) == lex_one(old(self).input(), old(self).position()),
    {
        let ghost s = self.chars@;
        let ghost start = self.pos as int;
        loop
            invariant
                self.wf(),
                self.chars@ == s,
                s == old(self).chars@,
                start == old(self).pos,
                lex_one(s, self.pos as int) == lex_one(s, start),
            decreases s.len() - self.pos,
        {
            let n = self.chars.len();
            let p = self.pos;
            if p >= n {
                return Token::EOF;
            }
            let c = self.chars[p];
            if is_space(c) {
                self.pos = p + 1;
            } else if c == '/' && p + 1 < n && self.chars[p + 1] == '/' {
                let e = self.scan(p + 2, CharClass::LineText);
                proof {
                    lemma_run_end_bounds(s, p + 2, CharClass::LineText);
                }
                let text = self.trimmed_text(p + 2, e);
                self.pos = e;
                return Token::Comment(text);
            } else if c == '[' {
                self.pos = p + 1;
                return Token::LeftBracket;
            } else if c == ']' {
                self.pos = p + 1;
                return Token::RightBracket;
            } else if c == '{' {
                self.pos = p + 1;
                return Token::LeftBrace;
            } else if c == '}' {
                self.pos = p + 1;
                return Token::RightBrace;
            } else if c == '(' {
                self.pos = p + 1;
                return Token::LeftParen;
            } else if c == ')' {
                self.pos = p + 1;
                return Token::RightParen;
            } else if c == ':' {
                self.pos = p + 1;
                return Token::Colon;
            } else if c == ',' {
                self.pos = p + 1;
                return Token::Comma;
            } else if c == 'i' {
                return self.read_i();
            } else if is_letter(c) {
                return self.read_type_value();
            } else if '0' <= c && c <= '9' {
                let e = self.scan(p, CharClass::Digit);
                proof {
                    lemma_run_end_bounds(s, p as int, CharClass::Digit);
                }
                let v = match parse_integer(&self.chars, p, e) {
                    Some(v) => v,
                    None => 0,
                };
                self.pos = e;
                return Token::IntegerLiteral(v);
            } else {
                self.pos = p + 1;
            }
        }
    }

    /// Scans all remaining tokens, the last of them the end-of-input token.
    pub fn tokenize(&mut self) -> (r: Vec<Token>)
        requires
            old(self).wf(),
        ensures
            final(self).wf(),
            final(self).input() == old(self).input(),
            token_views(r@) == lex_all(old(self).input(), old(self).position()),
    {
        let ghost s = self.chars@;
        let ghost start = self.pos as int;
        let mut tokens: Vec<Token> = Vec::new();
        loop
            invariant
                self.wf(),
                self.chars@ == s,
                s == old(self).chars@,
                start == old(self).pos,
                token_views(tokens@) + lex_all(s, self.pos as int) == lex_all(s, start),
            decreases s.len() - self.pos,
        {
            let ghost p = self.pos as int;
            let token = self.next_token();
            proof {
                lemma_lex_one_advances(s, p);
            }
            if let Token::EOF = token {
                tokens.push(token);
                assert(token_views(tokens@) =~= lex_all(s, start));
                return tokens;
            }
            let ghost before = token_views(tokens@);
            tokens.push(token);
            assert(token_views(tokens@) =~= before.push(token@));
            assert(lex_all(s, p) == seq![token@] + lex_all(s, self.pos as int));
            assert(token_views(tokens@) + lex_all(s, self.pos as int) =~= before + lex_all(s, p));
        }
    }
}

/// Tokenizing is deterministic: any two token sequences that tokenizing the
/// same text may give are the same.
pub proof fn lemma_tokenize_deterministic(a: Seq<char>, b: Seq<char>, ta: Seq<Token>, tb: Seq<Token>)
    requires
        a == b,
        token_views(ta) == lex_all(a, 0),
        token_views(tb) == lex_all(b, 0),
    ensures
        token_views(ta) == token_views(tb),
{
}

/// Lexing never fails: the tokens of any text end with the end-of-input token,
/// which stands nowhere else.
pub proof fn lemma_lex_all_ends_with_eof(s: Seq<char>, p: int)
    ensures
        lex_all(s, p).len() >= 1,
        lex_all(s, p).last() == SToken::EOF,
        forall|k: int| 0 <= k < lex_all(s, p).len() - 1 ==> lex_all(s, p)[k] != SToken::EOF,
    decreases s.len() - p,
{
    lemma_lex_one_advances(s, p);
    let (t, q) = lex_one(s, p);
    if t != SToken::EOF {
        lemma_lex_all_ends_with_eof(s, q);
        let rest = lex_all(s, q);
        assert(lex_all(s, p) == seq![t] + rest);
        assert forall|k: int| 0 <= k < lex_all(s, p).len() - 1 implies lex_all(s, p)[k] != SToken::EOF by {
            if k > 0 {
                assert(lex_all(s, p)[k] == rest[k - 1]);
            }
        }
    }
}

/// A run ends at the first character outside its class.
pub proof fn lemma_run_end_at(s: Seq<char>, p: int, q: int, k: CharClass)
    requires
        0 <= p <= q <= s.len(),
        forall|j: int| p <= j < q ==> in_class(k, #[trigger] s[j]),
        q == s.len() || !in_class(k, s[q]),
    ensures
        run_end(s, p, k) == q,
    decreases q - p,
{
    if p < q {
        lemma_run_end_at(s, p + 1, q, k);
    }
}

/// `String(`, then any text without `)`, then `)` is one string-literal token
/// holding exactly that text, followed by the end of input: never a type name
/// and an identifier.
pub proof fn lemma_string_literal_token(t: Seq<char>)
    requires
        forall|j: int| 0 <= j < t.len() ==> t[j] != ')',
    ensures
        lex_all("String("@ + t + ")"@, 0) == seq![SToken::StringLiteral(t), SToken::EOF],
{
    reveal_strlit("String(");
    reveal_strlit(")");
    reveal_strlit("String");
    let s = "String("@ + t + ")"@;
    let n = t.len() as int;
    assert(s.len() == n + 8);
    assert(s[0] == 'S' && s[1] == 't' && s[2] == 'r' && s[3] == 'i' && s[4] == 'n' && s[5] == 'g');
    assert(s[6] == '(');
    assert(s[n + 7] == ')');
    assert forall|j: int| 7 <= j < n + 7 implies in_class(CharClass::LiteralBody, #[trigger] s[j]) by {
        assert(s[j] == t[j - 7]);
    }
    lemma_run_end_at(s, 0, 6, CharClass::Word);
    lemma_run_end_at(s, 7, n + 7, CharClass::LiteralBody);
    assert(s.subrange(0, 6) =~= "String"@);
    assert(s.subrange(7, n + 7) =~= t);
    assert(lex_word(s, 0) == (SToken::StringLiteral(t), n + 8));
    assert(lex_one(s, 0) == (SToken::StringLiteral(t), n + 8));
    assert(lex_one(s, n + 8) == (SToken::EOF, n + 8));
    assert(lex_all(s, n + 8) == seq![SToken::EOF]);
    assert(lex_all(s, 0) == seq![SToken::StringLiteral(t)] + seq![SToken::EOF]);
    assert(lex_all(s, 0) =~= seq![SToken::StringLiteral(t), SToken::EOF]);
}

/// Tokenizes a whole source text.
pub fn tokenize_source(source: &str) -> (r: Vec<Token>)
    ensures
        token_views(r@) == lex_all(source@, 0),
{
    let mut lexer = Lexer::new(source);
    lexer.tokenize()
}

} // verus!
