//! The lexical grammar, stated over the characters that lie ahead of the
//! reader: what token they start, how many characters it takes, and which
//! inputs are refused.
use vstd::prelude::*;

use crate::lazy_stream_reader::{spec_len_utf8, ETX, STX};
use crate::text::{all_digits, digits_value};
use crate::tokens::{FloatLiteral, TokenCategory};

verus! {

/// The character `i` places ahead; past the end the reader yields `ETX`.
pub open spec fn at(a: Seq<char>, i: int) -> char {
    if 0 <= i < a.len() {
        a[i]
    } else {
        ETX
    }
}

/// What lies ahead after `n` characters were read.
pub open spec fn after(a: Seq<char>, n: int) -> Seq<char> {
    if n < a.len() {
        a.skip(n)
    } else {
        seq![ETX]
    }
}

/// `char::is_whitespace`: the Unicode `White_Space` characters.
pub open spec fn spec_is_whitespace(c: char) -> bool {
    let u = c as u32;
    (0x9 <= u <= 0xD) || u == 0x20 || u == 0x85 || u == 0xA0 || u == 0x1680 || (0x2000 <= u <= 0x200A)
        || u == 0x2028 || u == 0x2029 || u == 0x202F || u == 0x205F || u == 0x3000
}

pub open spec fn spec_is_ascii_digit(c: char) -> bool {
    '0' <= c && c <= '9'
}

pub open spec fn spec_is_ascii_alphabetic(c: char) -> bool {
    ('a' <= c && c <= 'z') || ('A' <= c && c <= 'Z')
}

pub open spec fn spec_is_identifier_char(c: char) -> bool {
    spec_is_ascii_digit(c) || spec_is_ascii_alphabetic(c) || c == '_'
}

/// Leading whitespace dropped.
pub open spec fn skip_whitespace(a: Seq<char>) -> Seq<char>
    decreases a.len(),
{
    if a.len() > 1 && spec_is_whitespace(a[0]) {
        skip_whitespace(a.drop_first())
    } else if a.len() == 1 && spec_is_whitespace(a[0]) {
        seq![ETX]
    } else {
        a
    }
}

/// Single characters that are tokens by themselves.
pub open spec fn spec_sign(c: char) -> Option<TokenCategory> {
    if c == '(' {
        Some(TokenCategory::ParenOpen)
    } else if c == ')' {
        Some(TokenCategory::ParenClose)
    } else if c == '[' {
        Some(TokenCategory::BracketOpen)
    } else if c == ']' {
        Some(TokenCategory::BracketClose)
    } else if c == '{' {
        Some(TokenCategory::BraceOpen)
    } else if c == '}' {
        Some(TokenCategory::BraceClose)
    } else if c == ';' {
        Some(TokenCategory::Semicolon)
    } else if c == ':' {
        Some(TokenCategory::Colon)
    } else if c == ',' {
        Some(TokenCategory::Comma)
    } else if c == STX {
        Some(TokenCategory::STX)
    } else if c == ETX {
        Some(TokenCategory::ETX)
    } else {
        None
    }
}

/// Characters written after `\` inside a string, and what they stand for.
pub open spec fn spec_escape(c: char) -> Option<char> {
    if c == 'n' {
        Some('\n')
    } else if c == 'r' {
        Some('\r')
    } else if c == 't' {
        Some('\t')
    } else if c == '"' {
        Some('"')
    } else if c == '\\' {
        Some('\\')
    } else {
        None
    }
}

/// The keywords.
pub open spec fn spec_keyword(name: Seq<char>) -> Option<TokenCategory> {
    if name == "fn"@ {
        Some(TokenCategory::Fn)
    } else if name == "for"@ {
        Some(TokenCategory::For)
    } else if name == "if"@ {
        Some(TokenCategory::If)
    } else if name == "else"@ {
        Some(TokenCategory::Else)
    } else if name == "return"@ {
        Some(TokenCategory::Return)
    } else if name == "i64"@ {
        Some(TokenCategory::I64)
    } else if name == "f64"@ {
        Some(TokenCategory::F64)
    } else if name == "str"@ {
        Some(TokenCategory::String)
    } else if name == "void"@ {
        Some(TokenCategory::Void)
    } else if name == "bool"@ {
        Some(TokenCategory::Bool)
    } else if name == "true"@ {
        Some(TokenCategory::True)
    } else if name == "false"@ {
        Some(TokenCategory::False)
    } else if name == "as"@ {
        Some(TokenCategory::As)
    } else if name == "switch"@ {
        Some(TokenCategory::Switch)
    } else if name == "break"@ {
        Some(TokenCategory::Break)
    } else {
        None
    }
}

/// Operators: the category when the operator stands alone, and the one it
/// becomes when followed by its second character (`-` then `>`, `<` then `=`, ...).
pub open spec fn spec_operator(c: char) -> Option<(TokenCategory, char, TokenCategory)> {
    if c == '-' {
        Some((TokenCategory::Minus, '>', TokenCategory::Arrow))
    } else if c == '<' {
        Some((TokenCategory::Less, '=', TokenCategory::LessOrEqual))
    } else if c == '>' {
        Some((TokenCategory::Greater, '=', TokenCategory::GreaterOrEqual))
    } else if c == '!' {
        Some((TokenCategory::Negate, '=', TokenCategory::NotEqual))
    } else if c == '=' {
        Some((TokenCategory::Assign, '=', TokenCategory::Equal))
    } else if c == '&' {
        Some((TokenCategory::Reference, '&', TokenCategory::And))
    } else {
        None
    }
}

/// Number of characters from index `i` on that satisfy `digit`.
pub open spec fn digit_run(a: Seq<char>, i: int) -> nat
    decreases a.len() - i,
{
    if 0 <= i < a.len() && spec_is_ascii_digit(a[i]) {
        1 + digit_run(a, i + 1)
    } else {
        0
    }
}

pub open spec fn identifier_run(a: Seq<char>, i: int) -> nat
    decreases a.len() - i,
{
    if 0 <= i < a.len() && spec_is_identifier_char(a[i]) {
        1 + identifier_run(a, i + 1)
    } else {
        0
    }
}

/// Characters from index `i` on up to (not including) a line feed or `ETX`.
pub open spec fn comment_run(a: Seq<char>, i: int) -> nat
    decreases a.len() - i,
{
    if 0 <= i < a.len() && a[i] != '\n' && a[i] != ETX {
        1 + comment_run(a, i + 1)
    } else {
        0
    }
}

/// Length in bytes of the UTF-8 encoding of `s`.
pub open spec fn utf8_len(s: Seq<char>) -> nat
    decreases s.len(),
{
    if s.len() == 0 {
        0
    } else {
        utf8_len(s.drop_last()) + spec_len_utf8(s.last())
    }
}

/// Token values, with strings as character sequences.
pub enum SpecValue {
    Str(Seq<char>),
    Int(i64),
    Float(FloatLiteral),
    Null,
}

/// Why a token could not be made.
pub enum LexError {
    UnexpectedToken,
    CommentTooLong,
    NewlineInString,
    ZeroPrefix,
    Overflow,
    IdentifierTooLong,
}

/// The outcome of reading one token: its category, value and the number of
/// characters it takes, or the reason it was refused.
pub enum Lexeme {
    Token { category: TokenCategory, value: SpecValue, length: nat },
    Refused(LexError),
}

/// A comment: `#` and everything up to the end of the line. It is refused
/// when, before some character of it would be added, what was gathered
/// already takes exactly the maximum number of bytes.
pub open spec fn lex_comment(a: Seq<char>, max: nat) -> Lexeme {
    let k = comment_run(a, 1);
    if exists|j: int| 0 <= j < k && utf8_len(#[trigger] a.subrange(1, 1 + j)) == max {
        Lexeme::Refused(LexError::CommentTooLong)
    } else {
        Lexeme::Token { category: TokenCategory::Comment, value: SpecValue::Str(a.subrange(1, 1 + k as int)), length: 1 + k }
    }
}

/// The string literal whose body starts at index `i`, with `acc` gathered so
/// far: `Some((text, end))` where `end` is the number of characters the
/// literal takes, or `None` when a line feed comes first. A `\` followed by a
/// character that is no escape stands for itself; a literal that reaches the
/// end of the input is closed there.
pub open spec fn scan_string(a: Seq<char>, i: int, acc: Seq<char>) -> Option<(Seq<char>, int)>
    decreases a.len() + 2 - i,
{
    if i < 1 || i > a.len() + 1 {
        None
    } else {
        let c = at(a, i);
        if c == '"' {
            Some((acc, i + 1))
        } else if c == '\\' {
            let n = at(a, i + 1);
            match spec_escape(n) {
                Some(e) => scan_string(a, i + 2, acc.push(e)),
                None => scan_string(a, i + 1, acc.push('\\')),
            }
        } else if c == '\n' {
            None
        } else if c == ETX {
            Some((acc, i))
        } else {
            scan_string(a, i + 1, acc.push(c))
        }
    }
}

/// The warnings reading the string literal whose body starts at index `i`
/// raises, in order: one for each `\` followed by a character that is no
/// escape, and one when the literal reaches the end of the input unclosed.
pub open spec fn string_warnings(a: Seq<char>, i: int) -> Seq<Seq<char>>
    decreases a.len() + 2 - i,
{
    if i < 1 || i > a.len() + 1 {
        Seq::empty()
    } else {
        let c = at(a, i);
        if c == '"' || c == '\n' {
            Seq::empty()
        } else if c == '\\' {
            let n = at(a, i + 1);
            match spec_escape(n) {
                Some(_) => string_warnings(a, i + 2),
                None => seq!["Invalid escape symbol detected '\\"@ + seq![n, '\''] ] + string_warnings(a, i + 1),
            }
        } else if c == ETX {
            seq!["String not closed"@]
        } else {
            string_warnings(a, i + 1)
        }
    }
}

pub open spec fn lex_string(a: Seq<char>) -> Lexeme {
    match scan_string(a, 1, Seq::empty()) {
        Some((text, end)) => Lexeme::Token { category: TokenCategory::StringValue, value: SpecValue::Str(text), length: end as nat },
        None => Lexeme::Refused(LexError::NewlineInString),
    }
}

/// A number: digits with no leading zero (or a lone `0`), then optionally a
/// `.` and more digits. Each run of digits must fit in `i64`.
pub open spec fn lex_number(a: Seq<char>) -> Lexeme {
    let k1 = if a[0] != '0' { digit_run(a, 0) } else { 1 };
    let integral = digits_value(a.subrange(0, k1 as int));
    if a[0] == '0' && spec_is_ascii_digit(at(a, 1)) {
        Lexeme::Refused(LexError::ZeroPrefix)
    } else if integral > i64::MAX {
        Lexeme::Refused(LexError::Overflow)
    } else if at(a, k1 as int) != '.' {
        Lexeme::Token { category: TokenCategory::I64Value, value: SpecValue::Int(integral as i64), length: k1 }
    } else {
        let k2 = digit_run(a, k1 as int + 1);
        let fraction = digits_value(a.subrange(k1 as int + 1, k1 as int + 1 + k2 as int));
        if fraction > i64::MAX {
            Lexeme::Refused(LexError::Overflow)
        } else {
            Lexeme::Token {
                category: TokenCategory::F64Value,
                value: SpecValue::Float(FloatLiteral { integral: integral as i64, fraction: fraction as i64, fraction_digits: k2 as i64 }),
                length: k1 + 1 + k2,
            }
        }
    }
}

/// An identifier or a keyword: a letter, then letters, digits and `_`; no
/// longer than the maximum.
pub open spec fn lex_identifier(a: Seq<char>, max: nat) -> Lexeme {
    let k = identifier_run(a, 0);
    let name = a.subrange(0, k as int);
    if k > max {
        Lexeme::Refused(LexError::IdentifierTooLong)
    } else {
        match spec_keyword(name) {
            Some(category) => Lexeme::Token { category, value: SpecValue::Null, length: k },
            None => Lexeme::Token { category: TokenCategory::Identifier, value: SpecValue::Str(name), length: k },
        }
    }
}

pub open spec fn spec_is_operator_start(c: char) -> bool {
    c == '+' || c == '*' || c == '/' || spec_operator(c) is Some || c == '|'
}

/// An operator: one character, or two where the second joins the first.
/// A lone `|` is taken as `||`.
pub open spec fn lex_operator(a: Seq<char>) -> Lexeme {
    let c = a[0];
    if c == '+' {
        Lexeme::Token { category: TokenCategory::Plus, value: SpecValue::Null, length: 1 }
    } else if c == '*' {
        Lexeme::Token { category: TokenCategory::Multiply, value: SpecValue::Null, length: 1 }
    } else if c == '/' {
        Lexeme::Token { category: TokenCategory::Divide, value: SpecValue::Null, length: 1 }
    } else if spec_operator(c) is Some {
        let (alone, second, joined) = spec_operator(c)->0;
        if at(a, 1) == second {
            Lexeme::Token { category: joined, value: SpecValue::Null, length: 2 }
        } else {
            Lexeme::Token { category: alone, value: SpecValue::Null, length: 1 }
        }
    } else {
        Lexeme::Token { category: TokenCategory::Or, value: SpecValue::Null, length: if at(a, 1) == '|' { 2 } else { 1 } }
    }
}

/// The warnings reading the token that starts at the first character of
/// `a` raises: a lone `|`, and the flaws of a string literal.
pub open spec fn lex_warnings(a: Seq<char>) -> Seq<Seq<char>> {
    if a[0] == '|' && at(a, 1) != '|' {
        seq!["Expected |"@]
    } else if a[0] == '"' {
        string_warnings(a, 1)
    } else {
        Seq::empty()
    }
}

/// The token that starts at the first character of `a`.
pub open spec fn lex(a: Seq<char>, max_comment: nat, max_identifier: nat) -> Lexeme {
    let c = a[0];
    if spec_sign(c) is Some {
        Lexeme::Token { category: spec_sign(c)->0, value: SpecValue::Null, length: 1 }
    } else if spec_is_operator_start(c) {
        lex_operator(a)
    } else if c == '#' {
        lex_comment(a, max_comment)
    } else if c == '"' {
        lex_string(a)
    } else if spec_is_ascii_digit(c) {
        lex_number(a)
    } else if spec_is_ascii_alphabetic(c) {
        lex_identifier(a, max_identifier)
    } else {
        Lexeme::Refused(LexError::UnexpectedToken)
    }
}

pub fn is_whitespace(c: char) -> (r: bool)
    ensures
        r == spec_is_whitespace(c),
{
    let u = c as u32;
    (0x9 <= u && u <= 0xD) || u == 0x20 || u == 0x85 || u == 0xA0 || u == 0x1680 || (0x2000 <= u && u <= 0x200A)
        || u == 0x2028 || u == 0x2029 || u == 0x202F || u == 0x205F || u == 0x3000
}

pub fn is_ascii_digit(c: char) -> (r: bool)
    ensures
        r == spec_is_ascii_digit(c),
{
    '0' <= c && c <= '9'
}

pub fn is_ascii_alphabetic(c: char) -> (r: bool)
    ensures
        r == spec_is_ascii_alphabetic(c),
{
    ('a' <= c && c <= 'z') || ('A' <= c && c <= 'Z')
}

pub fn is_identifier_char(c: char) -> (r: bool)
    ensures
        r == spec_is_identifier_char(c),
{
    is_ascii_digit(c) || is_ascii_alphabetic(c) || c == '_'
}

pub fn sign(c: char) -> (r: Option<TokenCategory>)
    ensures
        r == spec_sign(c),
{
    if c == '(' {
        Some(TokenCategory::ParenOpen)
    } else if c == ')' {
        Some(TokenCategory::ParenClose)
    } else if c == '[' {
        Some(TokenCategory::BracketOpen)
    } else if c == ']' {
        Some(TokenCategory::BracketClose)
    } else if c == '{' {
        Some(TokenCategory::BraceOpen)
    } else if c == '}' {
        Some(TokenCategory::BraceClose)
    } else if c == ';' {
        Some(TokenCategory::Semicolon)
    } else if c == ':' {
        Some(TokenCategory::Colon)
    } else if c == ',' {
        Some(TokenCategory::Comma)
    } else if c == STX {
        Some(TokenCategory::STX)
    } else if c == ETX {
        Some(TokenCategory::ETX)
    } else {
        None
    }
}

pub fn escape(c: char) -> (r: Option<char>)
    ensures
        r == spec_escape(c),
{
    if c == 'n' {
        Some('\n')
    } else if c == 'r' {
        Some('\r')
    } else if c == 't' {
        Some('\t')
    } else if c == '"' {
        Some('"')
    } else if c == '\\' {
        Some('\\')
    } else {
        None
    }
}

pub fn operator(c: char) -> (r: Option<(TokenCategory, char, TokenCategory)>)
    ensures
        r == spec_operator(c),
{
    if c == '-' {
        Some((TokenCategory::Minus, '>', TokenCategory::Arrow))
    } else if c == '<' {
        Some((TokenCategory::Less, '=', TokenCategory::LessOrEqual))
    } else if c == '>' {
        Some((TokenCategory::Greater, '=', TokenCategory::GreaterOrEqual))
    } else if c == '!' {
        Some((TokenCategory::Negate, '=', TokenCategory::NotEqual))
    } else if c == '=' {
        Some((TokenCategory::Assign, '=', TokenCategory::Equal))
    } else if c == '&' {
        Some((TokenCategory::Reference, '&', TokenCategory::And))
    } else {
        None
    }
}

/// Whether the characters equal the text of `word`.
pub fn chars_equal(chars: &Vec<char>, word: &str) -> (r: bool)
    ensures
        r == (chars@ == word@),
{
    let n = word.unicode_len();
    if chars.len() != n {
        return false;
    }
    let mut i: usize = 0;
    while i < n
        invariant
            i <= n,
            n == word@.len(),
            chars@.len() == n,
            forall|j: int| 0 <= j < i ==> chars@[j] == word@[j],
        decreases n - i,
    {
        if chars[i] != word.get_char(i) {
            return false;
        }
        i = i + 1;
    }
    assert(chars@ =~= word@);
    true
}

pub fn keyword(name: &Vec<char>) -> (r: Option<TokenCategory>)
    ensures
        r == spec_keyword(name@),
{
    if chars_equal(name, "fn") {
        Some(TokenCategory::Fn)
    } else if chars_equal(name, "for") {
        Some(TokenCategory::For)
    } else if chars_equal(name, "if") {
        Some(TokenCategory::If)
    } else if chars_equal(name, "else") {
        Some(TokenCategory::Else)
    } else if chars_equal(name, "return") {
        Some(TokenCategory::Return)
    } else if chars_equal(name, "i64") {
        Some(TokenCategory::I64)
    } else if chars_equal(name, "f64") {
        Some(TokenCategory::F64)
    } else if chars_equal(name, "str") {
        Some(TokenCategory::String)
    } else if chars_equal(name, "void") {
        Some(TokenCategory::Void)
    } else if chars_equal(name, "bool") {
        Some(TokenCategory::Bool)
    } else if chars_equal(name, "true") {
        Some(TokenCategory::True)
    } else if chars_equal(name, "false") {
        Some(TokenCategory::False)
    } else if chars_equal(name, "as") {
        Some(TokenCategory::As)
    } else if chars_equal(name, "switch") {
        Some(TokenCategory::Switch)
    } else if chars_equal(name, "break") {
        Some(TokenCategory::Break)
    } else {
        None
    }
}

pub proof fn lemma_after(a: Seq<char>, n: int)
    requires
        a.len() >= 1,
        n >= 0,
    ensures
        after(a, n).len() >= 1,
        after(a, n)[0] == at(a, n),
        (if after(a, n).len() > 1 { after(a, n).drop_first() } else { seq![ETX] }) == after(a, n + 1),
        after(a, 0) == a,
{
    assert(after(a, 0) =~= a);
    if n + 1 < a.len() {
        assert(after(a, n).drop_first() =~= after(a, n + 1));
    }
}

pub proof fn lemma_comment_run(a: Seq<char>, i: int, k: int)
    requires
        i >= 0,
        0 <= k <= comment_run(a, i),
    ensures
        i + comment_run(a, i) <= a.len() || comment_run(a, i) == 0,
        k < comment_run(a, i) ==> i + k < a.len() && a[i + k] != '\n' && a[i + k] != ETX,
        k == comment_run(a, i) ==> (at(a, i + k) == '\n' || at(a, i + k) == ETX),
    decreases a.len() - i,
{
    if k > 0 {
        lemma_comment_run(a, i + 1, k - 1);
    }
    if comment_run(a, i) > 0 {
        lemma_comment_run(a, i + 1, 0);
    }
}

pub proof fn lemma_digit_run(a: Seq<char>, i: int, k: int)
    requires
        i >= 0,
        0 <= k <= digit_run(a, i),
    ensures
        i + digit_run(a, i) <= a.len() || digit_run(a, i) == 0,
        k < digit_run(a, i) ==> i + k < a.len() && spec_is_ascii_digit(a[i + k]),
        k == digit_run(a, i) ==> !spec_is_ascii_digit(at(a, i + k)),
    decreases a.len() - i,
{
    if k > 0 {
        lemma_digit_run(a, i + 1, k - 1);
    }
    if digit_run(a, i) > 0 {
        lemma_digit_run(a, i + 1, 0);
    }
}

pub proof fn lemma_digit_run_all(a: Seq<char>, i: int)
    requires
        0 <= i <= a.len(),
    ensures
        i + digit_run(a, i) <= a.len() || digit_run(a, i) == 0,
        crate::text::all_digits(a.subrange(i, i + digit_run(a, i) as int)),
{
    lemma_digit_run(a, i, 0);
    assert forall|j: int| 0 <= j < digit_run(a, i) implies crate::text::is_digit_char(#[trigger] a.subrange(i, i + digit_run(a, i) as int)[j]) by {
        lemma_digit_run(a, i, j);
    }
}

pub proof fn lemma_identifier_run(a: Seq<char>, i: int, k: int)
    requires
        i >= 0,
        0 <= k <= identifier_run(a, i),
    ensures
        i + identifier_run(a, i) <= a.len() || identifier_run(a, i) == 0,
        k < identifier_run(a, i) ==> i + k < a.len() && spec_is_identifier_char(a[i + k]),
        k == identifier_run(a, i) ==> !spec_is_identifier_char(at(a, i + k)),
    decreases a.len() - i,
{
    if k > 0 {
        lemma_identifier_run(a, i + 1, k - 1);
    }
    if identifier_run(a, i) > 0 {
        lemma_identifier_run(a, i + 1, 0);
    }
}

pub proof fn lemma_scan_string_end(a: Seq<char>, i: int, acc: Seq<char>)
    ensures
        scan_string(a, i, acc) matches Some((_, e)) ==> e >= i,
    decreases a.len() + 2 - i,
{
    if 1 <= i <= a.len() + 1 {
        let c = at(a, i);
        if c == '\\' {
            match spec_escape(at(a, i + 1)) {
                Some(e) => lemma_scan_string_end(a, i + 2, acc.push(e)),
                None => lemma_scan_string_end(a, i + 1, acc.push('\\')),
            }
        } else if c != '"' && c != '\n' && c != ETX {
            lemma_scan_string_end(a, i + 1, acc.push(c));
        }
    }
}

pub proof fn lemma_utf8_len_push(s: Seq<char>, c: char)
    ensures
        utf8_len(s.push(c)) == utf8_len(s) + spec_len_utf8(c),
        utf8_len(s) <= 4 * s.len(),
    decreases s.len(),
{
    assert(s.push(c).drop_last() =~= s);
    if s.len() > 0 {
        lemma_utf8_len_push(s.drop_last(), s.last());
    }
}

/// Whitespace before a token does not change it: for every character that
/// `char::is_whitespace` accepts, the characters a token is read from after
/// skipping whitespace in `c` followed by `a` are those read from `a`, so
/// the token read is the same.
pub proof fn law_whitespace_skipped(c: char, a: Seq<char>, max_comment: nat, max_identifier: nat)
    requires
        spec_is_whitespace(c),
        a.len() > 0,
    ensures
        skip_whitespace(seq![c] + a) == skip_whitespace(a),
        lex(skip_whitespace(seq![c] + a), max_comment, max_identifier) == lex(skip_whitespace(a), max_comment, max_identifier),
{
    assert((seq![c] + a).drop_first() =~= a);
}

/// Space, tab, line feed, vertical tab, form feed and carriage return are
/// whitespace, and each is skipped before a token.
pub proof fn law_ascii_whitespace_skipped(c: char, a: Seq<char>)
    requires
        c == ' ' || c == '\t' || c == '\n' || c == '\x0B' || c == '\x0C' || c == '\r',
        a.len() > 0,
    ensures
        spec_is_whitespace(c),
        skip_whitespace(seq![c] + a) == skip_whitespace(a),
{
    assert((seq![c] + a).drop_first() =~= a);
}

/// Among ASCII characters only space, tab, line feed, vertical tab, form
/// feed and carriage return are skipped: any other character starts the
/// text a token is read from.
pub proof fn law_other_ascii_kept(c: char, a: Seq<char>)
    requires
        (c as u32) < 128,
        !(c == ' ' || c == '\t' || c == '\n' || c == '\x0B' || c == '\x0C' || c == '\r'),
    ensures
        !spec_is_whitespace(c),
        skip_whitespace(seq![c] + a) == seq![c] + a,
{
}

} // verus!
