//! The lexer: turns the characters of a reader into tokens.
use vstd::prelude::*;
use vstd::string::StringExecFns;

use crate::issues::Issue;
use crate::lexer_utils::{LexerIssue, LexerIssueKind, LexerOptions};
use crate::lexical::{lex_warnings, string_warnings, lemma_scan_string_end, lemma_digit_run_all, lemma_comment_run, lemma_digit_run, lemma_identifier_run, lemma_utf8_len_push, after, at, chars_equal, escape, identifier_run, is_ascii_alphabetic, is_ascii_digit, is_identifier_char, is_whitespace, keyword, lemma_after, lex, lex_comment, lex_identifier, lex_number, lex_operator, lex_string, operator, scan_string, sign, skip_whitespace, spec_escape, spec_is_ascii_alphabetic, spec_is_ascii_digit, spec_is_identifier_char, spec_is_operator_start, spec_is_whitespace, spec_keyword, spec_operator, spec_sign, comment_run, digit_run, utf8_len, LexError, Lexeme, SpecValue};
use crate::position::{position_text, Position};
use crate::lazy_stream_reader::{LazyStreamReader, ETX, STX, spec_len_utf8};
use crate::text::{all_digits, digits_value, lemma_digits_value_monotone, lemma_digits_value_nonneg, nat_text};
use crate::tokens::{FloatLiteral, Token, TokenCategory, TokenValue};

verus! {

/// A token's value with strings seen as character sequences.
pub open spec fn value_view(v: TokenValue) -> SpecValue {
    match v {
        TokenValue::String(s) => SpecValue::Str(s@),
        TokenValue::Bool(b) => SpecValue::Null,
        TokenValue::F64(f) => SpecValue::Float(f),
        TokenValue::I64(i) => SpecValue::Int(i),
        TokenValue::Null => SpecValue::Null,
    }
}

/// The first line of a refusal's message, after the leading line feed.
pub open spec fn lex_error_text(e: LexError, options: LexerOptions) -> Seq<char> {
    match e {
        LexError::UnexpectedToken => "Unexpected token"@,
        LexError::CommentTooLong => "Comment too long. Max comment length: "@ + nat_text(options.max_comment_length as nat),
        LexError::NewlineInString => "Unexpected newline in string"@,
        LexError::ZeroPrefix => "Cannot prefix number with 0's."@,
        LexError::Overflow => "Overflow occurred while parsing integer"@,
        LexError::IdentifierTooLong => "Identifier name too long. Max identifier length: "@ + nat_text(options.max_identifier_length as nat),
    }
}

/// Whether `message` begins with a line feed and then `text`.
pub open spec fn starts_with_line(message: Seq<char>, text: Seq<char>) -> bool {
    message.len() >= text.len() + 1 && message.subrange(0, text.len() as int + 1) == seq!['\n'] + text
}

/// How a warning with the text `text` raised at `p` is written.
pub open spec fn warning_text(text: Seq<char>, p: Position) -> Seq<char> {
    "\nWarning:\n"@ + text + "\nAt "@ + position_text(p) + "\n"@
}

/// `w` is a warning with the text `text`, raised somewhere.
pub open spec fn warns(w: LexerIssue, text: Seq<char>) -> bool {
    &&& w.kind == LexerIssueKind::WARNING
    &&& exists|p: Position| w.message@ == #[trigger] warning_text(text, p)
}

/// `after` is `before` with one warning more for each of `texts`, in order.
pub open spec fn warned(before: Seq<LexerIssue>, after: Seq<LexerIssue>, texts: Seq<Seq<char>>) -> bool {
    &&& after.len() == before.len() + texts.len()
    &&& after.take(before.len() as int) == before
    &&& forall|k: int| 0 <= k < texts.len() ==> warns(#[trigger] after[before.len() + k], texts[k])
}

/// Raising no warning leaves the warnings as they were; raising them in two
/// steps raises them all.
pub proof fn lemma_warned_join(a: Seq<LexerIssue>, b: Seq<LexerIssue>, c: Seq<LexerIssue>, x: Seq<Seq<char>>, y: Seq<Seq<char>>)
    requires
        warned(a, b, x),
        warned(b, c, y),
    ensures
        warned(a, c, x + y),
{
    assert(c.take(a.len() as int) =~= b.take(a.len() as int));
    assert forall|k: int| 0 <= k < (x + y).len() implies warns(#[trigger] c[a.len() + k], (x + y)[k]) by {
        if k < x.len() {
            assert(c[a.len() + k] == b[a.len() + k]);
        } else {
            assert(c[a.len() + k] == c[b.len() + (k - x.len())]);
        }
    }
}

pub proof fn lemma_warned_none(a: Seq<LexerIssue>)
    ensures
        warned(a, a, Seq::empty()),
{
    assert(a.take(a.len() as int) =~= a);
}

/// A source of tokens for the parser.
pub trait ILexer {
    /// The token most recently produced.
    spec fn token(&self) -> Option<Token>;

    /// A measure that taking the token after one other than `ETX` lowers.
    spec fn measure(&self) -> nat;

    spec fn valid(&self) -> bool;

    /// The tokens the lexer is known to produce next, in order. A lexer that
    /// reads its tokens only when asked knows none in advance.
    spec fn coming(&self) -> Seq<Token>;

    fn current(&self) -> (t: &Option<Token>)
        requires
            self.valid(),
        ensures
            *t == self.token(),
    ;

    /// Produces the next token, which becomes the current one.
    fn next(&mut self) -> (r: Result<Token, crate::issues::ParserIssue>)
        requires
            old(self).valid(),
        ensures
            final(self).valid(),
            r matches Ok(t) ==> final(self).token() == Some(t),
            r is Err ==> final(self).token() == old(self).token(),
            final(self).measure() <= old(self).measure(),
            (r is Ok && (old(self).token() matches Some(c) && c.category != TokenCategory::ETX)) ==> final(self).measure() < old(self).measure(),
            old(self).coming().len() > 0 ==> r == Ok::<Token, crate::issues::ParserIssue>(old(self).coming()[0]) && final(self).coming()
                == old(self).coming().drop_first(),
    ;
}

pub struct Lexer {
    pub src: LazyStreamReader,
    current: Option<Token>,
    position: Position,
    options: LexerOptions,
    warnings: Vec<LexerIssue>,
}

impl Lexer {
    pub closed spec fn wf(&self) -> bool {
        self.src.wf()
    }

    /// The characters ahead of the lexer.
    pub closed spec fn ahead(&self) -> Seq<char> {
        self.src.chars_ahead()
    }

    pub closed spec fn reader(&self) -> LazyStreamReader {
        self.src
    }

    pub closed spec fn spec_current(&self) -> Option<Token> {
        self.current
    }

    /// Where the token being read starts.
    pub closed spec fn token_start(&self) -> Position {
        self.position
    }

    pub closed spec fn spec_options(&self) -> LexerOptions {
        self.options
    }

    pub closed spec fn spec_warnings(&self) -> Seq<LexerIssue> {
        self.warnings@
    }

    /// A measure that every token other than `ETX` lowers.
    pub closed spec fn remaining(&self) -> nat {
        self.src.remaining()
    }

    /// `self` is `old` after reading `n` characters of `a` (what lay ahead of `old`).
    pub closed spec fn moved_from(&self, old: Lexer, a: Seq<char>, n: int) -> bool {
        &&& self.wf()
        &&& self.src.input() == old.src.input()
        &&& self.ahead() == after(a, n)
        &&& self.options == old.options
        &&& self.position == old.position
        &&& self.current == old.current
        &&& old.warnings@.len() <= self.warnings@.len()
        &&& self.warnings@.subrange(0, old.warnings@.len() as int) == old.warnings@
        &&& self.remaining() <= old.remaining()
        &&& (n >= 1 && old.remaining() > 0 ==> self.remaining() < old.remaining())
    }

    pub fn new(src: LazyStreamReader, options: LexerOptions) -> (r: Self)
        requires
            src.wf(),
        ensures
            r.wf(),
            r.ahead() == src.chars_ahead(),
            r.reader() == src,
            r.spec_current() is None,
            r.spec_options() == options,
            r.spec_warnings() == Seq::<LexerIssue>::empty(),
    {
        let position = src.position();
        Lexer { src, current: None, position, options, warnings: Vec::new() }
    }

    pub fn current(&self) -> (t: &Option<Token>)
        ensures
            *t == self.spec_current(),
    {
        &self.current
    }

    /// Hands over the warnings gathered so far.
    pub fn take_warnings(&mut self) -> (w: Vec<LexerIssue>)
        ensures
            w@ == old(self).spec_warnings(),
            final(self).spec_warnings() == Seq::<LexerIssue>::empty(),
            final(self).reader() == old(self).reader(),
            final(self).spec_current() == old(self).spec_current(),
            final(self).spec_options() == old(self).spec_options(),
            final(self).token_start() == old(self).token_start(),
            final(self).wf() == old(self).wf(),
    {
        let mut w = Vec::new();
        std::mem::swap(&mut w, &mut self.warnings);
        w
    }

    proof fn lemma_step(&self, old: Lexer, a: Seq<char>, n: int, prev: Lexer)
        requires
            prev.moved_from(old, a, n),
            self.wf(),
            self.src.input() == prev.src.input(),
            self.ahead() == (if prev.ahead().len() > 1 { prev.ahead().drop_first() } else { seq![ETX] }),
            prev.remaining() > 0 ==> self.remaining() < prev.remaining(),
            prev.remaining() == 0 ==> self.remaining() == 0,
            self.options == prev.options,
            self.position == prev.position,
            self.current == prev.current,
            prev.warnings@.len() <= self.warnings@.len(),
            self.warnings@.subrange(0, prev.warnings@.len() as int) == prev.warnings@,
            a.len() >= 1,
            n >= 0,
        ensures
            self.moved_from(old, a, n + 1),
    {
        lemma_after(a, n);
        assert(self.warnings@.subrange(0, old.warnings@.len() as int) =~= self.warnings@.subrange(0, prev.warnings@.len() as int).subrange(0, old.warnings@.len() as int));
    }

    proof fn lemma_stay(&self)
        requires
            self.wf(),
        ensures
            self.moved_from(*self, self.ahead(), 0),
            self.ahead().len() >= 1,
            self.ahead()[0] == self.src.spec_current(),
            self.remaining() == 0 ==> self.ahead() == seq![ETX],
            self.src.spec_current() != STX ==> self.src.spec_position().column >= 1,
    {
        self.src.lemma_chars_ahead();
        lemma_after(self.ahead(), 0);
        assert(self.warnings@.subrange(0, self.warnings@.len() as int) =~= self.warnings@);
    }

    /// Reads one character (the reader's `next`).
    fn advance(&mut self, Ghost(start): Ghost<Lexer>, Ghost(a): Ghost<Seq<char>>, Ghost(n): Ghost<int>) -> (c: char)
        requires
            old(self).moved_from(start, a, n),
            a.len() >= 1,
            n >= 0,
        ensures
            final(self).moved_from(start, a, n + 1),
            c == at(a, n + 1),
            final(self).warnings == old(self).warnings,
            old(self).remaining() > 0 ==> final(self).remaining() < old(self).remaining(),
            old(self).remaining() == 0 ==> c == ETX,
            final(self).remaining() <= old(self).remaining(),
            final(self).src.spec_position().column >= 1,
    {
        let ghost prev = *self;
        let c = self.src.next();
        proof {
            assert(self.warnings@.subrange(0, prev.warnings@.len() as int) =~= prev.warnings@);
            self.lemma_step(start, a, n, prev);
            lemma_after(a, n + 1);
            self.src.lemma_chars_ahead();
        }
        c
    }

    fn skip_whitespaces(&mut self)
        requires
            old(self).wf(),
        ensures
            final(self).wf(),
            final(self).src.input() == old(self).src.input(),
            final(self).ahead() == skip_whitespace(old(self).ahead()),
            final(self).options == old(self).options,
            final(self).position == old(self).position,
            final(self).current == old(self).current,
            final(self).warnings == old(self).warnings,
            final(self).remaining() <= old(self).remaining(),
    {
        proof {
            self.src.lemma_chars_ahead();
        }
        while is_whitespace(self.src.current())
            invariant
                self.wf(),
                self.src.input() == old(self).src.input(),
                skip_whitespace(self.ahead()) == skip_whitespace(old(self).ahead()),
                self.options == old(self).options,
                self.position == old(self).position,
                self.current == old(self).current,
                self.warnings == old(self).warnings,
                self.remaining() <= old(self).remaining(),
            decreases self.remaining(),
        {
            proof {
                self.src.lemma_chars_ahead();
                lemma_after(self.ahead(), 0);
            }
            let ghost before = self.ahead();
            self.src.next();
            proof {
                self.src.lemma_chars_ahead();
                lemma_after(before, 0);
                assert(self.ahead() == after(before, 1));
            }
        }
        proof {
            self.src.lemma_chars_ahead();
        }
    }
    /// `\nWarning:\n{text}\nAt {position}\n`
    fn prepare_warning_message(&self, text: String) -> (m: String)
        ensures
            m@ == "\nWarning:\n"@ + text@ + "\nAt "@ + position_text(self.src.spec_position()) + "\n"@,
    {
        let mut m = String::from_str("\nWarning:\n");
        m.append(text.as_str());
        m.append("\nAt ");
        let place = self.src.position().debug_text();
        m.append(place.as_str());
        m.append("\n");
        m
    }

    fn warn(&mut self, text: String)
        ensures
            final(self).src == old(self).src,
            final(self).current == old(self).current,
            final(self).position == old(self).position,
            final(self).options == old(self).options,
            final(self).warnings@.len() == old(self).warnings@.len() + 1,
            final(self).warnings@.subrange(0, old(self).warnings@.len() as int) == old(self).warnings@,
            final(self).warnings@.last().kind == LexerIssueKind::WARNING,
            warned(old(self).warnings@, final(self).warnings@, seq![text@]),
    {
        let message = self.prepare_warning_message(text);
        self.warnings.push(LexerIssue::new(LexerIssueKind::WARNING, message));
        proof {
            assert(self.warnings@.subrange(0, old(self).warnings@.len() as int) =~= old(self).warnings@);
            assert(self.warnings@.take(old(self).warnings@.len() as int) =~= old(self).warnings@);
            assert(warns(self.warnings@[old(self).warnings@.len() as int + 0], text@)) by {
                assert(self.warnings@.last().message@ == warning_text(text@, old(self).src.spec_position()));
            }
        }
    }

    fn try_generating_sign(&mut self) -> (r: Result<Option<Token>, LexerIssue>)
        requires
            old(self).wf(),
        ensures
            r matches Ok(Some(_)) ==> warned(old(self).spec_warnings(), final(self).spec_warnings(), lex_warnings(old(self).ahead())),
            spec_sign(old(self).ahead()[0]) is None ==> r == Ok::<Option<Token>, LexerIssue>(None) && *final(self) == *old(self),
            spec_sign(old(self).ahead()[0]) matches Some(category) ==> {
                &&& r matches Ok(Some(t))
                &&& t.category == category
                &&& t.value == TokenValue::Null
                &&& t.position == old(self).position
                &&& final(self).moved_from(*old(self), old(self).ahead(), 1)
            },
    {
        proof {
            self.lemma_stay();
        }
        let c = self.src.current();
        match sign(c) {
            None => Ok(None),
            Some(category) => {
                let token = Token { category, value: TokenValue::Null, position: self.position };
                let ghost start = *self;
                self.advance(Ghost(start), Ghost(start.ahead()), Ghost(0));
                Ok(Some(token))
            },
        }
    }

    fn single_char(&mut self, category: TokenCategory, Ghost(start): Ghost<Lexer>) -> (t: Token)
        requires
            old(self).moved_from(start, start.ahead(), 0),
            start.ahead().len() >= 1,
        ensures
            final(self).warnings == old(self).warnings,
            t.category == category,
            t.value == TokenValue::Null,
            t.position == start.position,
            final(self).moved_from(start, start.ahead(), 1),
    {
        self.advance(Ghost(start), Ghost(start.ahead()), Ghost(0));
        Token { category, value: TokenValue::Null, position: self.position }
    }

    fn extend_to_next(&mut self, char_to_search: char, not_found: TokenCategory, found: TokenCategory, Ghost(start): Ghost<Lexer>) -> (t: Token)
        requires
            old(self).moved_from(start, start.ahead(), 0),
            start.ahead().len() >= 1,
        ensures
            final(self).warnings == old(self).warnings,
            t.value == TokenValue::Null,
            t.position == start.position,
            at(start.ahead(), 1) == char_to_search ==> t.category == found && final(self).moved_from(start, start.ahead(), 2),
            at(start.ahead(), 1) != char_to_search ==> t.category == not_found && final(self).moved_from(start, start.ahead(), 1),
    {
        let next_char = self.advance(Ghost(start), Ghost(start.ahead()), Ghost(0));
        if next_char == char_to_search {
            self.advance(Ghost(start), Ghost(start.ahead()), Ghost(1));
            return Token { category: found, value: TokenValue::Null, position: self.position };
        }
        Token { category: not_found, value: TokenValue::Null, position: self.position }
    }

    fn extend_to_next_or_warning(&mut self, char_to_search: char, found: TokenCategory, Ghost(start): Ghost<Lexer>) -> (t: Token)
        requires
            old(self).moved_from(start, start.ahead(), 0),
            start.ahead().len() >= 1,
        ensures
            warned(old(self).warnings@, final(self).warnings@, if at(start.ahead(), 1) == char_to_search {
                Seq::<Seq<char>>::empty()
            } else {
                seq!["Expected "@ + seq![char_to_search]]
            }),
            t.value == TokenValue::Null,
            t.position == start.position,
            t.category == found,
            at(start.ahead(), 1) == char_to_search ==> final(self).moved_from(start, start.ahead(), 2),
            at(start.ahead(), 1) != char_to_search ==> final(self).moved_from(start, start.ahead(), 1),
    {
        let next_char = self.advance(Ghost(start), Ghost(start.ahead()), Ghost(0));
        if next_char == char_to_search {
            self.advance(Ghost(start), Ghost(start.ahead()), Ghost(1));
            proof {
                lemma_warned_none(old(self).warnings@);
            }
        } else {
            let mut text = String::from_str("Expected ");
            crate::text::push_char(&mut text, char_to_search);
            assert(text@ =~= "Expected "@ + seq![char_to_search]);
            let ghost prev = *self;
            self.warn(text);
            proof {
                assert(self.warnings@.subrange(0, start.warnings@.len() as int) =~= self.warnings@.subrange(0, prev.warnings@.len() as int).subrange(0, start.warnings@.len() as int));
            }
        }
        Token { category: found, value: TokenValue::Null, position: self.position }
    }

    fn try_generating_operator(&mut self) -> (r: Result<Option<Token>, LexerIssue>)
        requires
            old(self).wf(),
        ensures
            r matches Ok(Some(_)) ==> warned(old(self).spec_warnings(), final(self).spec_warnings(), lex_warnings(old(self).ahead())),
            !spec_is_operator_start(old(self).ahead()[0]) ==> r == Ok::<Option<Token>, LexerIssue>(None) && *final(self) == *old(self),
            spec_is_operator_start(old(self).ahead()[0]) ==> {
                &&& r matches Ok(Some(t))
                &&& lex_operator(old(self).ahead()) matches Lexeme::Token { category, value, length }
                &&& t.category == category
                &&& t.value == TokenValue::Null
                &&& t.position == old(self).position
                &&& final(self).moved_from(*old(self), old(self).ahead(), length as int)
            },
    {
        proof {
            self.lemma_stay();
        }
        let ghost start = *self;
        let c = self.src.current();
        proof {
            lemma_warned_none(old(self).warnings@);
            reveal_strlit("Expected |");
            reveal_strlit("Expected ");
            assert("Expected "@ + seq!['|'] =~= "Expected |"@);
        }
        if c == '+' {
            Ok(Some(self.single_char(TokenCategory::Plus, Ghost(start))))
        } else if c == '*' {
            Ok(Some(self.single_char(TokenCategory::Multiply, Ghost(start))))
        } else if c == '/' {
            Ok(Some(self.single_char(TokenCategory::Divide, Ghost(start))))
        } else if c == '|' {
            Ok(Some(self.extend_to_next_or_warning('|', TokenCategory::Or, Ghost(start))))
        } else {
            match operator(c) {
                Some((alone, second, joined)) => Ok(Some(self.extend_to_next(second, alone, joined, Ghost(start)))),
                None => Ok(None),
            }
        }
    }

    /// A lexer error at the reader's position: `\n{text}\nAt {position}\n{snippet}\n`.
    fn create_lexer_issue(&mut self, text: String) -> (issue: LexerIssue)
        requires
            old(self).wf(),
            old(self).src.spec_position().column >= 1,
        ensures
            final(self).wf(),
            final(self).src.input() == old(self).src.input(),
            final(self).current == old(self).current,
            final(self).options == old(self).options,
            final(self).position == old(self).position,
            final(self).warnings == old(self).warnings,
            final(self).remaining() <= old(self).remaining(),
            issue.kind == LexerIssueKind::ERROR,
            starts_with_line(issue.message@, text@),
    {
        let position = self.src.position();
        let code_snippet = self.src.error_code_snippet();
        let mut message = String::new();
        crate::text::push_char(&mut message, '\n');
        message.append(text.as_str());
        let ghost first = message@;
        message.append("\nAt ");
        let place = position.debug_text();
        message.append(place.as_str());
        crate::text::push_char(&mut message, '\n');
        message.append(code_snippet.as_str());
        crate::text::push_char(&mut message, '\n');
        proof {
            assert(first == seq!['\n'] + text@);
            assert(message@.subrange(0, text@.len() as int + 1) =~= first);
        }
        LexerIssue::new(LexerIssueKind::ERROR, message)
    }

    fn try_generating_comment(&mut self) -> (r: Result<Option<Token>, LexerIssue>)
        requires
            old(self).wf(),
        ensures
            r matches Ok(Some(_)) ==> warned(old(self).spec_warnings(), final(self).spec_warnings(), lex_warnings(old(self).ahead())),
            old(self).ahead()[0] != '#' ==> r == Ok::<Option<Token>, LexerIssue>(None) && *final(self) == *old(self),
            old(self).ahead()[0] == '#' ==> match lex_comment(old(self).ahead(), old(self).options.max_comment_length as nat) {
                Lexeme::Token { category, value, length } => {
                    &&& r matches Ok(Some(t))
                    &&& t.category == category
                    &&& value_view(t.value) == value
                    &&& t.position == old(self).position
                    &&& final(self).moved_from(*old(self), old(self).ahead(), length as int)
                },
                Lexeme::Refused(e) => {
                    &&& r matches Err(issue)
                    &&& issue.kind == LexerIssueKind::ERROR
                    &&& starts_with_line(issue.message@, lex_error_text(e, old(self).options))
                    &&& final(self).wf()
                    &&& final(self).src.input() == old(self).src.input()
                    &&& final(self).options == old(self).options
                    &&& final(self).current == old(self).current
                    &&& final(self).remaining() <= old(self).remaining()
                },
            },
    {
        proof {
            lemma_warned_none(old(self).warnings@);
        }
        proof {
            self.lemma_stay();
        }
        let current_char = self.src.current();
        if current_char != '#' {
            return Ok(None);
        }
        let ghost start = *self;
        let ghost a = start.ahead();
        proof {
            start.src.lemma_chars_ahead();
        }
        let max = self.options.max_comment_length;
        let mut comment: Vec<char> = Vec::new();
        let mut bytes: u64 = 0;
        loop
            invariant_except_break
                self.moved_from(start, a, comment@.len() as int),
            invariant
                self.warnings == start.warnings,
                start == *old(self),
                a == start.ahead(),
                a.len() >= 1,
                a.len() <= u32::MAX,
                a[0] == '#',
                max == start.options.max_comment_length,
                comment@.len() <= comment_run(a, 1),
                comment@ == a.subrange(1, 1 + comment@.len() as int),
                bytes == utf8_len(comment@),
                forall|j: int| 0 <= j < comment@.len() ==> utf8_len(#[trigger] a.subrange(1, 1 + j)) != max,
            ensures
                self.warnings == start.warnings,
                self.moved_from(start, a, comment@.len() as int + 1),
                comment@.len() == comment_run(a, 1),
            decreases self.remaining(),
        {
            let ghost k = comment@.len() as int;
            let current = self.advance(Ghost(start), Ghost(a), Ghost(k));
            proof {
                lemma_comment_run(a, 1, k);
                if k < comment_run(a, 1) {
                    lemma_comment_run(a, 1, k);
                }
            }
            if current == '\n' || current == ETX {
                proof {
                    assert(k == comment_run(a, 1));
                }
                break;
            }
            if bytes == max as u64 {
                let mut text = String::from_str("Comment too long. Max comment length: ");
                let limit = crate::text::u64_to_string(max as u64);
                text.append(limit.as_str());
                proof {
                    assert(utf8_len(a.subrange(1, 1 + k)) == max);
                }
                return Err(self.create_lexer_issue(text));
            }
            proof {
                lemma_utf8_len_push(comment@, current);
                assert(comment@.push(current) =~= a.subrange(1, 1 + k + 1));
            }
            comment.push(current);
            bytes = bytes + crate::lazy_stream_reader::len_utf8(current) as u64;
        }
        let text = crate::text::string_from_chars(&comment);
        Ok(Some(Token { category: TokenCategory::Comment, value: TokenValue::String(text), position: self.position }))
    }

    /// Records a warning while reading a token.
    fn warn_during(&mut self, text: String, Ghost(start): Ghost<Lexer>, Ghost(a): Ghost<Seq<char>>, Ghost(n): Ghost<int>)
        requires
            old(self).moved_from(start, a, n),
        ensures
            final(self).moved_from(start, a, n),
            final(self).src == old(self).src,
            final(self).remaining() == old(self).remaining(),
            warned(old(self).warnings@, final(self).warnings@, seq![text@]),
    {
        let ghost prev = *self;
        self.warn(text);
        proof {
            assert(self.warnings@.subrange(0, start.warnings@.len() as int) =~= self.warnings@.subrange(0, prev.warnings@.len() as int).subrange(0, start.warnings@.len() as int));
        }
    }

    #[verifier::spinoff_prover]
    fn try_generating_string(&mut self) -> (r: Result<Option<Token>, LexerIssue>)
        requires
            old(self).wf(),
        ensures
            r matches Ok(Some(_)) ==> warned(old(self).spec_warnings(), final(self).spec_warnings(), lex_warnings(old(self).ahead())),
            old(self).ahead()[0] != '"' ==> r == Ok::<Option<Token>, LexerIssue>(None) && *final(self) == *old(self),
            old(self).ahead()[0] == '"' ==> match lex_string(old(self).ahead()) {
                Lexeme::Token { category, value, length } => {
                    &&& r matches Ok(Some(t))
                    &&& t.category == category
                    &&& value_view(t.value) == value
                    &&& t.position == old(self).position
                    &&& final(self).moved_from(*old(self), old(self).ahead(), length as int)
                },
                Lexeme::Refused(e) => {
                    &&& r matches Err(issue)
                    &&& issue.kind == LexerIssueKind::ERROR
                    &&& starts_with_line(issue.message@, lex_error_text(e, old(self).options))
                    &&& final(self).wf()
                    &&& final(self).src.input() == old(self).src.input()
                    &&& final(self).options == old(self).options
                    &&& final(self).current == old(self).current
                    &&& final(self).remaining() <= old(self).remaining()
                },
            },
    {
        proof {
            self.lemma_stay();
        }
        let mut current_char = self.src.current();
        if current_char != '"' {
            return Ok(None);
        }
        let ghost start = *self;
        let ghost a = start.ahead();
        let mut created: Vec<char> = Vec::new();
        current_char = self.advance(Ghost(start), Ghost(a), Ghost(0));
        let ghost mut i: int = 1;
        let ghost mut done: Seq<Seq<char>> = Seq::empty();
        proof {
            lemma_warned_none(start.warnings@);
            assert(done + string_warnings(a, 1) =~= string_warnings(a, 1));
        }
        loop
            invariant_except_break
                self.moved_from(start, a, i),
            invariant
                start == *old(self),
                a == start.ahead(),
                a.len() >= 1,
                a[0] == '"',
                1 <= i <= a.len() + 1,
                current_char == at(a, i),
                scan_string(a, 1, Seq::empty()) == scan_string(a, i, created@),
                warned(start.warnings@, self.warnings@, done),
                string_warnings(a, 1) == done + string_warnings(a, i),
            ensures
                warned(start.warnings@, self.warnings@, done),
                string_warnings(a, 1) == done,
                self.moved_from(start, a, i),
                current_char == '"',
                scan_string(a, 1, Seq::empty()) == Some((created@, i + 1)),
            decreases self.remaining(),
        {
            proof {
                self.lemma_stay();
                lemma_after(a, i);
            }
            if current_char == '"' {
                break;
            }
            if current_char == '\\' {
                let next_char = self.advance(Ghost(start), Ghost(a), Ghost(i));
                match escape(next_char) {
                    Some(escaped) => {
                        created.push(escaped);
                        current_char = self.advance(Ghost(start), Ghost(a), Ghost(i + 1));
                        proof {
                            i = i + 2;
                        }
                        continue;
                    },
                    None => {
                        let mut text = String::from_str("Invalid escape symbol detected '\\");
                        crate::text::push_char(&mut text, next_char);
                        crate::text::push_char(&mut text, '\'');
                        let ghost w = text@;
                        let ghost before = self.warnings@;
                        proof {
                            assert(w =~= "Invalid escape symbol detected '\\"@ + seq![next_char, '\'']);
                        }
                        self.warn_during(text, Ghost(start), Ghost(a), Ghost(i + 1));
                        created.push('\\');
                        current_char = next_char;
                        proof {
                            lemma_warned_join(start.warnings@, before, self.warnings@, done, seq![w]);
                            assert(string_warnings(a, i) == seq![w] + string_warnings(a, i + 1));
                            assert(done + string_warnings(a, i) =~= done + seq![w] + string_warnings(a, i + 1));
                            done = done + seq![w];
                            i = i + 1;
                        }
                        continue;
                    },
                }
            }
            if current_char == '\n' {
                let text = String::from_str("Unexpected newline in string");
                return Err(self.create_lexer_issue(text));
            }
            if current_char == ETX {
                let text = String::from_str("String not closed");
                let ghost before = self.warnings@;
                self.warn_during(text, Ghost(start), Ghost(a), Ghost(i));
                proof {
                    lemma_warned_join(start.warnings@, before, self.warnings@, done, seq!["String not closed"@]);
                    assert(string_warnings(a, i) == seq!["String not closed"@]);
                }
                let value = crate::text::string_from_chars(&created);
                return Ok(Some(Token { category: TokenCategory::StringValue, value: TokenValue::String(value), position: self.position }));
            }
            created.push(current_char);
            current_char = self.advance(Ghost(start), Ghost(a), Ghost(i));
            proof {
                i = i + 1;
            }
        }
        // the closing quote
        self.advance(Ghost(start), Ghost(a), Ghost(i));
        proof {
            assert(done =~= string_warnings(a, 1));
        }
        let value = crate::text::string_from_chars(&created);
        Ok(Some(Token { category: TokenCategory::StringValue, value: TokenValue::String(value), position: self.position }))
    }

    /// Reads a run of digits starting `n` characters into `a`: its value and
    /// its length, or an error when the value does not fit in `i64`.
    fn parse_integer(&mut self, Ghost(start): Ghost<Lexer>, Ghost(a): Ghost<Seq<char>>, Ghost(n): Ghost<int>) -> (r: Result<(i64, i64), LexerIssue>)
        requires
            old(self).moved_from(start, a, n),
            a.len() >= 1,
            a.len() <= u32::MAX,
            0 <= n <= a.len(),
        ensures
            final(self).warnings == old(self).warnings,
            ({
                let k = digit_run(a, n);
                let value = digits_value(a.subrange(n, n + k));
                &&& value > i64::MAX ==> (r matches Err(issue) && issue.kind == LexerIssueKind::ERROR
                    && starts_with_line(issue.message@, lex_error_text(LexError::Overflow, start.options))
                    && final(self).wf() && final(self).src.input() == start.src.input()
                    && final(self).options == start.options && final(self).current == start.current)
                &&& value <= i64::MAX ==> (r == Ok::<(i64, i64), LexerIssue>((value as i64, k as i64))
                    && final(self).moved_from(start, a, n + k))
            }),
            final(self).remaining() <= old(self).remaining(),
    {
        let ghost k: int = digit_run(a, n) as int;
        proof {
            self.lemma_stay();
            lemma_after(a, n);
            lemma_digit_run(a, n, 0);
            lemma_digit_run_all(a, n);
            assert(a.subrange(n, n) =~= Seq::<char>::empty());
        }
        let mut current_char = self.src.current();
        let mut length: i64 = 0;
        let mut total: i64 = 0;
        while is_ascii_digit(current_char)
            invariant
                self.warnings == old(self).warnings,
                self.moved_from(start, a, n + length),
                a.len() >= 1,
                a.len() <= u32::MAX,
                0 <= n <= a.len(),
                k == digit_run(a, n),
                all_digits(a.subrange(n, n + k)),
                n + k <= a.len() || k == 0,
                0 <= length <= k,
                current_char == at(a, n + length),
                total == digits_value(a.subrange(n, n + length)),
                all_digits(a.subrange(n, n + length)),
                self.remaining() <= old(self).remaining(),
            decreases k - length,
        {
            proof {
                lemma_digit_run(a, n, length as int);
                if (length as int) == k {
                    assert(false);
                }
                assert(a.subrange(n, n + length + 1).drop_last() =~= a.subrange(n, n + length));
                assert(all_digits(a.subrange(n, n + length + 1)));
                lemma_digits_value_nonneg(a.subrange(n, n + length));
                lemma_digit_run(a, n, k as int);
            }
            let digit = (current_char as u32 - 48) as i64;
            match total.checked_mul(10) {
                Some(scaled) => total = scaled,
                None => {
                    proof {
                        self.lemma_stay();
                        lemma_after(a, n + length);
                        assert(all_digits(a.subrange(n, n + k)));
                        assert(a.subrange(n, n + k).take(length + 1) =~= a.subrange(n, n + length + 1));
                        lemma_digits_value_monotone(a.subrange(n, n + k), length + 1);
                    }
                    let text = String::from_str("Overflow occurred while parsing integer");
                    return Err(self.create_lexer_issue(text));
                },
            }
            match total.checked_add(digit) {
                Some(result) => {
                    total = result;
                    length = length + 1;
                    current_char = self.advance(Ghost(start), Ghost(a), Ghost(n + length - 1));
                },
                None => {
                    proof {
                        self.lemma_stay();
                        lemma_after(a, n + length);
                        assert(all_digits(a.subrange(n, n + k)));
                        assert(a.subrange(n, n + k).take(length + 1) =~= a.subrange(n, n + length + 1));
                        lemma_digits_value_monotone(a.subrange(n, n + k), length + 1);
                    }
                    let text = String::from_str("Overflow occurred while parsing integer");
                    return Err(self.create_lexer_issue(text));
                },
            }
        }
        proof {
            lemma_digit_run(a, n, length as int);
            if (length as int) < k {
                assert(false);
            }
        }
        Ok((total, length))
    }

    fn try_generating_number(&mut self) -> (r: Result<Option<Token>, LexerIssue>)
        requires
            old(self).wf(),
        ensures
            r matches Ok(Some(_)) ==> warned(old(self).spec_warnings(), final(self).spec_warnings(), lex_warnings(old(self).ahead())),
            !spec_is_ascii_digit(old(self).ahead()[0]) ==> r == Ok::<Option<Token>, LexerIssue>(None) && *final(self) == *old(self),
            spec_is_ascii_digit(old(self).ahead()[0]) ==> match lex_number(old(self).ahead()) {
                Lexeme::Token { category, value, length } => {
                    &&& r matches Ok(Some(t))
                    &&& t.category == category
                    &&& value_view(t.value) == value
                    &&& t.position == old(self).position
                    &&& final(self).moved_from(*old(self), old(self).ahead(), length as int)
                },
                Lexeme::Refused(e) => {
                    &&& r matches Err(issue)
                    &&& issue.kind == LexerIssueKind::ERROR
                    &&& starts_with_line(issue.message@, lex_error_text(e, old(self).options))
                    &&& final(self).wf()
                    &&& final(self).src.input() == old(self).src.input()
                    &&& final(self).options == old(self).options
                    &&& final(self).current == old(self).current
                    &&& final(self).remaining() <= old(self).remaining()
                },
            },
    {
        proof {
            lemma_warned_none(old(self).warnings@);
        }
        proof {
            self.lemma_stay();
        }
        let mut current_char = self.src.current();
        if !is_ascii_digit(current_char) {
            return Ok(None);
        }
        let ghost start = *self;
        let ghost a = start.ahead();
        proof {
            start.src.lemma_chars_ahead();
        }
        let mut decimal: i64 = 0;
        let ghost mut k1: int = 1;
        if current_char != '0' {
            proof {
                k1 = digit_run(a, 0) as int;
                lemma_digit_run(a, 0, 0);
                lemma_digit_run_all(a, 0);
                lemma_digits_value_nonneg(a.subrange(0, k1));
            }
            match self.parse_integer(Ghost(start), Ghost(a), Ghost(0)) {
                Ok((value, _)) => {
                    decimal = value;
                },
                Err(issue) => {
                    return Err(issue);
                },
            }
        } else {
            let next_char = self.advance(Ghost(start), Ghost(a), Ghost(0));
            if is_ascii_digit(next_char) {
                proof {
                    self.lemma_stay();
                }
                let text = String::from_str("Cannot prefix number with 0's.");
                return Err(self.create_lexer_issue(text));
            }
            proof {
                assert(a.subrange(0, 1).drop_last() =~= Seq::<char>::empty());
                assert(a.subrange(0, 1).last() == '0');
                assert(digits_value(Seq::<char>::empty()) == 0);
                assert(digits_value(a.subrange(0, 1)) == 0);
            }
        }
        proof {
            self.lemma_stay();
            lemma_after(a, k1);
        }
        current_char = self.src.current();
        assert(decimal == digits_value(a.subrange(0, k1)));
        assert(k1 == (if a[0] != '0' { digit_run(a, 0) as int } else { 1int }));
        if current_char != '.' {
            return Ok(Some(Token { category: TokenCategory::I64Value, value: TokenValue::I64(decimal), position: self.position }));
        }
        self.advance(Ghost(start), Ghost(a), Ghost(k1));
        proof {
            lemma_digit_run_all(a, k1 + 1);
            lemma_digits_value_nonneg(a.subrange(k1 + 1, k1 + 1 + digit_run(a, k1 + 1) as int));
        }
        match self.parse_integer(Ghost(start), Ghost(a), Ghost(k1 + 1)) {
            Ok((fraction, fraction_length)) => {
                let literal = FloatLiteral { integral: decimal, fraction, fraction_digits: fraction_length };
                Ok(Some(Token { category: TokenCategory::F64Value, value: TokenValue::F64(literal), position: self.position }))
            },
            Err(issue) => Err(issue),
        }
    }

    fn try_creating_identifier_or_keyword(&mut self) -> (r: Result<Option<Token>, LexerIssue>)
        requires
            old(self).wf(),
        ensures
            r matches Ok(Some(_)) ==> warned(old(self).spec_warnings(), final(self).spec_warnings(), lex_warnings(old(self).ahead())),
            !spec_is_ascii_alphabetic(old(self).ahead()[0]) ==> r == Ok::<Option<Token>, LexerIssue>(None) && *final(self) == *old(self),
            spec_is_ascii_alphabetic(old(self).ahead()[0]) ==> match lex_identifier(old(self).ahead(), old(self).options.max_identifier_length as nat) {
                Lexeme::Token { category, value, length } => {
                    &&& r matches Ok(Some(t))
                    &&& t.category == category
                    &&& value_view(t.value) == value
                    &&& t.position == old(self).position
                    &&& final(self).moved_from(*old(self), old(self).ahead(), length as int)
                },
                Lexeme::Refused(e) => {
                    &&& r matches Err(issue)
                    &&& issue.kind == LexerIssueKind::ERROR
                    &&& starts_with_line(issue.message@, lex_error_text(e, old(self).options))
                    &&& final(self).wf()
                    &&& final(self).src.input() == old(self).src.input()
                    &&& final(self).options == old(self).options
                    &&& final(self).current == old(self).current
                    &&& final(self).remaining() <= old(self).remaining()
                },
            },
    {
        proof {
            lemma_warned_none(old(self).warnings@);
        }
        proof {
            self.lemma_stay();
        }
        let mut current_char = self.src.current();
        if !is_ascii_alphabetic(current_char) {
            return Ok(None);
        }
        let ghost start = *self;
        let ghost a = start.ahead();
        let ghost k: int = identifier_run(a, 0) as int;
        proof {
            start.src.lemma_chars_ahead();
            lemma_identifier_run(a, 0, 0);
        }
        let max = self.options.max_identifier_length;
        let mut created: Vec<char> = Vec::new();
        while is_identifier_char(current_char)
            invariant
                self.warnings == start.warnings,
                self.moved_from(start, a, created@.len() as int),
                start == *old(self),
                a == start.ahead(),
                a.len() >= 1,
                a.len() <= u32::MAX,
                k == identifier_run(a, 0),
                k <= a.len(),
                spec_is_ascii_alphabetic(a[0]),
                max == start.options.max_identifier_length,
                created@.len() <= k,
                created@.len() <= max,
                created@ == a.subrange(0, created@.len() as int),
                current_char == at(a, created@.len() as int),
            decreases k - created@.len(),
        {
            proof {
                lemma_identifier_run(a, 0, created@.len() as int);
            }
            if created.len() == max as usize {
                proof {
                    self.lemma_stay();
                    lemma_after(a, created@.len() as int);
                }
                let mut text = String::from_str("Identifier name too long. Max identifier length: ");
                let limit = crate::text::u64_to_string(max as u64);
                text.append(limit.as_str());
                return Err(self.create_lexer_issue(text));
            }
            let ghost j = created@.len() as int;
            created.push(current_char);
            proof {
                assert(created@ =~= a.subrange(0, j + 1));
            }
            current_char = self.advance(Ghost(start), Ghost(a), Ghost(j));
        }
        proof {
            lemma_identifier_run(a, 0, created@.len() as int);
            if (created@.len() as int) < k {
                assert(false);
            }
        }
        match keyword(&created) {
            Some(category) => Ok(Some(Token { category, value: TokenValue::Null, position: self.position })),
            None => {
                let name = crate::text::string_from_chars(&created);
                Ok(Some(Token { category: TokenCategory::Identifier, value: TokenValue::String(name), position: self.position }))
            },
        }
    }

    /// Reads the next token. Whitespace is skipped first; the token is the
    /// one `lex` describes for the characters that follow.
    #[verifier::spinoff_prover]
    pub fn generate_token(&mut self) -> (r: Result<Token, LexerIssue>)
        requires
            old(self).wf(),
        ensures
            final(self).wf(),
            final(self).reader().input() == old(self).reader().input(),
            final(self).spec_options() == old(self).spec_options(),
            final(self).remaining() <= old(self).remaining(),
            ({
                let a = skip_whitespace(old(self).ahead());
                match lex(a, old(self).spec_options().max_comment_length as nat, old(self).spec_options().max_identifier_length as nat) {
                    Lexeme::Token { category, value, length } => {
                        &&& r matches Ok(t)
                        &&& t.category == category
                        &&& value_view(t.value) == value
                        &&& t.position == final(self).token_start()
                        &&& final(self).ahead() == after(a, length as int)
                        &&& final(self).spec_current() == Some(t)
                        &&& (category != TokenCategory::ETX ==> final(self).remaining() < old(self).remaining())
                        &&& warned(old(self).spec_warnings(), final(self).spec_warnings(), lex_warnings(a))
                    },
                    Lexeme::Refused(e) => {
                        &&& r matches Err(issue)
                        &&& issue.kind == LexerIssueKind::ERROR
                        &&& starts_with_line(issue.message@, lex_error_text(e, old(self).spec_options()))
                        &&& final(self).spec_current() == old(self).spec_current()
                    },
                }
            }),
    {
        self.skip_whitespaces();
        self.position = self.src.position();
        proof {
            self.lemma_stay();
            self.src.lemma_chars_ahead();
        }
        let ghost a = self.ahead();
        let ghost before = *self;
        let mut result: Option<Token> = None;
        match self.try_generating_sign() {
            Ok(Some(t)) => {
                result = Some(t);
            },
            Ok(None) => {},
            Err(e) => {
                return Err(e);
            },
        }
        if result.is_none() {
            match self.try_generating_operator() {
                Ok(Some(t)) => {
                    result = Some(t);
                },
                Ok(None) => {},
                Err(e) => {
                    return Err(e);
                },
            }
        }
        if result.is_none() {
            match self.try_generating_comment() {
                Ok(Some(t)) => {
                    result = Some(t);
                },
                Ok(None) => {},
                Err(e) => {
                    return Err(e);
                },
            }
        }
        if result.is_none() {
            match self.try_generating_string() {
                Ok(Some(t)) => {
                    result = Some(t);
                },
                Ok(None) => {},
                Err(e) => {
                    return Err(e);
                },
            }
        }
        if result.is_none() {
            match self.try_generating_number() {
                Ok(Some(t)) => {
                    result = Some(t);
                },
                Ok(None) => {},
                Err(e) => {
                    return Err(e);
                },
            }
        }
        if result.is_none() {
            match self.try_creating_identifier_or_keyword() {
                Ok(Some(t)) => {
                    result = Some(t);
                },
                Ok(None) => {},
                Err(e) => {
                    return Err(e);
                },
            }
        }
        match result {
            Some(token) => {
                proof {
                    lemma_scan_string_end(a, 1, Seq::empty());
                    lemma_digit_run(a, 0, 0);
                    lemma_identifier_run(a, 0, 0);
                    if token.category != TokenCategory::ETX {
                        assert(a[0] != ETX);
                        assert(before.remaining() > 0);
                    }
                }
                self.current = Some(token.duplicate());
                Ok(token)
            },
            None => {
                proof {
                    self.lemma_stay();
                }
                let text = String::from_str("Unexpected token");
                Err(self.create_lexer_issue(text))
            },
        }
    }
}


impl ILexer for Lexer {
    closed spec fn token(&self) -> Option<Token> {
        self.current
    }

    closed spec fn measure(&self) -> nat {
        self.src.remaining() + match self.current {
            Some(t) => if t.category != TokenCategory::ETX { 1nat } else { 0nat },
            None => 1nat,
        }
    }

    closed spec fn valid(&self) -> bool {
        self.wf()
    }

    /// The lexer reads its tokens from the characters only when asked.
    closed spec fn coming(&self) -> Seq<Token> {
        Seq::empty()
    }

    fn current(&self) -> (t: &Option<Token>) {
        &self.current
    }

    /// Reads the token `lex` finds after the whitespace ahead; where `lex`
    /// refuses the input, the lexer's error becomes a parser error.
    fn next(&mut self) -> (r: Result<Token, crate::issues::ParserIssue>)
        ensures
            final(self).reader().input() == old(self).reader().input(),
            final(self).spec_options() == old(self).spec_options(),
            ({
                let a = skip_whitespace(old(self).ahead());
                match lex(a, old(self).spec_options().max_comment_length as nat, old(self).spec_options().max_identifier_length as nat) {
                    Lexeme::Token { category, value, length } => {
                        &&& r matches Ok(t)
                        &&& t.category == category
                        &&& value_view(t.value) == value
                        &&& t.position == final(self).token_start()
                        &&& final(self).ahead() == after(a, length as int)
                        &&& final(self).spec_current() == Some(t)
                        &&& warned(old(self).spec_warnings(), final(self).spec_warnings(), lex_warnings(a))
                    },
                    Lexeme::Refused(e) => {
                        &&& r matches Err(issue)
                        &&& issue.level == crate::issues::IssueLevel::ERROR
                        &&& starts_with_line(issue.message@, lex_error_text(e, old(self).spec_options()))
                        &&& final(self).spec_current() == old(self).spec_current()
                    },
                }
            }),
    {
        match self.generate_token() {
            Ok(token) => Ok(token),
            Err(issue) => Err(crate::issues::ParserIssue { level: crate::issues::IssueLevel::ERROR, message: issue.message }),
        }
    }
}

} // verus!
