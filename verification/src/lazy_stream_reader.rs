use vstd::prelude::*;
use vstd::string::StringExecFns;

use crate::position::Position;

verus! {

/// Marks the state before the first character was read.
pub const STX: char = '\u{2}';
/// Marks the end of the input.
pub const ETX: char = '\u{3}';

/// Number of bytes that the UTF-8 encoding of `c` takes.
pub open spec fn spec_len_utf8(c: char) -> nat {
    if (c as u32) < 0x80 {
        1
    } else if (c as u32) < 0x800 {
        2
    } else if (c as u32) < 0x10000 {
        3
    } else {
        4
    }
}

pub fn len_utf8(c: char) -> (n: usize)
    ensures
        n == spec_len_utf8(c),
{
    let code = c as u32;
    if code < 0x80 {
        1
    } else if code < 0x800 {
        2
    } else if code < 0x10000 {
        3
    } else {
        4
    }
}

/// What one read at byte index `pos` of `src` yields: the character and the
/// number of bytes it takes. A carriage return, a line feed, or a carriage
/// return followed by a line feed read as `'\n'` when at least two bytes are
/// left; any other byte reads as the character of the same code; past the
/// end the reader yields `ETX` and takes nothing.
pub open spec fn spec_read(src: Seq<u8>, pos: int) -> (char, int) {
    if pos + 1 < src.len() && src[pos] == 13u8 {
        ('\n', if src[pos + 1] == 10u8 { 2int } else { 1int })
    } else if pos + 1 < src.len() && src[pos] == 10u8 {
        ('\n', 1int)
    } else if pos < src.len() {
        ((src[pos] as u32) as char, 1int)
    } else {
        (ETX, 0int)
    }
}

/// Whether the read at `pos` is a newline sequence (which is then remembered).
pub open spec fn spec_read_is_newline_sequence(src: Seq<u8>, pos: int) -> bool {
    pos + 1 < src.len() && (src[pos] == 13u8 || src[pos] == 10u8)
}

/// The position after leaving character `left` behind; `newline_len` is the
/// length in bytes of the newline sequence in use.
pub open spec fn spec_advance(p: Position, left: char, newline_len: nat) -> Position {
    if left == STX {
        Position { line: 1, column: 1, offset: 0 }
    } else if left == ETX {
        p
    } else if left == '\n' {
        Position { line: (p.line + 1) as u32, column: 1, offset: (p.offset + newline_len) as usize }
    } else {
        Position { line: p.line, column: (p.column + 1) as u32, offset: (p.offset + spec_len_utf8(left)) as usize }
    }
}

/// The characters that the reader yields from byte `pos` to the end.
pub open spec fn spec_stream(src: Seq<u8>, pos: int) -> Seq<char>
    decreases src.len() - pos,
{
    if pos < 0 || pos >= src.len() {
        Seq::<char>::empty()
    } else {
        seq![spec_read(src, pos).0] + spec_stream(src, pos + spec_read(src, pos).1)
    }
}

/// Bytes from `pos` up to and including the next line feed, or to the end.
pub open spec fn spec_rest_of_line_len(src: Seq<u8>, pos: int) -> int
    decreases src.len() - pos,
{
    if pos < 0 || pos >= src.len() {
        0
    } else if src[pos] == 10u8 {
        1
    } else {
        1 + spec_rest_of_line_len(src, pos + 1)
    }
}

/// The text shown under an error: the line so far, the current character,
/// the rest of the line (when it is valid UTF-8), and a caret under the column.
pub open spec fn spec_snippet(line: Seq<char>, current: char, rest: Seq<char>, column: u32) -> Seq<char> {
    "\nAt line:\n"@ + line + seq![current] + rest + Seq::new((column - 1) as nat, |_i: int| ' ') + "^"@
}

proof fn lemma_stream_step(src: Seq<u8>, pos: int)
    requires
        0 <= pos <= src.len(),
    ensures
        pos < src.len() ==> spec_stream(src, pos) == seq![spec_read(src, pos).0] + spec_stream(src, pos + spec_read(src, pos).1),
        pos < src.len() ==> spec_read(src, pos).1 >= 1,
        pos == src.len() ==> spec_stream(src, pos) == Seq::<char>::empty(),
        pos == src.len() ==> spec_read(src, pos) == (ETX, 0int),
{
}

proof fn lemma_stream_len(src: Seq<u8>, pos: int)
    requires
        0 <= pos <= src.len(),
    ensures
        spec_stream(src, pos).len() <= src.len() - pos,
        spec_stream(src, pos).len() == 0 <==> pos == src.len(),
    decreases src.len() - pos,
{
    if pos < src.len() {
        lemma_stream_len(src, pos + spec_read(src, pos).1);
    }
}

/// Reads a source text byte by byte, normalising newline sequences to
/// `'\n'` and keeping track of the line, column and byte offset.
pub struct LazyStreamReader {
    src: Vec<u8>,
    pos: usize,
    current_line: Vec<char>,
    current_char: char,
    newline: Option<Vec<u8>>,
    current_position: Position,
    consumed: Ghost<bool>,
}

impl LazyStreamReader {
    /// The whole input.
    pub closed spec fn input(&self) -> Seq<u8> {
        self.src@
    }

    /// How many bytes of the input have been read.
    pub closed spec fn cursor(&self) -> int {
        self.pos as int
    }

    pub closed spec fn spec_current(&self) -> char {
        self.current_char
    }

    pub closed spec fn spec_position(&self) -> Position {
        self.current_position
    }

    /// The characters of the current line left behind so far.
    pub closed spec fn line_so_far(&self) -> Seq<char> {
        self.current_line@
    }

    /// Length of the newline sequence in use (one byte until a sequence was seen).
    pub closed spec fn newline_len(&self) -> nat {
        match self.newline {
            Some(v) => v@.len(),
            None => 1,
        }
    }

    /// A measure that every read strictly lowers until the end is reached.
    pub closed spec fn remaining(&self) -> nat {
        (2 * (self.src@.len() - self.pos) + if self.current_char == ETX && self.pos == self.src@.len() { 0int } else { 1int }) as nat
    }

    /// The current character followed by every character still to be read.
    pub closed spec fn chars_ahead(&self) -> Seq<char> {
        seq![self.current_char] + spec_stream(self.src@, self.pos as int)
    }

    pub proof fn lemma_chars_ahead(&self)
        requires
            self.wf(),
        ensures
            1 <= self.chars_ahead().len() <= self.input().len() - self.cursor() + 1,
            self.input().len() < u32::MAX,
            0 <= self.cursor() <= self.input().len(),
            self.chars_ahead()[0] == self.spec_current(),
            self.remaining() == 0 ==> self.chars_ahead() == seq![ETX],
            self.remaining() > 0 ==> !(self.spec_current() == ETX && self.chars_ahead().len() == 1) || self.cursor() < self.input().len(),
            self.spec_current() != STX ==> self.spec_position().column >= 1,
    {
        lemma_stream_len(self.src@, self.pos as int);
    }

    pub closed spec fn wf(&self) -> bool {
        &&& self.pos <= self.src@.len()
        &&& self.src@.len() < u32::MAX
        &&& 2 * self.src@.len() <= usize::MAX
        &&& self.current_position.line <= self.pos + 1
        &&& self.current_position.column <= self.pos + 1
        &&& self.current_position.offset <= 2 * self.pos
        &&& self.consumed@ ==> {
            &&& self.current_position.line <= self.pos
            &&& self.current_position.column <= self.pos
            &&& self.current_position.offset + 2 <= 2 * self.pos
        }
        &&& (self.current_char as u32) <= 0xFF
        &&& self.current_position.column == 0 ==> self.current_char == STX
        &&& !self.consumed@ ==> (self.current_char == ETX || self.current_char == STX)
        &&& self.newline matches Some(v) ==> 1 <= v@.len() <= 2
    }

    pub fn new(src: Vec<u8>) -> (r: Self)
        requires
            src@.len() < u32::MAX,
            2 * src@.len() <= usize::MAX,
        ensures
            r.wf(),
            r.input() == src@,
            r.cursor() == 0,
            r.spec_current() == STX,
            r.spec_position() == (Position { line: 0, column: 0, offset: 0 }),
            r.line_so_far() == Seq::<char>::empty(),
            r.newline_len() == 1,
    {
        LazyStreamReader {
            src,
            pos: 0,
            current_line: Vec::new(),
            current_char: STX,
            newline: None,
            current_position: Position::new(0, 0, 0),
            consumed: Ghost(false),
        }
    }

    pub fn current(&self) -> (c: char)
        ensures
            c == self.spec_current(),
    {
        self.current_char
    }

    pub fn position(&self) -> (p: Position)
        ensures
            p == self.spec_position(),
    {
        self.current_position
    }

    /// Reads the next character; the one that was current is left behind and
    /// the position moves past it.
    pub fn next(&mut self) -> (c: char)
        requires
            old(self).wf(),
        ensures
            final(self).wf(),
            final(self).input() == old(self).input(),
            c == final(self).spec_current(),
            c == spec_read(old(self).input(), old(self).cursor()).0,
            final(self).cursor() == old(self).cursor() + spec_read(old(self).input(), old(self).cursor()).1,
            final(self).newline_len() == if spec_read_is_newline_sequence(old(self).input(), old(self).cursor()) {
                spec_read(old(self).input(), old(self).cursor()).1 as nat
            } else {
                old(self).newline_len()
            },
            final(self).spec_position() == spec_advance(old(self).spec_position(), old(self).spec_current(), final(self).newline_len()),
            final(self).line_so_far() == if old(self).spec_current() == '\n' {
                Seq::<char>::empty()
            } else if old(self).spec_current() == STX || old(self).spec_current() == ETX {
                old(self).line_so_far()
            } else {
                old(self).line_so_far().push(old(self).spec_current())
            },
            old(self).remaining() > 0 ==> final(self).remaining() < old(self).remaining(),
            old(self).remaining() == 0 ==> final(self).remaining() == 0,
            old(self).remaining() == 0 ==> c == ETX,
            final(self).spec_position().column >= 1,
            final(self).chars_ahead() == if old(self).chars_ahead().len() > 1 {
                old(self).chars_ahead().drop_first()
            } else {
                seq![ETX]
            },
    {
        proof {
            lemma_stream_step(self.src@, self.pos as int);
        }
        let left = self.current_char;
        let old_pos = self.pos;
        let new_char = self.read_char();
        self.update_position(left);
        self.current_char = new_char;
        self.consumed = Ghost(self.pos > old_pos);
        new_char
    }

    /// Reads the rest of the current line (up to and including the line
    /// feed) and returns the text shown under an error message.
    pub fn error_code_snippet(&mut self) -> (s: String)
        requires
            old(self).wf(),
            old(self).spec_position().column >= 1,
        ensures
            final(self).wf(),
            final(self).input() == old(self).input(),
            final(self).spec_current() == old(self).spec_current(),
            final(self).spec_position() == old(self).spec_position(),
            final(self).line_so_far() == old(self).line_so_far(),
            final(self).newline_len() == old(self).newline_len(),
            final(self).remaining() <= old(self).remaining(),
            final(self).cursor() == old(self).cursor() + spec_rest_of_line_len(old(self).input(), old(self).cursor()),
            ({
                let rest = old(self).input().subrange(old(self).cursor(), final(self).cursor());
                let rest_text = if vstd::utf8::valid_utf8(rest) { vstd::utf8::decode_utf8(rest) } else { Seq::<char>::empty() };
                s@ == spec_snippet(old(self).line_so_far(), old(self).spec_current(), rest_text, old(self).spec_position().column)
            }),
    {
        let start = self.pos;
        let mut buffer: Vec<u8> = Vec::new();
        let len = self.src.len();
        let mut done = false;
        while !done && self.pos < len
            invariant
                start <= self.pos <= len,
                len == self.src@.len(),
                self.wf(),
                self.src == old(self).src,
                self.current_position == old(self).current_position,
                self.current_char == old(self).current_char,
                self.current_line == old(self).current_line,
                self.newline == old(self).newline,
                buffer@ == self.src@.subrange(start as int, self.pos as int),
                done ==> spec_rest_of_line_len(self.src@, start as int) == self.pos - start,
                !done ==> spec_rest_of_line_len(self.src@, start as int) == (self.pos - start) + spec_rest_of_line_len(self.src@, self.pos as int),
            decreases len - self.pos + (if done { 0int } else { 1int }),
        {
            let byte = self.src[self.pos];
            buffer.push(byte);
            self.pos = self.pos + 1;
            if byte == 10u8 {
                done = true;
            }
        }
        let mut s = String::from_str("\nAt line:\n");
        let line = crate::text::string_from_chars(&self.current_line);
        s.append(line.as_str());
        crate::text::push_char(&mut s, self.current_char);
        match crate::text::str_from_utf8(buffer.as_slice()) {
            Some(rest) => s.append(rest),
            None => {},
        }
        let spaces = crate::text::repeat_char(' ', (self.current_position.column - 1) as usize);
        s.append(spaces.as_str());
        s.append("^");
        s
    }

    /// Takes the next character from the input (see `spec_read`).
    fn read_char(&mut self) -> (c: char)
        requires
            old(self).wf(),
        ensures
            c == spec_read(old(self).input(), old(self).cursor()).0,
            final(self).cursor() == old(self).cursor() + spec_read(old(self).input(), old(self).cursor()).1,
            final(self).src == old(self).src,
            final(self).current_line == old(self).current_line,
            final(self).current_char == old(self).current_char,
            final(self).current_position == old(self).current_position,
            final(self).consumed == old(self).consumed,
            final(self).newline_len() == if spec_read_is_newline_sequence(old(self).input(), old(self).cursor()) {
                spec_read(old(self).input(), old(self).cursor()).1 as nat
            } else {
                old(self).newline_len()
            },
            final(self).newline matches Some(v) ==> 1 <= v@.len() <= 2,
    {
        match self.try_handle_newline() {
            None => self.process_char(),
            Some(c) => c,
        }
    }

    fn try_handle_newline(&mut self) -> (r: Option<char>)
        requires
            old(self).wf(),
        ensures
            spec_read_is_newline_sequence(old(self).input(), old(self).cursor()) ==> {
                &&& r == Some('\n')
                &&& final(self).cursor() == old(self).cursor() + spec_read(old(self).input(), old(self).cursor()).1
                &&& final(self).newline matches Some(v) && v@ == old(self).input().subrange(
                    old(self).cursor() as int,
                    old(self).cursor() + spec_read(old(self).input(), old(self).cursor()).1,
                )
            },
            !spec_read_is_newline_sequence(old(self).input(), old(self).cursor()) ==> {
                &&& r is None
                &&& final(self).pos == old(self).pos
                &&& final(self).newline == old(self).newline
            },
            final(self).src == old(self).src,
            final(self).current_line == old(self).current_line,
            final(self).current_char == old(self).current_char,
            final(self).current_position == old(self).current_position,
            final(self).consumed == old(self).consumed,
    {
        let len = self.src.len();
        if self.pos + 1 < len {
            let first = self.src[self.pos];
            let second = self.src[self.pos + 1];
            if first == 13u8 {
                let mut sequence: Vec<u8> = Vec::new();
                sequence.push(first);
                self.pos = self.pos + 1;
                if second == 10u8 {
                    sequence.push(second);
                    self.pos = self.pos + 1;
                }
                assert(sequence@ =~= self.src@.subrange(old(self).pos as int, self.pos as int));
                self.newline = Some(sequence);
                return Some('\n');
            } else if first == 10u8 {
                let mut sequence: Vec<u8> = Vec::new();
                sequence.push(first);
                self.pos = self.pos + 1;
                assert(sequence@ =~= self.src@.subrange(old(self).pos as int, self.pos as int));
                self.newline = Some(sequence);
                return Some('\n');
            }
        }
        None
    }

    fn process_char(&mut self) -> (c: char)
        requires
            old(self).wf(),
        ensures
            old(self).cursor() < old(self).input().len() ==> {
                &&& c == ((old(self).input()[old(self).cursor()] as u32) as char)
                &&& final(self).cursor() == old(self).cursor() + 1
            },
            old(self).cursor() >= old(self).input().len() ==> {
                &&& c == ETX
                &&& final(self).cursor() == old(self).cursor()
            },
            final(self).src == old(self).src,
            final(self).current_line == old(self).current_line,
            final(self).current_char == old(self).current_char,
            final(self).current_position == old(self).current_position,
            final(self).consumed == old(self).consumed,
            final(self).newline == old(self).newline,
    {
        if self.pos >= self.src.len() {
            return ETX;
        }
        let byte = self.src[self.pos];
        self.pos = self.pos + 1;
        byte as char
    }

    fn update_position(&mut self, left: char)
        requires
            (left as u32) <= 0xFF,
            left != STX && left != ETX ==> {
                &&& old(self).current_position.line < u32::MAX
                &&& old(self).current_position.column < u32::MAX
                &&& old(self).current_position.offset + 2 <= usize::MAX
            },
            old(self).newline matches Some(v) ==> v@.len() <= 2,
        ensures
            final(self).current_position == spec_advance(old(self).current_position, left, old(self).newline_len()),
            final(self).src == old(self).src,
            final(self).pos == old(self).pos,
            final(self).current_char == old(self).current_char,
            final(self).newline == old(self).newline,
            final(self).consumed == old(self).consumed,
            final(self).current_line@ == if left == '\n' {
                Seq::<char>::empty()
            } else if left == STX || left == ETX {
                old(self).current_line@
            } else {
                old(self).current_line@.push(left)
            },
    {
        if left == STX {
            self.current_position = Position::new(1, 1, 0);
        } else if left == ETX {
        } else if left == '\n' {
            let newline_len: usize = match &self.newline {
                Some(v) => v.len(),
                None => 1,
            };
            self.current_position.offset = self.current_position.offset + newline_len;
            self.current_position.line = self.current_position.line + 1;
            self.current_position.column = 1;
            self.current_line = Vec::new();
        } else {
            self.current_position.offset = self.current_position.offset + len_utf8(left);
            self.current_position.column = self.current_position.column + 1;
            self.current_line.push(left);
        }
    }
}

} // verus!
