//! A reader of characters from UTF-8 bytes that turns each newline sequence
//! into `'\n'` and refuses a source that mixes newline sequences.
use vstd::prelude::*;
use vstd::string::StringExecFns;
use vstd::utf8::{decode_utf8, valid_utf8};

use crate::lazy_stream_reader::{len_utf8, spec_len_utf8, ETX, STX};

verus! {

#[verifier::external_type_specification]
#[verifier::external_body]
pub struct ExIoError(std::io::Error);

/// Why `read_char::read_next_char` gave no character.
#[derive(Debug)]
pub enum ReadCharError {
    /// Six bytes (here with a trailing zero) that start no UTF-8 character.
    NotAnUtf8(Vec<u8>),
    /// The source failed.
    Io(std::io::Error),
    /// The bytes ended.
    EOF,
}

/// The length of the shortest prefix of `b`, from `k` bytes up to six, that
/// is valid UTF-8.
pub open spec fn utf8_prefix_len(b: Seq<u8>, k: int) -> Option<int>
    decreases 7 - k,
{
    if k < 1 || k > 6 || k > b.len() {
        None
    } else if valid_utf8(b.take(k)) {
        Some(k)
    } else {
        utf8_prefix_len(b, k + 1)
    }
}

/// What `read_char::read_next_char` does on the bytes `b`: it reads one
/// byte at a time until what it has read is valid UTF-8 and gives the
/// character; it gives `EOF` when the bytes end first, and `NotAnUtf8` after
/// six bytes that never became valid. The result comes with the number of
/// bytes left.
pub open spec fn next_char_outcome(b: Seq<u8>, r: Result<char, ReadCharError>, left: int) -> bool {
    match utf8_prefix_len(b, 1) {
        Some(k) => r == Ok::<char, ReadCharError>(decode_utf8(b.take(k))[0]) && left == b.len() - k,
        None => if b.len() < 6 {
            (r matches Err(ReadCharError::EOF)) && left == 0
        } else {
            (r matches Err(ReadCharError::NotAnUtf8(v)) && v@ == b.take(6).push(0u8)) && left == b.len() - 6
        },
    }
}

/// Reads the next character from `bytes` with `read_char::read_next_char`.
/// Trusted: the contract restates, for a byte slice (which never fails to
/// read), what the crate's source does: read byte by byte, test the bytes read
/// with `std::str::from_utf8`, stop at six bytes.
#[verifier::external_body]
fn read_next_char(bytes: &[u8]) -> (r: (Result<char, ReadCharError>, usize))
    ensures
        next_char_outcome(bytes@, r.0, r.1 as int),
{
    let mut rest: &[u8] = bytes;
    let result = match read_char::read_next_char(&mut rest) {
        Ok(c) => Ok(c),
        Err(read_char::Error::NotAnUtf8(b)) => Err(ReadCharError::NotAnUtf8(b)),
        Err(read_char::Error::Io(e)) => Err(ReadCharError::Io(e)),
        Err(read_char::Error::EOF) => Err(ReadCharError::EOF),
    };
    (result, rest.len())
}

/// Why the reader stopped.
#[derive(Debug)]
pub enum Error {
    /// A newline sequence other than the first one met.
    InconsistentNewline { expected: Vec<u8>, got: Vec<u8> },
    /// The bytes are no UTF-8.
    Read(ReadCharError),
}

/// A place in the source: 1-based line and column, and the byte offset.
#[derive(PartialEq, Eq, Clone, Copy)]
pub struct Position {
    pub line: u32,
    pub column: u32,
    pub offset: usize,
}

pub open spec fn position_display(p: Position) -> Seq<char> {
    "["@ + crate::text::nat_text(p.line as nat) + ":"@ + crate::text::nat_text(p.column as nat) + "]"@
}

pub open spec fn position_debug(p: Position) -> Seq<char> {
    "["@ + crate::text::nat_text(p.line as nat) + ":"@ + crate::text::nat_text(p.column as nat) + ","@
        + crate::text::nat_text(p.offset as nat) + "]"@
}

impl Position {
    /// `[line:column]`.
    pub fn display_text(&self) -> (s: String)
        ensures
            s@ == position_display(*self),
    {
        let mut s = String::from_str("[");
        s.append(crate::text::u64_to_string(self.line as u64).as_str());
        s.append(":");
        s.append(crate::text::u64_to_string(self.column as u64).as_str());
        s.append("]");
        s
    }

    /// `[line:column,offset]`.
    pub fn debug_text(&self) -> (s: String)
        requires
            self.offset <= u64::MAX,
        ensures
            s@ == position_debug(*self),
    {
        let mut s = String::from_str("[");
        s.append(crate::text::u64_to_string(self.line as u64).as_str());
        s.append(":");
        s.append(crate::text::u64_to_string(self.column as u64).as_str());
        s.append(",");
        s.append(crate::text::u64_to_string(self.offset as u64).as_str());
        s.append("]");
        s
    }
}

/// What reading one character of UTF-8 at byte `pos` of `src` gives, and
/// the byte it ends at: past the end (or before an incomplete tail) it is
/// `ETX`; six bytes that start no character are refused.
pub open spec fn char_outcome(src: Seq<u8>, pos: nat, r: Result<char, Error>, end: nat) -> bool {
    let rest = src.skip(pos as int);
    match utf8_prefix_len(rest, 1) {
        Some(k) => r == Ok::<char, Error>(decode_utf8(rest.take(k))[0]) && end == pos + k,
        None => if rest.len() < 6 {
            r == Ok::<char, Error>(ETX) && end == src.len()
        } else {
            (r matches Err(Error::Read(ReadCharError::NotAnUtf8(v))) && v@ == rest.take(6).push(0u8)) && end == pos + 6
        },
    }
}

/// What reading the next character at byte `pos` gives, the byte it ends at
/// and the newline sequence in use after it (`newline` before): a newline
/// sequence is read as `'\n'`, and must be the one first read.
pub open spec fn read_outcome(
    src: Seq<u8>,
    pos: nat,
    newline: Option<Seq<u8>>,
    r: Result<char, Error>,
    end: nat,
    newline_after: Option<Seq<u8>>,
) -> bool {
    match newline_at(src, pos as int) {
        Some(nl) => {
            &&& end == pos + nl.len()
            &&& match newline {
                Some(expected) => newline_after == newline && if expected == nl {
                    r == Ok::<char, Error>('\n')
                } else {
                    r matches Err(Error::InconsistentNewline { expected: e, got: g }) && e@ == expected && g@ == nl
                },
                None => r == Ok::<char, Error>('\n') && newline_after == Some(nl),
            }
        },
        None => newline_after == newline && char_outcome(src, pos, r, end),
    }
}

/// Where a reader stands after leaving the character `left`: `STX` starts
/// line 1, `ETX` moves nowhere, a newline starts the next line and passes
/// the newline sequence's bytes, any other character moves one column on.
pub open spec fn position_after(p: Position, left: char, newline: Option<Seq<u8>>) -> Position {
    if left == STX {
        Position { line: 1, column: 1, offset: 0 }
    } else if left == ETX {
        p
    } else if left == '\n' {
        Position {
            line: (p.line + 1) as u32,
            column: 1,
            offset: (p.offset + match newline {
                Some(nl) => nl.len(),
                None => 0,
            }) as usize,
        }
    } else {
        Position { line: p.line, column: (p.column + 1) as u32, offset: (p.offset + spec_len_utf8(left)) as usize }
    }
}

/// A source of characters with their positions.
pub trait CharRead {
    spec fn valid(&self) -> bool;

    fn current(&self) -> char;

    fn next(&mut self) -> (r: Result<char, Error>)
        requires
            old(self).valid(),
        ensures
            final(self).valid(),
    ;

    fn position(&self) -> Position;
}

/// The newline sequence at byte `pos`: `\n` or `\r`, with a following
/// `\r` or `\n` that differs from it.
pub open spec fn newline_at(src: Seq<u8>, pos: int) -> Option<Seq<u8>> {
    if 0 <= pos < src.len() && (src[pos] == 10u8 || src[pos] == 13u8) {
        if pos + 1 < src.len() && (src[pos + 1] == 10u8 || src[pos + 1] == 13u8) && src[pos + 1] != src[pos] {
            Some(seq![src[pos], src[pos + 1]])
        } else {
            Some(seq![src[pos]])
        }
    } else {
        None
    }
}

proof fn lemma_prefix_len_bounds(b: Seq<u8>, k: int)
    ensures
        utf8_prefix_len(b, k) matches Some(j) ==> k <= j && 1 <= j <= 6 && j <= b.len(),
    decreases 7 - k,
{
    if !(k < 1 || k > 6 || k > b.len()) && !valid_utf8(b.take(k)) {
        lemma_prefix_len_bounds(b, k + 1);
    }
}

fn bytes_equal(a: &Vec<u8>, b: &Vec<u8>) -> (r: bool)
    ensures
        r == (a@ == b@),
{
    if a.len() != b.len() {
        return false;
    }
    let mut i: usize = 0;
    while i < a.len()
        invariant
            i <= a@.len(),
            a@.len() == b@.len(),
            forall|j: int| 0 <= j < i ==> a@[j] == b@[j],
        decreases a@.len() - i,
    {
        if a[i] != b[i] {
            return false;
        }
        i = i + 1;
    }
    assert(a@ =~= b@);
    true
}

pub struct CharReader {
    src: Vec<u8>,
    pos: usize,
    current_char: char,
    char_len: usize,
    newline: Option<Vec<u8>>,
    current_position: Position,
    current_bytes: Ghost<nat>,
}

impl CharReader {
    /// The bytes read so far stay within the source, and the position grows
    /// no faster than them: at most four bytes of offset, one line and one
    /// column for each byte read.
    pub closed spec fn wf(&self) -> bool {
        let p = self.current_position;
        let cur = self.current_bytes@;
        &&& self.pos <= self.src@.len()
        &&& self.src@.len() + 1 < u32::MAX
        &&& 4 * (self.src@.len() + 1) < usize::MAX
        &&& cur <= self.pos
        &&& p.offset + 4 * cur <= 4 * self.pos
        &&& p.line + (if cur > 0 { 1int } else { 0int }) <= self.pos + 1
        &&& p.column + (if cur > 0 { 1int } else { 0int }) <= self.pos + 1
        &&& self.newline matches Some(nl) ==> 1 <= nl@.len() <= 2
        &&& self.current_char != STX && self.current_char != ETX ==> cur >= 1
    }

    pub closed spec fn bytes(&self) -> Seq<u8> {
        self.src@
    }

    pub closed spec fn spec_pos(&self) -> nat {
        self.pos as nat
    }

    pub closed spec fn spec_newline(&self) -> Option<Seq<u8>> {
        match self.newline {
            Some(nl) => Some(nl@),
            None => None,
        }
    }

    pub closed spec fn spec_current_bytes(&self) -> nat {
        self.current_bytes@
    }

    pub closed spec fn spec_current(&self) -> char {
        self.current_char
    }

    pub closed spec fn spec_position(&self) -> Position {
        self.current_position
    }

    /// A reader before the first character of `src`.
    pub fn new(src: Vec<u8>) -> (r: CharReader)
        requires
            src@.len() + 1 < u32::MAX,
            4 * (src@.len() + 1) < usize::MAX,
        ensures
            r.wf(),
            r.bytes() == src@,
            r.spec_pos() == 0,
            r.spec_current() == STX,
            r.spec_newline() is None,
            r.spec_position() == (Position { line: 0, column: 0, offset: 0 }),
    {
        CharReader {
            src,
            pos: 0,
            current_char: STX,
            char_len: 0,
            newline: None,
            current_position: Position { line: 0, column: 0, offset: 0 },
            current_bytes: Ghost(0),
        }
    }

    /// Reads a newline sequence, if one starts here, as `'\n'`; it must be
    /// the same sequence as the first one read.
    pub fn try_process_newline(&mut self) -> (r: Result<Option<char>, Error>)
        requires
            old(self).spec_pos() <= old(self).bytes().len(),
        ensures
            final(self).bytes() == old(self).bytes(),
            final(self).spec_current() == old(self).spec_current(),
            final(self).spec_position() == old(self).spec_position(),
            final(self).spec_current_bytes() == old(self).spec_current_bytes(),
            old(self).spec_newline() is Some ==> final(self).spec_newline() == old(self).spec_newline(),
            final(self).spec_newline() matches Some(nl) ==> final(self).spec_newline() == old(self).spec_newline() || 1
                <= nl.len() <= 2,
            match newline_at(old(self).bytes(), old(self).spec_pos() as int) {
                None => r matches Ok(None) && final(self).spec_pos() == old(self).spec_pos() && final(self).spec_newline() == old(self).spec_newline(),
                Some(nl) => {
                    &&& final(self).spec_pos() == old(self).spec_pos() + nl.len()
                    &&& match old(self).spec_newline() {
                        Some(expected) => if expected == nl {
                            r matches Ok(Some(c)) && c == '\n' && final(self).spec_newline() == old(self).spec_newline()
                        } else {
                            r matches Err(Error::InconsistentNewline { expected: e, got: g }) && e@ == expected
                                && g@ == nl
                        },
                        None => r matches Ok(Some(c)) && c == '\n' && final(self).spec_newline() == Some(nl),
                    }
                },
            },
    {
        let n = self.src.len();
        if !(self.pos < n && (self.src[self.pos] == 10u8 || self.src[self.pos] == 13u8)) {
            return Ok(None);
        }
        let first = self.src[self.pos];
        self.pos = self.pos + 1;
        let mut bytes: Vec<u8> = Vec::new();
        bytes.push(first);
        if self.pos < n {
            let second = self.src[self.pos];
            if (second == 10u8 || second == 13u8) && second != first {
                self.pos = self.pos + 1;
                bytes.push(second);
            }
        }
        proof {
            assert(bytes@ =~= newline_at(old(self).bytes(), old(self).spec_pos() as int)->0);
        }
        match &self.newline {
            Some(expected) => {
                if !bytes_equal(expected, &bytes) {
                    return Err(Error::InconsistentNewline { expected: expected.clone(), got: bytes });
                }
            },
            None => {
                self.newline = Some(bytes);
            },
        }
        Ok(Some('\n'))
    }

    /// Reads one character of UTF-8; past the end it is `ETX`.
    pub fn process_char(&mut self) -> (r: Result<char, Error>)
        requires
            old(self).spec_pos() <= old(self).bytes().len(),
        ensures
            final(self).bytes() == old(self).bytes(),
            final(self).spec_current() == old(self).spec_current(),
            final(self).spec_position() == old(self).spec_position(),
            final(self).spec_current_bytes() == old(self).spec_current_bytes(),
            final(self).spec_newline() == old(self).spec_newline(),
            old(self).spec_pos() <= final(self).spec_pos() <= old(self).bytes().len(),
            ({
                let rest = old(self).bytes().skip(old(self).spec_pos() as int);
                match utf8_prefix_len(rest, 1) {
                    Some(k) => r == Ok::<char, Error>(decode_utf8(rest.take(k))[0]) && final(self).spec_pos() == old(self).spec_pos() + k,
                    None => if rest.len() < 6 {
                        r == Ok::<char, Error>(ETX) && final(self).spec_pos() == old(self).bytes().len()
                    } else {
                        (r matches Err(Error::Read(ReadCharError::NotAnUtf8(v))) && v@ == rest.take(6).push(0u8))
                            && final(self).spec_pos() == old(self).spec_pos() + 6
                    },
                }
            }),
    {
        let (_, rest) = self.src.as_slice().split_at(self.pos);
        let (result, left) = read_next_char(rest);
        proof {
            assert(rest@ =~= old(self).bytes().skip(old(self).spec_pos() as int));
            lemma_prefix_len_bounds(rest@, 1);
        }
        self.pos = self.src.len() - left;
        match result {
            Ok(c) => {
                self.char_len = len_utf8(c);
                Ok(c)
            },
            Err(ReadCharError::EOF) => {
                self.char_len = len_utf8(ETX);
                Ok(ETX)
            },
            Err(x) => Err(Error::Read(x)),
        }
    }

    /// Reads the next character: a newline sequence, or else one character
    /// of UTF-8.
    pub fn read_char(&mut self) -> (r: Result<char, Error>)
        requires
            old(self).spec_pos() <= old(self).bytes().len(),
            old(self).spec_newline() matches Some(nl) ==> 1 <= nl.len() <= 2,
        ensures
            final(self).bytes() == old(self).bytes(),
            final(self).spec_current() == old(self).spec_current(),
            final(self).spec_position() == old(self).spec_position(),
            final(self).spec_current_bytes() == old(self).spec_current_bytes(),
            old(self).spec_pos() <= final(self).spec_pos() <= old(self).bytes().len(),
            old(self).spec_newline() is Some ==> final(self).spec_newline() == old(self).spec_newline(),
            final(self).spec_newline() matches Some(nl) ==> 1 <= nl.len() <= 2,
            read_outcome(old(self).bytes(), old(self).spec_pos(), old(self).spec_newline(), r, final(self).spec_pos(), final(self).spec_newline()),
            r matches Ok(c) && c != ETX && c != STX ==> final(self).spec_pos() > old(self).spec_pos(),
    {
        match self.try_process_newline()? {
            Some(c) => Ok(c),
            None => {
                let r = self.process_char();
                proof {
                    let rest = old(self).bytes().skip(old(self).spec_pos() as int);
                    lemma_prefix_len_bounds(rest, 1);
                }
                r
            },
        }
    }

    /// Moves the position past `read_character`, the character being left.
    pub fn update_position(&mut self, read_character: char)
        requires
            old(self).spec_newline() matches Some(nl) ==> nl.len() <= 2,
            old(self).spec_position().offset + 4 <= usize::MAX,
            old(self).spec_position().line < u32::MAX,
            old(self).spec_position().column < u32::MAX,
        ensures
            final(self).bytes() == old(self).bytes(),
            final(self).spec_pos() == old(self).spec_pos(),
            final(self).spec_newline() == old(self).spec_newline(),
            final(self).spec_current() == old(self).spec_current(),
            final(self).spec_current_bytes() == old(self).spec_current_bytes(),
            ({
                let p = old(self).spec_position();
                let q = final(self).spec_position();
                if read_character == STX {
                    q == Position { line: 1, column: 1, offset: 0 }
                } else if read_character == ETX {
                    q == p
                } else if read_character == '\n' {
                    q == Position {
                        line: (p.line + 1) as u32,
                        column: 1,
                        offset: (p.offset + match old(self).spec_newline() {
                            Some(nl) => nl.len(),
                            None => 0,
                        }) as usize,
                    }
                } else {
                    q == Position { line: p.line, column: (p.column + 1) as u32, offset: (p.offset + spec_len_utf8(old(self).spec_current())) as usize }
                }
            }),
    {
        if read_character == STX {
            self.current_position = Position { line: 1, column: 1, offset: 0 };
        } else if read_character == ETX {
        } else if read_character == '\n' {
            let n = match &self.newline {
                Some(nl) => nl.len(),
                None => 0,
            };
            self.current_position.offset = self.current_position.offset + n;
            self.current_position.line = self.current_position.line + 1;
            self.current_position.column = 1;
        } else {
            self.current_position.offset = self.current_position.offset + len_utf8(self.current_char);
            self.current_position.column = self.current_position.column + 1;
        }
    }
}

impl CharRead for CharReader {
    closed spec fn valid(&self) -> bool {
        self.wf()
    }

    fn current(&self) -> (c: char)
        ensures
            c == self.spec_current(),
    {
        self.current_char
    }

    /// Reads the next character and moves the position past the current
    /// one.
    fn next(&mut self) -> (r: Result<char, Error>)
        ensures
            final(self).bytes() == old(self).bytes(),
            read_outcome(old(self).bytes(), old(self).spec_pos(), old(self).spec_newline(), r, final(self).spec_pos(), final(self).spec_newline()),
            r matches Ok(c) ==> final(self).spec_current() == c && final(self).spec_position() == position_after(
                old(self).spec_position(),
                old(self).spec_current(),
                final(self).spec_newline(),
            ),
            r is Err ==> final(self).spec_current() == old(self).spec_current() && final(self).spec_position() == old(self).spec_position(),
    {
        let ghost before = self.pos;
        let new_char = self.read_char()?;
        let current = self.current_char;
        self.update_position(current);
        self.current_char = new_char;
        self.current_bytes = Ghost((self.pos - before) as nat);
        Ok(self.current_char)
    }

    fn position(&self) -> (p: Position)
        ensures
            p == self.spec_position(),
    {
        self.current_position
    }
}

} // verus!
