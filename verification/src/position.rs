use vstd::prelude::*;
use vstd::string::StringExecFns;

verus! {

/// A place in the source text: 1-based line and column, and the byte offset.
#[derive(PartialEq, Eq, Clone, Copy, Debug)]
pub struct Position {
    pub line: u32,
    pub column: u32,
    pub offset: usize,
}

impl Position {
    pub fn new(line: u32, column: u32, offset: usize) -> (p: Self)
        ensures
            p.line == line,
            p.column == column,
            p.offset == offset,
    {
        Position { line, column, offset }
    }
}

} // verus!

verus! {

/// How a position is written in messages: `line: L, column: C`.
pub open spec fn position_text(p: Position) -> Seq<char> {
    "line: "@ + crate::text::nat_text(p.line as nat) + ", column: "@ + crate::text::nat_text(p.column as nat)
}

impl Position {
    pub fn debug_text(&self) -> (s: String)
        ensures
            s@ == position_text(*self),
    {
        let mut s = String::from_str("line: ");
        let line = crate::text::u64_to_string(self.line as u64);
        s.append(line.as_str());
        s.append(", column: ");
        let column = crate::text::u64_to_string(self.column as u64);
        s.append(column.as_str());
        s
    }
}

/// `text`, then a line that says where: `text\nAt line: L, column: C.`
pub open spec fn with_position(text: Seq<char>, p: Position) -> Seq<char> {
    text + "\nAt "@ + position_text(p) + "."@
}

pub fn append_position_text(text: &String, p: Position) -> (s: String)
    ensures
        s@ == with_position(text@, p),
{
    let mut s = text.clone();
    s.append("\nAt ");
    let where_text = p.debug_text();
    s.append(where_text.as_str());
    s.append(".");
    s
}

} // verus!
