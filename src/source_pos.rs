use vstd::prelude::*;

verus! {

/// A line and column position in the source text, both counted from 1.
#[derive(Debug, Clone, Copy, PartialEq, Eq, Structural)]
pub struct SourcePos(pub u32, pub u32);

impl SourcePos {
    pub fn new(line: u32, col: u32) -> (r: SourcePos)
        ensures
            r.0 == line,
            r.1 == col,
    {
        SourcePos(line, col)
    }

    pub fn line(&self) -> (r: u32)
        ensures
            r == self.0,
    {
        self.0
    }

    pub fn col(&self) -> (r: u32)
        ensures
            r == self.1,
    {
        self.1
    }
}

} // verus!
