use vstd::prelude::*;

verus! {

/// Mathematical model of a single table entry.
///
/// Text is a sequence of characters; a floating-point entry is modelled by
/// the 64-bit IEEE-754 pattern that encodes it.
pub enum CellView {
    Null,
    Str(Seq<char>),
    Bool(bool),
    Int(i64),
    Float(u64),
}

/// One typed table entry: the unit of storage, transformation and comparison.
///
/// `Float` carries the IEEE-754 bit pattern of a double-precision value, so
/// that the grid and everything proved about it stay within the integer
/// fragment; arithmetic on such entries runs through the `ieee` module.
#[derive(Debug)]
pub enum Cell {
    Null,
    String(String),
    Bool(bool),
    Int(i64),
    Float(u64),
}

impl View for Cell {
    type V = CellView;

    open spec fn view(&self) -> CellView {
        match self {
            Cell::Null => CellView::Null,
            Cell::String(s) => CellView::Str(s@),
            Cell::Bool(b) => CellView::Bool(*b),
            Cell::Int(i) => CellView::Int(*i),
            Cell::Float(bits) => CellView::Float(*bits),
        }
    }
}

impl DeepView for Cell {
    type V = CellView;

    open spec fn deep_view(&self) -> CellView {
        self.view()
    }
}

impl Clone for Cell {
    /// A clone carries the same value, variant and contents alike.
    fn clone(&self) -> (res: Self)
        ensures
            res == *self,
    {
        match self {
            Cell::Null => Cell::Null,
            Cell::String(s) => Cell::String(s.clone()),
            Cell::Bool(b) => Cell::Bool(*b),
            Cell::Int(i) => Cell::Int(*i),
            Cell::Float(bits) => Cell::Float(*bits),
        }
    }
}

impl PartialEq for Cell {
    /// Equality is structural and variant-discriminated: entries of different
    /// kinds are never equal, entries of one kind compare their payloads.
    /// Floating-point entries compare by bit pattern.
    fn eq(&self, other: &Self) -> (r: bool) {
        match (self, other) {
            (Cell::Null, Cell::Null) => true,
            (Cell::String(a), Cell::String(b)) => <String as PartialEq>::eq(a, b),
            (Cell::Bool(a), Cell::Bool(b)) => a == b,
            (Cell::Int(a), Cell::Int(b)) => a == b,
            (Cell::Float(a), Cell::Float(b)) => a == b,
            _ => false,
        }
    }
}

impl vstd::std_specs::cmp::PartialEqSpecImpl for Cell {
    open spec fn obeys_eq_spec() -> bool {
        true
    }

    open spec fn eq_spec(&self, other: &Cell) -> bool {
        self@ == other@
    }
}

} // verus!
