//! A spreadsheet cell: the last computed textual value, and the formula
//! text when the cell was entered as an expression.

use vstd::prelude::*;

verus! {

/// Mathematical model of a cell: the value's characters and, for a formula
/// cell, the formula's characters.
pub struct CellV {
    pub value: Seq<char>,
    pub formula: Option<Seq<char>>,
}

/// The view of an optional string: the characters it holds, if any.
pub open spec fn opt_str_view(o: &Option<String>) -> Option<Seq<char>> {
    match o {
        Some(s) => Some(s@),
        None => None,
    }
}

/// A cell as stored: `value` is the last computed or stored text, `formula`
/// is present exactly when the cell was written as an expression and then
/// holds the original expression text.
pub struct Cell {
    value: String,
    formula: Option<String>,
}

impl View for Cell {
    type V = CellV;

    closed spec fn view(&self) -> CellV {
        CellV { value: self.value@, formula: opt_str_view(&self.formula) }
    }
}

impl Clone for Cell {
    fn clone(&self) -> (res: Self)
        ensures
            res@ == self@,
    {
        Cell {
            value: self.value.clone(),
            formula: match &self.formula {
                Some(f) => Some(f.clone()),
                None => None,
            },
        }
    }
}

impl Cell {
    /// Build a cell from its parts.
    pub fn new(value: String, formula: Option<String>) -> (c: Cell)
        ensures
            c@ == (CellV { value: value@, formula: opt_str_view(&formula) }),
    {
        Cell { value, formula }
    }

    /// The cell's current textual value.
    pub fn value(&self) -> (v: &String)
        ensures
            v@ == self@.value,
    {
        &self.value
    }

    /// The formula text, when the cell was written as an expression.
    pub fn formula(&self) -> (f: &Option<String>)
        ensures
            opt_str_view(f) == self@.formula,
    {
        &self.formula
    }

    /// Whether the cell was written as an expression.
    pub fn has_formula(&self) -> (b: bool)
        ensures
            b == (self@.formula is Some),
    {
        self.formula.is_some()
    }

    /// Split the cell into its parts.
    pub fn into_parts(self) -> (p: (String, Option<String>))
        ensures
            p.0@ == self@.value,
            opt_str_view(&p.1) == self@.formula,
    {
        (self.value, self.formula)
    }
}

} // verus!
