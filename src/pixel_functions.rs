//! Pixel reducers: how a new emission combines with the value already in a cell.
use vstd::prelude::*;

verus! {

/// The aggregation applied when several emissions land on the same pixel.
#[derive(Clone, Copy, Debug, PartialEq, Eq, Structural)]
pub enum PixelFunction {
    Sum,
    First,
    Last,
    Min,
    Max,
    Count,
    Any,
}

/// Two's-complement addition on 64 bits.
pub open spec fn add64(a: i64, b: i64) -> i64 {
    vstd::wrapping::i64_specs::wrapping_add(a, b)
}

/// The new content of a cell holding `cell` after `value` is written to it.
/// A cell equal to `background` is unset.
pub open spec fn reduce(f: PixelFunction, cell: i64, value: i64, background: i64) -> i64 {
    let unset = cell == background;
    match f {
        PixelFunction::Sum => if unset { value } else { add64(cell, value) },
        PixelFunction::First => if unset { value } else { cell },
        PixelFunction::Last => value,
        PixelFunction::Min => if unset || cell > value { value } else { cell },
        PixelFunction::Max => if unset || cell < value { value } else { cell },
        PixelFunction::Count => if unset { 1 } else { add64(cell, 1) },
        PixelFunction::Any => 1,
    }
}

/// The reducer called by `name`, if it is one of the seven known names.
pub open spec fn pixel_function_named(name: Seq<char>) -> Option<PixelFunction> {
    if name == "sum"@ {
        Some(PixelFunction::Sum)
    } else if name == "first"@ {
        Some(PixelFunction::First)
    } else if name == "last"@ {
        Some(PixelFunction::Last)
    } else if name == "min"@ {
        Some(PixelFunction::Min)
    } else if name == "max"@ {
        Some(PixelFunction::Max)
    } else if name == "count"@ {
        Some(PixelFunction::Count)
    } else if name == "any"@ {
        Some(PixelFunction::Any)
    } else {
        None
    }
}

/// Combines `value` into a cell holding `cell`.
pub fn apply_pixel_function(f: PixelFunction, cell: i64, value: i64, background: i64) -> (r: i64)
    ensures
        r == reduce(f, cell, value, background),
{
    let unset = cell == background;
    match f {
        PixelFunction::Sum => if unset { value } else { cell.wrapping_add(value) },
        PixelFunction::First => if unset { value } else { cell },
        PixelFunction::Last => value,
        PixelFunction::Min => if unset || cell > value { value } else { cell },
        PixelFunction::Max => if unset || cell < value { value } else { cell },
        PixelFunction::Count => if unset { 1 } else { cell.wrapping_add(1) },
        PixelFunction::Any => 1,
    }
}

/// Whether two strings hold the same characters.
pub(crate) fn same_text(a: &str, b: &str) -> (r: bool)
    ensures
        r == (a@ == b@),
{
    let n = a.unicode_len();
    if n != b.unicode_len() {
        return false;
    }
    let mut i: usize = 0;
    while i < n
        invariant
            n == a@.len(),
            n == b@.len(),
            i <= n,
            forall|j: int| 0 <= j < i ==> a@[j] == b@[j],
        decreases n - i,
    {
        if a.get_char(i) != b.get_char(i) {
            return false;
        }
        i = i + 1;
    }
    assert(a@ =~= b@);
    true
}

/// Resolves a reducer from its name; `None` for an unknown name.
pub fn set_pixel_function(name: &str) -> (r: Option<PixelFunction>)
    ensures
        r == pixel_function_named(name@),
{
    if same_text(name, "sum") {
        Some(PixelFunction::Sum)
    } else if same_text(name, "first") {
        Some(PixelFunction::First)
    } else if same_text(name, "last") {
        Some(PixelFunction::Last)
    } else if same_text(name, "min") {
        Some(PixelFunction::Min)
    } else if same_text(name, "max") {
        Some(PixelFunction::Max)
    } else if same_text(name, "count") {
        Some(PixelFunction::Count)
    } else if same_text(name, "any") {
        Some(PixelFunction::Any)
    } else {
        None
    }
}

} // verus!
