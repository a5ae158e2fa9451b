//! The check a JSON Lines upsert input passes before any point is written:
//! every non-blank line holds a point, and all vectors share one non-zero
//! dimension.
use vstd::prelude::*;

verus! {

/// What one input line holds.
#[derive(Clone, Copy, Debug, PartialEq, Eq)]
pub enum LineCheck {
    /// Only white space.
    Blank,
    /// Text that is not a point.
    Unparsed,
    /// A point whose vector has `dimension` components.
    Point { dimension: usize },
}

/// Why an input is refused, with the 1-based number of the offending line.
#[derive(Clone, Copy, Debug, PartialEq, Eq)]
pub enum PreflightError {
    /// The line does not hold a point.
    Unparsed { line: usize },
    /// The line's point has an empty vector.
    EmptyVector { line: usize },
    /// The line's vector has `dimension` components where earlier ones had `expected`.
    Dimension { line: usize, dimension: usize, expected: usize },
    /// No line holds a point.
    NoPoints,
}

/// The outcome of checking lines `i..` after points of dimension `dim`, if
/// any, were seen: the first refusal in line order, or the shared dimension.
pub open spec fn scan(lines: Seq<LineCheck>, i: int, dim: Option<usize>) -> Result<usize, PreflightError>
    decreases lines.len() - i,
{
    if i < 0 || i >= lines.len() {
        match dim {
            Some(d) => Ok(d),
            None => Err(PreflightError::NoPoints),
        }
    } else {
        match lines[i] {
            LineCheck::Blank => scan(lines, i + 1, dim),
            LineCheck::Unparsed => Err(PreflightError::Unparsed { line: (i + 1) as usize }),
            LineCheck::Point { dimension } => if dimension == 0 {
                Err(PreflightError::EmptyVector { line: (i + 1) as usize })
            } else {
                match dim {
                    Some(e) => if dimension != e {
                        Err(PreflightError::Dimension { line: (i + 1) as usize, dimension, expected: e })
                    } else {
                        scan(lines, i + 1, dim)
                    },
                    None => scan(lines, i + 1, Some(dimension)),
                }
            },
        }
    }
}

/// The outcome of checking a whole input.
pub open spec fn preflight_outcome(lines: Seq<LineCheck>) -> Result<usize, PreflightError> {
    scan(lines, 0, None)
}

/// Checks an input line by line: the first line that is not a point, has an
/// empty vector, or has another dimension than the lines before it is
/// refused; an input without points is refused; otherwise the shared
/// dimension is returned.
pub fn preflight(lines: &Vec<LineCheck>) -> (r: Result<usize, PreflightError>)
    ensures
        r == preflight_outcome(lines@),
{
    let mut dim: Option<usize> = None;
    let mut i: usize = 0;
    while i < lines.len()
        invariant
            i <= lines@.len(),
            preflight_outcome(lines@) == scan(lines@, i as int, dim),
        decreases lines.len() - i,
    {
        match lines[i] {
            LineCheck::Blank => {},
            LineCheck::Unparsed => {
                return Err(PreflightError::Unparsed { line: i + 1 });
            },
            LineCheck::Point { dimension } => {
                if dimension == 0 {
                    return Err(PreflightError::EmptyVector { line: i + 1 });
                }
                match dim {
                    Some(e) => {
                        if dimension != e {
                            return Err(PreflightError::Dimension { line: i + 1, dimension, expected: e });
                        }
                    },
                    None => {
                        dim = Some(dimension);
                    },
                }
            },
        }
        i = i + 1;
    }
    match dim {
        Some(d) => Ok(d),
        None => Err(PreflightError::NoPoints),
    }
}

} // verus!
