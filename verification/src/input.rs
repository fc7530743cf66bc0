//! From a size that was asked for to a dimension of the grid.

use vstd::prelude::*;

verus! {

/// The smallest size that may be asked for.
pub const MIN_SIZE: usize = 3;

/// The largest size that may be asked for.
pub const MAX_SIZE: usize = 99;

/// Why a size was turned down.
#[derive(Clone, Copy, Debug, PartialEq, Eq, Structural)]
pub enum InputError {
    /// The size lies outside `MIN_SIZE..=MAX_SIZE`.
    OutOfRange,
}

/// The dimension that stands for a size: the size made odd by going up, plus
/// the two cells of the border.
pub open spec fn adjusted(size: int) -> int {
    if size % 2 == 0 {
        size + 3
    } else {
        size + 2
    }
}

/// Turns a size into the dimension of the grid that holds it.
pub fn adjust(size: usize) -> (dimension: usize)
    requires
        size + 3 <= usize::MAX,
    ensures
        dimension == adjusted(size as int),
{
    let mut dimension = size;
    if dimension % 2 == 0 {
        dimension = dimension + 1;
    }
    dimension + 2
}

/// Checks a size that was asked for and turns it into a dimension.
pub fn dimension(size: usize) -> (result: Result<usize, InputError>)
    ensures
        result == if MIN_SIZE <= size <= MAX_SIZE {
            Ok::<usize, InputError>(adjusted(size as int) as usize)
        } else {
            Err::<usize, InputError>(InputError::OutOfRange)
        },
{
    if size < MIN_SIZE || size > MAX_SIZE {
        Err(InputError::OutOfRange)
    } else {
        Ok(adjust(size))
    }
}

/// A dimension made from a size in range is odd and can be handed to the
/// generator.
pub proof fn lemma_adjusted_fits(size: int)
    requires
        MIN_SIZE <= size <= MAX_SIZE,
    ensures
        adjusted(size) % 2 == 1,
        5 <= adjusted(size) <= 101,
{
}

impl InputError {
    /// What to tell whoever asked.
    pub fn message(&self) -> (text: String)
        ensures
            text@ == "You must stay in range: from 3 to 99"@,
    {
        match self {
            InputError::OutOfRange => "You must stay in range: from 3 to 99".to_string(),
        }
    }
}

} // verus!
