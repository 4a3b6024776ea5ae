//! Choice of a metric, and the check that two vectors have as many dimensions.
use vstd::prelude::*;

verus! {

/// How the distance of two vectors is measured.
#[derive(Debug, Clone, Copy, PartialEq, Eq, Structural)]
pub enum DistanceMetric {
    /// The length of the difference.
    Euclidean,
    /// One less the cosine of the angle.
    Cosine,
    /// The inner product with the other sign.
    DotProduct,
    /// The sum of the absolute differences.
    Manhattan,
}

/// What goes wrong.
#[derive(Debug, Clone, Copy, PartialEq, Eq, Structural)]
pub enum VectorDbError {
    /// The vectors differ in length.
    InvalidDimensions {
        /// Length of the first vector.
        expected: usize,
        /// Length of the second vector.
        actual: usize,
    },
}

/// Rejects a vector whose length is not the expected one.
pub fn check_dimensions(expected: usize, actual: usize) -> (r: Result<(), VectorDbError>)
    ensures
        r is Ok <==> expected == actual,
        r matches Err(e) ==> e == (VectorDbError::InvalidDimensions { expected, actual }),
{
    if expected != actual {
        Err(VectorDbError::InvalidDimensions { expected, actual })
    } else {
        Ok(())
    }
}

/// Rejects a batch that holds a vector of another length than the expected one, with the
/// first such vector.
pub fn check_batch(expected: usize, actual: &[usize]) -> (r: Result<(), VectorDbError>)
    ensures
        r is Ok <==> forall|i: int| 0 <= i < actual@.len() ==> #[trigger] actual@[i] == expected,
        r matches Err(e) ==> exists|i: int|
            {
                &&& 0 <= i < actual@.len()
                &&& e == (VectorDbError::InvalidDimensions { expected, actual: actual@[i] })
                &&& #[trigger] actual@[i] != expected
                &&& forall|j: int| 0 <= j < i ==> #[trigger] actual@[j] == expected
            },
{
    let mut i: usize = 0;
    while i < actual.len()
        invariant
            i <= actual@.len(),
            forall|j: int| 0 <= j < i ==> #[trigger] actual@[j] == expected,
        decreases actual@.len() - i,
    {
        match check_dimensions(expected, actual[i]) {
            Ok(_) => {},
            Err(e) => {
                assert(actual@[i as int] != expected);
                return Err(e);
            },
        }
        i += 1;
    }
    Ok(())
}

} // verus!
