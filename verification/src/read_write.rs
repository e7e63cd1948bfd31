//! Checks for turning raw bytes back into a vector of fixed-size values.
use vstd::prelude::*;

verus! {

/// Why raw bytes cannot be turned into values.
#[derive(Debug, Clone, Copy, PartialEq, Eq, Structural)]
pub enum UnpackError {
    /// There are no bytes to read.
    NotFound,
    /// The number of bytes is not a multiple of the size of one value.
    NotMultiple,
}

/// Number of values of `elem_size` bytes held by `n_bytes` bytes (`None`: the
/// bytes could not be found).
pub fn unpacked_len(n_bytes: Option<usize>, elem_size: usize) -> (r: Result<usize, UnpackError>)
    requires
        elem_size > 0,
    ensures
        n_bytes is None ==> r == Err::<usize, UnpackError>(UnpackError::NotFound),
        n_bytes is Some && n_bytes->0 % elem_size != 0 ==> r == Err::<usize, UnpackError>(
            UnpackError::NotMultiple,
        ),
        n_bytes is Some && n_bytes->0 % elem_size == 0 ==> r == Ok::<usize, UnpackError>(
            n_bytes->0 / elem_size,
        ) && elem_size * (n_bytes->0 / elem_size) == n_bytes->0,
{
    match n_bytes {
        Option::None => Err(UnpackError::NotFound),
        Option::Some(n) => {
            if n % elem_size != 0 {
                Err(UnpackError::NotMultiple)
            } else {
                proof {
                    vstd::arithmetic::div_mod::lemma_fundamental_div_mod(n as int, elem_size as int);
                }
                Ok(n / elem_size)
            }
        },
    }
}

} // verus!
