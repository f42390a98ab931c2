//! Checked buffer sizes shared by batched products and dense workspaces.

use vstd::prelude::*;

use crate::error::{check_len, Error};

verus! {

/// `n` values of type `T` fit one allocation.
pub open spec fn array_fits<T>(n: usize) -> bool {
    n * vstd::layout::size_of::<T>() <= isize::MAX
}

/// Whether an array of `n` values of type `T` has a valid memory layout:
/// its total size, `n` times the size of `T`, must not exceed `isize::MAX`
/// (the condition under which `std::alloc::Layout::array::<T>` succeeds).
pub(crate) fn array_layout_fits<T>(n: usize) -> (fits: bool)
    ensures
        fits == array_fits::<T>(n),
{
    let size = core::mem::size_of::<T>();
    match n.checked_mul(size) {
        None => false,
        Some(total) => total <= isize::MAX as usize,
    }
}

/// Requires a buffer of `count * size` entries.
///
/// Reports [`Error::SizeOverflow`] when the product overflows a `usize`,
/// otherwise checks the length as [`check_len`] does.
pub fn check_len_product(buffer: &'static str, actual: usize, count: usize, size: usize) -> (result:
    Result<(), Error>)
    ensures
        count * size > usize::MAX ==> result == Err::<(), Error>(Error::SizeOverflow),
        count * size <= usize::MAX && actual == count * size ==> result == Ok::<(), Error>(()),
        count * size <= usize::MAX && actual != count * size ==> result == Err::<(), Error>(
            Error::Dimension { buffer, expected: (count * size) as usize, actual },
        ),
{
    match count.checked_mul(size) {
        None => Err(Error::SizeOverflow),
        Some(expected) => check_len(buffer, actual, expected),
    }
}

/// Number of entries of type `T` in `count` blocks of `size`, when they fit
/// one allocation.
pub fn checked_entries<T>(count: usize, size: usize) -> (result: Result<usize, Error>)
    ensures
        count * size > usize::MAX ==> result == Err::<usize, Error>(Error::SizeOverflow),
        count * size <= usize::MAX && !array_fits::<T>((count * size) as usize) ==> result
            == Err::<usize, Error>(Error::SizeOverflow),
        count * size <= usize::MAX && array_fits::<T>((count * size) as usize) ==> result
            == Ok::<usize, Error>((count * size) as usize),
{
    match count.checked_mul(size) {
        None => Err(Error::SizeOverflow),
        Some(entries) => if array_layout_fits::<T>(entries) {
            Ok(entries)
        } else {
            Err(Error::SizeOverflow)
        },
    }
}

/// Checks the two buffers of `count` batched products: `count` seed rows of
/// `seed_size` entries, then `count` output rows of `output_size` entries.
pub fn check_batch(
    seed_buffer: &'static str,
    output_buffer: &'static str,
    count: usize,
    seed_size: usize,
    output_size: usize,
    seeds: usize,
    outputs: usize,
) -> (result: Result<(), Error>)
    ensures
        count * seed_size > usize::MAX ==> result == Err::<(), Error>(Error::SizeOverflow),
        count * seed_size <= usize::MAX && seeds != count * seed_size ==> result == Err::<(), Error>(
            Error::Dimension { buffer: seed_buffer, expected: (count * seed_size) as usize, actual: seeds },
        ),
        count * seed_size <= usize::MAX && seeds == count * seed_size ==> {
            &&& count * output_size > usize::MAX ==> result == Err::<(), Error>(Error::SizeOverflow)
            &&& count * output_size <= usize::MAX && outputs != count * output_size ==> result
                == Err::<(), Error>(
                Error::Dimension {
                    buffer: output_buffer,
                    expected: (count * output_size) as usize,
                    actual: outputs,
                },
            )
            &&& count * output_size <= usize::MAX && outputs == count * output_size ==> result
                == Ok::<(), Error>(())
        },
{
    match check_len_product(seed_buffer, seeds, count, seed_size) {
        Err(e) => Err(e),
        Ok(()) => check_len_product(output_buffer, outputs, count, output_size),
    }
}

} // verus!
