//! Bulk zero-allocation: a bump of the heap break, apart from the size
//! classes. Its blocks carry no header and cannot be given back.
use crate::layout::INIT_HEAP_SIZE;
use vstd::prelude::*;

verus! {

/// The address that the heap break may not pass: twice the size of the
/// bootstrap region, whatever has been allocated.
#[verifier::nonlinear]
pub const BREAK_CEILING: usize = INIT_HEAP_SIZE + INIT_HEAP_SIZE;

/// What the caller must do for a bulk allocation: extend the heap break by
/// `bytes`, set each of the `bytes` bytes at `ptr` to `value`, and hand out
/// `ptr`.
#[derive(Clone, Copy, Debug, PartialEq, Eq, Structural)]
pub struct Fill {
    pub ptr: usize,
    pub bytes: usize,
    pub value: u8,
}

/// What `calloc` answers for `number` elements of `size` bytes while the
/// break stands at `brk`.
pub open spec fn bulk(number: int, size: int, brk: usize) -> Option<Fill> {
    if brk + number * size > BREAK_CEILING {
        None
    } else {
        Some(Fill { ptr: brk, bytes: (number * size) as usize, value: 0 })
    }
}

/// Allocates `number * size` zeroed bytes at the heap break, which stands at
/// `current_brk`. Where the new break would pass [`BREAK_CEILING`] the answer
/// is `None`: the null pointer, and nothing is to be done. Else the block
/// starts where the break stands, and all of it is to be filled with zero.
pub fn calloc(number: isize, size: isize, current_brk: usize) -> (r: Option<Fill>)
    requires
        0 <= number * size <= isize::MAX,
    ensures
        r == bulk(number as int, size as int, current_brk),
        r is None <==> current_brk + number * size > BREAK_CEILING,
        r matches Some(fill) ==> {
            &&& fill.ptr == current_brk
            &&& fill.bytes == number * size
            &&& fill.value == 0
            &&& fill.ptr + fill.bytes <= BREAK_CEILING
        },
{
    let total_size: isize = number * size;
    let total: usize = total_size as usize;
    if current_brk > BREAK_CEILING || total > BREAK_CEILING - current_brk {
        return None;
    }
    Some(Fill { ptr: current_brk, bytes: total, value: 0 })
}

} // verus!
