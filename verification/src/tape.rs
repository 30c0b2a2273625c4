use vstd::prelude::*;

verus! {

/// Number of cells on the tape.
pub const TAPE_LEN: usize = 30000;

/// The cell index one step to the right of `ptr`, wrapping past the last cell to the first.
pub open spec fn right_of(ptr: int) -> int {
    (ptr + 1) % (TAPE_LEN as int)
}

/// The cell index one step to the left of `ptr`, wrapping past the first cell to the last.
pub open spec fn left_of(ptr: int) -> int {
    (ptr + TAPE_LEN - 1) % (TAPE_LEN as int)
}

/// Moves a data pointer one cell to the right.
pub fn move_right(ptr: usize) -> (next: usize)
    requires
        ptr < TAPE_LEN,
    ensures
        next == right_of(ptr as int),
        next < TAPE_LEN,
{
    (ptr + 1) % TAPE_LEN
}

/// Moves a data pointer one cell to the left.
pub fn move_left(ptr: usize) -> (next: usize)
    requires
        ptr < TAPE_LEN,
    ensures
        next == left_of(ptr as int),
        next < TAPE_LEN,
{
    (ptr + TAPE_LEN - 1) % TAPE_LEN
}

} // verus!
