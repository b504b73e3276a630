//! Arrays of a length that is known when the program is compiled.

use vstd::prelude::*;

verus! {

/// The array whose entry at each index is that index.
pub fn new_array<const SIZE: usize>() -> (arr: [usize; SIZE])
    ensures
        forall|i: int| 0 <= i < SIZE ==> arr@[i] == i,
{
    let mut arr: [usize; SIZE] = [0;SIZE];
    let mut i: usize = 0;
    while i < SIZE
        invariant
            i <= SIZE,
            forall|j: int| 0 <= j < i ==> arr@[j] == j,
        decreases SIZE - i,
    {
        arr[i] = i;
        i += 1;
    }
    arr
}

/// The array of zeros with a one at index one.
pub fn new_array_2<const SIZE: usize>() -> (arr: [usize; SIZE])
    requires
        SIZE > 1,
    ensures
        forall|i: int|
            0 <= i < SIZE ==> arr@[i] == (if i == 1 {
                1usize
            } else {
                0usize
            }),
{
    let arr: [usize; SIZE] = [0;SIZE];
    fill_array::<SIZE, 1>(arr)
}

/// The array with its entry at `INDEX` set to `INDEX`.
pub fn fill_array<const SIZE: usize, const INDEX: usize>(arr: [usize; SIZE]) -> (filled: [usize;
    SIZE])
    requires
        INDEX < SIZE,
    ensures
        filled@ == arr@.update(INDEX as int, INDEX),
{
    let mut arr = arr;
    arr[INDEX] = INDEX;
    arr
}

} // verus!
