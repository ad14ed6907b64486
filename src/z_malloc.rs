//! Allocation of raw byte blocks that report their usable size.
//!
//! A block is a zero-filled `Vec<u8>` whose length is the usable size the
//! allocation produced, which may exceed the size that was asked for.

use vstd::prelude::*;

verus! {

/// Every byte of `s` from index `from` on is zero.
pub open spec fn zero_from(s: Seq<u8>, from: int) -> bool {
    forall|i: int| from <= i < s.len() ==> s[i] == 0
}

/// Relies on `Vec::capacity`: a vector's capacity is never below its length.
#[verifier::external_body]
fn capacity_of(block: &Vec<u8>) -> (r: usize)
    ensures
        r >= block@.len(),
{
    block.capacity()
}

/// Widens a block of `size` bytes to all the room its allocation holds.
fn widen_to_usable(block: &mut Vec<u8>) -> (usable: usize)
    requires
        zero_from(old(block)@, 0),
    ensures
        usable == final(block)@.len(),
        usable >= old(block)@.len(),
        zero_from(final(block)@, 0),
{
    let usable = capacity_of(block);
    let ghost before = block@;
    block.resize(usable, 0u8);
    proof {
        if usable > before.len() {
            assert forall|i: int| 0 <= i < block@.len() implies block@[i] == 0 by {
                if i < before.len() {
                    assert(block@.subrange(0, before.len() as int)[i] == before[i]);
                }
            }
        }
    }
    usable
}

/// Allocates a zero-filled block of at least `size` bytes and returns it with
/// its usable size. Running out of memory ends the process.
pub fn z_malloc_usable(size: usize) -> (r: (Vec<u8>, usize))
    requires
        size <= isize::MAX,
    ensures
        r.1 == r.0@.len(),
        r.1 >= size,
        zero_from(r.0@, 0),
{
    let mut block: Vec<u8> = vec![0u8; size];
    let usable = widen_to_usable(&mut block);
    (block, usable)
}

/// Like `z_malloc_usable`, but when the memory cannot be had it returns an
/// empty block and a usable size of zero instead of ending the process.
pub fn z_try_malloc_usable(size: usize) -> (r: (Vec<u8>, usize))
    requires
        size <= isize::MAX,
    ensures
        r.1 == r.0@.len(),
        r.1 == 0 || r.1 >= size,
        zero_from(r.0@, 0),
{
    let mut block: Vec<u8> = Vec::new();
    match block.try_reserve(size) {
        Ok(()) => {
            block.resize(size, 0u8);
            let usable = widen_to_usable(&mut block);
            (block, usable)
        },
        Err(_) => (Vec::new(), 0),
    }
}

/// Resizes `block` to exactly `size` bytes, keeping the bytes that both sizes
/// hold and zero-filling any new ones; the usable size is `size`.
pub fn z_realloc_usable(block: Vec<u8>, size: usize) -> (r: (Vec<u8>, usize))
    requires
        size <= isize::MAX,
    ensures
        r.1 == size,
        r.0@.len() == size,
        size <= block@.len() ==> r.0@ == block@.subrange(0, size as int),
        size > block@.len() ==> r.0@.subrange(0, block@.len() as int) == block@,
        zero_from(r.0@, block@.len() as int),
{
    let mut block = block;
    block.resize(size, 0u8);
    (block, size)
}

} // verus!
