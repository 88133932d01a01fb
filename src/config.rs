//! Fixed layout constants of the kernel address space.
use vstd::prelude::*;

verus! {

/// Number of offset bits inside a page.
pub const PAGE_SIZE_BITS: u64 = 12;

/// Size of one page in bytes.
pub const PAGE_SIZE: u64 = 4096;

/// Size of each task's kernel stack in bytes.
pub const KERNEL_STACK_SIZE: u64 = 8192;

/// Highest page of the address space, holding the trap trampoline; kernel
/// stacks are laid out downwards from here.
pub const TRAMPOLINE: u64 = 0xffff_ffff_ffff_f000;

} // verus!
