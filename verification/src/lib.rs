//! A segregated size-class allocator, kept as a value.
//!
//! The allocator decides; the caller acts. Every operation that needs memory
//! from the operating system returns the request as a value, and is called
//! again with the answer. Nothing here touches memory: addresses are plain
//! integers, and the bookkeeping that a classic allocator writes in front of
//! each block is held in the allocator itself.
//!
//! Small requests are rounded up to a multiple of [`ALIGN`] and served from
//! the free list of their size class; a freed block is the next one to be
//! handed out by its class. The lists are made on first use, in one region
//! of the heap, and an empty list is refilled from the heap break. Requests
//! beyond [`MAX_BYTE`] get a mapping each, which goes back to the system
//! when the block is freed.
//!
//! An allocation runs like this: call [`malloc`] with [`Reply::Nothing`]. On
//! [`Step::Ready`] it is done. On [`Step::NeedBreak`] read the heap break,
//! extend it by the bytes asked for, and call again with both addresses in
//! [`Reply::Break`]. On [`Step::NeedMapping`] make the mapping and call
//! again with [`Reply::Mapping`], or with [`Reply::NoMapping`] where the
//! system refused. [`realloc`] runs the same way and then names the bytes to
//! copy; [`free`] names the mapping to remove, if any.
//!
//! The allocator is for one thread. It does not join neighbouring free
//! blocks, does not split a block, and gives no heap memory back.
pub mod bulk;
pub mod heap;
pub mod laws;
pub mod layout;
pub mod model;

pub use bulk::{calloc, Fill, BREAK_CEILING};
pub use heap::{free, malloc, realloc, unmap_diagnostic, Allocator, Diagnostic};
pub use layout::{get_align, get_header, ALIGN, HEADER_SIZE, MAX_BYTE};
pub use model::{
    Chunk, Header, HeapView, Mapping, Origin, Release, Reply, Resize, Step,
};
