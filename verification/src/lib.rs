//! Verified core of a C library's memory allocator (size-class groups,
//! in-band slot headers, a start-up bump allocator) and of its
//! pseudo-random number generators.

#![allow(non_camel_case_types)]
#![allow(non_snake_case)]

pub mod bits;
pub mod rand48;
pub mod rand;
pub mod random;
pub mod meta;
pub mod slot;
pub mod heap;
pub mod group;
pub mod slots;
pub mod malloc;
pub mod free;
pub mod realloc;
pub mod bump;
pub mod calloc;
pub mod aligned;
pub mod glue;
pub mod donate;
