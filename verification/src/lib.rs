//! Core of a small educational operating-system kernel for a 64-bit
//! RISC-V-class machine, written as a verified library.
//!
//! The library models the kernel's subsystems as explicit state: physical
//! frames and SV39 page tables, a block-cached on-disk filesystem with
//! bitmap allocators and hierarchical inodes, a FIFO scheduler over
//! process and thread control blocks, pipes, synchronization primitives
//! and signals.  Hardware edges (the trap trampoline, MMIO, CSRs) stay
//! outside; every decision the kernel makes on plain values is verified
//! here.

pub mod address;
pub mod bitmap;
pub mod block_cache;
pub mod block_dev;
pub mod config;
pub mod context;
pub mod efs;
pub mod frame_allocator;
pub mod id;
pub mod kernel;
pub mod layout;
pub mod pipe;
pub mod signal;
pub mod task;
pub mod userlib;
pub mod usersyscall;
pub mod vfs;
