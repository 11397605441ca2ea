//! What the kernel's cooperative tasks share with interrupt handlers.

pub mod keyboard;
