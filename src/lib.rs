//! A freestanding runtime core: descriptor handoff, environment bootstrap,
//! allocator hooks with a self-contained fallback allocator, exit control,
//! and the integer helpers that run on top of it.

pub mod fallback;
pub mod math;
pub mod platform;
pub mod services;
