//! Process-supervisor core for a desktop application that delegates its
//! workload to a long-running local child service.
//!
//! The crate holds the logic with real invariants: the credential store and
//! its encrypted persistence format, the bounded-retry start state machine
//! with token-checked health confirmation, the stderr ring buffer, and the
//! bind-conflict diagnostics. Process spawning, HTTP polling and file I/O
//! live outside the library and hand plain values in and out.

pub mod buffer;
pub mod credentials;
pub mod crypto;
pub mod diagnostics;
pub mod json;
pub mod supervisor;
pub mod text;
