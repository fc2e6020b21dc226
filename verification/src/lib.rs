//! A verified single-user to-do list library.
//!
//! The library owns the in-memory ordered list of to-do items together with
//! its dense-id invariant, the line-oriented command dispatch, and the binary
//! persistence codec. Reading the terminal and touching the disk are left to
//! the surrounding program; it hands the library plain lines and byte
//! buffers and takes plain values back.

pub mod codec;
pub mod commands;
pub mod todo;

use vstd::prelude::*;

verus! {

/// Seconds since the Unix epoch, as the wall clock reports them.
///
/// Relies on chrono's `Local::now` and `DateTime::timestamp`: the result is
/// whatever the system clock says, so nothing is promised of it.
#[verifier::external_body]
pub(crate) fn now_timestamp() -> i64 {
    chrono::Local::now().timestamp()
}

} // verus!
