//! The bounded diagnostic log.
//!
//! Writing the file and reading the clock is the caller's part.
use vstd::prelude::*;

use crate::text::{append_str, decimal, push_char, push_decimal};

verus! {

/// Once the log reaches this size it is moved aside before the next line.
pub const MAX_LOG_BYTES: u64 = 256 * 1024;

pub fn needs_rotation(len: u64) -> (r: bool)
    ensures
        r == (len >= MAX_LOG_BYTES),
{
    len >= MAX_LOG_BYTES
}

/// One log line: the time in milliseconds, a space, the message.
pub fn log_line(now_ms: u128, message: &str) -> (r: String)
    ensures
        r@ == decimal(now_ms as nat) + " "@ + message@,
{
    let mut r = String::new();
    push_decimal(&mut r, now_ms);
    append_str(&mut r, " ");
    append_str(&mut r, message);
    r
}

} // verus!
