//! The C error convention and the state that C keeps process-wide.
//!
//! The last-error slot and the cursor of `strtok` are held in a context value
//! that the caller threads through; a C-callable layer keeps one per process.
use vstd::prelude::*;

use crate::ntbs::{is_ntbs, is_ntbs_from, scan_start, strtok_r, token_step};

verus! {

/// The `errno` value for a descriptor that is not open.
pub const EBADF: i32 = 9;

/// The `errno` value for a wait that has no child to wait for.
pub const ECHILD: i32 = 10;

/// The `errno` value for a bad address.
pub const EFAULT: i32 = 14;

/// The `errno` value for an invalid argument.
pub const EINVAL: i32 = 22;

/// State that the C library keeps across calls.
pub struct CallContext {
    /// The last-error slot (`errno`): the code of the most recent failure.
    pub last_error: i32,
    /// Where `strtok` goes on in its buffer, or `None` where it has finished.
    pub token_next: Option<usize>,
}

impl CallContext {
    /// A context with no error recorded and no tokenization under way.
    pub fn new() -> (r: CallContext)
        ensures
            r.last_error == 0,
            r.token_next is None,
    {
        CallContext { last_error: 0, token_next: None }
    }
}

/// Records `code` in the last-error slot and returns the failure sentinel
/// `-1`.
pub fn fail(ctx: &mut CallContext, code: i32) -> (r: i32)
    ensures
        r == -1,
        final(ctx).last_error == code,
        final(ctx).token_next == old(ctx).token_next,
{
    ctx.last_error = code;
    -1
}

/// Turns the outcome of an operation into C convention: the value on
/// success, leaving the context as it was; on failure the code goes to the
/// last-error slot and `None` tells the caller to return its sentinel.
pub fn convert_res<T>(ctx: &mut CallContext, res: Result<T, i32>) -> (r: Option<T>)
    ensures
        match res {
            Ok(v) => r == Some(v) && final(ctx).last_error == old(ctx).last_error,
            Err(e) => r is None && final(ctx).last_error == e,
        },
        final(ctx).token_next == old(ctx).token_next,
{
    match res {
        Ok(v) => Some(v),
        Err(e) => {
            ctx.last_error = e;
            None
        },
    }
}

/// Turns the outcome of an operation that returns nothing into C
/// convention: `0` on success, `-1` with the last error recorded on failure.
pub fn convert_status(ctx: &mut CallContext, res: Result<(), i32>) -> (r: i32)
    ensures
        match res {
            Ok(()) => r == 0 && final(ctx).last_error == old(ctx).last_error,
            Err(e) => r == -1 && final(ctx).last_error == e,
        },
        final(ctx).token_next == old(ctx).token_next,
{
    match convert_res(ctx, res) {
        Some(()) => 0,
        None => -1,
    }
}

/// `strtok`: `strtok_r` with the cursor kept in the context.
pub fn strtok(ctx: &mut CallContext, buf: &mut [u8], from: Option<usize>, m: &[u8]) -> (r:
    Option<usize>)
    requires
        is_ntbs(m@),
        scan_start(from, old(ctx).token_next) matches Some(x) ==> is_ntbs_from(
            old(buf)@,
            x as int,
        ),
    ensures
        token_step(
            old(buf)@,
            scan_start(from, old(ctx).token_next),
            old(ctx).token_next,
            m@,
            final(buf)@,
            final(ctx).token_next,
            r,
        ),
        final(ctx).last_error == old(ctx).last_error,
{
    let mut next = ctx.token_next;
    let r = strtok_r(buf, from, m, &mut next);
    ctx.token_next = next;
    r
}

} // verus!
