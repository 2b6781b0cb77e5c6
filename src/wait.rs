//! The decisions of `waitpid`.
//!
//! `waitpid_plan` says which wait the call makes; the caller performs it and
//! hands the reply to `waitpid_finish`, which gives the C return value and
//! the status to store.
use vstd::prelude::*;

use crate::context::{convert_res, CallContext};
use crate::flags::{bits_of, decode_wait_options};

verus! {

/// Which children a wait is for.
#[derive(Clone, Copy, PartialEq, Eq, Debug)]
pub enum WaitTarget {
    /// Any child of the caller. A negative pid other than `-1` asks for the
    /// children of process group `-pid`; that wait is not available from the
    /// syscall layer, so such a call waits for any child instead. This is a
    /// known gap, not the platform's meaning.
    AnyChild,
    /// The child with this pid; `0` stands for the caller's own process
    /// group.
    Pid(i32),
}

/// The wait that a `waitpid` call makes.
#[derive(Clone, Copy, PartialEq, Eq, Debug)]
pub struct WaitCall {
    pub target: WaitTarget,
    /// The decoded wait options.
    pub options: u32,
}

/// What the wait came back with.
#[derive(Clone, Copy, PartialEq, Eq, Debug)]
pub enum WaitReply {
    /// A wait for any child reaped the child `pid` with raw `status`.
    Reaped { pid: i32, status: i32 },
    /// A wait for a given pid saw a change with raw `status`.
    Changed { status: i32 },
    /// Non-blocking wait: no child has changed state yet.
    NothingReady,
    /// The wait failed with this error code.
    Failed(i32),
}

/// The outcome of `waitpid` in C convention.
#[derive(Clone, Copy, PartialEq, Eq, Debug)]
pub struct WaitResult {
    /// The return value: a pid, `0` where nothing was ready, `-1` on failure.
    pub ret: i32,
    /// The status to store where the caller gave a place for it.
    pub status: Option<i32>,
}

/// The children that a `waitpid` pid argument selects.
pub open spec fn target_of(pid: i32) -> WaitTarget {
    if pid < 0 {
        WaitTarget::AnyChild
    } else {
        WaitTarget::Pid(pid)
    }
}

/// Classifies the pid argument of `waitpid`.
pub fn wait_target(pid: i32) -> (r: WaitTarget)
    ensures
        r == target_of(pid),
{
    if pid < 0 {
        WaitTarget::AnyChild
    } else {
        WaitTarget::Pid(pid)
    }
}

/// The wait that `waitpid(pid, _, options)` makes. Every bit pattern of
/// `options` is accepted, so there always is one; `None` stays in the result
/// for a syscall layer that refuses unknown bits.
pub fn waitpid_plan(pid: i32, options: i32) -> (r: Option<WaitCall>)
    ensures
        r == Some((WaitCall { target: target_of(pid), options: bits_of(options) })),
{
    match decode_wait_options(options) {
        Some(options) => Some(WaitCall { target: wait_target(pid), options }),
        None => None,
    }
}

/// The pid that `waitpid` reports for a wait on a given pid: the pid itself,
/// or the caller's own pid `own_pid` where the argument was `0`.
pub open spec fn reported_pid(pid: i32, own_pid: i32) -> i32 {
    if pid == 0 {
        own_pid
    } else {
        pid
    }
}

/// Gives the C outcome of `waitpid(pid, ..)` from the reply of its wait.
/// `own_pid` is the caller's pid, read only where `pid` is `0`.
pub fn waitpid_finish(ctx: &mut CallContext, pid: i32, own_pid: i32, reply: WaitReply) -> (r:
    WaitResult)
    ensures
        match reply {
            WaitReply::Reaped { pid: child, status } => r.ret == child && r.status == Some(status),
            WaitReply::Changed { status } => r.ret == reported_pid(pid, own_pid) && r.status
                == Some(status),
            WaitReply::NothingReady => r.ret == 0 && r.status is None,
            WaitReply::Failed(e) => r.ret == -1 && r.status is None,
        },
        match reply {
            WaitReply::Failed(e) => final(ctx).last_error == e,
            _ => final(ctx).last_error == old(ctx).last_error,
        },
        final(ctx).token_next == old(ctx).token_next,
{
    let res: Result<Option<(i32, i32)>, i32> = match reply {
        WaitReply::Reaped { pid: child, status } => Ok(Some((child, status))),
        WaitReply::Changed { status } => {
            let ret = if pid == 0 {
                own_pid
            } else {
                pid
            };
            Ok(Some((ret, status)))
        },
        WaitReply::NothingReady => Ok(None),
        WaitReply::Failed(e) => Err(e),
    };
    match convert_res(ctx, res) {
        Some(Some((ret, status))) => WaitResult { ret, status: Some(status) },
        Some(None) => WaitResult { ret: 0, status: None },
        None => WaitResult { ret: -1, status: None },
    }
}

} // verus!
