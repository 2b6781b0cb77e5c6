use c_scape::context::{convert_res, convert_status, fail, CallContext, EBADF, ECHILD, EFAULT, EINVAL};
use c_scape::flags::{
    bad_flags_errno, decode_at_flags, decode_statx_mask, decode_wait_options, encode_flags,
    FlagPolicy,
};
use c_scape::fs::{
    chown_plan, copy_file_range_finish, copy_file_range_plan, statx_plan, ChownLocus, CopyRangeCall,
    Refusal, StatxCall,
};
use c_scape::wait::{wait_target, waitpid_finish, waitpid_plan, WaitReply, WaitResult, WaitTarget};

#[test]
fn wait_for_missing_child_fails_with_echild() {
    let mut ctx = CallContext::new();
    let plan = waitpid_plan(7, 0).unwrap();
    assert_eq!(plan.target, WaitTarget::Pid(7));
    let r = waitpid_finish(&mut ctx, 7, 100, WaitReply::Failed(ECHILD));
    assert_eq!(r, WaitResult { ret: -1, status: None });
    assert_eq!(ctx.last_error, ECHILD);
}

#[test]
fn nonblocking_wait_with_nothing_ready_returns_zero() {
    let mut ctx = CallContext::new();
    let plan = waitpid_plan(0, 1).unwrap();
    assert_eq!(plan.target, WaitTarget::Pid(0));
    assert_eq!(plan.options, 1);
    let r = waitpid_finish(&mut ctx, 0, 100, WaitReply::NothingReady);
    assert_eq!(r, WaitResult { ret: 0, status: None });
    assert_eq!(ctx.last_error, 0);
}

#[test]
fn wait_targets() {
    assert_eq!(wait_target(-1), WaitTarget::AnyChild);
    assert_eq!(wait_target(-42), WaitTarget::AnyChild);
    assert_eq!(wait_target(0), WaitTarget::Pid(0));
    assert_eq!(wait_target(9), WaitTarget::Pid(9));
}

#[test]
fn wait_reports_pids() {
    let mut ctx = CallContext::new();
    let r = waitpid_finish(&mut ctx, -1, 100, WaitReply::Reaped { pid: 55, status: 256 });
    assert_eq!(r, WaitResult { ret: 55, status: Some(256) });
    let r = waitpid_finish(&mut ctx, 0, 100, WaitReply::Changed { status: 3 });
    assert_eq!(r, WaitResult { ret: 100, status: Some(3) });
    let r = waitpid_finish(&mut ctx, 12, 100, WaitReply::Changed { status: 3 });
    assert_eq!(r, WaitResult { ret: 12, status: Some(3) });
}

#[test]
fn flags_round_trip() {
    for raw in [0i32, 1, 2, 8, 0x100, 0x7fff_ffff, -1, i32::MIN] {
        let w = decode_wait_options(raw).unwrap();
        assert_eq!(encode_flags(w), raw);
        let a = decode_at_flags(raw).unwrap();
        assert_eq!(encode_flags(a), raw);
    }
    assert_eq!(decode_wait_options(-1), Some(u32::MAX));
    assert_eq!(decode_statx_mask(0xfff), Some(0xfff));
}

#[test]
fn flag_policies() {
    assert_eq!(bad_flags_errno(FlagPolicy::Abort), None);
    assert_eq!(bad_flags_errno(FlagPolicy::ReportInvalid), Some(EINVAL));
}

#[test]
fn error_conversion() {
    let mut ctx = CallContext::new();
    assert_eq!(convert_res::<u8>(&mut ctx, Ok(4)), Some(4));
    assert_eq!(ctx.last_error, 0);
    assert_eq!(convert_res::<u8>(&mut ctx, Err(13)), None);
    assert_eq!(ctx.last_error, 13);
    assert_eq!(convert_status(&mut ctx, Ok(())), 0);
    assert_eq!(ctx.last_error, 13);
    assert_eq!(convert_status(&mut ctx, Err(2)), -1);
    assert_eq!(ctx.last_error, 2);
    assert_eq!(fail(&mut ctx, EFAULT), -1);
    assert_eq!(ctx.last_error, EFAULT);
}

#[test]
fn statx_checks() {
    assert_eq!(statx_plan(true, false, 0, 0), Err(Refusal::Errno(EFAULT)));
    assert_eq!(statx_plan(false, true, 0, 0), Err(Refusal::Errno(EFAULT)));
    assert_eq!(statx_plan(false, false, 0x100, 0x7ff), Ok(StatxCall { flags: 0x100, mask: 0x7ff }));
}

#[test]
fn copy_range_checks() {
    assert_eq!(copy_file_range_plan(-1, None, 3, None, 10, 0), Err(Refusal::Errno(EBADF)));
    assert_eq!(copy_file_range_plan(3, None, -1, None, 10, 0), Err(Refusal::Errno(EBADF)));
    assert_eq!(copy_file_range_plan(3, None, 4, None, 10, 1), Err(Refusal::BadFlags));
    assert_eq!(
        copy_file_range_plan(3, Some(5), 4, None, 10, 0),
        Ok(CopyRangeCall { fd_in: 3, off_in: Some(5), fd_out: 4, off_out: None, len: 10 })
    );
    let mut ctx = CallContext::new();
    assert_eq!(copy_file_range_finish(&mut ctx, Ok(7)), 7);
    assert_eq!(copy_file_range_finish(&mut ctx, Err(EBADF)), -1);
    assert_eq!(ctx.last_error, EBADF);
}

#[test]
fn chown_forms() {
    let c = chown_plan(ChownLocus::PathNoFollow, 1, 2);
    assert_eq!(c.flags, 0x100);
    assert_eq!(c.owner, Some(1));
    assert_eq!(c.group, Some(2));
    assert_eq!(chown_plan(ChownLocus::Path, 1, 2).flags, 0);
    assert_eq!(chown_plan(ChownLocus::Fd(3), 1, 2).locus, ChownLocus::Fd(3));
}
