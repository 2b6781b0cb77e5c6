//! The decisions of the file entry points: argument checks and flag
//! decoding before the syscall, and the C return value after it.
use vstd::prelude::*;

use crate::context::{convert_res, CallContext, EBADF, EFAULT};
use crate::flags::{bits_of, decode_at_flags, decode_statx_mask, symlink_nofollow};

verus! {

/// Why an entry point does not make its syscall.
#[derive(Clone, Copy, PartialEq, Eq, Debug)]
pub enum Refusal {
    /// The call fails with this error code.
    Errno(i32),
    /// A flag argument holds bits that the call cannot take; what follows is
    /// the choice of a `FlagPolicy`.
    BadFlags,
}

/// The `statx` query to make.
#[derive(Clone, Copy, PartialEq, Eq, Debug)]
pub struct StatxCall {
    /// Lookup flags.
    pub flags: u32,
    /// The fields asked for.
    pub mask: u32,
}

/// Checks the arguments of `statx(dirfd, path, flags, mask, out)`;
/// `path_null` and `out_null` say whether those pointers are null. Every bit
/// pattern of `flags` and `mask` is accepted, so the call goes ahead whenever
/// both pointers are given; the `BadFlags` refusal is kept for a syscall layer
/// that refuses unknown bits.
pub fn statx_plan(path_null: bool, out_null: bool, flags: i32, mask: u32) -> (r: Result<
    StatxCall,
    Refusal,
>)
    ensures
        path_null || out_null ==> r == Err::<StatxCall, Refusal>(Refusal::Errno(EFAULT)),
        !path_null && !out_null ==> r == Ok::<StatxCall, Refusal>(
            (StatxCall { flags: bits_of(flags), mask }),
        ),
{
    if path_null || out_null {
        return Err(Refusal::Errno(EFAULT));
    }
    let flags = match decode_at_flags(flags) {
        Some(f) => f,
        None => {
            return Err(Refusal::BadFlags);
        },
    };
    let mask = match decode_statx_mask(mask) {
        Some(m) => m,
        None => {
            return Err(Refusal::BadFlags);
        },
    };
    Ok(StatxCall { flags, mask })
}

/// The `copy_file_range` copy to make. A position of `None` means that the
/// descriptor's own file position is used and advanced.
#[derive(Clone, Copy, PartialEq, Eq, Debug)]
pub struct CopyRangeCall {
    pub fd_in: i32,
    pub off_in: Option<u64>,
    pub fd_out: i32,
    pub off_out: Option<u64>,
    pub len: usize,
}

/// A C `off64_t` position as the syscall layer takes it.
pub open spec fn offset_bits(off: i64) -> u64 {
    off as u64
}

#[verifier::truncate]
fn to_offset(off: i64) -> (r: u64)
    ensures
        r == offset_bits(off),
{
    off as u64
}

/// A cursor argument as the syscall layer takes it; `None` stays `None`.
pub open spec fn offset_arg(off: Option<i64>) -> Option<u64> {
    match off {
        None => None,
        Some(o) => Some(offset_bits(o)),
    }
}

fn map_offset(off: Option<i64>) -> (r: Option<u64>)
    ensures
        r == offset_arg(off),
{
    match off {
        None => None,
        Some(o) => Some(to_offset(o)),
    }
}

/// Checks the arguments of `copy_file_range`. `off_in` and `off_out` are the
/// positions behind the cursor pointers, `None` where a pointer is null.
/// Descriptor `-1` fails with `EBADF`; no flag is defined, so nonzero `flags`
/// are refused.
pub fn copy_file_range_plan(
    fd_in: i32,
    off_in: Option<i64>,
    fd_out: i32,
    off_out: Option<i64>,
    len: usize,
    flags: u32,
) -> (r: Result<CopyRangeCall, Refusal>)
    ensures
        fd_in == -1 || fd_out == -1 ==> r == Err::<CopyRangeCall, Refusal>(Refusal::Errno(EBADF)),
        fd_in != -1 && fd_out != -1 && flags != 0 ==> r == Err::<CopyRangeCall, Refusal>(
            Refusal::BadFlags,
        ),
        fd_in != -1 && fd_out != -1 && flags == 0 ==> r == Ok::<CopyRangeCall, Refusal>(
            (CopyRangeCall {
                fd_in,
                off_in: offset_arg(off_in),
                fd_out,
                off_out: offset_arg(off_out),
                len,
            }),
        ),
{
    if fd_in == -1 || fd_out == -1 {
        return Err(Refusal::Errno(EBADF));
    }
    if flags != 0 {
        return Err(Refusal::BadFlags);
    }
    Ok(
        CopyRangeCall {
            fd_in,
            off_in: map_offset(off_in),
            fd_out,
            off_out: map_offset(off_out),
            len,
        },
    )
}

/// The byte count that a C `ssize_t` return holds.
pub open spec fn count_ret(n: usize) -> isize {
    n as isize
}

#[verifier::truncate]
fn to_count(n: usize) -> (r: isize)
    ensures
        r == count_ret(n),
{
    n as isize
}

/// Gives the C return value of `copy_file_range` from the outcome of the
/// copy: the number of bytes copied, or `-1` with the error recorded.
pub fn copy_file_range_finish(ctx: &mut CallContext, res: Result<usize, i32>) -> (r: isize)
    ensures
        match res {
            Ok(n) => r == count_ret(n) && final(ctx).last_error == old(ctx).last_error,
            Err(e) => r == -1 && final(ctx).last_error == e,
        },
        final(ctx).token_next == old(ctx).token_next,
{
    match convert_res(ctx, res) {
        Some(n) => to_count(n),
        None => -1,
    }
}

/// What an ownership change names.
#[derive(Clone, Copy, PartialEq, Eq, Debug)]
pub enum ChownLocus {
    /// A path, following a final symbolic link (`chown`).
    Path,
    /// A path, not following a final symbolic link (`lchown`).
    PathNoFollow,
    /// An open descriptor (`fchown`).
    Fd(i32),
}

/// The ownership change to make.
#[derive(Clone, Copy, PartialEq, Eq, Debug)]
pub struct ChownCall {
    pub locus: ChownLocus,
    pub owner: Option<u32>,
    pub group: Option<u32>,
    /// Lookup flags for a path relative to the working directory.
    pub flags: u32,
}

/// The ownership change that `chown`, `lchown` or `fchown` makes. Only the
/// path form that does not follow links carries `AT_SYMLINK_NOFOLLOW`.
pub fn chown_plan(locus: ChownLocus, owner: u32, group: u32) -> (r: ChownCall)
    ensures
        r.locus == locus,
        r.owner == Some(owner),
        r.group == Some(group),
        r.flags == (if locus == ChownLocus::PathNoFollow {
            0x100u32
        } else {
            0u32
        }),
{
    let flags = match locus {
        ChownLocus::PathNoFollow => symlink_nofollow(),
        _ => 0,
    };
    ChownCall { locus, owner: Some(owner), group: Some(group), flags }
}

} // verus!
