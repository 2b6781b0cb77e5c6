//! Decoding of the C flag and option integers into the flag sets of the
//! syscall layer, and back.
use vstd::prelude::*;

use crate::context::EINVAL;

verus! {

/// Relies on `rustix::process::WaitOptions::from_bits`: the set declares
/// every bit known (`const _ = !0`), so every bit pattern is accepted as it
/// is.
#[verifier::external_body]
fn wait_options_from_bits(bits: u32) -> (r: Option<u32>)
    ensures
        r == Some(bits),
{
    rustix::process::WaitOptions::from_bits(bits).map(|o| o.bits())
}

/// Relies on `rustix::fs::AtFlags::from_bits`: the set declares every bit
/// known (`const _ = !0`), so every bit pattern is accepted as it is.
#[verifier::external_body]
fn at_flags_from_bits(bits: u32) -> (r: Option<u32>)
    ensures
        r == Some(bits),
{
    rustix::fs::AtFlags::from_bits(bits).map(|f| f.bits())
}

/// Relies on `rustix::fs::StatxFlags::from_bits`: the set declares every bit
/// known (`const _ = !0`), so every bit pattern is accepted as it is.
#[verifier::external_body]
fn statx_flags_from_bits(bits: u32) -> (r: Option<u32>)
    ensures
        r == Some(bits),
{
    rustix::fs::StatxFlags::from_bits(bits).map(|f| f.bits())
}

/// Relies on `rustix::fs::AtFlags::SYMLINK_NOFOLLOW`: Linux's
/// `AT_SYMLINK_NOFOLLOW`, `0x100`.
#[verifier::external_body]
pub(crate) fn symlink_nofollow() -> (r: u32)
    ensures
        r == 0x100,
{
    rustix::fs::AtFlags::SYMLINK_NOFOLLOW.bits()
}

/// The bits of a C `int` flag argument, as the syscall layer reads them.
pub open spec fn bits_of(raw: i32) -> u32 {
    raw as u32
}

/// A flag set as the C `int` that stands for it.
pub open spec fn raw_of(bits: u32) -> i32 {
    bits as i32
}

#[verifier::truncate]
fn to_bits(raw: i32) -> (r: u32)
    ensures
        r == bits_of(raw),
{
    raw as u32
}

#[verifier::truncate]
fn to_raw(bits: u32) -> (r: i32)
    ensures
        r == raw_of(bits),
{
    bits as i32
}

/// What a call does with a flag argument that holds bits the syscall layer
/// does not know.
#[derive(Clone, Copy, PartialEq, Eq, Debug)]
pub enum FlagPolicy {
    /// Stop the process, as the platform's library would misbehave otherwise.
    Abort,
    /// Fail the call with `EINVAL`.
    ReportInvalid,
}

/// The error code that `policy` reports for unknown flag bits; `None` where
/// the call is to abort instead.
pub fn bad_flags_errno(policy: FlagPolicy) -> (r: Option<i32>)
    ensures
        policy == FlagPolicy::Abort ==> r is None,
        policy == FlagPolicy::ReportInvalid ==> r == Some(EINVAL),
{
    match policy {
        FlagPolicy::Abort => None,
        FlagPolicy::ReportInvalid => Some(EINVAL),
    }
}

/// The wait options of `waitpid`'s `options` argument. The syscall layer's
/// wait options declare every bit known, so every bit pattern is accepted as
/// it is.
pub fn decode_wait_options(raw: i32) -> (r: Option<u32>)
    ensures
        r == Some(bits_of(raw)),
{
    wait_options_from_bits(to_bits(raw))
}

/// The lookup flags of an `*at` call's `flags` argument. Every bit pattern is
/// accepted as it is.
pub fn decode_at_flags(raw: i32) -> (r: Option<u32>)
    ensures
        r == Some(bits_of(raw)),
{
    at_flags_from_bits(to_bits(raw))
}

/// The field-selection mask of `statx`. Every bit pattern is accepted as it
/// is.
pub fn decode_statx_mask(mask: u32) -> (r: Option<u32>)
    ensures
        r == Some(mask),
{
    statx_flags_from_bits(mask)
}

/// The C `int` that stands for a decoded flag set.
pub fn encode_flags(bits: u32) -> (r: i32)
    ensures
        r == raw_of(bits),
{
    to_raw(bits)
}

/// Decoding a C flag argument and encoding the result again gives the
/// argument back, for wait options and lookup flags alike.
pub proof fn lemma_flags_round_trip(raw: i32)
    ensures
        raw_of(bits_of(raw)) == raw,
{
    assert((raw as u32) as i32 == raw) by (bit_vector);
}

} // verus!
