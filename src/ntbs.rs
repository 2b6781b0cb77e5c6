//! Algorithms on nul-terminated byte sequences (NTBS).
//!
//! A sequence ends at its first zero byte. A position in a buffer stands for a
//! C pointer into it; `None` stands for a null pointer.
use vstd::prelude::*;

verus! {

/// The terminator byte.
pub const NUL: u8 = 0;

/// `s` holds a terminator.
pub open spec fn is_ntbs(s: Seq<u8>) -> bool {
    exists|i: int| 0 <= i < s.len() && s[i] == 0
}

/// `s` holds a terminator at `at` or after it.
pub open spec fn is_ntbs_from(s: Seq<u8>, at: int) -> bool {
    exists|i: int| at <= i < s.len() && s[i] == 0
}

/// `n` is the position of the first terminator of `s` at or after `at`.
pub open spec fn nul_at(s: Seq<u8>, at: int, n: int) -> bool {
    &&& at <= n < s.len()
    &&& s[n] == 0
    &&& forall|j: int| at <= j < n ==> s[j] != 0
}

/// The length of the sequence that starts at `at`.
pub open spec fn len_from(s: Seq<u8>, at: int) -> int {
    (choose|n: int| nul_at(s, at, n)) - at
}

/// The length of the sequence held in `s`.
pub open spec fn str_len(s: Seq<u8>) -> int {
    len_from(s, 0)
}

/// The bytes of the sequence held in `s`, without the terminator.
pub open spec fn content(s: Seq<u8>) -> Seq<u8> {
    s.subrange(0, str_len(s))
}

pub proof fn lemma_nul_at_unique(s: Seq<u8>, at: int, a: int, b: int)
    requires
        nul_at(s, at, a),
        nul_at(s, at, b),
    ensures
        a == b,
{
    if a < b {
        assert(s[a] != 0);
    } else if b < a {
        assert(s[b] != 0);
    }
}

pub proof fn lemma_len_from(s: Seq<u8>, at: int, n: int)
    requires
        nul_at(s, at, n),
    ensures
        len_from(s, at) == n - at,
{
    let m = choose|m: int| nul_at(s, at, m);
    lemma_nul_at_unique(s, at, m, n);
}

pub proof fn lemma_first_nul(s: Seq<u8>, at: int, w: int)
    requires
        0 <= at <= w < s.len(),
        s[w] == 0,
    ensures
        nul_at(s, at, at + len_from(s, at)),
    decreases w - at,
{
    if forall|j: int| at <= j < w ==> s[j] != 0 {
        lemma_len_from(s, at, w);
    } else {
        let j = choose|j: int| at <= j < w && s[j] == 0;
        lemma_first_nul(s, at, j);
    }
}

/// The sequence held in `s` ends at `str_len(s)`.
pub proof fn lemma_str_len(s: Seq<u8>)
    requires
        is_ntbs(s),
    ensures
        nul_at(s, 0, str_len(s)),
{
    let w = choose|w: int| 0 <= w < s.len() && s[w] == 0;
    lemma_first_nul(s, 0, w);
}

/// Finds the terminator at or after `at`.
fn find_nul(s: &[u8], at: usize) -> (r: usize)
    requires
        is_ntbs_from(s@, at as int),
    ensures
        nul_at(s@, at as int, r as int),
        len_from(s@, at as int) == r - at,
{
    let mut i: usize = at;
    while s[i] != NUL
        invariant
            at <= i < s@.len(),
            is_ntbs_from(s@, i as int),
            forall|j: int| at <= j < i ==> s@[j] != 0,
        decreases s@.len() - i,
    {
        assert(is_ntbs_from(s@, i as int + 1));
        i = i + 1;
    }
    proof {
        lemma_len_from(s@, at as int, i as int);
    }
    i
}

/// `strlen`: the number of bytes before the terminator.
pub fn strlen(s: &[u8]) -> (r: usize)
    requires
        is_ntbs(s@),
    ensures
        nul_at(s@, 0, r as int),
        r == str_len(s@),
{
    assert(is_ntbs_from(s@, 0));
    find_nul(s, 0)
}

/// `new` is `old` with `part` written over it from position `at` on.
pub open spec fn written(old: Seq<u8>, new: Seq<u8>, at: int, part: Seq<u8>) -> bool {
    &&& new.len() == old.len()
    &&& 0 <= at
    &&& at + part.len() <= old.len()
    &&& forall|j: int|
        0 <= j < new.len() ==> new[j] == (if at <= j < at + part.len() {
            part[j - at]
        } else {
            old[j]
        })
}

/// `k` is the length of `s` read with at most `n` positions scanned.
pub open spec fn bounded_len(s: Seq<u8>, n: int, k: int) -> bool {
    &&& 0 <= k <= n
    &&& k <= s.len()
    &&& forall|j: int| 0 <= j < k ==> s[j] != 0
    &&& (k == n || (k < s.len() && s[k] == 0))
}

/// The length of `s` read with at most `n` positions scanned.
pub open spec fn str_nlen(s: Seq<u8>, n: int) -> int {
    choose|k: int| bounded_len(s, n, k)
}

/// The bytes scanned are all in the buffer: the sequence ends in it, or `n`
/// positions fit.
pub open spec fn readable(s: Seq<u8>, n: int) -> bool {
    is_ntbs(s) || n <= s.len()
}

/// `n` zero bytes.
pub open spec fn zeros(n: int) -> Seq<u8> {
    Seq::new(n as nat, |i: int| 0u8)
}

pub proof fn lemma_bounded_len(s: Seq<u8>, n: int, k: int)
    requires
        bounded_len(s, n, k),
    ensures
        str_nlen(s, n) == k,
{
    let m = choose|m: int| bounded_len(s, n, m);
    assert(bounded_len(s, n, m));
    if m < k {
        assert(s[m] != 0);
    } else if k < m {
        assert(s[k] != 0);
    }
}

/// `strnlen`: the length of `s`, scanning at most `n` positions.
pub fn strnlen(s: &[u8], n: usize) -> (r: usize)
    requires
        readable(s@, n as int),
    ensures
        bounded_len(s@, n as int, r as int),
        r == str_nlen(s@, n as int),
{
    let mut i: usize = 0;
    while i < n && s[i] != NUL
        invariant
            i <= n,
            readable(s@, n as int),
            i < n ==> i < s@.len(),
            is_ntbs(s@) ==> is_ntbs_from(s@, i as int),
            forall|j: int| 0 <= j < i ==> s@[j] != 0,
        decreases n - i,
    {
        i = i + 1;
        proof {
            if is_ntbs(s@) {
                assert(is_ntbs_from(s@, i as int));
                let w = choose|w: int| i <= w < s@.len() && s@[w] == 0;
                assert(i < s@.len());
            }
        }
    }
    proof {
        lemma_bounded_len(s@, n as int, i as int);
    }
    i
}

/// Copies the sequence of `s`, terminator included, into `d` from `at` on,
/// and returns the position of the copied terminator.
fn copy_at(d: &mut [u8], at: usize, s: &[u8]) -> (r: usize)
    requires
        is_ntbs(s@),
        at + str_len(s@) < old(d)@.len(),
    ensures
        written(old(d)@, final(d)@, at as int, s@.subrange(0, str_len(s@) + 1)),
        r == at + str_len(s@),
        final(d)@[r as int] == 0,
{
    let len = strlen(s);
    let dl = d.len();
    let mut i: usize = 0;
    while i < len
        invariant
            i <= len,
            d@.len() == dl,
            nul_at(s@, 0, len as int),
            at + len < d@.len(),
            written(old(d)@, d@, at as int, s@.subrange(0, i as int)),
        decreases len - i,
    {
        d[at + i] = s[i];
        i = i + 1;
    }
    d[at + len] = NUL;
    at + len
}

/// `stpcpy`: copies `s`, terminator included, to the start of `d` and
/// returns the position of the copied terminator.
pub fn stpcpy(d: &mut [u8], s: &[u8]) -> (r: usize)
    requires
        is_ntbs(s@),
        str_len(s@) < old(d)@.len(),
    ensures
        written(old(d)@, final(d)@, 0, s@.subrange(0, str_len(s@) + 1)),
        r == str_len(s@),
        final(d)@[r as int] == 0,
{
    copy_at(d, 0, s)
}

/// `strcpy`: copies `s`, terminator included, to the start of `d`.
pub fn strcpy(d: &mut [u8], s: &[u8])
    requires
        is_ntbs(s@),
        str_len(s@) < old(d)@.len(),
    ensures
        written(old(d)@, final(d)@, 0, s@.subrange(0, str_len(s@) + 1)),
{
    stpcpy(d, s);
}

/// `stpncpy`: writes exactly `n` positions of `d`: the bytes of `s` that come
/// before its terminator, at most `n` of them, then terminators up to
/// position `n`. Returns the position where the copied bytes end.
pub fn stpncpy(d: &mut [u8], s: &[u8], n: usize) -> (r: usize)
    requires
        readable(s@, n as int),
        n <= old(d)@.len(),
    ensures
        r == str_nlen(s@, n as int),
        written(
            old(d)@,
            final(d)@,
            0,
            s@.subrange(0, r as int) + zeros(n - r),
        ),
        r < n ==> forall|j: int| r <= j < n ==> final(d)@[j] == 0,
        r == n ==> forall|j: int| 0 <= j < n ==> final(d)@[j] != 0,
        forall|j: int| n <= j < final(d)@.len() ==> final(d)@[j] == old(d)@[j],
{
    let k = strnlen(s, n);
    let mut i: usize = 0;
    while i < k
        invariant
            i <= k <= n <= d@.len(),
            bounded_len(s@, n as int, k as int),
            written(old(d)@, d@, 0, s@.subrange(0, i as int)),
        decreases k - i,
    {
        d[i] = s[i];
        i = i + 1;
    }
    let ghost part = s@.subrange(0, k as int);
    while i < n
        invariant
            k <= i <= n <= d@.len(),
            bounded_len(s@, n as int, k as int),
            part == s@.subrange(0, k as int),
            written(old(d)@, d@, 0, part + zeros(i - k)),
        decreases n - i,
    {
        let ghost prev = d@;
        d[i] = NUL;
        i = i + 1;
        proof {
            let w = part + zeros(i - k);
            let v = part + zeros(i - 1 - k);
            assert forall|j: int| 0 <= j < d@.len() implies d@[j] == (if 0 <= j < w.len() {
                w[j]
            } else {
                old(d)@[j]
            }) by {
                if j < k {
                    assert(w[j] == part[j] && v[j] == part[j]);
                } else if j < i {
                    assert(w[j] == zeros(i - k)[j - k]);
                }
            }
        }
    }
    k
}

/// `strncpy`: `stpncpy` without the end position.
pub fn strncpy(d: &mut [u8], s: &[u8], n: usize)
    requires
        readable(s@, n as int),
        n <= old(d)@.len(),
    ensures
        written(
            old(d)@,
            final(d)@,
            0,
            s@.subrange(0, str_nlen(s@, n as int)) + zeros(n - str_nlen(s@, n as int)),
        ),
{
    stpncpy(d, s, n);
}

/// `strcat`: appends `s`, terminator included, to the sequence held in `d`.
pub fn strcat(d: &mut [u8], s: &[u8])
    requires
        is_ntbs(old(d)@),
        is_ntbs(s@),
        str_len(old(d)@) + str_len(s@) < old(d)@.len(),
    ensures
        written(old(d)@, final(d)@, str_len(old(d)@), s@.subrange(0, str_len(s@) + 1)),
{
    let e = strlen(&*d);
    copy_at(d, e, s);
}

/// `strncat`: appends to the sequence held in `d` the bytes of `s` before its
/// terminator, at most `n` of them, then a terminator.
pub fn strncat(d: &mut [u8], s: &[u8], n: usize)
    requires
        is_ntbs(old(d)@),
        readable(s@, n as int),
        str_len(old(d)@) + str_nlen(s@, n as int) < old(d)@.len(),
    ensures
        written(
            old(d)@,
            final(d)@,
            str_len(old(d)@),
            s@.subrange(0, str_nlen(s@, n as int)).push(0),
        ),
{
    let e = strlen(&*d);
    let k = strnlen(s, n);
    let dl = d.len();
    let mut i: usize = 0;
    while i < k
        invariant
            i <= k,
            d@.len() == dl,
            e + k < d@.len(),
            e == str_len(old(d)@),
            bounded_len(s@, n as int, k as int),
            written(old(d)@, d@, e as int, s@.subrange(0, i as int)),
        decreases k - i,
    {
        d[e + i] = s[i];
        i = i + 1;
    }
    d[e + k] = NUL;
}

/// The value of a byte read as a C `signed char`.
pub open spec fn signed(b: u8) -> int {
    if b < 128 {
        b as int
    } else {
        b as int - 256
    }
}

/// C-locale `tolower` on a `signed char` value: ASCII upper-case letters are
/// lowered, every other value is kept.
pub open spec fn lower(x: int) -> int {
    if 65 <= x <= 90 {
        x + 32
    } else {
        x
    }
}

/// A byte folded for case-insensitive comparison.
pub open spec fn folded(b: u8) -> int {
    lower(signed(b))
}

/// `k` is where a comparison of `a` and `b` stops: the first position where
/// they differ or `a` ends.
pub open spec fn cmp_stop(a: Seq<u8>, b: Seq<u8>, k: int) -> bool {
    &&& 0 <= k < a.len()
    &&& k < b.len()
    &&& (a[k] != b[k] || a[k] == 0)
    &&& forall|j: int| 0 <= j < k ==> a[j] == b[j] && a[j] != 0
}

/// `k` is where a case-insensitive comparison of `a` and `b` stops.
pub open spec fn case_stop(a: Seq<u8>, b: Seq<u8>, k: int) -> bool {
    &&& 0 <= k < a.len()
    &&& k < b.len()
    &&& (folded(a[k]) != folded(b[k]) || a[k] == 0)
    &&& forall|j: int| 0 <= j < k ==> folded(a[j]) == folded(b[j]) && a[j] != 0
}

/// The result of comparing the sequences `a` and `b`: the signed difference
/// of the bytes where the comparison stops.
pub open spec fn compare(a: Seq<u8>, b: Seq<u8>) -> int {
    let k = choose|k: int| cmp_stop(a, b, k);
    signed(a[k]) - signed(b[k])
}

/// The result of comparing at most `n` positions of `a` and `b`.
pub open spec fn compare_n(a: Seq<u8>, b: Seq<u8>, n: int) -> int {
    if exists|k: int| cmp_stop(a, b, k) && k < n {
        compare(a, b)
    } else {
        0
    }
}

/// The result of comparing `a` and `b` with case folded.
pub open spec fn case_compare(a: Seq<u8>, b: Seq<u8>) -> int {
    let k = choose|k: int| case_stop(a, b, k);
    folded(a[k]) - folded(b[k])
}

/// The result of comparing at most `n` positions of `a` and `b` with case
/// folded.
pub open spec fn case_compare_n(a: Seq<u8>, b: Seq<u8>, n: int) -> int {
    if exists|k: int| case_stop(a, b, k) && k < n {
        case_compare(a, b)
    } else {
        0
    }
}

pub proof fn lemma_cmp_stop_unique(a: Seq<u8>, b: Seq<u8>, k: int, m: int)
    requires
        cmp_stop(a, b, k),
        cmp_stop(a, b, m),
    ensures
        k == m,
{
    if k < m {
        assert(a[k] == b[k] && a[k] != 0);
    } else if m < k {
        assert(a[m] == b[m] && a[m] != 0);
    }
}

pub proof fn lemma_compare(a: Seq<u8>, b: Seq<u8>, k: int)
    requires
        cmp_stop(a, b, k),
    ensures
        compare(a, b) == signed(a[k]) - signed(b[k]),
        forall|n: int| k < n ==> compare_n(a, b, n) == compare(a, b),
        forall|n: int| n <= k ==> compare_n(a, b, n) == 0,
{
    let m = choose|m: int| cmp_stop(a, b, m);
    lemma_cmp_stop_unique(a, b, k, m);
    assert forall|n: int| n <= k implies compare_n(a, b, n) == 0 by {
        if exists|m: int| cmp_stop(a, b, m) && m < n {
            let m = choose|m: int| cmp_stop(a, b, m) && m < n;
            lemma_cmp_stop_unique(a, b, k, m);
        }
    }
}

pub proof fn lemma_case_compare(a: Seq<u8>, b: Seq<u8>, k: int)
    requires
        case_stop(a, b, k),
    ensures
        case_compare(a, b) == folded(a[k]) - folded(b[k]),
        forall|n: int| k < n ==> case_compare_n(a, b, n) == case_compare(a, b),
        forall|n: int| n <= k ==> case_compare_n(a, b, n) == 0,
{
    assert forall|m: int| case_stop(a, b, m) implies m == k by {
        if k < m {
            assert(folded(a[k]) == folded(b[k]) && a[k] != 0);
        } else if m < k {
            assert(folded(a[m]) == folded(b[m]) && a[m] != 0);
        }
    }
    let m = choose|m: int| case_stop(a, b, m);
    assert forall|n: int| n <= k implies case_compare_n(a, b, n) == 0 by {
        if exists|m: int| case_stop(a, b, m) && m < n {
            let m = choose|m: int| case_stop(a, b, m) && m < n;
        }
    }
}

/// A byte as a C `signed char`.
fn signed_byte(b: u8) -> (r: i32)
    ensures
        r == signed(b),
{
    if b < 128 {
        b as i32
    } else {
        b as i32 - 256
    }
}

/// A byte folded for case-insensitive comparison.
fn fold_byte(b: u8) -> (r: i32)
    ensures
        r == folded(b),
{
    let x = signed_byte(b);
    if 65 <= x && x <= 90 {
        x + 32
    } else {
        x
    }
}

/// Runs a comparison from position 0 for as long as `a` and `b` agree, `a`
/// goes on and fewer than `n` positions were scanned; returns where it
/// stopped.
fn scan_equal(a: &[u8], b: &[u8], n: usize, fold: bool) -> (r: usize)
    requires
        readable(a@, n as int),
        readable(b@, n as int),
    ensures
        r <= n,
        r < n ==> (if fold {
            case_stop(a@, b@, r as int)
        } else {
            cmp_stop(a@, b@, r as int)
        }),
        r == n ==> forall|j: int|
            0 <= j < n ==> a@[j] != 0 && (if fold {
                folded(a@[j]) == folded(b@[j])
            } else {
                a@[j] == b@[j]
            }),
{
    let mut i: usize = 0;
    while i < n
        invariant
            i <= n,
            readable(a@, n as int),
            readable(b@, n as int),
            is_ntbs(a@) ==> is_ntbs_from(a@, i as int),
            is_ntbs(b@) ==> is_ntbs_from(b@, i as int),
            forall|j: int|
                0 <= j < i ==> a@[j] != 0 && (if fold {
                    folded(a@[j]) == folded(b@[j])
                } else {
                    a@[j] == b@[j]
                }),
        decreases n - i,
    {
        proof {
            if is_ntbs(a@) {
                let w = choose|w: int| i <= w < a@.len() && a@[w] == 0;
            }
            if is_ntbs(b@) {
                let w = choose|w: int| i <= w < b@.len() && b@[w] == 0;
            }
        }
        let same = if fold {
            fold_byte(a[i]) == fold_byte(b[i])
        } else {
            a[i] == b[i]
        };
        if !same || a[i] == NUL {
            return i;
        }
        proof {
            if fold {
                if b@[i as int] == 0 {
                    assert(folded(b@[i as int]) == 0);
                }
            }
        }
        i = i + 1;
        proof {
            if is_ntbs(a@) {
                assert(is_ntbs_from(a@, i as int));
            }
            if is_ntbs(b@) {
                assert(is_ntbs_from(b@, i as int));
            }
        }
    }
    i
}

/// `strcmp`: compares two sequences byte by byte; the result is the signed
/// difference of the first pair that differs, or 0.
pub fn strcmp(s1: &[u8], s2: &[u8]) -> (r: i32)
    requires
        is_ntbs(s1@),
        is_ntbs(s2@),
    ensures
        r == compare(s1@, s2@),
{
    let n = s1.len();
    let k = scan_equal(s1, s2, n, false);
    if k == n {
        proof {
            let w = choose|w: int| 0 <= w < s1@.len() && s1@[w] == 0;
            assert(s1@[w] != 0);
        }
    }
    proof {
        lemma_compare(s1@, s2@, k as int);
    }
    signed_byte(s1[k]) - signed_byte(s2[k])
}

/// `strncmp`: `strcmp` over at most `n` positions.
pub fn strncmp(s1: &[u8], s2: &[u8], n: usize) -> (r: i32)
    requires
        readable(s1@, n as int),
        readable(s2@, n as int),
    ensures
        r == compare_n(s1@, s2@, n as int),
{
    let k = scan_equal(s1, s2, n, false);
    if k == n {
        proof {
            if exists|m: int| cmp_stop(s1@, s2@, m) && m < n {
                let m = choose|m: int| cmp_stop(s1@, s2@, m) && m < n;
            }
        }
        return 0;
    }
    proof {
        lemma_compare(s1@, s2@, k as int);
    }
    signed_byte(s1[k]) - signed_byte(s2[k])
}

/// `strcasecmp`: `strcmp` with ASCII letters folded to lower case.
pub fn strcasecmp(s1: &[u8], s2: &[u8]) -> (r: i32)
    requires
        is_ntbs(s1@),
        is_ntbs(s2@),
    ensures
        r == case_compare(s1@, s2@),
{
    let n = s1.len();
    let k = scan_equal(s1, s2, n, true);
    if k == n {
        proof {
            let w = choose|w: int| 0 <= w < s1@.len() && s1@[w] == 0;
            assert(s1@[w] != 0);
        }
    }
    proof {
        lemma_case_compare(s1@, s2@, k as int);
    }
    fold_byte(s1[k]) - fold_byte(s2[k])
}

/// `strncasecmp`: `strcasecmp` over at most `n` positions.
pub fn strncasecmp(s1: &[u8], s2: &[u8], n: usize) -> (r: i32)
    requires
        readable(s1@, n as int),
        readable(s2@, n as int),
    ensures
        r == case_compare_n(s1@, s2@, n as int),
{
    let k = scan_equal(s1, s2, n, true);
    if k == n {
        proof {
            if exists|m: int| case_stop(s1@, s2@, m) && m < n {
                let m = choose|m: int| case_stop(s1@, s2@, m) && m < n;
            }
        }
        return 0;
    }
    proof {
        lemma_case_compare(s1@, s2@, k as int);
    }
    fold_byte(s1[k]) - fold_byte(s2[k])
}

/// A copy compares equal to its source, and the position that the copy
/// returns holds the copied terminator.
pub proof fn lemma_copy_compares_equal(d: Seq<u8>, s: Seq<u8>, copy: Seq<u8>, end: int)
    requires
        is_ntbs(s),
        written(d, copy, 0, s.subrange(0, str_len(s) + 1)),
        end == str_len(s),
    ensures
        compare(copy, s) == 0,
        copy[end] == 0,
        content(copy) == content(s),
{
    lemma_str_len(s);
    let len = str_len(s);
    assert(cmp_stop(copy, s, len));
    lemma_compare(copy, s, len);
    assert(nul_at(copy, 0, len));
    lemma_len_from(copy, 0, len);
    assert(content(copy) =~= content(s));
}

/// The byte that a C `int` argument stands for: its low eight bits.
pub open spec fn byte_of(c: i32) -> u8 {
    c as u8
}

#[verifier::truncate]
fn to_byte(c: i32) -> (r: u8)
    ensures
        r == byte_of(c),
{
    c as u8
}

/// `strchr`: the first position, up to and including the terminator, that
/// holds the byte of `c`; `None` where there is none.
pub fn strchr(s: &[u8], c: i32) -> (r: Option<usize>)
    requires
        is_ntbs(s@),
    ensures
        r is None <==> forall|j: int| 0 <= j <= str_len(s@) ==> s@[j] != byte_of(c),
        r matches Some(i) ==> i <= str_len(s@) && s@[i as int] == byte_of(c) && forall|j: int|
            0 <= j < i ==> s@[j] != byte_of(c),
        byte_of(c) != 0 ==> (r is None <==> !content(s@).contains(byte_of(c))),
{
    let b = to_byte(c);
    let len = strlen(s);
    let mut i: usize = 0;
    while i <= len
        invariant
            len == str_len(s@),
            nul_at(s@, 0, len as int),
            b == byte_of(c),
            forall|j: int| 0 <= j < i ==> s@[j] != b,
        decreases len + 1 - i,
    {
        if s[i] == b {
            proof {
                if b != 0 {
                    assert(i < len);
                    assert(content(s@)[i as int] == b);
                }
            }
            return Some(i);
        }
        i = i + 1;
    }
    proof {
        if b != 0 && content(s@).contains(b) {
            let j = choose|j: int| 0 <= j < content(s@).len() && content(s@)[j] == b;
            assert(s@[j] == b);
        }
    }
    None
}

/// `strrchr`: the last position, up to and including the terminator, that
/// holds the byte of `c`; `None` where there is none.
pub fn strrchr(s: &[u8], c: i32) -> (r: Option<usize>)
    requires
        is_ntbs(s@),
    ensures
        r is None <==> forall|j: int| 0 <= j <= str_len(s@) ==> s@[j] != byte_of(c),
        r matches Some(i) ==> i <= str_len(s@) && s@[i as int] == byte_of(c) && forall|j: int|
            i < j <= str_len(s@) ==> s@[j] != byte_of(c),
{
    let b = to_byte(c);
    let len = strlen(s);
    let mut found: Option<usize> = None;
    let mut i: usize = 0;
    while i <= len
        invariant
            len == str_len(s@),
            nul_at(s@, 0, len as int),
            b == byte_of(c),
            i <= len + 1,
            found is None <==> forall|j: int| 0 <= j < i ==> s@[j] != b,
            found matches Some(f) ==> f < i && s@[f as int] == b && forall|j: int|
                f < j < i ==> s@[j] != b,
        decreases len + 1 - i,
    {
        if s[i] == b {
            found = Some(i);
        }
        i = i + 1;
    }
    found
}

/// `index`: the historical name of `strchr`.
pub fn index(s: &[u8], c: i32) -> (r: Option<usize>)
    requires
        is_ntbs(s@),
    ensures
        r is None <==> forall|j: int| 0 <= j <= str_len(s@) ==> s@[j] != byte_of(c),
        r matches Some(i) ==> i <= str_len(s@) && s@[i as int] == byte_of(c) && forall|j: int|
            0 <= j < i ==> s@[j] != byte_of(c),
{
    strchr(s, c)
}

/// `rindex`: the historical name of `strrchr`.
pub fn rindex(s: &[u8], c: i32) -> (r: Option<usize>)
    requires
        is_ntbs(s@),
    ensures
        r is None <==> forall|j: int| 0 <= j <= str_len(s@) ==> s@[j] != byte_of(c),
        r matches Some(i) ==> i <= str_len(s@) && s@[i as int] == byte_of(c) && forall|j: int|
            i < j <= str_len(s@) ==> s@[j] != byte_of(c),
{
    strrchr(s, c)
}

/// `b` is one of the bytes of the set held in the sequence `m`.
pub open spec fn in_set(m: Seq<u8>, b: u8) -> bool {
    exists|j: int| 0 <= j < str_len(m) && m[j] == b
}

/// Whether `b` is in the set held in `m`.
fn member(m: &[u8], b: u8) -> (r: bool)
    requires
        is_ntbs(m@),
    ensures
        r == in_set(m@, b),
{
    let len = strlen(m);
    let mut i: usize = 0;
    while i < len
        invariant
            len == str_len(m@),
            nul_at(m@, 0, len as int),
            forall|j: int| 0 <= j < i ==> m@[j] != b,
        decreases len - i,
    {
        if m[i] == b {
            return true;
        }
        i = i + 1;
    }
    false
}

pub proof fn lemma_nul_not_in_set(m: Seq<u8>)
    requires
        is_ntbs(m),
    ensures
        !in_set(m, 0),
{
    lemma_str_len(m);
}

/// `e` ends the run from `at` on of bytes whose membership in `m` is `inside`;
/// a run never takes in the terminator.
pub open spec fn run_end(s: Seq<u8>, at: int, m: Seq<u8>, inside: bool, e: int) -> bool {
    &&& at <= e < s.len()
    &&& forall|j: int| at <= j < e ==> s[j] != 0 && in_set(m, s[j]) == inside
    &&& (s[e] == 0 || in_set(m, s[e]) != inside)
}

/// The end of the run from `at` on of bytes whose membership in `m` is
/// `inside`.
pub open spec fn run_to(s: Seq<u8>, at: int, m: Seq<u8>, inside: bool) -> int {
    choose|e: int| run_end(s, at, m, inside, e)
}

pub proof fn lemma_run_to(s: Seq<u8>, at: int, m: Seq<u8>, inside: bool, e: int)
    requires
        run_end(s, at, m, inside, e),
    ensures
        run_to(s, at, m, inside) == e,
{
    let f = choose|f: int| run_end(s, at, m, inside, f);
    assert(run_end(s, at, m, inside, f));
    if f < e {
        assert(s[f] != 0 && in_set(m, s[f]) == inside);
    } else if e < f {
        assert(s[e] != 0 && in_set(m, s[e]) == inside);
    }
}

/// Scans from `at` on past the bytes whose membership in `m` is `inside`.
fn run_from(s: &[u8], at: usize, m: &[u8], inside: bool) -> (r: usize)
    requires
        is_ntbs_from(s@, at as int),
        is_ntbs(m@),
    ensures
        run_end(s@, at as int, m@, inside, r as int),
        r == run_to(s@, at as int, m@, inside),
{
    let mut i: usize = at;
    while s[i] != NUL && member(m, s[i]) == inside
        invariant
            at <= i < s@.len(),
            is_ntbs(m@),
            is_ntbs_from(s@, i as int),
            forall|j: int| at <= j < i ==> s@[j] != 0 && in_set(m@, s@[j]) == inside,
        decreases s@.len() - i,
    {
        assert(is_ntbs_from(s@, i as int + 1));
        i = i + 1;
    }
    proof {
        lemma_run_to(s@, at as int, m@, inside, i as int);
    }
    i
}

/// `strspn`: the number of leading bytes of `s` that are in the set `m`.
pub fn strspn(s: &[u8], m: &[u8]) -> (r: usize)
    requires
        is_ntbs(s@),
        is_ntbs(m@),
    ensures
        r < s@.len(),
        forall|j: int| 0 <= j < r ==> in_set(m@, s@[j]),
        !in_set(m@, s@[r as int]),
{
    proof {
        lemma_nul_not_in_set(m@);
    }
    run_from(s, 0, m, true)
}

/// `strcspn`: the number of leading bytes of `s` that are not in the set `m`.
pub fn strcspn(s: &[u8], m: &[u8]) -> (r: usize)
    requires
        is_ntbs(s@),
        is_ntbs(m@),
    ensures
        r < s@.len(),
        forall|j: int| 0 <= j < r ==> s@[j] != 0 && !in_set(m@, s@[j]),
        s@[r as int] == 0 || in_set(m@, s@[r as int]),
{
    run_from(s, 0, m, false)
}

/// `strpbrk`: the first position of `s` that holds a byte of the set `m`;
/// `None` where the sequence ends first.
pub fn strpbrk(s: &[u8], m: &[u8]) -> (r: Option<usize>)
    requires
        is_ntbs(s@),
        is_ntbs(m@),
    ensures
        r is None ==> forall|j: int| 0 <= j < str_len(s@) ==> !in_set(m@, s@[j]),
        r matches Some(i) ==> i < str_len(s@) && in_set(m@, s@[i as int]) && forall|j: int|
            0 <= j < i ==> !in_set(m@, s@[j]),
{
    let k = strcspn(s, m);
    proof {
        lemma_str_len(s@);
        lemma_nul_not_in_set(m@);
        if s@[k as int] == 0 {
            lemma_len_from(s@, 0, k as int);
        } else {
            let len = str_len(s@);
            if len < k {
                assert(s@[len] != 0);
            }
        }
    }
    if s[k] != NUL {
        Some(k)
    } else {
        None
    }
}

/// The needle `p` stands in `h` from position `i` on.
pub open spec fn occurs_at(h: Seq<u8>, i: int, p: Seq<u8>) -> bool {
    &&& 0 <= i
    &&& i + p.len() <= h.len()
    &&& h.subrange(i, i + p.len()) == p
}

/// `strstr`: the first position, up to the terminator of `haystack`, from
/// which the sequence of `needle` stands in it; `None` where there is none.
/// An empty needle is found at position 0.
pub fn strstr(haystack: &[u8], needle: &[u8]) -> (r: Option<usize>)
    requires
        is_ntbs(haystack@),
        is_ntbs(needle@),
    ensures
        r is None ==> forall|i: int|
            0 <= i <= str_len(haystack@) ==> !occurs_at(haystack@, i, content(needle@)),
        r matches Some(i) ==> i <= str_len(haystack@) && occurs_at(
            haystack@,
            i as int,
            content(needle@),
        ) && forall|j: int| 0 <= j < i ==> !occurs_at(haystack@, j, content(needle@)),
{
    let nl = strlen(needle);
    let hl = strlen(haystack);
    let ghost p = content(needle@);
    assert(p.len() == nl);
    if nl == 0 {
        assert(haystack@.subrange(0, 0) =~= p);
        return Some(0);
    }
    let mut i: usize = 0;
    while i < hl
        invariant
            nl == str_len(needle@),
            hl == str_len(haystack@),
            nul_at(needle@, 0, nl as int),
            nul_at(haystack@, 0, hl as int),
            p == content(needle@),
            p.len() == nl,
            0 < nl,
            i <= hl,
            forall|j: int| 0 <= j < i ==> !occurs_at(haystack@, j, p),
        decreases hl - i,
    {
        let mut k: usize = 0;
        while k < nl && i + k < hl && haystack[i + k] == needle[k]
            invariant
                nl == str_len(needle@),
                hl == str_len(haystack@),
                nul_at(needle@, 0, nl as int),
                nul_at(haystack@, 0, hl as int),
                i < hl,
                k <= nl,
                i + k <= hl,
                forall|j: int| 0 <= j < k ==> haystack@[i + j] == needle@[j],
            decreases nl - k,
        {
            k = k + 1;
        }
        if k == nl {
            assert(haystack@.subrange(i as int, i + nl) =~= p);
            return Some(i);
        }
        proof {
            if occurs_at(haystack@, i as int, p) {
                assert(haystack@.subrange(i as int, i + nl)[k as int] == p[k as int]);
                if i + k >= hl {
                    assert(haystack@[hl as int] == p[hl - i]);
                }
            }
        }
        i = i + 1;
    }
    proof {
        if occurs_at(haystack@, hl as int, p) {
            assert(haystack@.subrange(hl as int, hl + nl)[0] == p[0]);
        }
    }
    None
}

/// Where a tokenizer call starts: the position it is given, else the saved
/// one.
pub open spec fn scan_start(from: Option<usize>, saved: Option<usize>) -> Option<usize> {
    if from is Some {
        from
    } else {
        saved
    }
}

/// One tokenizer call on `s` with delimiter set `m`, starting at `start`,
/// leaves the buffer `s2` and the saved position `saved2`, and returns `r`.
pub open spec fn token_step(
    s: Seq<u8>,
    start: Option<usize>,
    saved: Option<usize>,
    m: Seq<u8>,
    s2: Seq<u8>,
    saved2: Option<usize>,
    r: Option<usize>,
) -> bool {
    match start {
        None => r is None && saved2 == saved && s2 == s,
        Some(x) => {
            let t0 = run_to(s, x as int, m, true);
            if s[t0] == 0 {
                r is None && saved2 is None && s2 == s
            } else {
                let t1 = run_to(s, t0, m, false);
                &&& r == Some(t0 as usize)
                &&& if s[t1] != 0 {
                    s2 == s.update(t1, 0) && saved2 == Some((t1 + 1) as usize)
                } else {
                    s2 == s && saved2 is None
                }
            }
        },
    }
}

/// `strtok_r`: takes the next token of `buf`. The scan starts at `from`, or,
/// where that is `None`, at the position saved in `p` by the previous call.
/// Delimiters of `m` are skipped; the token runs to the next delimiter, which
/// is overwritten with a terminator, and `p` is left after it. Returns the
/// token's start, or `None` where no token is left.
pub fn strtok_r(buf: &mut [u8], from: Option<usize>, m: &[u8], p: &mut Option<usize>) -> (r:
    Option<usize>)
    requires
        is_ntbs(m@),
        scan_start(from, *old(p)) matches Some(x) ==> is_ntbs_from(old(buf)@, x as int),
    ensures
        token_step(old(buf)@, scan_start(from, *old(p)), *old(p), m@, final(buf)@, *final(p), r),
{
    let start = if from.is_some() {
        from
    } else {
        *p
    };
    let x = match start {
        None => {
            return None;
        },
        Some(x) => x,
    };
    let t0 = run_from(&*buf, x, m, true);
    if buf[t0] == NUL {
        *p = None;
        return None;
    }
    proof {
        assert(is_ntbs_from(buf@, t0 as int)) by {
            let w = choose|w: int| x <= w < buf@.len() && buf@[w] == 0;
            if w < t0 {
                assert(buf@[w] != 0);
            }
        }
    }
    let t1 = run_from(&*buf, t0, m, false);
    let bl = buf.len();
    assert(t1 < bl);
    if buf[t1] != NUL {
        buf[t1] = NUL;
        *p = Some(t1 + 1);
    } else {
        *p = None;
    }
    Some(t0)
}

pub proof fn lemma_run_exists(s: Seq<u8>, at: int, m: Seq<u8>, inside: bool, w: int)
    requires
        0 <= at <= w < s.len(),
        s[w] == 0,
    ensures
        run_end(s, at, m, inside, run_to(s, at, m, inside)),
    decreases w - at,
{
    if s[at] == 0 || in_set(m, s[at]) != inside {
        assert(run_end(s, at, m, inside, at));
    } else {
        lemma_run_exists(s, at + 1, m, inside, w);
        let e = run_to(s, at + 1, m, inside);
        assert(run_end(s, at, m, inside, e));
    }
}

/// What one tokenizer call does, stated over the buffer it was given. A call
/// that returns a token at `t`: every byte skipped before `t` is a delimiter;
/// the token is a non-empty run of bytes that are not delimiters, held
/// unchanged and now ending in a terminator; either one delimiter after it was
/// overwritten and the scan goes on right after that delimiter, or the
/// sequence ended there and no position is saved. A call that returns no
/// token found only delimiters up to the terminator, and leaves no position
/// saved, so a call that starts from the saved position returns no token
/// either.
pub proof fn lemma_token_step(
    s: Seq<u8>,
    start: Option<usize>,
    saved: Option<usize>,
    m: Seq<u8>,
    s2: Seq<u8>,
    saved2: Option<usize>,
    r: Option<usize>,
)
    requires
        s.len() <= usize::MAX,
        is_ntbs(m),
        start matches Some(x) ==> is_ntbs_from(s, x as int),
        token_step(s, start, saved, m, s2, saved2, r),
    ensures
        start is None ==> r is None && saved2 == saved && s2 == s,
        start matches Some(x) ==> (r is None ==> saved2 is None && s2 == s && forall|j: int|
            x <= j < x + len_from(s, x as int) ==> in_set(m, s[j])),
        start matches Some(x) ==> (r matches Some(t) ==> {
            let e = t + len_from(s2, t as int);
            &&& x <= t < e
            &&& forall|j: int| x <= j < t ==> in_set(m, s[j])
            &&& forall|j: int| t <= j < e ==> s[j] != 0 && !in_set(m, s[j])
            &&& s2.len() == s.len()
            &&& forall|j: int| 0 <= j < s.len() && j != e ==> s2[j] == s[j]
            &&& s2[e] == 0
            &&& (saved2 is None ==> s[e] == 0)
            &&& (saved2 matches Some(q) ==> q == e + 1 && in_set(m, s[e]))
        }),
{
    lemma_nul_not_in_set(m);
    if let Some(x) = start {
        let w = choose|w: int| x <= w < s.len() && s[w] == 0;
        lemma_run_exists(s, x as int, m, true, w);
        let t0 = run_to(s, x as int, m, true);
        if s[t0] == 0 {
            lemma_len_from(s, x as int, t0);
        } else {
            if w < t0 {
                assert(s[w] != 0);
            }
            lemma_run_exists(s, t0, m, false, w);
            let t1 = run_to(s, t0, m, false);
            assert(!in_set(m, s[t0]));
            assert(nul_at(s2, t0, t1));
            lemma_len_from(s2, t0, t1);
        }
    }
}

/// Every byte of `s` in `[a, b)` is a delimiter of `m`.
pub open spec fn all_delims(s: Seq<u8>, m: Seq<u8>, a: int, b: int) -> bool {
    forall|j: int| a <= j < b ==> in_set(m, s[j])
}

/// `[a, b)` is a non-empty run of bytes of `s` that are not delimiters of `m`.
pub open spec fn word(s: Seq<u8>, m: Seq<u8>, a: int, b: int) -> bool {
    &&& a < b
    &&& forall|j: int| a <= j < b ==> s[j] != 0 && !in_set(m, s[j])
}

/// The position of the `l`-th token that a run of calls returned.
pub open spec fn tok_start(toks: Seq<Option<usize>>, l: int) -> int {
    match toks[l] {
        Some(t) => t as int,
        None => 0,
    }
}

/// Where the `l`-th token ends in the buffer `fb` that the calls left.
pub open spec fn tok_end(fb: Seq<u8>, toks: Seq<Option<usize>>, l: int) -> int {
    tok_start(toks, l) + len_from(fb, tok_start(toks, l))
}

/// A run of tokenizer calls on `s` with delimiter set `m`: call `i` is given
/// the buffer `bufs[i]` and the saved position `saved[i]`, leaves
/// `bufs[i + 1]` and `saved[i + 1]`, and returns `toks[i]`. The first call
/// starts at position 0; each later one goes on from the saved position.
pub open spec fn tokenizer_run(
    s: Seq<u8>,
    m: Seq<u8>,
    bufs: Seq<Seq<u8>>,
    saved: Seq<Option<usize>>,
    toks: Seq<Option<usize>>,
) -> bool {
    &&& bufs.len() == toks.len() + 1
    &&& saved.len() == toks.len() + 1
    &&& bufs[0] == s
    &&& forall|i: int|
        0 <= i < toks.len() ==> token_step(
            bufs[i],
            if i == 0 {
                Some(0usize)
            } else {
                saved[i]
            },
            saved[i],
            m,
            #[trigger] bufs[i + 1],
            saved[i + 1],
            toks[i],
        )
}

/// Every call of the run before `k` returned a token, and call `k` none.
pub open spec fn ends_at(toks: Seq<Option<usize>>, k: int) -> bool {
    &&& 0 <= k
    &&& toks.len() == k + 1
    &&& toks[k] is None
    &&& forall|l: int| 0 <= l < k ==> toks[l] is Some
}

proof fn lemma_same_nul(a: Seq<u8>, b: Seq<u8>, x: int, n: int)
    requires
        a.len() == b.len(),
        forall|j: int| x <= j < a.len() ==> a[j] == b[j],
        nul_at(a, x, n),
    ensures
        nul_at(b, x, n),
        len_from(b, x) == n - x,
{
    lemma_len_from(b, x, n);
}

proof fn lemma_run_from(
    s: Seq<u8>,
    m: Seq<u8>,
    bufs: Seq<Seq<u8>>,
    saved: Seq<Option<usize>>,
    toks: Seq<Option<usize>>,
    k: int,
    n: int,
    i: int,
    x: int,
)
    requires
        s.len() <= usize::MAX,
        is_ntbs(m),
        tokenizer_run(s, m, bufs, saved, toks),
        ends_at(toks, k),
        0 <= i <= k,
        0 <= x,
        (i == 0 && x == 0) || (i > 0 && saved[i] == Some(x as usize)),
        bufs[i].len() == s.len(),
        forall|j: int| x <= j < s.len() ==> bufs[i][j] == s[j],
        nul_at(s, x, n),
    ensures
        bufs[k + 1].len() == s.len(),
        forall|j: int| 0 <= j < x ==> bufs[k + 1][j] == bufs[i][j],
        saved[k + 1] is None,
        forall|l: int|
            i <= l < k ==> {
                &&& word(s, m, tok_start(toks, l), tok_end(bufs[k + 1], toks, l))
                &&& x <= tok_start(toks, l)
                &&& tok_end(bufs[k + 1], toks, l) <= n
                &&& forall|j: int|
                    tok_start(toks, l) <= j < tok_end(bufs[k + 1], toks, l) ==> bufs[k + 1][j]
                        == s[j]
            },
        forall|l: int|
            i <= l < k - 1 ==> #[trigger] tok_end(bufs[k + 1], toks, l) < tok_start(toks, l + 1) && all_delims(
                s,
                m,
                tok_end(bufs[k + 1], toks, l),
                tok_start(toks, l + 1),
            ),
        i < k ==> all_delims(s, m, x, tok_start(toks, i)),
        i == k ==> all_delims(s, m, x, n),
        i < k ==> all_delims(s, m, tok_end(bufs[k + 1], toks, k - 1), n),
    decreases k - i,
{
    lemma_nul_not_in_set(m);
    let b = bufs[i];
    let start = if i == 0 {
        Some(0usize)
    } else {
        saved[i]
    };
    assert(start == Some(x as usize));
    assert(token_step(b, start, saved[i], m, bufs[i + 1], saved[i + 1], toks[i]));
    lemma_same_nul(s, b, x, n);
    assert(is_ntbs_from(b, x));
    lemma_token_step(b, start, saved[i], m, bufs[i + 1], saved[i + 1], toks[i]);
    if i == k {
        assert(bufs[k + 1] == bufs[k]);
    } else {
        let t = tok_start(toks, i);
        let b1 = bufs[i + 1];
        let e = t + len_from(b1, t);
        assert(forall|j: int| x <= j < e ==> s[j] != 0);
        if e >= n {
            assert(s[n] == 0);
        }
        match saved[i + 1] {
            None => {
                assert(s[e] == 0);
                let i1 = i + 1;
                if i1 < k {
                    assert(token_step(
                        bufs[i1],
                        saved[i1],
                        saved[i1],
                        m,
                        bufs[i1 + 1],
                        saved[i1 + 1],
                        toks[i1],
                    ));
                }
                assert(i + 1 == k);
                assert(token_step(bufs[k], saved[k], saved[k], m, bufs[k + 1], saved[k + 1], toks[k]));
                assert(bufs[k + 1] == b1);
                assert(e == n);
            },
            Some(q) => {
                assert(q == e + 1);
                assert(s[e] != 0);
                assert(nul_at(s, e + 1, n));
                lemma_run_from(s, m, bufs, saved, toks, k, n, i + 1, e + 1);
                let fb = bufs[k + 1];
                assert forall|j: int| t <= j < e implies fb[j] != 0 by {
                    assert(fb[j] == b1[j]);
                    assert(b1[j] == b[j]);
                }
                assert(fb[e] == b1[e]);
                assert(nul_at(fb, t, e));
                lemma_len_from(fb, t, e);
                assert(tok_end(fb, toks, i) == e);
            },
        }
    }
}

/// A run of tokenizer calls over `s` that goes on until a call returns no
/// token takes `s` apart into its words: each token is a non-empty run of
/// bytes that are not delimiters, held unchanged in the buffer and ending in
/// a terminator there; consecutive tokens are parted by a non-empty run of
/// delimiters; only delimiters come before the first token and after the last
/// one up to the terminator (or, with no token, in the whole sequence). So
/// the tokens joined by one separator give `s` with every run of delimiters
/// collapsed and the outer ones dropped. No position is saved after the run,
/// so a further call returns no token.
pub proof fn lemma_tokenizer_run(
    s: Seq<u8>,
    m: Seq<u8>,
    bufs: Seq<Seq<u8>>,
    saved: Seq<Option<usize>>,
    toks: Seq<Option<usize>>,
    k: int,
)
    requires
        s.len() <= usize::MAX,
        is_ntbs(s),
        is_ntbs(m),
        tokenizer_run(s, m, bufs, saved, toks),
        ends_at(toks, k),
    ensures
        saved[k + 1] is None,
        forall|l: int|
            0 <= l < k ==> {
                &&& word(s, m, tok_start(toks, l), tok_end(bufs[k + 1], toks, l))
                &&& tok_end(bufs[k + 1], toks, l) <= str_len(s)
                &&& forall|j: int|
                    tok_start(toks, l) <= j < tok_end(bufs[k + 1], toks, l) ==> bufs[k + 1][j]
                        == s[j]
            },
        forall|l: int|
            0 <= l < k - 1 ==> #[trigger] tok_end(bufs[k + 1], toks, l) < tok_start(toks, l + 1) && all_delims(
                s,
                m,
                tok_end(bufs[k + 1], toks, l),
                tok_start(toks, l + 1),
            ),
        k == 0 ==> all_delims(s, m, 0, str_len(s)),
        0 < k ==> all_delims(s, m, 0, tok_start(toks, 0)),
        0 < k ==> all_delims(s, m, tok_end(bufs[k + 1], toks, k - 1), str_len(s)),
{
    lemma_str_len(s);
    lemma_run_from(s, m, bufs, saved, toks, k, str_len(s), 0, 0);
}

/// Runs the tokenizer over the sequence in `buf` until it returns no token,
/// and returns the token positions in order. The tokens are the words of the
/// sequence, as `lemma_tokenizer_run` states: each ends in a terminator in the
/// buffer, consecutive ones are parted by runs of delimiters in the sequence,
/// and only delimiters stand before the first and after the last.
#[verifier::rlimit(50)]
pub fn strtok_all(buf: &mut [u8], m: &[u8]) -> (r: Vec<usize>)
    requires
        is_ntbs(old(buf)@),
        is_ntbs(m@),
    ensures
        final(buf)@.len() == old(buf)@.len(),
        forall|l: int|
            0 <= l < r@.len() ==> {
                &&& word(old(buf)@, m@, r@[l] as int, r@[l] + len_from(final(buf)@, r@[l] as int))
                &&& r@[l] + len_from(final(buf)@, r@[l] as int) <= str_len(old(buf)@)
                &&& forall|j: int|
                    r@[l] <= j < r@[l] + len_from(final(buf)@, r@[l] as int) ==> final(buf)@[j]
                        == old(buf)@[j]
            },
        forall|l: int|
            0 <= l < r@.len() - 1 ==> #[trigger] r@[l] + len_from(final(buf)@, r@[l] as int)
                < r@[l + 1] && all_delims(
                old(buf)@,
                m@,
                r@[l] + len_from(final(buf)@, r@[l] as int),
                r@[l + 1] as int,
            ),
        r@.len() == 0 ==> all_delims(old(buf)@, m@, 0, str_len(old(buf)@)),
        0 < r@.len() ==> all_delims(old(buf)@, m@, 0, r@[0] as int),
        0 < r@.len() ==> all_delims(
            old(buf)@,
            m@,
            r@[r@.len() - 1] + len_from(final(buf)@, r@[r@.len() - 1] as int),
            str_len(old(buf)@),
        ),
{
    let ghost s = buf@;
    let ghost n = str_len(s);
    proof {
        lemma_str_len(s);
        lemma_nul_not_in_set(m@);
    }
    let bl = buf.len();
    let mut p: Option<usize> = None;
    let mut out: Vec<usize> = Vec::new();
    let mut first = true;
    let ghost mut bufs: Seq<Seq<u8>> = seq![s];
    let ghost mut saved: Seq<Option<usize>> = seq![None];
    let ghost mut toks: Seq<Option<usize>> = seq![];
    loop
        invariant
            bl == s.len() == buf@.len(),
            s == old(buf)@,
            n == str_len(s),
            !in_set(m@, 0),
            s.len() <= usize::MAX,
            is_ntbs(m@),
            nul_at(s, 0, n),
            tokenizer_run(s, m@, bufs, saved, toks),
            forall|l: int| 0 <= l < toks.len() ==> toks[l] is Some,
            out@.len() == toks.len(),
            forall|l: int| 0 <= l < toks.len() ==> tok_start(toks, l) == out@[l],
            bufs[toks.len() as int] == buf@,
            saved[toks.len() as int] == p,
            first <==> toks.len() == 0,
            !first ==> (p matches Some(x) ==> {
                &&& x <= bl
                &&& forall|j: int| x <= j < s.len() ==> buf@[j] == s[j]
                &&& nul_at(s, x as int, n)
            }),
            first ==> buf@ == s,
        decreases
            if first {
                2 * bl + 3
            } else {
                match p {
                    Some(q) => 2 * (bl - q) + 2,
                    None => 1,
                }
            },
    {
        let ghost b = buf@;
        let ghost sv = p;
        let ghost toks0 = toks;
        let ghost x: int = if first { 0 } else { match p { Some(q) => q as int, None => 0 } };
        let from = if first {
            Some(0usize)
        } else {
            None
        };
        proof {
            if first || p is Some {
                lemma_same_nul(s, b, x, n);
            }
        }
        let r = strtok_r(buf, from, m, &mut p);
        proof {
            let start = scan_start(from, sv);
            if first || sv is Some {
                lemma_same_nul(s, b, x, n);
            }
            lemma_token_step(b, start, sv, m@, buf@, p, r);
            let i = toks.len() as int;
            bufs = bufs.push(buf@);
            saved = saved.push(p);
            toks = toks.push(r);
            assert forall|l: int| 0 <= l < toks.len() implies token_step(
                bufs[l],
                if l == 0 {
                    Some(0usize)
                } else {
                    saved[l]
                },
                saved[l],
                m@,
                #[trigger] bufs[l + 1],
                saved[l + 1],
                toks[l],
            ) by {
                if l < i {
                    assert(bufs[l] == bufs.drop_last()[l]);
                }
            }
        }
        match r {
            None => {
                proof {
                    let k = toks.len() - 1;
                    assert forall|l: int| 0 <= l < k implies tok_start(toks, l) == out@[l] by {
                        assert(toks[l] == toks0[l]);
                        assert(tok_start(toks0, l) == out@[l]);
                    }
                    assert(ends_at(toks, k));
                    lemma_tokenizer_run(s, m@, bufs, saved, toks, k);
                    assert(bufs[k + 1] == buf@);
                    let fb = buf@;
                    assert forall|l: int| 0 <= l < k implies {
                        &&& word(s, m@, out@[l] as int, out@[l] + len_from(fb, out@[l] as int))
                        &&& out@[l] + len_from(fb, out@[l] as int) <= n
                        &&& forall|j: int|
                            out@[l] <= j < out@[l] + len_from(fb, out@[l] as int) ==> fb[j] == s[j]
                    } by {
                        assert(tok_start(toks, l) == out@[l]);
                    }
                    assert forall|l: int| 0 <= l < k - 1 implies out@[l] + len_from(
                        fb,
                        out@[l] as int,
                    ) < out@[l + 1] && all_delims(
                        s,
                        m@,
                        out@[l] + len_from(fb, out@[l] as int),
                        out@[l + 1] as int,
                    ) by {
                        assert(tok_start(toks, l) == out@[l]);
                        assert(tok_start(toks, l + 1) == out@[l + 1]);
                        assert(tok_end(fb, toks, l) < tok_start(toks, l + 1));
                    }
                }
                return out;
            },
            Some(t) => {
                let ghost out0 = out@;
                out.push(t);
                proof {
                    assert forall|l: int| 0 <= l < toks.len() implies tok_start(toks, l)
                        == out@[l] by {
                        if l < toks0.len() {
                            assert(toks[l] == toks0[l]);
                            assert(tok_start(toks0, l) == out0[l]);
                        }
                    }
                    let e = t + len_from(buf@, t as int);
                    assert(forall|j: int| x <= j < s.len() ==> b[j] == s[j]);
                    assert forall|j: int| x <= j < e implies s[j] != 0 by {
                        assert(b[j] == s[j]);
                        if j < t {
                            assert(in_set(m@, b[j]));
                        }
                    }
                    if e >= n {
                        assert(s[n] == 0);
                    }
                    if let Some(q) = p {
                        assert(b[e] == s[e]);
                        assert(in_set(m@, b[e]));
                        assert(s[e] != 0);
                        assert(nul_at(s, e + 1, n));
                    }
                }
                first = false;
            },
        }
    }
}

/// Relies on `Vec::try_reserve_exact`: asks for room for `n` more bytes,
/// leaving the contents as they are; `false` where the allocator refused.
#[verifier::external_body]
fn try_reserve(v: &mut Vec<u8>, n: usize) -> (r: bool)
    ensures
        final(v)@ == old(v)@,
{
    v.try_reserve_exact(n).is_ok()
}

/// A fresh empty buffer with room for `n` bytes, or `None` where it could not
/// be allocated.
fn try_alloc(n: usize) -> (r: Option<Vec<u8>>)
    ensures
        r matches Some(v) ==> v@.len() == 0,
{
    let mut v: Vec<u8> = Vec::new();
    if try_reserve(&mut v, n) {
        Some(v)
    } else {
        None
    }
}

/// Fills the empty buffer `v` with the first `len` bytes of `s` and a
/// terminator.
pub fn fill_dup(v: Vec<u8>, s: &[u8], len: usize) -> (r: Vec<u8>)
    requires
        v@.len() == 0,
        len <= s@.len(),
    ensures
        r@ == s@.subrange(0, len as int).push(0),
{
    let mut v = v;
    let mut i: usize = 0;
    assert(v@ =~= s@.subrange(0, 0));
    while i < len
        invariant
            i <= len <= s@.len(),
            v@ == s@.subrange(0, i as int),
        decreases len - i,
    {
        v.push(s[i]);
        i = i + 1;
        assert(v@ =~= s@.subrange(0, i as int));
    }
    v.push(NUL);
    v
}

/// A new buffer holding the first `len` bytes of `s` and a terminator, or
/// `None` where it could not be allocated.
fn dup_prefix(s: &[u8], len: usize) -> (r: Option<Vec<u8>>)
    requires
        len <= s@.len(),
    ensures
        r matches Some(v) ==> v@ == s@.subrange(0, len as int).push(0),
{
    // No buffer larger than the address space can be allocated.
    let size = match len.checked_add(1) {
        None => {
            return None;
        },
        Some(size) => size,
    };
    match try_alloc(size) {
        None => None,
        Some(v) => Some(fill_dup(v, s, len)),
    }
}

/// `strdup`: a new buffer holding the sequence of `s` and its terminator, or
/// `None` where allocation failed.
pub fn strdup(s: &[u8]) -> (r: Option<Vec<u8>>)
    requires
        is_ntbs(s@),
    ensures
        r matches Some(v) ==> v@ == content(s@).push(0),
{
    let len = strlen(s);
    dup_prefix(s, len)
}

/// `strndup`: a new buffer holding at most `n` bytes of the sequence of `s`
/// and a terminator, or `None` where allocation failed.
pub fn strndup(s: &[u8], n: usize) -> (r: Option<Vec<u8>>)
    requires
        readable(s@, n as int),
    ensures
        r matches Some(v) ==> v@ == s@.subrange(0, str_nlen(s@, n as int)).push(0),
{
    let len = strnlen(s, n);
    dup_prefix(s, len)
}

} // verus!
