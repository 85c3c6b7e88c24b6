//! Decisions taken while discovering the store device: which candidate
//! interfaces can be read into the fixed detail buffer, what path each one
//! names, and which open attempt wins.
use vstd::prelude::*;
use crate::ioctl::StoreError;

verus! {

/// UTF-16 units of path the fixed detail buffer holds.
pub const DETAIL_PATH_UNITS: usize = 4094;

/// Bytes of the fixed detail buffer: a 4-byte size header followed by the
/// path units.
pub const DETAIL_CAPACITY: usize = 8192;

/// A candidate whose detail needs `required` bytes can be read into the
/// fixed detail buffer.
pub open spec fn fits(required: u32) -> bool {
    required as int <= DETAIL_CAPACITY
}

/// Whether a detail of `required` bytes fits the fixed detail buffer.
pub fn detail_fits(required: u32) -> (r: bool)
    ensures
        r == fits(required),
{
    required as usize <= DETAIL_CAPACITY
}

/// The indices, in order, of the candidates whose detail fits.
pub open spec fn fitting(required: Seq<u32>) -> Seq<int>
    decreases required.len(),
{
    if required.len() == 0 {
        seq![]
    } else {
        let f = fitting(required.drop_last());
        if fits(required.last()) {
            f.push(required.len() - 1)
        } else {
            f
        }
    }
}

/// The candidates, by index and in enumeration order, that can be read:
/// those whose detail length fits the fixed buffer. The others are skipped,
/// and never end the scan.
pub fn usable_candidates(required: &[u32]) -> (r: Vec<usize>)
    ensures
        r@.map_values(|i: usize| i as int) == fitting(required@),
{
    let mut out: Vec<usize> = Vec::new();
    let mut i: usize = 0;
    while i < required.len()
        invariant
            0 <= i <= required@.len(),
            out@.map_values(|k: usize| k as int) == fitting(required@.subrange(0, i as int)),
        decreases required@.len() - i,
    {
        let ghost before = out@;
        proof {
            let next = required@.subrange(0, i + 1);
            assert(next.drop_last() =~= required@.subrange(0, i as int));
        }
        if detail_fits(required[i]) {
            out.push(i);
            proof {
                assert(out@.map_values(|k: usize| k as int) =~= before.map_values(
                    |k: usize| k as int,
                ).push(i as int));
            }
        }
        i = i + 1;
    }
    proof {
        assert(required@.subrange(0, required@.len() as int) =~= required@);
    }
    out
}

/// The indices below `n`, without `k`.
pub open spec fn indices_without(n: int, k: int) -> Seq<int> {
    Seq::new(
        (if n > k {
            n - 1
        } else {
            n
        }) as nat,
        |j: int|
            if j < k {
                j
            } else {
                j + 1
            },
    )
}

/// Among candidates of which exactly one has an oversized detail, every
/// other candidate is still usable, in order.
pub proof fn lemma_one_oversized(required: Seq<u32>, k: int)
    requires
        0 <= k < required.len(),
        !fits(required[k]),
        forall|j: int| 0 <= j < required.len() && j != k ==> fits(#[trigger] required[j]),
    ensures
        fitting(required) == indices_without(required.len() as int, k),
        fitting(required).len() == required.len() - 1,
{
    lemma_one_oversized_prefix(required, k, required.len() as int);
    assert(required.subrange(0, required.len() as int) =~= required);
}

proof fn lemma_one_oversized_prefix(required: Seq<u32>, k: int, n: int)
    requires
        0 <= k < required.len(),
        0 <= n <= required.len(),
        !fits(required[k]),
        forall|j: int| 0 <= j < required.len() && j != k ==> fits(#[trigger] required[j]),
    ensures
        fitting(required.subrange(0, n)) == indices_without(n, k),
    decreases n,
{
    if n == 0 {
        assert(indices_without(0, k) =~= Seq::<int>::empty());
    } else {
        lemma_one_oversized_prefix(required, k, n - 1);
        let p = required.subrange(0, n);
        assert(p.drop_last() =~= required.subrange(0, n - 1));
        assert(p.last() == required[n - 1]);
        if n - 1 == k {
            assert(indices_without(n, k) =~= indices_without(n - 1, k));
        } else {
            assert(indices_without(n, k) =~= indices_without(n - 1, k).push(n - 1));
        }
    }
}

/// The units of a wide path up to, not including, its first NUL unit.
pub open spec fn wide_path(units: Seq<u16>) -> Seq<u16>
    decreases units.len(),
{
    if units.len() == 0 || units[0] == 0 {
        seq![]
    } else {
        seq![units[0]] + wide_path(units.drop_first())
    }
}

proof fn lemma_wide_path_prefix(units: Seq<u16>, i: int)
    requires
        0 <= i <= units.len(),
        forall|k: int| 0 <= k < i ==> units[k] != 0,
        i == units.len() || units[i] == 0,
    ensures
        wide_path(units) == units.subrange(0, i),
    decreases i,
{
    if i == 0 {
        assert(units.subrange(0, 0) =~= Seq::<u16>::empty());
    } else {
        let rest = units.drop_first();
        lemma_wide_path_prefix(rest, i - 1);
        assert(units.subrange(0, i) =~= seq![units[0]] + rest.subrange(0, i - 1));
    }
}

/// The NUL-terminated path held in the path units of a device detail: the
/// units up to the first NUL, then one NUL.
pub fn terminated_path(units: &[u16]) -> (r: Vec<u16>)
    ensures
        r@ == wide_path(units@).push(0u16),
{
    let mut out: Vec<u16> = Vec::new();
    let mut i: usize = 0;
    while i < units.len() && units[i] != 0
        invariant
            0 <= i <= units@.len(),
            forall|k: int| 0 <= k < i ==> units@[k] != 0,
            out@ == units@.subrange(0, i as int),
        decreases units@.len() - i,
    {
        out.push(units[i]);
        proof {
            assert(units@.subrange(0, i + 1) =~= units@.subrange(0, i as int).push(units@[i as int]));
        }
        i = i + 1;
    }
    proof {
        lemma_wide_path_prefix(units@, i as int);
    }
    out.push(0u16);
    out
}

/// The first attempt that opened, if any.
pub open spec fn first_opened(opened: Seq<bool>) -> Option<int>
    decreases opened.len(),
{
    if opened.len() == 0 {
        None
    } else if opened[0] {
        Some(0)
    } else {
        match first_opened(opened.drop_first()) {
            Some(i) => Some(i + 1),
            None => None,
        }
    }
}

/// The outcome of opening candidates in order, stopping at the first
/// success: the index of the candidate that opened, or `DeviceNotFound`
/// when none did (in particular when there was no candidate).
pub fn open_outcome(opened: &[bool]) -> (r: Result<usize, StoreError>)
    ensures
        first_opened(opened@) matches Some(i) ==> r == Ok::<usize, StoreError>(i as usize),
        first_opened(opened@) is None ==> r == Err::<usize, StoreError>(StoreError::DeviceNotFound),
{
    let mut i: usize = opened.len();
    let mut k: usize = opened.len();
    while k > 0
        invariant
            0 <= k <= i <= opened@.len(),
            i == opened@.len() ==> first_opened(opened@.subrange(k as int, opened@.len() as int))
                is None,
            i < opened@.len() ==> first_opened(opened@.subrange(k as int, opened@.len() as int))
                == Some(i - k),
        decreases k,
    {
        k = k - 1;
        proof {
            let s = opened@.subrange(k as int, opened@.len() as int);
            assert(s.drop_first() =~= opened@.subrange(k + 1, opened@.len() as int));
            assert(s[0] == opened@[k as int]);
        }
        if opened[k] {
            i = k;
        }
    }
    proof {
        assert(opened@.subrange(0, opened@.len() as int) =~= opened@);
    }
    if i < opened.len() {
        Ok(i)
    } else {
        Err(StoreError::DeviceNotFound)
    }
}

} // verus!
