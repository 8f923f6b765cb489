//! Counters of a search.

use vstd::prelude::*;

verus! {

/// What a search did, and how many nanoseconds each of its phases took.
#[derive(Clone, Copy)]
pub struct Stats {
    pub files_seen: u64,
    pub files_searched: u64,
    pub files_binary_skip: u64,
    pub files_prefilter_skip: u64,
    pub files_oversize_skip: u64,
    pub lines_oversize_skip: u64,
    pub bytes_read: u64,
    pub matches: u64,
    pub ns_io: u64,
    pub ns_binary_check: u64,
    pub ns_prefilter: u64,
    pub ns_search: u64,
    pub ns_write: u64,
    pub ns_total: u64,
}

/// The counter `x` after counting `n` more: counters wrap around.
pub open spec fn counted(x: u64, n: nat) -> u64 {
    ((x + n) % 0x1_0000_0000_0000_0000) as u64
}

/// Counts `n` more.
pub fn count(field: &mut u64, n: u64)
    ensures
        *final(field) == counted(*old(field), n as nat),
        *final(field) == if *old(field) + n <= 0xffff_ffff_ffff_ffff {
            *old(field) + n
        } else {
            *old(field) + n - 0x1_0000_0000_0000_0000
        },
{
    *field = field.wrapping_add(n);
}

/// A counter counts: it grows by what is counted, until it wraps around at two to
/// the power of 64.
pub proof fn counters_count(x: u64, n: nat)
    ensures
        x + n <= 0xffff_ffff_ffff_ffff ==> counted(x, n) == x + n,
        counted(x, n + 0x1_0000_0000_0000_0000) == counted(x, n),
        counted(counted(x, n), 1) == counted(x, n + 1),
{
    vstd::arithmetic::div_mod::lemma_mod_add_multiples_vanish(x + n, 0x1_0000_0000_0000_0000);
    vstd::arithmetic::div_mod::lemma_add_mod_noop(x + n, 1, 0x1_0000_0000_0000_0000);
    vstd::arithmetic::div_mod::lemma_add_mod_noop(
        (x + n) % 0x1_0000_0000_0000_0000,
        1,
        0x1_0000_0000_0000_0000,
    );
}

impl Stats {
    /// Counters that stand at zero.
    pub fn new() -> (r: Self)
        ensures
            r == (Stats {
                files_seen: 0,
                files_searched: 0,
                files_binary_skip: 0,
                files_prefilter_skip: 0,
                files_oversize_skip: 0,
                lines_oversize_skip: 0,
                bytes_read: 0,
                matches: 0,
                ns_io: 0,
                ns_binary_check: 0,
                ns_prefilter: 0,
                ns_search: 0,
                ns_write: 0,
                ns_total: 0,
            }),
    {
        Stats {
            files_seen: 0,
            files_searched: 0,
            files_binary_skip: 0,
            files_prefilter_skip: 0,
            files_oversize_skip: 0,
            lines_oversize_skip: 0,
            bytes_read: 0,
            matches: 0,
            ns_io: 0,
            ns_binary_check: 0,
            ns_prefilter: 0,
            ns_search: 0,
            ns_write: 0,
            ns_total: 0,
        }
    }

    /// Adds a time span of `elapsed_ns` nanoseconds to a counter.
    #[inline]
    pub fn add_ns(field: &mut u64, elapsed_ns: u128)
        ensures
            *final(field) == counted(*old(field), elapsed_ns as nat),
            *old(field) + elapsed_ns <= 0xffff_ffff_ffff_ffff ==> *final(field) == *old(field)
                + elapsed_ns,
    {
        let low: u64 = #[verifier::truncate] (elapsed_ns as u64);
        assert(low == elapsed_ns % 0x1_0000_0000_0000_0000) by (bit_vector)
            requires
                low == elapsed_ns as u64,
        ;
        count(field, low);
    }
}

} // verus!
