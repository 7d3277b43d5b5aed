//! Symbol frequency counting.
//!
//! A `FrequencyTable` maps each byte value to the number of times it occurs
//! in an input buffer.  It is the first stage of compression and the input to
//! Huffman tree construction.  The table is stored densely, one counter per
//! possible byte value; a symbol is "present" when its counter is non-zero.

use vstd::prelude::*;

verus! {

/// Occurrences of `b` in `s`.
pub open spec fn count_occ(s: Seq<u8>, b: u8) -> nat
    decreases s.len(),
{
    if s.len() == 0 {
        0
    } else {
        (count_occ(s.drop_last(), b) + if s.last() == b {
            1nat
        } else {
            0nat
        }) as nat
    }
}

pub proof fn lemma_count_occ_le_len(s: Seq<u8>, b: u8)
    ensures
        count_occ(s, b) <= s.len(),
    decreases s.len(),
{
    if s.len() > 0 {
        lemma_count_occ_le_len(s.drop_last(), b);
    }
}

/// A byte that occurs in `s` has a positive count.
pub proof fn lemma_count_occ_positive(s: Seq<u8>, i: int)
    requires
        0 <= i < s.len(),
    ensures
        count_occ(s, s[i]) > 0,
    decreases s.len(),
{
    if i < s.len() - 1 {
        lemma_count_occ_positive(s.drop_last(), i);
    }
}

/// Sum of the first `n` counters.
pub open spec fn sum_counts_up_to(counts: Seq<u64>, n: int) -> nat
    decreases n,
{
    if n <= 0 {
        0
    } else {
        (sum_counts_up_to(counts, n - 1) + counts[n - 1]) as nat
    }
}

/// Total number of counted symbols: the sum over all 256 byte values.
pub open spec fn sum_counts(counts: Seq<u64>) -> nat {
    sum_counts_up_to(counts, 256)
}

pub proof fn lemma_sum_update(counts: Seq<u64>, n: int, idx: int, v: u64)
    requires
        0 <= idx < counts.len(),
        n <= counts.len(),
    ensures
        idx < n ==> sum_counts_up_to(counts.update(idx, v), n) == sum_counts_up_to(counts, n)
            - counts[idx] + v,
        idx >= n ==> sum_counts_up_to(counts.update(idx, v), n) == sum_counts_up_to(counts, n),
    decreases n,
{
    if n > 0 {
        lemma_sum_update(counts, n - 1, idx, v);
    }
}

/// The counters that counting the bytes of `s` produces: entry `b` holds
/// the number of occurrences of `b`.
pub open spec fn counts_spec(s: Seq<u8>) -> Seq<u64> {
    Seq::new(256, |b: int| count_occ(s, b as u8) as u64)
}

/// The counters over an input sum to its length.
pub proof fn lemma_counts_spec_sum(s: Seq<u8>)
    requires
        s.len() <= u64::MAX,
    ensures
        sum_counts(counts_spec(s)) == s.len(),
    decreases s.len(),
{
    if s.len() == 0 {
        lemma_sum_zero_public(counts_spec(s), 256);
    } else {
        let prev = s.drop_last();
        let b = s.last();
        lemma_counts_spec_sum(prev);
        lemma_count_occ_le_len(prev, b);
        assert(counts_spec(s) =~= counts_spec(prev).update(
            b as int,
            (count_occ(prev, b) + 1) as u64,
        )) by {
            assert forall|j: int| 0 <= j < 256 implies counts_spec(s)[j] == counts_spec(
                prev,
            ).update(b as int, (count_occ(prev, b) + 1) as u64)[j] by {
                if j == b as int {
                    assert(count_occ(s, b) == count_occ(prev, b) + 1);
                } else {
                    assert(count_occ(s, j as u8) == count_occ(prev, j as u8));
                }
            }
        }
        lemma_sum_update(counts_spec(prev), 256, b as int, (count_occ(prev, b) + 1) as u64);
    }
}

pub proof fn lemma_sum_zero_public(counts: Seq<u64>, n: int)
    requires
        n <= counts.len(),
        forall|j: int| 0 <= j < n ==> counts[j] == 0,
    ensures
        sum_counts_up_to(counts, n) == 0,
    decreases n,
{
    if n > 0 {
        lemma_sum_zero_public(counts, n - 1);
    }
}

/// Per-symbol occurrence counts over one input buffer.
pub struct FrequencyTable {
    counts: Vec<u64>,
}

impl View for FrequencyTable {
    type V = Seq<u64>;

    /// One counter per byte value, indexed by the byte.
    closed spec fn view(&self) -> Seq<u64> {
        self.counts@
    }
}

impl FrequencyTable {
    /// A table always holds exactly one counter per possible byte value.
    pub open spec fn wf(&self) -> bool {
        self@.len() == 256
    }

    /// Whether at least one symbol was counted.
    pub open spec fn has_symbols(&self) -> bool {
        exists|b: u8| self@[b as int] > 0
    }

    /// Counts the occurrences of each byte value in `v`.
    pub fn from_vec(v: Vec<u8>) -> (r: Self)
        ensures
            r.wf(),
            forall|b: u8| r@[b as int] == count_occ(v@, b),
            r@ == counts_spec(v@),
            sum_counts(r@) == v@.len(),
    {
        let mut counts: Vec<u64> = Vec::new();
        let mut k: usize = 0;
        while k < 256
            invariant
                counts@.len() == k,
                k <= 256,
                forall|j: int| 0 <= j < k ==> counts@[j] == 0,
            decreases 256 - k,
        {
            counts.push(0);
            k += 1;
        }
        proof {
            lemma_sum_zero_public(counts@, 256);
            assert(v@.subrange(0, 0) =~= Seq::<u8>::empty());
        }
        let n = v.len();
        let mut i: usize = 0;
        while i < n
            invariant
                n == v@.len(),
                i <= n,
                counts@.len() == 256,
                forall|b: u8| counts@[b as int] == count_occ(v@.subrange(0, i as int), b),
                sum_counts(counts@) == i,
            decreases n - i,
        {
            let ghost prefix = v@.subrange(0, i as int);
            let ghost next = v@.subrange(0, i as int + 1);
            let c = v[i];
            proof {
                assert(next.drop_last() =~= prefix);
                lemma_count_occ_le_len(prefix, c);
                lemma_sum_update(counts@, 256, c as int, (counts@[c as int] + 1) as u64);
            }
            let cur = counts[c as usize];
            counts.set(c as usize, cur + 1);
            proof {
                assert forall|b: u8| counts@[b as int] == count_occ(next, b) by {
                    if b != c {
                        assert(count_occ(next, b) == count_occ(prefix, b));
                    }
                }
            }
            i += 1;
        }
        proof {
            assert(v@.subrange(0, n as int) =~= v@);
            assert(counts@ =~= counts_spec(v@)) by {
                assert forall|j: int| 0 <= j < 256 implies counts@[j] == counts_spec(v@)[j] by {
                    assert(counts@[(j as u8) as int] == count_occ(v@, j as u8));
                }
            }
        }
        FrequencyTable { counts }
    }

    /// The counter of one byte value.
    pub fn count(&self, symbol: u8) -> (r: u64)
        requires
            self.wf(),
        ensures
            r == self@[symbol as int],
    {
        self.counts[symbol as usize]
    }
}

} // verus!
