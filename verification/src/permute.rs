//! The in-place bit-reversal permutation.

use vstd::prelude::*;
use crate::bits::{pow2, is_pow2, log2, rev_bits, lemma_rev_bits_bound, lemma_rev_bits_involutive,
    log2_of, reverse_index};

verus! {

/// The sequence `s` reordered by reversing the low `k` bits of every index.
pub open spec fn bit_rev_seq<T>(s: Seq<T>, k: nat) -> Seq<T>
    recommends
        s.len() == pow2(k),
{
    Seq::new(s.len(), |i: int| s[rev_bits(i as nat, k) as int])
}

/// Reordering by bit-reversed indices is its own inverse.
pub proof fn lemma_bit_rev_seq_involutive<T>(s: Seq<T>, k: nat)
    requires
        s.len() == pow2(k),
    ensures
        bit_rev_seq(bit_rev_seq(s, k), k) == s,
{
    let t = bit_rev_seq(bit_rev_seq(s, k), k);
    assert forall|i: int| 0 <= i < s.len() implies t[i] == s[i] by {
        lemma_rev_bits_bound(i as nat, k);
        lemma_rev_bits_involutive(i as nat, k);
    }
    assert(t =~= s);
}

/// Exchanging two positions of a sequence keeps its multiset of values.
proof fn lemma_swap_multiset<T>(s: Seq<T>, i: int, j: int)
    requires
        0 <= i < s.len(),
        0 <= j < s.len(),
        i != j,
    ensures
        s.update(i, s[j]).update(j, s[i]).to_multiset() == s.to_multiset(),
{
    broadcast use vstd::seq_lib::to_multiset_update;

    let s1 = s.update(i, s[j]);
    assert(s1.to_multiset() == s.to_multiset().insert(s[j]).remove(s[i]));
    assert(s1.update(j, s[i]).to_multiset() == s1.to_multiset().insert(s[i]).remove(s1[j]));
    assert(s.to_multiset().count(s[i]) > 0) by {
        broadcast use vstd::seq_lib::group_to_multiset_ensures;

        assert(s.contains(s[i]));
    }
    assert(s.to_multiset().insert(s[j]).remove(s[i]).insert(s[i]).remove(s[j])
        =~= s.to_multiset());
}

/// Reorder the buffer in place so that the element at each index `i` moves to
/// the index obtained by reversing the low `log2(n)` bits of `i`. Swapping
/// only when the reversed index is larger touches every pair exactly once.
pub fn bit_reverse_permute<T: Copy>(buf: &mut Vec<T>)
    requires
        old(buf).len() == 0 || is_pow2(old(buf).len() as nat),
    ensures
        final(buf).len() == old(buf).len(),
        is_pow2(old(buf).len() as nat) ==> final(buf)@ == bit_rev_seq(
            old(buf)@,
            log2(old(buf).len() as nat),
        ),
        old(buf).len() <= 1 ==> final(buf)@ == old(buf)@,
        final(buf)@.to_multiset() == old(buf)@.to_multiset(),
{
    let n = buf.len();
    if n <= 1 {
        proof {
            if n == 1 {
                assert(bit_rev_seq(old(buf)@, log2(1)) =~= old(buf)@);
            }
        }
        return ;
    }
    let k = log2_of(n);
    let ghost kn = k as nat;
    let ghost orig = buf@;
    let mut i: usize = 0;
    while i < n
        invariant
            buf.len() == n,
            kn == k as nat,
            n as nat == pow2(kn),
            pow2(kn) <= usize::MAX as nat,
            orig.len() == n as nat,
            buf@.to_multiset() == orig.to_multiset(),
            forall|m: int|
                0 <= m < n ==> #[trigger] buf@[m] == if m < i || rev_bits(m as nat, kn) < i as nat {
                    orig[rev_bits(m as nat, kn) as int]
                } else {
                    orig[m]
                },
        decreases n - i,
    {
        let j = reverse_index(i, k);
        proof {
            lemma_rev_bits_involutive(i as nat, kn);
        }
        if j > i {
            let ghost pre = buf@;
            let a = buf[i];
            let b = buf[j];
            buf[i] = b;
            buf[j] = a;
            proof {
                lemma_swap_multiset(pre, i as int, j as int);
                assert(buf@ == pre.update(i as int, pre[j as int]).update(j as int, pre[i as int]));
                assert forall|m: int| 0 <= m < n implies #[trigger] buf@[m] == if m < i + 1
                    || rev_bits(m as nat, kn) < (i + 1) as nat {
                    orig[rev_bits(m as nat, kn) as int]
                } else {
                    orig[m]
                } by {
                    if m != i && m != j {
                        if rev_bits(m as nat, kn) == i as nat {
                            lemma_rev_bits_involutive(m as nat, kn);
                            assert(m == j);
                        }
                    }
                }
            }
        } else {
            proof {
                assert forall|m: int| 0 <= m < n implies #[trigger] buf@[m] == if m < i + 1
                    || rev_bits(m as nat, kn) < (i + 1) as nat {
                    orig[rev_bits(m as nat, kn) as int]
                } else {
                    orig[m]
                } by {
                    if m == i {
                        if rev_bits(m as nat, kn) >= i as nat {
                            if rev_bits(m as nat, kn) == i as nat {
                                lemma_rev_bits_involutive(m as nat, kn);
                            }
                        }
                    } else if rev_bits(m as nat, kn) == i as nat {
                        lemma_rev_bits_involutive(m as nat, kn);
                        assert(m == j);
                    }
                }
            }
        }
        i = i + 1;
    }
    proof {
        assert forall|m: int| 0 <= m < n implies buf@[m] == orig[rev_bits(m as nat, kn) as int] by {
            lemma_rev_bits_bound(m as nat, kn);
        }
        assert(buf@ =~= bit_rev_seq(orig, kn));
    }
}

} // verus!
