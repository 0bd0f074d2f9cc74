//! The iterative radix-2 transform engine, sequential and parallel.
//!
//! The element type and the butterfly arithmetic are the caller's: a butterfly
//! closure receives the stage width, the pair index inside a block and the two
//! pre-update values, and returns the two updated values; a scaling closure
//! maps one element to its scaled value. Every contract relates the buffer
//! after the call to the buffer before it through the closures' postconditions
//! (`call_ensures`), so the engine pins the exact dataflow of the algorithm:
//! which elements were combined, in which stage, and where the results went.

use vstd::prelude::*;
use rayon::prelude::ParallelSliceMut;
use rayon::prelude::ParallelIterator;
use crate::bits::{is_pow2, log2, lemma_pow2_divides, lemma_pow2_double_le};
use crate::permute::{bit_rev_seq, bit_reverse_permute};

verus! {

/// The pair `(b, j)` of stage `len`: the butterfly combined the old values at
/// `b*len + j` and `b*len + j + len/2` into the new values at those positions.
pub open spec fn pair_ok<T, F: Fn(usize, usize, T, T) -> (T, T)>(
    f: F,
    len: usize,
    pre: Seq<T>,
    post: Seq<T>,
    b: int,
    j: int,
) -> bool {
    call_ensures(
        f,
        (len, j as usize, pre[b * len + j], pre[b * len + j + len as int / 2]),
        (post[b * len + j], post[b * len + j + len as int / 2]),
    )
}

/// One full stage of width `len`: the buffer is partitioned into blocks of
/// exactly `len` elements and every pair of every block was combined by `f`.
pub open spec fn stage_ok<T, F: Fn(usize, usize, T, T) -> (T, T)>(
    f: F,
    len: usize,
    pre: Seq<T>,
    post: Seq<T>,
) -> bool {
    &&& len >= 2
    &&& len % 2 == 0
    &&& post.len() == pre.len()
    &&& pre.len() as int % (len as int) == 0
    &&& forall|b: int, j: int|
        0 <= b && (b + 1) * (len as int) <= pre.len() && 0 <= j < len as int / 2
            ==> #[trigger] pair_ok(f, len, pre, post, b, j)
}

/// All stages of widths `2, 4, ..., bound/2` applied in order, `pre` to `post`.
pub open spec fn stages_done<T, F: Fn(usize, usize, T, T) -> (T, T)>(
    f: F,
    pre: Seq<T>,
    post: Seq<T>,
    bound: int,
) -> bool
    decreases bound,
{
    if bound <= 2 {
        post == pre
    } else {
        exists|mid: Seq<T>|
            stages_done(f, pre, mid, bound / 2) && #[trigger] stage_ok(
                f,
                (bound / 2) as usize,
                mid,
                post,
            )
    }
}

/// Every element was mapped by the scaling closure `g`.
pub open spec fn scale_ok<T, G: Fn(T) -> T>(g: G, pre: Seq<T>, post: Seq<T>) -> bool {
    &&& post.len() == pre.len()
    &&& forall|i: int| 0 <= i < pre.len() ==> call_ensures(g, (pre[i],), #[trigger] post[i])
}

/// `f` can be called on any arguments.
pub open spec fn butterfly_callable<T, F: Fn(usize, usize, T, T) -> (T, T)>(f: F) -> bool {
    forall|len: usize, j: usize, u: T, v: T| call_requires(f, (len, j, u, v))
}

/// `g` can be called on any argument.
pub open spec fn scale_callable<T, G: Fn(T) -> T>(g: G) -> bool {
    forall|x: T| call_requires(g, (x,))
}

/// Run the butterflies of one block of stage `len`, the block starting at
/// `start`: for `j` in `[0, len/2)` the pair at `start + j`, `start + j + len/2`
/// is replaced by the result of `f` on its old values.
fn run_block<T: Copy, F: Fn(usize, usize, T, T) -> (T, T) + Copy>(
    buf: &mut Vec<T>,
    start: usize,
    len: usize,
    f: F,
)
    requires
        len >= 2,
        len % 2 == 0,
        start + len <= old(buf).len(),
        butterfly_callable::<T, F>(f),
    ensures
        final(buf).len() == old(buf).len(),
        forall|m: int|
            0 <= m < final(buf).len() && !(start <= m < start + len) ==> final(buf)[m] == old(
                buf,
            )[m],
        forall|j: int|
            0 <= j < len as int / 2 ==> call_ensures(
                f,
                (
                    len,
                    j as usize,
                    old(buf)[start + j],
                    old(buf)[start + j + len as int / 2],
                ),
                (#[trigger] final(buf)[start + j], final(buf)[start + j + len as int / 2]),
            ),
{
    let half = len / 2;
    let mut j: usize = 0;
    while j < half
        invariant
            buf.len() == old(buf).len(),
            half == len as int / 2,
            len % 2 == 0,
            start + len <= buf.len(),
            j <= half,
            butterfly_callable::<T, F>(f),
            forall|m: int|
                0 <= m < buf.len() && !(start <= m < start + j) && !(start + half <= m < start
                    + half + j) ==> buf[m] == old(buf)[m],
            forall|i: int|
                0 <= i < j ==> call_ensures(
                    f,
                    (
                        len,
                        i as usize,
                        old(buf)[start + i],
                        old(buf)[start + i + len as int / 2],
                    ),
                    (#[trigger] buf[start + i], buf[start + i + len as int / 2]),
                ),
        decreases half - j,
    {
        let u = buf[start + j];
        let v = buf[start + half + j];
        let (x, y) = f(len, j, u, v);
        buf[start + j] = x;
        buf[start + half + j] = y;
        j = j + 1;
    }
}

/// Run one full stage of width `len` sequentially, block after block.
fn run_stage<T: Copy, F: Fn(usize, usize, T, T) -> (T, T) + Copy>(
    buf: &mut Vec<T>,
    len: usize,
    f: F,
)
    requires
        len >= 2,
        len % 2 == 0,
        old(buf).len() as int % (len as int) == 0,
        butterfly_callable::<T, F>(f),
    ensures
        final(buf).len() == old(buf).len(),
        stage_ok(f, len, old(buf)@, final(buf)@),
{
    let n = buf.len();
    let mut start: usize = 0;
    let ghost mut nb: int = 0;
    while start < n
        invariant
            buf.len() == n,
            n == old(buf).len(),
            len >= 2,
            len % 2 == 0,
            n as int % (len as int) == 0,
            start <= n,
            start as int == nb * (len as int),
            nb >= 0,
            butterfly_callable::<T, F>(f),
            forall|m: int| start <= m < n ==> buf[m] == old(buf)[m],
            forall|b: int, j: int|
                0 <= b < nb && 0 <= j < len as int / 2 ==> #[trigger] pair_ok(
                    f,
                    len,
                    old(buf)@,
                    buf@,
                    b,
                    j,
                ),
        decreases n - start,
    {
        proof {
            assert((nb + 1) * (len as int) <= n as int) by (nonlinear_arith)
                requires
                    nb * (len as int) < n as int,
                    n as int % (len as int) == 0,
                    len as int >= 1,
                    nb >= 0,
            ;
            assert((nb + 1) * (len as int) == nb * (len as int) + len as int) by (nonlinear_arith);
        }
        let ghost pre = buf@;
        run_block(buf, start, len, f);
        proof {
            assert forall|b: int, j: int|
                0 <= b < nb + 1 && 0 <= j < len as int / 2 implies #[trigger] pair_ok(
                f,
                len,
                old(buf)@,
                buf@,
                b,
                j,
            ) by {
                assert((b + 1) * (len as int) == b * (len as int) + len as int)
                    by (nonlinear_arith);
                if b < nb {
                    assert((b + 1) * (len as int) <= nb * (len as int)) by (nonlinear_arith)
                        requires
                            b + 1 <= nb,
                            len as int >= 1,
                    ;
                    assert(pair_ok(f, len, old(buf)@, pre, b, j));
                }
            }
            nb = nb + 1;
        }
        start = start + len;
    }
    proof {
        assert forall|b: int, j: int|
            0 <= b && (b + 1) * (len as int) <= n as int && 0 <= j < len as int / 2 implies
            #[trigger] pair_ok(f, len, old(buf)@, buf@, b, j) by {
            assert(b < nb) by (nonlinear_arith)
                requires
                    (b + 1) * (len as int) <= nb * (len as int),
                    len as int >= 1,
                    b >= 0,
            ;
        }
    }
}

/// Run one full stage of width `len` with its blocks distributed over a worker
/// pool, one task per block, joining before the call returns.
///
/// Relies on rayon's `par_chunks_mut` and `for_each`: the buffer is split into
/// disjoint consecutive chunks of exactly `len` elements (the buffer length is
/// a multiple of `len`), the closure runs exactly once on each chunk, and all
/// tasks are complete when `for_each` returns. Each task copies its chunk out,
/// runs the verified `run_block` on the copy, and writes the copy back, so the
/// buffer afterwards is related to the buffer before exactly as a sequential
/// pass of `run_block` over the blocks relates them.
#[verifier::external_body]
fn par_run_stage<T, F>(buf: &mut Vec<T>, len: usize, f: F) where
    T: Copy + Send + Sync,
    F: Fn(usize, usize, T, T) -> (T, T) + Copy + Send + Sync,

    requires
        len >= 2,
        len % 2 == 0,
        old(buf).len() as int % (len as int) == 0,
        butterfly_callable::<T, F>(f),
    ensures
        final(buf).len() == old(buf).len(),
        stage_ok(f, len, old(buf)@, final(buf)@),
{
    buf.par_chunks_mut(len).for_each(|chunk| {
        let mut block: Vec<T> = chunk.to_vec();
        run_block(&mut block, 0, len, f);
        chunk.copy_from_slice(&block);
    });
}

/// Apply the scaling closure to every element, in place.
fn scale_all<T: Copy, G: Fn(T) -> T + Copy>(buf: &mut Vec<T>, g: G)
    requires
        scale_callable::<T, G>(g),
    ensures
        final(buf).len() == old(buf).len(),
        scale_ok(g, old(buf)@, final(buf)@),
{
    let n = buf.len();
    let mut i: usize = 0;
    while i < n
        invariant
            buf.len() == n,
            n == old(buf).len(),
            i <= n,
            scale_callable::<T, G>(g),
            forall|m: int| i <= m < n ==> buf[m] == old(buf)[m],
            forall|m: int| 0 <= m < i ==> call_ensures(g, (old(buf)[m],), #[trigger] buf[m]),
        decreases n - i,
    {
        let x = buf[i];
        let y = g(x);
        buf[i] = y;
        i = i + 1;
    }
}

/// The whole transform as a relation between the input buffer and the output
/// buffer: the input is permuted by bit reversal, every stage of widths
/// `2, 4, ..., n` is applied in order, and every element is scaled once.
pub open spec fn transform_rel<
    T,
    F: Fn(usize, usize, T, T) -> (T, T),
    G: Fn(T) -> T,
>(f: F, g: G, input: Seq<T>, output: Seq<T>) -> bool {
    exists|mid: Seq<T>|
        stages_done(f, bit_rev_seq(input, log2(input.len())), mid, 2 * input.len() as int)
            && #[trigger] scale_ok(g, mid, output)
}

/// Transform the buffer in place, strictly sequentially: bit-reversal
/// permutation, then the butterfly stages of widths `2, 4, ..., n` in order,
/// each stage block after block and each block pair after pair in increasing
/// order, then one scaling pass. A buffer of length 0 or 1 is left unchanged.
pub fn transform_sequential<
    T: Copy,
    F: Fn(usize, usize, T, T) -> (T, T) + Copy,
    G: Fn(T) -> T + Copy,
>(buf: &mut Vec<T>, f: F, g: G)
    requires
        old(buf).len() == 0 || is_pow2(old(buf).len() as nat),
        butterfly_callable::<T, F>(f),
        scale_callable::<T, G>(g),
    ensures
        final(buf).len() == old(buf).len(),
        old(buf).len() <= 1 ==> final(buf)@ == old(buf)@,
        old(buf).len() >= 2 ==> transform_rel(f, g, old(buf)@, final(buf)@),
{
    let n = buf.len();
    if n <= 1 {
        return ;
    }
    bit_reverse_permute(buf);
    let ghost brev = buf@;
    let mut len: usize = 2;
    proof {
        assert(is_pow2(1));
        assert(is_pow2(2));
    }
    while len < n
        invariant
            buf.len() == n,
            n == old(buf).len(),
            n >= 2,
            is_pow2(n as nat),
            2 <= len <= n,
            is_pow2(len as nat),
            butterfly_callable::<T, F>(f),
            brev == bit_rev_seq(old(buf)@, log2(n as nat)),
            stages_done(f, brev, buf@, len as int),
        decreases n - len,
    {
        proof {
            lemma_pow2_divides(len as nat, n as nat);
            lemma_pow2_double_le(len as nat, n as nat);
        }
        let ghost pre = buf@;
        run_stage(buf, len, f);
        proof {
            lemma_stages_step(f, brev, pre, buf@, len as int);
        }
        len = len * 2;
    }
    proof {
        lemma_pow2_divides(len as nat, n as nat);
    }
    let ghost pre = buf@;
    run_stage(buf, n, f);
    proof {
        lemma_stages_step(f, brev, pre, buf@, n as int);
    }
    let ghost mid = buf@;
    scale_all(buf, g);
    proof {
        assert(scale_ok(g, mid, buf@));
        assert(stages_done(f, bit_rev_seq(old(buf)@, log2(n as nat)), mid, 2 * n as int));
    }
}

/// Transform the buffer in place with the same algorithm, same stage order and
/// same per-pair arithmetic as `transform_sequential`, but with each stage's
/// blocks distributed over a worker pool and joined before the next stage.
/// The contract is identical to the sequential one.
pub fn transform_parallel<
    T: Copy + Send + Sync,
    F: Fn(usize, usize, T, T) -> (T, T) + Copy + Send + Sync,
    G: Fn(T) -> T + Copy,
>(buf: &mut Vec<T>, f: F, g: G)
    requires
        old(buf).len() == 0 || is_pow2(old(buf).len() as nat),
        butterfly_callable::<T, F>(f),
        scale_callable::<T, G>(g),
    ensures
        final(buf).len() == old(buf).len(),
        old(buf).len() <= 1 ==> final(buf)@ == old(buf)@,
        old(buf).len() >= 2 ==> transform_rel(f, g, old(buf)@, final(buf)@),
{
    let n = buf.len();
    if n <= 1 {
        return ;
    }
    bit_reverse_permute(buf);
    let ghost brev = buf@;
    let mut len: usize = 2;
    proof {
        assert(is_pow2(1));
        assert(is_pow2(2));
    }
    while len < n
        invariant
            buf.len() == n,
            n == old(buf).len(),
            n >= 2,
            is_pow2(n as nat),
            2 <= len <= n,
            is_pow2(len as nat),
            butterfly_callable::<T, F>(f),
            brev == bit_rev_seq(old(buf)@, log2(n as nat)),
            stages_done(f, brev, buf@, len as int),
        decreases n - len,
    {
        proof {
            lemma_pow2_divides(len as nat, n as nat);
            lemma_pow2_double_le(len as nat, n as nat);
        }
        let ghost pre = buf@;
        par_run_stage(buf, len, f);
        proof {
            lemma_stages_step(f, brev, pre, buf@, len as int);
        }
        len = len * 2;
    }
    proof {
        lemma_pow2_divides(len as nat, n as nat);
    }
    let ghost pre = buf@;
    par_run_stage(buf, n, f);
    proof {
        lemma_stages_step(f, brev, pre, buf@, n as int);
    }
    let ghost mid = buf@;
    scale_all(buf, g);
    proof {
        assert(scale_ok(g, mid, buf@));
        assert(stages_done(f, bit_rev_seq(old(buf)@, log2(n as nat)), mid, 2 * n as int));
    }
}

/// Appending one stage of width `len` to the stages done below `len` gives the
/// stages done below `2*len`.
proof fn lemma_stages_step<T, F: Fn(usize, usize, T, T) -> (T, T)>(
    f: F,
    first: Seq<T>,
    pre: Seq<T>,
    post: Seq<T>,
    len: int,
)
    requires
        2 <= len,
        stages_done(f, first, pre, len),
        stage_ok(f, len as usize, pre, post),
    ensures
        stages_done(f, first, post, 2 * len),
{
    assert((2 * len) / 2 == len);
    assert(stages_done(f, first, pre, (2 * len) / 2) && stage_ok(
        f,
        ((2 * len) / 2) as usize,
        pre,
        post,
    ));
}

/// The butterfly closure never maps equal arguments to different results.
pub open spec fn butterfly_deterministic<T, F: Fn(usize, usize, T, T) -> (T, T)>(f: F) -> bool {
    forall|a: (usize, usize, T, T), r1: (T, T), r2: (T, T)|
        #[trigger] call_ensures(f, a, r1) && #[trigger] call_ensures(f, a, r2) ==> r1 == r2
}

/// The scaling closure never maps equal arguments to different results.
pub open spec fn scale_deterministic<T, G: Fn(T) -> T>(g: G) -> bool {
    forall|a: (T,), r1: T, r2: T|
        #[trigger] call_ensures(g, a, r1) && #[trigger] call_ensures(g, a, r2) ==> r1 == r2
}

/// A deterministic butterfly leaves a stage only one possible outcome: every
/// position of the buffer belongs to exactly one butterfly pair.
proof fn lemma_stage_ok_unique<T, F: Fn(usize, usize, T, T) -> (T, T)>(
    f: F,
    len: usize,
    pre: Seq<T>,
    post1: Seq<T>,
    post2: Seq<T>,
)
    requires
        butterfly_deterministic(f),
        stage_ok(f, len, pre, post1),
        stage_ok(f, len, pre, post2),
    ensures
        post1 == post2,
{
    let ln = len as int;
    let nq = pre.len() as int / ln;
    assert forall|m: int| 0 <= m < pre.len() implies post1[m] == post2[m] by {
        let b = m / ln;
        let r = m % ln;
        vstd::arithmetic::div_mod::lemma_fundamental_div_mod(m, ln);
        vstd::arithmetic::div_mod::lemma_fundamental_div_mod(pre.len() as int, ln);
        assert(0 <= r < ln && b >= 0 && (b + 1) * ln <= pre.len()) by (nonlinear_arith)
            requires
                ln >= 2,
                m == ln * b + r,
                0 <= r < ln,
                0 <= m < pre.len(),
                pre.len() as int == ln * nq + pre.len() as int % ln,
                pre.len() as int % ln == 0,
        ;
        if r < ln / 2 {
            assert(pair_ok(f, len, pre, post1, b, r));
            assert(pair_ok(f, len, pre, post2, b, r));
            assert((post1[b * ln + r], post1[b * ln + r + ln / 2]) == (
                post2[b * ln + r],
                post2[b * ln + r + ln / 2],
            ));
        } else {
            let j = r - ln / 2;
            assert(0 <= j < ln / 2);
            assert(pair_ok(f, len, pre, post1, b, j));
            assert(pair_ok(f, len, pre, post2, b, j));
            assert((post1[b * ln + j], post1[b * ln + j + ln / 2]) == (
                post2[b * ln + j],
                post2[b * ln + j + ln / 2],
            ));
        }
    }
    assert(post1 =~= post2);
}

proof fn lemma_stages_done_unique<T, F: Fn(usize, usize, T, T) -> (T, T)>(
    f: F,
    pre: Seq<T>,
    post1: Seq<T>,
    post2: Seq<T>,
    bound: int,
)
    requires
        butterfly_deterministic(f),
        stages_done(f, pre, post1, bound),
        stages_done(f, pre, post2, bound),
    ensures
        post1 == post2,
    decreases bound,
{
    if bound > 2 {
        let mid1 = choose|mid: Seq<T>|
            stages_done(f, pre, mid, bound / 2) && #[trigger] stage_ok(
                f,
                (bound / 2) as usize,
                mid,
                post1,
            );
        let mid2 = choose|mid: Seq<T>|
            stages_done(f, pre, mid, bound / 2) && #[trigger] stage_ok(
                f,
                (bound / 2) as usize,
                mid,
                post2,
            );
        lemma_stages_done_unique(f, pre, mid1, mid2, bound / 2);
        lemma_stage_ok_unique(f, (bound / 2) as usize, mid1, post1, post2);
    }
}

proof fn lemma_scale_ok_unique<T, G: Fn(T) -> T>(g: G, pre: Seq<T>, post1: Seq<T>, post2: Seq<T>)
    requires
        scale_deterministic(g),
        scale_ok(g, pre, post1),
        scale_ok(g, pre, post2),
    ensures
        post1 == post2,
{
    assert forall|m: int| 0 <= m < pre.len() implies post1[m] == post2[m] by {
        assert(call_ensures(g, (pre[m],), post1[m]));
        assert(call_ensures(g, (pre[m],), post2[m]));
    }
    assert(post1 =~= post2);
}

/// Parallel execution cannot change the result. Whenever the butterfly and the
/// scaling closures are deterministic — as closures computing pure arithmetic
/// on their arguments are — the transform relation admits at most one output
/// for a given input. `transform_sequential` and `transform_parallel` both
/// ensure that relation, so on equal inputs their outputs are equal.
pub proof fn lemma_transform_unique<T, F: Fn(usize, usize, T, T) -> (T, T), G: Fn(T) -> T>(
    f: F,
    g: G,
    input: Seq<T>,
    out1: Seq<T>,
    out2: Seq<T>,
)
    requires
        butterfly_deterministic(f),
        scale_deterministic(g),
        transform_rel(f, g, input, out1),
        transform_rel(f, g, input, out2),
    ensures
        out1 == out2,
{
    let first = bit_rev_seq(input, log2(input.len()));
    let bound = 2 * input.len() as int;
    let mid1 = choose|mid: Seq<T>|
        stages_done(f, first, mid, bound) && #[trigger] scale_ok(g, mid, out1);
    let mid2 = choose|mid: Seq<T>|
        stages_done(f, first, mid, bound) && #[trigger] scale_ok(g, mid, out2);
    lemma_stages_done_unique(f, first, mid1, mid2, bound);
    lemma_scale_ok_unique(g, mid1, out1, out2);
}

} // verus!
