use vstd::prelude::*;
use crate::individual::signed_weights;
use crate::rng::{random_in, shuffle};
use rand_chacha::ChaCha8Rng;

verus! {

/// The weight that a draw `d` in `0..3` gives: `d - 1`.
pub fn weight_of_index(d: usize) -> (w: i8)
    requires
        d < 3,
    ensures
        w == d - 1,
{
    if d == 0 {
        -1
    } else if d == 1 {
        0
    } else {
        1
    }
}

/// `reference_size` weights, each drawn uniformly from {-1, 0, +1}.
pub fn generate_random_vector(reference_size: usize, rng: &mut ChaCha8Rng) -> (r: Vec<i8>)
    ensures
        r.len() == reference_size,
        signed_weights(r@),
{
    let mut v: Vec<i8> = Vec::new();
    let mut i: usize = 0;
    while i < reference_size
        invariant
            i <= reference_size,
            v.len() == i,
            signed_weights(v@),
        decreases reference_size - i,
    {
        let d = random_in(rng, 0, 3);
        v.push(weight_of_index(d));
        i = i + 1;
    }
    v
}

/// Where chunk `i` of `n` items split into `p` balanced chunks starts: the
/// first `n % p` chunks hold one item more than the others.
pub open spec fn chunk_start(n: int, p: int, i: int) -> int {
    i * (n / p) + if i < n % p { i } else { n % p }
}

proof fn lemma_chunk_step(n: int, p: int, i: int)
    requires
        0 <= n,
        0 < p,
        0 <= i < p,
    ensures
        chunk_start(n, p, i + 1) == chunk_start(n, p, i) + n / p + if i < n % p { 1int } else { 0int },
        0 <= chunk_start(n, p, i) <= chunk_start(n, p, i + 1) <= n,
{
    lemma_chunk_end(n, p);
    assert((i + 1) * (n / p) <= p * (n / p)) by (nonlinear_arith)
        requires
            i + 1 <= p,
            0 <= n / p,
    ;
    assert((i + 1) * (n / p) == i * (n / p) + n / p) by (nonlinear_arith);
    assert(0 <= i * (n / p)) by (nonlinear_arith)
        requires
            0 <= i,
            0 <= n / p,
    ;
}

proof fn lemma_chunk_end(n: int, p: int)
    requires
        0 <= n,
        0 < p,
    ensures
        chunk_start(n, p, p) == n,
{
    assert(p * (n / p) + n % p == n) by (nonlinear_arith)
        requires
            0 < p,
    ;
}

/// Shuffles `vec` at random and splits it into `p` chunks whose sizes differ
/// by at most one, the larger ones first.
pub fn split_into_balanced_random_chunks<T: Clone>(vec: Vec<T>, p: usize, rng: &mut ChaCha8Rng) -> (r: Vec<Vec<T>>)
    requires
        p > 0,
    ensures
        r.len() == p,
        exists|s: Seq<T>|
            {
                &&& #[trigger] s.to_multiset() == vec@.to_multiset()
                &&& forall|i: int|
                    0 <= i < p ==> (#[trigger] r[i])@ == s.subrange(
                        chunk_start(vec.len() as int, p as int, i),
                        chunk_start(vec.len() as int, p as int, i + 1),
                    )
            },
{
    let mut shuffled = vec;
    let ghost original = shuffled@;
    shuffle(&mut shuffled, rng);
    let ghost s = shuffled@;
    let n = shuffled.len();
    let base_size = n / p;
    let extra_elements = n % p;
    proof {
        lemma_chunk_end(n as int, p as int);
    }
    let mut chunks: Vec<Vec<T>> = Vec::new();
    let mut i: usize = p;
    while i > 0
        invariant
            0 < p,
            n == s.len(),
            base_size == n / p,
            extra_elements == n % p,
            i <= p,
            shuffled@ == s.subrange(0, chunk_start(n as int, p as int, i as int)),
            chunks.len() == p - i,
            forall|t: int|
                0 <= t < p - i ==> (#[trigger] chunks[t])@ == s.subrange(
                    chunk_start(n as int, p as int, i + t),
                    chunk_start(n as int, p as int, i + t + 1),
                ),
        decreases i,
    {
        proof {
            lemma_chunk_step(n as int, p as int, i - 1);
        }
        let chunk_size = base_size + if i - 1 < extra_elements { 1 } else { 0 };
        let start = shuffled.len() - chunk_size;
        let chunk = shuffled.split_off(start);
        let ghost prev = chunks@;
        chunks.insert(0, chunk);
        proof {
            assert forall|t: int| 0 <= t < p - (i - 1) implies (#[trigger] chunks[t])@ == s.subrange(
                chunk_start(n as int, p as int, i - 1 + t),
                chunk_start(n as int, p as int, i - 1 + t + 1),
            ) by {
                if t > 0 {
                    assert(chunks[t] == prev[t - 1]);
                } else {
                    assert(chunk@ =~= s.subrange(
                        chunk_start(n as int, p as int, i - 1),
                        chunk_start(n as int, p as int, i as int),
                    ));
                }
            }
            assert(shuffled@ =~= s.subrange(0, chunk_start(n as int, p as int, i - 1)));
        }
        i = i - 1;
    }
    proof {
        assert(original == vec@);
        vstd::seq_lib::to_multiset_len(s);
        vstd::seq_lib::to_multiset_len(original);
        assert(vec.len() == n);
        assert(s.to_multiset() == vec@.to_multiset());
        assert forall|t: int| 0 <= t < p implies (#[trigger] chunks[t])@ == s.subrange(
            chunk_start(n as int, p as int, t),
            chunk_start(n as int, p as int, t + 1),
        ) by {
            assert(chunks[t]@ == s.subrange(
                chunk_start(n as int, p as int, 0 + t),
                chunk_start(n as int, p as int, 0 + t + 1),
            ));
        }
    }
    chunks
}

} // verus!
