//! The integer side of the silhouette: which label counts are valid, how many
//! samples each cluster holds, and how the rows are split into contiguous
//! bands of work.
use vstd::prelude::*;

verus! {

/// Whether the label set satisfies scikit-learn's `2 ≤ n_labels ≤ n_samples − 1`.
pub fn valid_label_count(n_labels: usize, n_samples: usize) -> (r: bool)
    ensures
        r == (1 < n_labels && n_labels < n_samples),
{
    1 < n_labels && n_labels < n_samples
}

/// How many of `labels` equal `c`.
pub open spec fn count_of(labels: Seq<u32>, c: int) -> nat
    decreases labels.len(),
{
    if labels.len() == 0 {
        0
    } else {
        count_of(labels.drop_last(), c) + if labels.last() == c {
            1nat
        } else {
            0nat
        }
    }
}

/// Counting labels: one label counts once when it is `c` and not at all
/// otherwise, and the count over two runs of labels is the sum of their counts.
pub proof fn lemma_count_of(a: Seq<u32>, b: Seq<u32>, x: u32, c: int)
    ensures
        count_of(Seq::empty(), c) == 0,
        count_of(seq![x], c) == if x == c {
            1nat
        } else {
            0nat
        },
        count_of(a + b, c) == count_of(a, c) + count_of(b, c),
    decreases b.len(),
{
    assert(seq![x].drop_last() =~= Seq::<u32>::empty());
    assert(count_of(seq![x].drop_last(), c) == 0);
    assert(seq![x].last() == x);
    if b.len() == 0 {
        assert(a + b =~= a);
    } else {
        lemma_count_of(a, b.drop_last(), x, c);
        assert((a + b).drop_last() =~= a + b.drop_last());
    }
}

/// The sum of `s`.
pub open spec fn sum_of(s: Seq<usize>) -> int
    decreases s.len(),
{
    if s.len() == 0 {
        0
    } else {
        sum_of(s.drop_last()) + s.last()
    }
}

proof fn lemma_sum_of_update(s: Seq<usize>, j: int, v: usize)
    requires
        0 <= j < s.len(),
    ensures
        sum_of(s.update(j, v)) == sum_of(s) - s[j] + v,
    decreases s.len(),
{
    let t = s.update(j, v);
    if j < s.len() - 1 {
        assert(t.drop_last() =~= s.drop_last().update(j, v));
        lemma_sum_of_update(s.drop_last(), j, v);
    } else {
        assert(t.drop_last() =~= s.drop_last());
    }
}

proof fn lemma_elem_le_sum(s: Seq<usize>, j: int)
    requires
        0 <= j < s.len(),
    ensures
        s[j] <= sum_of(s),
    decreases s.len(),
{
    lemma_sum_nonneg(s.drop_last());
    if j < s.len() - 1 {
        lemma_elem_le_sum(s.drop_last(), j);
    }
}

proof fn lemma_sum_nonneg(s: Seq<usize>)
    ensures
        sum_of(s) >= 0,
    decreases s.len(),
{
    if s.len() > 0 {
        lemma_sum_nonneg(s.drop_last());
    }
}

proof fn lemma_sum_of_zeros(s: Seq<usize>)
    requires
        forall|i: int| 0 <= i < s.len() ==> s[i] == 0,
    ensures
        sum_of(s) == 0,
    decreases s.len(),
{
    if s.len() > 0 {
        lemma_sum_of_zeros(s.drop_last());
    }
}

/// The size of each cluster `0..k`: `sizes[c]` is the number of samples
/// labelled `c`, and the sizes add up to the number of samples.
pub fn cluster_sizes(labels: &[u32], k: usize) -> (sizes: Vec<usize>)
    requires
        forall|i: int| 0 <= i < labels@.len() ==> (#[trigger] labels@[i]) < k,
    ensures
        sizes@.len() == k,
        forall|c: int| 0 <= c < k ==> #[trigger] sizes@[c] == count_of(labels@, c),
        sum_of(sizes@) == labels@.len(),
{
    let mut sizes: Vec<usize> = Vec::new();
    let mut c: usize = 0;
    while c < k
        invariant
            c <= k,
            sizes@.len() == c,
            forall|d: int| 0 <= d < c ==> #[trigger] sizes@[d] == 0,
        decreases k - c,
    {
        sizes.push(0);
        c = c + 1;
    }
    proof {
        lemma_sum_of_zeros(sizes@);
        assert(labels@.take(0) =~= Seq::<u32>::empty());
    }
    let n = labels.len();
    let mut i: usize = 0;
    while i < n
        invariant
            n == labels@.len(),
            i <= n,
            sizes@.len() == k,
            forall|j: int| 0 <= j < labels@.len() ==> (#[trigger] labels@[j]) < k,
            forall|d: int| 0 <= d < k ==> #[trigger] sizes@[d] == count_of(labels@.take(i as int), d),
            sum_of(sizes@) == i,
        decreases n - i,
    {
        let l = labels[i] as usize;
        proof {
            assert(labels@.take(i + 1).drop_last() =~= labels@.take(i as int));
            assert(forall|d: int|
                0 <= d < k ==> count_of(labels@.take(i + 1), d) == count_of(
                    labels@.take(i as int),
                    d,
                ) + if d == l {
                    1nat
                } else {
                    0nat
                });
            lemma_elem_le_sum(sizes@, l as int);
            lemma_sum_of_update(sizes@, l as int, (sizes@[l as int] + 1) as usize);
        }
        let v = sizes[l] + 1;
        sizes.set(l, v);
        i = i + 1;
    }
    proof {
        assert(labels@.take(n as int) =~= labels@);
    }
    sizes
}

/// `n / t` rounded up, for `t > 0`.
pub open spec fn div_ceil(n: int, t: int) -> int {
    if n % t == 0 {
        n / t
    } else {
        n / t + 1
    }
}

/// The number of rows in one band when `n` rows are shared by `n_threads`
/// workers: `n` over the workers rounded up, and at least one.
pub open spec fn band_width(n: usize, n_threads: usize) -> int {
    let t: int = if n_threads == 0 {
        1
    } else {
        n_threads as int
    };
    let w = div_ceil(n as int, t);
    if w < 1 {
        1
    } else {
        w
    }
}

/// The workers that share the rows: `n_threads`, and at least one.
pub open spec fn workers(n_threads: usize) -> int {
    if n_threads == 0 {
        1
    } else {
        n_threads as int
    }
}

/// The band width is the least width of at least one row with which the
/// workers cover all `n` rows: `width * workers >= n`, and when there are rows,
/// one row less per band would not cover them.
pub proof fn lemma_band_width(n: usize, n_threads: usize)
    ensures
        band_width(n, n_threads) >= 1,
        band_width(n, n_threads) * workers(n_threads) >= n,
        n > 0 ==> (band_width(n, n_threads) - 1) * workers(n_threads) < n,
{
    let t = workers(n_threads);
    let q = (n as int) / t;
    let r = (n as int) % t;
    assert(n as int == t * q + r && 0 <= r < t) by (nonlinear_arith)
        requires
            t >= 1,
            q == (n as int) / t,
            r == (n as int) % t,
    ;
    assert(q >= 0) by (nonlinear_arith)
        requires
            t >= 1,
            n >= 0,
            q == (n as int) / t,
    ;
    let w = band_width(n, n_threads);
    if r == 0 {
        assert(w == if q < 1 { 1 } else { q });
        assert(q * t == n as int) by (nonlinear_arith)
            requires
                n as int == t * q + r,
                r == 0,
        ;
        if q < 1 {
            assert(q == 0);
            assert(n == 0) by (nonlinear_arith)
                requires
                    n as int == t * q,
                    q == 0,
            ;
            assert(w * t >= n as int) by (nonlinear_arith)
                requires
                    w == 1,
                    t >= 1,
                    n == 0,
            ;
        } else {
            assert(w * t >= n as int);
            assert((w - 1) * t < n as int) by (nonlinear_arith)
                requires
                    w == q,
                    q * t == n as int,
                    t >= 1,
            ;
        }
    } else {
        assert(w == q + 1);
        assert(w * t >= n as int) by (nonlinear_arith)
            requires
                w == q + 1,
                n as int == t * q + r,
                r < t,
        ;
        assert((w - 1) * t < n as int) by (nonlinear_arith)
            requires
                w == q + 1,
                n as int == t * q + r,
                r > 0,
        ;
    }
}

/// Splits the rows `0..n` into contiguous bands `[start, end)` of
/// `band_width(n, n_threads)` rows, the last band possibly shorter: the bands
/// start at 0, each begins where the one before ends, none is empty, and the
/// last ends at `n`.
pub fn row_bands(n: usize, n_threads: usize) -> (bands: Vec<(usize, usize)>)
    ensures
        band_width(n, n_threads) >= 1,
        band_width(n, n_threads) * workers(n_threads) >= n,
        n > 0 ==> (band_width(n, n_threads) - 1) * workers(n_threads) < n,
        n == 0 <==> bands@.len() == 0,
        n > 0 ==> bands@[0].0 == 0 && bands@.last().1 == n,
        forall|b: int|
            0 <= b < bands@.len() ==> (#[trigger] bands@[b]).0 < bands@[b].1 && bands@[b].1 == if bands@[b].0
                + band_width(n, n_threads) < n {
                bands@[b].0 + band_width(n, n_threads)
            } else {
                n as int
            },
        forall|b: int| 0 <= b < bands@.len() - 1 ==> (#[trigger] bands@[b]).1 == bands@[b + 1].0,
{
    proof {
        lemma_band_width(n, n_threads);
    }
    let t: usize = if n_threads == 0 {
        1
    } else {
        n_threads
    };
    proof {
        assert(n % t != 0 ==> n / t < n) by (nonlinear_arith)
            requires
                t >= 1,
        ;
    }
    let w0 = if n % t == 0 {
        n / t
    } else {
        n / t + 1
    };
    let width: usize = if w0 < 1 {
        1
    } else {
        w0
    };
    let mut bands: Vec<(usize, usize)> = Vec::new();
    let mut start: usize = 0;
    while start < n
        invariant
            width == band_width(n, n_threads),
            width >= 1,
            start <= n,
            bands@.len() == 0 <==> start == 0,
            bands@.len() > 0 ==> bands@[0].0 == 0 && bands@.last().1 == start,
            forall|b: int|
                0 <= b < bands@.len() ==> (#[trigger] bands@[b]).0 < bands@[b].1 && bands@[b].1
                    == if bands@[b].0 + width < n {
                    bands@[b].0 + width
                } else {
                    n as int
                },
            forall|b: int| 0 <= b < bands@.len() - 1 ==> (#[trigger] bands@[b]).1 == bands@[b + 1].0,
        decreases n - start,
    {
        let end = if n - start > width {
            start + width
        } else {
            n
        };
        bands.push((start, end));
        start = end;
    }
    bands
}

} // verus!
