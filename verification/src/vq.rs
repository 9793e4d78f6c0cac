//! Vector quantisation (VQ): nearest-vector search, encode and decode
//! against a caller-supplied fixed-size codebook of integer samples.
//!
//! A codebook is a flat array: `entries` vectors of `dim` samples each,
//! stored contiguously (entry `i` occupies `codebook[i*dim .. (i+1)*dim]`).
//! Distances are exact: squared differences and absolute differences of
//! `i32` samples are summed in `u128`, which cannot overflow for any
//! `dim` that fits in `usize`.
use vstd::prelude::*;

verus! {

/// Distance metric used by nearest-vector search.
#[derive(Copy, Clone, Debug, PartialEq, Eq)]
pub enum DistanceMetric {
    /// Squared Euclidean distance: `Σ (a[i]-b[i])²`.
    SquaredEuclidean,
    /// Manhattan / L1 distance: `Σ |a[i]-b[i]|`.
    Manhattan,
}

/// Largest value a single per-dimension term can take.
pub open spec fn max_term() -> int {
    0xFFFF_FFFFint * 0xFFFF_FFFFint
}

/// Contribution of one dimension to the distance.
pub open spec fn term_spec(metric: DistanceMetric, x: i32, y: i32) -> int {
    match metric {
        DistanceMetric::SquaredEuclidean => (x - y) * (x - y),
        DistanceMetric::Manhattan => if x >= y { x - y } else { y - x },
    }
}

/// Sum of the first `k` per-dimension terms.
pub open spec fn partial_distance(metric: DistanceMetric, a: Seq<i32>, b: Seq<i32>, k: int) -> int
    decreases k,
{
    if k <= 0 {
        0
    } else {
        partial_distance(metric, a, b, k - 1) + term_spec(metric, a[k - 1], b[k - 1])
    }
}

/// Distance between two vectors of the same length.
pub open spec fn distance_spec(metric: DistanceMetric, a: Seq<i32>, b: Seq<i32>) -> int {
    partial_distance(metric, a, b, a.len() as int)
}

/// Number of codewords in a flat codebook of `len` samples.
pub open spec fn entries_spec(len: int, dim: int) -> int {
    len / dim
}

/// The `i`-th codeword of a flat codebook.
pub open spec fn codeword(codebook: Seq<i32>, dim: int, i: int) -> Seq<i32> {
    codebook.subrange(i * dim, (i + 1) * dim)
}

/// A flat codebook is well formed for `dim`: positive dimension and a
/// length that is a whole number of codewords.
pub open spec fn codebook_ok(codebook: Seq<i32>, dim: int) -> bool {
    dim > 0 && (codebook.len() as int) % dim == 0
}

/// `idx` is the lowest index among the codewords closest to `query`.
pub open spec fn is_nearest(
    codebook: Seq<i32>,
    dim: int,
    query: Seq<i32>,
    metric: DistanceMetric,
    idx: int,
) -> bool {
    &&& 0 <= idx < entries_spec(codebook.len() as int, dim)
    &&& forall|j: int|
        0 <= j < entries_spec(codebook.len() as int, dim) ==> distance_spec(
            metric,
            codeword(codebook, dim, idx),
            query,
        ) <= #[trigger] distance_spec(metric, codeword(codebook, dim, j), query)
    &&& forall|j: int|
        0 <= j < idx ==> distance_spec(metric, codeword(codebook, dim, idx), query)
            < #[trigger] distance_spec(metric, codeword(codebook, dim, j), query)
}

/// The index of the nearest codeword (lowest index on ties).
pub open spec fn nearest_index(
    codebook: Seq<i32>,
    dim: int,
    query: Seq<i32>,
    metric: DistanceMetric,
) -> int {
    choose|idx: int| is_nearest(codebook, dim, query, metric, idx)
}

/// The `i`-th `dim`-sample vector of a flat input.
pub open spec fn input_vector(input: Seq<i32>, dim: int, i: int) -> Seq<i32> {
    input.subrange(i * dim, (i + 1) * dim)
}

/// What [`vq_encode`] writes: the nearest-codeword index of each input
/// vector, stored as `u32`.
pub open spec fn encode_spec(
    codebook: Seq<i32>,
    dim: int,
    input: Seq<i32>,
    metric: DistanceMetric,
) -> Seq<u32> {
    Seq::new(
        ((input.len() as int) / dim) as nat,
        |i: int| nearest_index(codebook, dim, input_vector(input, dim, i), metric) as u32,
    )
}

/// What [`vq_decode`] writes: the codewords named by `indices`, one after
/// the other.
pub open spec fn decode_spec(codebook: Seq<i32>, dim: int, indices: Seq<u32>) -> Seq<i32> {
    Seq::new(
        (indices.len() * dim) as nat,
        |p: int| codebook[indices[p / dim] as int * dim + p % dim],
    )
}

// ---------------------------------------------------------------------
// Arithmetic facts
// ---------------------------------------------------------------------

proof fn lemma_row_in_bounds(i: int, n: int, dim: int)
    requires
        0 <= i < n,
        dim > 0,
    ensures
        0 <= i * dim,
        i * dim + dim <= n * dim,
        (i + 1) * dim == i * dim + dim,
{
    assert(0 <= i * dim) by (nonlinear_arith)
        requires
            0 <= i,
            dim > 0,
    ;
    assert(i * dim + dim <= n * dim) by (nonlinear_arith)
        requires
            0 <= i < n,
            dim > 0,
    ;
    assert((i + 1) * dim == i * dim + dim) by (nonlinear_arith);
}

proof fn lemma_entries_times_dim(len: int, dim: int)
    requires
        dim > 0,
        len >= 0,
        len % dim == 0,
    ensures
        entries_spec(len, dim) * dim == len,
        entries_spec(len, dim) >= 0,
{
    vstd::arithmetic::div_mod::lemma_fundamental_div_mod(len, dim);
    assert(entries_spec(len, dim) * dim == dim * (len / dim)) by (nonlinear_arith);
    vstd::arithmetic::div_mod::lemma_div_pos_is_pos(len, dim);
}

/// Row and column of `i * dim + k` are `i` and `k`.
proof fn lemma_row_col(i: int, k: int, dim: int)
    requires
        i >= 0,
        0 <= k < dim,
    ensures
        (i * dim + k) / dim == i,
        (i * dim + k) % dim == k,
{
    vstd::arithmetic::div_mod::lemma_fundamental_div_mod_converse(i * dim + k, dim, i, k);
}

proof fn lemma_term_bounds(metric: DistanceMetric, x: i32, y: i32)
    ensures
        0 <= term_spec(metric, x, y) <= max_term(),
        term_spec(metric, x, y) == 0 <==> x == y,
{
    let d = x - y;
    assert(-0xFFFF_FFFF <= d <= 0xFFFF_FFFF);
    match metric {
        DistanceMetric::SquaredEuclidean => {
            assert(0 <= d * d <= 0xFFFF_FFFF * 0xFFFF_FFFF) by (nonlinear_arith)
                requires
                    -0xFFFF_FFFF <= d <= 0xFFFF_FFFF,
            ;
            assert(d * d == 0 <==> d == 0) by (nonlinear_arith);
        },
        DistanceMetric::Manhattan => {},
    }
}

/// Partial sums are non-negative, grow with `k` and stay below
/// `k * max_term()`.
proof fn lemma_partial_bounds(metric: DistanceMetric, a: Seq<i32>, b: Seq<i32>, k: int)
    requires
        0 <= k <= a.len(),
        a.len() == b.len(),
    ensures
        0 <= partial_distance(metric, a, b, k) <= k * max_term(),
        forall|m: int|
            0 <= m <= k ==> #[trigger] partial_distance(metric, a, b, m) <= partial_distance(
                metric,
                a,
                b,
                k,
            ),
    decreases k,
{
    if k > 0 {
        lemma_partial_bounds(metric, a, b, k - 1);
        lemma_term_bounds(metric, a[k - 1], b[k - 1]);
        assert((k - 1) * max_term() + max_term() == k * max_term()) by (nonlinear_arith);
    }
}

/// Any distance over at most `usize::MAX` dimensions is below `u128::MAX`.
proof fn lemma_distance_fits(k: int)
    requires
        0 <= k <= usize::MAX,
    ensures
        k * max_term() < u128::MAX,
{
    assert(k * max_term() <= 0xFFFF_FFFF_FFFF_FFFF * max_term()) by (nonlinear_arith)
        requires
            0 <= k <= 0xFFFF_FFFF_FFFF_FFFF,
    ;
}

/// A zero distance means the two vectors are equal.
proof fn lemma_zero_distance(metric: DistanceMetric, a: Seq<i32>, b: Seq<i32>, k: int)
    requires
        0 <= k <= a.len(),
        a.len() == b.len(),
        partial_distance(metric, a, b, k) == 0,
    ensures
        a.subrange(0, k) == b.subrange(0, k),
    decreases k,
{
    if k > 0 {
        lemma_partial_bounds(metric, a, b, k - 1);
        lemma_term_bounds(metric, a[k - 1], b[k - 1]);
        lemma_zero_distance(metric, a, b, k - 1);
        assert(a.subrange(0, k) =~= a.subrange(0, k - 1).push(a[k - 1]));
        assert(b.subrange(0, k) =~= b.subrange(0, k - 1).push(b[k - 1]));
    }
}

/// The distance of a vector to itself is zero.
proof fn lemma_self_distance(metric: DistanceMetric, a: Seq<i32>, k: int)
    requires
        0 <= k <= a.len(),
    ensures
        partial_distance(metric, a, a, k) == 0,
    decreases k,
{
    if k > 0 {
        lemma_self_distance(metric, a, k - 1);
        lemma_term_bounds(metric, a[k - 1], a[k - 1]);
    }
}

/// The lowest-index nearest codeword is unique.
pub proof fn lemma_nearest_unique(
    codebook: Seq<i32>,
    dim: int,
    query: Seq<i32>,
    metric: DistanceMetric,
    a: int,
    b: int,
)
    requires
        is_nearest(codebook, dim, query, metric, a),
        is_nearest(codebook, dim, query, metric, b),
    ensures
        a == b,
{
    if a < b {
        assert(distance_spec(metric, codeword(codebook, dim, b), query) < distance_spec(
            metric,
            codeword(codebook, dim, a),
            query,
        ));
    } else if b < a {
        assert(distance_spec(metric, codeword(codebook, dim, a), query) < distance_spec(
            metric,
            codeword(codebook, dim, b),
            query,
        ));
    }
}

/// Once one index is known to be nearest, it is the nearest index.
proof fn lemma_is_nearest_index(
    codebook: Seq<i32>,
    dim: int,
    query: Seq<i32>,
    metric: DistanceMetric,
    idx: int,
)
    requires
        is_nearest(codebook, dim, query, metric, idx),
    ensures
        nearest_index(codebook, dim, query, metric) == idx,
{
    let c = nearest_index(codebook, dim, query, metric);
    assert(is_nearest(codebook, dim, query, metric, c));
    lemma_nearest_unique(codebook, dim, query, metric, c, idx);
}

// ---------------------------------------------------------------------
// Executable search
// ---------------------------------------------------------------------

impl DistanceMetric {
    /// One dimension's contribution to the distance.
    fn term(self, x: i32, y: i32) -> (r: u128)
        ensures
            r == term_spec(self, x, y),
    {
        proof {
            lemma_term_bounds(self, x, y);
        }
        let d: i64 = x as i64 - y as i64;
        match self {
            DistanceMetric::SquaredEuclidean => {
                let wide: i128 = d as i128;
                (wide * wide) as u128
            },
            DistanceMetric::Manhattan => {
                if d >= 0 {
                    d as u128
                } else {
                    (-d) as u128
                }
            },
        }
    }

    /// Distance between two vectors of equal length.
    fn distance(self, a: &[i32], b: &[i32]) -> (r: u128)
        requires
            a@.len() == b@.len(),
        ensures
            r == distance_spec(self, a@, b@),
    {
        let mut acc: u128 = 0;
        let mut i: usize = 0;
        while i < a.len()
            invariant
                a@.len() == b@.len(),
                0 <= i <= a@.len(),
                acc == partial_distance(self, a@, b@, i as int),
            decreases a@.len() - i,
        {
            proof {
                lemma_partial_bounds(self, a@, b@, i + 1);
                lemma_distance_fits(i + 1);
            }
            acc = acc + self.term(a[i], b[i]);
            i = i + 1;
        }
        acc
    }
}

/// Number of codewords in a flat codebook.
fn entry_count(codebook_len: usize, dim: usize) -> (r: usize)
    requires
        dim > 0,
        codebook_len % dim == 0,
    ensures
        r == entries_spec(codebook_len as int, dim as int),
        r * dim == codebook_len,
{
    proof {
        lemma_entries_times_dim(codebook_len as int, dim as int);
    }
    codebook_len / dim
}

/// Find the nearest codeword to `query` in `codebook` under `metric`.
///
/// Returns `(index, distance)` of the nearest codeword. Ties are broken
/// toward the lowest index.
pub fn nearest_vector(codebook: &[i32], dim: usize, query: &[i32], metric: DistanceMetric) -> (r: (
    usize,
    u128,
))
    requires
        codebook_ok(codebook@, dim as int),
        entries_spec(codebook@.len() as int, dim as int) > 0,
        query@.len() == dim,
    ensures
        is_nearest(codebook@, dim as int, query@, metric, r.0 as int),
        r.0 == nearest_index(codebook@, dim as int, query@, metric),
        r.1 == distance_spec(metric, codeword(codebook@, dim as int, r.0 as int), query@),
{
    let total = codebook.len();
    let entries = entry_count(total, dim);
    proof {
        lemma_row_in_bounds(0, entries as int, dim as int);
    }
    let mut best_idx: usize = 0;
    let mut best_dist = metric.distance(&codebook[0..dim], query);
    let mut i: usize = 1;
    while i < entries
        invariant
            codebook_ok(codebook@, dim as int),
            entries == entries_spec(codebook@.len() as int, dim as int),
            entries * dim == codebook@.len(),
            total == codebook@.len(),
            query@.len() == dim,
            1 <= i <= entries,
            best_idx < i,
            best_dist == distance_spec(metric, codeword(codebook@, dim as int, best_idx as int), query@),
            forall|j: int|
                0 <= j < i ==> best_dist <= #[trigger] distance_spec(
                    metric,
                    codeword(codebook@, dim as int, j),
                    query@,
                ),
            forall|j: int|
                0 <= j < best_idx ==> best_dist < #[trigger] distance_spec(
                    metric,
                    codeword(codebook@, dim as int, j),
                    query@,
                ),
        decreases entries - i,
    {
        proof {
            lemma_row_in_bounds(i as int, entries as int, dim as int);
        }
        let d = metric.distance(&codebook[i * dim..(i + 1) * dim], query);
        if d < best_dist {
            best_dist = d;
            best_idx = i;
        }
        i = i + 1;
    }
    proof {
        lemma_is_nearest_index(codebook@, dim as int, query@, metric, best_idx as int);
    }
    (best_idx, best_dist)
}

/// Same results as [`nearest_vector`], but abandons a codeword's partial
/// distance sum as soon as it can no longer beat the current best.
pub fn nearest_vector_accelerated(
    codebook: &[i32],
    dim: usize,
    query: &[i32],
    metric: DistanceMetric,
) -> (r: (usize, u128))
    requires
        codebook_ok(codebook@, dim as int),
        entries_spec(codebook@.len() as int, dim as int) > 0,
        query@.len() == dim,
    ensures
        is_nearest(codebook@, dim as int, query@, metric, r.0 as int),
        r.0 == nearest_index(codebook@, dim as int, query@, metric),
        r.1 == distance_spec(metric, codeword(codebook@, dim as int, r.0 as int), query@),
{
    let total = codebook.len();
    let entries = entry_count(total, dim);
    let mut best_idx: usize = 0;
    let mut best_dist: u128 = u128::MAX;
    let mut i: usize = 0;
    while i < entries
        invariant
            codebook_ok(codebook@, dim as int),
            entries == entries_spec(codebook@.len() as int, dim as int),
            entries * dim == codebook@.len(),
            total == codebook@.len(),
            query@.len() == dim,
            0 <= i <= entries,
            entries > 0,
            i == 0 ==> best_dist == u128::MAX,
            i > 0 ==> best_idx < i && best_dist == distance_spec(
                metric,
                codeword(codebook@, dim as int, best_idx as int),
                query@,
            ),
            forall|j: int|
                0 <= j < i ==> best_dist <= #[trigger] distance_spec(
                    metric,
                    codeword(codebook@, dim as int, j),
                    query@,
                ),
            forall|j: int|
                0 <= j < best_idx ==> best_dist < #[trigger] distance_spec(
                    metric,
                    codeword(codebook@, dim as int, j),
                    query@,
                ),
        decreases entries - i,
    {
        proof {
            lemma_row_in_bounds(i as int, entries as int, dim as int);
        }
        let entry = &codebook[i * dim..(i + 1) * dim];
        let ghost cw = entry@;
        assert(cw == codeword(codebook@, dim as int, i as int));
        let mut acc: u128 = 0;
        let mut exceeded = false;
        let mut k: usize = 0;
        while k < dim
            invariant_except_break
                entry@.len() == dim,
                query@.len() == dim,
                0 <= k <= dim,
                !exceeded,
                dim > 0,
                acc == partial_distance(metric, entry@, query@, k as int),
                k > 0 ==> acc < best_dist,
            ensures
                entry@.len() == dim,
                exceeded ==> best_dist <= distance_spec(metric, entry@, query@),
                !exceeded ==> acc == distance_spec(metric, entry@, query@) && acc < best_dist,
            decreases dim - k,
        {
            proof {
                lemma_partial_bounds(metric, entry@, query@, dim as int);
                lemma_partial_bounds(metric, entry@, query@, k + 1);
                lemma_distance_fits(k + 1);
            }
            acc = acc + metric.term(entry[k], query[k]);
            k = k + 1;
            if acc >= best_dist {
                exceeded = true;
                break;
            }
        }
        proof {
            lemma_partial_bounds(metric, entry@, query@, dim as int);
            lemma_distance_fits(dim as int);
        }
        if !exceeded {
            best_dist = acc;
            best_idx = i;
        }
        i = i + 1;
    }
    proof {
        lemma_is_nearest_index(codebook@, dim as int, query@, metric, best_idx as int);
    }
    (best_idx, best_dist)
}

/// The accelerated and linear searches name the same codeword, and with it
/// the same distance, for every well-formed query.
pub proof fn lemma_accelerated_matches_linear(
    codebook: Seq<i32>,
    dim: int,
    query: Seq<i32>,
    metric: DistanceMetric,
    linear: (usize, u128),
    accelerated: (usize, u128),
)
    requires
        is_nearest(codebook, dim, query, metric, linear.0 as int),
        linear.1 == distance_spec(metric, codeword(codebook, dim, linear.0 as int), query),
        is_nearest(codebook, dim, query, metric, accelerated.0 as int),
        accelerated.1 == distance_spec(
            metric,
            codeword(codebook, dim, accelerated.0 as int),
            query,
        ),
    ensures
        linear == accelerated,
{
    lemma_nearest_unique(codebook, dim, query, metric, linear.0 as int, accelerated.0 as int);
}

/// The lowest-index closest codeword among the first `k` codewords.
spec fn argmin_prefix(
    codebook: Seq<i32>,
    dim: int,
    query: Seq<i32>,
    metric: DistanceMetric,
    k: int,
) -> int
    decreases k,
{
    if k <= 1 {
        0
    } else {
        let m = argmin_prefix(codebook, dim, query, metric, k - 1);
        if distance_spec(metric, codeword(codebook, dim, k - 1), query) < distance_spec(
            metric,
            codeword(codebook, dim, m),
            query,
        ) {
            k - 1
        } else {
            m
        }
    }
}

proof fn lemma_argmin_prefix(
    codebook: Seq<i32>,
    dim: int,
    query: Seq<i32>,
    metric: DistanceMetric,
    k: int,
)
    requires
        k >= 1,
    ensures
        ({
            let m = argmin_prefix(codebook, dim, query, metric, k);
            &&& 0 <= m < k
            &&& forall|j: int|
                0 <= j < k ==> distance_spec(metric, codeword(codebook, dim, m), query)
                    <= #[trigger] distance_spec(metric, codeword(codebook, dim, j), query)
            &&& forall|j: int|
                0 <= j < m ==> distance_spec(metric, codeword(codebook, dim, m), query)
                    < #[trigger] distance_spec(metric, codeword(codebook, dim, j), query)
        }),
    decreases k,
{
    if k > 1 {
        lemma_argmin_prefix(codebook, dim, query, metric, k - 1);
    }
}

/// Every query has a nearest codeword in a non-empty codebook.
pub proof fn lemma_nearest_exists(
    codebook: Seq<i32>,
    dim: int,
    query: Seq<i32>,
    metric: DistanceMetric,
)
    requires
        entries_spec(codebook.len() as int, dim) > 0,
    ensures
        is_nearest(codebook, dim, query, metric, nearest_index(codebook, dim, query, metric)),
{
    let k = entries_spec(codebook.len() as int, dim);
    lemma_argmin_prefix(codebook, dim, query, metric, k);
    let m = argmin_prefix(codebook, dim, query, metric, k);
    assert(is_nearest(codebook, dim, query, metric, m));
}

/// A codeword is its own nearest neighbour: re-encoding a decoded index
/// gives the index back, provided that index was itself chosen by the
/// search (the lowest index among equal codewords).
proof fn lemma_codeword_is_own_nearest(
    codebook: Seq<i32>,
    dim: int,
    query: Seq<i32>,
    metric: DistanceMetric,
    c: int,
)
    requires
        codebook_ok(codebook, dim),
        is_nearest(codebook, dim, query, metric, c),
    ensures
        nearest_index(codebook, dim, codeword(codebook, dim, c), metric) == c,
{
    let n = entries_spec(codebook.len() as int, dim);
    lemma_entries_times_dim(codebook.len() as int, dim);
    let cw = codeword(codebook, dim, c);
    lemma_row_in_bounds(c, n, dim);
    assert(cw.len() == dim);
    lemma_self_distance(metric, cw, dim);
    assert forall|j: int| 0 <= j < n implies distance_spec(metric, cw, cw) <= #[trigger] distance_spec(
        metric,
        codeword(codebook, dim, j),
        cw,
    ) by {
        lemma_row_in_bounds(j, n, dim);
        lemma_partial_bounds(metric, codeword(codebook, dim, j), cw, dim);
    }
    assert forall|j: int| 0 <= j < c implies distance_spec(metric, cw, cw) < #[trigger] distance_spec(
        metric,
        codeword(codebook, dim, j),
        cw,
    ) by {
        let cj = codeword(codebook, dim, j);
        lemma_row_in_bounds(j, n, dim);
        lemma_partial_bounds(metric, cj, cw, dim);
        if distance_spec(metric, cj, cw) == 0 {
            lemma_zero_distance(metric, cj, cw, dim);
            assert(cj =~= cj.subrange(0, dim));
            assert(cw =~= cw.subrange(0, dim));
            assert(cj == cw);
            assert(distance_spec(metric, cw, query) < distance_spec(metric, cj, query));
        }
    }
    assert(is_nearest(codebook, dim, cw, metric, c));
    lemma_is_nearest_index(codebook, dim, cw, metric, c);
}

/// Encoding a decoded encoding gives the same indices back: every codeword
/// chosen by the search is its own nearest codeword. Stated for codebooks
/// whose indices fit in the `u32` slots that [`vq_encode`] writes.
pub proof fn lemma_reencode_is_idempotent(
    codebook: Seq<i32>,
    dim: int,
    input: Seq<i32>,
    metric: DistanceMetric,
)
    requires
        codebook_ok(codebook, dim),
        entries_spec(codebook.len() as int, dim) > 0,
        entries_spec(codebook.len() as int, dim) <= u32::MAX + 1,
        (input.len() as int) % dim == 0,
    ensures
        encode_spec(
            codebook,
            dim,
            decode_spec(codebook, dim, encode_spec(codebook, dim, input, metric)),
            metric,
        ) == encode_spec(codebook, dim, input, metric),
{
    let e = encode_spec(codebook, dim, input, metric);
    let d = decode_spec(codebook, dim, e);
    let n = (input.len() as int) / dim;
    let entries = entries_spec(codebook.len() as int, dim);
    lemma_entries_times_dim(codebook.len() as int, dim);
    lemma_entries_times_dim(input.len() as int, dim);
    assert(d.len() == n * dim);
    assert((d.len() as int) / dim == n) by {
        vstd::arithmetic::div_mod::lemma_div_by_multiple(n, dim);
    }
    let r = encode_spec(codebook, dim, d, metric);
    assert forall|i: int| 0 <= i < n implies #[trigger] r[i] == e[i] by {
        let q = input_vector(input, dim, i);
        lemma_nearest_exists(codebook, dim, q, metric);
        let c = nearest_index(codebook, dim, q, metric);
        assert(0 <= c < entries);
        assert(e[i] == c as u32);
        assert(e[i] as int == c);
        lemma_row_in_bounds(i, n, dim);
        lemma_row_in_bounds(c, entries, dim);
        assert(input_vector(d, dim, i) =~= codeword(codebook, dim, c)) by {
            assert forall|k: int| 0 <= k < dim implies #[trigger] input_vector(d, dim, i)[k]
                == codeword(codebook, dim, c)[k] by {
                lemma_row_col(i, k, dim);
            }
        }
        lemma_codeword_is_own_nearest(codebook, dim, q, metric, c);
    }
    assert(r =~= e);
}

/// Encode `input` (a flat sequence of `dim`-sample vectors) as
/// nearest-codeword indices. `out.len()` must equal `input.len() / dim`.
pub fn vq_encode(
    codebook: &[i32],
    dim: usize,
    input: &[i32],
    metric: DistanceMetric,
    out: &mut [u32],
)
    requires
        dim > 0,
        (input@.len() as int) % (dim as int) == 0,
        old(out)@.len() == (input@.len() as int) / (dim as int),
        input@.len() > 0 ==> codebook_ok(codebook@, dim as int) && entries_spec(
            codebook@.len() as int,
            dim as int,
        ) > 0,
    ensures
        final(out)@ == encode_spec(codebook@, dim as int, input@, metric),
{
    let ilen = input.len();
    let n = ilen / dim;
    let ghost d = dim as int;
    proof {
        lemma_entries_times_dim(input@.len() as int, d);
    }
    let mut i: usize = 0;
    while i < n
        invariant
            dim > 0,
            d == dim,
            n == (input@.len() as int) / d,
            n * d == input@.len(),
            ilen == input@.len(),
            out@.len() == n,
            0 <= i <= n,
            n > 0 ==> codebook_ok(codebook@, d) && entries_spec(codebook@.len() as int, d) > 0,
            forall|j: int| 0 <= j < i ==> #[trigger] out@[j] == encode_spec(codebook@, d, input@, metric)[j],
        decreases n - i,
    {
        proof {
            lemma_row_in_bounds(i as int, n as int, d);
        }
        let query = &input[i * dim..(i + 1) * dim];
        assert(query@ == input_vector(input@, d, i as int));
        let (idx, _) = nearest_vector(codebook, dim, query, metric);
        out[i] = idx as u32;
        i = i + 1;
    }
    assert(out@ =~= encode_spec(codebook@, d, input@, metric));
}

/// Decode codebook `indices` back into reconstructed vectors.
/// `out.len()` must equal `indices.len() * dim`.
pub fn vq_decode(codebook: &[i32], dim: usize, indices: &[u32], out: &mut [i32])
    requires
        codebook_ok(codebook@, dim as int),
        old(out)@.len() == indices@.len() * dim,
        forall|i: int|
            0 <= i < indices@.len() ==> (#[trigger] indices@[i] as int) < entries_spec(
                codebook@.len() as int,
                dim as int,
            ),
    ensures
        final(out)@ == decode_spec(codebook@, dim as int, indices@),
{
    let total = codebook.len();
    let entries = entry_count(total, dim);
    let n = indices.len();
    let olen = out.len();
    let ghost d = dim as int;
    let mut i: usize = 0;
    while i < n
        invariant
            dim > 0,
            d == dim,
            total == codebook@.len(),
            entries * dim == total,
            entries == entries_spec(codebook@.len() as int, d),
            n == indices@.len(),
            out@.len() == n * dim,
            olen == out@.len(),
            0 <= i <= n,
            forall|j: int| 0 <= j < n ==> (#[trigger] indices@[j] as int) < entries,
            forall|p: int|
                0 <= p < i * d ==> #[trigger] out@[p] == decode_spec(codebook@, d, indices@)[p],
        decreases n - i,
    {
        let idx = indices[i] as usize;
        proof {
            lemma_row_in_bounds(i as int, n as int, d);
            lemma_row_in_bounds(idx as int, entries as int, d);
        }
        let mut k: usize = 0;
        while k < dim
            invariant
                dim > 0,
                d == dim,
                total == codebook@.len(),
                entries * dim == total,
                n == indices@.len(),
                out@.len() == n * dim,
                olen == out@.len(),
                0 <= i < n,
                idx == indices@[i as int],
                idx < entries,
                i * d + d <= n * d,
                idx * d + d <= entries * d,
                0 <= k <= dim,
                forall|p: int|
                    0 <= p < i * d + k ==> #[trigger] out@[p] == decode_spec(codebook@, d, indices@)[p],
            decreases dim - k,
        {
            proof {
                lemma_row_col(i as int, k as int, d);
            }
            out[i * dim + k] = codebook[idx * dim + k];
            k = k + 1;
        }
        proof {
            assert((i + 1) * d == i * d + d) by (nonlinear_arith);
        }
        i = i + 1;
    }
    assert(out@ =~= decode_spec(codebook@, d, indices@));
}

/// Owning convenience wrapper around a fixed-size codebook.
pub struct VqCodebook {
    dim: usize,
    entries: Vec<i32>,
}

impl VqCodebook {
    /// The dimension is positive and the storage holds whole codewords.
    #[verifier::type_invariant]
    spec fn well_formed(self) -> bool {
        codebook_ok(self.entries@, self.dim as int)
    }

    /// Vector dimension.
    pub closed spec fn spec_dim(&self) -> int {
        self.dim as int
    }

    /// The flat codebook.
    pub closed spec fn view(&self) -> Seq<i32> {
        self.entries@
    }

    /// Build a codebook from flat entry storage.
    pub fn new(dim: usize, entries: Vec<i32>) -> (r: Self)
        requires
            dim > 0,
            (entries@.len() as int) % (dim as int) == 0,
        ensures
            r.spec_dim() == dim,
            r@ == entries@,
    {
        entry_count(entries.len(), dim);
        VqCodebook { dim, entries }
    }

    /// Vector dimension.
    pub fn dim(&self) -> (r: usize)
        ensures
            r == self.spec_dim(),
            r > 0,
            (self@.len() as int) % (r as int) == 0,
    {
        proof { use_type_invariant(self); }
        self.dim
    }

    /// Number of codewords.
    pub fn len(&self) -> (r: usize)
        ensures
            r == entries_spec(self@.len() as int, self.spec_dim()),
    {
        proof { use_type_invariant(self); }
        self.entries.len() / self.dim
    }

    /// `true` if the codebook has zero entries.
    pub fn is_empty(&self) -> (r: bool)
        ensures
            r <==> self@.len() == 0,
    {
        self.entries.len() == 0
    }

    /// See [`nearest_vector`].
    pub fn nearest(&self, query: &[i32], metric: DistanceMetric) -> (r: (usize, u128))
        requires
            self@.len() > 0,
            query@.len() == self.spec_dim(),
        ensures
            is_nearest(self@, self.spec_dim(), query@, metric, r.0 as int),
            r.0 == nearest_index(self@, self.spec_dim(), query@, metric),
            r.1 == distance_spec(metric, codeword(self@, self.spec_dim(), r.0 as int), query@),
    {
        proof {
            use_type_invariant(self);
            lemma_entries_times_dim(self@.len() as int, self.spec_dim());
            let e = entries_spec(self@.len() as int, self.spec_dim());
            assert(e != 0) by {
                if e == 0 {
                    assert(e * self.spec_dim() == 0) by (nonlinear_arith)
                        requires
                            e == 0,
                    ;
                }
            }
        }
        nearest_vector(self.entries.as_slice(), self.dim, query, metric)
    }

    /// See [`vq_encode`].
    pub fn encode(&self, input: &[i32], metric: DistanceMetric, out: &mut [u32])
        requires
            (input@.len() as int) % self.spec_dim() == 0,
            old(out)@.len() == (input@.len() as int) / self.spec_dim(),
            input@.len() > 0 ==> self@.len() > 0,
        ensures
            final(out)@ == encode_spec(self@, self.spec_dim(), input@, metric),
    {
        proof {
            use_type_invariant(self);
            lemma_entries_times_dim(self@.len() as int, self.spec_dim());
        }
        vq_encode(self.entries.as_slice(), self.dim, input, metric, out)
    }

    /// See [`vq_decode`].
    pub fn decode(&self, indices: &[u32], out: &mut [i32])
        requires
            old(out)@.len() == indices@.len() * self.spec_dim(),
            forall|i: int|
                0 <= i < indices@.len() ==> (#[trigger] indices@[i] as int) < entries_spec(
                    self@.len() as int,
                    self.spec_dim(),
                ),
        ensures
            final(out)@ == decode_spec(self@, self.spec_dim(), indices@),
    {
        proof { use_type_invariant(self); }
        vq_decode(self.entries.as_slice(), self.dim, indices, out)
    }
}

} // verus!
