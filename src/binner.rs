use vstd::prelude::*;

use crate::params::PbvError;

verus! {

/// An exact bin label: the price `base + num / den`, in price ticks.
#[derive(Clone, Copy, Debug, PartialEq, Eq, Structural)]
pub struct PriceLabel {
    pub base: i64,
    pub num: u128,
    pub den: u128,
}

/// The volume profile of one window: one label and one volume per bin, and the
/// window's total volume (the common denominator of the bins' shares).
#[derive(Debug)]
pub struct Histogram {
    pub labels: Vec<PriceLabel>,
    pub volumes: Vec<u128>,
    pub total: u128,
}

/// Mathematical model of a [`Histogram`].
pub struct HistogramView {
    pub labels: Seq<PriceLabel>,
    pub volumes: Seq<int>,
    pub total: int,
}

impl View for Histogram {
    type V = HistogramView;

    open spec fn view(&self) -> HistogramView {
        HistogramView {
            labels: self.labels@,
            volumes: self.volumes@.map_values(|v: u128| v as int),
            total: self.total as int,
        }
    }
}

/// Lowest of the first `k` prices of `p` (`k >= 1`).
pub open spec fn min_prefix(p: Seq<i64>, k: int) -> int
    decreases k,
{
    if k <= 1 {
        p[0] as int
    } else {
        let m = min_prefix(p, k - 1);
        if (p[k - 1] as int) < m {
            p[k - 1] as int
        } else {
            m
        }
    }
}

/// Highest of the first `k` prices of `p` (`k >= 1`).
pub open spec fn max_prefix(p: Seq<i64>, k: int) -> int
    decreases k,
{
    if k <= 1 {
        p[0] as int
    } else {
        let m = max_prefix(p, k - 1);
        if (p[k - 1] as int) > m {
            p[k - 1] as int
        } else {
            m
        }
    }
}

/// Lowest price of a non-empty window.
pub open spec fn window_low(p: Seq<i64>) -> int {
    min_prefix(p, p.len() as int)
}

/// Highest price of a non-empty window.
pub open spec fn window_high(p: Seq<i64>) -> int {
    max_prefix(p, p.len() as int)
}

/// Whether price `x` lies in bin `n` of `b` equal-width bins over `[lo, lo + r]`.
/// Bin `n` is `lo + n*r/b <= x < lo + (n+1)*r/b`, here multiplied through by `b`;
/// the last bin has no upper bound.
pub open spec fn in_bin(x: int, lo: int, r: int, b: int, n: int) -> bool {
    &&& n * r <= b * (x - lo)
    &&& (n == b - 1 || b * (x - lo) < (n + 1) * r)
}

/// Volume of the first `k` entries whose price lies in bin `n`.
pub open spec fn bin_volume_prefix(
    p: Seq<i64>,
    v: Seq<u64>,
    lo: int,
    r: int,
    b: int,
    n: int,
    k: int,
) -> int
    decreases k,
{
    if k <= 0 {
        0
    } else {
        bin_volume_prefix(p, v, lo, r, b, n, k - 1) + if in_bin(p[k - 1] as int, lo, r, b, n) {
            v[k - 1] as int
        } else {
            0
        }
    }
}

/// Volume of a window that falls in bin `n` of `b` bins over the window's price range.
pub open spec fn bin_volume(p: Seq<i64>, v: Seq<u64>, b: int, n: int) -> int {
    bin_volume_prefix(
        p,
        v,
        window_low(p),
        window_high(p) - window_low(p),
        b,
        n,
        p.len() as int,
    )
}

/// Sum of the first `k` entries of `s`.
pub open spec fn sum_prefix(s: Seq<int>, k: int) -> int
    decreases k,
{
    if k <= 0 {
        0
    } else {
        sum_prefix(s, k - 1) + s[k - 1]
    }
}

/// Sum of all entries of `s`.
pub open spec fn sum(s: Seq<int>) -> int {
    sum_prefix(s, s.len() as int)
}

/// Volumes as mathematical integers.
pub open spec fn volume_ints(v: Seq<u64>) -> Seq<int> {
    v.map_values(|x: u64| x as int)
}

/// Label of bin `n` of `b` bins over `[lo, lo + r]`: its centre
/// `lo + (2n+1)*r/(2b)` or its lower bound `lo + n*r/b`.
pub open spec fn label_of(lo: int, r: int, b: int, n: int, center: bool) -> PriceLabel {
    if center {
        PriceLabel { base: lo as i64, num: ((2 * n + 1) * r) as u128, den: (2 * b) as u128 }
    } else {
        PriceLabel { base: lo as i64, num: (n * r) as u128, den: b as u128 }
    }
}

/// The volume profile of a non-empty window with `b` bins.
pub open spec fn histogram_of(p: Seq<i64>, v: Seq<u64>, b: int, center: bool) -> HistogramView {
    let lo = window_low(p);
    let r = window_high(p) - lo;
    HistogramView {
        labels: Seq::new(b as nat, |n: int| label_of(lo, r, b, n, center)),
        volumes: Seq::new(b as nat, |n: int| bin_volume(p, v, b, n)),
        total: sum(volume_ints(v)),
    }
}

/// Every one of the first `k` prices lies between their minimum and maximum,
/// and both are attained.
pub proof fn lemma_prefix_bounds(p: Seq<i64>, k: int)
    requires
        1 <= k <= p.len(),
    ensures
        forall|j: int| 0 <= j < k ==> min_prefix(p, k) <= #[trigger] p[j] <= max_prefix(p, k),
        exists|j: int| 0 <= j < k && p[j] == min_prefix(p, k),
        exists|j: int| 0 <= j < k && p[j] == max_prefix(p, k),
        i64::MIN <= min_prefix(p, k) <= max_prefix(p, k) <= i64::MAX,
    decreases k,
{
    if k > 1 {
        lemma_prefix_bounds(p, k - 1);
        let jl = choose|j: int| 0 <= j < k - 1 && p[j] == min_prefix(p, k - 1);
        let jh = choose|j: int| 0 <= j < k - 1 && p[j] == max_prefix(p, k - 1);
        if (p[k - 1] as int) < min_prefix(p, k - 1) {
            assert(p[k - 1] == min_prefix(p, k));
        } else {
            assert(p[jl] == min_prefix(p, k));
        }
        if (p[k - 1] as int) > max_prefix(p, k - 1) {
            assert(p[k - 1] == max_prefix(p, k));
        } else {
            assert(p[jh] == max_prefix(p, k));
        }
    } else {
        assert(p[0] == min_prefix(p, k));
        assert(p[0] == max_prefix(p, k));
    }
}

/// The bin of `b` bins over `[lo, lo + r]` that holds price `x`.
pub open spec fn bin_index(x: int, lo: int, r: int, b: int) -> int {
    if r == 0 || (b * (x - lo)) / r >= b - 1 {
        b - 1
    } else {
        (b * (x - lo)) / r
    }
}

/// The `b` bins partition `[lo, lo + r]` without gap or overlap: a price in that
/// range lies in bin `n` exactly when `n` is its bin index, and the top of the
/// range lies in the last bin.
pub proof fn lemma_bins_partition(x: int, lo: int, r: int, b: int, n: int)
    requires
        1 <= b,
        0 <= r,
        lo <= x <= lo + r,
        0 <= n < b,
    ensures
        0 <= bin_index(x, lo, r, b) < b,
        in_bin(x, lo, r, b, n) <==> n == bin_index(x, lo, r, b),
        in_bin(lo + r, lo, r, b, b - 1),
{
    let d = x - lo;
    assert((b - 1) * r <= b * r) by (nonlinear_arith)
        requires
            1 <= b,
            0 <= r,
    ;
    if r == 0 {
        assert(n * r == 0 && (n + 1) * r == 0 && b * d == 0) by (nonlinear_arith)
            requires
                r == 0,
                d == 0,
        ;
    } else {
        let bd = b * d;
        let q = bd / r;
        assert(0 <= bd <= b * r) by (nonlinear_arith)
            requires
                1 <= b,
                0 <= d <= r,
                bd == b * d,
        ;
        assert(q * r <= bd < (q + 1) * r && 0 <= q <= b) by (nonlinear_arith)
            requires
                r > 0,
                0 <= bd <= b * r,
                q == bd / r,
        ;
        assert(n * r <= bd ==> n <= q) by (nonlinear_arith)
            requires
                r > 0,
                bd < (q + 1) * r,
        ;
        assert(bd < (n + 1) * r ==> q <= n) by (nonlinear_arith)
            requires
                r > 0,
                q * r <= bd,
        ;
        assert(n <= q ==> n * r <= bd) by (nonlinear_arith)
            requires
                r > 0,
                q * r <= bd,
        ;
        assert(q <= n ==> bd < (n + 1) * r) by (nonlinear_arith)
            requires
                r > 0,
                bd < (q + 1) * r,
        ;
    }
}

proof fn lemma_sum_zero(s: Seq<int>, m: int)
    requires
        0 <= m <= s.len(),
        forall|i: int| 0 <= i < m ==> s[i] == 0,
    ensures
        sum_prefix(s, m) == 0,
    decreases m,
{
    if m > 0 {
        lemma_sum_zero(s, m - 1);
    }
}

/// Adding the entry at index `k` of a window moves its volume into exactly one bin.
proof fn lemma_bins_step(p: Seq<i64>, v: Seq<u64>, lo: int, r: int, b: int, k: int, m: int)
    requires
        1 <= b,
        0 <= r,
        0 <= k < p.len(),
        lo <= p[k] <= lo + r,
        0 <= m <= b,
    ensures
        sum_prefix(Seq::new(b as nat, |n: int| bin_volume_prefix(p, v, lo, r, b, n, k + 1)), m)
            == sum_prefix(Seq::new(b as nat, |n: int| bin_volume_prefix(p, v, lo, r, b, n, k)), m)
            + if bin_index(p[k] as int, lo, r, b) < m {
            v[k] as int
        } else {
            0
        },
    decreases m,
{
    if m > 0 {
        lemma_bins_step(p, v, lo, r, b, k, m - 1);
        lemma_bins_partition(p[k] as int, lo, r, b, m - 1);
    }
}

/// Over the first `k` entries, the bins together hold exactly their volume.
proof fn lemma_bins_conserve(p: Seq<i64>, v: Seq<u64>, lo: int, r: int, b: int, k: int)
    requires
        1 <= b,
        0 <= r,
        0 <= k <= p.len(),
        k <= v.len(),
        forall|j: int| 0 <= j < k ==> lo <= #[trigger] p[j] <= lo + r,
    ensures
        sum_prefix(Seq::new(b as nat, |n: int| bin_volume_prefix(p, v, lo, r, b, n, k)), b)
            == sum_prefix(volume_ints(v), k),
    decreases k,
{
    if k == 0 {
        lemma_sum_zero(Seq::new(b as nat, |n: int| bin_volume_prefix(p, v, lo, r, b, n, k)), b);
    } else {
        lemma_bins_conserve(p, v, lo, r, b, k - 1);
        assert(lo <= p[k - 1] <= lo + r);
        lemma_bins_step(p, v, lo, r, b, k - 1, b);
        lemma_bins_partition(p[k - 1] as int, lo, r, b, 0);
    }
}

/// Binning conserves volume: the bins of a non-empty window together hold
/// exactly the window's total volume, nothing lost and nothing counted twice.
pub proof fn lemma_volume_conserved(p: Seq<i64>, v: Seq<u64>, b: int)
    requires
        1 <= p.len(),
        p.len() == v.len(),
        1 <= b,
    ensures
        sum(Seq::new(b as nat, |n: int| bin_volume(p, v, b, n))) == sum(volume_ints(v)),
{
    let lo = window_low(p);
    let r = window_high(p) - lo;
    lemma_prefix_bounds(p, p.len() as int);
    lemma_bins_conserve(p, v, lo, r, b, p.len() as int);
    assert(Seq::new(b as nat, |n: int| bin_volume(p, v, b, n)) =~= Seq::new(
        b as nat,
        |n: int| bin_volume_prefix(p, v, lo, r, b, n, p.len() as int),
    ));
}

/// With percentage normalisation each bin's share is its volume over the
/// window's total: the shares of a window with non-zero total volume add up to
/// exactly one, since the bin volumes add up to the total.
pub proof fn lemma_shares_sum_to_one(p: Seq<i64>, v: Seq<u64>, b: int, center: bool)
    requires
        1 <= p.len(),
        p.len() == v.len(),
        1 <= b,
        histogram_of(p, v, b, center).total != 0,
    ensures
        sum(histogram_of(p, v, b, center).volumes) == histogram_of(p, v, b, center).total,
{
    lemma_volume_conserved(p, v, b);
    assert(histogram_of(p, v, b, center).volumes =~= Seq::new(
        b as nat,
        |n: int| bin_volume(p, v, b, n),
    ));
}

/// Every entry of a window lies in exactly one bin, and an entry at the
/// window's highest price lies in the last bin.
pub proof fn lemma_window_entry_bin(p: Seq<i64>, b: int, j: int, n: int)
    requires
        0 <= j < p.len(),
        1 <= b,
        0 <= n < b,
    ensures
        ({
            let lo = window_low(p);
            let r = window_high(p) - lo;
            &&& 0 <= bin_index(p[j] as int, lo, r, b) < b
            &&& in_bin(p[j] as int, lo, r, b, n) <==> n == bin_index(p[j] as int, lo, r, b)
            &&& p[j] == window_high(p) ==> in_bin(p[j] as int, lo, r, b, b - 1)
        }),
{
    lemma_prefix_bounds(p, p.len() as int);
    lemma_bins_partition(p[j] as int, window_low(p), window_high(p) - window_low(p), b, n);
}

proof fn lemma_flat_prefix(p: Seq<i64>, v: Seq<u64>, lo: int, b: int, n: int, k: int)
    requires
        1 <= b,
        0 <= n < b,
        0 <= k <= p.len(),
        k <= v.len(),
        forall|j: int| 0 <= j < k ==> #[trigger] p[j] == lo,
    ensures
        bin_volume_prefix(p, v, lo, 0, b, n, k) == if n == b - 1 {
            sum_prefix(volume_ints(v), k)
        } else {
            0
        },
    decreases k,
{
    if k > 0 {
        lemma_flat_prefix(p, v, lo, b, n, k - 1);
        assert(p[k - 1] == lo);
        lemma_bins_partition(lo, lo, 0, b, n);
    }
}

/// A window whose prices are all equal puts its whole volume in the last bin
/// and leaves every other bin empty.
pub proof fn lemma_flat_window(p: Seq<i64>, v: Seq<u64>, b: int, n: int)
    requires
        1 <= p.len(),
        p.len() == v.len(),
        1 <= b,
        0 <= n < b,
        window_low(p) == window_high(p),
    ensures
        bin_volume(p, v, b, n) == if n == b - 1 {
            sum(volume_ints(v))
        } else {
            0
        },
{
    lemma_prefix_bounds(p, p.len() as int);
    assert forall|j: int| 0 <= j < p.len() implies #[trigger] p[j] == window_low(p) by {
        assert(window_low(p) <= p[j] <= window_high(p));
    }
    lemma_flat_prefix(p, v, window_low(p), b, n, p.len() as int);
}

proof fn lemma_mul_le(x: int, y: int, bx: int, by: int)
    requires
        0 <= x <= bx,
        0 <= y <= by,
    ensures
        0 <= x * y <= bx * by,
{
    assert(0 <= x * y <= bx * by) by (nonlinear_arith)
        requires
            0 <= x <= bx,
            0 <= y <= by,
    ;
}

/// Lowest and highest price of `price[start..start + w]`.
fn window_range(price: &Vec<i64>, start: usize, w: usize) -> (r: (i64, i64))
    requires
        1 <= w,
        start + w <= price.len(),
    ensures
        r.0 == window_low(price@.subrange(start as int, start + w)),
        r.1 == window_high(price@.subrange(start as int, start + w)),
{
    let ghost p = price@.subrange(start as int, start + w);
    let mut lo = price[start];
    let mut hi = price[start];
    let mut k: usize = 1;
    while k < w
        invariant
            1 <= k <= w,
            start + w <= price.len(),
            p == price@.subrange(start as int, start + w),
            lo == min_prefix(p, k as int),
            hi == max_prefix(p, k as int),
        decreases w - k,
    {
        let x = price[start + k];
        assert(x == p[k as int]);
        if x < lo {
            lo = x;
        }
        if x > hi {
            hi = x;
        }
        k = k + 1;
    }
    (lo, hi)
}

/// Volume of `price/volume[start..start + w]` whose price lies in bin `n`
/// of `b` bins over `[lo, lo + r]`.
fn window_bin_volume(
    price: &Vec<i64>,
    volume: &Vec<u64>,
    start: usize,
    w: usize,
    lo: i64,
    r: u128,
    b: u32,
    n: u32,
) -> (s: u128)
    requires
        1 <= w,
        start + w <= price.len(),
        price.len() == volume.len(),
        lo == window_low(price@.subrange(start as int, start + w)),
        r == window_high(price@.subrange(start as int, start + w)) - lo,
        n < b,
    ensures
        s == bin_volume_prefix(
            price@.subrange(start as int, start + w),
            volume@.subrange(start as int, start + w),
            lo as int,
            r as int,
            b as int,
            n as int,
            w as int,
        ),
{
    let ghost p = price@.subrange(start as int, start + w);
    let ghost v = volume@.subrange(start as int, start + w);
    proof {
        lemma_prefix_bounds(p, w as int);
        lemma_mul_le(n as int, r as int, u32::MAX as int, u64::MAX as int);
        lemma_mul_le(n as int + 1, r as int, u32::MAX as int, u64::MAX as int);
    }
    let nr: u128 = n as u128 * r;
    let n1r: u128 = (n as u128 + 1) * r;
    let mut acc: u128 = 0;
    let mut k: usize = 0;
    while k < w
        invariant
            k <= w,
            start + w <= price.len(),
            price.len() == volume.len(),
            p == price@.subrange(start as int, start + w),
            v == volume@.subrange(start as int, start + w),
            forall|j: int| 0 <= j < w ==> lo <= #[trigger] p[j] <= lo + r,
            r <= u64::MAX,
            nr == n * r,
            n1r == (n + 1) * r,
            n < b,
            acc == bin_volume_prefix(p, v, lo as int, r as int, b as int, n as int, k as int),
            acc <= k * (u64::MAX as int),
        decreases w - k,
    {
        let x = price[start + k];
        assert(x == p[k as int]);
        let d: u128 = (x as i128 - lo as i128) as u128;
        proof {
            lemma_mul_le(b as int, d as int, u32::MAX as int, u64::MAX as int);
        }
        let bd: u128 = b as u128 * d;
        let hit = nr <= bd && (n == b - 1 || bd < n1r);
        if hit {
            let y = volume[start + k];
            assert(y == v[k as int]);
            proof {
                lemma_mul_le(k as int + 1, u64::MAX as int, u64::MAX as int + 1, u64::MAX as int);
            }
            acc = acc + y as u128;
        }
        k = k + 1;
    }
    acc
}

/// Total volume of `volume[start..start + w]`.
fn window_total(volume: &Vec<u64>, start: usize, w: usize) -> (s: u128)
    requires
        start + w <= volume.len(),
    ensures
        s == sum(volume_ints(volume@.subrange(start as int, start + w))),
{
    let ghost v = volume_ints(volume@.subrange(start as int, start + w));
    let mut acc: u128 = 0;
    let mut k: usize = 0;
    while k < w
        invariant
            k <= w,
            start + w <= volume.len(),
            v == volume_ints(volume@.subrange(start as int, start + w)),
            acc == sum_prefix(v, k as int),
            acc <= k * (u64::MAX as int),
        decreases w - k,
    {
        let y = volume[start + k];
        assert(y == v[k as int]);
        proof {
            lemma_mul_le(k as int + 1, u64::MAX as int, u64::MAX as int + 1, u64::MAX as int);
        }
        acc = acc + y as u128;
        k = k + 1;
    }
    acc
}

/// The volume profile of `price/volume[start..start + w]` with `b` bins.
pub(crate) fn window_histogram(
    price: &Vec<i64>,
    volume: &Vec<u64>,
    start: usize,
    w: usize,
    b: u32,
    center: bool,
) -> (h: Histogram)
    requires
        1 <= w,
        1 <= b,
        start + w <= price.len(),
        price.len() == volume.len(),
    ensures
        h@ == histogram_of(
            price@.subrange(start as int, start + w),
            volume@.subrange(start as int, start + w),
            b as int,
            center,
        ),
{
    let ghost p = price@.subrange(start as int, start + w);
    let ghost v = volume@.subrange(start as int, start + w);
    let (lo, hi) = window_range(price, start, w);
    proof {
        lemma_prefix_bounds(p, w as int);
    }
    let r: u128 = (hi as i128 - lo as i128) as u128;
    let ghost spec_h = histogram_of(p, v, b as int, center);
    let mut labels: Vec<PriceLabel> = Vec::new();
    let mut volumes: Vec<u128> = Vec::new();
    let mut n: u32 = 0;
    while n < b
        invariant
            n <= b,
            1 <= w,
            start + w <= price.len(),
            price.len() == volume.len(),
            p == price@.subrange(start as int, start + w),
            v == volume@.subrange(start as int, start + w),
            lo == window_low(p),
            r == window_high(p) - lo,
            r <= u64::MAX,
            spec_h == histogram_of(p, v, b as int, center),
            labels@.len() == n,
            volumes@.len() == n,
            forall|i: int| 0 <= i < n ==> labels@[i] == spec_h.labels[i],
            forall|i: int| 0 <= i < n ==> volumes@[i] == spec_h.volumes[i],
        decreases b - n,
    {
        let s = window_bin_volume(price, volume, start, w, lo, r, b, n);
        volumes.push(s);
        let label = if center {
            proof {
                lemma_mul_le(2 * n as int + 1, r as int, 2 * u32::MAX as int, u64::MAX as int);
            }
            PriceLabel { base: lo, num: (2 * n as u128 + 1) * r, den: 2 * b as u128 }
        } else {
            proof {
                lemma_mul_le(n as int, r as int, u32::MAX as int, u64::MAX as int);
            }
            PriceLabel { base: lo, num: n as u128 * r, den: b as u128 }
        };
        labels.push(label);
        n = n + 1;
    }
    let total = window_total(volume, start, w);
    let h = Histogram { labels, volumes, total };
    assert(h@.labels =~= spec_h.labels);
    assert(h@.volumes =~= spec_h.volumes);
    h
}

/// The volume profile of one window given as its prices and volumes: `b` bins
/// over the window's price range, each labelled by its centre or its lower
/// bound. Fails with `InvalidParameter` for zero bins and with `EmptyWindow`
/// for a window without entries.
pub fn bin_window(price: &Vec<i64>, volume: &Vec<u64>, b: u32, center_label: bool) -> (r: Result<
    Histogram,
    PbvError,
>)
    requires
        price.len() == volume.len(),
    ensures
        b == 0 ==> r == Err::<Histogram, PbvError>(PbvError::InvalidParameter),
        b >= 1 && price.len() == 0 ==> r == Err::<Histogram, PbvError>(PbvError::EmptyWindow),
        r is Ok <==> b >= 1 && price.len() >= 1,
        r is Ok ==> r->Ok_0@ == histogram_of(price@, volume@, b as int, center_label),
{
    if b == 0 {
        return Err(PbvError::InvalidParameter);
    }
    if price.len() == 0 {
        return Err(PbvError::EmptyWindow);
    }
    let h = window_histogram(price, volume, 0, price.len(), b, center_label);
    assert(price@.subrange(0, price.len() as int) =~= price@);
    assert(volume@.subrange(0, volume.len() as int) =~= volume@);
    Ok(h)
}

} // verus!
