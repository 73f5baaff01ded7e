use vstd::prelude::*;

use rayon::prelude::IndexedParallelIterator;
use rayon::prelude::IntoParallelRefIterator;
use rayon::prelude::ParallelIterator;

use crate::binner::{
    bin_volume, histogram_of, lemma_volume_conserved, sum, volume_ints, window_histogram, Histogram,
    HistogramView,
};
use crate::params::{PbvConfig, PbvError, PriceByVolumeKwargs};

verus! {

/// Chunks per worker thread in the parallel driver, so that uneven windows
/// still spread evenly over the workers.
pub const FAN_OUT: usize = 64;

/// The row at 0-based position `j`: `None` while fewer than a window of entries
/// has been seen, else the profile of the window that ends at `j`.
pub open spec fn row_of(price: Seq<i64>, volume: Seq<u64>, cfg: PbvConfig, j: int) -> Option<
    HistogramView,
> {
    let w = cfg.window_size as int;
    if j + 1 < w {
        None
    } else {
        Some(
            histogram_of(
                price.subrange(j + 1 - w, j + 1),
                volume.subrange(j + 1 - w, j + 1),
                cfg.bins as int,
                cfg.center_label,
            ),
        )
    }
}

/// The rows at positions `start..end`.
pub open spec fn rows_of(
    price: Seq<i64>,
    volume: Seq<u64>,
    cfg: PbvConfig,
    start: int,
    end: int,
) -> Seq<Option<HistogramView>> {
    Seq::new((end - start) as nat, |i: int| row_of(price, volume, cfg, start + i))
}

/// Mathematical model of a sequence of rows.
pub open spec fn rows_view(rows: Seq<Option<Histogram>>) -> Seq<Option<HistogramView>> {
    rows.map_values(
        |o: Option<Histogram>|
            match o {
                Some(h) => Some(h@),
                None => None,
            },
    )
}

/// The rows at positions `start..end`, computed one after another.
pub fn histogram_rows(
    price: &Vec<i64>,
    volume: &Vec<u64>,
    cfg: &PbvConfig,
    start: usize,
    end: usize,
) -> (rows: Vec<Option<Histogram>>)
    requires
        price.len() == volume.len(),
        start <= end <= price.len(),
        cfg.wf(),
    ensures
        rows_view(rows@) == rows_of(price@, volume@, *cfg, start as int, end as int),
{
    let mut rows: Vec<Option<Histogram>> = Vec::new();
    let mut j: usize = start;
    while j < end
        invariant
            price.len() == volume.len(),
            start <= j <= end <= price.len(),
            cfg.wf(),
            rows@.len() == j - start,
            forall|i: int|
                0 <= i < j - start ==> #[trigger] rows_view(rows@)[i] == row_of(
                    price@,
                    volume@,
                    *cfg,
                    start + i,
                ),
        decreases end - j,
    {
        let ghost before = rows@;
        if j + 1 < cfg.window_size {
            rows.push(None);
        } else {
            let w = cfg.window_size;
            let h = window_histogram(price, volume, j + 1 - w, w, cfg.bins, cfg.center_label);
            rows.push(Some(h));
        }
        assert forall|i: int| 0 <= i < j + 1 - start implies #[trigger] rows_view(rows@)[i]
            == row_of(price@, volume@, *cfg, start + i) by {
            if i < j - start {
                assert(rows@[i] == before[i]);
                assert(rows_view(before)[i] == row_of(price@, volume@, *cfg, start + i));
            }
        }
        j = j + 1;
    }
    assert(rows_view(rows@) =~= rows_of(price@, volume@, *cfg, start as int, end as int));
    rows
}

/// The rolling volume profile of the whole series, computed position by
/// position: one row per entry, `None` until the first window fills.
pub fn price_by_volume(price: &Vec<i64>, volume: &Vec<u64>, kwargs: &PriceByVolumeKwargs) -> (r:
    Result<Vec<Option<Histogram>>, PbvError>)
    requires
        price.len() == volume.len(),
    ensures
        r is Ok <==> kwargs.window_size >= 1 && kwargs.bins >= 1,
        r is Err ==> r->Err_0 == PbvError::InvalidParameter,
        r is Ok ==> {
            let cfg = PbvConfig {
                window_size: kwargs.window_size as usize,
                bins: kwargs.bins as u32,
                center_label: kwargs.center_label,
            };
            &&& rows_view(r->Ok_0@) == rows_of(price@, volume@, cfg, 0, price.len() as int)
            &&& r->Ok_0@.len() == price.len()
            &&& forall|j: int|
                0 <= j < price.len() ==> ((#[trigger] r->Ok_0@[j]) is None <==> j + 1
                    < kwargs.window_size)
        },
{
    let cfg = match kwargs.config() {
        Ok(c) => c,
        Err(e) => {
            return Err(e);
        },
    };
    let rows = histogram_rows(price, volume, &cfg, 0, price.len());
    proof {
        lemma_rows_null_prefix(rows@, price@, volume@, cfg);
    }
    Ok(rows)
}

proof fn lemma_rows_null_prefix(
    rows: Seq<Option<Histogram>>,
    price: Seq<i64>,
    volume: Seq<u64>,
    cfg: PbvConfig,
)
    requires
        rows_view(rows) == rows_of(price, volume, cfg, 0, price.len() as int),
    ensures
        rows.len() == price.len(),
        forall|j: int|
            0 <= j < price.len() ==> ((#[trigger] rows[j]) is None <==> j + 1
                < cfg.window_size),
{
    assert(rows_view(rows).len() == price.len());
    assert forall|j: int| 0 <= j < price.len() implies ((#[trigger] rows[j]) is None <==> j + 1
        < cfg.window_size) by {
        assert(rows_view(rows)[j] == row_of(price, volume, cfg, j));
    }
}

/// Every row after the first window fills is present, and its bins together
/// hold exactly the volume of its window.
pub proof fn lemma_row_volume_conserved(price: Seq<i64>, volume: Seq<u64>, cfg: PbvConfig, j: int)
    requires
        cfg.wf(),
        price.len() == volume.len(),
        cfg.window_size - 1 <= j < price.len(),
    ensures
        match row_of(price, volume, cfg, j) {
            Some(h) => sum(h.volumes) == sum(
                volume_ints(volume.subrange(j + 1 - cfg.window_size, j + 1)),
            ),
            None => false,
        },
{
    let w = cfg.window_size as int;
    let p = price.subrange(j + 1 - w, j + 1);
    let v = volume.subrange(j + 1 - w, j + 1);
    let b = cfg.bins as int;
    lemma_volume_conserved(p, v, b);
    assert(histogram_of(p, v, b, cfg.center_label).volumes =~= Seq::new(
        b as nat,
        |n: int| bin_volume(p, v, b, n),
    ));
}

/// Size of each of `t` chunks that cover `n` positions: `n / t` rounded up.
pub open spec fn chunk_size(n: int, t: int) -> int {
    n / t + if n % t == 0 {
        0int
    } else {
        1int
    }
}

/// First position of chunk `k` of `t` chunks over `n` positions.
pub open spec fn chunk_start(n: int, t: int, k: int) -> int {
    if k * chunk_size(n, t) < n {
        k * chunk_size(n, t)
    } else {
        n
    }
}

/// Chunk starts rise from `0` to `n`, one chunk after another.
pub proof fn lemma_chunk_starts(n: int, t: int, k: int)
    requires
        0 <= n,
        1 <= t,
        0 <= k < t,
    ensures
        chunk_start(n, t, 0) == 0,
        0 <= chunk_start(n, t, k) <= chunk_start(n, t, k + 1) <= n,
        chunk_start(n, t, t) == n,
{
    let c = chunk_size(n, t);
    vstd::arithmetic::div_mod::lemma_fundamental_div_mod(n, t);
    assert(0 <= n / t && 0 <= n % t < t) by (nonlinear_arith)
        requires
            0 <= n,
            1 <= t,
    ;
    assert(t * c >= n) by (nonlinear_arith)
        requires
            c == n / t + if n % t == 0 {
                0int
            } else {
                1int
            },
            n == t * (n / t) + (n % t),
            0 <= n % t < t,
    ;
    assert(0 * c == 0);
    assert(0 <= k * c <= (k + 1) * c) by (nonlinear_arith)
        requires
            0 <= k,
            0 <= c,
    ;
}

/// Bounds `[start, end)` of `t` contiguous chunks that cover positions `0..n`
/// in order, each of at most `chunk_size(n, t)` positions.
pub fn chunk_bounds(n: usize, t: usize) -> (r: Vec<(usize, usize)>)
    requires
        1 <= t,
    ensures
        r@.len() == t,
        forall|k: int|
            0 <= k < t ==> #[trigger] r@[k] == (
            chunk_start(n as int, t as int, k) as usize,
            chunk_start(n as int, t as int, k + 1) as usize,
        ),
{
    let q: usize = n / t;
    let c: usize = if n % t == 0 {
        q
    } else {
        proof {
            vstd::arithmetic::div_mod::lemma_fundamental_div_mod(n as int, t as int);
            vstd::arithmetic::div_mod::lemma_mod_bound(n as int, t as int);
            assert(q < usize::MAX) by (nonlinear_arith)
                requires
                    n == t * q + n % t,
                    0 < n % t < t,
                    n <= usize::MAX,
                    0 <= q,
            ;
        }
        q + 1
    };
    proof {
        lemma_chunk_starts(n as int, t as int, 0);
    }
    let mut r: Vec<(usize, usize)> = Vec::new();
    let mut cur: usize = 0;
    let mut k: usize = 0;
    while k < t
        invariant
            1 <= t,
            k <= t,
            c == chunk_size(n as int, t as int),
            cur == chunk_start(n as int, t as int, k as int),
            cur <= n,
            r@.len() == k,
            forall|i: int|
                0 <= i < k ==> #[trigger] r@[i] == (
                chunk_start(n as int, t as int, i) as usize,
                chunk_start(n as int, t as int, i + 1) as usize,
            ),
        decreases t - k,
    {
        proof {
            lemma_chunk_starts(n as int, t as int, k as int);
            vstd::arithmetic::mul::lemma_mul_is_distributive_add(c as int, k as int, 1);
            vstd::arithmetic::mul::lemma_mul_is_commutative(c as int, k as int);
            vstd::arithmetic::mul::lemma_mul_is_commutative(c as int, k as int + 1);
        }
        let next: usize = if n - cur < c {
            n
        } else {
            cur + c
        };
        r.push((cur, next));
        cur = next;
        k = k + 1;
    }
    r
}

/// Joins the first `k` chunks of rows in order.
pub open spec fn concat_chunks(parts: Seq<Seq<Option<HistogramView>>>, k: int) -> Seq<
    Option<HistogramView>,
>
    decreases k,
{
    if k <= 0 {
        Seq::empty()
    } else {
        concat_chunks(parts, k - 1) + parts[k - 1]
    }
}

/// Computing the rows chunk by chunk, for any number of chunks, and joining
/// the chunks in order gives exactly the rows computed position by position.
pub proof fn lemma_chunked_rows_match(price: Seq<i64>, volume: Seq<u64>, cfg: PbvConfig, t: int)
    requires
        1 <= t,
    ensures
        concat_chunks(
            Seq::new(
                t as nat,
                |k: int|
                    rows_of(
                        price,
                        volume,
                        cfg,
                        chunk_start(price.len() as int, t, k),
                        chunk_start(price.len() as int, t, k + 1),
                    ),
            ),
            t,
        ) == rows_of(price, volume, cfg, 0, price.len() as int),
{
    let n = price.len() as int;
    let parts = Seq::new(
        t as nat,
        |k: int| rows_of(price, volume, cfg, chunk_start(n, t, k), chunk_start(n, t, k + 1)),
    );
    lemma_chunked_prefix(price, volume, cfg, t, parts, t);
    lemma_chunk_starts(n, t, 0);
}

proof fn lemma_chunked_prefix(
    price: Seq<i64>,
    volume: Seq<u64>,
    cfg: PbvConfig,
    t: int,
    parts: Seq<Seq<Option<HistogramView>>>,
    k: int,
)
    requires
        1 <= t,
        0 <= k <= t,
        parts == Seq::new(
            t as nat,
            |i: int|
                rows_of(
                    price,
                    volume,
                    cfg,
                    chunk_start(price.len() as int, t, i),
                    chunk_start(price.len() as int, t, i + 1),
                ),
        ),
    ensures
        concat_chunks(parts, k) == rows_of(
            price,
            volume,
            cfg,
            0,
            chunk_start(price.len() as int, t, k),
        ),
    decreases k,
{
    let n = price.len() as int;
    lemma_chunk_starts(n, t, 0);
    if k == 0 {
        assert(rows_of(price, volume, cfg, 0, 0) =~= Seq::empty());
    } else {
        lemma_chunked_prefix(price, volume, cfg, t, parts, k - 1);
        lemma_chunk_starts(n, t, k - 1);
        let a = chunk_start(n, t, k - 1);
        let b = chunk_start(n, t, k);
        assert(rows_of(price, volume, cfg, 0, a) + rows_of(price, volume, cfg, a, b) =~= rows_of(
            price,
            volume,
            cfg,
            0,
            b,
        ));
    }
}

/// Relies on rayon's `par_iter`, `map` and `collect_into_vec` over a slice:
/// each chunk's rows are computed by `histogram_rows` on some worker thread,
/// and the results are collected in the order of `bounds`.
#[verifier::external_body]
fn par_chunk_rows(
    price: &Vec<i64>,
    volume: &Vec<u64>,
    cfg: &PbvConfig,
    bounds: &Vec<(usize, usize)>,
) -> (parts: Vec<Vec<Option<Histogram>>>)
    requires
        price.len() == volume.len(),
        cfg.wf(),
        forall|k: int| 0 <= k < bounds.len() ==> (#[trigger] bounds@[k]).0 <= bounds@[k].1 <= price.len(),
    ensures
        parts@.len() == bounds@.len(),
        forall|k: int|
            0 <= k < bounds.len() ==> rows_view(#[trigger] parts@[k]@) == rows_of(
                price@,
                volume@,
                *cfg,
                bounds@[k].0 as int,
                bounds@[k].1 as int,
            ),
{
    let mut parts = Vec::new();
    bounds.par_iter().map(|&(s, e)| histogram_rows(price, volume, cfg, s, e)).collect_into_vec(
        &mut parts,
    );
    parts
}

/// Relies on rayon::current_num_threads: the size of the current thread pool.
#[verifier::external_body]
fn worker_threads() -> (n: usize) {
    rayon::current_num_threads()
}

/// Number of chunks for `threads` workers: `FAN_OUT` per worker, at least one
/// worker, capped so that the count fits in a `usize`.
pub fn chunk_count(threads: usize) -> (t: usize)
    ensures
        t == if threads == 0 {
            FAN_OUT as int
        } else if threads > usize::MAX / FAN_OUT {
            usize::MAX / FAN_OUT * FAN_OUT
        } else {
            threads * FAN_OUT
        },
        t >= 1,
{
    if threads == 0 {
        FAN_OUT
    } else if threads > usize::MAX / FAN_OUT {
        usize::MAX / FAN_OUT * FAN_OUT
    } else {
        threads * FAN_OUT
    }
}

/// Number of chunks for the current thread pool.
pub fn parallel_chunk_count() -> (t: usize)
    ensures
        t >= 1,
        t % FAN_OUT == 0,
{
    let t = chunk_count(worker_threads());
    proof {
        vstd::arithmetic::div_mod::lemma_mod_multiples_basic(usize::MAX as int / FAN_OUT as int, FAN_OUT as int);
        vstd::arithmetic::div_mod::lemma_mod_multiples_basic(t as int / FAN_OUT as int, FAN_OUT as int);
    }
    t
}

/// The rolling volume profile of the whole series, computed in `chunks`
/// contiguous chunks of positions on rayon's worker threads (one chunk when
/// `chunks` is zero). The result does not depend on the number of chunks: it is
/// exactly that of [`price_by_volume`].
pub fn price_by_volume_par(
    price: &Vec<i64>,
    volume: &Vec<u64>,
    kwargs: &PriceByVolumeKwargs,
    chunks: usize,
) -> (r: Result<Vec<Option<Histogram>>, PbvError>)
    requires
        price.len() == volume.len(),
    ensures
        r is Ok <==> kwargs.window_size >= 1 && kwargs.bins >= 1,
        r is Err ==> r->Err_0 == PbvError::InvalidParameter,
        r is Ok ==> {
            let cfg = PbvConfig {
                window_size: kwargs.window_size as usize,
                bins: kwargs.bins as u32,
                center_label: kwargs.center_label,
            };
            &&& rows_view(r->Ok_0@) == rows_of(price@, volume@, cfg, 0, price.len() as int)
            &&& r->Ok_0@.len() == price.len()
            &&& forall|j: int|
                0 <= j < price.len() ==> ((#[trigger] r->Ok_0@[j]) is None <==> j + 1
                    < kwargs.window_size)
        },
{
    let cfg = match kwargs.config() {
        Ok(c) => c,
        Err(e) => {
            return Err(e);
        },
    };
    let t: usize = if chunks == 0 {
        1
    } else {
        chunks
    };
    let n = price.len();
    let bounds = chunk_bounds(n, t);
    proof {
        assert forall|k: int| 0 <= k < bounds.len() implies (#[trigger] bounds@[k]).0 <= bounds@[k].1
            <= price.len() by {
            lemma_chunk_starts(n as int, t as int, k);
        }
    }
    let mut parts = par_chunk_rows(price, volume, &cfg, &bounds);
    let mut out: Vec<Option<Histogram>> = Vec::new();
    proof {
        lemma_chunk_starts(n as int, t as int, 0);
        assert(rows_view(out@) =~= rows_of(price@, volume@, cfg, n as int, n as int));
    }
    while parts.len() > 0
        invariant
            parts@.len() <= t,
            bounds@.len() == t,
            1 <= t,
            n == price.len(),
            forall|k: int| 0 <= k < t ==> #[trigger] bounds@[k] == (
                chunk_start(n as int, t as int, k) as usize,
                chunk_start(n as int, t as int, k + 1) as usize,
            ),
            forall|k: int|
                0 <= k < parts@.len() ==> rows_view(#[trigger] parts@[k]@) == rows_of(
                    price@,
                    volume@,
                    cfg,
                    bounds@[k].0 as int,
                    bounds@[k].1 as int,
                ),
            rows_view(out@) == rows_of(
                price@,
                volume@,
                cfg,
                chunk_start(n as int, t as int, parts@.len() as int),
                n as int,
            ),
        decreases parts@.len(),
    {
        let ghost k = parts@.len() - 1;
        let ghost tail = out@;
        match parts.pop() {
            Some(mut part) => {
                let ghost head = part@;
                proof {
                    lemma_chunk_starts(n as int, t as int, k);
                    lemma_chunk_starts(n as int, t as int, t as int - 1);
                    assert(rows_view(part@) == rows_of(price@, volume@, cfg, bounds@[k].0 as int, bounds@[k].1 as int));
                }
                part.append(&mut out);
                proof {
                    let a = chunk_start(n as int, t as int, k);
                    let b = chunk_start(n as int, t as int, k + 1);
                    assert(rows_view(part@) =~= rows_view(head) + rows_view(tail));
                    assert(rows_of(price@, volume@, cfg, a, b) + rows_of(price@, volume@, cfg, b, n as int)
                        =~= rows_of(price@, volume@, cfg, a, n as int));
                }
                out = part;
            },
            None => {},
        }
    }
    proof {
        lemma_chunk_starts(n as int, t as int, 0);
        lemma_rows_null_prefix(out@, price@, volume@, cfg);
    }
    Ok(out)
}

} // verus!
