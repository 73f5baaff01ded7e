use vstd::prelude::*;

use crate::binner::{Histogram, HistogramView, PriceLabel};
use crate::driver::{price_by_volume_par, row_of, rows_view};
use crate::params::{PbvConfig, PbvError, PriceByVolumeKwargs, PriceByVolumeTopNKwargs};

verus! {

/// Bin `a` ranks before bin `c`: it has more volume, or the same volume and a
/// lower index.
pub open spec fn ranks_before(v: Seq<int>, a: int, c: int) -> bool {
    v[a] > v[c] || (v[a] == v[c] && a < c)
}

/// Bin `j` appears in `order`.
pub open spec fn lists_bin(order: Seq<usize>, j: int) -> bool {
    exists|p: int| 0 <= p < order.len() && order[p] == j
}

/// `order` lists every bin of `v` once, by volume from highest to lowest, bins
/// of equal volume in index order.
pub open spec fn is_ranking(v: Seq<int>, order: Seq<usize>) -> bool {
    &&& order.len() == v.len()
    &&& forall|p: int| 0 <= p < order.len() ==> (#[trigger] order[p] as int) < v.len()
    &&& forall|j: int| 0 <= j < v.len() ==> #[trigger] lists_bin(order, j)
    &&& forall|p: int, q: int|
        0 <= p < q < order.len() ==> ranks_before(v, #[trigger] order[p] as int, #[trigger] order[q] as int)
}

/// `sel` holds the first `n` bins of the ranking of `v`, padded with `None`
/// past the last bin.
pub open spec fn is_top_n(v: Seq<int>, n: int, sel: Seq<Option<usize>>) -> bool {
    exists|order: Seq<usize>|
        #![trigger is_ranking(v, order)]
        is_ranking(v, order) && sel.len() == n && forall|k: int|
            0 <= k < n ==> #[trigger] sel[k] == if k < v.len() {
                Some(order[k])
            } else {
                None
            }
}

/// `t` holds the labels of the `n` highest-volume bins of `h`, best first,
/// padded with `None` past the last bin.
pub open spec fn top_labels_of(h: HistogramView, n: int, t: Seq<Option<PriceLabel>>) -> bool {
    exists|sel: Seq<Option<usize>>|
        #![trigger is_top_n(h.volumes, n, sel)]
        is_top_n(h.volumes, n, sel) && t.len() == n && forall|k: int|
            0 <= k < n ==> #[trigger] t[k] == match sel[k] {
                Some(i) => Some(h.labels[i as int]),
                None => None,
            }
}

/// `t` holds the volumes of the `n` highest-volume bins of `h`, best first,
/// padded with `None` past the last bin.
pub open spec fn top_volumes_of(h: HistogramView, n: int, t: Seq<Option<u128>>) -> bool {
    exists|sel: Seq<Option<usize>>|
        #![trigger is_top_n(h.volumes, n, sel)]
        is_top_n(h.volumes, n, sel) && t.len() == n && forall|k: int|
            0 <= k < n ==> #[trigger] t[k] == match sel[k] {
                Some(i) => Some(h.volumes[i as int] as u128),
                None => None,
            }
}

/// Volumes as mathematical integers.
pub open spec fn bin_ints(v: Seq<u128>) -> Seq<int> {
    v.map_values(|x: u128| x as int)
}

/// Ranks the bins by volume, highest first; among equal volumes the lower
/// index comes first.
pub fn rank_bins(volumes: &Vec<u128>) -> (order: Vec<usize>)
    ensures
        is_ranking(bin_ints(volumes@), order@),
{
    let ghost v = bin_ints(volumes@);
    let mut order: Vec<usize> = Vec::new();
    let mut i: usize = 0;
    while i < volumes.len()
        invariant
            v == bin_ints(volumes@),
            i <= volumes.len(),
            order@.len() == i,
            forall|p: int| 0 <= p < i ==> (#[trigger] order@[p] as int) < i,
            forall|j: int| 0 <= j < i ==> #[trigger] lists_bin(order@, j),
            forall|p: int, q: int|
                0 <= p < q < i ==> ranks_before(v, #[trigger] order@[p] as int, #[trigger] order@[q] as int),
        decreases volumes.len() - i,
    {
        let mut pos: usize = 0;
        while pos < i && volumes[order[pos]] >= volumes[i]
            invariant
                v == bin_ints(volumes@),
                i < volumes.len(),
                order@.len() == i,
                forall|p: int| 0 <= p < i ==> (#[trigger] order@[p] as int) < i,
                pos <= i,
                forall|p: int| 0 <= p < pos ==> v[#[trigger] order@[p] as int] >= v[i as int],
            decreases i - pos,
        {
            pos = pos + 1;
        }
        let ghost old_order = order@;
        proof {
            assert forall|q: int| pos <= q < i implies v[#[trigger] old_order[q] as int] < v[i as int] by {
                if q > pos {
                    assert(ranks_before(v, old_order[pos as int] as int, old_order[q] as int));
                }
            }
        }
        order.insert(pos, i);
        proof {
            let ghost n = order@;
            assert forall|p: int| 0 <= p < i + 1 implies (#[trigger] n[p] as int) < i + 1 by {
                if p < pos {
                    assert(n[p] == old_order[p]);
                } else if p > pos {
                    assert(n[p] == old_order[p - 1]);
                }
            }
            assert forall|j: int| 0 <= j < i + 1 implies #[trigger] lists_bin(n, j) by {
                if j == i {
                    assert(n[pos as int] == j);
                } else {
                    assert(lists_bin(old_order, j));
                    let p = choose|p: int| 0 <= p < i && old_order[p] == j;
                    if p < pos {
                        assert(n[p] == j);
                    } else {
                        assert(n[p + 1] == j);
                    }
                }
            }
            assert forall|p: int, q: int| 0 <= p < q < i + 1 implies ranks_before(
                v,
                #[trigger] n[p] as int,
                #[trigger] n[q] as int,
            ) by {
                if q < pos {
                    assert(ranks_before(v, old_order[p] as int, old_order[q] as int));
                } else if q == pos {
                    assert(v[old_order[p] as int] >= v[i as int]);
                    assert((old_order[p] as int) < i);
                } else if p < pos {
                    assert(ranks_before(v, old_order[p] as int, old_order[q - 1] as int));
                } else if p == pos {
                    assert(v[old_order[q - 1] as int] < v[i as int]);
                } else {
                    assert(ranks_before(v, old_order[p - 1] as int, old_order[q - 1] as int));
                }
            }
        }
        i = i + 1;
    }
    order
}

/// The `n` highest-volume bins, best first, padded with `None` past the last bin.
pub fn top_n_bins(volumes: &Vec<u128>, n: usize) -> (sel: Vec<Option<usize>>)
    ensures
        is_top_n(bin_ints(volumes@), n as int, sel@),
{
    let order = rank_bins(volumes);
    let mut sel: Vec<Option<usize>> = Vec::new();
    let mut k: usize = 0;
    while k < n
        invariant
            k <= n,
            order@.len() == volumes@.len(),
            sel@.len() == k,
            forall|i: int| 0 <= i < k ==> #[trigger] sel@[i] == if i < volumes@.len() {
                Some(order@[i])
            } else {
                None
            },
        decreases n - k,
    {
        if k < order.len() {
            sel.push(Some(order[k]));
        } else {
            sel.push(None);
        }
        k = k + 1;
    }
    assert(is_ranking(bin_ints(volumes@), order@));
    sel
}

/// Labels of the `n` highest-volume bins of a histogram, best first, padded
/// with `None` past the last bin.
pub fn top_n_labels(h: &Histogram, n: usize) -> (r: Vec<Option<PriceLabel>>)
    requires
        h.labels.len() == h.volumes.len(),
    ensures
        top_labels_of(h@, n as int, r@),
{
    let sel = top_n_bins(&h.volumes, n);
    assert(h@.volumes =~= bin_ints(h.volumes@));
    let mut r: Vec<Option<PriceLabel>> = Vec::new();
    let mut k: usize = 0;
    while k < n
        invariant
            k <= n,
            sel@.len() == n,
            h.labels.len() == h.volumes.len(),
            is_top_n(h@.volumes, n as int, sel@),
            r@.len() == k,
            forall|i: int| 0 <= i < k ==> #[trigger] r@[i] == match sel@[i] {
                Some(j) => Some(h.labels@[j as int]),
                None => None,
            },
        decreases n - k,
    {
        let ghost order = choose|order: Seq<usize>| is_ranking(h@.volumes, order) && sel@.len() == n && forall|t: int|
            0 <= t < n ==> #[trigger] sel@[t] == if t < h@.volumes.len() {
                Some(order[t])
            } else {
                None
            };
        match sel[k] {
            Some(j) => {
                proof {
                    assert(sel@[k as int] == Some(order[k as int]));
                }
                r.push(Some(h.labels[j]));
            },
            None => {
                r.push(None);
            },
        }
        k = k + 1;
    }
    assert(r@.len() == n);
    r
}

/// Volumes of the `n` highest-volume bins of a histogram, best first, padded
/// with `None` past the last bin.
pub fn top_n_volumes(h: &Histogram, n: usize) -> (r: Vec<Option<u128>>)
    ensures
        top_volumes_of(h@, n as int, r@),
{
    let sel = top_n_bins(&h.volumes, n);
    assert(h@.volumes =~= bin_ints(h.volumes@));
    let mut r: Vec<Option<u128>> = Vec::new();
    let mut k: usize = 0;
    while k < n
        invariant
            k <= n,
            sel@.len() == n,
            is_top_n(h@.volumes, n as int, sel@),
            r@.len() == k,
            forall|i: int| 0 <= i < k ==> #[trigger] r@[i] == match sel@[i] {
                Some(j) => Some(h.volumes@[j as int]),
                None => None,
            },
        decreases n - k,
    {
        let ghost order = choose|order: Seq<usize>| is_ranking(h@.volumes, order) && sel@.len() == n && forall|t: int|
            0 <= t < n ==> #[trigger] sel@[t] == if t < h@.volumes.len() {
                Some(order[t])
            } else {
                None
            };
        match sel[k] {
            Some(j) => {
                proof {
                    assert(sel@[k as int] == Some(order[k as int]));
                }
                r.push(Some(h.volumes[j]));
            },
            None => {
                r.push(None);
            },
        }
        k = k + 1;
    }
    assert(r@.len() == n);
    r
}

/// Asking for as many top bins as there are bins gives the whole histogram,
/// every bin once, sorted by volume from highest to lowest (bins of equal
/// volume in index order).
pub proof fn lemma_top_all_is_ranking(v: Seq<int>, sel: Seq<Option<usize>>)
    requires
        is_top_n(v, v.len() as int, sel),
    ensures
        forall|k: int| 0 <= k < sel.len() ==> (#[trigger] sel[k]) is Some,
        is_ranking(v, sel.map_values(|o: Option<usize>| o->0)),
{
    let order = choose|order: Seq<usize>| is_ranking(v, order) && sel.len() == v.len() && forall|k: int|
        0 <= k < v.len() ==> #[trigger] sel[k] == if k < v.len() {
            Some(order[k])
        } else {
            None
        };
    assert(sel.map_values(|o: Option<usize>| o->0) =~= order);
}

/// The configuration that top-N parameters describe.
pub open spec fn topn_config(kwargs: PriceByVolumeTopNKwargs) -> PbvConfig {
    PbvConfig {
        window_size: kwargs.window_size as usize,
        bins: kwargs.bins as u32,
        center_label: kwargs.center_label,
    }
}

/// Top-N labels of the row at position `j`: `None` before the first window
/// fills, else the labels of the row's `n` highest-volume bins.
pub open spec fn top_label_row(
    price: Seq<i64>,
    volume: Seq<u64>,
    cfg: PbvConfig,
    n: int,
    j: int,
    t: Option<Vec<Option<PriceLabel>>>,
) -> bool {
    match row_of(price, volume, cfg, j) {
        None => t is None,
        Some(h) => t is Some && top_labels_of(h, n, t->0@),
    }
}

/// Top-N volumes of the row at position `j`, with the window's total volume:
/// `None` before the first window fills.
pub open spec fn top_volume_row(
    price: Seq<i64>,
    volume: Seq<u64>,
    cfg: PbvConfig,
    n: int,
    j: int,
    t: Option<(Vec<Option<u128>>, u128)>,
) -> bool {
    match row_of(price, volume, cfg, j) {
        None => t is None,
        Some(h) => match t {
            Some((vols, total)) => top_volumes_of(h, n, vols@) && total == h.total,
            None => false,
        },
    }
}

fn full_kwargs(kwargs: &PriceByVolumeTopNKwargs) -> (k: PriceByVolumeKwargs)
    ensures
        k.window_size == kwargs.window_size,
        k.bins == kwargs.bins,
        k.center_label == kwargs.center_label,
{
    PriceByVolumeKwargs {
        window_size: kwargs.window_size,
        bins: kwargs.bins,
        center_label: kwargs.center_label,
        round: kwargs.round,
    }
}

/// For every position, the labels of the `kwargs.n` highest-volume bins of its
/// window, computed in `chunks` chunks of positions in parallel; `None` until
/// the first window fills.
pub fn price_by_volume_topn_labels(
    price: &Vec<i64>,
    volume: &Vec<u64>,
    kwargs: &PriceByVolumeTopNKwargs,
    chunks: usize,
) -> (r: Result<Vec<Option<Vec<Option<PriceLabel>>>>, PbvError>)
    requires
        price.len() == volume.len(),
    ensures
        r is Ok <==> kwargs.window_size >= 1 && kwargs.bins >= 1,
        r is Err ==> r->Err_0 == PbvError::InvalidParameter,
        r is Ok ==> r->Ok_0@.len() == price.len() && forall|j: int|
            0 <= j < price.len() ==> top_label_row(
                price@,
                volume@,
                topn_config(*kwargs),
                kwargs.n as int,
                j,
                #[trigger] r->Ok_0@[j],
            ),
{
    let rows = match price_by_volume_par(price, volume, &full_kwargs(kwargs), chunks) {
        Ok(rows) => rows,
        Err(e) => {
            return Err(e);
        },
    };
    let ghost cfg = topn_config(*kwargs);
    let mut out: Vec<Option<Vec<Option<PriceLabel>>>> = Vec::new();
    let mut j: usize = 0;
    while j < rows.len()
        invariant
            rows@.len() == price.len(),
            rows_view(rows@) == crate::driver::rows_of(price@, volume@, cfg, 0, price.len() as int),
            cfg.wf(),
            j <= rows@.len(),
            out@.len() == j,
            forall|i: int|
                0 <= i < j ==> top_label_row(price@, volume@, cfg, kwargs.n as int, i, #[trigger] out@[i]),
        decreases rows@.len() - j,
    {
        assert(rows_view(rows@)[j as int] == row_of(price@, volume@, cfg, j as int));
        match &rows[j] {
            Some(h) => {
                assert(h@.labels.len() == h@.volumes.len());
                let t = top_n_labels(h, kwargs.n);
                out.push(Some(t));
            },
            None => {
                out.push(None);
            },
        }
        j = j + 1;
    }
    Ok(out)
}

/// For every position, the volumes of the `kwargs.n` highest-volume bins of
/// its window together with the window's total volume (the denominator of the
/// bins' shares), computed in `chunks` chunks of positions in parallel; `None`
/// until the first window fills.
pub fn price_by_volume_topn_volumes(
    price: &Vec<i64>,
    volume: &Vec<u64>,
    kwargs: &PriceByVolumeTopNKwargs,
    chunks: usize,
) -> (r: Result<Vec<Option<(Vec<Option<u128>>, u128)>>, PbvError>)
    requires
        price.len() == volume.len(),
    ensures
        r is Ok <==> kwargs.window_size >= 1 && kwargs.bins >= 1,
        r is Err ==> r->Err_0 == PbvError::InvalidParameter,
        r is Ok ==> r->Ok_0@.len() == price.len() && forall|j: int|
            0 <= j < price.len() ==> top_volume_row(
                price@,
                volume@,
                topn_config(*kwargs),
                kwargs.n as int,
                j,
                #[trigger] r->Ok_0@[j],
            ),
{
    let rows = match price_by_volume_par(price, volume, &full_kwargs(kwargs), chunks) {
        Ok(rows) => rows,
        Err(e) => {
            return Err(e);
        },
    };
    let ghost cfg = topn_config(*kwargs);
    let mut out: Vec<Option<(Vec<Option<u128>>, u128)>> = Vec::new();
    let mut j: usize = 0;
    while j < rows.len()
        invariant
            rows@.len() == price.len(),
            rows_view(rows@) == crate::driver::rows_of(price@, volume@, cfg, 0, price.len() as int),
            cfg.wf(),
            j <= rows@.len(),
            out@.len() == j,
            forall|i: int|
                0 <= i < j ==> top_volume_row(price@, volume@, cfg, kwargs.n as int, i, #[trigger] out@[i]),
        decreases rows@.len() - j,
    {
        assert(rows_view(rows@)[j as int] == row_of(price@, volume@, cfg, j as int));
        match &rows[j] {
            Some(h) => {
                let t = top_n_volumes(h, kwargs.n);
                out.push(Some((t, h.total)));
            },
            None => {
                out.push(None);
            },
        }
        j = j + 1;
    }
    Ok(out)
}

} // verus!
