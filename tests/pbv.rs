use polars_pbv::binner::{bin_window, Histogram, PriceLabel};
use polars_pbv::driver::{
    chunk_bounds, chunk_count, histogram_rows, parallel_chunk_count, price_by_volume,
    price_by_volume_par, FAN_OUT,
};
use polars_pbv::params::{
    make_config, rounding_digits, PbvConfig, PbvError, PriceByVolumeKwargs,
    PriceByVolumeTopNKwargs,
};
use polars_pbv::topn::{
    price_by_volume_topn_labels, price_by_volume_topn_volumes, rank_bins, top_n_bins, top_n_labels,
    top_n_volumes,
};

fn kwargs(window_size: i32, bins: i32, center_label: bool) -> PriceByVolumeKwargs {
    PriceByVolumeKwargs { window_size, bins, center_label, round: -1 }
}

fn label(base: i64, num: u128, den: u128) -> PriceLabel {
    PriceLabel { base, num, den }
}

fn label_value(l: &PriceLabel) -> f64 {
    l.base as f64 + l.num as f64 / l.den as f64
}

#[test]
fn scenario_window_of_three_two_bins() {
    let price = vec![1i64, 2, 3, 4, 5];
    let volume = vec![10u64, 20, 30, 40, 50];
    let rows = price_by_volume(&price, &volume, &kwargs(3, 2, false)).unwrap();
    let h = rows[2].as_ref().unwrap();
    let labels: Vec<f64> = h.labels.iter().map(label_value).collect();
    assert_eq!(labels, vec![1.0, 2.0]);
    assert_eq!(h.volumes, vec![10, 50]);
    assert_eq!(h.labels, vec![label(1, 0, 2), label(1, 2, 2)]);
    assert_eq!(h.total, 60);
}

#[test]
fn scenario_top_one_volume() {
    let price = vec![1i64, 2, 3, 4, 5];
    let volume = vec![10u64, 20, 30, 40, 50];
    let rows = price_by_volume(&price, &volume, &kwargs(3, 2, false)).unwrap();
    let h = rows[2].as_ref().unwrap();
    assert_eq!(top_n_volumes(h, 1), vec![Some(50)]);
    assert_eq!(top_n_labels(h, 1), vec![Some(label(1, 2, 2))]);
}

#[test]
fn null_rows_until_window_fills() {
    let price = vec![5i64, 3, 8, 1, 9, 2, 7];
    let volume = vec![1u64, 2, 3, 4, 5, 6, 7];
    let rows = price_by_volume(&price, &volume, &kwargs(4, 3, true)).unwrap();
    assert_eq!(rows.len(), 7);
    for (j, row) in rows.iter().enumerate() {
        assert_eq!(row.is_none(), j < 3);
        if let Some(h) = row {
            assert_eq!(h.labels.len(), 3);
            assert_eq!(h.volumes.len(), 3);
        }
    }
}

#[test]
fn window_longer_than_series_is_all_null() {
    let rows = price_by_volume(&vec![1, 2], &vec![3, 4], &kwargs(3, 2, false)).unwrap();
    assert_eq!(rows.len(), 2);
    assert!(rows.iter().all(|r| r.is_none()));
}

#[test]
fn empty_series_gives_no_rows() {
    let rows = price_by_volume(&vec![], &vec![], &kwargs(3, 2, false)).unwrap();
    assert!(rows.is_empty());
}

#[test]
fn bin_volumes_sum_to_window_volume() {
    let price = vec![12i64, -4, 7, 7, 30, 15, -4, 22, 9, 9];
    let volume = vec![3u64, 9, 1, 0, 14, 5, 8, 2, 6, 11];
    let w = 4;
    let rows = price_by_volume(&price, &volume, &kwargs(w, 5, false)).unwrap();
    for j in (w as usize - 1)..price.len() {
        let h = rows[j].as_ref().unwrap();
        let window: u128 = volume[j + 1 - w as usize..=j].iter().map(|&v| v as u128).sum();
        assert_eq!(h.volumes.iter().sum::<u128>(), window);
        assert_eq!(h.total, window);
    }
}

#[test]
fn bins_partition_the_price_range() {
    let price = vec![2i64, 11, 5, 8];
    let volume = vec![1u64, 1, 1, 1];
    let h = bin_window(&price, &volume, 3, false).unwrap();
    // range [2, 11], width 3: [2,5) [5,8) [8,11]
    assert_eq!(h.labels, vec![label(2, 0, 3), label(2, 9, 3), label(2, 18, 3)]);
    assert_eq!(h.volumes, vec![1, 1, 2]);
    let lows: Vec<f64> = h.labels.iter().map(label_value).collect();
    assert_eq!(lows, vec![2.0, 5.0, 8.0]);
}

#[test]
fn window_maximum_counts_in_last_bin() {
    let price = vec![0i64, 10, 3];
    let volume = vec![1u64, 100, 10];
    let h = bin_window(&price, &volume, 7, false).unwrap();
    assert_eq!(h.volumes[6], 100);
    assert_eq!(h.volumes.iter().sum::<u128>(), 111);
}

#[test]
fn center_labels() {
    let h = bin_window(&vec![1, 3], &vec![1, 1], 2, true).unwrap();
    assert_eq!(h.labels, vec![label(1, 2, 4), label(1, 6, 4)]);
    let centres: Vec<f64> = h.labels.iter().map(label_value).collect();
    assert_eq!(centres, vec![1.5, 2.5]);
}

#[test]
fn flat_window_puts_everything_in_last_bin() {
    let h = bin_window(&vec![10, 10, 10, 10], &vec![4, 7, 1, 9], 3, false).unwrap();
    assert_eq!(h.volumes, vec![0, 0, 21]);
    assert_eq!(h.labels, vec![label(10, 0, 3), label(10, 0, 3), label(10, 0, 3)]);
}

#[test]
fn shares_sum_to_one() {
    let h = bin_window(&vec![3, 9, 4, 1, 7], &vec![5, 2, 8, 1, 4], 4, false).unwrap();
    let shares: Vec<f64> = h.volumes.iter().map(|&v| v as f64 / h.total as f64).collect();
    let s: f64 = shares.iter().sum();
    assert!((s - 1.0).abs() < 1e-12);
    assert_eq!(h.volumes.iter().sum::<u128>(), h.total);
}

#[test]
fn zero_volume_window_has_zero_total() {
    let h = bin_window(&vec![3, 9], &vec![0, 0], 2, false).unwrap();
    assert_eq!(h.total, 0);
    assert!((h.volumes[0] as f64 / h.total as f64).is_nan());
}

#[test]
fn extreme_prices_and_volumes() {
    let price = vec![i64::MIN, i64::MAX, 0];
    let volume = vec![u64::MAX, u64::MAX, u64::MAX];
    let h = bin_window(&price, &volume, 2, false).unwrap();
    assert_eq!(h.volumes, vec![u64::MAX as u128, 2 * u64::MAX as u128]);
    assert_eq!(h.total, 3 * u64::MAX as u128);
    assert_eq!(h.labels[1], label(i64::MIN, u64::MAX as u128, 2));
}

#[test]
fn parallel_matches_sequential() {
    let price: Vec<i64> = (0..97).map(|i| (i * 37 % 23) as i64 - 5).collect();
    let volume: Vec<u64> = (0..97).map(|i| (i * 13 % 17) as u64).collect();
    let kw = kwargs(6, 4, true);
    let seq = price_by_volume(&price, &volume, &kw).unwrap();
    for chunks in [0usize, 1, 2, 3, 7, 96, 97, 98, 500] {
        let par = price_by_volume_par(&price, &volume, &kw, chunks).unwrap();
        assert_eq!(par.len(), seq.len());
        for (a, b) in par.iter().zip(seq.iter()) {
            match (a, b) {
                (None, None) => {}
                (Some(x), Some(y)) => {
                    assert_eq!(x.labels, y.labels);
                    assert_eq!(x.volumes, y.volumes);
                    assert_eq!(x.total, y.total);
                }
                _ => panic!("rows differ"),
            }
        }
    }
    let par = price_by_volume_par(&price, &volume, &kw, parallel_chunk_count()).unwrap();
    assert_eq!(par.len(), 97);
}

#[test]
fn parallel_rows_are_computed() {
    let rows = price_by_volume_par(&vec![1, 2, 3, 4, 5], &vec![10, 20, 30, 40, 50], &kwargs(3, 2, false), 2)
        .unwrap();
    assert!(rows[1].is_none());
    assert_eq!(rows[2].as_ref().unwrap().volumes, vec![10, 50]);
    assert_eq!(rows[4].as_ref().unwrap().volumes, vec![30, 90]);
}

#[test]
fn chunk_bounds_cover_in_order() {
    assert_eq!(chunk_bounds(10, 3), vec![(0, 4), (4, 8), (8, 10)]);
    assert_eq!(chunk_bounds(2, 4), vec![(0, 1), (1, 2), (2, 2), (2, 2)]);
    assert_eq!(chunk_bounds(0, 2), vec![(0, 0), (0, 0)]);
    assert_eq!(chunk_bounds(usize::MAX, 2).last(), Some(&(usize::MAX / 2 + 1, usize::MAX)));
}

#[test]
fn chunk_counts() {
    assert_eq!(chunk_count(0), FAN_OUT);
    assert_eq!(chunk_count(4), 256);
    assert_eq!(chunk_count(usize::MAX), usize::MAX / 64 * 64);
    let t = parallel_chunk_count();
    assert!(t >= 64 && t % 64 == 0);
}

#[test]
fn histogram_rows_of_a_range() {
    let cfg = PbvConfig { window_size: 2, bins: 1, center_label: false };
    let rows = histogram_rows(&vec![1, 2, 3], &vec![4, 5, 6], &cfg, 1, 3);
    assert_eq!(rows.len(), 2);
    assert_eq!(rows[0].as_ref().unwrap().volumes, vec![9]);
    assert_eq!(rows[1].as_ref().unwrap().volumes, vec![11]);
}

#[test]
fn invalid_parameters_are_refused() {
    let p = vec![1i64, 2];
    let v = vec![1u64, 2];
    assert_eq!(price_by_volume(&p, &v, &kwargs(0, 2, false)).err(), Some(PbvError::InvalidParameter));
    assert_eq!(price_by_volume(&p, &v, &kwargs(2, 0, false)).err(), Some(PbvError::InvalidParameter));
    assert_eq!(price_by_volume(&p, &v, &kwargs(-3, 2, false)).err(), Some(PbvError::InvalidParameter));
    assert_eq!(
        price_by_volume_par(&p, &v, &kwargs(2, -1, false), 4).err(),
        Some(PbvError::InvalidParameter)
    );
    assert_eq!(make_config(1, 0, true), Err(PbvError::InvalidParameter));
    assert_eq!(bin_window(&p, &v, 0, false).err(), Some(PbvError::InvalidParameter));
}

#[test]
fn empty_window_is_refused() {
    assert_eq!(bin_window(&vec![], &vec![], 2, false).err(), Some(PbvError::EmptyWindow));
}

#[test]
fn configs_from_kwargs() {
    let k = PriceByVolumeTopNKwargs { window_size: 5, bins: 8, n: 3, center_label: true, round: 2, pct: true };
    assert_eq!(k.config(), Ok(PbvConfig { window_size: 5, bins: 8, center_label: true }));
    assert_eq!(kwargs(4, 2, false).config(), Ok(PbvConfig { window_size: 4, bins: 2, center_label: false }));
    assert_eq!(rounding_digits(2), Some(2));
    assert_eq!(rounding_digits(0), Some(0));
    assert_eq!(rounding_digits(-1), None);
}

#[test]
fn ranking_is_stable_and_descending() {
    assert_eq!(rank_bins(&vec![5, 9, 5, 0, 9]), vec![1, 4, 0, 2, 3]);
    assert_eq!(rank_bins(&vec![]), Vec::<usize>::new());
}

#[test]
fn top_n_pads_past_last_bin() {
    assert_eq!(top_n_bins(&vec![1, 3, 2], 5), vec![Some(1), Some(2), Some(0), None, None]);
    assert_eq!(top_n_bins(&vec![1, 3, 2], 0), vec![]);
}

#[test]
fn top_all_bins_is_sorted_histogram() {
    let h = bin_window(&vec![3, 9, 4, 1, 7, 7], &vec![5, 2, 8, 1, 4, 6], 4, true).unwrap();
    let n = h.volumes.len();
    let vols: Vec<u128> = top_n_volumes(&h, n).into_iter().map(|v| v.unwrap()).collect();
    let mut sorted = h.volumes.clone();
    sorted.sort_by(|a, b| b.cmp(a));
    assert_eq!(vols, sorted);
    let labels = top_n_labels(&h, n);
    let order = rank_bins(&h.volumes);
    for (k, l) in labels.iter().enumerate() {
        assert_eq!(*l, Some(h.labels[order[k]]));
    }
}

#[test]
fn top_labels_pick_highest_volume_bins() {
    let h = Histogram {
        labels: vec![label(0, 0, 3), label(0, 1, 3), label(0, 2, 3)],
        volumes: vec![4, 4, 9],
        total: 17,
    };
    assert_eq!(top_n_labels(&h, 2), vec![Some(label(0, 2, 3)), Some(label(0, 0, 3))]);
    assert_eq!(top_n_volumes(&h, 4), vec![Some(9), Some(4), Some(4), None]);
}

fn topn_kwargs(window_size: i32, bins: i32, n: usize) -> PriceByVolumeTopNKwargs {
    PriceByVolumeTopNKwargs { window_size, bins, n, center_label: false, round: -1, pct: false }
}

#[test]
fn top_n_volume_rows() {
    let price = vec![1i64, 2, 3, 4, 5];
    let volume = vec![10u64, 20, 30, 40, 50];
    let rows = price_by_volume_topn_volumes(&price, &volume, &topn_kwargs(3, 2, 1), 4).unwrap();
    assert_eq!(rows.len(), 5);
    assert!(rows[0].is_none() && rows[1].is_none());
    assert_eq!(rows[2], Some((vec![Some(50)], 60)));
    assert_eq!(rows[4], Some((vec![Some(90)], 120)));
}

#[test]
fn top_n_label_rows() {
    let price = vec![1i64, 2, 3, 4, 5];
    let volume = vec![10u64, 20, 30, 40, 50];
    let rows = price_by_volume_topn_labels(&price, &volume, &topn_kwargs(3, 2, 3), 0).unwrap();
    assert!(rows[1].is_none());
    assert_eq!(rows[2], Some(vec![Some(label(1, 2, 2)), Some(label(1, 0, 2)), None]));
    assert_eq!(
        price_by_volume_topn_labels(&price, &volume, &topn_kwargs(3, 0, 1), 1).err(),
        Some(PbvError::InvalidParameter)
    );
    assert_eq!(
        price_by_volume_topn_volumes(&price, &volume, &topn_kwargs(0, 2, 1), 1).err(),
        Some(PbvError::InvalidParameter)
    );
}
