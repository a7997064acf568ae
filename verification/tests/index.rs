use rinha_fraud::features::Quantised;
use rinha_fraud::index::IvfIndex;
use rinha_fraud::layout::{align_up, compute_sections, read_header, BLOCK, DIMS, HEADER, MAGIC, VER};
use rinha_fraud::model::{OpenError, QueryTrace};
use rinha_fraud::score::score;
use rinha_fraud::search::{do_search, try_search, Config};
use rinha_fraud::tx::extract;

type Vector = [i16; 14];

struct Group {
    centroid: Vector,
    lo: Vector,
    hi: Vector,
    entries: Vec<(Vector, u8)>,
}

fn at(x: i16) -> Vector {
    let mut v = [0; 14];
    v[0] = x;
    v
}

fn group(centroid: Vector, entries: &[(Vector, u8)]) -> Group {
    let mut lo = [i16::MAX; 14];
    let mut hi = [i16::MIN; 14];
    for (v, _) in entries {
        for d in 0..14 {
            lo[d] = lo[d].min(v[d]);
            hi[d] = hi[d].max(v[d]);
        }
    }
    Group { centroid, lo, hi, entries: entries.to_vec() }
}

fn put(out: &mut Vec<u8>, v: &Vector) {
    for x in v {
        out.extend_from_slice(&x.to_le_bytes());
    }
}

fn header(k: u32, n: u32, blocks: u32) -> Vec<u8> {
    let mut out = Vec::new();
    out.extend_from_slice(&MAGIC.to_le_bytes());
    for x in [VER, n, k, blocks, 8, 14] {
        out.extend_from_slice(&x.to_le_bytes());
    }
    out.resize(64, 0);
    out
}

fn file(groups: &[Group]) -> Vec<u8> {
    let mut offsets: Vec<u32> = vec![0];
    let mut n = 0;
    for g in groups {
        n += g.entries.len() as u32;
        offsets.push(offsets[offsets.len() - 1] + ((g.entries.len() + 7) / 8) as u32);
    }
    let mut out = header(groups.len() as u32, n, offsets[groups.len()]);
    for g in groups {
        put(&mut out, &g.centroid);
    }
    for g in groups {
        put(&mut out, &g.lo);
    }
    for g in groups {
        put(&mut out, &g.hi);
    }
    for o in &offsets {
        out.extend_from_slice(&o.to_le_bytes());
    }
    for g in groups {
        out.extend_from_slice(&(g.entries.len() as u32).to_le_bytes());
    }
    for g in groups {
        for chunk in g.entries.chunks(8) {
            for lane in 0..8 {
                out.push(if lane < chunk.len() { chunk[lane].1 } else { 0xee });
            }
        }
    }
    for g in groups {
        for chunk in g.entries.chunks(8) {
            for d in 0..14 {
                for lane in 0..8 {
                    let x: i16 = if lane < chunk.len() { chunk[lane].0[d] } else { 0 };
                    out.extend_from_slice(&x.to_le_bytes());
                }
            }
        }
    }
    out
}

fn dist(a: &Vector, b: &Vector) -> u64 {
    let mut sum = 0;
    for d in 0..14 {
        let e = a[d] as i64 - b[d] as i64;
        sum += (e * e) as u64;
    }
    sum
}

struct Random(u64);

impl Random {
    fn below(&mut self, n: u64) -> u64 {
        self.0 = self.0.wrapping_mul(6364136223846793005).wrapping_add(1442695040888963407);
        (self.0 >> 33) % n
    }

    fn features(&mut self) -> Vector {
        let mut v = [0; 14];
        for d in 0..14 {
            v[d] = self.below(10001) as i16;
        }
        if self.below(3) == 0 {
            v[5] = -10000;
            v[6] = -10000;
        }
        v
    }

    fn near(&mut self, c: &Vector) -> Vector {
        let mut v = *c;
        for d in 0..14 {
            v[d] = (v[d] as i64 + self.below(2001) as i64 - 1000).clamp(0, 10000) as i16;
        }
        v
    }
}

#[test]
fn sections_follow_each_other() {
    let sec = compute_sections(2, 3);
    assert_eq!(sec.centroids, 64);
    assert_eq!(sec.bbox_min, 120);
    assert_eq!(sec.bbox_max, 176);
    assert_eq!(sec.offsets, 232);
    assert_eq!(sec.counts, 244);
    assert_eq!(sec.labels, 252);
    assert_eq!(sec.blocks, 276);
}

#[test]
fn sections_are_aligned() {
    for k in 0..20 {
        for blocks in 0..20 {
            let sec = compute_sections(k, blocks);
            assert_eq!(sec.centroids % 2, 0);
            assert_eq!(sec.offsets % 4, 0);
            assert_eq!(sec.counts % 4, 0);
            assert_eq!(sec.blocks % 2, 0);
        }
    }
}

#[test]
fn align_up_rounds_to_powers_of_two() {
    assert_eq!(align_up(0, 4), 0);
    assert_eq!(align_up(5, 4), 8);
    assert_eq!(align_up(8, 4), 8);
    assert_eq!(align_up(7, 2), 8);
    assert_eq!(align_up(9, 1), 9);
    assert_eq!(align_up(5, 3), 5);
}

#[test]
fn header_is_read_back() {
    let hdr = read_header(&header(7, 100, 13));
    assert_eq!(hdr.magic, MAGIC);
    assert_eq!(hdr.version, 1);
    assert_eq!(hdr.n, 100);
    assert_eq!(hdr.k, 7);
    assert_eq!(hdr.total_blocks, 13);
    assert_eq!(hdr.block_size, BLOCK as u32);
    assert_eq!(hdr.dims, DIMS as u32);
    assert_eq!(HEADER, 64);
}

#[test]
fn magic_reads_as_text() {
    assert_eq!(&MAGIC.to_le_bytes(), b"RH26IVI1");
}

fn error_of(data: &[u8]) -> Option<OpenError> {
    IvfIndex::open(data).err()
}

#[test]
fn damaged_files_are_refused() {
    let good = file(&[group(at(0), &[(at(1), 1)]), group(at(100), &[(at(101), 0)])]);
    assert_eq!(error_of(&good), None);
    let mut bad = good.clone();
    bad[0] ^= 1;
    assert_eq!(error_of(&bad), Some(OpenError::BadMagic));
    let mut bad = good.clone();
    bad[8] = 2;
    assert_eq!(error_of(&bad), Some(OpenError::BadVersion));
    let mut bad = good.clone();
    bad[28] = 16;
    assert_eq!(error_of(&bad), Some(OpenError::BadDims));
    let mut bad = good.clone();
    bad[24] = 4;
    assert_eq!(error_of(&bad), Some(OpenError::BadBlockSize));
    assert_eq!(error_of(&good[..64 + 2 * 28 - 1]), Some(OpenError::Truncated));
    assert_eq!(error_of(&good[..63]), Some(OpenError::Truncated));
    assert_eq!(error_of(&[]), Some(OpenError::Truncated));
}

#[test]
fn first_fault_is_reported() {
    let mut bad = file(&[group(at(0), &[(at(1), 1)])]);
    bad[24] = 4;
    bad[28] = 16;
    assert_eq!(error_of(&bad), Some(OpenError::BadDims));
    bad[8] = 2;
    assert_eq!(error_of(&bad), Some(OpenError::BadVersion));
    bad[3] ^= 8;
    assert_eq!(error_of(&bad), Some(OpenError::BadMagic));
}

/// Two clusters, of which the second names blocks behind the end of the file.
fn with_a_bad_cluster() -> Vec<u8> {
    let mut data = file(&[
        group(at(0), &five(0, [1, 1, 0, 0, 0])),
        group(at(1000), &five(1000, [1, 1, 1, 1, 1])),
    ]);
    let sec = compute_sections(2, 2);
    data[sec.offsets + 4] = 2;
    data
}

#[test]
fn clusters_outside_the_file_are_found_by_probing() {
    let data = with_a_bad_cluster();
    let idx = IvfIndex::open(&data).unwrap();
    assert!(idx.has_entries(0));
    assert!(!idx.has_entries(1));
    assert!(idx.probe_top1(&at(900)).is_none());
    assert!(idx.probe_topn(&at(900), 1).is_none());
    assert!(idx.probe_topn(&at(900), 2).is_none());
}

#[test]
fn clusters_outside_the_file_do_not_matter_unprobed() {
    let data = with_a_bad_cluster();
    let idx = IvfIndex::open(&data).unwrap();
    assert_eq!(idx.query_top1(&at(0)), QueryTrace { final_worst: 16, fraud: 2 });
    assert_eq!(idx.query_topn(&at(0), 1).fraud, 2);
    assert_eq!(idx.query_topn(&at(0), 2), QueryTrace { final_worst: 16, fraud: 2 });
    assert_eq!(try_search(&idx, &config(2, 0), &at(0)), Some(2));
    assert_eq!(try_search(&idx, &config(2, 0), &at(900)), None);
}

#[test]
fn blocks_end_with_the_file() {
    let mut data = file(&[group(at(0), &[(at(1), 1)]), group(at(100), &[(at(101), 0)])]);
    let sec = compute_sections(2, 2);
    data[sec.counts] = 16;
    assert!(IvfIndex::open(&data).unwrap().has_entries(0));
    data[sec.counts] = 17;
    assert!(!IvfIndex::open(&data).unwrap().has_entries(0));
    data[sec.counts] = 0;
    data[sec.offsets] = 200;
    assert!(IvfIndex::open(&data).unwrap().has_entries(0));
}

#[test]
fn files_open_with_their_centroids() {
    let good = file(&[group(at(0), &[(at(1), 1)]), group(at(100), &[(at(101), 0)])]);
    for end in 64 + 2 * 28..good.len() {
        assert_eq!(IvfIndex::open(&good[..end]).unwrap().cluster_count(), 2);
    }
    let mut empty = header(0, 0, 1);
    empty.resize(76, 0);
    let idx = IvfIndex::open(&empty).unwrap();
    assert_eq!(idx.query_topn(&at(0), 4), QueryTrace { final_worst: u64::MAX, fraud: 0 });
}

#[test]
fn queries_need_what_they_look_at() {
    let good = file(&[
        group(at(0), &five(0, [1, 1, 0, 0, 0])),
        group(at(1000), &five(1000, [1, 1, 1, 1, 1])),
    ]);
    let sec = compute_sections(2, 2);
    let first = sec.blocks + 224;
    let cut = &good[..first];
    let idx = IvfIndex::open(cut).unwrap();
    assert!(idx.has_entries(0) && !idx.has_entries(1));
    assert_eq!(idx.query_top1(&at(0)), QueryTrace { final_worst: 16, fraud: 2 });
    assert_eq!(idx.query_topn(&at(0), 2), QueryTrace { final_worst: 16, fraud: 2 });
    assert!(idx.probe_top1(&at(1000)).is_none());
    assert!(idx.probe_topn(&at(1000), 2).is_none());
    let cut = &good[..sec.offsets];
    let idx = IvfIndex::open(cut).unwrap();
    assert!(idx.has_box(1) && !idx.has_entries(0));
    assert!(idx.probe_topn(&at(0), 1).is_none());
    let cut = &good[..sec.offsets - 1];
    let idx = IvfIndex::open(cut).unwrap();
    assert!(idx.has_box(0) && !idx.has_box(1));
    assert_eq!(idx.query_topn(&at(0), 0).fraud, 0);
}

#[test]
fn unused_lanes_may_be_missing() {
    let good = file(&[group(at(0), &five(0, [1, 1, 0, 0, 0]))]);
    let cut = &good[..good.len() - 6];
    assert_eq!(IvfIndex::open(cut).unwrap().query_top1(&at(0)).fraud, 2);
    let cut = &good[..good.len() - 7];
    assert!(!IvfIndex::open(cut).unwrap().has_entries(0));
}

#[test]
fn longer_files_are_fine() {
    let mut data = file(&[group(at(0), &[(at(1), 1)])]);
    data.extend_from_slice(b"rest");
    assert_eq!(IvfIndex::open(&data).unwrap().cluster_count(), 1);
}

fn five(x: i16, labels: [u8; 5]) -> Vec<(Vector, u8)> {
    (0..5).map(|i| (at(x + i as i16), labels[i])).collect()
}

#[test]
fn nearest_cluster_is_probed() {
    let data = file(&[
        group(at(0), &five(0, [1, 0, 0, 0, 0])),
        group(at(1000), &five(1000, [1, 1, 1, 0, 0])),
    ]);
    let idx = IvfIndex::open(&data).unwrap();
    assert_eq!(idx.cluster_count(), 2);
    assert_eq!(idx.query_top1(&at(10)), QueryTrace { final_worst: 100, fraud: 1 });
    assert_eq!(idx.query_top1(&at(1001)), QueryTrace { final_worst: 9, fraud: 3 });
}

#[test]
fn first_of_equally_near_clusters_is_probed() {
    let data = file(&[
        group(at(-100), &five(-100, [0, 0, 0, 0, 0])),
        group(at(100), &five(96, [1, 1, 1, 1, 1])),
    ]);
    let idx = IvfIndex::open(&data).unwrap();
    assert_eq!(idx.query_top1(&at(0)).fraud, 0);
    assert_eq!(idx.query_top1(&at(1)).fraud, 5);
    assert_eq!(idx.query_topn(&at(0), 1).fraud, 0);
}

#[test]
fn nearest_cluster_is_found_in_and_behind_the_lanes() {
    let groups: Vec<Group> =
        (0..19).map(|i| group(at(i * 100), &[(at(i * 100), i as u8)])).collect();
    let data = file(&groups);
    let idx = IvfIndex::open(&data).unwrap();
    for i in 0..19 {
        let q = at(i * 100 + 40);
        assert_eq!(idx.query_top1(&q).fraud, i as u8);
        assert_eq!(idx.query_topn(&q, 1), idx.query_top1(&q));
    }
}

#[test]
fn places_without_neighbour_stay_infinite() {
    let data = file(&[group(at(0), &[(at(1), 1), (at(2), 1), (at(3), 0)])]);
    let idx = IvfIndex::open(&data).unwrap();
    assert_eq!(idx.query_top1(&at(0)), QueryTrace { final_worst: u64::MAX, fraud: 2 });
}

#[test]
fn empty_clusters_hold_nothing() {
    let data = file(&[group(at(0), &[]), group(at(50), &five(50, [1, 1, 0, 0, 0]))]);
    let idx = IvfIndex::open(&data).unwrap();
    assert_eq!(idx.query_top1(&at(0)), QueryTrace { final_worst: u64::MAX, fraud: 0 });
    assert_eq!(idx.query_topn(&at(0), 2).fraud, 2);
}

#[test]
fn empty_index_knows_nobody() {
    let data = file(&[]);
    let idx = IvfIndex::open(&data).unwrap();
    assert_eq!(idx.cluster_count(), 0);
    assert_eq!(idx.query_topn(&at(0), 4), QueryTrace { final_worst: u64::MAX, fraud: 0 });
}

#[test]
fn no_probes_find_nobody() {
    let data = file(&[group(at(0), &five(0, [1, 1, 1, 1, 1]))]);
    let idx = IvfIndex::open(&data).unwrap();
    assert_eq!(idx.query_topn(&at(0), 0), QueryTrace { final_worst: u64::MAX, fraud: 0 });
}

#[test]
fn probes_are_capped_at_sixty_four() {
    let mut groups: Vec<Group> =
        (0..64).map(|i| group(at(i), &[(at(10000), 0)])).collect();
    groups.push(group(at(2000), &five(0, [1, 1, 1, 1, 1])));
    let data = file(&groups);
    let idx = IvfIndex::open(&data).unwrap();
    assert_eq!(idx.query_topn(&at(0), 65).fraud, 0);
    assert_eq!(idx.query_topn(&at(0), usize::MAX).fraud, 0);
    assert_eq!(idx.query_topn(&at(1100), 65).fraud, 5);
}

#[test]
fn full_blocks_are_scored_in_wrapping_lanes() {
    let far = [i16::MAX; 14];
    let q = [i16::MIN; 14];
    let data = file(&[group(far, &[(far, 1); 8])]);
    let idx = IvfIndex::open(&data).unwrap();
    assert_eq!(idx.query_top1(&q), QueryTrace { final_worst: 14, fraud: 5 });
    let data = file(&[group(far, &[(far, 1); 7])]);
    let idx = IvfIndex::open(&data).unwrap();
    assert_eq!(idx.query_top1(&q), QueryTrace { final_worst: dist(&q, &far), fraud: 5 });
}

#[test]
fn lanes_add_up_in_thirty_two_bits() {
    let far = [i16::MIN; 14];
    let data = file(&[group(far, &[(far, 0); 8])]);
    let idx = IvfIndex::open(&data).unwrap();
    assert_eq!(idx.query_top1(&[0; 14]).final_worst, 1 << 31);
}

#[test]
fn boxes_out_of_reach_are_passed_over() {
    let near = group(at(0), &five(0, [0, 0, 0, 0, 0]));
    let mut far = group(at(500), &five(0, [1, 1, 1, 1, 1]));
    far.lo = at(400);
    far.hi = at(600);
    let data = file(&[near, far]);
    let idx = IvfIndex::open(&data).unwrap();
    assert_eq!(idx.query_topn(&at(-1), 2).fraud, 0);
    assert_eq!(idx.query_topn(&at(-1), 2).final_worst, 25);
}

#[test]
fn first_cluster_is_probed_whatever_its_box() {
    let mut only = group(at(0), &five(0, [1, 1, 1, 1, 1]));
    only.lo = [i16::MAX; 14];
    only.hi = [i16::MAX; 14];
    let data = file(&[only]);
    let idx = IvfIndex::open(&data).unwrap();
    assert_eq!(idx.query_topn(&at(0), 1).fraud, 5);
}

fn random_groups(rng: &mut Random, k: usize) -> Vec<Group> {
    (0..k)
        .map(|_| {
            let c = rng.features();
            let n = rng.below(30) as usize;
            let entries: Vec<(Vector, u8)> =
                (0..n).map(|_| (rng.near(&c), rng.below(2) as u8)).collect();
            group(c, &entries)
        })
        .collect()
}

#[test]
fn exhaustive_query_finds_the_five_nearest() {
    let mut rng = Random(1);
    for k in [1, 7, 8, 13, 40] {
        let groups = random_groups(&mut rng, k);
        let data = file(&groups);
        let idx = IvfIndex::open(&data).unwrap();
        for _ in 0..20 {
            let q = rng.features();
            let mut all: Vec<u64> = Vec::new();
            for g in &groups {
                for (v, _) in &g.entries {
                    all.push(dist(&q, v));
                }
            }
            all.sort();
            let worst = if all.len() < 5 { u64::MAX } else { all[4] };
            assert_eq!(idx.query_topn(&q, 64).final_worst, worst);
        }
    }
}

#[test]
fn one_probe_is_the_nearest_cluster() {
    let mut rng = Random(5);
    let groups = random_groups(&mut rng, 29);
    let data = file(&groups);
    let idx = IvfIndex::open(&data).unwrap();
    for _ in 0..50 {
        let q = rng.features();
        assert_eq!(idx.query_topn(&q, 1), idx.query_top1(&q));
    }
}

#[test]
fn probes_beyond_the_cap_change_nothing() {
    let mut rng = Random(11);
    for k in [0, 3, 40, 70] {
        let data = file(&random_groups(&mut rng, k));
        let idx = IvfIndex::open(&data).unwrap();
        for _ in 0..10 {
            let q = rng.features();
            for nprobe in [0, 1, 5, 64, 65, 100, usize::MAX] {
                let n = nprobe.min(64).min(k);
                assert_eq!(idx.query_topn(&q, nprobe), idx.query_topn(&q, n));
            }
        }
    }
}

#[test]
fn more_probes_come_closer() {
    let mut rng = Random(13);
    let data = file(&random_groups(&mut rng, 30));
    let idx = IvfIndex::open(&data).unwrap();
    for _ in 0..20 {
        let q = rng.features();
        let mut worst = u64::MAX;
        for nprobe in 0..31 {
            let now = idx.query_topn(&q, nprobe).final_worst;
            assert!(now <= worst);
            worst = now;
        }
    }
}

#[test]
fn lanes_measure_as_scalars_do() {
    let mut rng = Random(17);
    let data = file(&random_groups(&mut rng, 24));
    let idx = IvfIndex::open(&data).unwrap();
    for base in [0, 5, 16] {
        let q = rng.features();
        let lanes = idx.dist8(&q, base);
        for lane in 0..8 {
            assert_eq!(lanes[lane] as u64, idx.centroid_dist_scalar(&q, base + lane));
        }
    }
}

fn config(nprobe: usize, fast_nprobe: usize) -> Config {
    Config { nprobe, fast_nprobe, adapt_min: 2, adapt_max: 4, thr0: 0, thr1: 0, thr5: 0, thr_any: 0 }
}

/// The nearest cluster to the origin holds `near`, the next one five frauds
/// that are nearer still.
fn two_clusters(near: [u8; 5]) -> Vec<u8> {
    file(&[group(at(10), &five(10, near)), group(at(30), &five(1, [1, 1, 1, 1, 1]))])
}

#[test]
fn settings_have_defaults() {
    let cfg = Config::default();
    assert_eq!(cfg.nprobe, 64);
    assert_eq!(cfg.fast_nprobe, 4);
    assert_eq!(cfg.adapt_min, 2);
    assert_eq!(cfg.adapt_max, 4);
    assert_eq!(cfg.thr0, 3501932);
    assert_eq!(cfg.thr1, 3569273);
    assert_eq!(cfg.thr5, 4594089);
    assert_eq!(cfg.thr_any, 0);
}

#[test]
fn clear_counts_are_settled_by_the_fast_query() {
    let data = two_clusters([0, 0, 0, 0, 0]);
    let idx = IvfIndex::open(&data).unwrap();
    assert_eq!(do_search(&idx, &config(2, 1), &at(0)), 0);
    let data = two_clusters([1, 0, 0, 0, 0]);
    let idx = IvfIndex::open(&data).unwrap();
    assert_eq!(do_search(&idx, &config(2, 1), &at(0)), 1);
}

#[test]
fn unclear_counts_are_searched_again() {
    for near in [[1, 1, 0, 0, 0], [1, 1, 1, 0, 0], [1, 1, 1, 1, 0]] {
        let data = two_clusters(near);
        let idx = IvfIndex::open(&data).unwrap();
        assert_eq!(do_search(&idx, &config(2, 1), &at(0)), 5);
    }
}

#[test]
fn without_fast_query_the_thorough_one_counts() {
    let data = two_clusters([0, 0, 0, 0, 0]);
    let idx = IvfIndex::open(&data).unwrap();
    assert_eq!(do_search(&idx, &config(2, 0), &at(0)), 5);
    assert_eq!(do_search(&idx, &config(2, 2), &at(0)), 5);
    assert_eq!(do_search(&idx, &config(2, 3), &at(0)), 5);
    assert_eq!(do_search(&idx, &config(1, 1), &at(0)), 0);
}

#[test]
fn fast_query_may_probe_several_clusters() {
    let data = two_clusters([0, 0, 0, 0, 0]);
    let idx = IvfIndex::open(&data).unwrap();
    assert_eq!(do_search(&idx, &config(3, 2), &at(0)), 5);
}

#[test]
fn doubtful_distances_are_searched_again() {
    let q = at(0);
    let worst = 14 * 14;
    let data = two_clusters([0, 0, 0, 0, 0]);
    let idx = IvfIndex::open(&data).unwrap();
    let mut cfg = config(2, 1);
    cfg.thr0 = worst;
    assert_eq!(do_search(&idx, &cfg, &q), 5);
    cfg.thr0 = worst + 1;
    assert_eq!(do_search(&idx, &cfg, &q), 0);
    cfg.thr1 = 1;
    cfg.thr5 = 1;
    assert_eq!(do_search(&idx, &cfg, &q), 0);
    cfg.thr_any = worst + 1;
    assert_eq!(do_search(&idx, &cfg, &q), 0);
    cfg.thr_any = worst;
    assert_eq!(do_search(&idx, &cfg, &q), 5);
    let data = two_clusters([0, 1, 0, 0, 0]);
    let idx = IvfIndex::open(&data).unwrap();
    let mut cfg = config(2, 1);
    cfg.thr0 = 1;
    cfg.thr5 = 1;
    assert_eq!(do_search(&idx, &cfg, &q), 1);
    cfg.thr1 = worst;
    assert_eq!(do_search(&idx, &cfg, &q), 5);
}

#[test]
fn five_frauds_are_doubted_by_their_own_threshold() {
    let data = file(&[
        group(at(10), &five(10, [1, 1, 1, 1, 1])),
        group(at(30), &five(1, [0, 0, 0, 0, 0])),
    ]);
    let idx = IvfIndex::open(&data).unwrap();
    let mut cfg = config(2, 1);
    cfg.thr0 = 1;
    cfg.thr1 = 1;
    assert_eq!(do_search(&idx, &cfg, &at(0)), 5);
    cfg.thr5 = 14 * 14;
    assert_eq!(do_search(&idx, &cfg, &at(0)), 0);
}

#[test]
fn counts_are_capped_at_five() {
    let data = file(&[group(at(0), &five(0, [2, 2, 2, 2, 2]))]);
    let idx = IvfIndex::open(&data).unwrap();
    assert_eq!(idx.query_top1(&at(0)).fraud, 10);
    assert_eq!(do_search(&idx, &config(1, 0), &at(0)), 5);
    assert_eq!(try_search(&idx, &config(2, 1), &at(0)), Some(5));
}

#[test]
fn labels_beyond_a_byte_have_no_count() {
    let data = file(&[group(at(0), &five(0, [255, 1, 0, 0, 0]))]);
    let idx = IvfIndex::open(&data).unwrap();
    assert_eq!(try_search(&idx, &config(1, 0), &at(0)), None);
    assert_eq!(idx.probe_top1(&at(0)).unwrap().label_total(), 256);
    assert_eq!(idx.probe_topn(&at(0), 1).unwrap().label_total(), 256);
}

#[test]
fn empty_index_is_searched_thoroughly_only() {
    let data = file(&[]);
    let idx = IvfIndex::open(&data).unwrap();
    assert_eq!(try_search(&idx, &config(2, 1), &at(0)), None);
    assert_eq!(try_search(&idx, &config(3, 2), &at(0)), Some(0));
    assert_eq!(try_search(&idx, &config(2, 0), &at(0)), Some(0));
}

#[test]
fn labelled_frauds_always_have_a_count() {
    let mut rng = Random(9);
    let groups = random_groups(&mut rng, 20);
    let data = file(&groups);
    let idx = IvfIndex::open(&data).unwrap();
    for _ in 0..30 {
        let q = rng.features();
        let count = try_search(&idx, &Config::default(), &q).unwrap();
        assert!(count <= 5);
        assert_eq!(do_search(&idx, &Config::default(), &q), count);
    }
}

const BODY: &str = r#"{"transaction":{"amount":0,"installments":0,"requested_at":"2026-03-02T00:00:00Z"},"customer":{"avg_amount":1,"tx_count_24h":0,"known_merchants":["M"]},"merchant":{"id":"M","mcc":"5411","avg_amount":0},"terminal":{"is_online":false,"card_present":false,"km_from_home":0},"last_transaction":null}"#;

#[test]
fn score_searches_for_the_vector_of_the_request() {
    let numbers = Quantised {
        amount: 1,
        installments: 2,
        amount_ratio: 3,
        km_from_last: 4,
        km_from_home: 5,
        tx_count: 6,
        merchant_avg: 7,
    };
    let v = [1, 2, 3, 0, 0, -10000, -10000, 5, 6, 0, 0, 0, 1500, 7];
    let mut other = v;
    other[11] = 10000;
    let data = file(&[group(v, &[(v, 1); 5]), group(other, &[(other, 0); 5])]);
    let idx = IvfIndex::open(&data).unwrap();
    let cfg = config(1, 0);
    let tx = extract(BODY.as_bytes()).unwrap();
    assert_eq!(score(&idx, &cfg, &tx, &numbers), Some(5));
    let body = BODY.replace("[\"M\"]", "[]");
    let tx = extract(body.as_bytes()).unwrap();
    assert_eq!(score(&idx, &cfg, &tx, &numbers), Some(0));
    let body = BODY.replace("2026-03-02", "2026-04-:0");
    let tx = extract(body.as_bytes()).unwrap();
    assert_eq!(score(&idx, &cfg, &tx, &numbers), Some(5));
    let body = BODY.replace("2026-03-02", "2026-13-02");
    let tx = extract(body.as_bytes()).unwrap();
    assert_eq!(score(&idx, &cfg, &tx, &numbers), None);
}
