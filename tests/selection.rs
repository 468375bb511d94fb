use nearest_heap::candidate::ScoredCandidate;
use nearest_heap::gpu_heap::{round_up_to_lanes, GpuHeapError, GpuNearestHeap, NearestHeapParams};
use nearest_heap::heap::{select_top, NearestHeap};
use nearest_heap::indexing_mode::{
    get_gpu_indexing, get_gpu_max_groups_count, set_gpu_indexing, set_gpu_max_groups_count,
    GpuIndexingConfig, GPU_MAX_GROUPS_COUNT_DEFAULT,
};
use rand::rngs::StdRng;
use rand::{Rng, SeedableRng};

/// Order-preserving map from a float score to the library's integer key.
fn score_key(score: f32) -> i32 {
    let bits = score.to_bits() as i32;
    if bits < 0 {
        bits ^ 0x7fff_ffff
    } else {
        bits
    }
}

fn key_score(key: i32) -> f32 {
    let bits = if key < 0 { key ^ 0x7fff_ffff } else { key };
    f32::from_bits(bits as u32)
}

fn c(offset: u32, score: i32) -> ScoredCandidate {
    ScoredCandidate::new(offset, score)
}

fn scores(v: &[ScoredCandidate]) -> Vec<i32> {
    v.iter().map(|x| x.score).collect()
}

/// Sort by the selection order, drop repeats, keep the first `ef`.
fn naive_top(ef: usize, stream: &[ScoredCandidate]) -> Vec<ScoredCandidate> {
    let mut all: Vec<ScoredCandidate> = stream.to_vec();
    all.sort_by(|a, b| b.score.cmp(&a.score).then(a.offset.cmp(&b.offset)));
    all.dedup();
    all.truncate(ef);
    all
}

#[test]
fn test_gpu_nearest_heap() {
    let ef = 100;
    let points_count = 1024;
    let groups_count = 8;
    let inputs_count = points_count;
    let lane_width = 32;

    let mut rng = StdRng::seed_from_u64(41);
    let inputs_data: Vec<(u32, f32)> = (0..inputs_count * groups_count)
        .map(|i| (i as u32, rng.gen_range(-1.0..1.0)))
        .collect();

    let threads_count = lane_width * groups_count;
    let gpu_nearest_heap = GpuNearestHeap::new(lane_width, threads_count, ef).unwrap();
    assert_eq!(gpu_nearest_heap.capacity, 128);
    assert_eq!(gpu_nearest_heap.groups_count, groups_count);

    let streams: Vec<Vec<ScoredCandidate>> = (0..groups_count)
        .map(|group| {
            inputs_data[group * inputs_count..(group + 1) * inputs_count]
                .iter()
                .map(|&(idx, score)| c(idx, score_key(score)))
                .collect()
        })
        .collect();
    let gpu_output = gpu_nearest_heap.dispatch(&streams).unwrap();

    for group in 0..groups_count {
        let mut queue = NearestHeap::new(ef);
        for i in 0..inputs_count {
            queue.push(streams[group][i]);
        }
        let sorted_cpu = queue.drain_sorted();
        assert_eq!(sorted_cpu.len(), ef);
        assert_eq!(gpu_output[group].len(), ef);
        for i in 0..ef {
            assert_eq!(gpu_output[group][i].offset, sorted_cpu[i].offset);
            let gpu_score = key_score(gpu_output[group][i].score);
            let cpu_score = key_score(sorted_cpu[i].score);
            assert!((gpu_score - cpu_score).abs() < 1e-6);
        }
        assert_eq!(gpu_output[group], sorted_cpu);
        assert_eq!(sorted_cpu, naive_top(ef, &streams[group]));
    }
}

#[test]
fn single_slot_keeps_highest() {
    let stream: Vec<ScoredCandidate> = (0..50u32).map(|i| c(i, ((i * 37) % 50) as i32)).collect();
    let heap = GpuNearestHeap::new(32, 32, 1).unwrap();
    let out = heap.dispatch(&vec![stream.clone()]).unwrap();
    assert_eq!(out.len(), 1);
    assert_eq!(out[0], vec![c(stream.iter().position(|x| x.score == 49).unwrap() as u32, 49)]);
}

#[test]
fn two_groups_one_empty() {
    let a: Vec<ScoredCandidate> = [5, 3, 8, 1, 9, 2, 7, 4, 6, 0, -1]
        .iter()
        .enumerate()
        .map(|(i, &s)| c(i as u32, s))
        .collect();
    let heap = GpuNearestHeap::new(32, 64, 10).unwrap();
    let out = heap.dispatch(&vec![a, Vec::new()]).unwrap();
    assert_eq!(scores(&out[0]), vec![9, 8, 7, 6, 5, 4, 3, 2, 1, 0]);
    assert!(out[1].is_empty());
}

#[test]
fn lane_mismatch_is_configuration_error() {
    assert_eq!(GpuNearestHeap::new(32, 50, 100).err(), Some(GpuHeapError::LaneMismatch));
}

#[test]
fn other_configuration_errors() {
    assert_eq!(GpuNearestHeap::new(0, 64, 10).err(), Some(GpuHeapError::ZeroLaneWidth));
    assert_eq!(GpuNearestHeap::new(32, 64, 0).err(), Some(GpuHeapError::ZeroEf));
    assert_eq!(
        GpuNearestHeap::new(1, 1, u32::MAX as usize + 1).err(),
        Some(GpuHeapError::TooLarge)
    );
    assert_eq!(GpuNearestHeap::new(32, 32 * 4, usize::MAX).err(), Some(GpuHeapError::TooLarge));
}

#[test]
fn too_many_groups_fails_whole_batch() {
    let heap = GpuNearestHeap::new(32, 64, 4).unwrap();
    let streams = vec![vec![c(1, 1)], vec![c(2, 2)], vec![c(3, 3)]];
    assert_eq!(heap.dispatch(&streams).err(), Some(GpuHeapError::TooManyGroups));
}

#[test]
fn rounded_capacity_values() {
    let cases = [(100, 32, 128), (64, 32, 64), (1, 32, 32), (33, 32, 64), (7, 1, 7), (10, 4, 12)];
    for &(ef, lane, expected) in cases.iter() {
        let heap = GpuNearestHeap::new(lane, lane * 2, ef).unwrap();
        assert_eq!(heap.capacity, expected);
        assert_eq!(heap.capacity % lane, 0);
        assert!(heap.capacity >= ef && heap.capacity - lane < ef);
        assert_eq!(heap.params, NearestHeapParams { capacity: expected as u32, ef: ef as u32 });
        assert_eq!(heap.nearest_buffer_size, expected * 2 * 8);
        assert_eq!(heap.params_buffer_size, 8);
    }
}

#[test]
fn params_block_bytes() {
    let p = NearestHeapParams { capacity: 0x0102_0304, ef: 100 };
    assert_eq!(p.to_bytes(), vec![4, 3, 2, 1, 100, 0, 0, 0]);
}

#[test]
fn read_group_takes_stride() {
    let heap = GpuNearestHeap::new(2, 4, 3).unwrap();
    assert_eq!(heap.capacity, 4);
    let region: Vec<ScoredCandidate> = (0..8u32).map(|i| c(i, i as i32 * 10)).collect();
    assert_eq!(heap.group_start(1), 4);
    assert_eq!(heap.read_group(&region, 1, 10), vec![c(4, 40), c(5, 50), c(6, 60)]);
    assert_eq!(heap.read_group(&region, 0, 2), vec![c(0, 0), c(1, 10)]);
    assert!(heap.read_group(&region, 1, 0).is_empty());
}

#[test]
fn push_order_does_not_matter() {
    let base: Vec<ScoredCandidate> =
        (0..40u32).map(|i| c(i, ((i * 7919) % 23) as i32 - 11)).collect();
    let mut reversed = base.clone();
    reversed.reverse();
    let mut shuffled = base.clone();
    let mut rng = StdRng::seed_from_u64(7);
    for i in (1..shuffled.len()).rev() {
        let j = rng.gen_range(0..=i);
        shuffled.swap(i, j);
    }
    let expected = naive_top(9, &base);
    assert_eq!(select_top(9, &base), expected);
    assert_eq!(select_top(9, &reversed), expected);
    assert_eq!(select_top(9, &shuffled), expected);
}

#[test]
fn repeats_counted_once() {
    let stream = vec![c(1, 5), c(1, 5), c(2, 3), c(2, 3), c(3, 1)];
    assert_eq!(select_top(10, &stream), vec![c(1, 5), c(2, 3), c(3, 1)]);
    assert_eq!(select_top(2, &stream), vec![c(1, 5), c(2, 3)]);
    assert!(select_top(0, &stream).is_empty());
    assert!(select_top(3, &Vec::new()).is_empty());
}

#[test]
fn equal_scores_break_by_offset() {
    let stream = vec![c(9, 4), c(3, 4), c(7, 4), c(1, 2), c(5, 4)];
    assert_eq!(select_top(3, &stream), vec![c(3, 4), c(5, 4), c(7, 4)]);
    let mut heap = NearestHeap::new(1);
    heap.push(c(5, 1));
    heap.push(c(3, 1));
    assert_eq!(heap.drain_sorted(), vec![c(3, 1)]);
}

#[test]
fn worst_is_stable_between_pushes() {
    let mut heap = NearestHeap::new(3);
    assert_eq!(heap.worst(), None);
    heap.push(c(1, 10));
    heap.push(c(2, 30));
    assert_eq!(heap.worst(), None);
    assert_eq!(heap.worst(), None);
    heap.push(c(3, 20));
    let first = heap.worst();
    assert_eq!(first, Some(10));
    assert_eq!(heap.worst(), first);
    assert_eq!(heap.worst(), first);
    heap.push(c(4, 25));
    assert_eq!(heap.worst(), Some(20));
    assert_eq!(heap.worst(), Some(20));
}

#[test]
fn below_worst_leaves_set_unchanged() {
    let mut heap = NearestHeap::new(2);
    heap.push(c(1, 10));
    heap.push(c(2, 20));
    heap.push(c(3, 5));
    assert_eq!(heap.len(), 2);
    assert_eq!(heap.ef(), 2);
    assert_eq!(heap.drain_sorted(), vec![c(2, 20), c(1, 10)]);
}

#[test]
fn candidate_order() {
    assert!(c(5, 2).ranks_above(&c(1, 1)));
    assert!(c(1, 2).ranks_above(&c(5, 2)));
    assert!(!c(5, 2).ranks_above(&c(5, 2)));
    assert!(c(5, 2).same_as(&c(5, 2)));
    assert!(!c(5, 2).same_as(&c(4, 2)));
}

#[test]
fn indexing_mode_switches() {
    let mut config = GpuIndexingConfig::new();
    assert!(!get_gpu_indexing(&config));
    assert_eq!(get_gpu_max_groups_count(&config), GPU_MAX_GROUPS_COUNT_DEFAULT);
    assert_eq!(GPU_MAX_GROUPS_COUNT_DEFAULT, 256);
    set_gpu_indexing(&mut config, true);
    assert!(get_gpu_indexing(&config));
    assert_eq!(get_gpu_max_groups_count(&config), 256);
    set_gpu_max_groups_count(&mut config, 16);
    assert_eq!(get_gpu_max_groups_count(&config), 16);
    assert!(get_gpu_indexing(&config));
    assert_eq!(GpuIndexingConfig::default(), GpuIndexingConfig::new());
}

#[test]
fn round_up_values() {
    assert_eq!(round_up_to_lanes(100, 32), Some(128));
    assert_eq!(round_up_to_lanes(96, 32), Some(96));
    assert_eq!(round_up_to_lanes(0, 32), Some(0));
    assert_eq!(round_up_to_lanes(5, 3), Some(6));
    assert_eq!(round_up_to_lanes(usize::MAX, 2), None);
    assert_eq!(round_up_to_lanes(usize::MAX, 1), Some(usize::MAX));
}

#[test]
fn layout_consistency_check() {
    let mut heap = GpuNearestHeap::new(32, 256, 100).unwrap();
    assert!(heap.is_well_formed());
    heap.capacity = 100;
    assert!(!heap.is_well_formed());
    let mut heap = GpuNearestHeap::new(32, 256, 100).unwrap();
    heap.groups_count = 9;
    assert!(!heap.is_well_formed());
}

#[test]
fn candidate_keys_follow_rank() {
    let samples = [
        c(0, i32::MIN),
        c(u32::MAX, i32::MIN),
        c(0, -1),
        c(7, 0),
        c(3, 0),
        c(u32::MAX, i32::MAX),
        c(0, i32::MAX),
    ];
    for a in samples.iter() {
        assert_eq!(ScoredCandidate::from_key(a.key()), *a);
        for b in samples.iter() {
            assert_eq!(a.ranks_above(b), a.key() > b.key());
        }
    }
    assert_eq!(c(u32::MAX, i32::MIN).key(), 0);
    assert_eq!(c(0, i32::MAX).key(), u64::MAX);
    assert_eq!(c(5, 0).key(), 0x8000_0000u64 * 0x1_0000_0000 + (0xffff_ffff - 5));
}

#[test]
fn full_set_evicts_worst() {
    let mut heap = NearestHeap::new(3);
    for (i, s) in [4, 9, 1, 7, 3, 8].iter().enumerate() {
        heap.push(c(i as u32, *s));
    }
    assert_eq!(heap.len(), 3);
    assert_eq!(heap.worst(), Some(7));
    assert_eq!(heap.drain_sorted(), vec![c(1, 9), c(5, 8), c(3, 7)]);
}
