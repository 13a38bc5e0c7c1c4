use rinha::accuracy::{brute_force_top5, count_frauds, sample_position, Tally};
use rinha::dataset::{
    DatasetMeta, LoadedDataset, ReferenceLabel, BLOCK_SIZE, FORMAT_VERSION,
};
use rinha::distance::{l2_16dims, lower_bound_l2_i16, squared_l2_i16, VECTOR_DIMENSIONS};
use rinha::index::{baseline_search_top_k, scan_partition, SearchIndex};
use rinha::nearest::insertion_sort;
use rinha::partition::{
    partition_key_from_i16, sort_key_for_vector, PARTITION_COUNT, QUANTIZATION_SCALE,
};
use rinha::sorting::sorted_positions;
use rinha::topk::TopK;

fn offsets_with_first_bucket(value: u64) -> Vec<u64> {
    let mut offsets = vec![0; PARTITION_COUNT + 1];
    for offset in offsets.iter_mut().skip(1) {
        *offset = value;
    }
    offsets
}

fn meta(total: u64, fraud: u64, blocks: u64) -> DatasetMeta {
    DatasetMeta {
        version: FORMAT_VERSION,
        dimensions: 14,
        total_vectors: total,
        fraud_vectors: fraud,
        legit_vectors: total - fraud,
        vectors_f32_path: "vectors-f32.bin".into(),
        vectors_fp16_path: "vectors-fp16.bin".into(),
        vectors_i16_path: "vectors-i16.bin".into(),
        block_bounds_i16_path: "block-bounds-i16.bin".into(),
        labels_path: "labels.bin".into(),
        quantization_scale: QUANTIZATION_SCALE,
        partition_offsets: offsets_with_first_bucket(total),
        partition_block_offsets: offsets_with_first_bucket(blocks),
        block_size: BLOCK_SIZE,
    }
}

fn quantize(value: f32) -> i16 {
    (value * QUANTIZATION_SCALE as f32).round() as i16
}

fn block_bounds_fixture() -> Vec<i16> {
    let min = [0i16; 14];
    let mut max = [0i16; 14];
    max[0] = quantize(0.4);
    min.into_iter().chain(max).collect()
}

fn five_vectors() -> LoadedDataset {
    let mut vectors = Vec::new();
    for first in [0.0f32, 0.1, 0.2, 0.3, 0.4] {
        vectors.push(quantize(first));
        for _ in 1..14 {
            vectors.push(0);
        }
    }
    LoadedDataset::from_owned(
        meta(5, 2, 1),
        vectors,
        block_bounds_fixture(),
        vec![
            ReferenceLabel::Legit,
            ReferenceLabel::Fraud,
            ReferenceLabel::Fraud,
            ReferenceLabel::Legit,
            ReferenceLabel::Legit,
        ],
    )
}

#[test]
fn computes_top_k_and_fraud_score() {
    let index = SearchIndex::new(five_vectors());
    let query = [0i16; 14];

    let hits = index.search_top_k(&query, 5);

    assert_eq!(hits.len(), 5);
    assert_eq!(hits[0].label, ReferenceLabel::Legit);
    assert_eq!(index.fraud_votes(&query) as f64 / 5.0, 0.4);
}

#[test]
fn fewer_neighbours_are_the_nearest_ones() {
    let index = SearchIndex::new(five_vectors());
    assert!(index.is_ready());
    assert!(index.is_consistent());
    let mut query = [0i16; 14];
    query[0] = 1100;

    let hits = index.search_top_k(&query, 2);

    assert_eq!(hits.len(), 2);
    assert_eq!(hits[0].distance, 100 * 100);
    assert_eq!(hits[0].label, ReferenceLabel::Fraud);
    assert_eq!(hits[1].distance, 900 * 900);
    assert_eq!(hits[1].label, ReferenceLabel::Fraud);
}

#[test]
fn short_partition_keeps_the_order_of_positions() {
    let dataset = five_vectors();
    let mut query = [0i16; 14];
    query[0] = 4000;
    let hits = scan_partition(&dataset, &query, 0, 9);
    let distances: Vec<i64> = hits.iter().map(|hit| hit.distance).collect();
    assert_eq!(distances, vec![16_000_000, 9_000_000, 4_000_000, 1_000_000, 0]);
    assert_eq!(scan_partition(&dataset, &query, 7, 5).len(), 0);
}

/// Two blocks; the second lies far away and is left out.
fn two_blocks(far: i16, bounds_of_far: i16) -> LoadedDataset {
    let mut vectors = Vec::new();
    let mut labels = Vec::new();
    for i in 0..70i16 {
        let first = if i < 64 { i } else { far };
        vectors.push(first);
        vectors.extend_from_slice(&[0i16; 13]);
        labels.push(if i % 3 == 0 { ReferenceLabel::Fraud } else { ReferenceLabel::Legit });
    }
    let mut bounds = vec![0i16; 14];
    let mut max = vec![0i16; 14];
    max[0] = 63;
    bounds.extend(max);
    let mut low = vec![0i16; 14];
    low[0] = bounds_of_far;
    bounds.extend(low.clone());
    bounds.extend(low);
    LoadedDataset::from_owned(meta(70, 24, 2), vectors, bounds, labels)
}

#[test]
fn pruned_search_finds_what_a_full_search_finds() {
    let dataset = two_blocks(1000, 1000);
    assert!(dataset.is_consistent());
    for first in [0i16, 5, 40, 63, 500, 900] {
        let mut query = [0i16; 14];
        query[0] = first;
        let hits = baseline_search_top_k(&dataset, &query, 5);
        let all = brute_force_top5(&dataset, &query, 70);
        for i in 0..5 {
            assert_eq!(hits[i].distance, all[i].0);
            assert_eq!(hits[i].label.to_byte(), all[i].1);
        }
    }
}

#[test]
fn blocks_behind_the_bound_are_not_looked_at() {
    // The bounds say that the second block is far, though its vectors are not.
    let dataset = two_blocks(0, 1000);
    let query = [0i16; 14];
    let hits = baseline_search_top_k(&dataset, &query, 5);
    let distances: Vec<i64> = hits.iter().map(|hit| hit.distance).collect();
    assert_eq!(distances, vec![0, 1, 4, 9, 16]);
}

#[test]
fn brute_force_fills_up_with_nobody() {
    let dataset = five_vectors();
    let query = [0i16; 14];
    let top = brute_force_top5(&dataset, &query, 2);
    assert_eq!(
        top,
        vec![(0, 0), (1_000_000, 1), (i64::MAX, 0), (i64::MAX, 0), (i64::MAX, 0)]
    );
    assert_eq!(count_frauds(&top), 1);
    assert_eq!(count_frauds(&brute_force_top5(&dataset, &query, 5)), 2);
}

#[test]
fn tally_counts_mismatches() {
    let mut tally = Tally::new();
    tally.record(3, 2);
    tally.record(2, 3);
    tally.record(4, 3);
    tally.record(1, 1);
    assert_eq!(tally.queries, 4);
    assert_eq!(tally.mismatches, 2);
    assert_eq!(tally.equal_votes, 1);
    assert_eq!(tally.exact_votes, 10);
    assert_eq!(tally.index_votes, 9);
    assert_eq!(sample_position(3, 10), 37);
}

#[test]
fn distances_are_sums_of_squares() {
    let a = [1i16; VECTOR_DIMENSIONS];
    let b = [-2i16; VECTOR_DIMENSIONS];
    assert_eq!(squared_l2_i16(&a, &b), 9 * 14);
    let low = [i16::MIN; VECTOR_DIMENSIONS];
    let high = [i16::MAX; VECTOR_DIMENSIONS];
    assert_eq!(squared_l2_i16(&low, &high), 65535i64 * 65535 * 14);
    let mut wide_a = [3i16; 16];
    let mut wide_b = [0i16; 16];
    wide_a[14] = 0;
    wide_a[15] = 0;
    wide_b[0] = 10_000;
    assert_eq!(l2_16dims(&wide_a, &wide_b), 9 * 13 + 9997 * 9997);
    assert_eq!(l2_16dims(&[20_000i16; 16], &[-20_000i16; 16]), 16 * 1_600_000_000);
}

#[test]
fn padding_keeps_distances() {
    let a: [i16; VECTOR_DIMENSIONS] = [9, -8, 7, -6, 5, -4, 3, -2, 1, 0, 100, -200, 300, -400];
    let b: [i16; VECTOR_DIMENSIONS] = [1; VECTOR_DIMENSIONS];
    let mut wide_a = [0i16; 16];
    let mut wide_b = [0i16; 16];
    wide_a[..VECTOR_DIMENSIONS].copy_from_slice(&a);
    wide_b[..VECTOR_DIMENSIONS].copy_from_slice(&b);
    assert_eq!(l2_16dims(&wide_a, &wide_b), squared_l2_i16(&a, &b));
}

#[test]
fn box_distance_is_zero_inside() {
    let mut query = [5i16; VECTOR_DIMENSIONS];
    let min = [0i16; VECTOR_DIMENSIONS];
    let max = [10i16; VECTOR_DIMENSIONS];
    assert_eq!(lower_bound_l2_i16(&query, &min, &max), 0);
    query[0] = -3;
    query[1] = 14;
    assert_eq!(lower_bound_l2_i16(&query, &min, &max), 9 + 16);
    assert!(lower_bound_l2_i16(&query, &min, &max) <= squared_l2_i16(&query, &max));
}

#[test]
fn partition_key_takes_one_bit_from_each_chosen_coordinate() {
    let mut v = [0i16; VECTOR_DIMENSIONS];
    assert_eq!(partition_key_from_i16(&v), 0);
    v[0] = 5_000;
    assert_eq!(partition_key_from_i16(&v), 0);
    v[0] = 5_001;
    assert_eq!(partition_key_from_i16(&v), 1);
    v[12] = 10_000;
    v[4] = 10_000;
    v[5] = 10_000;
    assert_eq!(partition_key_from_i16(&v), 1 + 8 + 128);
    assert_eq!(partition_key_from_i16(&[10_000; VECTOR_DIMENSIONS]), 255);
}

#[test]
fn sort_key_orders_by_the_last_four_chosen_coordinates() {
    let mut a = [0i16; VECTOR_DIMENSIONS];
    let mut b = [0i16; VECTOR_DIMENSIONS];
    assert_eq!(sort_key_for_vector(&a), 0x8000_8000_8000_8000);
    a[0] = 100;
    assert_eq!(sort_key_for_vector(&a), sort_key_for_vector(&b));
    a[4] = 1;
    b[8] = 1;
    assert!(sort_key_for_vector(&a) < sort_key_for_vector(&b));
    assert_eq!(sort_key_for_vector(&[i16::MIN; VECTOR_DIMENSIONS]), 0);
}

#[test]
fn top_five_are_kept() {
    let mut top = TopK::new();
    for (i, dist) in [50i64, 40, 30, 20, 10, 60, 35, 10].iter().enumerate() {
        top.push(*dist, i as u32);
    }
    assert_eq!(top.len(), 5);
    let kept: Vec<u32> = (0..5).map(|i| top.index(i)).collect();
    assert_eq!(kept, vec![4, 7, 3, 2, 6]);
}

#[test]
fn sorts_are_stable() {
    let mut entries = vec![(3i64, 'a'), (1, 'b'), (3, 'c'), (2, 'd'), (1, 'e')];
    insertion_sort(&mut entries);
    assert_eq!(entries, vec![(1, 'b'), (1, 'e'), (2, 'd'), (3, 'a'), (3, 'c')]);
    assert_eq!(sorted_positions(&[7, 3, 7, 1, 3]), vec![3, 1, 4, 0, 2]);
    assert_eq!(sorted_positions(&[]), Vec::<usize>::new());
}
