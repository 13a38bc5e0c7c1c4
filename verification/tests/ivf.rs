use rinha::accuracy::{brute_force_top5, compare, count_frauds};
use rinha::dataset::{DatasetMeta, LoadedDataset, ReferenceLabel, BLOCK_SIZE, FORMAT_VERSION};
use rinha::distance::DIMS_PADDED;
use rinha::ivf::{IvfIndex, NLIST, NPROBE};
use rinha::ivf_build::{build_ivf, is_indexable, IvfFiles};
use rinha::partition::QUANTIZATION_SCALE;

fn dataset(vectors: Vec<[i16; 14]>, labels: Vec<ReferenceLabel>) -> LoadedDataset {
    let total = vectors.len() as u64;
    let meta = DatasetMeta {
        version: FORMAT_VERSION,
        dimensions: 14,
        total_vectors: total,
        fraud_vectors: 0,
        legit_vectors: total,
        vectors_f32_path: String::new(),
        vectors_fp16_path: String::new(),
        vectors_i16_path: String::new(),
        block_bounds_i16_path: String::new(),
        labels_path: String::new(),
        quantization_scale: QUANTIZATION_SCALE,
        partition_offsets: Vec::new(),
        partition_block_offsets: Vec::new(),
        block_size: BLOCK_SIZE,
    };
    LoadedDataset::from_owned(meta, vectors.concat(), Vec::new(), labels)
}

fn line(count: i16) -> LoadedDataset {
    let mut vectors = Vec::new();
    let mut labels = Vec::new();
    for i in 0..count {
        let mut v = [0i16; 14];
        v[0] = 100 * i;
        v[3] = -i;
        vectors.push(v);
        labels.push(if i % 2 == 1 { ReferenceLabel::Fraud } else { ReferenceLabel::Legit });
    }
    dataset(vectors, labels)
}

fn numbers(bytes: &[u8]) -> Vec<i16> {
    bytes.chunks(2).map(|pair| i16::from_le_bytes([pair[0], pair[1]])).collect()
}

fn offsets(files: &IvfFiles) -> Vec<u32> {
    files
        .offsets
        .chunks(4)
        .map(|word| u32::from_le_bytes([word[0], word[1], word[2], word[3]]))
        .collect()
}

fn index(files: &IvfFiles) -> IvfIndex<'_> {
    IvfIndex::load(&files.centroids, &files.vectors, &files.labels, &files.offsets)
}

#[test]
fn built_index_holds_every_vector_once() {
    let data = line(12);
    assert!(is_indexable(&data));
    let files = build_ivf(&data);
    assert_eq!(files.centroids.len(), NLIST * DIMS_PADDED * 2);
    assert_eq!(files.vectors.len(), 12 * DIMS_PADDED * 2);
    assert_eq!(files.labels.len(), 12);
    assert_eq!(files.offsets.len(), (NLIST + 1) * 4);
    let table = offsets(&files);
    assert_eq!(table[0], 0);
    assert_eq!(table[NLIST], 12);
    assert!(table.windows(2).all(|pair| pair[0] <= pair[1]));

    let values = numbers(&files.vectors);
    let mut seen = vec![0; 12];
    for j in 0..12 {
        let row = &values[16 * j..16 * j + 16];
        let i = (row[0] / 100) as usize;
        seen[i] += 1;
        assert_eq!(row[3], -(i as i16));
        assert_eq!(row[14..16], [0, 0]);
        assert_eq!(files.labels[j], (i % 2) as u8);
    }
    assert_eq!(seen, vec![1; 12]);
}

#[test]
fn first_round_moves_the_only_centroid_to_the_mean() {
    // Every centroid starts at the first vector, so the first cell takes all vectors and
    // its centroid moves to their mean, rounded towards zero.
    let mut low = [0i16; 14];
    low[0] = -7;
    let data = dataset(vec![low, low, [0; 14]], vec![ReferenceLabel::Legit; 3]);
    let files = build_ivf(&data);
    let centroids = numbers(&files.centroids);
    assert_eq!(offsets(&files)[1], 1);
    assert_eq!(centroids[0], 0);
    assert_eq!(centroids[16], -7);
    assert_eq!(centroids[16 * (NLIST - 1)], -7);
}

#[test]
fn index_answers_from_the_nearest_cells() {
    // As many vectors as cells, so that each vector has a cell of its own.
    let mut vectors = Vec::new();
    let mut labels = Vec::new();
    for i in 0..NLIST as i16 {
        let mut v = [0i16; 14];
        v[0] = 7 * i;
        vectors.push(v);
        labels.push(if i % 2 == 1 { ReferenceLabel::Fraud } else { ReferenceLabel::Legit });
    }
    let data = dataset(vectors, labels);
    let files = build_ivf(&data);
    let table = offsets(&files);
    assert!(table.iter().enumerate().all(|(c, start)| *start as usize == c));
    let index = index(&files);
    assert!(index.is_ready());
    assert!(index.is_consistent());
    for i in [1i16, 2, 77, 2000, 4094] {
        let mut query = [0i16; 14];
        query[0] = 7 * i;
        let exact = brute_force_top5(&data, &query, NLIST);
        assert_eq!(index.fraud_votes(&query), count_frauds(&exact[..NPROBE]));
        assert_eq!(index.fraud_votes(&query), if i % 2 == 1 { 1 } else { 2 });
    }
}

/// An index by hand: cell `c` has its centroid at `10 * c`, and the first cells hold vectors.
fn by_hand() -> IvfFiles {
    let mut centroids = Vec::new();
    for c in 0..NLIST {
        let mut row = [0i16; 16];
        row[0] = (c * 7 % 30000) as i16;
        for value in row {
            centroids.extend(value.to_le_bytes());
        }
    }
    let firsts = [0i16, 1, 7, 8, 9, 14, 21];
    let mut vectors = Vec::new();
    for first in firsts {
        let mut row = [0i16; 16];
        row[0] = first;
        for value in row {
            vectors.extend(value.to_le_bytes());
        }
    }
    let mut table = vec![7u32; NLIST + 1];
    table[0] = 0;
    table[1] = 2;
    table[2] = 5;
    table[3] = 6;
    let mut offsets = Vec::new();
    for value in table {
        offsets.extend(value.to_le_bytes());
    }
    IvfFiles { centroids, vectors, labels: vec![1, 0, 1, 0, 1, 1, 1], offsets }
}

#[test]
fn nearest_cells_are_probed() {
    let files = by_hand();
    let index = index(&files);
    let mut q = [0i16; DIMS_PADDED];
    assert_eq!(index.closest_cells(&q), [0, 1, 2]);
    q[0] = 70;
    assert_eq!(index.closest_cells(&q), [10, 9, 11]);
    q[0] = -50;
    assert_eq!(index.closest_cells(&q), [0, 1, 2]);
}

#[test]
fn votes_come_from_the_nearest_five_of_the_probed_cells() {
    let files = by_hand();
    let index = index(&files);
    assert!(index.is_consistent());
    // Cells 0, 1 and 2 hold 0, 1, 7, 8, 9 and 14; the first five of them vote.
    assert_eq!(index.fraud_votes(&[0; 14]), 3);
    // Cells 2, 1 and 3 hold 14, 7, 8, 9 and 21.
    let mut query = [0i16; 14];
    query[0] = 14;
    assert_eq!(index.fraud_votes(&query), 4);
    // Nothing lies near.
    query[0] = 20_000;
    assert_eq!(index.fraud_votes(&query), 0);
}

#[test]
fn broken_tables_are_noticed() {
    let good = by_hand();
    assert!(index(&good).is_consistent());
    let mut files = by_hand();
    files.offsets.truncate(4 * NLIST);
    assert!(!index(&files).is_consistent());
    let mut files = by_hand();
    files.labels.pop();
    assert!(!index(&files).is_consistent());
    let mut files = by_hand();
    files.vectors.pop();
    assert!(!index(&files).is_consistent());
    let mut files = by_hand();
    files.centroids.pop();
    assert!(!index(&files).is_consistent());
    files.labels.truncate(4);
    assert!(!index(&files).is_ready());
}

#[test]
fn data_that_cannot_be_indexed_is_noticed() {
    assert!(!is_indexable(&dataset(Vec::new(), Vec::new())));
    let mut data = line(3);
    data.labels[1] = 4;
    assert!(!is_indexable(&data));
    let mut data = line(3);
    data.meta.total_vectors = 4;
    assert!(!is_indexable(&data));
}

#[test]
fn votes_are_refused_where_a_table_ends_early() {
    let good = by_hand();
    assert_eq!(index(&good).try_fraud_votes(&[0; 14]), Some(3));
    let mut query = [0i16; 14];
    query[0] = 20_000;
    assert_eq!(index(&good).try_fraud_votes(&query), Some(0));
    let mut files = by_hand();
    files.offsets.truncate(4 * 2);
    assert_eq!(index(&files).try_fraud_votes(&[0; 14]), None);
    let mut files = by_hand();
    files.centroids.truncate(2 * DIMS_PADDED * 5);
    assert_eq!(index(&files).try_fraud_votes(&[0; 14]), None);
    let mut files = by_hand();
    files.vectors.truncate(2 * DIMS_PADDED * 2);
    assert_eq!(index(&files).try_fraud_votes(&[0; 14]), None);
    let mut files = by_hand();
    files.labels.truncate(2);
    assert_eq!(index(&files).try_fraud_votes(&[0; 14]), None);
}

#[test]
fn comparison_counts_queries_spread_over_the_data() {
    // As many vectors as cells: the index sees three neighbours where there are five.
    let mut vectors = Vec::new();
    let mut labels = Vec::new();
    for i in 0..NLIST as i16 {
        let mut v = [0i16; 14];
        v[0] = 7 * i;
        vectors.push(v);
        labels.push(if i % 2 == 1 { ReferenceLabel::Fraud } else { ReferenceLabel::Legit });
    }
    let data = dataset(vectors, labels);
    let files = build_ivf(&data);
    let tally = compare(&data, &index(&files), 4).unwrap();
    assert_eq!(tally.queries, 4);
    assert_eq!(tally.equal_votes, 0);
    assert_eq!(tally.mismatches, 4);
    assert_eq!(tally.exact_votes, 12);
    assert_eq!(tally.index_votes, 4);
}

#[test]
fn comparison_needs_enough_data() {
    let data = line(12);
    let files = build_ivf(&data);
    let index = index(&files);
    assert!(compare(&data, &index, 12).is_none());
    assert!(compare(&data, &index, 6).is_none());
    let mut query = [0i16; 14];
    query[0] = 700;
    query[3] = -7;
    let exact = count_frauds(&brute_force_top5(&data, &query, 12));
    let tally = compare(&data, &index, 1).unwrap();
    assert_eq!((tally.queries, tally.exact_votes), (1, exact));
    assert_eq!(tally.index_votes, index.fraud_votes(&query));
}
