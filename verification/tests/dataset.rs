use rinha::bytes::{decode_i16s, decode_u32s, encode_i16s, encode_u16s, encode_u32s, i16_bits, read_i16};
use rinha::dataset::{
    dataset_from_files, validate_meta, vector_at_flat, DatasetLoadError, DatasetMeta,
    LoadedDataset, ReferenceLabel, BLOCK_SIZE, FORMAT_VERSION, I16_FILE_NAME, LABELS_FILE_NAME,
};
use rinha::distance::VECTOR_DIMENSIONS;
use rinha::index::SearchIndex;
use rinha::partition::{partition_key_from_i16, sort_key_for_vector, PARTITION_COUNT, QUANTIZATION_SCALE};
use rinha::writer::{
    block_bounds_for_indices, BinaryDatasetWriter, DatasetFiles, RecordError, ReferenceRecord,
};

fn quantize_to_i16(value: f32) -> i16 {
    let scaled = (value * QUANTIZATION_SCALE as f32).round();
    scaled.clamp(i16::MIN as f32, i16::MAX as f32) as i16
}

fn record(vector: &[f32], label: &str) -> Result<ReferenceRecord, RecordError> {
    let f32_bits: Vec<u32> = vector.iter().map(|value| value.to_bits()).collect();
    let fp16_bits: Vec<u16> =
        vector.iter().map(|value| half::f16::from_f32(*value).to_bits()).collect();
    let quantized: Vec<i16> = vector.iter().map(|value| quantize_to_i16(*value)).collect();
    ReferenceRecord::from_parts(&f32_bits, &fp16_bits, &quantized, label)
}

struct Converted {
    meta: DatasetMeta,
    f32_bytes: Vec<u8>,
    fp16_bytes: Vec<u8>,
    files: DatasetFiles,
}

fn convert(json: &str) -> Converted {
    let value: serde_json::Value = serde_json::from_str(json).unwrap();
    let mut writer = BinaryDatasetWriter::new();
    let mut f32_bytes = Vec::new();
    let mut fp16_bytes = Vec::new();
    for item in value.as_array().unwrap() {
        let vector: Vec<f32> = item["vector"]
            .as_array()
            .unwrap()
            .iter()
            .map(|number| number.as_f64().unwrap() as f32)
            .collect();
        let record = record(&vector, item["label"].as_str().unwrap()).unwrap();
        let bytes = writer.write_record(&record);
        f32_bytes.extend(bytes.f32_bytes);
        fp16_bytes.extend(bytes.fp16_bytes);
    }
    let files = writer.flush();
    let meta = writer.meta();
    Converted { meta, f32_bytes, fp16_bytes, files }
}

#[test]
fn converts_json_array_to_binary_outputs() {
    let json = r#"
        [
          { "vector": [0.01, 0.0833, 0.05, 0.8261, 0.1667, -1, -1, 0.0432, 0.25, 0, 1, 0, 0.2, 0.0416], "label": "legit" },
          { "vector": [0.5796, 0.9167, 1.0, 0.0435, 0, 0.0056, 0.4394, 0.4598, 0.4, 1, 0, 1, 0.85, 0.0032], "label": "fraud" }
        ]
        "#;

    let Converted { meta, f32_bytes, fp16_bytes, files } = convert(json);
    let i16_bytes = files.vectors_i16;
    let block_bounds_bytes = files.block_bounds_i16;
    let label_bytes = files.labels;

    assert_eq!(meta.version, FORMAT_VERSION);
    assert_eq!(meta.dimensions, VECTOR_DIMENSIONS);
    assert_eq!(meta.total_vectors, 2);
    assert_eq!(meta.fraud_vectors, 1);
    assert_eq!(meta.legit_vectors, 1);
    assert_eq!(meta.partition_offsets.len(), PARTITION_COUNT + 1);
    assert_eq!(meta.partition_block_offsets.len(), PARTITION_COUNT + 1);
    assert_eq!(f32_bytes.len(), 2 * VECTOR_DIMENSIONS * 4);
    assert_eq!(fp16_bytes.len(), 2 * VECTOR_DIMENSIONS * 2);
    assert_eq!(i16_bytes.len(), 2 * VECTOR_DIMENSIONS * 2);
    assert_eq!(block_bounds_bytes.len(), 2 * VECTOR_DIMENSIONS * 2 * 2);
    assert_eq!(label_bytes.len(), 2);
    assert_eq!(label_bytes.iter().filter(|label| **label == 0).count(), 1);
    assert_eq!(label_bytes.iter().filter(|label| **label == 1).count(), 1);
    assert_eq!(f32_bytes[0..4], 0.01f32.to_le_bytes());
    assert_eq!(fp16_bytes[0..2], half::f16::from_f32(0.01).to_bits().to_le_bytes());
}

#[test]
fn built_files_load_again() {
    let json = r#"[{ "vector": [0,0,0,0,0,-1,-1,0,0,0,1,0,0.15,0], "label": "legit" }]"#;
    let built = convert(json);

    let loaded = dataset_from_files(
        built.meta.clone(),
        &built.files.vectors_i16,
        &built.files.block_bounds_i16,
        &built.files.labels,
    )
    .unwrap();

    assert_eq!(built.meta.total_vectors, 1);
    assert_eq!(loaded.meta.total_vectors, 1);
    assert_eq!(loaded.total_vectors(), 1);
    assert_eq!(loaded.vector_at(0).len(), VECTOR_DIMENSIONS);
    assert_eq!(loaded.label_at(0), ReferenceLabel::Legit);
    assert_eq!(loaded.partition_range(0).start, 0);
    assert_eq!(loaded.vector_at(0)[5], -10_000);
    assert_eq!(loaded.vector_at(0)[12], 1_500);
    assert_eq!(built.files.labels, vec![0]);
    assert_eq!(loaded.meta.vectors_i16_path, I16_FILE_NAME);
    assert_eq!(loaded.meta.labels_path, LABELS_FILE_NAME);
    assert!(loaded.is_consistent());
}

/// A spread of records over several partitions.
fn spread(count: u32) -> Vec<ReferenceRecord> {
    let mut records = Vec::new();
    let mut state = 17u32;
    for _ in 0..count {
        let mut vector = [0.0f32; 14];
        for value in vector.iter_mut() {
            state = state.wrapping_mul(1_664_525).wrapping_add(1_013_904_223);
            *value = ((state >> 16) % 10_001) as f32 / 10_000.0;
        }
        // A few partitions only, so that some of them take several blocks.
        vector[0] = 0.1;
        vector[2] = 0.9;
        vector[7] = 0.1;
        vector[12] = 0.1;
        vector[8] = 0.2;
        vector[1] = 0.3;
        state = state.wrapping_mul(1_664_525).wrapping_add(1_013_904_223);
        let label = if state >> 31 == 1 { "fraud" } else { "legit" };
        records.push(record(&vector, label).unwrap());
    }
    records
}

fn build(records: &[ReferenceRecord]) -> (DatasetMeta, LoadedDataset) {
    let mut writer = BinaryDatasetWriter::new();
    for record in records {
        writer.write_record(record);
    }
    let files = writer.flush();
    let meta = writer.meta();
    let loaded = dataset_from_files(
        meta.clone(),
        &files.vectors_i16,
        &files.block_bounds_i16,
        &files.labels,
    )
    .unwrap();
    (meta, loaded)
}

#[test]
fn every_record_is_read_from_its_partition() {
    let records = spread(500);
    let (meta, loaded) = build(&records);
    assert_eq!(meta.total_vectors, 500);
    assert_eq!(
        meta.fraud_vectors,
        records.iter().filter(|record| record.label == ReferenceLabel::Fraud).count() as u64
    );
    assert!(loaded.is_consistent());

    for p in 0..PARTITION_COUNT {
        let mut expected: Vec<&ReferenceRecord> = records
            .iter()
            .filter(|record| partition_key_from_i16(&record.quantized) == p)
            .collect();
        expected.sort_by_key(|record| sort_key_for_vector(&record.quantized));
        let range = loaded.partition_range(p);
        assert_eq!(range.len(), expected.len());
        for (a, record) in expected.iter().enumerate() {
            assert_eq!(loaded.vector_at(range.start + a), record.quantized);
            assert_eq!(loaded.label_at(range.start + a), record.label);
        }
        assert_eq!(loaded.partition_block_range(p).len(), expected.len().div_ceil(BLOCK_SIZE));
        for block in loaded.partition_block_range(p) {
            for d in 0..VECTOR_DIMENSIONS {
                let values: Vec<i16> = loaded
                    .block_vector_range(p, block)
                    .map(|i| loaded.vector_at(i)[d])
                    .collect();
                assert_eq!(loaded.block_min(block)[d], *values.iter().min().unwrap());
                assert_eq!(loaded.block_max(block)[d], *values.iter().max().unwrap());
            }
        }
    }
}

#[test]
fn search_in_built_files_is_exact() {
    let records = spread(500);
    let (_, loaded) = build(&records);
    let index = SearchIndex::new(loaded);
    assert!(index.is_ready());
    for query in spread(40) {
        let key = partition_key_from_i16(&query.quantized);
        let mut distances: Vec<i64> = records
            .iter()
            .filter(|record| partition_key_from_i16(&record.quantized) == key)
            .map(|record| {
                record
                    .quantized
                    .iter()
                    .zip(query.quantized.iter())
                    .map(|(a, b)| (*a as i64 - *b as i64) * (*a as i64 - *b as i64))
                    .sum()
            })
            .collect();
        distances.sort();
        distances.truncate(5);
        let mut found: Vec<i64> =
            index.search_top_k(&query.quantized, 5).iter().map(|hit| hit.distance).collect();
        found.sort();
        assert_eq!(found, distances);
        assert!(index.fraud_votes(&query.quantized) <= 5);
    }
}

#[test]
fn empty_writer_builds_an_empty_data_set() {
    let (meta, loaded) = build(&[]);
    assert_eq!(meta.total_vectors, 0);
    assert_eq!(meta.partition_offsets, vec![0u64; PARTITION_COUNT + 1]);
    assert_eq!(meta.partition_block_offsets, vec![0u64; PARTITION_COUNT + 1]);
    assert!(loaded.is_consistent());
    assert!(!SearchIndex::new(loaded).is_ready());
}

#[test]
fn offset_tables_count_vectors_and_blocks() {
    let mut writer = BinaryDatasetWriter::new();
    let record = record(&[0.0; 14], "legit").unwrap();
    for _ in 0..65 {
        writer.write_record(&record);
    }
    let offsets = writer.partition_offsets();
    let blocks = writer.partition_block_offsets();
    assert_eq!(offsets[0], 0);
    assert_eq!(offsets[1], 65);
    assert_eq!(offsets[256], 65);
    assert_eq!(blocks[1], 2);
    assert_eq!(blocks[256], 2);
}

#[test]
fn records_are_checked() {
    assert_eq!(record(&[0.0; 14], "unknown"), Err(RecordError::UnknownLabel));
    assert_eq!(record(&[0.0; 13], "unknown"), Err(RecordError::UnknownLabel));
    assert_eq!(record(&[0.0; 13], "legit"), Err(RecordError::WrongDimensions { got: 13 }));
    assert_eq!(record(&[0.0; 14], "fraud").unwrap().label, ReferenceLabel::Fraud);
}

#[test]
fn labels_have_bytes_and_names() {
    assert_eq!(ReferenceLabel::Legit.to_byte(), 0);
    assert_eq!(ReferenceLabel::Fraud.to_byte(), 1);
    assert_eq!(ReferenceLabel::from_byte(1), Some(ReferenceLabel::Fraud));
    assert_eq!(ReferenceLabel::from_byte(2), None);
    assert_eq!(ReferenceLabel::from_name("legit"), Some(ReferenceLabel::Legit));
    assert_eq!(ReferenceLabel::from_name("fraud"), Some(ReferenceLabel::Fraud));
    assert_eq!(ReferenceLabel::from_name("Fraud"), None);
}

#[test]
fn description_problems_are_named() {
    let (good, _) = build(&spread(3));
    assert_eq!(validate_meta(&good), Ok(()));
    let broken = |change: &dyn Fn(&mut DatasetMeta)| {
        let mut meta = good.clone();
        change(&mut meta);
        validate_meta(&meta).unwrap_err()
    };
    assert_eq!(broken(&|m| m.version = 2), "unsupported dataset format version");
    assert_eq!(broken(&|m| m.dimensions = 13), "unsupported vector dimensions");
    assert_eq!(broken(&|m| m.quantization_scale = 1), "unsupported quantization scale");
    assert_eq!(broken(&|m| m.fraud_vectors += 1), "fraud + legit counts do not match total");
    assert_eq!(
        broken(&|m| {
            m.fraud_vectors = u64::MAX;
            m.legit_vectors = 4;
        }),
        "fraud + legit counts do not match total"
    );
    assert_eq!(broken(&|m| m.partition_offsets.push(3)), "invalid partition offset table length");
    assert_eq!(broken(&|m| m.partition_offsets[0] = 1), "partition offsets must start at zero");
    assert_eq!(
        broken(&|m| m.partition_offsets[256] = 4),
        "partition offsets must end at total_vectors"
    );
    assert_eq!(
        broken(&|m| m.partition_block_offsets.clear()),
        "invalid partition block offset table length"
    );
    assert_eq!(
        broken(&|m| m.partition_block_offsets[0] = 1),
        "partition block offsets must start at zero"
    );
    assert_eq!(broken(&|m| m.block_size = 32), "unsupported block size");
}

#[test]
fn loading_names_the_first_problem() {
    let records = spread(3);
    let mut writer = BinaryDatasetWriter::new();
    for record in &records {
        writer.write_record(record);
    }
    let files = writer.flush();
    let load = |meta: DatasetMeta, vectors: &[u8], bounds: &[u8], labels: &[u8]| {
        dataset_from_files(meta, vectors, bounds, labels).err()
    };
    let (v, b, l) = (&files.vectors_i16, &files.block_bounds_i16, &files.labels);
    assert_eq!(load(writer.meta(), v, b, l), None);
    let mut meta = writer.meta();
    meta.version = 9;
    assert_eq!(
        load(meta, &[], &[], &[]),
        Some(DatasetLoadError::InvalidMeta("unsupported dataset format version"))
    );
    assert_eq!(
        load(writer.meta(), &v[1..], &[], &[]),
        Some(DatasetLoadError::InvalidVectorBytes { expected: 84, actual: 83 })
    );
    assert_eq!(
        load(writer.meta(), v, &[], &[]),
        Some(DatasetLoadError::InvalidLabelBytes { expected: 3, actual: 0 })
    );
    assert_eq!(
        load(writer.meta(), v, &b[2..], l),
        Some(DatasetLoadError::InvalidBlockBoundsBytes { expected: b.len(), actual: b.len() - 2 })
    );
    assert_eq!(
        load(writer.meta(), v, b, &[0, 7, 9]),
        Some(DatasetLoadError::InvalidLabelValue(7))
    );
}

#[test]
fn inconsistent_tables_are_noticed() {
    let (_, mut loaded) = build(&spread(200));
    assert!(loaded.is_consistent());
    loaded.meta.partition_offsets[5] += 300;
    assert!(!loaded.is_consistent());
    let (_, mut loaded) = build(&spread(200));
    loaded.labels[3] = 2;
    assert!(!loaded.is_consistent());
    let (_, mut loaded) = build(&spread(200));
    loaded.block_bounds_i16.pop();
    assert!(!loaded.is_consistent());
}

#[test]
fn numbers_keep_their_bytes() {
    let values = [0i16, 1, -1, i16::MIN, i16::MAX, 258];
    let bytes = encode_i16s(&values);
    assert_eq!(bytes, vec![0, 0, 1, 0, 255, 255, 0, 128, 255, 127, 2, 1]);
    assert_eq!(decode_i16s(&bytes), values);
    assert_eq!(read_i16(&bytes, 3), i16::MIN);
    assert_eq!(i16_bits(-2), 0xfffe);
    let words = [0u32, 1, 0x0102_0304, u32::MAX];
    let bytes = encode_u32s(&words);
    assert_eq!(bytes[8..12], [4, 3, 2, 1]);
    assert_eq!(decode_u32s(&bytes), words);
    assert_eq!(decode_u32s(&bytes[..7]), vec![0]);
    assert_eq!(encode_u16s(&[0x0102]), vec![2, 1]);
    assert_eq!(decode_i16s(&[1, 0, 9]), vec![1]);
}

#[test]
fn block_bounds_are_tight() {
    let mut vectors = vec![0i16; 42];
    vectors[0] = 5;
    vectors[14] = -7;
    vectors[28 + 13] = 9;
    let bounds = block_bounds_for_indices(&vectors, &[2, 0]);
    assert_eq!(bounds.min, [0; 14]);
    assert_eq!(bounds.max[0], 5);
    assert_eq!(bounds.max[13], 9);
    assert_eq!(vector_at_flat(&vectors, 1)[0], -7);
    let none = block_bounds_for_indices(&vectors, &[]);
    assert_eq!(none.min, [i16::MAX; 14]);
    assert_eq!(none.max, [i16::MIN; 14]);
}
