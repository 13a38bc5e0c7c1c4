//! The reference data set: its description, its checks, and access to its vectors.

use vstd::prelude::*;
use vstd::string::*;

use crate::bytes::{decode_i16s, i16s_of};
use crate::distance::VECTOR_DIMENSIONS;
use crate::partition::{PARTITION_COUNT, QUANTIZATION_SCALE};
use crate::text::same_text;

verus! {

/// Version of the file layout.
pub const FORMAT_VERSION: u32 = 1;

/// How many vectors share one pair of block bounds.
pub const BLOCK_SIZE: usize = 64;

pub const F32_FILE_NAME: &'static str = "vectors-f32.bin";

pub const FP16_FILE_NAME: &'static str = "vectors-fp16.bin";

pub const I16_FILE_NAME: &'static str = "vectors-i16.bin";

pub const BLOCK_BOUNDS_FILE_NAME: &'static str = "block-bounds-i16.bin";

pub const LABELS_FILE_NAME: &'static str = "labels.bin";

pub const META_FILE_NAME: &'static str = "meta.json";

/// What is known of a reference transaction.
#[derive(Debug, Clone, Copy, PartialEq, Eq, Structural)]
pub enum ReferenceLabel {
    Legit,
    Fraud,
}

/// The byte that stands for a label in the label file.
pub open spec fn label_byte(label: ReferenceLabel) -> u8 {
    match label {
        ReferenceLabel::Legit => 0,
        ReferenceLabel::Fraud => 1,
    }
}

/// The label that a byte of the label file stands for.
pub open spec fn label_of(byte: u8) -> ReferenceLabel {
    if byte == 0 {
        ReferenceLabel::Legit
    } else {
        ReferenceLabel::Fraud
    }
}

/// File contents for a list of labels.
pub open spec fn label_bytes(labels: Seq<ReferenceLabel>) -> Seq<u8> {
    Seq::new(labels.len(), |i: int| label_byte(labels[i]))
}

impl ReferenceLabel {
    pub fn to_byte(self) -> (byte: u8)
        ensures
            byte == label_byte(self),
            label_of(byte) == self,
    {
        match self {
            ReferenceLabel::Legit => 0,
            ReferenceLabel::Fraud => 1,
        }
    }

    /// The label that a byte stands for, if it stands for one.
    pub fn from_byte(byte: u8) -> (label: Option<ReferenceLabel>)
        ensures
            match label {
                Some(l) => label_byte(l) == byte && label_of(byte) == l,
                None => byte > 1,
            },
    {
        if byte == 0 {
            Some(ReferenceLabel::Legit)
        } else if byte == 1 {
            Some(ReferenceLabel::Fraud)
        } else {
            None
        }
    }

    /// The label that the reference data spells as `name`; a label is `legit` or `fraud`.
    pub fn from_name(name: &str) -> (label: Option<ReferenceLabel>)
        ensures
            label == Some(ReferenceLabel::Legit) <==> name@ == "legit"@,
            label == Some(ReferenceLabel::Fraud) <==> name@ == "fraud"@,
            label is None <==> name@ != "legit"@ && name@ != "fraud"@,
    {
        proof {
            reveal_strlit("legit");
            reveal_strlit("fraud");
            assert("legit"@[0] != "fraud"@[0]);
        }
        if same_text(name, "legit") {
            Some(ReferenceLabel::Legit)
        } else if same_text(name, "fraud") {
            Some(ReferenceLabel::Fraud)
        } else {
            None
        }
    }
}

/// What the description file of a data set says.
#[derive(Debug, Clone, PartialEq, Eq)]
pub struct DatasetMeta {
    pub version: u32,
    pub dimensions: usize,
    pub total_vectors: u64,
    pub fraud_vectors: u64,
    pub legit_vectors: u64,
    pub vectors_f32_path: String,
    pub vectors_fp16_path: String,
    pub vectors_i16_path: String,
    pub block_bounds_i16_path: String,
    pub labels_path: String,
    pub quantization_scale: i16,
    /// Where each partition starts, and last the number of vectors.
    pub partition_offsets: Vec<u64>,
    /// Where the blocks of each partition start, and last the number of blocks.
    pub partition_block_offsets: Vec<u64>,
    pub block_size: usize,
}

/// The first thing that is wrong with a description.
pub open spec fn meta_problem(meta: DatasetMeta) -> Option<&'static str> {
    if meta.version != FORMAT_VERSION {
        Some("unsupported dataset format version")
    } else if meta.dimensions != VECTOR_DIMENSIONS {
        Some("unsupported vector dimensions")
    } else if meta.quantization_scale != QUANTIZATION_SCALE {
        Some("unsupported quantization scale")
    } else if meta.total_vectors != meta.fraud_vectors + meta.legit_vectors {
        Some("fraud + legit counts do not match total")
    } else if meta.partition_offsets@.len() != PARTITION_COUNT + 1 {
        Some("invalid partition offset table length")
    } else if meta.partition_offsets@[0] != 0 {
        Some("partition offsets must start at zero")
    } else if meta.partition_offsets@[PARTITION_COUNT as int] != meta.total_vectors {
        Some("partition offsets must end at total_vectors")
    } else if meta.partition_block_offsets@.len() != PARTITION_COUNT + 1 {
        Some("invalid partition block offset table length")
    } else if meta.partition_block_offsets@[0] != 0 {
        Some("partition block offsets must start at zero")
    } else if meta.block_size != BLOCK_SIZE {
        Some("unsupported block size")
    } else {
        None
    }
}

/// Checks a description; the error says what is wrong with it.
pub fn validate_meta(meta: &DatasetMeta) -> (checked: Result<(), &'static str>)
    ensures
        match checked {
            Ok(()) => meta_problem(*meta) is None,
            Err(reason) => meta_problem(*meta) == Some(reason),
        },
{
    if meta.version != FORMAT_VERSION {
        return Err("unsupported dataset format version");
    }
    if meta.dimensions != VECTOR_DIMENSIONS {
        return Err("unsupported vector dimensions");
    }
    if meta.quantization_scale != QUANTIZATION_SCALE {
        return Err("unsupported quantization scale");
    }
    if meta.total_vectors as u128 != meta.fraud_vectors as u128 + meta.legit_vectors as u128 {
        return Err("fraud + legit counts do not match total");
    }
    if meta.partition_offsets.len() != PARTITION_COUNT + 1 {
        return Err("invalid partition offset table length");
    }
    if meta.partition_offsets[0] != 0 {
        return Err("partition offsets must start at zero");
    }
    if meta.partition_offsets[PARTITION_COUNT] != meta.total_vectors {
        return Err("partition offsets must end at total_vectors");
    }
    if meta.partition_block_offsets.len() != PARTITION_COUNT + 1 {
        return Err("invalid partition block offset table length");
    }
    if meta.partition_block_offsets[0] != 0 {
        return Err("partition block offsets must start at zero");
    }
    if meta.block_size != BLOCK_SIZE {
        return Err("unsupported block size");
    }
    Ok(())
}

/// The entry `p` of an offset table, as a position.
pub open spec fn offset_at(table: Seq<u64>, p: int) -> int {
    (table[p] as usize) as int
}

/// The vector at position `i` of a flat list of coordinates.
pub open spec fn row(values: Seq<i16>, i: int) -> Seq<i16> {
    values.subrange(VECTOR_DIMENSIONS * i, VECTOR_DIMENSIONS * i + VECTOR_DIMENSIONS)
}

/// Why the files of a data set do not make up one.
#[derive(Debug, Clone, PartialEq, Eq)]
pub enum DatasetLoadError {
    InvalidMeta(&'static str),
    InvalidVectorBytes { expected: usize, actual: usize },
    InvalidBlockBoundsBytes { expected: usize, actual: usize },
    InvalidLabelBytes { expected: usize, actual: usize },
    InvalidLabelValue(u8),
}

/// A data set in memory: coordinates of the vectors, bounds of the blocks, and labels.
pub struct LoadedDataset {
    pub meta: DatasetMeta,
    pub vectors_i16: Vec<i16>,
    pub block_bounds_i16: Vec<i16>,
    pub labels: Vec<u8>,
}

impl LoadedDataset {
    /// The coordinates of all vectors, one vector after the other.
    pub open spec fn vectors(self) -> Seq<i16> {
        self.vectors_i16@
    }

    /// For each block its least coordinates, followed by its greatest.
    pub open spec fn bounds(self) -> Seq<i16> {
        self.block_bounds_i16@
    }

    /// One byte for each vector.
    pub open spec fn label_file(self) -> Seq<u8> {
        self.labels@
    }

    /// The vector at position `i` can be read.
    pub open spec fn has_vector(self, i: int) -> bool {
        0 <= i && VECTOR_DIMENSIONS * i + VECTOR_DIMENSIONS <= self.vectors().len()
    }

    /// The label at position `i` can be read.
    pub open spec fn has_label(self, i: int) -> bool {
        0 <= i < self.label_file().len() && self.label_file()[i] <= 1
    }

    /// The bounds of block `b` can be read.
    pub open spec fn has_bounds(self, b: int) -> bool {
        0 <= b && 2 * VECTOR_DIMENSIONS * b + 2 * VECTOR_DIMENSIONS <= self.bounds().len()
    }

    /// The vector at position `i`.
    pub open spec fn vector(self, i: int) -> Seq<i16> {
        row(self.vectors(), i)
    }

    /// The label at position `i`.
    pub open spec fn label(self, i: int) -> ReferenceLabel {
        label_of(self.label_file()[i])
    }

    /// The least coordinates of block `b`.
    pub open spec fn min_of(self, b: int) -> Seq<i16> {
        row(self.bounds(), 2 * b)
    }

    /// The greatest coordinates of block `b`.
    pub open spec fn max_of(self, b: int) -> Seq<i16> {
        row(self.bounds(), 2 * b + 1)
    }

    /// Where partition `p` starts.
    pub open spec fn partition_start(self, p: int) -> int {
        offset_at(self.meta.partition_offsets@, p)
    }

    /// The first block of partition `p`.
    pub open spec fn first_block(self, p: int) -> int {
        offset_at(self.meta.partition_block_offsets@, p)
    }

    /// Where block `b` of partition `p` starts.
    pub open spec fn block_start(self, p: int, b: int) -> int {
        self.partition_start(p) + (b - self.first_block(p)) * self.meta.block_size
    }

    /// Where block `b` of partition `p` ends: its partition may end it early.
    pub open spec fn block_end(self, p: int, b: int) -> int {
        let full = self.block_start(p, b) + self.meta.block_size;
        if full < self.partition_start(p + 1) {
            full
        } else {
            self.partition_start(p + 1)
        }
    }

    /// The blocks of partition `p` cover it, and none of them is empty.
    pub open spec fn partition_is_tiled(self, p: int) -> bool {
        let count = self.first_block(p + 1) - self.first_block(p);
        let size = self.partition_start(p + 1) - self.partition_start(p);
        &&& count >= 0
        &&& size >= 0
        &&& size <= count * self.meta.block_size
        &&& count > 0 ==> (count - 1) * self.meta.block_size < size
    }

    /// Tables, vectors, bounds and labels fit together.
    pub open spec fn consistent(self) -> bool {
        let last = self.partition_start(PARTITION_COUNT as int);
        let last_block = self.first_block(PARTITION_COUNT as int);
        &&& self.meta.partition_offsets@.len() == PARTITION_COUNT + 1
        &&& self.meta.partition_block_offsets@.len() == PARTITION_COUNT + 1
        &&& forall|p: int| 0 <= p < PARTITION_COUNT ==> #[trigger] self.partition_is_tiled(p)
        &&& last + self.meta.block_size <= usize::MAX
        &&& VECTOR_DIMENSIONS * last <= self.vectors().len()
        &&& last <= self.label_file().len()
        &&& 2 * VECTOR_DIMENSIONS * last_block <= self.bounds().len()
        &&& forall|i: int| 0 <= i < last ==> #[trigger] self.label_file()[i] <= 1
    }

    pub proof fn lemma_offsets_ordered(self, p: int, q: int)
        requires
            self.consistent(),
            0 <= p <= q <= PARTITION_COUNT,
        ensures
            0 <= self.partition_start(p) <= self.partition_start(q),
            0 <= self.first_block(p) <= self.first_block(q),
        decreases q,
    {
        if p < q {
            self.lemma_offsets_ordered(p, q - 1);
            assert(self.partition_is_tiled(q - 1));
        }
    }

    /// Every block has its bounds.
    pub proof fn lemma_bounds_are_there(self, b: int)
        requires
            self.consistent(),
            0 <= b < self.first_block(PARTITION_COUNT as int),
        ensures
            self.has_bounds(b),
    {
        let last = self.first_block(PARTITION_COUNT as int);
        assert(2 * VECTOR_DIMENSIONS * last <= self.bounds().len());
        assert(28 * last <= self.bounds().len());
        assert(2 * VECTOR_DIMENSIONS * b + 2 * VECTOR_DIMENSIONS == 28 * b + 28);
    }

    /// Whether the blocks of a partition cover it.
    fn is_tiled(&self, partition: usize) -> (tiled: bool)
        requires
            partition + 1 < self.meta.partition_offsets@.len(),
            partition + 1 < self.meta.partition_block_offsets@.len(),
        ensures
            tiled == self.partition_is_tiled(partition as int),
    {
        let vectors = self.partition_range(partition);
        let blocks = self.partition_block_range(partition);
        if blocks.end < blocks.start || vectors.end < vectors.start {
            return false;
        }
        let count: u128 = (blocks.end - blocks.start) as u128;
        let size: u128 = (vectors.end - vectors.start) as u128;
        let block_size: u128 = self.meta.block_size as u128;
        assert(0 <= count * block_size <= 0xffff_ffff_ffff_ffff * 0xffff_ffff_ffff_ffff)
            by (nonlinear_arith)
            requires
                0 <= count <= 0xffff_ffff_ffff_ffff,
                0 <= block_size <= 0xffff_ffff_ffff_ffff,
        ;
        assert(count > 0 ==> 0 <= (count - 1) * block_size <= count * block_size)
            by (nonlinear_arith)
            requires
                0 <= count,
                0 <= block_size,
        ;
        if size > count * block_size {
            return false;
        }
        count == 0 || (count - 1) * block_size < size
    }

    /// Whether tables, vectors, bounds and labels fit together.
    pub fn is_consistent(&self) -> (fits: bool)
        ensures
            fits == self.consistent(),
    {
        if self.meta.partition_offsets.len() != PARTITION_COUNT + 1
            || self.meta.partition_block_offsets.len() != PARTITION_COUNT + 1 {
            return false;
        }
        let mut p: usize = 0;
        while p < PARTITION_COUNT
            invariant
                0 <= p <= PARTITION_COUNT,
                self.meta.partition_offsets@.len() == PARTITION_COUNT + 1,
                self.meta.partition_block_offsets@.len() == PARTITION_COUNT + 1,
                forall|q: int| 0 <= q < p ==> #[trigger] self.partition_is_tiled(q),
            decreases PARTITION_COUNT - p,
        {
            if !self.is_tiled(p) {
                return false;
            }
            p = p + 1;
        }
        let last: usize = self.meta.partition_offsets[PARTITION_COUNT] as usize;
        let last_block: usize = self.meta.partition_block_offsets[PARTITION_COUNT] as usize;
        if usize::MAX - last < self.meta.block_size {
            return false;
        }
        if self.vectors_i16.len() / VECTOR_DIMENSIONS < last || self.labels.len() < last {
            return false;
        }
        if self.block_bounds_i16.len() / (2 * VECTOR_DIMENSIONS) < last_block {
            return false;
        }
        let mut i: usize = 0;
        while i < last
            invariant
                0 <= i <= last <= self.labels@.len(),
                last == self.partition_start(PARTITION_COUNT as int),
                forall|j: int| 0 <= j < i ==> #[trigger] self.label_file()[j] <= 1,
            decreases last - i,
        {
            if self.labels[i] > 1 {
                assert(self.label_file()[i as int] > 1);
                return false;
            }
            i = i + 1;
        }
        true
    }

    /// How many vectors the description counts.
    pub fn total_vectors(&self) -> (n: usize)
        ensures
            n == self.meta.total_vectors as usize,
    {
        self.meta.total_vectors as usize
    }

    /// The vector at position `index`.
    pub fn vector_at(&self, index: usize) -> (vector: &[i16])
        requires
            self.has_vector(index as int),
        ensures
            vector@ == self.vector(index as int),
            vector@.len() == VECTOR_DIMENSIONS,
    {
        vector_at_flat(self.vectors_i16.as_slice(), index)
    }

    /// The label at position `index`.
    pub fn label_at(&self, index: usize) -> (label: ReferenceLabel)
        requires
            self.has_label(index as int),
        ensures
            label == self.label(index as int),
    {
        if self.labels[index] == 0 {
            ReferenceLabel::Legit
        } else {
            ReferenceLabel::Fraud
        }
    }

    /// The positions of the vectors of a partition.
    pub fn partition_range(&self, partition: usize) -> (range: std::ops::Range<usize>)
        requires
            partition + 1 < self.meta.partition_offsets@.len(),
        ensures
            range.start == self.partition_start(partition as int),
            range.end == self.partition_start(partition + 1),
    {
        assert(self.meta.partition_offsets.len() == self.meta.partition_offsets@.len());
        let start: usize = self.meta.partition_offsets[partition] as usize;
        let end: usize = self.meta.partition_offsets[partition + 1] as usize;
        start..end
    }

    /// The blocks of a partition.
    pub fn partition_block_range(&self, partition: usize) -> (range: std::ops::Range<usize>)
        requires
            partition + 1 < self.meta.partition_block_offsets@.len(),
        ensures
            range.start == self.first_block(partition as int),
            range.end == self.first_block(partition + 1),
    {
        assert(self.meta.partition_block_offsets.len() == self.meta.partition_block_offsets@.len());
        let start: usize = self.meta.partition_block_offsets[partition] as usize;
        let end: usize = self.meta.partition_block_offsets[partition + 1] as usize;
        start..end
    }

    /// The positions of the vectors of a block.
    pub fn block_vector_range(&self, partition: usize, block: usize) -> (range: std::ops::Range<
        usize,
    >)
        requires
            partition + 1 < self.meta.partition_offsets@.len(),
            partition < self.meta.partition_block_offsets@.len(),
            self.first_block(partition as int) <= block,
            self.block_start(partition as int, block as int) + self.meta.block_size <= usize::MAX,
        ensures
            range.start == self.block_start(partition as int, block as int),
            range.end == self.block_end(partition as int, block as int),
    {
        let partition_range = self.partition_range(partition);
        let local_block: usize = block - self.meta.partition_block_offsets[partition] as usize;
        assert(local_block * self.meta.block_size >= 0) by (nonlinear_arith)
            requires
                local_block >= 0,
                self.meta.block_size >= 0,
        ;
        let start: usize = partition_range.start + local_block * self.meta.block_size;
        let full: usize = start + self.meta.block_size;
        let end: usize = if full < partition_range.end {
            full
        } else {
            partition_range.end
        };
        start..end
    }

    /// The least coordinates of a block.
    pub fn block_min(&self, block: usize) -> (min: &[i16])
        requires
            self.has_bounds(block as int),
        ensures
            min@ == self.min_of(block as int),
            min@.len() == VECTOR_DIMENSIONS,
    {
        assert(self.block_bounds_i16.len() == self.block_bounds_i16@.len());
        proof {
            lemma_rows_of_block(block as int, VECTOR_DIMENSIONS as int);
        }
        vector_at_flat(self.block_bounds_i16.as_slice(), 2 * block)
    }

    /// The greatest coordinates of a block.
    pub fn block_max(&self, block: usize) -> (max: &[i16])
        requires
            self.has_bounds(block as int),
        ensures
            max@ == self.max_of(block as int),
            max@.len() == VECTOR_DIMENSIONS,
    {
        assert(self.block_bounds_i16.len() == self.block_bounds_i16@.len());
        proof {
            lemma_rows_of_block(block as int, VECTOR_DIMENSIONS as int);
        }
        vector_at_flat(self.block_bounds_i16.as_slice(), 2 * block + 1)
    }

    /// A data set from values in memory, taken as they are.
    pub fn from_owned(
        meta: DatasetMeta,
        vectors_i16: Vec<i16>,
        block_bounds_i16: Vec<i16>,
        labels: Vec<ReferenceLabel>,
    ) -> (dataset: Self)
        ensures
            dataset.meta == meta,
            dataset.vectors() == vectors_i16@,
            dataset.bounds() == block_bounds_i16@,
            dataset.label_file() == label_bytes(labels@),
    {
        let mut bytes: Vec<u8> = Vec::new();
        let mut i: usize = 0;
        while i < labels.len()
            invariant
                0 <= i <= labels@.len(),
                bytes@ == label_bytes(labels@.take(i as int)),
            decreases labels@.len() - i,
        {
            bytes.push(labels[i].to_byte());
            assert(bytes@ =~= label_bytes(labels@.take(i + 1)));
            i = i + 1;
        }
        assert(labels@.take(labels@.len() as int) =~= labels@);
        LoadedDataset { meta, vectors_i16, block_bounds_i16, labels: bytes }
    }
}

/// The vector at position `idx` of a flat list of coordinates.
pub fn vector_at_flat(vectors: &[i16], idx: usize) -> (vector: &[i16])
    requires
        VECTOR_DIMENSIONS * idx + VECTOR_DIMENSIONS <= vectors@.len(),
    ensures
        vector@ == row(vectors@, idx as int),
        vector@.len() == VECTOR_DIMENSIONS,
{
    assert(vectors.len() == vectors@.len());
    let start: usize = idx * VECTOR_DIMENSIONS;
    let end: usize = start + VECTOR_DIMENSIONS;
    &vectors[start..end]
}

proof fn lemma_rows_of_block(block: int, dims: int)
    requires
        dims == 14,
    ensures
        2 * dims * block == 28 * block,
        dims * (2 * block) == 28 * block,
        dims * (2 * block + 1) == 28 * block + 14,
{
}

/// The number of bytes that the vector file must have.
pub open spec fn expected_vector_bytes(meta: DatasetMeta) -> int {
    meta.total_vectors * VECTOR_DIMENSIONS * 2
}

/// The number of bytes that the file of block bounds must have.
pub open spec fn expected_bounds_bytes(meta: DatasetMeta) -> int {
    meta.partition_block_offsets@.last() * VECTOR_DIMENSIONS * 2 * 2
}

/// The sizes that a description calls for can be counted on this machine.
pub open spec fn sizes_fit(meta: DatasetMeta) -> bool {
    meta_problem(meta) is None ==> expected_vector_bytes(meta) <= usize::MAX
        && expected_bounds_bytes(meta) <= usize::MAX
}

/// Makes a data set of its description and the contents of its files.
///
/// The description is checked first, then the length of the vectors, of the
/// labels and of the block bounds, and last each label.
pub fn dataset_from_files(
    meta: DatasetMeta,
    vectors: &[u8],
    block_bounds: &[u8],
    labels: &[u8],
) -> (loaded: Result<LoadedDataset, DatasetLoadError>)
    requires
        sizes_fit(meta),
    ensures
        match loaded {
            Err(DatasetLoadError::InvalidMeta(reason)) => meta_problem(meta) == Some(reason),
            Err(DatasetLoadError::InvalidVectorBytes { expected, actual }) => {
                &&& meta_problem(meta) is None
                &&& expected == expected_vector_bytes(meta)
                &&& actual == vectors@.len()
                &&& expected != actual
            },
            Err(DatasetLoadError::InvalidLabelBytes { expected, actual }) => {
                &&& meta_problem(meta) is None
                &&& vectors@.len() == expected_vector_bytes(meta)
                &&& expected == meta.total_vectors
                &&& actual == labels@.len()
                &&& expected != actual
            },
            Err(DatasetLoadError::InvalidBlockBoundsBytes { expected, actual }) => {
                &&& meta_problem(meta) is None
                &&& vectors@.len() == expected_vector_bytes(meta)
                &&& labels@.len() == meta.total_vectors
                &&& expected == expected_bounds_bytes(meta)
                &&& actual == block_bounds@.len()
                &&& expected != actual
            },
            Err(DatasetLoadError::InvalidLabelValue(byte)) => {
                &&& files_have_right_sizes(meta, vectors@, block_bounds@, labels@)
                &&& exists|i: int|
                    0 <= i < labels@.len() && #[trigger] labels@[i] == byte && byte > 1 && (forall|
                        j: int,
                    |
                        0 <= j < i ==> #[trigger] labels@[j] <= 1)
            },
            Ok(dataset) => {
                &&& files_have_right_sizes(meta, vectors@, block_bounds@, labels@)
                &&& forall|i: int| 0 <= i < labels@.len() ==> #[trigger] labels@[i] <= 1
                &&& dataset.meta == meta
                &&& dataset.vectors() == i16s_of(vectors@)
                &&& dataset.bounds() == i16s_of(block_bounds@)
                &&& dataset.label_file() == labels@
            },
        },
{
    if let Err(reason) = validate_meta(&meta) {
        return Err(DatasetLoadError::InvalidMeta(reason));
    }
    let total: usize = meta.total_vectors as usize;
    let block_count: usize = meta.partition_block_offsets[PARTITION_COUNT] as usize;
    let vector_bytes: usize = total * VECTOR_DIMENSIONS * 2;
    let bounds_bytes: usize = block_count * VECTOR_DIMENSIONS * 2 * 2;
    if vectors.len() != vector_bytes {
        return Err(
            DatasetLoadError::InvalidVectorBytes { expected: vector_bytes, actual: vectors.len() },
        );
    }
    if labels.len() != total {
        return Err(DatasetLoadError::InvalidLabelBytes { expected: total, actual: labels.len() });
    }
    if block_bounds.len() != bounds_bytes {
        return Err(
            DatasetLoadError::InvalidBlockBoundsBytes {
                expected: bounds_bytes,
                actual: block_bounds.len(),
            },
        );
    }
    let mut label_list: Vec<u8> = Vec::new();
    let mut i: usize = 0;
    while i < labels.len()
        invariant
            0 <= i <= labels@.len(),
            files_have_right_sizes(meta, vectors@, block_bounds@, labels@),
            label_list@ == labels@.take(i as int),
            forall|j: int| 0 <= j < i ==> #[trigger] labels@[j] <= 1,
        decreases labels@.len() - i,
    {
        let byte: u8 = labels[i];
        if byte != 0 && byte != 1 {
            assert(labels@[i as int] == byte && byte > 1);
            return Err(DatasetLoadError::InvalidLabelValue(byte));
        }
        label_list.push(byte);
        i = i + 1;
    }
    assert(label_list@ =~= labels@);
    Ok(
        LoadedDataset {
            meta,
            vectors_i16: decode_i16s(vectors),
            block_bounds_i16: decode_i16s(block_bounds),
            labels: label_list,
        },
    )
}

/// The description is in order and the files have the sizes that it calls for.
pub open spec fn files_have_right_sizes(
    meta: DatasetMeta,
    vectors: Seq<u8>,
    block_bounds: Seq<u8>,
    labels: Seq<u8>,
) -> bool {
    &&& meta_problem(meta) is None
    &&& vectors.len() == expected_vector_bytes(meta)
    &&& labels.len() == meta.total_vectors
    &&& block_bounds.len() == expected_bounds_bytes(meta)
}

/// The fourteen coordinates of vector `i` stand one after the other from place `14 * i` on; a
/// label is a fraud exactly if its byte is not 0; a block has its least coordinates in front of
/// its greatest.
pub proof fn law_positions_of_the_data(dataset: LoadedDataset, i: int, d: int)
    requires
        0 <= i,
        0 <= d < 14,
    ensures
        14 * i + 14 <= dataset.vectors_i16@.len() ==> dataset.vector(i).len() == 14
            && dataset.vector(i)[d] == dataset.vectors_i16@[14 * i + d],
        dataset.label(i) == ReferenceLabel::Fraud <==> dataset.labels@[i] != 0,
        dataset.label(i) == ReferenceLabel::Legit <==> dataset.labels@[i] == 0,
        28 * i + 28 <= dataset.block_bounds_i16@.len() ==> dataset.min_of(i)[d]
            == dataset.block_bounds_i16@[28 * i + d] && dataset.max_of(i)[d]
            == dataset.block_bounds_i16@[28 * i + 14 + d],
{
}

/// Partitions and blocks start where the tables say; the blocks of a partition follow one
/// another, each as long as the block size, and the last ends with its partition.
pub proof fn law_positions_of_partitions(dataset: LoadedDataset, p: int, b: int)
    requires
        dataset.meta.partition_offsets@[p] <= usize::MAX,
        dataset.meta.partition_offsets@[p + 1] <= usize::MAX,
        dataset.meta.partition_block_offsets@[p] <= usize::MAX,
        dataset.meta.partition_block_offsets@[p + 1] <= usize::MAX,
    ensures
        dataset.partition_start(p) == dataset.meta.partition_offsets@[p],
        dataset.partition_start(p + 1) == dataset.meta.partition_offsets@[p + 1],
        dataset.first_block(p) == dataset.meta.partition_block_offsets@[p],
        dataset.first_block(p + 1) == dataset.meta.partition_block_offsets@[p + 1],
        dataset.block_start(p, dataset.first_block(p)) == dataset.partition_start(p),
        dataset.block_start(p, b + 1) == dataset.block_start(p, b) + dataset.meta.block_size,
        dataset.block_start(p, b + 1) < dataset.partition_start(p + 1) ==> dataset.block_end(p, b)
            == dataset.block_start(p, b + 1),
        dataset.block_start(p, b + 1) >= dataset.partition_start(p + 1) ==> dataset.block_end(p, b)
            == dataset.partition_start(p + 1),
{
    let n = b - dataset.first_block(p);
    let size = dataset.meta.block_size as int;
    assert((n + 1) * size == n * size + size) by (nonlinear_arith);
    assert(0 * size == 0);
}

/// Labels are written as 0 for legit and 1 for fraud, and read back as what they were.
pub proof fn law_labels_are_bytes(labels: Seq<ReferenceLabel>, i: int)
    requires
        0 <= i < labels.len(),
    ensures
        label_bytes(labels).len() == labels.len(),
        label_bytes(labels)[i] == if labels[i] == ReferenceLabel::Fraud {
            1u8
        } else {
            0u8
        },
        label_byte(labels[i]) == label_bytes(labels)[i],
        label_of(label_byte(labels[i])) == labels[i],
{
}

/// A description passes exactly if it is of version 1, counts fourteen dimensions in ten
/// thousandths, frauds and legit vectors that add up, 256 partitions whose table starts at 0
/// and ends with the number of vectors, and blocks of 64 vectors whose table starts at 0. The
/// first of these that fails is named.
pub proof fn law_description_is_checked(meta: DatasetMeta)
    ensures
        meta_problem(meta) == if meta.version != 1 {
            Some("unsupported dataset format version")
        } else if meta.dimensions != 14 {
            Some("unsupported vector dimensions")
        } else if meta.quantization_scale != 10_000 {
            Some("unsupported quantization scale")
        } else if meta.fraud_vectors + meta.legit_vectors != meta.total_vectors {
            Some("fraud + legit counts do not match total")
        } else if meta.partition_offsets@.len() != 257 {
            Some("invalid partition offset table length")
        } else if meta.partition_offsets@[0] > 0 {
            Some("partition offsets must start at zero")
        } else if meta.partition_offsets@[256] != meta.total_vectors {
            Some("partition offsets must end at total_vectors")
        } else if meta.partition_block_offsets@.len() != 257 {
            Some("invalid partition block offset table length")
        } else if meta.partition_block_offsets@[0] > 0 {
            Some("partition block offsets must start at zero")
        } else if meta.block_size != 64 {
            Some("unsupported block size")
        } else {
            None
        },
        meta_problem(meta) is None ==> expected_vector_bytes(meta) == 28 * meta.total_vectors
            && expected_bounds_bytes(meta) == 56 * meta.partition_block_offsets@[256],
{
}

/// The names of the files of a data set.
pub proof fn law_names_of_the_files()
    ensures
        F32_FILE_NAME@ == "vectors-f32.bin"@,
        FP16_FILE_NAME@ == "vectors-fp16.bin"@,
        I16_FILE_NAME@ == "vectors-i16.bin"@,
        BLOCK_BOUNDS_FILE_NAME@ == "block-bounds-i16.bin"@,
        LABELS_FILE_NAME@ == "labels.bin"@,
        META_FILE_NAME@ == "meta.json"@,
{
}

/// A data set fits together exactly if its tables have an entry for each of the 256 partitions and
/// one more, each partition fills its blocks but for the last, which holds something, and the
/// vectors, bounds and labels that the tables call for are there.
pub proof fn law_consistent_data_fits_together(dataset: LoadedDataset)
    ensures
        dataset.consistent() <==> {
            let starts = dataset.meta.partition_offsets@;
            let blocks = dataset.meta.partition_block_offsets@;
            let size = dataset.meta.block_size as int;
            &&& starts.len() == 257
            &&& blocks.len() == 257
            &&& forall|p: int|
                #![trigger starts[p]]
                0 <= p < 256 ==> {
                    let vectors = starts[p + 1] as usize - starts[p] as usize;
                    let count = blocks[p + 1] as usize - blocks[p] as usize;
                    &&& 0 <= vectors <= count * size
                    &&& count == 0 || count > 0 && (count - 1) * size < vectors
                }
            &&& starts[256] as usize + size <= usize::MAX
            &&& 14 * (starts[256] as usize) <= dataset.vectors_i16@.len()
            &&& starts[256] as usize <= dataset.labels@.len()
            &&& 28 * (blocks[256] as usize) <= dataset.block_bounds_i16@.len()
            &&& forall|i: int|
                0 <= i < starts[256] as usize ==> #[trigger] dataset.labels@[i] <= 1
        },
{
    let starts = dataset.meta.partition_offsets@;
    let blocks = dataset.meta.partition_block_offsets@;
    let size = dataset.meta.block_size as int;
    assert forall|p: int| 0 <= p < 256 implies (#[trigger] dataset.partition_is_tiled(p) <==> {
        let vectors = starts[p + 1] as usize - starts[p] as usize;
        let count = blocks[p + 1] as usize - blocks[p] as usize;
        &&& 0 <= vectors <= count * size
        &&& count == 0 || count > 0 && (count - 1) * size < vectors
    }) by {
        assert(dataset.partition_start(p) == starts[p] as usize);
    }
    if dataset.consistent() {
        assert forall|p: int| #![trigger starts[p]] 0 <= p < 256 implies ({
            let vectors = starts[p + 1] as usize - starts[p] as usize;
            let count = blocks[p + 1] as usize - blocks[p] as usize;
            &&& 0 <= vectors <= count * size
            &&& count == 0 || count > 0 && (count - 1) * size < vectors
        }) by {
            assert(dataset.partition_is_tiled(p));
        }
    }
    if forall|p: int|
        #![trigger starts[p]]
        0 <= p < 256 ==> {
            let vectors = starts[p + 1] as usize - starts[p] as usize;
            let count = blocks[p + 1] as usize - blocks[p] as usize;
            &&& 0 <= vectors <= count * size
            &&& count == 0 || count > 0 && (count - 1) * size < vectors
        } {
        assert forall|p: int| 0 <= p < 256 implies #[trigger] dataset.partition_is_tiled(p) by {
            assert(starts[p] == starts[p]);
        }
    }
}

} // verus!
