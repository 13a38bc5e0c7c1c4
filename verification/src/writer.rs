//! Building the files of a data set from reference records.

use vstd::prelude::*;

use crate::bytes::{
    encode_i16s, encode_u16s, encode_u32s, i16s_of, law_i16_file_round_trip, le_i16s, le_u16s,
    le_u32s,
};
use crate::dataset::{
    files_have_right_sizes, label_byte, meta_problem, row, vector_at_flat, DatasetMeta, LoadedDataset, ReferenceLabel,
    BLOCK_BOUNDS_FILE_NAME, BLOCK_SIZE, F32_FILE_NAME, FORMAT_VERSION, FP16_FILE_NAME,
    I16_FILE_NAME, LABELS_FILE_NAME,
};
use crate::distance::{in_box, squared_l2, VECTOR_DIMENSIONS};
use crate::index::{bounds_hold, candidates, found, law_search_is_exact};
use crate::nearest::shortlist;
use crate::partition::{
    partition_key, partition_key_from_i16, sort_key, sort_key_for_vector, PARTITION_COUNT,
    QUANTIZATION_SCALE,
};
use crate::sorting::{
    as_positions, law_order_is_by_key, law_order_ranks_all, order, sorted_positions,
};

verus! {

/// A reference transaction: its vector as bit patterns of single and of half precision and
/// as quantized integers, and its label.
#[derive(Debug, Clone, Copy, PartialEq, Eq)]
pub struct ReferenceRecord {
    pub f32_bits: [u32; VECTOR_DIMENSIONS],
    pub fp16_bits: [u16; VECTOR_DIMENSIONS],
    pub quantized: [i16; VECTOR_DIMENSIONS],
    pub label: ReferenceLabel,
}

/// Why a reference record is none.
#[derive(Debug, Clone, Copy, PartialEq, Eq, Structural)]
pub enum RecordError {
    /// The label is neither `legit` nor `fraud`.
    UnknownLabel,
    /// The vector does not have the right number of coordinates.
    WrongDimensions { got: usize },
}

/// The first coordinates of a list, as an array.
fn array_of<T: Copy>(values: &[T], filler: T) -> (out: [T; VECTOR_DIMENSIONS])
    requires
        values@.len() == VECTOR_DIMENSIONS,
    ensures
        out@ == values@,
{
    let mut out: [T; VECTOR_DIMENSIONS] = [filler; VECTOR_DIMENSIONS];
    let mut d: usize = 0;
    while d < VECTOR_DIMENSIONS
        invariant
            0 <= d <= VECTOR_DIMENSIONS,
            values@.len() == VECTOR_DIMENSIONS,
            forall|e: int| 0 <= e < d ==> #[trigger] out@[e] == values@[e],
        decreases VECTOR_DIMENSIONS - d,
    {
        out[d] = values[d];
        d = d + 1;
    }
    assert(out@ =~= values@);
    out
}

impl ReferenceRecord {
    /// The record of a vector that is given in its three forms, coordinate by coordinate,
    /// and the name of its label. The label is looked at first.
    pub fn from_parts(
        f32_bits: &[u32],
        fp16_bits: &[u16],
        quantized: &[i16],
        label: &str,
    ) -> (record: Result<Self, RecordError>)
        requires
            fp16_bits@.len() == f32_bits@.len(),
            quantized@.len() == f32_bits@.len(),
        ensures
            match record {
                Ok(found) => {
                    &&& found.f32_bits@ == f32_bits@
                    &&& found.fp16_bits@ == fp16_bits@
                    &&& found.quantized@ == quantized@
                    &&& (found.label == ReferenceLabel::Legit <==> label@ == "legit"@)
                    &&& (found.label == ReferenceLabel::Fraud <==> label@ == "fraud"@)
                },
                Err(RecordError::UnknownLabel) => label@ != "legit"@ && label@ != "fraud"@,
                Err(RecordError::WrongDimensions { got }) => {
                    &&& label@ == "legit"@ || label@ == "fraud"@
                    &&& got == f32_bits@.len()
                    &&& got != VECTOR_DIMENSIONS
                },
            },
    {
        let label = match ReferenceLabel::from_name(label) {
            Some(label) => label,
            None => {
                return Err(RecordError::UnknownLabel);
            },
        };
        if f32_bits.len() != VECTOR_DIMENSIONS {
            return Err(RecordError::WrongDimensions { got: f32_bits.len() });
        }
        Ok(
            ReferenceRecord {
                f32_bits: array_of(f32_bits, 0),
                fp16_bits: array_of(fp16_bits, 0),
                quantized: array_of(quantized, 0),
                label,
            },
        )
    }
}

/// What the search keeps of a record.
pub ghost struct Sample {
    pub vector: Seq<i16>,
    pub label: ReferenceLabel,
}

/// What the search keeps of `record`.
pub open spec fn sample_of(record: ReferenceRecord) -> Sample {
    Sample { vector: record.quantized@, label: record.label }
}

/// Every vector has all its coordinates.
pub open spec fn full_vectors(samples: Seq<Sample>) -> bool {
    forall|i: int|
        0 <= i < samples.len() ==> (#[trigger] samples[i]).vector.len() == VECTOR_DIMENSIONS
}

/// The samples that fall into partition `p`, in order of arrival.
pub open spec fn in_partition(samples: Seq<Sample>, p: int) -> Seq<Sample>
    decreases samples.len(),
{
    if samples.len() == 0 {
        Seq::empty()
    } else {
        let rest = in_partition(samples.drop_last(), p);
        if partition_key(samples.last().vector) == p {
            rest.push(samples.last())
        } else {
            rest
        }
    }
}

/// How many samples are frauds.
pub open spec fn fraud_samples(samples: Seq<Sample>) -> nat
    decreases samples.len(),
{
    if samples.len() == 0 {
        0
    } else {
        fraud_samples(samples.drop_last()) + if samples.last().label == ReferenceLabel::Fraud {
            1nat
        } else {
            0nat
        }
    }
}

/// The coordinates of all samples, one sample after the other.
pub open spec fn coordinates(samples: Seq<Sample>) -> Seq<i16> {
    Seq::new(
        VECTOR_DIMENSIONS as nat * samples.len(),
        |j: int| samples[j / (VECTOR_DIMENSIONS as int)].vector[j % (VECTOR_DIMENSIONS as int)],
    )
}

/// The label bytes of all samples.
pub open spec fn sample_labels(samples: Seq<Sample>) -> Seq<u8> {
    Seq::new(samples.len(), |i: int| label_byte(samples[i].label))
}

/// The sort keys of all samples.
pub open spec fn sample_keys(samples: Seq<Sample>) -> Seq<u64> {
    Seq::new(samples.len(), |i: int| sort_key(samples[i].vector) as u64)
}

/// The samples in order of sort key, the earlier one first among equal keys, so that
/// each block holds vectors that lie close to each other.
pub open spec fn by_key(samples: Seq<Sample>) -> Seq<Sample> {
    Seq::new(samples.len(), |a: int| samples[order(sample_keys(samples))[a]])
}

/// Partition `p` of the data set that is built from `samples`.
pub open spec fn built_partition(samples: Seq<Sample>, p: int) -> Seq<Sample> {
    by_key(in_partition(samples, p))
}

/// The first `n` partitions of the data set, one after the other.
pub open spec fn built(samples: Seq<Sample>, n: nat) -> Seq<Sample>
    decreases n,
{
    if n == 0 {
        Seq::empty()
    } else {
        built(samples, (n - 1) as nat) + built_partition(samples, n - 1)
    }
}

/// How many blocks hold `count` vectors.
pub open spec fn blocks_for(count: nat) -> nat {
    (count + BLOCK_SIZE - 1) as nat / BLOCK_SIZE as nat
}

/// The samples of block `b`.
pub open spec fn block_of(samples: Seq<Sample>, b: int) -> Seq<Sample> {
    let from = BLOCK_SIZE * b;
    let to = if from + BLOCK_SIZE < samples.len() {
        from + BLOCK_SIZE
    } else {
        samples.len() as int
    };
    samples.subrange(from, to)
}

/// The vectors of some samples.
pub open spec fn vectors_of(samples: Seq<Sample>) -> Seq<Seq<i16>> {
    Seq::new(samples.len(), |i: int| samples[i].vector)
}

/// The least coordinate `d` of some vectors.
pub open spec fn least(vectors: Seq<Seq<i16>>, d: int) -> i16
    decreases vectors.len(),
{
    if vectors.len() == 0 {
        i16::MAX
    } else {
        let rest = least(vectors.drop_last(), d);
        if vectors.last()[d] < rest {
            vectors.last()[d]
        } else {
            rest
        }
    }
}

/// The greatest coordinate `d` of some vectors.
pub open spec fn greatest(vectors: Seq<Seq<i16>>, d: int) -> i16
    decreases vectors.len(),
{
    if vectors.len() == 0 {
        i16::MIN
    } else {
        let rest = greatest(vectors.drop_last(), d);
        if vectors.last()[d] > rest {
            vectors.last()[d]
        } else {
            rest
        }
    }
}

/// The bounds of some vectors: their least coordinates, followed by their greatest.
pub open spec fn bounds_of(vectors: Seq<Seq<i16>>) -> Seq<i16> {
    Seq::new(
        2 * VECTOR_DIMENSIONS as nat,
        |d: int|
            if d < VECTOR_DIMENSIONS {
                least(vectors, d)
            } else {
                greatest(vectors, d - VECTOR_DIMENSIONS)
            },
    )
}

/// The vectors at the given positions of a flat list of coordinates.
pub open spec fn picked_rows(vectors: Seq<i16>, indices: Seq<usize>) -> Seq<Seq<i16>> {
    Seq::new(indices.len(), |a: int| row(vectors, indices[a] as int))
}

/// The bounds of the first `n` blocks of `samples`.
pub open spec fn block_bounds(samples: Seq<Sample>, n: nat) -> Seq<i16>
    decreases n,
{
    if n == 0 {
        Seq::empty()
    } else {
        block_bounds(samples, (n - 1) as nat) + bounds_of(
            vectors_of(block_of(samples, n - 1)),
        )
    }
}

/// The bounds of all blocks of the first `n` partitions.
pub open spec fn built_bounds(samples: Seq<Sample>, n: nat) -> Seq<i16>
    decreases n,
{
    if n == 0 {
        Seq::empty()
    } else {
        let last = built_partition(samples, n - 1);
        built_bounds(samples, (n - 1) as nat) + block_bounds(last, blocks_for(last.len()))
    }
}

/// How many samples the first `n` partitions hold.
pub open spec fn samples_before(samples: Seq<Sample>, n: nat) -> nat
    decreases n,
{
    if n == 0 {
        0
    } else {
        samples_before(samples, (n - 1) as nat) + in_partition(samples, n - 1).len()
    }
}

/// How many blocks the first `n` partitions hold.
pub open spec fn blocks_before(samples: Seq<Sample>, n: nat) -> nat
    decreases n,
{
    if n == 0 {
        0
    } else {
        blocks_before(samples, (n - 1) as nat) + blocks_for(in_partition(samples, n - 1).len())
    }
}

/// Where the partitions start, and last the number of samples.
pub open spec fn offset_table(samples: Seq<Sample>) -> Seq<u64> {
    Seq::new(PARTITION_COUNT as nat + 1, |p: int| samples_before(samples, p as nat) as u64)
}

/// Where the blocks of the partitions start, and last the number of blocks.
pub open spec fn block_offset_table(samples: Seq<Sample>) -> Seq<u64> {
    Seq::new(PARTITION_COUNT as nat + 1, |p: int| blocks_before(samples, p as nat) as u64)
}

/// The contents of the files that a search loads.
pub struct DatasetFiles {
    pub vectors_i16: Vec<u8>,
    pub block_bounds_i16: Vec<u8>,
    pub labels: Vec<u8>,
}

/// What is appended to the files of single and of half precision for one record.
pub struct RecordBytes {
    pub f32_bytes: Vec<u8>,
    pub fp16_bytes: Vec<u8>,
}

/// Least and greatest coordinates of a block.
pub struct BlockBounds {
    pub min: [i16; VECTOR_DIMENSIONS],
    pub max: [i16; VECTOR_DIMENSIONS],
}

proof fn lemma_in_partition_push(samples: Seq<Sample>, s: Sample, p: int)
    ensures
        in_partition(samples.push(s), p) == if partition_key(s.vector) == p {
            in_partition(samples, p).push(s)
        } else {
            in_partition(samples, p)
        },
        fraud_samples(samples.push(s)) == fraud_samples(samples) + if s.label
            == ReferenceLabel::Fraud {
            1nat
        } else {
            0nat
        },
{
    assert(samples.push(s).drop_last() =~= samples);
}

proof fn lemma_in_partition_full(samples: Seq<Sample>, p: int)
    requires
        full_vectors(samples),
    ensures
        full_vectors(in_partition(samples, p)),
        in_partition(samples, p).len() <= samples.len(),
    decreases samples.len(),
{
    if samples.len() > 0 {
        assert(full_vectors(samples.drop_last()));
        lemma_in_partition_full(samples.drop_last(), p);
        assert(samples[samples.len() - 1].vector.len() == VECTOR_DIMENSIONS);
    }
}

proof fn lemma_fraud_samples_bound(samples: Seq<Sample>)
    ensures
        fraud_samples(samples) <= samples.len(),
    decreases samples.len(),
{
    if samples.len() > 0 {
        lemma_fraud_samples_bound(samples.drop_last());
    }
}

/// The coordinates of sample `i` stand in row `i`.
proof fn lemma_row_of_coordinates(samples: Seq<Sample>, i: int)
    requires
        full_vectors(samples),
        0 <= i < samples.len(),
    ensures
        row(coordinates(samples), i) == samples[i].vector,
{
    let r = row(coordinates(samples), i);
    assert(samples[i].vector.len() == VECTOR_DIMENSIONS);
    assert forall|d: int| 0 <= d < VECTOR_DIMENSIONS implies r[d] == samples[i].vector[d] by {
        assert((14 * i + d) / 14 == i && (14 * i + d) % 14 == d);
    }
    assert(r =~= samples[i].vector);
}

proof fn lemma_coordinates_append(one: Seq<Sample>, other: Seq<Sample>)
    ensures
        coordinates(one + other) == coordinates(one) + coordinates(other),
        sample_labels(one + other) == sample_labels(one) + sample_labels(other),
{
    let n = one.len() as int;
    assert forall|j: int| 0 <= j < 14 * (n + other.len()) implies coordinates(one + other)[j] == (
    coordinates(one) + coordinates(other))[j] by {
        if j >= 14 * n {
            assert((j - 14 * n) / 14 == j / 14 - n && (j - 14 * n) % 14 == j % 14);
        }
    }
    assert(coordinates(one + other) =~= coordinates(one) + coordinates(other));
    assert(sample_labels(one + other) =~= sample_labels(one) + sample_labels(other));
}

/// The bounds of the vectors at the given positions.
pub fn block_bounds_for_indices(vectors: &[i16], indices: &[usize]) -> (bounds: BlockBounds)
    requires
        forall|a: int|
            #![trigger indices@[a]]
            0 <= a < indices@.len() ==> VECTOR_DIMENSIONS * indices@[a] + VECTOR_DIMENSIONS
                <= vectors@.len(),
    ensures
        bounds.min@ + bounds.max@ == bounds_of(picked_rows(vectors@, indices@)),
        forall|a: int, d: int|
            #![trigger indices@[a], bounds.min@[d]]
            #![trigger indices@[a], bounds.max@[d]]
            0 <= a < indices@.len() && 0 <= d < 14 ==> bounds.min@[d] <= vectors@[14 * indices@[a]
                + d] <= bounds.max@[d],
        forall|d: int|
            #![trigger bounds.min@[d]]
            0 <= d < 14 && indices@.len() > 0 ==> exists|a: int|
                0 <= a < indices@.len() && vectors@[14 * #[trigger] indices@[a] + d]
                    == bounds.min@[d],
        forall|d: int|
            #![trigger bounds.max@[d]]
            0 <= d < 14 && indices@.len() > 0 ==> exists|a: int|
                0 <= a < indices@.len() && vectors@[14 * #[trigger] indices@[a] + d]
                    == bounds.max@[d],
        forall|d: int|
            0 <= d < 14 && indices@.len() == 0 ==> #[trigger] bounds.min@[d] == i16::MAX,
        forall|d: int|
            0 <= d < 14 && indices@.len() == 0 ==> #[trigger] bounds.max@[d] == i16::MIN,
{
    let mut min: [i16; VECTOR_DIMENSIONS] = [i16::MAX; VECTOR_DIMENSIONS];
    let mut max: [i16; VECTOR_DIMENSIONS] = [i16::MIN; VECTOR_DIMENSIONS];
    let ghost rows = picked_rows(vectors@, indices@);
    let mut a: usize = 0;
    while a < indices.len()
        invariant
            0 <= a <= indices@.len(),
            rows == picked_rows(vectors@, indices@),
            forall|c: int|
                #![trigger indices@[c]]
                0 <= c < indices@.len() ==> VECTOR_DIMENSIONS * indices@[c] + VECTOR_DIMENSIONS
                    <= vectors@.len(),
            forall|d: int|
                0 <= d < VECTOR_DIMENSIONS ==> #[trigger] min@[d] == least(rows.take(a as int), d),
            forall|d: int|
                0 <= d < VECTOR_DIMENSIONS ==> #[trigger] max@[d] == greatest(
                    rows.take(a as int),
                    d,
                ),
        decreases indices@.len() - a,
    {
        let vector = vector_at_flat(vectors, indices[a]);
        assert(rows.take(a + 1).drop_last() =~= rows.take(a as int));
        let mut dim: usize = 0;
        while dim < VECTOR_DIMENSIONS
            invariant
                0 <= dim <= VECTOR_DIMENSIONS,
                0 <= a < indices@.len(),
                rows == picked_rows(vectors@, indices@),
                vector@ == rows[a as int],
                vector@.len() == VECTOR_DIMENSIONS,
                rows.take(a + 1).drop_last() == rows.take(a as int),
                forall|d: int|
                    0 <= d < VECTOR_DIMENSIONS ==> #[trigger] min@[d] == least(
                        rows.take(if d < dim {
                            a + 1
                        } else {
                            a as int
                        }),
                        d,
                    ),
                forall|d: int|
                    0 <= d < VECTOR_DIMENSIONS ==> #[trigger] max@[d] == greatest(
                        rows.take(if d < dim {
                            a + 1
                        } else {
                            a as int
                        }),
                        d,
                    ),
            decreases VECTOR_DIMENSIONS - dim,
        {
            assert(min@[dim as int] == least(rows.take(a as int), dim as int));
            assert(max@[dim as int] == greatest(rows.take(a as int), dim as int));
            if vector[dim] < min[dim] {
                min[dim] = vector[dim];
            }
            if vector[dim] > max[dim] {
                max[dim] = vector[dim];
            }
            dim = dim + 1;
        }
        a = a + 1;
    }
    assert(rows.take(rows.len() as int) =~= rows);
    assert(min@ + max@ =~= bounds_of(rows));
    proof {
        assert forall|a: int, d: int|
            #![trigger indices@[a], min@[d]]
            #![trigger indices@[a], max@[d]]
            0 <= a < indices@.len() && 0 <= d < 14 implies min@[d] <= vectors@[14 * indices@[a]
            + d] <= max@[d] by {
            law_bounds_enclose(rows, a, d);
            assert(rows[a][d] == vectors@[14 * indices@[a] + d]);
        }
        assert forall|d: int| #![trigger min@[d]] 0 <= d < 14 && indices@.len() > 0 implies exists|
            a: int,
        |
            0 <= a < indices@.len() && vectors@[14 * #[trigger] indices@[a] + d] == min@[d] by {
            law_bounds_are_met(rows, d);
            let i = choose|i: int|
                0 <= i < rows.len() && #[trigger] rows[i][d] == least(rows, d);
            assert(vectors@[14 * indices@[i] + d] == min@[d]);
        }
        assert forall|d: int| #![trigger max@[d]] 0 <= d < 14 && indices@.len() > 0 implies exists|
            a: int,
        |
            0 <= a < indices@.len() && vectors@[14 * #[trigger] indices@[a] + d] == max@[d] by {
            law_bounds_are_met(rows, d);
            let i = choose|i: int|
                0 <= i < rows.len() && #[trigger] rows[i][d] == greatest(rows, d);
            assert(vectors@[14 * indices@[i] + d] == max@[d]);
        }
    }
    BlockBounds { min, max }
}

/// Appends the bounds of all blocks of a partition whose vectors are `order`ed by `list`.
fn append_bounds(
    vectors: &[i16],
    list: &[usize],
    out: &mut Vec<i16>,
    Ghost(sorted): Ghost<Seq<Sample>>,
)
    requires
        vectors_of(sorted) == picked_rows(vectors@, list@),
        forall|a: int|
            #![trigger list@[a]]
            0 <= a < list@.len() ==> VECTOR_DIMENSIONS * list@[a] + VECTOR_DIMENSIONS
                <= vectors@.len(),
    ensures
        final(out)@ == old(out)@ + block_bounds(sorted, blocks_for(sorted.len())),
{
    let ghost before = out@;
    let ghost mut b: nat = 0;
    let mut from: usize = 0;
    assert(sorted.len() == vectors_of(sorted).len());
    assert(before + block_bounds(sorted, 0) =~= before);
    while from < list.len()
        invariant
            sorted.len() == list@.len(),
            vectors_of(sorted) == picked_rows(vectors@, list@),
            forall|a: int|
                #![trigger list@[a]]
                0 <= a < list@.len() ==> VECTOR_DIMENSIONS * list@[a] + VECTOR_DIMENSIONS
                    <= vectors@.len(),
            from < list@.len() ==> from == BLOCK_SIZE * b,
            from >= list@.len() ==> b == blocks_for(sorted.len()),
            out@ == before + block_bounds(sorted, b),
        decreases list@.len() - from,
    {
        let to: usize = if list.len() - from > BLOCK_SIZE {
            from + BLOCK_SIZE
        } else {
            list.len()
        };
        let indices: &[usize] = &list[from..to];
        proof {
            assert forall|a: int|
                #![trigger indices@[a]]
                0 <= a < indices@.len() implies VECTOR_DIMENSIONS * indices@[a] + VECTOR_DIMENSIONS
                <= vectors@.len() by {
                assert(indices@[a] == list@[from + a]);
            }
            let block = block_of(sorted, b as int);
            assert(picked_rows(vectors@, indices@) =~= vectors_of(block)) by {
                assert forall|a: int| 0 <= a < block.len() implies picked_rows(
                    vectors@,
                    indices@,
                )[a] == vectors_of(block)[a] by {
                    assert(vectors_of(sorted)[from + a] == picked_rows(vectors@, list@)[from + a]);
                }
            }
        }
        let bounds = block_bounds_for_indices(vectors, indices);
        let ghost so_far = out@;
        out.extend_from_slice(bounds.min.as_slice());
        out.extend_from_slice(bounds.max.as_slice());
        proof {
            assert(out@ =~= so_far + (bounds.min@ + bounds.max@));
            b = b + 1;
            assert(out@ =~= before + block_bounds(sorted, b));
        }
        from = to;
    }
}

/// Appends the vectors and the labels of a partition, ordered by `list`.
fn append_rows(
    vectors: &[i16],
    labels: &[u8],
    list: &[usize],
    vectors_out: &mut Vec<i16>,
    labels_out: &mut Vec<u8>,
    Ghost(sorted): Ghost<Seq<Sample>>,
)
    requires
        full_vectors(sorted),
        vectors_of(sorted) == picked_rows(vectors@, list@),
        forall|a: int|
            #![trigger list@[a]]
            0 <= a < list@.len() ==> VECTOR_DIMENSIONS * list@[a] + VECTOR_DIMENSIONS
                <= vectors@.len() && list@[a] < labels@.len() && labels@[list@[a] as int]
                == label_byte(sorted[a].label),
    ensures
        final(vectors_out)@ == old(vectors_out)@ + coordinates(sorted),
        final(labels_out)@ == old(labels_out)@ + sample_labels(sorted),
{
    let ghost vectors_before = vectors_out@;
    let ghost labels_before = labels_out@;
    assert(sorted.len() == vectors_of(sorted).len());
    assert(vectors_before + coordinates(sorted.take(0)) =~= vectors_before);
    assert(labels_before + sample_labels(sorted.take(0)) =~= labels_before);
    let mut a: usize = 0;
    while a < list.len()
        invariant
            0 <= a <= list@.len(),
            sorted.len() == list@.len(),
            full_vectors(sorted),
            vectors_of(sorted) == picked_rows(vectors@, list@),
            forall|c: int|
                #![trigger list@[c]]
                0 <= c < list@.len() ==> VECTOR_DIMENSIONS * list@[c] + VECTOR_DIMENSIONS
                    <= vectors@.len() && list@[c] < labels@.len() && labels@[list@[c] as int]
                    == label_byte(sorted[c].label),
            vectors_out@ == vectors_before + coordinates(sorted.take(a as int)),
            labels_out@ == labels_before + sample_labels(sorted.take(a as int)),
        decreases list@.len() - a,
    {
        let idx: usize = list[a];
        vectors_out.extend_from_slice(vector_at_flat(vectors, idx));
        labels_out.push(labels[idx]);
        proof {
            let one = seq![sorted[a as int]];
            let done = sorted.take(a as int);
            assert(sorted.take(a + 1) =~= done + one);
            lemma_coordinates_append(done, one);
            lemma_row_of_coordinates(one, 0);
            assert(row(coordinates(one), 0) =~= coordinates(one));
            assert(vectors_of(sorted)[a as int] == picked_rows(vectors@, list@)[a as int]);
            assert(vectors_out@ =~= vectors_before + coordinates(sorted.take(a + 1)));
            assert(labels_out@ =~= labels_before + sample_labels(sorted.take(a + 1)));
        }
        a = a + 1;
    }
    assert(sorted.take(sorted.len() as int) =~= sorted);
}

/// Collects reference records and lays them out for the search.
pub struct BinaryDatasetWriter {
    total_vectors: u64,
    fraud_vectors: u64,
    partition_vectors: Vec<Vec<i16>>,
    partition_labels: Vec<Vec<u8>>,
    partition_counts: Vec<u64>,
    written: Ghost<Seq<Sample>>,
}

impl BinaryDatasetWriter {
    /// The samples written so far, in order.
    pub closed spec fn samples(self) -> Seq<Sample> {
        self.written@
    }

    /// The lists of each partition hold the samples that fall into it.
    closed spec fn partition_matches(self, p: int) -> bool {
        let part = in_partition(self.written@, p);
        &&& self.partition_vectors@[p]@ == coordinates(part)
        &&& self.partition_labels@[p]@ == sample_labels(part)
        &&& self.partition_counts@[p] == part.len()
    }

    pub closed spec fn wf(self) -> bool {
        &&& self.partition_vectors@.len() == PARTITION_COUNT
        &&& self.partition_labels@.len() == PARTITION_COUNT
        &&& self.partition_counts@.len() == PARTITION_COUNT
        &&& forall|p: int| 0 <= p < PARTITION_COUNT ==> #[trigger] self.partition_matches(p)
        &&& full_vectors(self.written@)
        &&& self.total_vectors == self.written@.len()
        &&& self.fraud_vectors == fraud_samples(self.written@)
    }

    /// The samples that a writer holds have all their coordinates, and they can be counted.
    pub proof fn law_samples_are_full(self)
        requires
            self.wf(),
        ensures
            full_vectors(self.samples()),
            self.samples().len() <= u64::MAX,
    {
    }

    pub fn new() -> (writer: Self)
        ensures
            writer.wf(),
            writer.samples() == Seq::<Sample>::empty(),
    {
        let mut partition_vectors: Vec<Vec<i16>> = Vec::new();
        let mut partition_labels: Vec<Vec<u8>> = Vec::new();
        let mut partition_counts: Vec<u64> = Vec::new();
        let mut p: usize = 0;
        while p < PARTITION_COUNT
            invariant
                0 <= p <= PARTITION_COUNT,
                partition_vectors@.len() == p,
                partition_labels@.len() == p,
                partition_counts@.len() == p,
                forall|q: int| 0 <= q < p ==> (#[trigger] partition_vectors@[q])@.len() == 0,
                forall|q: int| 0 <= q < p ==> (#[trigger] partition_labels@[q])@.len() == 0,
                forall|q: int| 0 <= q < p ==> #[trigger] partition_counts@[q] == 0,
            decreases PARTITION_COUNT - p,
        {
            partition_vectors.push(Vec::new());
            partition_labels.push(Vec::new());
            partition_counts.push(0);
            p = p + 1;
        }
        let writer = BinaryDatasetWriter {
            total_vectors: 0,
            fraud_vectors: 0,
            partition_vectors,
            partition_labels,
            partition_counts,
            written: Ghost(Seq::empty()),
        };
        proof {
            assert forall|q: int|
                0 <= q < PARTITION_COUNT implies #[trigger] writer.partition_matches(q) by {
                let part = in_partition(writer.written@, q);
                assert(writer.partition_vectors@[q]@ =~= coordinates(part));
                assert(writer.partition_labels@[q]@ =~= sample_labels(part));
            }
        }
        writer
    }

    /// Takes one record in. What comes back is appended to the files that hold the
    /// vectors in single and in half precision.
    #[verifier::rlimit(30)]
    pub fn write_record(&mut self, record: &ReferenceRecord) -> (bytes: RecordBytes)
        requires
            old(self).wf(),
            old(self).samples().len() < u64::MAX,
        ensures
            final(self).wf(),
            final(self).samples() == old(self).samples().push(sample_of(*record)),
            final(self).samples().last().vector == record.quantized@,
            final(self).samples().last().label == record.label,
            bytes.f32_bytes@ == le_u32s(record.f32_bits@),
            bytes.fp16_bytes@ == le_u16s(record.fp16_bits@),
    {
        let ghost before = self.written@;
        let ghost sample = sample_of(*record);
        let partition: usize = partition_key_from_i16(&record.quantized);
        let ghost part = in_partition(before, partition as int);
        proof {
            assert(self.partition_matches(partition as int));
            lemma_in_partition_full(before, partition as int);
            lemma_fraud_samples_bound(before);
        }
        let mut d: usize = 0;
        while d < VECTOR_DIMENSIONS
            invariant
                0 <= d <= VECTOR_DIMENSIONS,
                partition < PARTITION_COUNT,
                self.partition_vectors@.len() == PARTITION_COUNT,
                self.partition_vectors@[partition as int]@ == coordinates(part)
                    + record.quantized@.take(d as int),
                forall|q: int|
                    0 <= q < PARTITION_COUNT && q != partition
                        ==> #[trigger] self.partition_vectors@[q]
                        == old(self).partition_vectors@[q],
                self.partition_labels == old(self).partition_labels,
                self.partition_counts == old(self).partition_counts,
                self.total_vectors == old(self).total_vectors,
                self.fraud_vectors == old(self).fraud_vectors,
                self.written == old(self).written,
            decreases VECTOR_DIMENSIONS - d,
        {
            let value: i16 = record.quantized[d];
            self.partition_vectors[partition].push(value);
            d = d + 1;
        }
        self.partition_labels[partition].push(record.label.to_byte());
        self.partition_counts[partition] = self.partition_counts[partition] + 1;
        self.total_vectors = self.total_vectors + 1;
        if record.label == ReferenceLabel::Fraud {
            self.fraud_vectors = self.fraud_vectors + 1;
        }
        self.written = Ghost(before.push(sample));
        proof {
            assert(full_vectors(self.written@));
            assert forall|q: int| 0 <= q < PARTITION_COUNT implies #[trigger] self.partition_matches(
                q,
            ) by {
                assert(old(self).partition_matches(q));
                lemma_in_partition_push(before, sample, q);
                if q == partition {
                    let one = seq![sample];
                    assert(part.push(sample) =~= part + one);
                    lemma_coordinates_append(part, one);
                    assert(coordinates(one) =~= record.quantized@) by {
                        lemma_row_of_coordinates(one, 0);
                        assert(row(coordinates(one), 0) =~= coordinates(one));
                    }
                    assert(record.quantized@.take(VECTOR_DIMENSIONS as int) =~= record.quantized@);
                    assert(sample_labels(part).push(label_byte(sample.label)) =~= sample_labels(
                        part + one,
                    ));
                } else {
                    assert(self.partition_vectors@[q] == old(self).partition_vectors@[q]);
                }
            }
            lemma_in_partition_push(before, sample, 0);
        }
        RecordBytes {
            f32_bytes: encode_u32s(record.f32_bits.as_slice()),
            fp16_bytes: encode_u16s(record.fp16_bits.as_slice()),
        }
    }

    /// Appends what the files hold of one partition.
    #[verifier::rlimit(30)]
    fn flush_partition(
        &self,
        partition: usize,
        vectors_out: &mut Vec<i16>,
        bounds_out: &mut Vec<i16>,
        labels_out: &mut Vec<u8>,
    )
        requires
            self.wf(),
            partition < PARTITION_COUNT,
        ensures
            final(vectors_out)@ == old(vectors_out)@ + coordinates(
                built_partition(self.samples(), partition as int),
            ),
            final(bounds_out)@ == old(bounds_out)@ + block_bounds(
                built_partition(self.samples(), partition as int),
                blocks_for(built_partition(self.samples(), partition as int).len()),
            ),
            final(labels_out)@ == old(labels_out)@ + sample_labels(
                built_partition(self.samples(), partition as int),
            ),
    {
        let vectors = self.partition_vectors[partition].as_slice();
        let labels = self.partition_labels[partition].as_slice();
        let ghost part = in_partition(self.samples(), partition as int);
        let ghost sorted = by_key(part);
        proof {
            assert(self.partition_matches(partition as int));
            lemma_in_partition_full(self.samples(), partition as int);
            assert(labels@.len() == part.len());
        }
        let mut keys: Vec<u64> = Vec::new();
        let mut i: usize = 0;
        while i < labels.len()
            invariant
                0 <= i <= labels@.len(),
                labels@.len() == part.len(),
                full_vectors(part),
                vectors@ == coordinates(part),
                keys@ == sample_keys(part).take(i as int),
            decreases labels@.len() - i,
        {
            proof {
                lemma_row_of_coordinates(part, i as int);
            }
            keys.push(sort_key_for_vector(vector_at_flat(vectors, i)));
            assert(keys@ =~= sample_keys(part).take(i + 1));
            i = i + 1;
        }
        assert(keys@ =~= sample_keys(part));
        let list = sorted_positions(keys.as_slice());
        proof {
            law_order_ranks_all(keys@);
            assert(list@.len() == part.len()) by {
                assert(as_positions(list@).len() == part.len());
            }
            assert forall|a: int|
                #![trigger list@[a]]
                0 <= a < list@.len() implies VECTOR_DIMENSIONS * list@[a] + VECTOR_DIMENSIONS
                <= vectors@.len() && list@[a] < labels@.len() && labels@[list@[a] as int]
                == label_byte(sorted[a].label) && vectors_of(sorted)[a] == picked_rows(
                vectors@,
                list@,
            )[a] && sorted[a].vector.len() == VECTOR_DIMENSIONS by {
                assert(as_positions(list@)[a] == order(keys@)[a]);
                let at = list@[a] as int;
                assert(sorted[a] == part[at]);
                lemma_row_of_coordinates(part, at);
            }
            assert(vectors_of(sorted) =~= picked_rows(vectors@, list@));
            assert(full_vectors(sorted)) by {
                assert forall|a: int| 0 <= a < sorted.len() implies (
                #[trigger] sorted[a]).vector.len() == VECTOR_DIMENSIONS by {
                    assert(0 <= list@[a]);
                }
            }
        }
        append_bounds(vectors, list.as_slice(), bounds_out, Ghost(sorted));
        append_rows(vectors, labels, list.as_slice(), vectors_out, labels_out, Ghost(sorted));
    }

    /// The contents of the files that a search loads: the partitions one after the other,
    /// each in order of sort key, the bounds of their blocks, and their labels.
    pub fn flush(&self) -> (files: DatasetFiles)
        requires
            self.wf(),
        ensures
            files.vectors_i16@ == le_i16s(
                coordinates(built(self.samples(), PARTITION_COUNT as nat)),
            ),
            files.block_bounds_i16@ == le_i16s(
                built_bounds(self.samples(), PARTITION_COUNT as nat),
            ),
            files.labels@ == sample_labels(built(self.samples(), PARTITION_COUNT as nat)),
    {
        let mut vectors: Vec<i16> = Vec::new();
        let mut bounds: Vec<i16> = Vec::new();
        let mut labels: Vec<u8> = Vec::new();
        let mut partition: usize = 0;
        assert(vectors@ =~= coordinates(built(self.samples(), 0)));
        assert(bounds@ =~= built_bounds(self.samples(), 0));
        assert(labels@ =~= sample_labels(built(self.samples(), 0)));
        while partition < PARTITION_COUNT
            invariant
                0 <= partition <= PARTITION_COUNT,
                self.wf(),
                vectors@ == coordinates(built(self.samples(), partition as nat)),
                bounds@ == built_bounds(self.samples(), partition as nat),
                labels@ == sample_labels(built(self.samples(), partition as nat)),
            decreases PARTITION_COUNT - partition,
        {
            self.flush_partition(partition, &mut vectors, &mut bounds, &mut labels);
            proof {
                lemma_coordinates_append(
                    built(self.samples(), partition as nat),
                    built_partition(self.samples(), partition as int),
                );
            }
            partition = partition + 1;
        }
        DatasetFiles {
            vectors_i16: encode_i16s(vectors.as_slice()),
            block_bounds_i16: encode_i16s(bounds.as_slice()),
            labels,
        }
    }

    /// Where the partitions start, and last the number of vectors.
    pub fn partition_offsets(&self) -> (offsets: Vec<u64>)
        requires
            self.wf(),
        ensures
            offsets@ == offset_table(self.samples()),
    {
        let mut offsets: Vec<u64> = Vec::new();
        let mut acc: u64 = 0;
        offsets.push(acc);
        let mut p: usize = 0;
        assert(offsets@ =~= offset_table(self.samples()).take(1));
        while p < PARTITION_COUNT
            invariant
                0 <= p <= PARTITION_COUNT,
                self.wf(),
                acc == samples_before(self.samples(), p as nat),
                offsets@ == offset_table(self.samples()).take(p + 1),
            decreases PARTITION_COUNT - p,
        {
            proof {
                assert(self.partition_matches(p as int));
                lemma_partitions_within(self.samples(), (p + 1) as nat);
            }
            acc = acc + self.partition_counts[p];
            offsets.push(acc);
            p = p + 1;
            assert(offsets@ =~= offset_table(self.samples()).take(p + 1));
        }
        assert(offsets@ =~= offset_table(self.samples()));
        offsets
    }

    /// Where the blocks of the partitions start, and last the number of blocks.
    pub fn partition_block_offsets(&self) -> (offsets: Vec<u64>)
        requires
            self.wf(),
        ensures
            offsets@ == block_offset_table(self.samples()),
    {
        let mut offsets: Vec<u64> = Vec::new();
        let mut acc: u64 = 0;
        offsets.push(acc);
        let mut p: usize = 0;
        assert(offsets@ =~= block_offset_table(self.samples()).take(1));
        while p < PARTITION_COUNT
            invariant
                0 <= p <= PARTITION_COUNT,
                self.wf(),
                acc == blocks_before(self.samples(), p as nat),
                offsets@ == block_offset_table(self.samples()).take(p + 1),
            decreases PARTITION_COUNT - p,
        {
            proof {
                assert(self.partition_matches(p as int));
                lemma_partitions_within(self.samples(), (p + 1) as nat);
            }
            let count: u64 = self.partition_counts[p];
            let blocks: u64 = if count == 0 {
                0
            } else {
                (count - 1) / (BLOCK_SIZE as u64) + 1
            };
            acc = acc + blocks;
            offsets.push(acc);
            p = p + 1;
            assert(offsets@ =~= block_offset_table(self.samples()).take(p + 1));
        }
        assert(offsets@ =~= block_offset_table(self.samples()));
        offsets
    }

    /// The description of the data set.
    pub fn meta(&self) -> (meta: DatasetMeta)
        requires
            self.wf(),
        ensures
            describes(meta, self.samples()),
    {
        proof {
            lemma_fraud_samples_bound(self.samples());
        }
        DatasetMeta {
            version: FORMAT_VERSION,
            dimensions: VECTOR_DIMENSIONS,
            total_vectors: self.total_vectors,
            fraud_vectors: self.fraud_vectors,
            legit_vectors: self.total_vectors - self.fraud_vectors,
            vectors_f32_path: F32_FILE_NAME.to_owned(),
            vectors_fp16_path: FP16_FILE_NAME.to_owned(),
            vectors_i16_path: I16_FILE_NAME.to_owned(),
            block_bounds_i16_path: BLOCK_BOUNDS_FILE_NAME.to_owned(),
            labels_path: LABELS_FILE_NAME.to_owned(),
            quantization_scale: QUANTIZATION_SCALE,
            partition_offsets: self.partition_offsets(),
            partition_block_offsets: self.partition_block_offsets(),
            block_size: BLOCK_SIZE,
        }
    }
}

/// The partitions hold no more samples than there are, and no more blocks.
proof fn lemma_partitions_within(samples: Seq<Sample>, n: nat)
    requires
        n <= PARTITION_COUNT,
    ensures
        samples_before(samples, n) <= samples.len(),
        blocks_before(samples, n) <= samples_before(samples, n),
        n == PARTITION_COUNT ==> samples_before(samples, n) == samples.len(),
{
    lemma_partitions_count(samples, n);
    lemma_fewer_blocks(samples, n);
}

proof fn lemma_fewer_blocks(samples: Seq<Sample>, n: nat)
    ensures
        blocks_before(samples, n) <= samples_before(samples, n),
    decreases n,
{
    if n > 0 {
        lemma_fewer_blocks(samples, (n - 1) as nat);
    }
}

/// Counting samples partition by partition counts those whose key is below `n`.
proof fn lemma_partitions_count(samples: Seq<Sample>, n: nat)
    requires
        n <= PARTITION_COUNT,
    ensures
        samples_before(samples, n) <= samples.len(),
        n == PARTITION_COUNT ==> samples_before(samples, n) == samples.len(),
    decreases samples.len(),
{
    if samples.len() == 0 {
        lemma_no_samples_before(samples, n);
    } else {
        let rest = samples.drop_last();
        lemma_partitions_count(rest, n);
        lemma_one_more_sample(rest, samples.last(), n);
        assert(rest.push(samples.last()) =~= samples);
    }
}

proof fn lemma_no_samples_before(samples: Seq<Sample>, n: nat)
    requires
        samples.len() == 0,
    ensures
        samples_before(samples, n) == 0,
    decreases n,
{
    if n > 0 {
        lemma_no_samples_before(samples, (n - 1) as nat);
    }
}

proof fn lemma_one_more_sample(samples: Seq<Sample>, s: Sample, n: nat)
    ensures
        samples_before(samples.push(s), n) == samples_before(samples, n) + if 0 <= partition_key(
            s.vector,
        ) < n {
            1int
        } else {
            0
        },
    decreases n,
{
    if n > 0 {
        lemma_one_more_sample(samples, s, (n - 1) as nat);
        lemma_in_partition_push(samples, s, n - 1);
    }
}

/// `meta` is the description of the data set that is built from `samples`.
pub open spec fn describes(meta: DatasetMeta, samples: Seq<Sample>) -> bool {
    &&& meta.version == FORMAT_VERSION
    &&& meta.dimensions == VECTOR_DIMENSIONS
    &&& meta.total_vectors == samples.len()
    &&& meta.fraud_vectors == fraud_samples(samples)
    &&& meta.legit_vectors == samples.len() - fraud_samples(samples)
    &&& meta.vectors_f32_path@ == F32_FILE_NAME@
    &&& meta.vectors_fp16_path@ == FP16_FILE_NAME@
    &&& meta.vectors_i16_path@ == I16_FILE_NAME@
    &&& meta.block_bounds_i16_path@ == BLOCK_BOUNDS_FILE_NAME@
    &&& meta.labels_path@ == LABELS_FILE_NAME@
    &&& meta.quantization_scale == QUANTIZATION_SCALE
    &&& meta.partition_offsets@ == offset_table(samples)
    &&& meta.partition_block_offsets@ == block_offset_table(samples)
    &&& meta.block_size == BLOCK_SIZE
}

proof fn lemma_built_length(samples: Seq<Sample>, n: nat)
    ensures
        built(samples, n).len() == samples_before(samples, n),
        built_bounds(samples, n).len() == 28 * blocks_before(samples, n),
    decreases n,
{
    if n > 0 {
        lemma_built_length(samples, (n - 1) as nat);
        let part = built_partition(samples, n - 1);
        lemma_block_bounds_length(part, blocks_for(part.len()));
    }
}

proof fn lemma_block_bounds_length(samples: Seq<Sample>, n: nat)
    ensures
        block_bounds(samples, n).len() == 28 * n,
    decreases n,
{
    if n > 0 {
        lemma_block_bounds_length(samples, (n - 1) as nat);
    }
}

/// Partition `p` stands where the tables say.
proof fn lemma_built_at(samples: Seq<Sample>, n: nat, p: int, a: int)
    requires
        0 <= p < n,
        0 <= a < built_partition(samples, p).len(),
    ensures
        samples_before(samples, p as nat) + a < samples_before(samples, n),
        built(samples, n)[samples_before(samples, p as nat) + a] == built_partition(samples, p)[a],
    decreases n,
{
    lemma_built_length(samples, (n - 1) as nat);
    if p < n - 1 {
        lemma_built_at(samples, (n - 1) as nat, p, a);
    }
}

/// The bounds of block `b` of partition `p` stand where the tables say.
proof fn lemma_built_bounds_at(samples: Seq<Sample>, n: nat, p: int, b: int, d: int)
    requires
        0 <= p < n,
        0 <= b < blocks_for(built_partition(samples, p).len()),
        0 <= d < 2 * VECTOR_DIMENSIONS,
    ensures
        blocks_before(samples, p as nat) + b < blocks_before(samples, n),
        built_bounds(samples, n)[28 * (blocks_before(samples, p as nat) + b) + d] == bounds_of(
            vectors_of(block_of(built_partition(samples, p), b)),
        )[d],
    decreases n,
{
    lemma_built_length(samples, (n - 1) as nat);
    lemma_built_length(samples, n);
    if p < n - 1 {
        lemma_built_bounds_at(samples, (n - 1) as nat, p, b, d);
    } else {
        let part = built_partition(samples, p);
        lemma_block_bounds_at(part, blocks_for(part.len()), b, d);
    }
}

proof fn lemma_block_bounds_at(samples: Seq<Sample>, n: nat, b: int, d: int)
    requires
        0 <= b < n,
        0 <= d < 2 * VECTOR_DIMENSIONS,
    ensures
        28 * b + d < block_bounds(samples, n).len(),
        block_bounds(samples, n)[28 * b + d] == bounds_of(vectors_of(block_of(samples, b)))[d],
    decreases n,
{
    lemma_block_bounds_length(samples, (n - 1) as nat);
    lemma_block_bounds_length(samples, n);
    if b < n - 1 {
        lemma_block_bounds_at(samples, (n - 1) as nat, b, d);
    }
}

/// No vector leaves the bounds of its block.
pub proof fn law_bounds_enclose(vectors: Seq<Seq<i16>>, i: int, d: int)
    requires
        0 <= i < vectors.len(),
        0 <= d < VECTOR_DIMENSIONS,
    ensures
        least(vectors, d) <= vectors[i][d] <= greatest(vectors, d),
    decreases vectors.len(),
{
    if i < vectors.len() - 1 {
        law_bounds_enclose(vectors.drop_last(), i, d);
    }
}

/// The bounds of a block are as tight as they can be: each is met by one of its vectors.
pub proof fn law_bounds_are_met(vectors: Seq<Seq<i16>>, d: int)
    requires
        vectors.len() > 0,
        0 <= d < VECTOR_DIMENSIONS,
    ensures
        exists|i: int| 0 <= i < vectors.len() && #[trigger] vectors[i][d] == least(vectors, d),
        exists|i: int| 0 <= i < vectors.len() && #[trigger] vectors[i][d] == greatest(vectors, d),
    decreases vectors.len(),
{
    let rest = vectors.drop_last();
    let last = vectors.len() - 1;
    if rest.len() == 0 {
        assert(least(rest, d) == i16::MAX && greatest(rest, d) == i16::MIN);
        assert(vectors[0][d] == least(vectors, d));
        assert(vectors[0][d] == greatest(vectors, d));
    } else {
        law_bounds_are_met(rest, d);
        let i = choose|i: int| 0 <= i < rest.len() && #[trigger] rest[i][d] == least(rest, d);
        let j = choose|j: int| 0 <= j < rest.len() && #[trigger] rest[j][d] == greatest(rest, d);
        assert(vectors[i][d] == rest[i][d]);
        assert(vectors[j][d] == rest[j][d]);
        assert(vectors[last][d] == vectors.last()[d]);
    }
}

/// Every sample stands in the partition of its key, and nothing else stands there.
pub proof fn law_partition_holds_its_samples(samples: Seq<Sample>, p: int)
    ensures
        forall|i: int|
            0 <= i < samples.len() && partition_key(samples[i].vector) == p
                ==> built_partition(samples, p).contains(#[trigger] samples[i]),
        forall|a: int|
            0 <= a < built_partition(samples, p).len() ==> samples.contains(
                #[trigger] built_partition(samples, p)[a],
            ) && partition_key(built_partition(samples, p)[a].vector) == p,
        built_partition(samples, p).len() == in_partition(samples, p).len(),
{
    let part = in_partition(samples, p);
    law_order_ranks_all(sample_keys(part));
    lemma_in_partition_holds(samples, p);
    let ord = order(sample_keys(part));
    assert forall|i: int|
        0 <= i < samples.len() && partition_key(samples[i].vector)
            == p implies built_partition(samples, p).contains(#[trigger] samples[i]) by {
        assert(part.contains(samples[i]));
        let c = choose|c: int| 0 <= c < part.len() && part[c] == samples[i];
        assert(ord.contains(c));
        let a = choose|a: int| 0 <= a < ord.len() && ord[a] == c;
        assert(built_partition(samples, p)[a] == samples[i]);
    }
    assert forall|a: int| 0 <= a < built_partition(samples, p).len() implies samples.contains(
        #[trigger] built_partition(samples, p)[a],
    ) && partition_key(built_partition(samples, p)[a].vector) == p by {
        assert(0 <= ord[a] < part.len());
        assert(part.contains(part[ord[a]]));
    }
}

proof fn lemma_in_partition_holds(samples: Seq<Sample>, p: int)
    ensures
        forall|s: Sample| #[trigger]
            in_partition(samples, p).contains(s) <==> samples.contains(s) && partition_key(s.vector)
                == p,
    decreases samples.len(),
{
    if samples.len() > 0 {
        let rest = samples.drop_last();
        lemma_in_partition_holds(rest, p);
        assert forall|s: Sample| #[trigger]
            in_partition(samples, p).contains(s) <==> samples.contains(s) && partition_key(s.vector)
                == p by {
            let part = in_partition(samples, p);
            let less = in_partition(rest, p);
            if part.contains(s) {
                let c = choose|c: int| 0 <= c < part.len() && part[c] == s;
                if c < less.len() {
                    assert(less[c] == s);
                    assert(less.contains(s));
                    assert(rest.contains(s));
                    let i = choose|i: int| 0 <= i < rest.len() && rest[i] == s;
                    assert(samples[i] == s);
                } else {
                    assert(samples[samples.len() - 1] == s);
                }
            }
            if samples.contains(s) && partition_key(s.vector) == p {
                let i = choose|i: int| 0 <= i < samples.len() && samples[i] == s;
                if i < rest.len() {
                    assert(rest[i] == s);
                    assert(less.contains(s));
                    let c = choose|c: int| 0 <= c < less.len() && less[c] == s;
                    assert(part[c] == s);
                } else {
                    assert(part[part.len() - 1] == s);
                }
            }
        }
    }
}

/// `dataset` is what the files built from `samples` load as.
pub open spec fn loaded_from(dataset: LoadedDataset, samples: Seq<Sample>) -> bool {
    let all = built(samples, PARTITION_COUNT as nat);
    &&& describes(dataset.meta, samples)
    &&& dataset.vectors() == i16s_of(le_i16s(coordinates(all)))
    &&& dataset.bounds() == i16s_of(le_i16s(built_bounds(samples, PARTITION_COUNT as nat)))
    &&& dataset.label_file() == sample_labels(all)
}

/// What is built can be loaded: the description passes its checks, the files have the
/// sizes that it calls for, and every label stands for one.
pub proof fn law_built_files_load(samples: Seq<Sample>, meta: DatasetMeta)
    requires
        describes(meta, samples),
    ensures
        meta_problem(meta) is None,
        files_have_right_sizes(
            meta,
            le_i16s(coordinates(built(samples, PARTITION_COUNT as nat))),
            le_i16s(built_bounds(samples, PARTITION_COUNT as nat)),
            sample_labels(built(samples, PARTITION_COUNT as nat)),
        ),
        forall|i: int|
            0 <= i < samples.len() ==> #[trigger] sample_labels(
                built(samples, PARTITION_COUNT as nat),
            )[i] <= 1,
{
    let n = PARTITION_COUNT as nat;
    lemma_partitions_within(samples, n);
    lemma_built_length(samples, n);
    lemma_fraud_samples_bound(samples);
    assert(meta.partition_offsets@[n as int] == samples.len());
    assert(meta.partition_offsets@[0] == 0);
    assert(meta.partition_block_offsets@[0] == 0);
    assert(meta.partition_block_offsets@.last() == blocks_before(samples, n));
}

/// A loaded data set gives back what was written: partition `p` holds its samples, in
/// order of sort key, with their labels.
pub proof fn law_written_samples_are_read(
    samples: Seq<Sample>,
    dataset: LoadedDataset,
    p: int,
    a: int,
)
    requires
        loaded_from(dataset, samples),
        full_vectors(samples),
        samples.len() <= usize::MAX,
        0 <= p < PARTITION_COUNT,
        0 <= a < built_partition(samples, p).len(),
    ensures
        dataset.partition_start(p + 1) - dataset.partition_start(p) == built_partition(
            samples,
            p,
        ).len(),
        dataset.has_vector(dataset.partition_start(p) + a),
        dataset.has_label(dataset.partition_start(p) + a),
        dataset.vector(dataset.partition_start(p) + a) == built_partition(samples, p)[a].vector,
        dataset.label(dataset.partition_start(p) + a) == built_partition(samples, p)[a].label,
{
    let n = PARTITION_COUNT as nat;
    let all = built(samples, n);
    let at = samples_before(samples, p as nat) + a;
    lemma_tables(samples, dataset, p);
    lemma_built_length(samples, n);
    lemma_built_at(samples, n, p, a);
    lemma_built_full(samples, n);
    law_i16_file_round_trip(coordinates(all));
    lemma_row_of_coordinates(all, at);
}

/// The tables of a loaded data set count samples and blocks.
proof fn lemma_tables(samples: Seq<Sample>, dataset: LoadedDataset, p: int)
    requires
        loaded_from(dataset, samples),
        samples.len() <= usize::MAX,
        0 <= p < PARTITION_COUNT,
    ensures
        dataset.partition_start(p) == samples_before(samples, p as nat),
        dataset.partition_start(p + 1) == samples_before(samples, (p + 1) as nat),
        dataset.partition_start(p + 1) - dataset.partition_start(p) == built_partition(
            samples,
            p,
        ).len(),
        dataset.first_block(p) == blocks_before(samples, p as nat),
        dataset.first_block(p + 1) == blocks_before(samples, (p + 1) as nat),
        dataset.first_block(p + 1) - dataset.first_block(p) == blocks_for(
            built_partition(samples, p).len(),
        ),
{
    lemma_partitions_within(samples, p as nat);
    lemma_partitions_within(samples, (p + 1) as nat);
    assert(dataset.meta.partition_offsets@[p] == samples_before(samples, p as nat));
    assert(dataset.meta.partition_offsets@[p + 1] == samples_before(samples, (p + 1) as nat));
    assert(dataset.meta.partition_block_offsets@[p] == blocks_before(samples, p as nat));
    assert(dataset.meta.partition_block_offsets@[p + 1] == blocks_before(samples, (p + 1) as nat));
}

proof fn lemma_built_full(samples: Seq<Sample>, n: nat)
    requires
        full_vectors(samples),
    ensures
        full_vectors(built(samples, n)),
    decreases n,
{
    if n > 0 {
        lemma_built_full(samples, (n - 1) as nat);
        lemma_built_partition_full(samples, n - 1);
    }
}

proof fn lemma_built_partition_full(samples: Seq<Sample>, p: int)
    requires
        full_vectors(samples),
    ensures
        full_vectors(built_partition(samples, p)),
{
    let part = in_partition(samples, p);
    lemma_in_partition_full(samples, p);
    law_order_ranks_all(sample_keys(part));
    assert forall|a: int| 0 <= a < built_partition(samples, p).len() implies (
    #[trigger] built_partition(samples, p)[a]).vector.len() == VECTOR_DIMENSIONS by {
        let at = order(sample_keys(part))[a];
        assert(0 <= at < part.len());
        assert(part[at].vector.len() == VECTOR_DIMENSIONS);
    }
}

/// Where the bounds of a block stand in a loaded data set.
proof fn lemma_loaded_bounds_at(samples: Seq<Sample>, dataset: LoadedDataset, p: int, local: int)
    requires
        loaded_from(dataset, samples),
        samples.len() <= usize::MAX,
        0 <= p < PARTITION_COUNT,
        0 <= local < blocks_for(built_partition(samples, p).len()),
    ensures
        dataset.first_block(p) == blocks_before(samples, p as nat),
        dataset.bounds() == built_bounds(samples, PARTITION_COUNT as nat),
        0 <= blocks_before(samples, p as nat) + local,
        28 * (blocks_before(samples, p as nat) + local) + 28 <= built_bounds(
            samples,
            PARTITION_COUNT as nat,
        ).len(),
{
    let n = PARTITION_COUNT as nat;
    assert(dataset.first_block(p) == blocks_before(samples, p as nat)) by {
        lemma_tables(samples, dataset, p);
    }
    assert(dataset.bounds() == built_bounds(samples, n)) by {
        law_i16_file_round_trip(built_bounds(samples, n));
    }
    lemma_built_length(samples, n);
    lemma_built_bounds_at(samples, n, p, local, 0);
}

/// The bounds of a block in the list of all bounds.
proof fn lemma_built_bounds_pair(samples: Seq<Sample>, p: int, local: int, d: int)
    requires
        0 <= p < PARTITION_COUNT,
        0 <= local < blocks_for(built_partition(samples, p).len()),
        0 <= d < VECTOR_DIMENSIONS,
    ensures
        ({
            let bounds = built_bounds(samples, PARTITION_COUNT as nat);
            let at = 28 * (blocks_before(samples, p as nat) + local);
            let vectors = vectors_of(block_of(built_partition(samples, p), local));
            bounds[at + d] == least(vectors, d) && bounds[at + d + 14] == greatest(vectors, d)
        }),
{
    let n = PARTITION_COUNT as nat;
    lemma_built_bounds_at(samples, n, p, local, d);
    lemma_built_bounds_at(samples, n, p, local, d + 14);
}

/// The bounds of a block in a loaded data set are those of its vectors.
proof fn lemma_loaded_bounds(
    samples: Seq<Sample>,
    dataset: LoadedDataset,
    p: int,
    local: int,
    d: int,
)
    requires
        loaded_from(dataset, samples),
        samples.len() <= usize::MAX,
        0 <= p < PARTITION_COUNT,
        0 <= local < blocks_for(built_partition(samples, p).len()),
        0 <= d < VECTOR_DIMENSIONS,
    ensures
        dataset.min_of(dataset.first_block(p) + local)[d] == least(
            vectors_of(block_of(built_partition(samples, p), local)),
            d,
        ),
        dataset.max_of(dataset.first_block(p) + local)[d] == greatest(
            vectors_of(block_of(built_partition(samples, p), local)),
            d,
        ),
{
    let b = blocks_before(samples, p as nat) + local;
    lemma_loaded_bounds_at(samples, dataset, p, local);
    lemma_row_pair(dataset.bounds(), b, d);
    lemma_built_bounds_pair(samples, p, local, d);
}

/// Least and greatest coordinates of block `b` in the list of all bounds.
proof fn lemma_row_pair(bounds: Seq<i16>, b: int, d: int)
    requires
        0 <= b,
        28 * b + 28 <= bounds.len(),
        0 <= d < VECTOR_DIMENSIONS,
    ensures
        row(bounds, 2 * b)[d] == bounds[28 * b + d],
        row(bounds, 2 * b + 1)[d] == bounds[28 * b + d + 14],
{
}

/// The bounds of a block enclose the vectors of the block in a loaded data set.
#[verifier::rlimit(30)]
proof fn lemma_loaded_vector_in_box(
    samples: Seq<Sample>,
    dataset: LoadedDataset,
    p: int,
    local: int,
    a: int,
)
    requires
        loaded_from(dataset, samples),
        full_vectors(samples),
        samples.len() <= usize::MAX,
        0 <= p < PARTITION_COUNT,
        0 <= local < blocks_for(built_partition(samples, p).len()),
        64 * local <= a < 64 * local + 64,
        a < built_partition(samples, p).len(),
    ensures
        in_box(
            dataset.vector(dataset.partition_start(p) + a),
            dataset.min_of(dataset.first_block(p) + local),
            dataset.max_of(dataset.first_block(p) + local),
        ),
{
    let part = built_partition(samples, p);
    let block = block_of(part, local);
    let vectors = vectors_of(block);
    let v = dataset.vector(dataset.partition_start(p) + a);
    law_written_samples_are_read(samples, dataset, p, a);
    assert(block[a - 64 * local] == part[a]);
    assert(v == vectors[a - 64 * local]);
    let min = dataset.min_of(dataset.first_block(p) + local);
    let max = dataset.max_of(dataset.first_block(p) + local);
    assert forall|d: int| #![trigger v[d]] 0 <= d < VECTOR_DIMENSIONS implies min[d] <= v[d]
        <= max[d] by {
        law_bounds_enclose(vectors, a - 64 * local, d);
        lemma_loaded_bounds(samples, dataset, p, local, d);
    }
}

/// The blocks of every partition of a loaded data set cover it, and their bounds hold, so
/// that searching it is exact.
#[verifier::rlimit(30)]
pub proof fn law_built_bounds_hold(samples: Seq<Sample>, dataset: LoadedDataset, p: int)
    requires
        loaded_from(dataset, samples),
        full_vectors(samples),
        samples.len() <= usize::MAX,
        0 <= p < PARTITION_COUNT,
    ensures
        dataset.partition_is_tiled(p),
        bounds_hold(dataset, p),
{
    let part = built_partition(samples, p);
    let size = dataset.meta.block_size as int;
    lemma_tables(samples, dataset, p);
    let count = blocks_for(part.len()) as int;
    assert(count * size == count * 64 && (count - 1) * size == (count - 1) * 64)
        by (nonlinear_arith)
        requires
            size == 64,
    ;
    assert forall|b: int, i: int|
        #![trigger dataset.block_start(p, b), dataset.vector(i)]
        dataset.first_block(p) <= b < dataset.first_block(p + 1) && dataset.block_start(p, b) <= i
            < dataset.block_end(p, b) implies in_box(
        dataset.vector(i),
        dataset.min_of(b),
        dataset.max_of(b),
    ) by {
        let local = b - dataset.first_block(p);
        assert(local * size == local * 64) by (nonlinear_arith)
            requires
                size == 64,
        ;
        lemma_loaded_vector_in_box(samples, dataset, p, local, i - dataset.partition_start(p));
    }
}

/// A loaded data set fits together.
pub proof fn law_built_data_is_consistent(samples: Seq<Sample>, dataset: LoadedDataset)
    requires
        loaded_from(dataset, samples),
        full_vectors(samples),
        samples.len() + BLOCK_SIZE <= usize::MAX,
    ensures
        dataset.consistent(),
{
    let n = PARTITION_COUNT as nat;
    lemma_tables(samples, dataset, n - 1);
    lemma_partitions_within(samples, n);
    lemma_built_length(samples, n);
    law_i16_file_round_trip(coordinates(built(samples, n)));
    law_i16_file_round_trip(built_bounds(samples, n));
    assert forall|p: int| 0 <= p < PARTITION_COUNT implies #[trigger] dataset.partition_is_tiled(
        p,
    ) by {
        law_built_bounds_hold(samples, dataset, p);
    }
}

/// Samples as a search sees them: distance from the query, and label.
pub open spec fn sample_candidates(samples: Seq<Sample>, query: Seq<i16>) -> Seq<
    (int, ReferenceLabel),
> {
    Seq::new(
        samples.len(),
        |a: int| (squared_l2(query, samples[a].vector), samples[a].label),
    )
}

/// Searching a loaded data set finds the nearest of the samples that were written into
/// the partition.
pub proof fn law_search_finds_written_samples(
    samples: Seq<Sample>,
    dataset: LoadedDataset,
    query: Seq<i16>,
    p: int,
    k: nat,
)
    requires
        loaded_from(dataset, samples),
        full_vectors(samples),
        samples.len() <= usize::MAX,
        0 <= p < PARTITION_COUNT,
        k > 0,
    ensures
        found(dataset, query, p, k) == shortlist(
            sample_candidates(built_partition(samples, p), query),
            k,
        ),
{
    let part = built_partition(samples, p);
    law_built_bounds_hold(samples, dataset, p);
    law_search_is_exact(dataset, query, p, k);
    lemma_tables(samples, dataset, p);
    let start = dataset.partition_start(p);
    let met = candidates(dataset, query, start, dataset.partition_start(p + 1));
    assert forall|a: int| 0 <= a < part.len() implies met[a] == sample_candidates(part, query)[a] by {
        law_written_samples_are_read(samples, dataset, p, a);
    }
    assert(met =~= sample_candidates(part, query));
}

/// A partition is made of the samples with its key, in order of arrival, and every fraud counts.
pub proof fn law_partitions_part_the_samples(samples: Seq<Sample>, p: int)
    ensures
        in_partition(samples, p) == samples.filter(|s: Sample| partition_key(s.vector) == p),
        fraud_samples(samples) == samples.filter(
            |s: Sample| s.label == ReferenceLabel::Fraud,
        ).len(),
    decreases samples.len(),
{
    reveal(Seq::filter);
    if samples.len() > 0 {
        law_partitions_part_the_samples(samples.drop_last(), p);
    }
}

/// A partition is laid out by coordinates 8, 1, 3 and 4, the earlier sample first among equal
/// ones: `ord` tells, place by place, which of the samples with its key stands there.
pub proof fn law_partition_is_laid_out_in_order(samples: Seq<Sample>, p: int) -> (ord: Seq<int>)
    ensures
        ({
            let part = samples.filter(|s: Sample| partition_key(s.vector) == p);
            let laid = built_partition(samples, p);
            let before = |x: Seq<i16>, y: Seq<i16>|
                {
                    ||| x[8] < y[8]
                    ||| x[8] == y[8] && x[1] < y[1]
                    ||| x[8] == y[8] && x[1] == y[1] && x[3] < y[3]
                    ||| x[8] == y[8] && x[1] == y[1] && x[3] == y[3] && x[4] < y[4]
                };
            &&& ord.len() == part.len()
            &&& laid.len() == part.len()
            &&& forall|a: int| 0 <= a < part.len() ==> 0 <= #[trigger] ord[a] < part.len()
            &&& forall|i: int| 0 <= i < part.len() ==> #[trigger] ord.contains(i)
            &&& forall|a: int| 0 <= a < part.len() ==> #[trigger] laid[a] == part[ord[a]]
            &&& forall|a: int, b: int|
                0 <= a < b < part.len() ==> {
                    ||| before((#[trigger] laid[a]).vector, (#[trigger] laid[b]).vector)
                    ||| !before(laid[b].vector, laid[a].vector) && ord[a] < ord[b]
                }
        }),
{
    law_partitions_part_the_samples(samples, p);
    let part = in_partition(samples, p);
    let keys = sample_keys(part);
    law_order_is_by_key(keys);
    let ord = order(keys);
    let laid = built_partition(samples, p);
    assert forall|a: int, b: int| 0 <= a < b < part.len() implies {
        let x = (#[trigger] laid[a]).vector;
        let y = (#[trigger] laid[b]).vector;
        ||| sort_key(x) < sort_key(y)
        ||| sort_key(x) == sort_key(y) && ord[a] < ord[b]
    } by {
        assert(keys[ord[a]] == sort_key(laid[a].vector));
        assert(keys[ord[b]] == sort_key(laid[b].vector));
    }
    ord
}

proof fn lemma_samples_before_are_counted(samples: Seq<Sample>, n: nat)
    ensures
        samples_before(samples, n) == samples.filter(
            |s: Sample| 0 <= partition_key(s.vector) < n,
        ).len(),
    decreases n,
{
    if n > 0 {
        lemma_samples_before_are_counted(samples, (n - 1) as nat);
        law_partitions_part_the_samples(samples, n - 1);
        lemma_one_more_key(samples, n - 1);
    } else {
        lemma_nothing_kept(samples);
    }
}

proof fn lemma_nothing_kept(samples: Seq<Sample>)
    ensures
        samples.filter(|s: Sample| 0 <= partition_key(s.vector) < 0).len() == 0,
    decreases samples.len(),
{
    reveal(Seq::filter);
    if samples.len() > 0 {
        lemma_nothing_kept(samples.drop_last());
    }
}

proof fn lemma_one_more_key(samples: Seq<Sample>, n: int)
    requires
        0 <= n,
    ensures
        samples.filter(|s: Sample| 0 <= partition_key(s.vector) < n + 1).len() == samples.filter(
            |s: Sample| 0 <= partition_key(s.vector) < n,
        ).len() + samples.filter(|s: Sample| partition_key(s.vector) == n).len(),
    decreases samples.len(),
{
    reveal(Seq::filter);
    if samples.len() > 0 {
        lemma_one_more_key(samples.drop_last(), n);
    }
}

/// The tables have an entry for each of the 256 partitions and one more. A partition starts behind
/// all samples with lesser keys, and its blocks behind those of lesser keys, sixty-four samples to
/// a block.
pub proof fn law_tables_count_samples_and_blocks(samples: Seq<Sample>, p: int)
    requires
        0 <= p < 256,
        samples.len() <= u64::MAX,
    ensures
        offset_table(samples).len() == 257,
        offset_table(samples)[p] == samples.filter(
            |s: Sample| 0 <= partition_key(s.vector) < p,
        ).len(),
        offset_table(samples)[256] == samples.len(),
        block_offset_table(samples).len() == 257,
        block_offset_table(samples)[0] == 0,
        ({
            let count = samples.filter(|s: Sample| partition_key(s.vector) == p).len();
            let blocks = block_offset_table(samples)[p + 1] - block_offset_table(samples)[p];
            &&& count == offset_table(samples)[p + 1] - offset_table(samples)[p]
            &&& 64 * (blocks - 1) < count <= 64 * blocks
        }),
{
    lemma_samples_before_are_counted(samples, p as nat);
    law_partitions_part_the_samples(samples, p);
    lemma_partitions_within(samples, p as nat);
    lemma_partitions_within(samples, (p + 1) as nat);
    lemma_partitions_within(samples, 256);
}

/// The files hold the partitions one after the other: sample `a` of partition `p` stands as many
/// places behind its start, with its fourteen coordinates and with one byte for its label.
pub proof fn law_files_hold_the_partitions(samples: Seq<Sample>, p: int, a: int, d: int)
    requires
        0 <= p < 256,
        0 <= a < built_partition(samples, p).len(),
        0 <= d < 14,
        samples.len() <= u64::MAX,
    ensures
        ({
            let all = built(samples, 256);
            let at = offset_table(samples)[p] + a;
            let sample = built_partition(samples, p)[a];
            &&& all.len() == samples.len()
            &&& coordinates(all).len() == 14 * samples.len()
            &&& sample_labels(all).len() == samples.len()
            &&& at < samples.len()
            &&& coordinates(all)[14 * at + d] == sample.vector[d]
            &&& sample_labels(all)[at] == if sample.label == ReferenceLabel::Fraud {
                1u8
            } else {
                0u8
            }
        }),
{
    lemma_partitions_within(samples, p as nat);
    lemma_partitions_within(samples, 256);
    lemma_built_length(samples, 256);
    lemma_built_at(samples, 256, p, a);
    let at = offset_table(samples)[p] + a;
    assert((14 * at + d) / 14 == at && (14 * at + d) % 14 == d);
}

/// The bounds of block `b` of partition `p` are its fourteen least coordinates, followed by its
/// fourteen greatest ones: no sample of the block lies outside, and each bound is met.
pub proof fn law_file_of_bounds_is_tight(samples: Seq<Sample>, p: int, b: int, d: int)
    requires
        0 <= p < 256,
        0 <= b,
        64 * b < built_partition(samples, p).len(),
        0 <= d < 14,
        samples.len() <= u64::MAX,
    ensures
        ({
            let bounds = built_bounds(samples, 256);
            let part = built_partition(samples, p);
            let at = 28 * (block_offset_table(samples)[p] + b) + d;
            &&& bounds.len() == 28 * block_offset_table(samples)[256]
            &&& at + 14 < bounds.len()
            &&& forall|a: int|
                64 * b <= a < 64 * b + 64 && a < part.len() ==> bounds[at] <= #[trigger] part[a].vector[d]
                    <= bounds[at + 14]
            &&& exists|a: int|
                64 * b <= a < 64 * b + 64 && a < part.len() && #[trigger] part[a].vector[d]
                    == bounds[at]
            &&& exists|a: int|
                64 * b <= a < 64 * b + 64 && a < part.len() && #[trigger] part[a].vector[d]
                    == bounds[at + 14]
        }),
{
    let part = built_partition(samples, p);
    let block = block_of(part, b);
    let vectors = vectors_of(block);
    lemma_partitions_within(samples, p as nat);
    lemma_partitions_within(samples, 256);
    lemma_built_length(samples, 256);
    lemma_built_bounds_at(samples, 256, p, b, d);
    lemma_built_bounds_at(samples, 256, p, b, d + 14);
    let bounds = built_bounds(samples, 256);
    let at = 28 * (block_offset_table(samples)[p] + b) + d;
    assert(bounds[at] == least(vectors, d));
    assert(bounds[at + 14] == greatest(vectors, d));
    assert forall|a: int| 64 * b <= a < 64 * b + 64 && a < part.len() implies bounds[at]
        <= #[trigger] part[a].vector[d] <= bounds[at + 14] by {
        assert(vectors[a - 64 * b] == part[a].vector);
        law_bounds_enclose(vectors, a - 64 * b, d);
    }
    law_bounds_are_met(vectors, d);
    let i = choose|i: int| 0 <= i < vectors.len() && #[trigger] vectors[i][d] == least(vectors, d);
    let j = choose|j: int|
        0 <= j < vectors.len() && #[trigger] vectors[j][d] == greatest(vectors, d);
    assert(part[64 * b + i].vector[d] == bounds[at]);
    assert(part[64 * b + j].vector[d] == bounds[at + 14]);
}

/// What the description of a data set says.
pub proof fn law_description_is_of_the_samples(meta: DatasetMeta, samples: Seq<Sample>)
    requires
        describes(meta, samples),
    ensures
        meta.version == 1,
        meta.dimensions == 14,
        meta.block_size == 64,
        meta.quantization_scale == 10000,
        meta.total_vectors == samples.len(),
        meta.fraud_vectors == samples.filter(
            |s: Sample| s.label == ReferenceLabel::Fraud,
        ).len(),
        meta.fraud_vectors + meta.legit_vectors == samples.len(),
        meta.vectors_f32_path@ == "vectors-f32.bin"@,
        meta.vectors_fp16_path@ == "vectors-fp16.bin"@,
        meta.vectors_i16_path@ == "vectors-i16.bin"@,
        meta.block_bounds_i16_path@ == "block-bounds-i16.bin"@,
        meta.labels_path@ == "labels.bin"@,
        meta.partition_offsets@ == offset_table(samples),
        meta.partition_block_offsets@ == block_offset_table(samples),
{
    law_partitions_part_the_samples(samples, 0);
}

} // verus!
