//! The binary index file: a 4096-byte header, the quantized vectors, their labels and,
//! in the kd-tree format, the tree's nodes.
use vstd::prelude::*;
use vstd::string::StringSliceAdditionalSpecFns;

use crate::http::bytes_equal;
use crate::nearest::{index_range, label_sum, lemma_nearest_exists, nearest_five};
use crate::index::{
    all_in_quantized_range, are_labels_binary, decide_from_slices, decide_kd_tree,
    decide_pruned_by_dim2, in_box, in_quantized_range, in_span, is_kd_tree_valid, is_sorted_by_dim2,
    kd_height, kd_node_locally_valid, kd_tree_checked, kd_tree_valid, labels_binary,
    lemma_checked_tree_valid, lemma_quantized_search_fits, nearest_outcome, row_distance, search_fits,
    sorted_by_dim2, Decision, KdNode, QuantizedVector, DIMS, KD_LEAF, KD_LEAF_SIZE, PADDED_DIMS,
};

verus! {

/// `std::io::Error`, declared so that `BinaryIndexError::Io` can carry one; nothing is
/// assumed of its contents.
#[verifier::external_type_specification]
#[verifier::external_body]
pub struct ExIoError(std::io::Error);

/// Size of the header that starts every index file.
pub const HEADER_SIZE: usize = 4096;
/// Bytes of one stored vector: `PADDED_DIMS` little-endian `i16`.
pub const VECTOR_BYTES: usize = 32;
/// Bytes of one stored kd-tree node: four `u32`, then `min` and `max` as `DIMS` `i16` each.
pub const NODE_BYTES: usize = 72;
/// Alignment of the first kd-tree node in the file.
pub const NODE_ALIGN: usize = 4;

/// Why an index file could not be read or written.
#[derive(Debug)]
pub enum BinaryIndexError {
    /// Reading or writing the file failed.
    Io(std::io::Error),
    /// The file is shorter than its header.
    TooSmall,
    /// The file does not start with a known magic.
    BadMagic,
    /// The file's length differs from the one its header announces.
    BadLength { expected: usize, actual: usize },
    /// The header announces more data than this platform can address.
    TooManyVectors(u64),
}

/// How the references of an index file are laid out.
#[derive(Debug, Clone, Copy, PartialEq, Eq, Structural)]
pub enum IndexFormat {
    /// `RINHIDX1`: references in any order, searched by a full scan.
    Legacy,
    /// `RINHIDX2`: references sorted by their third coordinate, searched outwards from the query.
    SortedByDim2,
    /// `RINHIDX3`: references grouped by a kd-tree whose nodes follow the labels.
    KdTree,
}

/// Where the parts of an index file lie, as its header announces them.
#[derive(Debug, Clone, Copy, PartialEq, Eq, Structural)]
pub struct IndexLayout {
    pub format: IndexFormat,
    /// Number of references.
    pub len: usize,
    /// Number of kd-tree nodes (0 unless the format is `KdTree`).
    pub node_count: usize,
    /// Offset of the first kd-tree node.
    pub nodes_start: usize,
}

/// The format named by the magic in the first eight bytes.
pub open spec fn magic_format(bytes: Seq<u8>) -> Option<IndexFormat> {
    let magic = bytes.subrange(0, 8);
    if magic == "RINHIDX3".spec_bytes() {
        Some(IndexFormat::KdTree)
    } else if magic == "RINHIDX2".spec_bytes() {
        Some(IndexFormat::SortedByDim2)
    } else if magic == "RINHIDX1".spec_bytes() {
        Some(IndexFormat::Legacy)
    } else {
        None
    }
}

/// The little-endian `u64` stored at `at`.
pub open spec fn header_u64(bytes: Seq<u8>, at: int) -> u64 {
    vstd::bytes::spec_u64_from_le_bytes(bytes.subrange(at, at + 8))
}

/// `value` rounded up to a multiple of `align`.
pub open spec fn aligned_up(value: int, align: int) -> int {
    ((value + align - 1) / align) * align
}

/// Offset just past the labels of an index of `len` references.
pub open spec fn labels_end_of(len: int) -> int {
    HEADER_SIZE + VECTOR_BYTES * len + len
}

/// Offset of the first node of an index of `len` references in `format`.
pub open spec fn nodes_start_of(format: IndexFormat, len: int) -> int {
    if format == IndexFormat::KdTree {
        aligned_up(labels_end_of(len), NODE_ALIGN as int)
    } else {
        labels_end_of(len)
    }
}

/// What reading the header of `bytes` gives: the layout of a file whose length matches
/// it, or the error for the first check that fails.
pub open spec fn index_layout(bytes: Seq<u8>) -> Result<IndexLayout, BinaryIndexError> {
    if bytes.len() < HEADER_SIZE {
        Err(BinaryIndexError::TooSmall)
    } else {
        match magic_format(bytes) {
            None => Err(BinaryIndexError::BadMagic),
            Some(format) => {
                let len = header_u64(bytes, 8);
                let node_count: u64 = if format == IndexFormat::KdTree { header_u64(bytes, 16) } else { 0 };
                if len > usize::MAX {
                    Err(BinaryIndexError::TooManyVectors(len))
                } else if node_count > usize::MAX {
                    Err(BinaryIndexError::TooManyVectors(node_count))
                } else if labels_end_of(len as int) > usize::MAX {
                    Err(BinaryIndexError::TooManyVectors(len))
                } else {
                    let nodes_start = nodes_start_of(format, len as int);
                    let expected = nodes_start + NODE_BYTES * node_count;
                    if expected > usize::MAX {
                        Err(BinaryIndexError::TooManyVectors(len))
                    } else if bytes.len() != expected {
                        Err(BinaryIndexError::BadLength { expected: expected as usize, actual: bytes.len() as usize })
                    } else {
                        Ok(IndexLayout {
                            format,
                            len: len as usize,
                            node_count: node_count as usize,
                            nodes_start: nodes_start as usize,
                        })
                    }
                }
            },
        }
    }
}

/// `left * right`, or `TooManyVectors(len)` when it overflows.
fn checked_mul(left: usize, right: usize, len: u64) -> (r: Result<usize, BinaryIndexError>)
    ensures
        left * right <= usize::MAX ==> (r matches Ok(v) && v == left * right),
        left * right > usize::MAX ==> (r matches Err(BinaryIndexError::TooManyVectors(l)) && l == len),
{
    match left.checked_mul(right) {
        Some(v) => Ok(v),
        None => Err(BinaryIndexError::TooManyVectors(len)),
    }
}

/// `left + right`, or `TooManyVectors(len)` when it overflows.
fn checked_add(left: usize, right: usize, len: u64) -> (r: Result<usize, BinaryIndexError>)
    ensures
        left + right <= usize::MAX ==> (r matches Ok(v) && v == left + right),
        left + right > usize::MAX ==> (r matches Err(BinaryIndexError::TooManyVectors(l)) && l == len),
{
    match left.checked_add(right) {
        Some(v) => Ok(v),
        None => Err(BinaryIndexError::TooManyVectors(len)),
    }
}

/// `value` rounded up to a multiple of `align`, which is the node alignment, four.
fn align_up(value: usize, align: usize) -> (r: usize)
    requires
        align == NODE_ALIGN,
        value + align <= usize::MAX,
    ensures
        r == aligned_up(value as int, align as int),
{
    let sum = value + align - 1;
    let mask = align - 1;
    assert(sum & !3usize == (sum / 4) * 4) by (bit_vector);
    sum & !mask
}

/// The end of the labels is `4` more than a multiple of 33, so that adding four to it
/// never passes `usize::MAX`: the four values below it leave 12 to 15 (64-bit) or 0 to 3
/// (32-bit) when divided by 33.
proof fn lemma_labels_end_aligns(len: int)
    requires
        0 <= len,
        labels_end_of(len) <= usize::MAX,
    ensures
        labels_end_of(len) + NODE_ALIGN <= usize::MAX,
{
    let e = labels_end_of(len);
    assert(e % 33 == 4) by (nonlinear_arith)
        requires e == 33 * len + 4096, len >= 0;
    if e + 4 > usize::MAX {
        if usize::MAX as int == 0xFFFF_FFFF_FFFF_FFFFint {
            assert(e == 0xFFFF_FFFF_FFFF_FFFFint || e == 0xFFFF_FFFF_FFFF_FFFEint
                || e == 0xFFFF_FFFF_FFFF_FFFDint || e == 0xFFFF_FFFF_FFFF_FFFCint);
            assert(0xFFFF_FFFF_FFFF_FFFCint % 33 == 12);
            assert(0xFFFF_FFFF_FFFF_FFFFint % 33 == 15);
            assert(0xFFFF_FFFF_FFFF_FFFEint % 33 == 14);
            assert(0xFFFF_FFFF_FFFF_FFFDint % 33 == 13);
        } else {
            assert(usize::MAX as int == 0xFFFF_FFFFint);
            assert(e == 0xFFFF_FFFFint || e == 0xFFFF_FFFEint || e == 0xFFFF_FFFDint
                || e == 0xFFFF_FFFCint);
            assert(0xFFFF_FFFCint % 33 == 0);
            assert(0xFFFF_FFFFint % 33 == 3);
            assert(0xFFFF_FFFEint % 33 == 2);
            assert(0xFFFF_FFFDint % 33 == 1);
        }
    }
}

/// Reads the header of an index file of `bytes.len()` bytes and checks that the file is
/// as long as the header says.
pub fn parse_layout(bytes: &[u8]) -> (r: Result<IndexLayout, BinaryIndexError>)
    ensures
        r == index_layout(bytes@),
{
    if bytes.len() < HEADER_SIZE {
        return Err(BinaryIndexError::TooSmall);
    }
    let magic = &bytes[0..8];
    proof {
        assert(magic@ == bytes@.subrange(0, 8));
    }
    let format = if bytes_equal(magic, "RINHIDX3".as_bytes()) {
        IndexFormat::KdTree
    } else if bytes_equal(magic, "RINHIDX2".as_bytes()) {
        IndexFormat::SortedByDim2
    } else if bytes_equal(magic, "RINHIDX1".as_bytes()) {
        IndexFormat::Legacy
    } else {
        return Err(BinaryIndexError::BadMagic);
    };
    let len_bytes = &bytes[8..16];
    proof {
        assert(len_bytes@ == bytes@.subrange(8, 16));
    }
    let len_u64 = vstd::bytes::u64_from_le_bytes(len_bytes);
    if len_u64 > usize::MAX as u64 {
        return Err(BinaryIndexError::TooManyVectors(len_u64));
    }
    let len = len_u64 as usize;
    let node_count = if format == IndexFormat::KdTree {
        let count_bytes = &bytes[16..24];
        proof {
            assert(count_bytes@ == bytes@.subrange(16, 24));
        }
        let count_u64 = vstd::bytes::u64_from_le_bytes(count_bytes);
        if count_u64 > usize::MAX as u64 {
            return Err(BinaryIndexError::TooManyVectors(count_u64));
        }
        count_u64 as usize
    } else {
        0
    };
    let vectors_len = checked_mul(len, VECTOR_BYTES, len_u64)?;
    let vectors_end = checked_add(HEADER_SIZE, vectors_len, len_u64)?;
    let labels_end = checked_add(vectors_end, len, len_u64)?;
    let nodes_start = if format == IndexFormat::KdTree {
        proof {
            lemma_labels_end_aligns(len as int);
        }
        align_up(labels_end, NODE_ALIGN)
    } else {
        labels_end
    };
    let nodes_len = checked_mul(node_count, NODE_BYTES, len_u64)?;
    let expected = checked_add(nodes_start, nodes_len, len_u64)?;
    if bytes.len() != expected {
        return Err(BinaryIndexError::BadLength { expected, actual: bytes.len() });
    }
    Ok(IndexLayout { format, len, node_count, nodes_start })
}

/// The little-endian `i16` stored at `at`.
pub open spec fn le_i16_at(bytes: Seq<u8>, at: int) -> i16 {
    vstd::bytes::spec_u16_from_le_bytes(bytes.subrange(at, at + 2)) as i16
}

/// The little-endian `u32` stored at `at`.
pub open spec fn le_u32_at(bytes: Seq<u8>, at: int) -> u32 {
    vstd::bytes::spec_u32_from_le_bytes(bytes.subrange(at, at + 4))
}

/// The `count` little-endian `i16` stored from `at` on.
pub open spec fn le_i16s_at(bytes: Seq<u8>, at: int, count: nat) -> Seq<i16> {
    Seq::new(count, |d: int| le_i16_at(bytes, at + 2 * d))
}

/// `node` is the kd-tree node stored at `at`.
pub open spec fn node_stored_at(bytes: Seq<u8>, at: int, node: KdNode) -> bool {
    &&& node.start == le_u32_at(bytes, at)
    &&& node.end == le_u32_at(bytes, at + 4)
    &&& node.left == le_u32_at(bytes, at + 8)
    &&& node.right == le_u32_at(bytes, at + 12)
    &&& node.min@ == le_i16s_at(bytes, at + 16, 14)
    &&& node.max@ == le_i16s_at(bytes, at + 44, 14)
}

/// Offset of the vector of reference `i`.
pub open spec fn vector_offset(i: int) -> int {
    HEADER_SIZE + VECTOR_BYTES * i
}

fn read_i16(bytes: &[u8], at: usize) -> (r: i16)
    requires
        at + 2 <= bytes.len(),
    ensures
        r == le_i16_at(bytes@, at as int),
{
    let part = &bytes[at..at + 2];
    proof {
        assert(part@ == bytes@.subrange(at as int, at + 2));
    }
    vstd::bytes::u16_from_le_bytes(part) as i16
}

fn read_u32(bytes: &[u8], at: usize) -> (r: u32)
    requires
        at + 4 <= bytes.len(),
    ensures
        r == le_u32_at(bytes@, at as int),
{
    let part = &bytes[at..at + 4];
    proof {
        assert(part@ == bytes@.subrange(at as int, at + 4));
    }
    vstd::bytes::u32_from_le_bytes(part)
}

fn read_vector(bytes: &[u8], at: usize) -> (v: QuantizedVector)
    requires
        at + VECTOR_BYTES <= bytes.len(),
    ensures
        v@ == le_i16s_at(bytes@, at as int, 16),
{
    let mut v: QuantizedVector = [0i16; PADDED_DIMS];
    let mut d: usize = 0;
    while d < PADDED_DIMS
        invariant
            d <= 16,
            at + 32 <= bytes.len(),
            forall|k: int| 0 <= k < d ==> v@[k] == #[trigger] le_i16_at(bytes@, at + 2 * k),
        decreases 16 - d,
    {
        v[d] = read_i16(bytes, at + 2 * d);
        d = d + 1;
    }
    proof {
        assert(v@ =~= le_i16s_at(bytes@, at as int, 16));
    }
    v
}

fn read_coordinates(bytes: &[u8], at: usize) -> (v: [i16; DIMS])
    requires
        at + 28 <= bytes.len(),
    ensures
        v@ == le_i16s_at(bytes@, at as int, 14),
{
    let mut v: [i16; DIMS] = [0i16; DIMS];
    let mut d: usize = 0;
    while d < DIMS
        invariant
            d <= 14,
            at + 28 <= bytes.len(),
            forall|k: int| 0 <= k < d ==> v@[k] == #[trigger] le_i16_at(bytes@, at + 2 * k),
        decreases 14 - d,
    {
        v[d] = read_i16(bytes, at + 2 * d);
        d = d + 1;
    }
    proof {
        assert(v@ =~= le_i16s_at(bytes@, at as int, 14));
    }
    v
}

fn read_node(bytes: &[u8], at: usize) -> (node: KdNode)
    requires
        at + NODE_BYTES <= bytes.len(),
    ensures
        node_stored_at(bytes@, at as int, node),
{
    KdNode {
        start: read_u32(bytes, at),
        end: read_u32(bytes, at + 4),
        left: read_u32(bytes, at + 8),
        right: read_u32(bytes, at + 12),
        min: read_coordinates(bytes, at + 16),
        max: read_coordinates(bytes, at + 44),
    }
}

/// The references of an index file, read from the file's bytes.
pub struct MmapIndex {
    format: IndexFormat,
    vectors: Vec<QuantizedVector>,
    labels: Vec<u8>,
    nodes: Vec<KdNode>,
}

impl MmapIndex {
    pub closed spec fn format_view(&self) -> IndexFormat {
        self.format
    }

    pub closed spec fn vectors_view(&self) -> Seq<QuantizedVector> {
        self.vectors@
    }

    pub closed spec fn labels_view(&self) -> Seq<u8> {
        self.labels@
    }

    pub closed spec fn nodes_view(&self) -> Seq<KdNode> {
        self.nodes@
    }

    /// The index holds what `bytes`, a file of the given layout, stores.
    pub open spec fn read_from(&self, bytes: Seq<u8>, layout: IndexLayout) -> bool {
        let len = layout.len as int;
        &&& self.format_view() == layout.format
        &&& self.vectors_view().len() == len
        &&& forall|i: int| 0 <= i < len ==> #[trigger] self.vectors_view()[i]@
            == le_i16s_at(bytes, vector_offset(i), 16)
        &&& self.labels_view() == bytes.subrange(vector_offset(len), labels_end_of(len))
        &&& self.nodes_view().len() == layout.node_count
        &&& forall|j: int| 0 <= j < layout.node_count ==> node_stored_at(bytes,
            layout.nodes_start + NODE_BYTES * j, #[trigger] self.nodes_view()[j])
    }

    /// Reads an index from the bytes of its file.
    pub fn from_bytes(bytes: &[u8]) -> (r: Result<Self, BinaryIndexError>)
        ensures
            match index_layout(bytes@) {
                Ok(layout) => r matches Ok(index) && index.read_from(bytes@, layout),
                Err(e) => r matches Err(e2) && e2 == e,
            },
    {
        let layout = match parse_layout(bytes) {
            Ok(layout) => layout,
            Err(e) => { return Err(e); }
        };
        let len = layout.len;
        proof {
            assert(labels_end_of(len as int) <= layout.nodes_start);
            assert(layout.nodes_start + NODE_BYTES * layout.node_count == bytes@.len());
        }
        let mut vectors: Vec<QuantizedVector> = Vec::new();
        let mut i: usize = 0;
        while i < len
            invariant
                i <= len,
                len == layout.len,
                labels_end_of(len as int) <= bytes.len(),
                vectors@.len() == i,
                forall|k: int| 0 <= k < i ==> #[trigger] vectors@[k]@ == le_i16s_at(bytes@,
                    vector_offset(k), 16),
            decreases len - i,
        {
            vectors.push(read_vector(bytes, HEADER_SIZE + VECTOR_BYTES * i));
            i = i + 1;
        }
        let labels_start = HEADER_SIZE + VECTOR_BYTES * len;
        let label_bytes = &bytes[labels_start..labels_start + len];
        let mut labels: Vec<u8> = Vec::new();
        labels.extend_from_slice(label_bytes);
        proof {
            assert(label_bytes@ == bytes@.subrange(vector_offset(len as int), labels_end_of(len as int)));
            assert(labels@ =~= label_bytes@);
        }
        let mut nodes: Vec<KdNode> = Vec::new();
        let mut j: usize = 0;
        while j < layout.node_count
            invariant
                j <= layout.node_count,
                layout.nodes_start + NODE_BYTES * layout.node_count == bytes.len(),
                nodes@.len() == j,
                forall|k: int| 0 <= k < j ==> node_stored_at(bytes@, layout.nodes_start + NODE_BYTES * k,
                    #[trigger] nodes@[k]),
            decreases layout.node_count - j,
        {
            nodes.push(read_node(bytes, layout.nodes_start + NODE_BYTES * j));
            j = j + 1;
        }
        Ok(MmapIndex { format: layout.format, vectors, labels, nodes })
    }

    /// Number of references.
    pub fn len(&self) -> (n: usize)
        ensures
            n == self.vectors_view().len(),
    {
        self.vectors.len()
    }

    pub fn is_empty(&self) -> (b: bool)
        ensures
            b == (self.vectors_view().len() == 0),
    {
        self.vectors.len() == 0
    }

    /// The references are sorted by their third coordinate.
    pub fn supports_pruned_search(&self) -> (b: bool)
        ensures
            b == (self.format_view() == IndexFormat::SortedByDim2),
    {
        self.format == IndexFormat::SortedByDim2
    }

    /// The references come with a kd-tree.
    pub fn supports_kd_tree(&self) -> (b: bool)
        ensures
            b == (self.format_view() == IndexFormat::KdTree),
    {
        self.format == IndexFormat::KdTree
    }

    pub fn vectors(&self) -> (v: &[QuantizedVector])
        ensures
            v@ == self.vectors_view(),
    {
        self.vectors.as_slice()
    }

    pub fn labels(&self) -> (l: &[u8])
        ensures
            l@ == self.labels_view(),
    {
        self.labels.as_slice()
    }

    pub fn nodes(&self) -> (n: &[KdNode])
        ensures
            n@ == self.nodes_view(),
    {
        self.nodes.as_slice()
    }

    /// Vectors and labels come in equal numbers.
    pub open spec fn well_formed(&self) -> bool {
        self.vectors_view().len() == self.labels_view().len()
    }

    /// The index fits the search its format calls for: sorted references for the pruned
    /// scan, a valid tree for the kd-tree search.
    pub open spec fn searchable(&self) -> bool {
        &&& self.well_formed()
        &&& self.format_view() == IndexFormat::SortedByDim2 ==> sorted_by_dim2(self.vectors_view())
        &&& self.format_view() == IndexFormat::KdTree ==> kd_tree_valid(self.nodes_view(), self.vectors_view())
    }

    /// The checks an index passes before it is searched: quantized references with binary
    /// labels, sorted references for the sorted format, and a tree that passes the
    /// node-by-node checks for the kd-tree format.
    pub open spec fn passes_checks(&self) -> bool {
        &&& self.well_formed()
        &&& forall|i: int| 0 <= i < self.vectors_view().len() ==> in_quantized_range(
            #[trigger] self.vectors_view()[i]@,
        )
        &&& labels_binary(self.labels_view())
        &&& self.format_view() == IndexFormat::SortedByDim2 ==> sorted_by_dim2(self.vectors_view())
        &&& self.format_view() == IndexFormat::KdTree ==> kd_tree_checked(self.nodes_view(), self.vectors_view())
    }

    /// Runs the checks; an index that passes them can be searched with any quantized query.
    pub fn check(&self) -> (b: bool)
        ensures
            b == self.passes_checks(),
            b ==> self.searchable(),
            b ==> forall|q: Seq<i16>| in_quantized_range(q) ==> #[trigger] search_fits(q, self.vectors_view(), self.labels_view()),
    {
        let vectors = self.vectors.as_slice();
        let labels = self.labels.as_slice();
        let ok = vectors.len() == labels.len() && all_in_quantized_range(vectors) && are_labels_binary(labels)
            && (self.format != IndexFormat::SortedByDim2 || is_sorted_by_dim2(vectors))
            && (self.format != IndexFormat::KdTree || is_kd_tree_valid(self.nodes.as_slice(), vectors));
        proof {
            if ok {
                if self.format == IndexFormat::KdTree {
                    lemma_checked_tree_valid(self.nodes@, self.vectors@);
                }
                assert forall|q: Seq<i16>| in_quantized_range(q) implies #[trigger] search_fits(q, self.vectors_view(), self.labels_view()) by {
                    lemma_quantized_search_fits(q, self.vectors@, self.labels@);
                }
            }
        }
        ok
    }

    /// What `decide_quantized` answers for `query`.
    pub open spec fn decision_for(&self, query: Seq<i16>) -> Decision {
        if self.format_view() == IndexFormat::KdTree && self.nodes_view().len() == 0 {
            Decision::with_fraud_count(0)
        } else {
            nearest_outcome(query, self.vectors_view(), self.labels_view())
        }
    }

    /// The decision of the five references nearest to `query`, found by the search of the
    /// index's format. A kd-tree index without nodes answers the safe fallback.
    pub fn decide_quantized(&self, query: &QuantizedVector) -> (d: Decision)
        requires
            self.searchable(),
            self.format_view() == IndexFormat::KdTree && self.nodes_view().len() == 0
                || search_fits(query@, self.vectors_view(), self.labels_view()),
        ensures
            d == self.decision_for(query@),
    {
        let vectors = self.vectors.as_slice();
        let labels = self.labels.as_slice();
        match self.format {
            IndexFormat::KdTree => decide_kd_tree(query, vectors, labels, self.nodes.as_slice()),
            IndexFormat::SortedByDim2 => decide_pruned_by_dim2(query, vectors, labels),
            IndexFormat::Legacy => decide_from_slices(query, vectors, labels),
        }
    }
}

/// The hour bucket of a query whose coordinate 3 (hour of day, quantized) is `hour`:
/// the hour clamped to `0 ..= 10000` and scaled to `0 ..= 23`, rounding half up.
pub open spec fn hour_bucket(hour: i16) -> int {
    let clamped: int = if hour < 0 { 0 } else if hour > 10000 { 10000 } else { hour as int };
    (clamped * 23 + 5000) / 10000
}

/// The quantized hour of day `h`: `h / 23` scaled by 10 000 and rounded to the nearest
/// integer (a quotient with 23 in its denominator is never halfway between two integers).
pub open spec fn quantized_hour(h: int) -> int {
    (20000 * h + 23) / 46
}

/// The bucket of a quantized hour of day is that hour.
pub proof fn law_hour_bucket_inverts_hour_quantization(h: int)
    requires
        0 <= h <= 23,
    ensures
        0 <= quantized_hour(h) <= 10000,
        hour_bucket(quantized_hour(h) as i16) == h,
{
    if h == 0 {
        assert(quantized_hour(h) == 0);
    } else if h == 1 {
        assert(quantized_hour(h) == 435);
    } else if h == 2 {
        assert(quantized_hour(h) == 870);
    } else if h == 3 {
        assert(quantized_hour(h) == 1304);
    } else if h == 4 {
        assert(quantized_hour(h) == 1739);
    } else if h == 5 {
        assert(quantized_hour(h) == 2174);
    } else if h == 6 {
        assert(quantized_hour(h) == 2609);
    } else if h == 7 {
        assert(quantized_hour(h) == 3043);
    } else if h == 8 {
        assert(quantized_hour(h) == 3478);
    } else if h == 9 {
        assert(quantized_hour(h) == 3913);
    } else if h == 10 {
        assert(quantized_hour(h) == 4348);
    } else if h == 11 {
        assert(quantized_hour(h) == 4783);
    } else if h == 12 {
        assert(quantized_hour(h) == 5217);
    } else if h == 13 {
        assert(quantized_hour(h) == 5652);
    } else if h == 14 {
        assert(quantized_hour(h) == 6087);
    } else if h == 15 {
        assert(quantized_hour(h) == 6522);
    } else if h == 16 {
        assert(quantized_hour(h) == 6957);
    } else if h == 17 {
        assert(quantized_hour(h) == 7391);
    } else if h == 18 {
        assert(quantized_hour(h) == 7826);
    } else if h == 19 {
        assert(quantized_hour(h) == 8261);
    } else if h == 20 {
        assert(quantized_hour(h) == 8696);
    } else if h == 21 {
        assert(quantized_hour(h) == 9130);
    } else if h == 22 {
        assert(quantized_hour(h) == 9565);
    } else {
        assert(quantized_hour(h) == 10000);
    }
}

fn quantized_hour_bucket(hour: i16) -> (b: usize)
    ensures
        b == hour_bucket(hour),
        b < 24,
{
    let wide = hour as i32;
    let clamped: i32 = if wide < 0 { 0 } else if wide > 10000 { 10000 } else { wide };
    ((clamped * 23 + 5000) / 10000) as usize
}

/// One index per hour of the day; a query is searched in the index of its hour.
pub struct HourBucketIndex {
    buckets: Vec<MmapIndex>,
}

impl HourBucketIndex {
    pub closed spec fn buckets_view(&self) -> Seq<MmapIndex> {
        self.buckets@
    }

    /// The index of the hours `0 ..= 23`, in that order.
    pub fn from_buckets(buckets: Vec<MmapIndex>) -> (r: Self)
        requires
            buckets@.len() == 24,
        ensures
            r.buckets_view() == buckets@,
    {
        HourBucketIndex { buckets }
    }

    /// The bucket that answers `query`.
    pub open spec fn bucket_for(&self, query: Seq<i16>) -> MmapIndex {
        self.buckets_view()[hour_bucket(query[3])]
    }

    /// The decision of the bucket of `query`'s hour.
    pub fn decide_quantized(&self, query: &QuantizedVector) -> (d: Decision)
        requires
            self.buckets_view().len() == 24,
            self.bucket_for(query@).searchable(),
            self.bucket_for(query@).format_view() == IndexFormat::KdTree
                && self.bucket_for(query@).nodes_view().len() == 0
                || search_fits(query@, self.bucket_for(query@).vectors_view(), self.bucket_for(query@).labels_view()),
        ensures
            d == self.bucket_for(query@).decision_for(query@),
    {
        let hour = quantized_hour_bucket(query[3]);
        self.buckets[hour].decide_quantized(query)
    }

    /// Runs one search in every bucket.
    pub fn warmup(&self)
        requires
            self.buckets_view().len() == 24,
            forall|h: int| 0 <= h < 24 ==> (#[trigger] self.buckets_view()[h]).searchable()
                && search_fits(seq![0i16; 16], self.buckets_view()[h].vectors_view(),
                self.buckets_view()[h].labels_view()),
    {
        let query: QuantizedVector = [0i16; PADDED_DIMS];
        let mut h: usize = 0;
        while h < self.buckets.len()
            invariant
                h <= 24,
                self.buckets_view().len() == 24,
                query@ == seq![0i16; 16],
                forall|k: int| 0 <= k < 24 ==> (#[trigger] self.buckets_view()[k]).searchable()
                    && search_fits(seq![0i16; 16], self.buckets_view()[k].vectors_view(),
                    self.buckets_view()[k].labels_view()),
            decreases 24 - h,
        {
            let _decision = self.buckets[h].decide_quantized(&query);
            h = h + 1;
        }
    }
}


/// The vectors of a list of (vector, label) entries.
pub open spec fn entry_vectors(entries: Seq<(QuantizedVector, u8)>) -> Seq<QuantizedVector> {
    entries.map_values(|e: (QuantizedVector, u8)| e.0)
}

/// The labels of a list of (vector, label) entries.
pub open spec fn entry_labels(entries: Seq<(QuantizedVector, u8)>) -> Seq<u8> {
    entries.map_values(|e: (QuantizedVector, u8)| e.1)
}

/// Each vector paired with the label at the same position.
pub open spec fn paired(vectors: Seq<QuantizedVector>, labels: Seq<u8>) -> Seq<(QuantizedVector, u8)> {
    Seq::new(vectors.len(), |i: int| (vectors[i], labels[i]))
}

/// Width of coordinate `d` of a bounding box.
pub open spec fn box_width(min: Seq<i16>, max: Seq<i16>, d: int) -> int {
    max[d] - min[d]
}

/// `d` is the widest coordinate of the box, the last one among equally wide coordinates.
pub open spec fn is_widest(min: Seq<i16>, max: Seq<i16>, d: int) -> bool {
    &&& 0 <= d < 14
    &&& forall|e: int| 0 <= e < 14 ==> #[trigger] box_width(min, max, e) <= box_width(min, max, d)
    &&& forall|e: int| d < e < 14 ==> #[trigger] box_width(min, max, e) < box_width(min, max, d)
}

/// The least coordinate `d` among the first `n` entries (`i16::MAX` for none).
pub open spec fn coordinate_min(entries: Seq<(QuantizedVector, u8)>, d: int, n: nat) -> i16
    decreases n,
{
    if n == 0 {
        i16::MAX
    } else {
        let rest = coordinate_min(entries, d, (n - 1) as nat);
        let v = entries[n - 1].0@[d];
        if v < rest { v } else { rest }
    }
}

/// The greatest coordinate `d` among the first `n` entries (`i16::MIN` for none).
pub open spec fn coordinate_max(entries: Seq<(QuantizedVector, u8)>, d: int, n: nat) -> i16
    decreases n,
{
    if n == 0 {
        i16::MIN
    } else {
        let rest = coordinate_max(entries, d, (n - 1) as nat);
        let v = entries[n - 1].0@[d];
        if v > rest { v } else { rest }
    }
}

/// `min` and `max` are the coordinate-wise least and greatest of the entries' first
/// `DIMS` coordinates.
pub open spec fn is_bounding_box(entries: Seq<(QuantizedVector, u8)>, min: Seq<i16>, max: Seq<i16>) -> bool {
    &&& min.len() == 14 && max.len() == 14
    &&& forall|d: int| 0 <= d < 14 ==> #[trigger] min[d] == coordinate_min(entries, d, entries.len())
    &&& forall|d: int| 0 <= d < 14 ==> #[trigger] max[d] == coordinate_max(entries, d, entries.len())
}

/// Every entry lies within the bounding box.
proof fn lemma_bounding_box_holds(entries: Seq<(QuantizedVector, u8)>, d: int, n: nat)
    requires
        n <= entries.len(),
    ensures
        forall|i: int| 0 <= i < n ==> coordinate_min(entries, d, n) <= #[trigger] entries[i].0@[d]
            <= coordinate_max(entries, d, n),
    decreases n,
{
    if n > 0 {
        lemma_bounding_box_holds(entries, d, (n - 1) as nat);
    }
}

fn bounding_box(entries: &[(QuantizedVector, u8)]) -> (r: ([i16; DIMS], [i16; DIMS]))
    ensures
        is_bounding_box(entries@, r.0@, r.1@),
{
    let mut min: [i16; DIMS] = [i16::MAX; DIMS];
    let mut max: [i16; DIMS] = [i16::MIN; DIMS];
    let mut i: usize = 0;
    while i < entries.len()
        invariant
            i <= entries@.len(),
            min@.len() == 14 && max@.len() == 14,
            forall|d: int| 0 <= d < 14 ==> #[trigger] min@[d] == coordinate_min(entries@, d, i as nat),
            forall|d: int| 0 <= d < 14 ==> #[trigger] max@[d] == coordinate_max(entries@, d, i as nat),
        decreases entries@.len() - i,
    {
        let vector = entries[i].0;
        let ghost min_before = min@;
        let ghost max_before = max@;
        let mut d: usize = 0;
        while d < DIMS
            invariant
                d <= 14,
                i < entries@.len(),
                vector == entries@[i as int].0,
                min@.len() == 14 && max@.len() == 14,
                forall|e: int| 0 <= e < 14 ==> #[trigger] min_before[e] == coordinate_min(entries@, e, i as nat),
                forall|e: int| 0 <= e < 14 ==> #[trigger] max_before[e] == coordinate_max(entries@, e, i as nat),
                forall|e: int| 0 <= e < d ==> #[trigger] min@[e] == coordinate_min(entries@, e, (i + 1) as nat),
                forall|e: int| 0 <= e < d ==> #[trigger] max@[e] == coordinate_max(entries@, e, (i + 1) as nat),
                forall|e: int| d <= e < 14 ==> #[trigger] min@[e] == min_before[e],
                forall|e: int| d <= e < 14 ==> #[trigger] max@[e] == max_before[e],
            decreases 14 - d,
        {
            proof {
                assert(min@[d as int] == coordinate_min(entries@, d as int, i as nat));
                assert(max@[d as int] == coordinate_max(entries@, d as int, i as nat));
            }
            if vector[d] < min[d] {
                min[d] = vector[d];
            }
            if vector[d] > max[d] {
                max[d] = vector[d];
            }
            d = d + 1;
        }
        i = i + 1;
    }
    (min, max)
}

fn widest_dimension(min: &[i16; DIMS], max: &[i16; DIMS]) -> (d: usize)
    ensures
        is_widest(min@, max@, d as int),
{
    let mut best: usize = 0;
    let mut dim: usize = 1;
    while dim < DIMS
        invariant
            1 <= dim <= 14,
            best < dim,
            min@.len() == 14 && max@.len() == 14,
            forall|e: int| 0 <= e < dim ==> #[trigger] box_width(min@, max@, e) <= box_width(min@, max@, best as int),
            forall|e: int| best < e < dim ==> #[trigger] box_width(min@, max@, e) < box_width(min@, max@, best as int),
        decreases 14 - dim,
    {
        let width = max[dim] as i32 - min[dim] as i32;
        let best_width = max[best] as i32 - min[best] as i32;
        if width >= best_width {
            best = dim;
        }
        dim = dim + 1;
    }
    best
}


/// Entries that are a reordering of entries within a box lie within the box.
proof fn lemma_reordered_in_box(before: Seq<(QuantizedVector, u8)>, after: Seq<(QuantizedVector, u8)>, node: KdNode)
    requires
        after.to_multiset() == before.to_multiset(),
        forall|i: int| 0 <= i < before.len() ==> in_box(node, #[trigger] before[i].0@),
    ensures
        forall|i: int| 0 <= i < after.len() ==> in_box(node, #[trigger] after[i].0@),
{
    broadcast use vstd::seq_lib::group_to_multiset_ensures;
    assert forall|i: int| 0 <= i < after.len() implies in_box(node, #[trigger] after[i].0@) by {
        let x = after[i];
        assert(after.contains(x));
        assert(after.to_multiset().count(x) > 0);
        assert(before.contains(x));
        let j = choose|j: int| 0 <= j < before.len() && before[j] == x;
        assert(in_box(node, before[j].0@));
    }
}

/// The entries `a .. c` hold the entries `a .. b` and `b .. c`.
proof fn lemma_split_multiset(s: Seq<(QuantizedVector, u8)>, a: int, b: int, c: int)
    requires
        0 <= a <= b <= c <= s.len(),
    ensures
        s.subrange(a, c).to_multiset() == s.subrange(a, b).to_multiset().add(s.subrange(b, c).to_multiset()),
{
    assert(s.subrange(a, c) =~= s.subrange(a, b) + s.subrange(b, c));
    vstd::seq_lib::lemma_multiset_commutative(s.subrange(a, b), s.subrange(b, c));
}

/// Most nodes a subtree built for `count` entries takes: one for up to 31 entries, and
/// otherwise one for every 16 entries beyond the first 16 (its leaves hold at least 32
/// entries each).
pub open spec fn kd_node_count_bound(count: nat) -> nat {
    if count < 32 { 1 } else { ((count - 16) / 16) as nat }
}

/// Most entries a subtree of height `h` is built for: 64 doubled `h` times.
pub open spec fn kd_capacity(h: nat) -> nat
    decreases h,
{
    if h == 0 { KD_LEAF_SIZE as nat } else { 2 * kd_capacity((h - 1) as nat) }
}

/// `slice::select_nth_unstable_by_key` on `entries[start..end]`, keyed by coordinate `dim`:
/// the slice is reordered so that the entry at `start + nth` is where a sort by that key
/// would put it, with no greater key before it and no smaller key after it. The entries
/// outside `start..end` are not touched. Which of several entries with equal keys ends up
/// where is not stated.
#[verifier::external_body]
fn select_nth_by_coordinate(
    entries: &mut Vec<(QuantizedVector, u8)>,
    start: usize,
    end: usize,
    nth: usize,
    dim: usize,
)
    requires
        start + nth < end <= old(entries)@.len(),
        dim < PADDED_DIMS,
    ensures
        final(entries)@.len() == old(entries)@.len(),
        forall|i: int| 0 <= i < start || end <= i < old(entries)@.len() ==> #[trigger] final(entries)@[i]
            == old(entries)@[i],
        final(entries)@.subrange(start as int, end as int).to_multiset() == old(entries)@.subrange(
            start as int,
            end as int,
        ).to_multiset(),
        forall|i: int| start <= i < start + nth ==> #[trigger] final(entries)@[i].0@[dim as int]
            <= final(entries)@[start + nth].0@[dim as int],
        forall|i: int| start + nth < i < end ==> final(entries)@[start + nth].0@[dim as int]
            <= #[trigger] final(entries)@[i].0@[dim as int],
{
    entries[start..end].select_nth_unstable_by_key(nth, |entry| entry.0[dim]);
}


/// Nodes `lo .. hi` are locally valid, cover only entries of `start .. end`, and point
/// only at children below `hi`.
pub open spec fn kd_block(nodes: Seq<KdNode>, vectors: Seq<QuantizedVector>, lo: int, hi: int, start: int, end: int) -> bool {
    forall|j: int| lo <= j < hi ==> {
        &&& kd_node_locally_valid(nodes, vectors, j)
        &&& start <= #[trigger] nodes[j].start
        &&& nodes[j].end <= end
        &&& nodes[j].left != KD_LEAF ==> nodes[j].left < hi && nodes[j].right < hi
    }
}

/// A block stays one when its nodes and the vectors of its entries stay.
proof fn lemma_kd_block_frame(
    n1: Seq<KdNode>,
    v1: Seq<QuantizedVector>,
    n2: Seq<KdNode>,
    v2: Seq<QuantizedVector>,
    lo: int,
    hi: int,
    start: int,
    end: int,
)
    requires
        kd_block(n1, v1, lo, hi, start, end),
        0 <= lo,
        hi <= n1.len(),
        hi <= n2.len(),
        forall|j: int| lo <= j < hi ==> #[trigger] n2[j] == n1[j],
        end <= v2.len(),
        forall|i: int| start <= i < end ==> #[trigger] v2[i] == v1[i],
    ensures
        kd_block(n2, v2, lo, hi, start, end),
{
    assert forall|j: int| lo <= j < hi implies {
        &&& kd_node_locally_valid(n2, v2, j)
        &&& start <= #[trigger] n2[j].start
        &&& n2[j].end <= end
        &&& n2[j].left != KD_LEAF ==> n2[j].left < hi && n2[j].right < hi
    } by {
        assert(n2[j] == n1[j]);
        assert(start <= n1[j].start);
        assert(kd_node_locally_valid(n1, v1, j));
        let node = n1[j];
        assert forall|i: int| #[trigger] in_span(node, i) implies in_box(node, v2[i]@) by {
            assert(v2[i] == v1[i]);
        }
        if node.left != KD_LEAF {
            assert(n2[node.left as int] == n1[node.left as int]);
            assert(n2[node.right as int] == n1[node.right as int]);
        }
    }
}

/// The height below a node of a block depends only on the block.
proof fn lemma_kd_height_frame(
    n1: Seq<KdNode>,
    v1: Seq<QuantizedVector>,
    n2: Seq<KdNode>,
    k: int,
    lo: int,
    hi: int,
    start: int,
    end: int,
)
    requires
        kd_block(n1, v1, lo, hi, start, end),
        0 <= lo <= k < hi,
        hi <= n1.len(),
        hi <= n2.len(),
        forall|j: int| lo <= j < hi ==> #[trigger] n2[j] == n1[j],
    ensures
        kd_height(n2, k) == kd_height(n1, k),
    decreases hi - k,
{
    assert(n2[k] == n1[k]);
    assert(start <= n1[k].start);
    assert(kd_node_locally_valid(n1, v1, k));
    if n1[k].left != KD_LEAF {
        let l = n1[k].left as int;
        let r = n1[k].right as int;
        lemma_kd_height_frame(n1, v1, n2, l, lo, hi, start, end);
        lemma_kd_height_frame(n1, v1, n2, r, lo, hi, start, end);
    }
}

/// The bounding box of entries `start .. end` holds each of them.
proof fn lemma_box_of_range(
    entries: Seq<(QuantizedVector, u8)>,
    start: int,
    end: int,
    min: [i16; DIMS],
    max: [i16; DIMS],
    node: KdNode,
)
    requires
        0 <= start < end <= entries.len(),
        is_bounding_box(entries.subrange(start, end), min@, max@),
        node.min == min,
        node.max == max,
    ensures
        forall|i: int| 0 <= i < end - start ==> in_box(node, #[trigger] entries.subrange(start, end)[i].0@),
{
    let sub = entries.subrange(start, end);
    assert forall|i: int| 0 <= i < end - start implies in_box(node, #[trigger] sub[i].0@) by {
        assert forall|d: int| 0 <= d < 14 implies node.min@[d] <= #[trigger] sub[i].0@[d] <= node.max@[d] by {
            lemma_bounding_box_holds(sub, d, sub.len());
        }
    }
}

/// The entries of a node that were reordered around its split, then within each half, are
/// a reordering of those it was bounded on, so they stay within its box.
proof fn lemma_node_entries_reordered(
    e0: Seq<(QuantizedVector, u8)>,
    e1: Seq<(QuantizedVector, u8)>,
    e2: Seq<(QuantizedVector, u8)>,
    e3: Seq<(QuantizedVector, u8)>,
    s: int,
    m: int,
    t: int,
    node: KdNode,
)
    requires
        0 <= s < m < t <= e0.len(),
        e1.len() == e0.len() && e2.len() == e0.len() && e3.len() == e0.len(),
        e1.subrange(s, t).to_multiset() == e0.subrange(s, t).to_multiset(),
        forall|i: int| 0 <= i < s || m <= i < e1.len() ==> #[trigger] e2[i] == e1[i],
        e2.subrange(s, m).to_multiset() == e1.subrange(s, m).to_multiset(),
        forall|i: int| 0 <= i < m || t <= i < e2.len() ==> #[trigger] e3[i] == e2[i],
        e3.subrange(m, t).to_multiset() == e2.subrange(m, t).to_multiset(),
        forall|i: int| 0 <= i < t - s ==> in_box(node, #[trigger] e0.subrange(s, t)[i].0@),
        node.start == s && node.end == t,
    ensures
        e3.subrange(s, t).to_multiset() == e0.subrange(s, t).to_multiset(),
        forall|i: int| #[trigger] in_span(node, i) ==> in_box(node, entry_vectors(e3)[i]@),
{
    assert(e3.subrange(s, m) =~= e2.subrange(s, m));
    assert(e2.subrange(m, t) =~= e1.subrange(m, t));
    lemma_split_multiset(e3, s, m, t);
    lemma_split_multiset(e2, s, m, t);
    lemma_split_multiset(e1, s, m, t);
    lemma_reordered_in_box(e0.subrange(s, t), e3.subrange(s, t), node);
    assert forall|i: int| #[trigger] in_span(node, i) implies in_box(node, entry_vectors(e3)[i]@) by {
        assert(e3.subrange(s, t)[i - s] == e3[i]);
    }
}

/// Node `k`, whose subtrees were built as the blocks `k + 1 .. b` (entries `s .. m`) and
/// `b .. c` (entries `m .. t`) and which was then given them as children, heads a block
/// `k .. c` no higher than `height`.
proof fn lemma_split_block(
    b1: int,
    n2: Seq<KdNode>,
    v2: Seq<QuantizedVector>,
    n3: Seq<KdNode>,
    v3: Seq<QuantizedVector>,
    n4: Seq<KdNode>,
    k: int,
    node: KdNode,
    s: int,
    m: int,
    t: int,
    height: nat,
)
    requires
        height >= 1,
        k + 1 == b1,
        0 <= k,
        b1 < n2.len() < n3.len(),
        node.left as int == b1,
        node.right as int == n2.len(),
        node.start == s && node.end == t,
        s < m < t,
        kd_block(n2, v2, b1, n2.len() as int, s, m),
        kd_height(n2, b1) <= height - 1,
        n2[b1].start == s && n2[b1].end == m,
        kd_block(n3, v3, n2.len() as int, n3.len() as int, m, t),
        kd_height(n3, n2.len() as int) <= height - 1,
        n3[n2.len() as int].start == m && n3[n2.len() as int].end == t,
        forall|j: int| 0 <= j < n2.len() ==> #[trigger] n3[j] == n2[j],
        n4 == n3.update(k, node),
        t <= v3.len(),
        forall|i: int| s <= i < m ==> #[trigger] v3[i] == v2[i],
        forall|i: int| #[trigger] in_span(node, i) ==> in_box(node, v3[i]@),
    ensures
        kd_block(n4, v3, k, n4.len() as int, s, t),
        kd_height(n4, k) <= height,
{
    lemma_kd_block_frame(n2, v2, n4, v3, b1, n2.len() as int, s, m);
    lemma_kd_block_frame(n3, v3, n4, v3, n2.len() as int, n3.len() as int, m, t);
    lemma_kd_height_frame(n2, v2, n4, b1, b1, n2.len() as int, s, m);
    lemma_kd_height_frame(n3, v3, n4, n2.len() as int, n2.len() as int, n3.len() as int, m, t);
    assert(n4[k] == node);
    assert(n4[b1] == n2[b1]);
    assert(kd_node_locally_valid(n4, v3, k));
    assert forall|j: int| k <= j < n4.len() implies {
        &&& kd_node_locally_valid(n4, v3, j)
        &&& s <= #[trigger] n4[j].start
        &&& n4[j].end <= t
        &&& n4[j].left != KD_LEAF ==> n4[j].left < n4.len() && n4[j].right < n4.len()
    } by {
        if j == k {
        } else if j < n2.len() {
            assert(s <= n4[j].start);
        } else {
            assert(m <= n4[j].start);
        }
    }
}

/// Number of nodes of the tree built over `count` entries: a leaf for at most
/// `KD_LEAF_SIZE` entries, otherwise a node followed by the trees of the two halves.
pub open spec fn kd_node_count(count: nat) -> nat
    decreases count,
{
    if count <= KD_LEAF_SIZE {
        1
    } else {
        1 + kd_node_count(count / 2) + kd_node_count((count - count / 2) as nat)
    }
}

proof fn lemma_node_count_bounded(count: nat)
    requires
        count >= 1,
    ensures
        1 <= kd_node_count(count) <= kd_node_count_bound(count),
    decreases count,
{
    if count > KD_LEAF_SIZE {
        let a = count / 2;
        let b = (count - count / 2) as nat;
        lemma_node_count_bounded(a);
        lemma_node_count_bounded(b);
        assert(1 + kd_node_count_bound(a) + kd_node_count_bound(b) <= kd_node_count_bound(count));
    }
}

/// Some entry of `node` has coordinate `d` equal to the box's minimum.
pub open spec fn min_attained(node: KdNode, vectors: Seq<QuantizedVector>, d: int) -> bool {
    exists|i: int| in_span(node, i) && #[trigger] vectors[i]@[d] == node.min@[d]
}

/// Some entry of `node` has coordinate `d` equal to the box's maximum.
pub open spec fn max_attained(node: KdNode, vectors: Seq<QuantizedVector>, d: int) -> bool {
    exists|i: int| in_span(node, i) && #[trigger] vectors[i]@[d] == node.max@[d]
}

/// Coordinate `d` of each entry in `start .. mid` is at most that of each entry in `mid .. end`.
pub open spec fn split_ordered(vectors: Seq<QuantizedVector>, start: int, mid: int, end: int, d: int) -> bool {
    forall|i: int, k: int| start <= i < mid <= k < end ==> #[trigger] vectors[i]@[d] <= #[trigger] vectors[k]@[d]
}

/// Node `j` is as the builder makes it: its box is exactly the bounding box of its entries;
/// it is a leaf exactly when it has at most `KD_LEAF_SIZE` entries; otherwise its left child
/// follows it, its right child follows the left child's subtree, the children hold the
/// first half (rounded down) and the rest of its entries, and no entry of the first half
/// exceeds an entry of the second on the widest coordinate of the box.
#[verifier::opaque]
pub open spec fn kd_node_as_built(nodes: Seq<KdNode>, vectors: Seq<QuantizedVector>, j: int) -> bool {
    let node = nodes[j];
    let count = node.end - node.start;
    let mid = node.start + count / 2;
    &&& forall|i: int| #[trigger] in_span(node, i) ==> in_box(node, vectors[i]@)
    &&& forall|d: int| 0 <= d < 14 ==> #[trigger] min_attained(node, vectors, d)
    &&& forall|d: int| 0 <= d < 14 ==> #[trigger] max_attained(node, vectors, d)
    &&& (node.left == KD_LEAF <==> count <= KD_LEAF_SIZE)
    &&& count > KD_LEAF_SIZE ==> {
        &&& node.left == j + 1
        &&& node.right == j + 1 + kd_node_count((count / 2) as nat)
        &&& nodes[node.left as int].start == node.start && nodes[node.left as int].end == mid
        &&& nodes[node.right as int].start == mid && nodes[node.right as int].end == node.end
        &&& forall|d: int| is_widest(node.min@, node.max@, d) ==> #[trigger] split_ordered(vectors,
            node.start as int, mid, node.end as int, d)
    }
}

/// Nodes `lo .. hi` are as the builder makes them.
pub open spec fn kd_built_block(nodes: Seq<KdNode>, vectors: Seq<QuantizedVector>, lo: int, hi: int) -> bool {
    forall|j: int| lo <= j < hi ==> #[trigger] kd_node_as_built(nodes, vectors, j)
}

/// The tree over `n` entries is the one the builder makes: `kd_node_count(n)` nodes in
/// preorder, the root holding all entries, each node as built.
pub open spec fn kd_tree_as_built(nodes: Seq<KdNode>, vectors: Seq<QuantizedVector>) -> bool {
    let n = vectors.len();
    &&& n == 0 ==> nodes.len() == 0
    &&& n > 0 ==> {
        &&& nodes.len() == kd_node_count(n)
        &&& nodes[0].start == 0 && nodes[0].end == n
        &&& kd_built_block(nodes, vectors, 0, nodes.len() as int)
    }
}

proof fn lemma_widest_unique(min: Seq<i16>, max: Seq<i16>, d1: int, d2: int)
    requires
        is_widest(min, max, d1),
        is_widest(min, max, d2),
    ensures
        d1 == d2,
{
    if d1 < d2 {
        assert(box_width(min, max, d2) < box_width(min, max, d1));
        assert(box_width(min, max, d1) <= box_width(min, max, d2));
    } else if d2 < d1 {
        assert(box_width(min, max, d1) < box_width(min, max, d2));
        assert(box_width(min, max, d2) <= box_width(min, max, d1));
    }
}

proof fn lemma_coordinate_min_attained(entries: Seq<(QuantizedVector, u8)>, d: int, n: nat)
    requires
        0 < n <= entries.len(),
        0 <= d < 14,
    ensures
        exists|i: int| 0 <= i < n && #[trigger] entries[i].0@[d] == coordinate_min(entries, d, n),
    decreases n,
{
    if n > 1 {
        lemma_coordinate_min_attained(entries, d, (n - 1) as nat);
        let i = choose|i: int| 0 <= i < n - 1 && #[trigger] entries[i].0@[d] == coordinate_min(entries, d, (n - 1) as nat);
        if !(entries[n - 1].0@[d] < coordinate_min(entries, d, (n - 1) as nat)) {
            assert(entries[i].0@[d] == coordinate_min(entries, d, n));
        } else {
            assert(entries[n - 1].0@[d] == coordinate_min(entries, d, n));
        }
    } else {
        let v: i16 = entries[0].0@[d];
        assert(v <= i16::MAX);
        assert(coordinate_min(entries, d, 0) == i16::MAX);
        assert(entries[0].0@[d] == coordinate_min(entries, d, n));
    }
}

proof fn lemma_coordinate_max_attained(entries: Seq<(QuantizedVector, u8)>, d: int, n: nat)
    requires
        0 < n <= entries.len(),
        0 <= d < 14,
    ensures
        exists|i: int| 0 <= i < n && #[trigger] entries[i].0@[d] == coordinate_max(entries, d, n),
    decreases n,
{
    if n > 1 {
        lemma_coordinate_max_attained(entries, d, (n - 1) as nat);
        let i = choose|i: int| 0 <= i < n - 1 && #[trigger] entries[i].0@[d] == coordinate_max(entries, d, (n - 1) as nat);
        if !(entries[n - 1].0@[d] > coordinate_max(entries, d, (n - 1) as nat)) {
            assert(entries[i].0@[d] == coordinate_max(entries, d, n));
        } else {
            assert(entries[n - 1].0@[d] == coordinate_max(entries, d, n));
        }
    } else {
        let v: i16 = entries[0].0@[d];
        assert(v >= i16::MIN);
        assert(coordinate_max(entries, d, 0) == i16::MIN);
        assert(entries[0].0@[d] == coordinate_max(entries, d, n));
    }
}

/// The bounding box of entries `s .. t` is attained by them, and stays attained when they
/// are reordered within `s .. t`.
proof fn lemma_box_attained(
    e0: Seq<(QuantizedVector, u8)>,
    e3: Seq<(QuantizedVector, u8)>,
    s: int,
    t: int,
    node: KdNode,
)
    requires
        0 <= s < t <= e0.len(),
        e3.len() == e0.len(),
        is_bounding_box(e0.subrange(s, t), node.min@, node.max@),
        e3.subrange(s, t).to_multiset() == e0.subrange(s, t).to_multiset(),
        node.start == s && node.end == t,
    ensures
        forall|d: int| 0 <= d < 14 ==> #[trigger] min_attained(node, entry_vectors(e3), d),
        forall|d: int| 0 <= d < 14 ==> #[trigger] max_attained(node, entry_vectors(e3), d),
{
    let b = e0.subrange(s, t);
    let a = e3.subrange(s, t);
    let v3 = entry_vectors(e3);
    assert forall|d: int| 0 <= d < 14 implies #[trigger] min_attained(node, v3, d) by {
        lemma_coordinate_min_attained(b, d, b.len());
        let i = choose|i: int| 0 <= i < b.len() && #[trigger] b[i].0@[d] == coordinate_min(b, d, b.len());
        lemma_reordered_member(a, b, i);
        let k = choose|k: int| 0 <= k < a.len() && a[k] == #[trigger] b[i];
        assert(a[k] == e3[s + k]);
        assert(v3[s + k]@[d] == node.min@[d]);
        assert(in_span(node, s + k));
    }
    assert forall|d: int| 0 <= d < 14 implies #[trigger] max_attained(node, v3, d) by {
        lemma_coordinate_max_attained(b, d, b.len());
        let i = choose|i: int| 0 <= i < b.len() && #[trigger] b[i].0@[d] == coordinate_max(b, d, b.len());
        lemma_reordered_member(a, b, i);
        let k = choose|k: int| 0 <= k < a.len() && a[k] == #[trigger] b[i];
        assert(a[k] == e3[s + k]);
        assert(v3[s + k]@[d] == node.max@[d]);
        assert(in_span(node, s + k));
    }
}

/// An order between the halves `s .. m` and `m .. t` survives reordering within each half.
proof fn lemma_split_order_kept(
    e1: Seq<(QuantizedVector, u8)>,
    e3: Seq<(QuantizedVector, u8)>,
    s: int,
    m: int,
    t: int,
    d: int,
)
    requires
        0 <= s <= m <= t <= e1.len(),
        e3.len() == e1.len(),
        split_ordered(entry_vectors(e1), s, m, t, d),
        e3.subrange(s, m).to_multiset() == e1.subrange(s, m).to_multiset(),
        e3.subrange(m, t).to_multiset() == e1.subrange(m, t).to_multiset(),
    ensures
        split_ordered(entry_vectors(e3), s, m, t, d),
{
    let v1 = entry_vectors(e1);
    let v3 = entry_vectors(e3);
    assert forall|i: int, k: int| s <= i < m <= k < t implies #[trigger] v3[i]@[d] <= #[trigger] v3[k]@[d] by {
        lemma_reordered_member(e1.subrange(s, m), e3.subrange(s, m), i - s);
        lemma_reordered_member(e1.subrange(m, t), e3.subrange(m, t), k - m);
        let i1 = choose|j: int| 0 <= j < e1.subrange(s, m).len() && e1.subrange(s, m)[j] == #[trigger] e3.subrange(s, m)[i - s];
        let k1 = choose|j: int| 0 <= j < e1.subrange(m, t).len() && e1.subrange(m, t)[j] == #[trigger] e3.subrange(m, t)[k - m];
        assert(e3[i] == e1[s + i1]);
        assert(e3[k] == e1[m + k1]);
        assert(v1[s + i1]@[d] <= v1[m + k1]@[d]);
    }
}

/// Nodes as built stay so when the nodes they use and the vectors of their entries stay.
proof fn lemma_built_block_frame(
    n1: Seq<KdNode>,
    v1: Seq<QuantizedVector>,
    n2: Seq<KdNode>,
    v2: Seq<QuantizedVector>,
    lo: int,
    hi: int,
    start: int,
    end: int,
)
    requires
        kd_block(n1, v1, lo, hi, start, end),
        kd_built_block(n1, v1, lo, hi),
        0 <= lo,
        hi <= n1.len(),
        hi <= n2.len(),
        forall|j: int| lo <= j < hi ==> #[trigger] n2[j] == n1[j],
        end <= v2.len(),
        forall|i: int| start <= i < end ==> #[trigger] v2[i] == v1[i],
    ensures
        kd_built_block(n2, v2, lo, hi),
{
    assert forall|j: int| lo <= j < hi implies #[trigger] kd_node_as_built(n2, v2, j) by {
        assert(kd_node_as_built(n1, v1, j));
        reveal(kd_node_as_built);
        assert(n2[j] == n1[j]);
        assert(start <= n1[j].start);
        assert(kd_node_locally_valid(n1, v1, j));
        let node = n1[j];
        let count = node.end - node.start;
        let mid = node.start + count / 2;
        assert forall|i: int| #[trigger] in_span(node, i) implies in_box(node, v2[i]@) by {
            assert(v2[i] == v1[i]);
        }
        assert forall|d: int| 0 <= d < 14 implies #[trigger] min_attained(node, v2, d) by {
            assert(min_attained(node, v1, d));
            let i = choose|i: int| in_span(node, i) && #[trigger] v1[i]@[d] == node.min@[d];
            assert(v2[i] == v1[i]);
        }
        assert forall|d: int| 0 <= d < 14 implies #[trigger] max_attained(node, v2, d) by {
            assert(max_attained(node, v1, d));
            let i = choose|i: int| in_span(node, i) && #[trigger] v1[i]@[d] == node.max@[d];
            assert(v2[i] == v1[i]);
        }
        if count > KD_LEAF_SIZE {
            assert(n2[node.left as int] == n1[node.left as int]);
            assert(n2[node.right as int] == n1[node.right as int]);
            assert forall|d: int| is_widest(node.min@, node.max@, d) implies #[trigger] split_ordered(v2,
                node.start as int, mid, node.end as int, d) by {
                assert(split_ordered(v1, node.start as int, mid, node.end as int, d));
                assert forall|i: int, k: int| node.start <= i < mid <= k < node.end implies #[trigger] v2[i]@[d]
                    <= #[trigger] v2[k]@[d] by {
                    assert(v2[i] == v1[i]);
                    assert(v2[k] == v1[k]);
                    assert(v1[i]@[d] <= v1[k]@[d]);
                }
            }
        }
    }
}

/// Node `k`, given the subtrees built as the blocks `k + 1 .. b` and `b .. c` as children,
/// is as built, and so are the nodes below it.
proof fn lemma_split_built(
    n2: Seq<KdNode>,
    v2: Seq<QuantizedVector>,
    n3: Seq<KdNode>,
    v3: Seq<QuantizedVector>,
    n4: Seq<KdNode>,
    k: int,
    node: KdNode,
    s: int,
    m: int,
    t: int,
    dim: int,
)
    requires
        0 <= k,
        t - s > KD_LEAF_SIZE,
        m == s + (t - s) / 2,
        k + 1 + kd_node_count((m - s) as nat) == n2.len(),
        n2.len() < n3.len(),
        node.left as int == k + 1,
        node.left != KD_LEAF,
        node.right as int == n2.len(),
        node.start == s && node.end == t,
        kd_block(n2, v2, k + 1, n2.len() as int, s, m),
        kd_built_block(n2, v2, k + 1, n2.len() as int),
        n2[k + 1].start == s && n2[k + 1].end == m,
        kd_block(n3, v3, n2.len() as int, n3.len() as int, m, t),
        kd_built_block(n3, v3, n2.len() as int, n3.len() as int),
        n3[n2.len() as int].start == m && n3[n2.len() as int].end == t,
        forall|j: int| 0 <= j < n2.len() ==> #[trigger] n3[j] == n2[j],
        n4 == n3.update(k, node),
        t <= v3.len(),
        forall|i: int| s <= i < m ==> #[trigger] v3[i] == v2[i],
        forall|i: int| #[trigger] in_span(node, i) ==> in_box(node, v3[i]@),
        forall|d: int| 0 <= d < 14 ==> #[trigger] min_attained(node, v3, d),
        forall|d: int| 0 <= d < 14 ==> #[trigger] max_attained(node, v3, d),
        is_widest(node.min@, node.max@, dim),
        split_ordered(v3, s, m, t, dim),
    ensures
        kd_built_block(n4, v3, k, n4.len() as int),
{
    lemma_built_block_frame(n2, v2, n4, v3, k + 1, n2.len() as int, s, m);
    lemma_built_block_frame(n3, v3, n4, v3, n2.len() as int, n3.len() as int, m, t);
    assert(n4[k] == node);
    assert(n4[k + 1] == n2[k + 1]);
    assert forall|d: int| is_widest(node.min@, node.max@, d) implies #[trigger] split_ordered(v3, s, m, t, d) by {
        lemma_widest_unique(node.min@, node.max@, d, dim);
    }
    assert(kd_node_as_built(n4, v3, k)) by {
        reveal(kd_node_as_built);
    }
}

/// Builds the kd-subtree of entries `start .. end`: pushes its root, which gets their
/// bounding box, and, for more than `KD_LEAF_SIZE` entries, splits them at the median of
/// the box's widest coordinate into two halves that get subtrees of their own. Returns
/// the root's index.
#[verifier::spinoff_prover]
#[verifier::rlimit(80)]
fn build_kd_node(
    entries: &mut Vec<(QuantizedVector, u8)>,
    nodes: &mut Vec<KdNode>,
    start: usize,
    end: usize,
    Ghost(height): Ghost<nat>,
) -> (r: Result<u32, BinaryIndexError>)
    requires
        start < end <= old(entries)@.len(),
        end - start <= kd_capacity(height),
    ensures
        final(entries)@.len() == old(entries)@.len(),
        forall|i: int| 0 <= i < start || end <= i < old(entries)@.len() ==> #[trigger] final(entries)@[i]
            == old(entries)@[i],
        r is Ok ==> final(entries)@.subrange(start as int, end as int).to_multiset()
            == old(entries)@.subrange(start as int, end as int).to_multiset(),
        r is Err ==> r matches Err(BinaryIndexError::TooManyVectors(_)),
        end <= u32::MAX && old(nodes)@.len() + kd_node_count_bound((end - start) as nat) <= u32::MAX + 1 ==> r is Ok,
        old(nodes)@.len() <= u32::MAX && start <= u32::MAX && end > u32::MAX ==> (r matches Err(
            BinaryIndexError::TooManyVectors(c),
        ) && c == end),
        r matches Ok(idx) ==> {
            &&& idx == old(nodes)@.len()
            &&& old(nodes)@.len() < final(nodes)@.len() <= old(nodes)@.len() + kd_node_count_bound((end - start) as nat)
            &&& forall|j: int| 0 <= j < old(nodes)@.len() ==> #[trigger] final(nodes)@[j] == old(nodes)@[j]
            &&& final(nodes)@[idx as int].start == start
            &&& final(nodes)@[idx as int].end == end
            &&& kd_block(final(nodes)@, entry_vectors(final(entries)@), old(nodes)@.len() as int,
                final(nodes)@.len() as int, start as int, end as int)
            &&& kd_height(final(nodes)@, idx as int) <= height
            &&& final(nodes)@.len() == old(nodes)@.len() + kd_node_count((end - start) as nat)
            &&& kd_built_block(final(nodes)@, entry_vectors(final(entries)@), old(nodes)@.len() as int,
                final(nodes)@.len() as int)
        },
    decreases end - start,
{
    let ghost e0 = entries@;
    let ghost n0 = nodes@;
    let range = &entries.as_slice()[start..end];
    proof {
        assert(range@ == e0.subrange(start as int, end as int));
    }
    let (min, max) = bounding_box(range);
    if nodes.len() > u32::MAX as usize {
        return Err(BinaryIndexError::TooManyVectors(nodes.len() as u64));
    }
    let node_idx = nodes.len() as u32;
    if start > u32::MAX as usize {
        return Err(BinaryIndexError::TooManyVectors(start as u64));
    }
    if end > u32::MAX as usize {
        return Err(BinaryIndexError::TooManyVectors(end as u64));
    }
    let node = KdNode {
        start: start as u32,
        end: end as u32,
        left: KD_LEAF,
        right: KD_LEAF,
        min,
        max,
    };
    nodes.push(node);
    proof {
        lemma_box_of_range(e0, start as int, end as int, min, max, node);
        assert forall|i: int| #[trigger] in_span(node, i) implies in_box(node, entry_vectors(e0)[i]@) by {
            assert(e0.subrange(start as int, end as int)[i - start] == e0[i]);
        }
        assert(nodes@[node_idx as int] == node);
        assert(kd_node_locally_valid(nodes@, entry_vectors(e0), node_idx as int));
        assert(kd_block(nodes@, entry_vectors(e0), n0.len() as int, nodes@.len() as int, start as int, end as int));
        lemma_node_count_bounded((end - start) as nat);
    }
    if end - start <= KD_LEAF_SIZE {
        proof {
            lemma_box_attained(e0, e0, start as int, end as int, node);
            assert(kd_node_as_built(nodes@, entry_vectors(e0), node_idx as int)) by {
                reveal(kd_node_as_built);
            }
            assert(kd_built_block(nodes@, entry_vectors(e0), n0.len() as int, nodes@.len() as int));
        }
    } else {
        let ghost n1 = nodes@;
        let split_dim = widest_dimension(&min, &max);
        let mid = start + (end - start) / 2;
        proof {
            let c = (end - start) as nat;
            let a = (mid - start) as nat;
            let b = (end - mid) as nat;
            assert(a >= 32 && b >= 32);
            assert(1 + kd_node_count_bound(a) + kd_node_count_bound(b) <= kd_node_count_bound(c));
        }
        select_nth_by_coordinate(entries, start, end, mid - start, split_dim);
        let ghost e1 = entries@;
        let left = match build_kd_node(entries, nodes, start, mid, Ghost((height - 1) as nat)) {
            Ok(l) => l,
            Err(e) => { return Err(e); }
        };
        let ghost e2 = entries@;
        let ghost n2 = nodes@;
        let right = match build_kd_node(entries, nodes, mid, end, Ghost((height - 1) as nat)) {
            Ok(r) => r,
            Err(e) => { return Err(e); }
        };
        let ghost e3 = entries@;
        let ghost n3 = nodes@;
        let mut updated = nodes[node_idx as usize];
        updated.left = left;
        updated.right = right;
        nodes.set(node_idx as usize, updated);
        proof {
            let s = start as int;
            let m = mid as int;
            let t = end as int;
            let v3 = entry_vectors(e3);
            assert(e3.subrange(s, t).to_multiset() == e0.subrange(s, t).to_multiset()
                && forall|i: int| #[trigger] in_span(updated, i) ==> in_box(updated, v3[i]@)) by {
                lemma_node_entries_reordered(e0, e1, e2, e3, s, m, t, updated);
            }
            assert(kd_block(nodes@, v3, n1.len() - 1, nodes@.len() as int, s, t)
                && kd_height(nodes@, node_idx as int) <= height) by {
                lemma_split_block(n1.len() as int, n2, entry_vectors(e2), n3, v3, nodes@,
                    node_idx as int, updated, s, m, t, height);
            }
            assert(split_ordered(v3, s, m, t, split_dim as int)) by {
                // the halves are ordered on the split coordinate
                let v1 = entry_vectors(e1);
                assert forall|i: int, k: int| s <= i < m <= k < t implies #[trigger] v1[i]@[split_dim as int]
                    <= #[trigger] v1[k]@[split_dim as int] by {
                    if i < m {
                        assert(e1[i].0@[split_dim as int] <= e1[m].0@[split_dim as int]);
                    }
                    if k > m {
                        assert(e1[m].0@[split_dim as int] <= e1[k].0@[split_dim as int]);
                    }
                }
                assert(e3.subrange(s, m) =~= e2.subrange(s, m));
                assert(e2.subrange(m, t) =~= e1.subrange(m, t));
                lemma_split_order_kept(e1, e3, s, m, t, split_dim as int);
            }
            assert(kd_built_block(nodes@, v3, n1.len() - 1, nodes@.len() as int)) by {
                // the box is attained by the node's entries, which were reordered since
                lemma_box_attained(e0, e3, s, t, updated);
                assert(right as int == n2.len());
                assert(left as int == n1.len());
                lemma_split_built(n2, entry_vectors(e2), n3, v3, nodes@, node_idx as int, updated,
                    s, m, t, split_dim as int);
            }
        }
    }
    Ok(node_idx)
}


/// `new` starts with `old`: every stretch of `old` reads the same in `new`.
proof fn lemma_prefix_kept(old: Seq<u8>, new: Seq<u8>)
    requires
        old.len() <= new.len(),
        new.subrange(0, old.len() as int) == old,
    ensures
        forall|a: int, b: int| 0 <= a <= b <= old.len() ==> #[trigger] new.subrange(a, b) == old.subrange(a, b),
{
    assert forall|a: int, b: int| 0 <= a <= b <= old.len() implies #[trigger] new.subrange(a, b) == old.subrange(a, b) by {
        assert(new.subrange(a, b) =~= old.subrange(a, b)) by {
            assert forall|k: int| 0 <= k < b - a implies new.subrange(a, b)[k] == old.subrange(a, b)[k] by {
                assert(new.subrange(0, old.len() as int)[a + k] == new[a + k]);
            }
        }
    }
}

/// `i16` values stored within `old` read the same in `new`, which starts with `old`.
proof fn lemma_i16s_kept(old: Seq<u8>, new: Seq<u8>, at: int, count: nat)
    requires
        old.len() <= new.len(),
        new.subrange(0, old.len() as int) == old,
        0 <= at,
        at + 2 * count <= old.len(),
    ensures
        le_i16s_at(new, at, count) == le_i16s_at(old, at, count),
{
    lemma_prefix_kept(old, new);
    assert forall|d: int| 0 <= d < count implies #[trigger] le_i16_at(new, at + 2 * d) == le_i16_at(old, at + 2 * d) by {
        assert(new.subrange(at + 2 * d, at + 2 * d + 2) == old.subrange(at + 2 * d, at + 2 * d + 2));
    }
    assert(le_i16s_at(new, at, count) =~= le_i16s_at(old, at, count));
}

/// A node stored within `old` reads the same in `new`, which starts with `old`.
proof fn lemma_node_kept(old: Seq<u8>, new: Seq<u8>, at: int, node: KdNode)
    requires
        old.len() <= new.len(),
        new.subrange(0, old.len() as int) == old,
        0 <= at,
        at + NODE_BYTES <= old.len(),
        node_stored_at(old, at, node),
    ensures
        node_stored_at(new, at, node),
{
    lemma_prefix_kept(old, new);
    assert(new.subrange(at, at + 4) == old.subrange(at, at + 4));
    assert(new.subrange(at + 4, at + 8) == old.subrange(at + 4, at + 8));
    assert(new.subrange(at + 8, at + 12) == old.subrange(at + 8, at + 12));
    assert(new.subrange(at + 12, at + 16) == old.subrange(at + 12, at + 16));
    lemma_i16s_kept(old, new, at + 16, 14);
    lemma_i16s_kept(old, new, at + 44, 14);
}

/// Appends `x` as two little-endian bytes.
fn push_i16(out: &mut Vec<u8>, x: i16)
    ensures
        final(out)@.len() == old(out)@.len() + 2,
        final(out)@.subrange(0, old(out)@.len() as int) == old(out)@,
        le_i16_at(final(out)@, old(out)@.len() as int) == x,
{
    let bytes = vstd::bytes::u16_to_le_bytes(x as u16);
    out.extend_from_slice(bytes.as_slice());
    proof {
        vstd::bytes::lemma_auto_spec_u16_to_from_le_bytes();
        let at = old(out)@.len() as int;
        assert(out@.subrange(at, at + 2) =~= bytes@);
        assert(out@.subrange(0, at) =~= old(out)@);
        assert((x as u16) as i16 == x) by (bit_vector);
    }
}

/// Appends `x` as four little-endian bytes.
fn push_u32(out: &mut Vec<u8>, x: u32)
    ensures
        final(out)@.len() == old(out)@.len() + 4,
        final(out)@.subrange(0, old(out)@.len() as int) == old(out)@,
        le_u32_at(final(out)@, old(out)@.len() as int) == x,
{
    let bytes = vstd::bytes::u32_to_le_bytes(x);
    out.extend_from_slice(bytes.as_slice());
    proof {
        vstd::bytes::lemma_auto_spec_u32_to_from_le_bytes();
        let at = old(out)@.len() as int;
        assert(out@.subrange(at, at + 4) =~= bytes@);
        assert(out@.subrange(0, at) =~= old(out)@);
    }
}

/// Appends `x` as eight little-endian bytes.
fn push_u64(out: &mut Vec<u8>, x: u64)
    ensures
        final(out)@.len() == old(out)@.len() + 8,
        final(out)@.subrange(0, old(out)@.len() as int) == old(out)@,
        header_u64(final(out)@, old(out)@.len() as int) == x,
{
    let bytes = vstd::bytes::u64_to_le_bytes(x);
    out.extend_from_slice(bytes.as_slice());
    proof {
        vstd::bytes::lemma_auto_spec_u64_to_from_le_bytes();
        let at = old(out)@.len() as int;
        assert(out@.subrange(at, at + 8) =~= bytes@);
        assert(out@.subrange(0, at) =~= old(out)@);
    }
}

/// Appends the `count` first coordinates of `values`, two little-endian bytes each.
fn push_i16s(out: &mut Vec<u8>, values: &[i16], count: usize)
    requires
        count <= values@.len(),
    ensures
        final(out)@.len() == old(out)@.len() + 2 * count,
        final(out)@.subrange(0, old(out)@.len() as int) == old(out)@,
        le_i16s_at(final(out)@, old(out)@.len() as int, count as nat) == values@.take(count as int),
{
    let ghost start = out@;
    let mut d: usize = 0;
    while d < count
        invariant
            d <= count <= values@.len(),
            out@.len() == start.len() + 2 * d,
            out@.subrange(0, start.len() as int) == start,
            forall|k: int| 0 <= k < d ==> #[trigger] le_i16_at(out@, start.len() + 2 * k) == values@[k],
        decreases count - d,
    {
        let ghost before = out@;
        push_i16(out, values[d]);
        proof {
            lemma_prefix_kept(before, out@);
            assert(out@.subrange(0, start.len() as int) == before.subrange(0, start.len() as int));
            assert forall|k: int| 0 <= k < d + 1 implies #[trigger] le_i16_at(out@, start.len() + 2 * k) == values@[k] by {
                if k < d {
                    assert(le_i16_at(before, start.len() + 2 * k) == values@[k]);
                    assert(out@.subrange(start.len() + 2 * k, start.len() + 2 * k + 2)
                        == before.subrange(start.len() + 2 * k, start.len() + 2 * k + 2));
                } else {
                    assert(before.len() == start.len() + 2 * k);
                }
            }
        }
        d = d + 1;
    }
    proof {
        assert(le_i16s_at(out@, start.len() as int, count as nat) =~= values@.take(count as int));
    }
}

/// Appends `node` as its stored 72 bytes.
fn write_node(out: &mut Vec<u8>, node: &KdNode)
    ensures
        final(out)@.len() == old(out)@.len() + NODE_BYTES,
        final(out)@.subrange(0, old(out)@.len() as int) == old(out)@,
        node_stored_at(final(out)@, old(out)@.len() as int, *node),
{
    let ghost o = out@;
    let ghost at = o.len() as int;
    push_u32(out, node.start);
    let ghost o1 = out@;
    push_u32(out, node.end);
    let ghost o2 = out@;
    push_u32(out, node.left);
    let ghost o3 = out@;
    push_u32(out, node.right);
    let ghost o4 = out@;
    push_i16s(out, node.min.as_slice(), DIMS);
    let ghost o5 = out@;
    push_i16s(out, node.max.as_slice(), DIMS);
    proof {
        let o6 = out@;
        lemma_prefix_kept(o1, o2);
        lemma_prefix_kept(o2, o3);
        lemma_prefix_kept(o3, o4);
        lemma_prefix_kept(o4, o5);
        lemma_prefix_kept(o5, o6);
        assert(o6.subrange(0, at) == o);
        assert(node.min@.take(14) =~= node.min@);
        assert(node.max@.take(14) =~= node.max@);
        lemma_i16s_kept(o5, o6, at + 16, 14);
        assert(le_u32_at(o6, at) == node.start);
    }
}


/// `new` starts with `old`.
pub open spec fn starts_with(new: Seq<u8>, old: Seq<u8>) -> bool {
    old.len() <= new.len() && new.subrange(0, old.len() as int) == old
}

proof fn lemma_starts_with_trans(a: Seq<u8>, b: Seq<u8>, c: Seq<u8>)
    requires
        starts_with(b, a),
        starts_with(c, b),
    ensures
        starts_with(c, a),
{
    lemma_prefix_kept(b, c);
    assert(c.subrange(0, a.len() as int) == b.subrange(0, a.len() as int));
}

/// `bytes` is an index file in the kd-tree format that stores `entries` (vector and label)
/// in this order, and the kd-tree `nodes`.
pub open spec fn stores_index(bytes: Seq<u8>, entries: Seq<(QuantizedVector, u8)>, nodes: Seq<KdNode>) -> bool {
    let n = entries.len() as int;
    let nodes_start = nodes_start_of(IndexFormat::KdTree, n);
    &&& entries.len() <= usize::MAX && nodes.len() <= usize::MAX
    &&& index_layout(bytes) == Ok::<IndexLayout, BinaryIndexError>(IndexLayout {
        format: IndexFormat::KdTree,
        len: n as usize,
        node_count: nodes.len() as usize,
        nodes_start: nodes_start as usize,
    })
    &&& forall|i: int| 0 <= i < n ==> le_i16s_at(bytes, vector_offset(i), 16) == #[trigger] entries[i].0@
    &&& bytes.subrange(vector_offset(n), labels_end_of(n)) == entry_labels(entries)
    &&& forall|j: int| 0 <= j < nodes.len() ==> node_stored_at(bytes, nodes_start + NODE_BYTES * j, #[trigger] nodes[j])
}

/// `bytes` is an index file that stores the given vectors with their labels, each vector
/// still paired with its label but in an order of the writer's choosing, together with a
/// kd-tree over them that passes the node-by-node checks, has nodes exactly when there are
/// vectors, and is laid out as the builder lays it out (`kd_tree_as_built`): nodes in
/// preorder, leaves of at most `KD_LEAF_SIZE` entries, each inner node split at the middle
/// of its entries with the first half not above the second on the box's widest coordinate,
/// and each box exactly the bounding box of the node's entries.
pub open spec fn written_index(bytes: Seq<u8>, vectors: Seq<QuantizedVector>, labels: Seq<u8>) -> bool {
    exists|entries: Seq<(QuantizedVector, u8)>, nodes: Seq<KdNode>|
        #[trigger] stores_index(bytes, entries, nodes)
        && entries.to_multiset() == paired(vectors, labels).to_multiset()
        && kd_tree_checked(nodes, entry_vectors(entries))
        && kd_tree_as_built(nodes, entry_vectors(entries))
        && (entries.len() > 0 <==> nodes.len() > 0)
}

/// Any number of entries that fits in a `usize` fits in a tree of height 58.
proof fn lemma_capacity_covers(n: int)
    requires
        0 <= n <= usize::MAX,
    ensures
        n <= kd_capacity(58),
{
    reveal_with_fuel(kd_capacity, 59);
    assert(kd_capacity(58) == 0x1_0000_0000_0000_0000nat);
}

/// The bytes of an index file in the kd-tree format holding `vectors` and their `labels`:
/// the pairs are grouped by a kd-tree built over them (which reorders them), then written
/// after the header, followed by the labels, padding up to a four-byte boundary, and the
/// tree's nodes.
pub fn encode_index(vectors: &[QuantizedVector], labels: &[u8]) -> (r: Result<Vec<u8>, BinaryIndexError>)
    requires
        vectors@.len() == labels@.len(),
        labels_end_of(vectors@.len() as int) <= usize::MAX,
    ensures
        vectors@.len() <= u32::MAX ==> r is Ok,
        vectors@.len() > u32::MAX ==> (r matches Err(BinaryIndexError::TooManyVectors(c)) && c == vectors@.len()),
        r is Err ==> r matches Err(BinaryIndexError::TooManyVectors(_)),
        r matches Ok(bytes) ==> written_index(bytes@, vectors@, labels@),
{
    let n = vectors.len();
    let mut entries: Vec<(QuantizedVector, u8)> = Vec::new();
    let mut i: usize = 0;
    while i < n
        invariant
            i <= n,
            n == vectors@.len(),
            n == labels@.len(),
            entries@ == paired(vectors@, labels@).take(i as int),
        decreases n - i,
    {
        entries.push((vectors[i], labels[i]));
        proof {
            assert(entries@ =~= paired(vectors@, labels@).take(i + 1));
        }
        i = i + 1;
    }
    proof {
        assert(paired(vectors@, labels@).take(n as int) =~= paired(vectors@, labels@));
    }
    let ghost e0 = entries@;
    let mut nodes: Vec<KdNode> = Vec::new();
    if n > 0 {
        proof {
            lemma_capacity_covers(n as int);
        }
        match build_kd_node(&mut entries, &mut nodes, 0, n, Ghost(58nat)) {
            Ok(_) => {},
            Err(e) => { return Err(e); },
        }
    }
    let ghost es = entries@;
    let ghost ns = nodes@;
    proof {
        if n > 0 {
            assert(es.subrange(0, n as int) =~= es);
            assert(e0.subrange(0, n as int) =~= e0);
            assert forall|k: int| 0 <= k < ns.len() implies #[trigger] kd_node_locally_valid(ns, entry_vectors(es), k) by {
                assert(0 <= ns[k].start);
            }
        } else {
            assert(es =~= e0);
        }
        assert(kd_tree_checked(ns, entry_vectors(es)));
        assert(kd_tree_as_built(ns, entry_vectors(es)));
    }
    let m = nodes.len();

    // header
    let mut out: Vec<u8> = Vec::new();
    out.extend_from_slice("RINHIDX3".as_bytes());
    let ghost h0 = out@;
    push_u64(&mut out, n as u64);
    let ghost h1 = out@;
    push_u64(&mut out, m as u64);
    let ghost h2 = out@;
    proof {
        reveal_strlit("RINHIDX3");
        vstd::string::is_ascii_spec_bytes("RINHIDX3");
        assert(h0 =~= "RINHIDX3".spec_bytes());
        assert(h0.len() == 8);
        lemma_prefix_kept(h0, h1);
        lemma_prefix_kept(h1, h2);
        assert(h0.subrange(0, 8) =~= h0);
        assert(h2.subrange(0, 8) == "RINHIDX3".spec_bytes());
        assert(out@.subrange(0, out@.len() as int) =~= out@);
        assert(h2.subrange(8, 16) == h1.subrange(8, 16));
    }
    while out.len() < HEADER_SIZE
        invariant
            starts_with(out@, h2),
            out@.len() <= HEADER_SIZE,
        decreases HEADER_SIZE - out@.len(),
    {
        let ghost before = out@;
        out.push(0u8);
        proof {
            assert(out@.subrange(0, before.len() as int) =~= before);
            lemma_starts_with_trans(h2, before, out@);
        }
    }
    let ghost header = out@;
    proof {
        assert(out@.subrange(0, out@.len() as int) =~= out@);
    }

    // vectors, in the order the tree left them
    let mut i: usize = 0;
    while i < n
        invariant
            i <= n,
            n == entries@.len(),
            entries@ == es,
            starts_with(out@, header),
            header.len() == HEADER_SIZE,
            labels_end_of(n as int) <= usize::MAX,
            out@.len() == vector_offset(i as int),
            forall|k: int| 0 <= k < i ==> le_i16s_at(out@, vector_offset(k), 16) == #[trigger] es[k].0@,
        decreases n - i,
    {
        let ghost before = out@;
        push_i16s(&mut out, entries[i].0.as_slice(), PADDED_DIMS);
        proof {
            assert(es[i as int].0@.take(16) =~= es[i as int].0@);
            lemma_starts_with_trans(header, before, out@);
            assert forall|k: int| 0 <= k < i + 1 implies le_i16s_at(out@, vector_offset(k), 16) == #[trigger] es[k].0@ by {
                if k < i {
                    lemma_i16s_kept(before, out@, vector_offset(k), 16);
                }
            }
        }
        i = i + 1;
    }
    let ghost with_vectors = out@;
    proof {
        assert(out@.subrange(0, out@.len() as int) =~= out@);
    }

    // labels
    let mut i: usize = 0;
    while i < n
        invariant
            i <= n,
            n == entries@.len(),
            entries@ == es,
            starts_with(out@, with_vectors),
            with_vectors.len() == vector_offset(n as int),
            labels_end_of(n as int) <= usize::MAX,
            out@.len() == vector_offset(n as int) + i,
            out@.subrange(vector_offset(n as int), out@.len() as int) == entry_labels(es).take(i as int),
        decreases n - i,
    {
        let ghost before = out@;
        out.push(entries[i].1);
        proof {
            assert(out@.subrange(0, before.len() as int) =~= before);
            lemma_starts_with_trans(with_vectors, before, out@);
            assert(out@.subrange(vector_offset(n as int), out@.len() as int) =~= entry_labels(es).take(i + 1));
        }
        i = i + 1;
    }
    let ghost with_labels = out@;
    proof {
        assert(out@.subrange(0, out@.len() as int) =~= out@);
    }

    // padding up to the nodes
    let labels_end = HEADER_SIZE + n * VECTOR_BYTES + n;
    proof {
        lemma_labels_end_aligns(n as int);
    }
    let nodes_start = align_up(labels_end, NODE_ALIGN);
    while out.len() < nodes_start
        invariant
            starts_with(out@, with_labels),
            out@.len() <= nodes_start,
        decreases nodes_start - out@.len(),
    {
        let ghost before = out@;
        out.push(0u8);
        proof {
            assert(out@.subrange(0, before.len() as int) =~= before);
            lemma_starts_with_trans(with_labels, before, out@);
        }
    }
    let ghost padded = out@;
    proof {
        assert(out@.subrange(0, out@.len() as int) =~= out@);
    }

    // nodes
    let mut j: usize = 0;
    while j < m
        invariant
            j <= m,
            m == nodes@.len(),
            nodes@ == ns,
            starts_with(out@, padded),
            padded.len() == nodes_start,
            out@.len() == nodes_start + NODE_BYTES * j,
            forall|k: int| 0 <= k < j ==> node_stored_at(out@, nodes_start + NODE_BYTES * k, #[trigger] ns[k]),
        decreases m - j,
    {
        let ghost before = out@;
        write_node(&mut out, &nodes[j]);
        proof {
            lemma_starts_with_trans(padded, before, out@);
            assert forall|k: int| 0 <= k < j + 1 implies node_stored_at(out@, nodes_start + NODE_BYTES * k, #[trigger] ns[k]) by {
                if k < j {
                    lemma_node_kept(before, out@, nodes_start + NODE_BYTES * k, ns[k]);
                }
            }
        }
        j = j + 1;
    }
    proof {
        let fin = out@;
        assert(out.len() == fin.len());
        assert(entries.len() == es.len());
        assert(nodes.len() == ns.len());
        lemma_starts_with_trans(with_labels, padded, fin);
        lemma_starts_with_trans(with_vectors, with_labels, fin);
        lemma_starts_with_trans(header, with_vectors, fin);
        lemma_starts_with_trans(h2, header, fin);
        lemma_prefix_kept(h2, fin);
        assert(fin.subrange(0, 8) == h2.subrange(0, 8));
        assert(fin.subrange(8, 16) == h2.subrange(8, 16));
        assert(fin.subrange(16, 24) == h2.subrange(16, 24));
        assert(header_u64(fin, 8) == n as u64);
        assert(header_u64(fin, 16) == m as u64);
        assert(magic_format(fin) == Some(IndexFormat::KdTree));
        lemma_prefix_kept(with_labels, fin);
        assert(fin.subrange(vector_offset(n as int), labels_end_of(n as int))
            == with_labels.subrange(vector_offset(n as int), labels_end_of(n as int)));
        assert(with_labels.subrange(vector_offset(n as int), labels_end_of(n as int)) =~= entry_labels(es));
        assert forall|k: int| 0 <= k < n implies le_i16s_at(fin, vector_offset(k), 16) == #[trigger] es[k].0@ by {
            lemma_i16s_kept(with_vectors, fin, vector_offset(k), 16);
        }
        assert(index_layout(fin) == Ok::<IndexLayout, BinaryIndexError>(IndexLayout {
            format: IndexFormat::KdTree,
            len: n,
            node_count: m,
            nodes_start: nodes_start,
        }));
        assert(stores_index(fin, es, ns));
        assert(es.to_multiset() == paired(vectors@, labels@).to_multiset());
    }
    Ok(out)
}


/// Two nodes stored at the same place are the same node.
proof fn lemma_stored_node_unique(bytes: Seq<u8>, at: int, a: KdNode, b: KdNode)
    requires
        node_stored_at(bytes, at, a),
        node_stored_at(bytes, at, b),
    ensures
        a == b,
{
    assert(a.min =~= b.min);
    assert(a.max =~= b.max);
}

/// Reading back what `encode_index` wrote gives an index in the kd-tree format that can be
/// searched and whose tree passes the node-by-node checks and is laid out as built, whose
/// (vector, label) pairs are the written ones, in some order, and that has a tree exactly
/// when it has references.
pub proof fn law_written_index_reads_back(
    bytes: Seq<u8>,
    vectors: Seq<QuantizedVector>,
    labels: Seq<u8>,
    index: MmapIndex,
)
    requires
        written_index(bytes, vectors, labels),
        index_layout(bytes) matches Ok(layout) && index.read_from(bytes, layout),
    ensures
        index.format_view() == IndexFormat::KdTree,
        index.searchable(),
        kd_tree_checked(index.nodes_view(), index.vectors_view()),
        kd_tree_as_built(index.nodes_view(), index.vectors_view()),
        paired(index.vectors_view(), index.labels_view()).to_multiset() == paired(vectors, labels).to_multiset(),
        index.vectors_view().len() == vectors.len(),
        index.nodes_view().len() > 0 <==> vectors.len() > 0,
        vectors.len() > 0 ==> index.nodes_view()[0].start == 0 && index.nodes_view()[0].end == vectors.len(),
{
    let (entries, nodes) = choose|entries: Seq<(QuantizedVector, u8)>, nodes: Seq<KdNode>|
        #[trigger] stores_index(bytes, entries, nodes)
        && entries.to_multiset() == paired(vectors, labels).to_multiset()
        && kd_tree_checked(nodes, entry_vectors(entries))
        && kd_tree_as_built(nodes, entry_vectors(entries))
        && (entries.len() > 0 <==> nodes.len() > 0);
    let layout = index_layout(bytes)->Ok_0;
    let n = entries.len() as int;
    assert(layout.node_count == nodes.len());
    assert(layout.len == n);
    assert(layout.nodes_start == nodes_start_of(IndexFormat::KdTree, n));
    assert(index.nodes_view().len() == nodes.len());
    assert forall|i: int| 0 <= i < n implies #[trigger] index.vectors_view()[i] == entries[i].0 by {
        assert(index.vectors_view()[i]@ == entries[i].0@);
        assert(index.vectors_view()[i] =~= entries[i].0);
    }
    assert(index.vectors_view() =~= entry_vectors(entries));
    assert(index.labels_view() =~= entry_labels(entries));
    assert forall|j: int| 0 <= j < nodes.len() implies #[trigger] index.nodes_view()[j] == nodes[j] by {
        assert(node_stored_at(bytes, layout.nodes_start + NODE_BYTES * j, index.nodes_view()[j]));
        assert(node_stored_at(bytes, layout.nodes_start + NODE_BYTES * j, nodes[j]));
        lemma_stored_node_unique(bytes, layout.nodes_start + NODE_BYTES * j, index.nodes_view()[j], nodes[j]);
    }
    assert(index.nodes_view() =~= nodes);
    assert(paired(index.vectors_view(), index.labels_view()) =~= entries);
    lemma_checked_tree_valid(nodes, entry_vectors(entries));
    broadcast use vstd::seq_lib::group_to_multiset_ensures;
    assert(vectors.len() == paired(vectors, labels).len());
    assert(entries.len() == entries.to_multiset().len());
}

/// The bytes `encode_index` wrote open as an index: their header reads as the kd-tree
/// format with as many vectors as were written, and nodes exactly when there are vectors.
pub proof fn law_written_index_opens(bytes: Seq<u8>, vectors: Seq<QuantizedVector>, labels: Seq<u8>)
    requires
        written_index(bytes, vectors, labels),
    ensures
        index_layout(bytes) matches Ok(layout) && layout.format == IndexFormat::KdTree
            && layout.len == vectors.len() && (layout.node_count > 0 <==> vectors.len() > 0),
{
    let (entries, nodes) = choose|entries: Seq<(QuantizedVector, u8)>, nodes: Seq<KdNode>|
        #[trigger] stores_index(bytes, entries, nodes)
        && entries.to_multiset() == paired(vectors, labels).to_multiset()
        && kd_tree_checked(nodes, entry_vectors(entries))
        && kd_tree_as_built(nodes, entry_vectors(entries))
        && (entries.len() > 0 <==> nodes.len() > 0);
    broadcast use vstd::seq_lib::group_to_multiset_ensures;
    assert(vectors.len() == paired(vectors, labels).len());
    assert(entries.len() == entries.to_multiset().len());
}

/// A search of an index read back from what `encode_index` wrote answers, for every query,
/// what the full scan of the index's references answers: the decision of the five nearest
/// (ties going to the lower position). An index written without references has no tree and
/// answers the safe fallback, which is also what a scan of no references answers.
pub proof fn law_written_index_searches_like_full_scan(
    bytes: Seq<u8>,
    vectors: Seq<QuantizedVector>,
    labels: Seq<u8>,
    index: MmapIndex,
    query: Seq<i16>,
)
    requires
        written_index(bytes, vectors, labels),
        index_layout(bytes) matches Ok(layout) && index.read_from(bytes, layout),
    ensures
        index.decision_for(query) == nearest_outcome(query, index.vectors_view(), index.labels_view()),
{
    law_written_index_reads_back(bytes, vectors, labels, index);
    if index.nodes_view().len() == 0 {
        let dist = row_distance(query, index.vectors_view());
        assert(index.vectors_view().len() == 0);
        lemma_nearest_exists(dist, 0);
        let top = nearest_five(dist, 0);
        assert(top.len() == 0) by {
            if top.len() > 0 {
                assert(index_range(0).contains(top[0]));
            }
        }
        assert(label_sum(index.labels_view(), top) == 0);
    }
}


/// Every pair of a reordering of `before` is a pair of `before`.
proof fn lemma_reordered_member(before: Seq<(QuantizedVector, u8)>, after: Seq<(QuantizedVector, u8)>, i: int)
    requires
        after.to_multiset() == before.to_multiset(),
        0 <= i < after.len(),
    ensures
        exists|j: int| 0 <= j < before.len() && before[j] == #[trigger] after[i],
{
    broadcast use vstd::seq_lib::group_to_multiset_ensures;
    assert(after.contains(after[i]));
    assert(after.to_multiset().count(after[i]) > 0);
    assert(before.contains(after[i]));
}

/// An index written from quantized references with labels 0 and 1 passes the checks made
/// before a search once it is read back.
pub proof fn law_written_index_passes_checks(
    bytes: Seq<u8>,
    vectors: Seq<QuantizedVector>,
    labels: Seq<u8>,
    index: MmapIndex,
)
    requires
        written_index(bytes, vectors, labels),
        index_layout(bytes) matches Ok(layout) && index.read_from(bytes, layout),
        forall|i: int| 0 <= i < vectors.len() ==> in_quantized_range(#[trigger] vectors[i]@),
        labels_binary(labels),
        labels.len() == vectors.len(),
    ensures
        index.passes_checks(),
{
    law_written_index_reads_back(bytes, vectors, labels, index);
    let read = paired(index.vectors_view(), index.labels_view());
    let input = paired(vectors, labels);
    assert forall|i: int| 0 <= i < index.vectors_view().len() implies in_quantized_range(
        #[trigger] index.vectors_view()[i]@,
    ) by {
        lemma_reordered_member(input, read, i);
        let j = choose|j: int| 0 <= j < input.len() && input[j] == read[i];
        assert(input[j].0 == vectors[j]);
    }
    assert forall|i: int| 0 <= i < index.labels_view().len() implies #[trigger] index.labels_view()[i] <= 1 by {
        lemma_reordered_member(input, read, i);
        let j = choose|j: int| 0 <= j < input.len() && input[j] == read[i];
        assert(input[j].1 == labels[j]);
    }
}


/// The label stored for a reference labelled `name`: 1 for `fraud`, 0 for `legit`, and
/// none for any other name.
pub fn reference_label(name: &str) -> (r: Option<u8>)
    ensures
        r == if name@ == "fraud"@ {
            Some(1u8)
        } else if name@ == "legit"@ {
            Some(0u8)
        } else {
            None::<u8>
        },
{
    proof {
        vstd::utf8::encode_utf8_decode_utf8(name@);
        vstd::utf8::encode_utf8_decode_utf8("fraud"@);
        vstd::utf8::encode_utf8_decode_utf8("legit"@);
    }
    if bytes_equal(name.as_bytes(), "fraud".as_bytes()) {
        Some(1)
    } else if bytes_equal(name.as_bytes(), "legit".as_bytes()) {
        Some(0)
    } else {
        None
    }
}

} // verus!
