//! Block-to-file offset mapping.
//!
//! The torrent's files, in declared order, concatenate to one global byte
//! space; piece `i` occupies `[i * L, min((i + 1) * L, total))` of it.  This
//! module computes, for any global byte range, the list of per-file slices it
//! falls into, splitting across file boundaries.  The process around the
//! library performs the actual reads and writes against the returned slices.

use vstd::prelude::*;

verus! {

/// A contiguous run of bytes within one file: which file, where in it, how many.
#[derive(Debug, Clone, Copy, PartialEq, Eq, Structural)]
pub struct FileSlice {
    pub file_index: usize,
    pub offset: u64,
    pub length: u64,
}

/// The sum of the first `i` file lengths.
pub open spec fn sum_prefix(s: Seq<u64>, i: int) -> int
    decreases i,
{
    if i <= 0 {
        0
    } else {
        sum_prefix(s, i - 1) + s[i - 1]
    }
}

/// The sum of all file lengths: the size of the global byte space.
pub open spec fn sum_of(s: Seq<u64>) -> int {
    sum_prefix(s, s.len() as int)
}

/// The index of the file holding global byte `g` (zero-length files never
/// hold a byte).
pub open spec fn file_of(files: Seq<u64>, g: int) -> int
    decreases files.len(),
{
    if files.len() == 0 {
        0
    } else if g < files[0] {
        0
    } else {
        1 + file_of(files.drop_first(), g - files[0])
    }
}

/// The offset within its file of global byte `g`.
pub open spec fn local_of(files: Seq<u64>, g: int) -> int {
    g - sum_prefix(files, file_of(files, g))
}

pub proof fn lemma_sum_prefix_nonneg(s: Seq<u64>, i: int)
    ensures
        sum_prefix(s, i) >= 0,
    decreases i,
{
    if i > 0 {
        lemma_sum_prefix_nonneg(s, i - 1);
    }
}

pub proof fn lemma_sum_prefix_mono(s: Seq<u64>, i: int, j: int)
    requires
        i <= j,
    ensures
        sum_prefix(s, i) <= sum_prefix(s, j),
    decreases j - i,
{
    if i < j {
        lemma_sum_prefix_mono(s, i, j - 1);
    }
}

proof fn lemma_sum_prefix_drop_first(s: Seq<u64>, i: int)
    requires
        s.len() > 0,
        1 <= i <= s.len(),
    ensures
        sum_prefix(s, i) == s[0] + sum_prefix(s.drop_first(), i - 1),
    decreases i,
{
    if i == 1 {
        assert(sum_prefix(s, 1) == sum_prefix(s, 0) + s[0]);
        assert(sum_prefix(s, 0) == 0);
        assert(sum_prefix(s.drop_first(), 0) == 0);
    } else {
        lemma_sum_prefix_drop_first(s, i - 1);
        assert(s.drop_first()[i - 2] == s[i - 1]);
        assert(sum_prefix(s, i) == sum_prefix(s, i - 1) + s[i - 1]);
        assert(sum_prefix(s.drop_first(), i - 1) == sum_prefix(s.drop_first(), i - 2)
            + s.drop_first()[i - 2]);
    }
}

/// If `g` falls inside file `i`'s stretch of the global space, then `i` is
/// the file of `g` and the local offset is `g` minus the preceding lengths.
pub proof fn lemma_file_of_locate(files: Seq<u64>, g: int, i: int)
    requires
        0 <= i < files.len(),
        sum_prefix(files, i) <= g < sum_prefix(files, i) + files[i],
    ensures
        file_of(files, g) == i,
        local_of(files, g) == g - sum_prefix(files, i),
    decreases i,
{
    lemma_sum_prefix_nonneg(files, i);
    if i == 0 {
    } else {
        lemma_sum_prefix_drop_first(files, i);
        lemma_sum_prefix_mono(files, 1, i);
        lemma_file_of_locate(files.drop_first(), g - files[0], i - 1);
        lemma_sum_prefix_drop_first(files, i + 1);
    }
}

/// Every in-range global byte is inside its file's bounds.
pub proof fn lemma_file_of_bounds(files: Seq<u64>, g: int)
    requires
        0 <= g < sum_of(files),
    ensures
        0 <= file_of(files, g) < files.len(),
        sum_prefix(files, file_of(files, g)) <= g,
        g < sum_prefix(files, file_of(files, g)) + files[file_of(files, g)],
    decreases files.len(),
{
    if files.len() == 0 {
    } else if g < files[0] {
    } else {
        lemma_sum_prefix_drop_first(files, files.len() as int);
        lemma_file_of_bounds(files.drop_first(), g - files[0]);
        let f = file_of(files.drop_first(), g - files[0]);
        lemma_sum_prefix_drop_first(files, f + 1);
    }
}

/// Two in-range global bytes with the same file and the same local offset are
/// the same byte: the mapping is injective.
pub proof fn lemma_location_injective(files: Seq<u64>, g1: int, g2: int)
    requires
        0 <= g1 < sum_of(files),
        0 <= g2 < sum_of(files),
        file_of(files, g1) == file_of(files, g2),
        local_of(files, g1) == local_of(files, g2),
    ensures
        g1 == g2,
{
    lemma_file_of_bounds(files, g1);
    lemma_file_of_bounds(files, g2);
}

/// The number of bytes a slice list covers.
pub open spec fn sum_slice_len(slices: Seq<FileSlice>) -> int
    decreases slices.len(),
{
    if slices.len() == 0 {
        0
    } else {
        slices[0].length + sum_slice_len(slices.drop_first())
    }
}

/// The (file, local offset) location of the `p`-th byte of a slice list.
pub open spec fn loc_in_slices(slices: Seq<FileSlice>, p: int) -> (int, int)
    decreases slices.len(),
{
    if slices.len() == 0 {
        (0, 0)
    } else if p < slices[0].length {
        (slices[0].file_index as int, slices[0].offset + p)
    } else {
        loc_in_slices(slices.drop_first(), p - slices[0].length)
    }
}

/// Every slice stays inside its file.
pub open spec fn slices_in_bounds(files: Seq<u64>, slices: Seq<FileSlice>) -> bool {
    forall|k: int|
        0 <= k < slices.len() ==> (#[trigger] slices[k]).file_index < files.len()
            && slices[k].offset + slices[k].length <= files[slices[k].file_index as int]
}

/// `slices` is the decomposition of global range `[offset, offset + length)`:
/// it covers exactly `length` bytes, each slice is nonempty and inside its
/// file, and the `p`-th covered byte sits exactly where the global mapping
/// puts global byte `offset + p`.
pub open spec fn is_range_map(
    files: Seq<u64>,
    offset: int,
    length: int,
    slices: Seq<FileSlice>,
) -> bool {
    &&& sum_slice_len(slices) == length
    &&& slices_in_bounds(files, slices)
    &&& forall|k: int| 0 <= k < slices.len() ==> (#[trigger] slices[k]).length > 0
    &&& forall|p: int|
        0 <= p < length ==> #[trigger] loc_in_slices(slices, p) == (
        file_of(files, offset + p),
        local_of(files, offset + p),
    )
}

proof fn lemma_sum_slice_len_nonneg(slices: Seq<FileSlice>)
    ensures
        sum_slice_len(slices) >= 0,
    decreases slices.len(),
{
    if slices.len() > 0 {
        lemma_sum_slice_len_nonneg(slices.drop_first());
    }
}

/// How appending one slice changes coverage and byte locations.
proof fn lemma_loc_push(slices: Seq<FileSlice>, x: FileSlice, p: int)
    ensures
        sum_slice_len(slices.push(x)) == sum_slice_len(slices) + x.length,
        0 <= p < sum_slice_len(slices) ==> loc_in_slices(slices.push(x), p) == loc_in_slices(
            slices,
            p,
        ),
        sum_slice_len(slices) <= p < sum_slice_len(slices) + x.length ==> loc_in_slices(
            slices.push(x),
            p,
        ) == (x.file_index as int, x.offset + p - sum_slice_len(slices)),
    decreases slices.len(),
{
    lemma_sum_slice_len_nonneg(slices);
    if slices.len() == 0 {
        assert(slices.push(x).len() == 1);
        assert(slices.push(x)[0] == x);
        assert(slices.push(x).drop_first() =~= Seq::<FileSlice>::empty());
        assert(sum_slice_len(slices.push(x)) == x.length + sum_slice_len(
            Seq::<FileSlice>::empty(),
        ));
        if 0 <= p < x.length {
            assert(loc_in_slices(slices.push(x), p) == (x.file_index as int, x.offset + p));
        }
    } else {
        assert(slices.push(x)[0] == slices[0]);
        assert(slices.push(x).drop_first() =~= slices.drop_first().push(x));
        lemma_sum_slice_len_nonneg(slices.drop_first());
        lemma_loc_push(slices.drop_first(), x, p - slices[0].length);
        assert(sum_slice_len(slices.push(x)) == slices[0].length + sum_slice_len(
            slices.drop_first().push(x),
        ));
    }
}

/// The `q`-th byte of slice `k` sits at that slice's own location.
proof fn lemma_loc_at_slice(slices: Seq<FileSlice>, k: int, q: int)
    requires
        0 <= k < slices.len(),
        0 <= q < slices[k].length,
        forall|j: int| 0 <= j < slices.len() ==> (#[trigger] slices[j]).length > 0,
    ensures
        loc_in_slices(slices, sum_slice_len(slices.take(k)) + q) == (
            slices[k].file_index as int,
            slices[k].offset + q,
        ),
        0 <= sum_slice_len(slices.take(k)) + q < sum_slice_len(slices),
    decreases k,
{
    lemma_sum_slice_len_nonneg(slices.take(k));
    if k == 0 {
        assert(slices.take(0) =~= Seq::<FileSlice>::empty());
        lemma_tail_total(slices, q);
    } else {
        let rest = slices.drop_first();
        assert(slices.take(k).drop_first() =~= rest.take(k - 1));
        lemma_loc_at_slice(rest, k - 1, q);
    }
}

/// The total length bounds every prefix-plus-byte position.
proof fn lemma_tail_total(slices: Seq<FileSlice>, q: int)
    requires
        slices.len() > 0,
        0 <= q < slices[0].length,
    ensures
        q < sum_slice_len(slices),
{
    lemma_sum_slice_len_nonneg(slices.drop_first());
}

/// What one write changes: the file contents with `d` laid over
/// `[off, off + d.len())`.
pub open spec fn splice(file: Seq<u8>, off: int, d: Seq<u8>) -> Seq<u8> {
    file.take(off).add(d).add(file.skip(off + d.len()))
}

/// The disk contents after writing `data` across `slices`, slice by slice.
pub open spec fn write_slices(
    disk: Seq<Seq<u8>>,
    slices: Seq<FileSlice>,
    data: Seq<u8>,
) -> Seq<Seq<u8>>
    decreases slices.len(),
{
    if slices.len() == 0 {
        disk
    } else {
        let s = slices[0];
        let d1 = disk.update(
            s.file_index as int,
            splice(disk[s.file_index as int], s.offset as int, data.take(s.length as int)),
        );
        write_slices(d1, slices.drop_first(), data.skip(s.length as int))
    }
}

/// The bytes read back across `slices`, slice by slice.
pub open spec fn read_slices(disk: Seq<Seq<u8>>, slices: Seq<FileSlice>) -> Seq<u8>
    decreases slices.len(),
{
    if slices.len() == 0 {
        Seq::<u8>::empty()
    } else {
        let s = slices[0];
        disk[s.file_index as int].subrange(s.offset as int, s.offset + s.length).add(
            read_slices(disk, slices.drop_first()),
        )
    }
}

/// Each disk file has exactly its declared length.
pub open spec fn disk_wf(disk: Seq<Seq<u8>>, files: Seq<u64>) -> bool {
    &&& disk.len() == files.len()
    &&& forall|i: int| 0 <= i < disk.len() ==> (#[trigger] disk[i]).len() == files[i]
}

/// Writing keeps every file at its declared length.
proof fn lemma_write_slices_wf(
    disk: Seq<Seq<u8>>,
    files: Seq<u64>,
    slices: Seq<FileSlice>,
    data: Seq<u8>,
)
    requires
        disk_wf(disk, files),
        slices_in_bounds(files, slices),
        data.len() >= sum_slice_len(slices),
    ensures
        disk_wf(write_slices(disk, slices, data), files),
    decreases slices.len(),
{
    if slices.len() > 0 {
        let s = slices[0];
        lemma_sum_slice_len_nonneg(slices.drop_first());
        let d1 = disk.update(
            s.file_index as int,
            splice(disk[s.file_index as int], s.offset as int, data.take(s.length as int)),
        );
        assert(disk_wf(d1, files));
        assert forall|k: int| 0 <= k < slices.drop_first().len() implies (#[trigger] slices.drop_first()[k]).file_index
            < files.len() && slices.drop_first()[k].offset + slices.drop_first()[k].length
            <= files[slices.drop_first()[k].file_index as int] by {
            assert(slices.drop_first()[k] == slices[k + 1]);
        }
        lemma_write_slices_wf(d1, files, slices.drop_first(), data.skip(s.length as int));
    }
}

/// A region no slice touches reads the same before and after the write.
proof fn lemma_write_slices_preserves(
    disk: Seq<Seq<u8>>,
    files: Seq<u64>,
    slices: Seq<FileSlice>,
    data: Seq<u8>,
    fi: int,
    lo: int,
    hi: int,
)
    requires
        disk_wf(disk, files),
        slices_in_bounds(files, slices),
        data.len() >= sum_slice_len(slices),
        0 <= fi < disk.len(),
        0 <= lo <= hi <= files[fi],
        forall|k: int|
            0 <= k < slices.len() ==> ((#[trigger] slices[k]).file_index != fi || hi
                <= slices[k].offset || slices[k].offset + slices[k].length <= lo),
    ensures
        write_slices(disk, slices, data)[fi].subrange(lo, hi) == disk[fi].subrange(lo, hi),
    decreases slices.len(),
{
    if slices.len() > 0 {
        let s = slices[0];
        lemma_sum_slice_len_nonneg(slices.drop_first());
        let nf = splice(disk[s.file_index as int], s.offset as int, data.take(s.length as int));
        let d1 = disk.update(s.file_index as int, nf);
        assert(disk_wf(d1, files));
        if s.file_index as int == fi {
            assert(nf.subrange(lo, hi) =~= disk[fi].subrange(lo, hi));
        }
        assert forall|k: int| 0 <= k < slices.drop_first().len() implies ((#[trigger] slices.drop_first()[k]).file_index
            != fi || hi <= slices.drop_first()[k].offset || slices.drop_first()[k].offset
            + slices.drop_first()[k].length <= lo) by {
            assert(slices.drop_first()[k] == slices[k + 1]);
        }
        assert forall|k: int| 0 <= k < slices.drop_first().len() implies (#[trigger] slices.drop_first()[k]).file_index
            < files.len() && slices.drop_first()[k].offset + slices.drop_first()[k].length
            <= files[slices.drop_first()[k].file_index as int] by {
            assert(slices.drop_first()[k] == slices[k + 1]);
        }
        lemma_write_slices_preserves(
            d1,
            files,
            slices.drop_first(),
            data.skip(s.length as int),
            fi,
            lo,
            hi,
        );
        assert(d1[fi].subrange(lo, hi) == disk[fi].subrange(lo, hi));
    }
}

/// The file-offset law: after writing bytes `data` across the slice
/// decomposition of a global byte range, reading the same range back through
/// the same decomposition yields `data` exactly, and every file keeps its
/// declared length.
pub proof fn lemma_write_read_roundtrip(
    disk: Seq<Seq<u8>>,
    files: Seq<u64>,
    offset: int,
    length: int,
    slices: Seq<FileSlice>,
    data: Seq<u8>,
)
    requires
        disk_wf(disk, files),
        is_range_map(files, offset, length, slices),
        data.len() == length,
        0 <= offset,
        offset + length <= sum_of(files),
    ensures
        read_slices(write_slices(disk, slices, data), slices) == data,
        disk_wf(write_slices(disk, slices, data), files),
    decreases slices.len(),
{
    lemma_write_slices_wf(disk, files, slices, data);
    if slices.len() == 0 {
        assert(read_slices(write_slices(disk, slices, data), slices) =~= data);
    } else {
        let s = slices[0];
        let l0 = s.length as int;
        let rest = slices.drop_first();
        lemma_sum_slice_len_nonneg(rest);
        let nf = splice(disk[s.file_index as int], s.offset as int, data.take(l0));
        let d1 = disk.update(s.file_index as int, nf);
        assert(disk_wf(d1, files));
        // The tail decomposition maps the shifted range.
        assert forall|k: int| 0 <= k < rest.len() implies (#[trigger] rest[k]).file_index
            < files.len() && rest[k].offset + rest[k].length <= files[rest[k].file_index as int]
            && rest[k].length > 0 by {
            assert(rest[k] == slices[k + 1]);
        }
        assert forall|p: int| 0 <= p < length - l0 implies #[trigger] loc_in_slices(rest, p) == (
        file_of(files, offset + l0 + p),
        local_of(files, offset + l0 + p),
        ) by {
            assert(loc_in_slices(slices, p + l0) == loc_in_slices(rest, p));
        }
        assert(is_range_map(files, offset + l0, length - l0, rest));
        lemma_write_read_roundtrip(d1, files, offset + l0, length - l0, rest, data.skip(l0));
        // No tail slice touches the head slice's region.
        assert forall|k: int|
            0 <= k < rest.len() implies ((#[trigger] rest[k]).file_index != s.file_index as int
            || s.offset + l0 <= rest[k].offset || rest[k].offset + rest[k].length
            <= s.offset as int) by {
            assert(rest[k] == slices[k + 1]);
            if rest[k].file_index == s.file_index && !(s.offset + l0 <= rest[k].offset || rest[k].offset
                + rest[k].length <= s.offset as int) {
                // An overlapping local position would be one global byte twice.
                let l: int = if s.offset >= rest[k].offset {
                    s.offset as int
                } else {
                    rest[k].offset as int
                };
                let q1 = l - s.offset;
                let q2 = l - rest[k].offset;
                assert(0 <= q1 < l0);
                assert(0 <= q2 < rest[k].length);
                assert(slices.take(0) =~= Seq::<FileSlice>::empty());
                lemma_loc_at_slice(slices, 0, q1);
                lemma_loc_at_slice(slices, k + 1, q2);
                let c1 = sum_slice_len(slices.take(0)) + q1;
                let c2 = sum_slice_len(slices.take(k + 1)) + q2;
                assert(loc_in_slices(slices, c1) == (s.file_index as int, s.offset + q1));
                assert(loc_in_slices(slices, c2) == (s.file_index as int, rest[k].offset + q2));
                assert(s.offset + q1 == rest[k].offset + q2);
                assert(loc_in_slices(slices, c1) == (
                    file_of(files, offset + c1),
                    local_of(files, offset + c1),
                ));
                assert(loc_in_slices(slices, c2) == (
                    file_of(files, offset + c2),
                    local_of(files, offset + c2),
                ));
                lemma_location_injective(files, offset + c1, offset + c2);
                // c1 < l0 <= sum of the first k + 1 slice lengths <= c2.
                lemma_take_sum_lower(slices, k + 1);
                assert(false);
            }
        }
        lemma_write_slices_preserves(
            d1,
            files,
            rest,
            data.skip(l0),
            s.file_index as int,
            s.offset as int,
            s.offset + l0,
        );
        let dfinal = write_slices(d1, rest, data.skip(l0));
        assert(d1[s.file_index as int].subrange(s.offset as int, s.offset + l0) =~= data.take(l0));
        assert(dfinal[s.file_index as int].subrange(s.offset as int, s.offset + l0) == data.take(
            l0,
        ));
        assert(read_slices(dfinal, slices) =~= data);
    }
}

/// The sum of the first `k` slice lengths is at least the first length.
proof fn lemma_take_sum_lower(slices: Seq<FileSlice>, k: int)
    requires
        1 <= k <= slices.len(),
    ensures
        sum_slice_len(slices.take(k)) >= slices[0].length,
    decreases k,
{
    if k == 1 {
        assert(slices.take(1).len() == 1);
        assert(slices.take(1)[0] == slices[0]);
        assert(slices.take(1).drop_first() =~= Seq::<FileSlice>::empty());
        assert(sum_slice_len(Seq::<FileSlice>::empty()) == 0);
        assert(sum_slice_len(slices.take(1)) == slices[0].length);
    } else {
        assert(slices.take(k)[0] == slices[0]);
        assert(slices.take(k).drop_first() =~= slices.drop_first().take(k - 1));
        lemma_take_sum_lower_tail(slices.drop_first(), k - 1);
        assert(sum_slice_len(slices.take(k)) == slices[0].length + sum_slice_len(
            slices.drop_first().take(k - 1),
        ));
    }
}

/// The sum of any prefix of slice lengths is nonnegative.
proof fn lemma_take_sum_lower_tail(slices: Seq<FileSlice>, k: int)
    requires
        0 <= k <= slices.len(),
    ensures
        sum_slice_len(slices.take(k)) >= 0,
{
    lemma_sum_slice_len_nonneg(slices.take(k));
}

/// Maps global byte ranges onto the torrent's files.
pub struct FileMapper {
    piece_length: u64,
    file_lengths: Vec<u64>,
    total: u64,
}

impl FileMapper {
    /// The configured piece length.
    pub closed spec fn spec_piece_length(self) -> u64 {
        self.piece_length
    }

    /// The declared file lengths, in order.
    pub closed spec fn spec_files(self) -> Seq<u64> {
        self.file_lengths@
    }

    /// The piece length is positive and the cached total is the sum of the
    /// file lengths.
    pub closed spec fn wf(self) -> bool {
        self.piece_length > 0 && self.total == sum_of(self.file_lengths@)
    }

    /// A mapper over the given piece length and file lengths.
    pub fn new(piece_length: u64, file_lengths: Vec<u64>) -> (r: FileMapper)
        requires
            piece_length > 0,
            sum_of(file_lengths@) <= u64::MAX,
        ensures
            r.wf(),
            r.spec_piece_length() == piece_length,
            r.spec_files() == file_lengths@,
    {
        let mut total: u64 = 0;
        let mut i: usize = 0;
        while i < file_lengths.len()
            invariant
                i <= file_lengths@.len(),
                total == sum_prefix(file_lengths@, i as int),
                sum_of(file_lengths@) <= u64::MAX,
            decreases file_lengths@.len() - i,
        {
            proof {
                lemma_sum_prefix_nonneg(file_lengths@, i as int);
                lemma_sum_prefix_mono(file_lengths@, i + 1, file_lengths@.len() as int);
            }
            total = total + file_lengths[i];
            i = i + 1;
        }
        FileMapper { piece_length, file_lengths, total }
    }

    /// The size of the global byte space.
    pub fn total_size(&self) -> (r: u64)
        requires
            self.wf(),
        ensures
            r == sum_of(self.spec_files()),
    {
        self.total
    }

    /// The number of files.
    pub fn file_count(&self) -> (r: usize)
        ensures
            r == self.spec_files().len(),
    {
        self.file_lengths.len()
    }

    /// The configured piece length.
    pub fn piece_length(&self) -> (r: u64)
        ensures
            r == self.spec_piece_length(),
    {
        self.piece_length
    }

    /// The global byte offset of block `begin` within piece `piece_index`.
    pub fn block_byte_offset(&self, piece_index: u32, begin: u32) -> (r: u64)
        requires
            self.wf(),
            piece_index * self.spec_piece_length() + begin <= sum_of(self.spec_files()),
        ensures
            r == piece_index * self.spec_piece_length() + begin,
    {
        proof {
            lemma_sum_prefix_nonneg(self.spec_files(), self.spec_files().len() as int);
        }
        piece_index as u64 * self.piece_length + begin as u64
    }

    /// The global range piece `piece_index` occupies: its start and its byte
    /// length (the full piece length, except a shorter last piece).
    pub fn piece_range(&self, piece_index: u32) -> (r: (u64, u64))
        requires
            self.wf(),
            piece_index * self.spec_piece_length() < sum_of(self.spec_files()),
        ensures
            r.0 == piece_index * self.spec_piece_length(),
            r.1 == if piece_index * self.spec_piece_length() + self.spec_piece_length() <= sum_of(
                self.spec_files(),
            ) {
                self.spec_piece_length() as int
            } else {
                sum_of(self.spec_files()) - piece_index * self.spec_piece_length()
            },
    {
        let start = piece_index as u64 * self.piece_length;
        let rest = self.total - start;
        let len = if self.piece_length < rest {
            self.piece_length
        } else {
            rest
        };
        (start, len)
    }

    /// Decomposes the global byte range `[offset, offset + length)` into
    /// per-file slices, splitting across file boundaries.
    pub fn map_range(&self, offset: u64, length: u64) -> (r: Vec<FileSlice>)
        requires
            self.wf(),
            offset + length <= sum_of(self.spec_files()),
        ensures
            is_range_map(self.spec_files(), offset as int, length as int, r@),
    {
        let files = &self.file_lengths;
        let ghost fseq = self.spec_files();
        let mut slices: Vec<FileSlice> = Vec::new();
        let mut fidx: usize = 0;
        let mut acc: u64 = 0;
        let mut g: u64 = offset;
        let mut remaining: u64 = length;
        proof {
            lemma_sum_prefix_nonneg(fseq, fseq.len() as int);
        }
        while remaining > 0
            invariant
                self.wf(),
                fseq == self.spec_files(),
                files@ == fseq,
                fidx <= fseq.len(),
                acc == sum_prefix(fseq, fidx as int),
                acc <= g,
                g == offset + length - remaining,
                remaining <= length,
                offset + length <= sum_of(fseq),
                sum_slice_len(slices@) == length - remaining,
                slices_in_bounds(fseq, slices@),
                forall|k: int| 0 <= k < slices@.len() ==> (#[trigger] slices@[k]).length > 0,
                forall|p: int|
                    0 <= p < length - remaining ==> #[trigger] loc_in_slices(slices@, p) == (
                    file_of(fseq, offset + p),
                    local_of(fseq, offset + p),
                ),
            decreases fseq.len() - fidx, remaining,
        {
            proof {
                if fidx == fseq.len() {
                    assert(acc == sum_of(fseq));
                    assert(g < sum_of(fseq));
                    assert(false);
                }
                lemma_sum_prefix_mono(fseq, fidx + 1, fseq.len() as int);
            }
            assert(fidx < fseq.len());
            assert(acc + files@[fidx as int] <= sum_of(fseq));
            let flen: usize = files.len();
            assert(fidx < flen);
            if g >= acc + files[fidx] {
                acc = acc + files[fidx];
                fidx = fidx + 1;
            } else {
                let local = g - acc;
                let avail = files[fidx] - local;
                let take: u64 = if remaining < avail {
                    remaining
                } else {
                    avail
                };
                let s = FileSlice { file_index: fidx, offset: local, length: take };
                proof {
                    let ghost done = (length - remaining) as int;
                    assert forall|p: int| done <= p < done + take implies loc_in_slices(
                        slices@.push(s),
                        p,
                    ) == (file_of(fseq, offset + p), local_of(fseq, offset + p)) by {
                        lemma_loc_push(slices@, s, p);
                        lemma_file_of_locate(fseq, offset + p, fidx as int);
                    }
                    assert forall|p: int| 0 <= p < done implies #[trigger] loc_in_slices(
                        slices@.push(s),
                        p,
                    ) == (file_of(fseq, offset + p), local_of(fseq, offset + p)) by {
                        lemma_loc_push(slices@, s, p);
                    }
                    lemma_loc_push(slices@, s, 0);
                }
                slices.push(s);
                g = g + take;
                remaining = remaining - take;
            }
        }
        slices
    }
}

} // verus!
