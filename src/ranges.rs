use vstd::prelude::*;

verus! {

/// Length of the fixed part of a zip local file header.
pub const LOCAL_HEADER_LEN: u64 = 30;

/// A byte range of a value.
#[derive(Clone, Copy, Debug, PartialEq, Eq, Structural)]
pub enum ByteRange {
    /// From an offset, for a length or to the end.
    FromStart(u64, Option<u64>),
    /// The last bytes, as many as given (all of them, where the value is shorter).
    Suffix(u64),
}

/// Why a read could not be planned or finished.
#[derive(Debug, PartialEq, Eq)]
pub enum ReadError {
    /// A requested range ends beyond the entry: the range and the entry's size.
    InvalidRange(ByteRange, u64),
    /// The local file header holds fewer than its fixed bytes.
    HeaderTooShort,
    /// The entry's data would lie beyond the largest offset.
    OffsetOverflow,
    /// Decompression wrote another number of bytes than the entry records.
    SizeMismatch { expected: u64, written: u64 },
}

pub open spec fn min(a: int, b: int) -> int {
    if a <= b { a } else { b }
}

/// `r` fits a value of `size` bytes. A range with a length is measured with
/// a saturating end; a suffix is clamped to the value, so always fits.
pub open spec fn range_ok(r: ByteRange, size: u64) -> bool {
    match r {
        ByteRange::FromStart(s, Some(l)) => min(s + l, u64::MAX as int) <= size,
        ByteRange::FromStart(s, None) => s <= size,
        ByteRange::Suffix(_) => true,
    }
}

pub open spec fn range_start(r: ByteRange, size: u64) -> int {
    match r {
        ByteRange::FromStart(s, _) => s as int,
        ByteRange::Suffix(l) => size - min(l as int, size as int),
    }
}

pub open spec fn range_end(r: ByteRange, size: u64) -> int {
    match r {
        ByteRange::FromStart(s, Some(l)) => s + l,
        _ => size as int,
    }
}

pub open spec fn all_ok(rs: Seq<ByteRange>, size: u64) -> bool {
    forall|i: int| 0 <= i < rs.len() ==> range_ok(#[trigger] rs[i], size)
}

/// A little-endian 16-bit field at `at`.
pub open spec fn le16(b: Seq<u8>, at: int) -> int {
    b[at] + 256 * b[at + 1]
}

/// Where an entry's data starts, after its local header whose first bytes
/// are `h`: the fixed part, then the file name, then the extra field.
pub open spec fn data_offset(header_offset: u64, h: Seq<u8>) -> int {
    header_offset + LOCAL_HEADER_LEN + le16(h, 26) + le16(h, 28)
}

/// Whether `r` fits a value of `size` bytes.
pub fn range_is_valid(r: ByteRange, size: u64) -> (ok: bool)
    ensures
        ok == range_ok(r, size),
{
    match r {
        ByteRange::FromStart(s, Some(l)) => {
            let end = if s > u64::MAX - l {
                u64::MAX
            } else {
                s + l
            };
            end <= size
        },
        ByteRange::FromStart(s, None) => s <= size,
        ByteRange::Suffix(_) => true,
    }
}

/// Checks every range against an entry of `size` bytes; the first that does
/// not fit fails the whole request.
pub fn validate_ranges(ranges: &[ByteRange], size: u64) -> (r: Result<(), ReadError>)
    ensures
        r is Ok <==> all_ok(ranges@, size),
        r matches Err(e) ==> exists|i: int|
            0 <= i < ranges@.len() && !range_ok(#[trigger] ranges@[i], size) && e
                == ReadError::InvalidRange(ranges@[i], size),
{
    let mut i: usize = 0;
    while i < ranges.len()
        invariant
            i <= ranges.len(),
            forall|j: int| 0 <= j < i ==> range_ok(#[trigger] ranges@[j], size),
        decreases ranges.len() - i,
    {
        if !range_is_valid(ranges[i], size) {
            return Err(ReadError::InvalidRange(ranges[i], size));
        }
        i += 1;
    }
    Ok(())
}

/// The offset of an entry's data in the archive, from the entry's header
/// offset and the bytes read at it.
pub fn calculate_data_offset(header_offset: u64, header: &[u8]) -> (r: Result<u64, ReadError>)
    ensures
        header@.len() < LOCAL_HEADER_LEN ==> r == Err::<u64, ReadError>(ReadError::HeaderTooShort),
        header@.len() >= LOCAL_HEADER_LEN && data_offset(header_offset, header@) <= u64::MAX
            ==> r == Ok::<u64, ReadError>(data_offset(header_offset, header@) as u64),
        header@.len() >= LOCAL_HEADER_LEN && data_offset(header_offset, header@) > u64::MAX
            ==> r == Err::<u64, ReadError>(ReadError::OffsetOverflow),
{
    if header.len() < 30 {
        return Err(ReadError::HeaderTooShort);
    }
    let name_len: u64 = header[26] as u64 + 256 * (header[27] as u64);
    let extra_len: u64 = header[28] as u64 + 256 * (header[29] as u64);
    let fixed = LOCAL_HEADER_LEN + name_len + extra_len;
    if header_offset > u64::MAX - fixed {
        return Err(ReadError::OffsetOverflow);
    }
    Ok(header_offset + fixed)
}

/// For a stored entry of `size` bytes whose data starts at `data_offset`,
/// each range as an absolute (start, length) in the archive; `None` where the
/// entry would end beyond the largest offset.
pub fn translate_stored_ranges(ranges: &[ByteRange], data_offset: u64, size: u64) -> (r: Option<
    Vec<(u64, u64)>,
>)
    requires
        all_ok(ranges@, size),
    ensures
        r is None <==> data_offset + size > u64::MAX,
        r matches Some(v) ==> v@.len() == ranges@.len() && forall|i: int|
            0 <= i < v@.len() ==> #[trigger] v@[i] == (
                (data_offset + range_start(ranges@[i], size)) as u64,
                (range_end(ranges@[i], size) - range_start(ranges@[i], size)) as u64,
            ),
{
    if data_offset > u64::MAX - size {
        return None;
    }
    let mut v: Vec<(u64, u64)> = Vec::new();
    let mut i: usize = 0;
    while i < ranges.len()
        invariant
            all_ok(ranges@, size),
            data_offset + size <= u64::MAX,
            i <= ranges.len(),
            v@.len() == i,
            forall|j: int|
                0 <= j < i ==> #[trigger] v@[j] == (
                    (data_offset + range_start(ranges@[j], size)) as u64,
                    (range_end(ranges@[j], size) - range_start(ranges@[j], size)) as u64,
                ),
        decreases ranges.len() - i,
    {
        let r = ranges[i];
        assert(range_ok(ranges@[i as int], size));
        let t = match r {
            ByteRange::FromStart(s, Some(l)) => (data_offset + s, l),
            ByteRange::FromStart(s, None) => (data_offset + s, size - s),
            ByteRange::Suffix(l) => {
                let n = if l < size {
                    l
                } else {
                    size
                };
                (data_offset + (size - n), n)
            },
        };
        v.push(t);
        i += 1;
    }
    Some(v)
}

/// Each range cut out of a fully decompressed entry, as its own buffer.
pub fn slice_ranges(data: &[u8], ranges: &[ByteRange]) -> (r: Vec<Vec<u8>>)
    requires
        data@.len() < u64::MAX,
        all_ok(ranges@, data@.len() as u64),
    ensures
        r@.len() == ranges@.len(),
        forall|i: int|
            0 <= i < r@.len() ==> (#[trigger] r@[i])@ == data@.subrange(
                range_start(ranges@[i], data@.len() as u64),
                range_end(ranges@[i], data@.len() as u64),
            ),
{
    let size = data.len() as u64;
    let mut r: Vec<Vec<u8>> = Vec::new();
    let mut i: usize = 0;
    while i < ranges.len()
        invariant
            size == data@.len(),
            data@.len() < u64::MAX,
            all_ok(ranges@, size),
            i <= ranges.len(),
            r@.len() == i,
            forall|j: int|
                0 <= j < i ==> (#[trigger] r@[j])@ == data@.subrange(
                    range_start(ranges@[j], size),
                    range_end(ranges@[j], size),
                ),
        decreases ranges.len() - i,
    {
        let rg = ranges[i];
        assert(rg == ranges@[i as int]);
        assert(range_ok(rg, size));
        let (lo, hi) = match rg {
            ByteRange::FromStart(s, Some(l)) => (s, s + l),
            ByteRange::FromStart(s, None) => (s, size),
            ByteRange::Suffix(l) => {
                let n = if l < size {
                    l
                } else {
                    size
                };
                (size - n, size)
            },
        };
        assert(lo == range_start(rg, size) && hi == range_end(rg, size));
        assert(lo <= hi <= size);
        let n: usize = data.len();
        assert(hi as int <= n);
        let lo_u: usize = lo as usize;
        let hi_u: usize = hi as usize;
        let mut piece: Vec<u8> = Vec::new();
        let mut k: usize = lo_u;
        while k < hi_u
            invariant
                lo_u <= hi_u <= data@.len(),
                lo_u <= k <= hi_u,
                piece@ =~= data@.subrange(lo_u as int, k as int),
            decreases hi_u - k,
        {
            piece.push(data[k]);
            k += 1;
        }
        let ghost old_r = r@;
        assert(piece@ == data@.subrange(range_start(ranges@[i as int], size), range_end(ranges@[i as int], size)));
        r.push(piece);
        assert(r@ == old_r.push(piece));
        i += 1;
    }
    r
}

/// How many bytes to read at `offset` into `space` bytes of buffer, without
/// passing the end of a value of `total` bytes; zero means end of input.
pub fn read_len(offset: u64, space: u64, total: u64) -> (r: u64)
    ensures
        r == min(space as int, if offset <= total { total - offset } else { 0 }),
{
    let remaining = if offset <= total {
        total - offset
    } else {
        0
    };
    if space < remaining {
        space
    } else {
        remaining
    }
}

/// Accepts a decompressed entry only if exactly its recorded size was written.
pub fn check_decompressed_len(written: u64, expected: u64) -> (r: Result<(), ReadError>)
    ensures
        written == expected ==> r is Ok,
        written != expected ==> r == Err::<(), ReadError>(
            ReadError::SizeMismatch { expected, written },
        ),
{
    if written != expected {
        Err(ReadError::SizeMismatch { expected, written })
    } else {
        Ok(())
    }
}

} // verus!
