//! Record containers.
//!
//! A container is a byte buffer that holds an ordered list of records. Its
//! layout is:
//!
//! * bytes `0..4`: the record count `n`, a little-endian `u32`;
//! * bytes `4..4 + 8 * n`: the record table, one entry of eight bytes per
//!   record: its offset from the start of the buffer, then its length, both
//!   little-endian `u32`;
//! * after the table: the record bytes. Each record begins at or after the
//!   end of the table and of the record before it, so records never overlap
//!   the table or each other, and together they take up no more bytes than
//!   follow the table.
//!
//! Bytes that no record covers (padding, trailing bytes) are ignored. A record may itself be a
//! container; the parser is applied once per nesting level by its caller.

use vstd::prelude::*;

verus! {

/// Size of the count field that opens a container.
pub const COUNT_SIZE: usize = 4;

/// Size of one entry of the record table.
pub const ENTRY_SIZE: usize = 8;

/// Why a buffer is not a container.
#[derive(Clone, Copy, Debug, PartialEq, Eq, Structural)]
pub enum ContainerError {
    /// The buffer is too short to hold the record count.
    MissingCount,
    /// The record table runs past the end of the buffer.
    TruncatedTable,
    /// A record's span runs past the end of the buffer.
    RecordOutOfBounds,
    /// A record begins inside the table or inside the record before it.
    RecordOverlap,
}

/// The little-endian `u32` stored in `b[at..at + 4]`.
pub open spec fn le_u32(b: Seq<u8>, at: int) -> int {
    b[at] as int + 256 * b[at + 1] as int + 65536 * b[at + 2] as int + 16777216 * b[at + 3] as int
}

/// The record count declared by a buffer that is long enough to hold one.
pub open spec fn record_count(b: Seq<u8>) -> int {
    le_u32(b, 0)
}

/// Offset of the `i`-th record, as its table entry declares it.
pub open spec fn entry_offset(b: Seq<u8>, i: int) -> int {
    le_u32(b, 4 + 8 * i)
}

/// Length of the `i`-th record, as its table entry declares it.
pub open spec fn entry_length(b: Seq<u8>, i: int) -> int {
    le_u32(b, 4 + 8 * i + 4)
}

/// The count field and the whole record table lie inside the buffer.
pub open spec fn table_fits(b: Seq<u8>) -> bool {
    b.len() >= 4 && 4 + 8 * record_count(b) <= b.len()
}

/// The `i`-th record's declared span lies inside the buffer.
pub open spec fn entry_fits(b: Seq<u8>, i: int) -> bool {
    entry_offset(b, i) + entry_length(b, i) <= b.len()
}

/// Where the record table ends.
pub open spec fn table_end(b: Seq<u8>) -> int {
    4 + 8 * record_count(b)
}

/// Where the `i`-th record's declared span ends.
pub open spec fn entry_end(b: Seq<u8>, i: int) -> int {
    entry_offset(b, i) + entry_length(b, i)
}

/// The first byte that the `i`-th record may use: the end of the table for
/// the first record, the end of the record before it for the others.
pub open spec fn free_from(b: Seq<u8>, i: int) -> int {
    if i == 0 {
        table_end(b)
    } else {
        entry_end(b, i - 1)
    }
}

/// The `i`-th record begins after the table and after the record before it.
pub open spec fn entry_in_order(b: Seq<u8>, i: int) -> bool {
    free_from(b, i) <= entry_offset(b, i)
}

/// The `i`-th record is in order and lies inside the buffer.
pub open spec fn entry_ok(b: Seq<u8>, i: int) -> bool {
    entry_in_order(b, i) && entry_fits(b, i)
}

/// Every record before the `i`-th one is in order and inside the buffer.
pub open spec fn entries_ok_before(b: Seq<u8>, i: int) -> bool {
    forall|j: int| 0 <= j < i ==> #[trigger] entry_ok(b, j)
}

/// `b` is a well-formed container.
pub open spec fn is_container(b: Seq<u8>) -> bool {
    &&& table_fits(b)
    &&& entries_ok_before(b, record_count(b))
}

/// The bytes of the `i`-th record of a well-formed container.
pub open spec fn record(b: Seq<u8>, i: int) -> Seq<u8> {
    b.subrange(entry_offset(b, i), entry_offset(b, i) + entry_length(b, i))
}

/// The records of a well-formed container, in table order.
pub open spec fn records(b: Seq<u8>) -> Seq<Seq<u8>> {
    Seq::new(record_count(b) as nat, |i: int| record(b, i))
}

/// The byte contents of a list of owned records.
pub open spec fn contents(v: Seq<Vec<u8>>) -> Seq<Seq<u8>> {
    Seq::new(v.len(), |i: int| v[i]@)
}

/// The error that parsing reports for a buffer that is not a container:
/// the first fault found, reading the count, then the table, then the
/// entries in order.
pub open spec fn parse_error(b: Seq<u8>) -> ContainerError {
    if b.len() < 4 {
        ContainerError::MissingCount
    } else if !table_fits(b) {
        ContainerError::TruncatedTable
    } else if exists|i: int|
        0 <= i < record_count(b) && entries_ok_before(b, i) && !#[trigger] entry_in_order(b, i) {
        ContainerError::RecordOverlap
    } else {
        ContainerError::RecordOutOfBounds
    }
}

/// Reads the little-endian `u32` at `b[at..at + 4]`.
fn read_u32(b: &[u8], at: usize) -> (r: u32)
    requires
        at + 4 <= b@.len(),
    ensures
        r == le_u32(b@, at as int),
{
    let b0 = b[at] as u32;
    let b1 = b[at + 1] as u32;
    let b2 = b[at + 2] as u32;
    let b3 = b[at + 3] as u32;
    b0 + 256 * b1 + 65536 * b2 + 16777216 * b3
}

/// Splits a container into its records.
///
/// Each record is a copy of the span its table entry declares. Fails when
/// the count or the table does not fit in the buffer, when a record begins
/// inside the table or the record before it, or when a record runs past the
/// end of the buffer.
pub fn parse(bytes: &[u8]) -> (r: Result<Vec<Vec<u8>>, ContainerError>)
    ensures
        match r {
            Ok(recs) => {
                &&& is_container(bytes@)
                &&& contents(recs@) == records(bytes@)
                &&& total_len(contents(recs@)) <= bytes@.len() - table_end(bytes@)
            },
            Err(e) => !is_container(bytes@) && e == parse_error(bytes@),
        },
{
    let len = bytes.len();
    if len < COUNT_SIZE {
        return Err(ContainerError::MissingCount);
    }
    let count = read_u32(bytes, 0);
    if (len as u64) < 4 + 8 * (count as u64) {
        return Err(ContainerError::TruncatedTable);
    }
    let mut out: Vec<Vec<u8>> = Vec::new();
    let mut free: u64 = 4 + 8 * (count as u64);
    let mut i: u32 = 0;
    while i < count
        invariant
            len == bytes@.len(),
            count == record_count(bytes@),
            table_fits(bytes@),
            i <= count,
            out@.len() == i,
            entries_ok_before(bytes@, i as int),
            forall|j: int| 0 <= j < i ==> (#[trigger] out@[j])@ == record(bytes@, j),
            free == free_from(bytes@, i as int),
            free <= len,
            total_len(contents(out@)) <= free - table_end(bytes@),
        decreases count - i,
    {
        let at = COUNT_SIZE + ENTRY_SIZE * (i as usize);
        let offset = read_u32(bytes, at);
        let length = read_u32(bytes, at + 4);
        if (offset as u64) < free {
            assert(!entry_in_order(bytes@, i as int));
            assert(!entry_ok(bytes@, i as int));
            assert(entries_ok_before(bytes@, i as int));
            return Err(ContainerError::RecordOverlap);
        }
        if (offset as u64) + (length as u64) > len as u64 {
            assert(!entry_fits(bytes@, i as int));
            assert(!entry_ok(bytes@, i as int));
            assert forall|k: int|
                0 <= k < record_count(bytes@) && entries_ok_before(bytes@, k) implies #[trigger] entry_in_order(
                bytes@,
                k,
            ) by {
                if k < i {
                    assert(entry_ok(bytes@, k));
                } else if k > i {
                    assert(entry_ok(bytes@, i as int));
                }
            }
            return Err(ContainerError::RecordOutOfBounds);
        }
        let start = offset as usize;
        let end = start + length as usize;
        let rec = vstd::slice::slice_to_vec(&bytes[start..end]);
        let ghost before = out@;
        out.push(rec);
        proof {
            assert(entry_ok(bytes@, i as int));
            assert(contents(out@).drop_last() =~= contents(before));
        }
        free = (offset as u64) + (length as u64);
        i = i + 1;
    }
    proof {
        assert(contents(out@) =~= records(bytes@));
    }
    Ok(out)
}

/// Total number of bytes in a list of records.
pub open spec fn total_len(recs: Seq<Seq<u8>>) -> int
    decreases recs.len(),
{
    if recs.len() == 0 {
        0
    } else {
        total_len(recs.drop_last()) + recs.last().len()
    }
}

/// Where the data of the `i`-th record starts in the encoding of `recs`.
pub open spec fn data_offset(recs: Seq<Seq<u8>>, i: int) -> int {
    4 + 8 * recs.len() + total_len(recs.take(i))
}

/// Records that an encoding can address with `u32` offsets and lengths.
pub open spec fn encodable(recs: Seq<Seq<u8>>) -> bool {
    4 + 8 * recs.len() + total_len(recs) <= u32::MAX
}

/// `b` is the encoding of `recs`: the count, then a table entry for each
/// record, then the records' bytes back to back in order.
pub open spec fn encodes(recs: Seq<Seq<u8>>, b: Seq<u8>) -> bool {
    &&& b.len() == 4 + 8 * recs.len() + total_len(recs)
    &&& record_count(b) == recs.len()
    &&& forall|i: int|
        0 <= i < recs.len() ==> #[trigger] entry_offset(b, i) == data_offset(recs, i)
            && entry_length(b, i) == recs[i].len()
    &&& forall|i: int, k: int|
        0 <= i < recs.len() && 0 <= k < recs[i].len() ==> b[data_offset(recs, i) + k]
            == #[trigger] recs[i][k]
}

/// The records before the `i`-th one end where the `i`-th begins, and all
/// of them end within the total.
pub proof fn lemma_total_len_prefix(recs: Seq<Seq<u8>>, i: int)
    requires
        0 <= i < recs.len(),
    ensures
        total_len(recs.take(i + 1)) == total_len(recs.take(i)) + recs[i].len(),
        total_len(recs.take(i + 1)) <= total_len(recs),
        0 <= total_len(recs.take(i)),
    decreases recs.len(),
{
    assert(recs.take(i + 1).drop_last() =~= recs.take(i));
    lemma_total_len_nonneg(recs.take(i));
    if i + 1 < recs.len() {
        assert(recs.drop_last().take(i + 1) =~= recs.take(i + 1));
        assert(recs.drop_last().take(i) =~= recs.take(i));
        lemma_total_len_prefix(recs.drop_last(), i);
        lemma_total_len_nonneg(recs.drop_last());
    } else {
        assert(recs.take(i + 1) =~= recs);
    }
}

/// A total length is never negative.
pub proof fn lemma_total_len_nonneg(recs: Seq<Seq<u8>>)
    ensures
        total_len(recs) >= 0,
    decreases recs.len(),
{
    if recs.len() > 0 {
        lemma_total_len_nonneg(recs.drop_last());
    }
}

/// The four little-endian bytes of `v` read back as `v`.
proof fn lemma_le_bytes(v: u32)
    ensures
        (v % 256) as int + 256 * ((v / 256) % 256) as int + 65536 * ((v / 65536) % 256) as int
            + 16777216 * (v / 16777216) as int == v,
        v / 16777216 < 256,
{
    assert((v % 256) as int + 256 * ((v / 256) % 256) as int + 65536 * ((v / 65536) % 256) as int
        + 16777216 * (v / 16777216) as int == v) by (nonlinear_arith);
    assert(v / 16777216 < 256) by (nonlinear_arith);
}

/// Appends the little-endian bytes of `v`.
fn push_u32(out: &mut Vec<u8>, v: u32)
    ensures
        final(out)@.len() == old(out)@.len() + 4,
        forall|t: int| 0 <= t < old(out)@.len() ==> #[trigger] final(out)@[t] == old(out)@[t],
        le_u32(final(out)@, old(out)@.len() as int) == v,
{
    proof {
        lemma_le_bytes(v);
    }
    out.push((v % 256) as u8);
    out.push(((v / 256) % 256) as u8);
    out.push(((v / 65536) % 256) as u8);
    out.push((v / 16777216) as u8);
}

/// Builds a container holding `recs`, in order.
///
/// Returns `None` when the container would be too large for its `u32`
/// offsets.
pub fn encode(recs: &Vec<Vec<u8>>) -> (r: Option<Vec<u8>>)
    ensures
        match r {
            Some(b) => encodable(contents(recs@)) && encodes(contents(recs@), b@),
            None => !encodable(contents(recs@)),
        },
{
    let ghost rs = contents(recs@);
    let n = recs.len();
    if n > 0x1fff_ffff {
        proof {
            lemma_total_len_nonneg(rs);
        }
        return None;
    }
    let mut total: u64 = 4 + 8 * (n as u64);
    let mut i: usize = 0;
    while i < n
        invariant
            n == recs@.len(),
            rs == contents(recs@),
            i <= n,
            total == 4 + 8 * n + total_len(rs.take(i as int)),
            total <= u32::MAX,
        decreases n - i,
    {
        proof {
            lemma_total_len_prefix(rs, i as int);
        }
        let len = recs[i].len() as u64;
        if len > 0xffff_ffff - total {
            return None;
        }
        total = total + len;
        i = i + 1;
    }
    assert(rs.take(n as int) =~= rs);
    let mut out: Vec<u8> = Vec::new();
    push_u32(&mut out, n as u32);
    let mut offset: u32 = (4 + 8 * n) as u32;
    let mut i: usize = 0;
    while i < n
        invariant
            n == recs@.len(),
            rs == contents(recs@),
            encodable(rs),
            i <= n,
            out@.len() == 4 + 8 * i,
            record_count(out@) == n,
            offset == data_offset(rs, i as int),
            table_matches(out@, rs, i as int),
        decreases n - i,
    {
        proof {
            lemma_total_len_prefix(rs, i as int);
        }
        let len = recs[i].len() as u32;
        let ghost before = out@;
        push_u32(&mut out, offset);
        let ghost middle = out@;
        push_u32(&mut out, len);
        proof {
            lemma_prefix_keeps_table(before, out@, rs, i as int);
            assert(entry_offset(out@, i as int) == entry_offset(middle, i as int));
            assert(rs[i as int] == recs@[i as int]@);
            assert(out@[0] == before[0] && out@[1] == before[1] && out@[2] == before[2]
                && out@[3] == before[3]);
        }
        offset = offset + len;
        i = i + 1;
    }
    let ghost table = out@;
    let mut i: usize = 0;
    while i < n
        invariant
            n == recs@.len(),
            rs == contents(recs@),
            encodable(rs),
            i <= n,
            out@.len() == data_offset(rs, i as int),
            table.len() == 4 + 8 * n,
            out@.subrange(0, 4 + 8 * n) == table,
            forall|j: int, k: int|
                0 <= j < i && 0 <= k < rs[j].len() ==> out@[data_offset(rs, j) + k]
                    == #[trigger] rs[j][k],
        decreases n - i,
    {
        proof {
            lemma_total_len_prefix(rs, i as int);
        }
        let ghost before = out@;
        out.extend_from_slice(recs[i].as_slice());
        assert forall|j: int, k: int|
            0 <= j < i + 1 && 0 <= k < rs[j].len() implies out@[data_offset(rs, j) + k]
                == #[trigger] rs[j][k] by {
            if j < i {
                lemma_total_len_prefix(rs, j);
                assert(data_offset(rs, j + 1) <= data_offset(rs, i as int)) by {
                    lemma_data_offset_monotone(rs, j + 1, i as int);
                }
                assert(out@[data_offset(rs, j) + k] == before[data_offset(rs, j) + k]);
            }
        }
        assert(out@.subrange(0, 4 + 8 * n) =~= table) by {
            assert forall|t: int| 0 <= t < 4 + 8 * n implies out@[t] == table[t] by {
                assert(before.subrange(0, 4 + 8 * n)[t] == table[t]);
            }
        }
        i = i + 1;
    }
    proof {
        assert(rs.take(n as int) =~= rs);
        lemma_total_len_nonneg(rs);
        assert forall|t: int| 0 <= t < 4 + 8 * n implies out@[t] == table[t] by {
            assert(out@.subrange(0, 4 + 8 * n)[t] == table[t]);
        }
        lemma_prefix_keeps_table(table, out@, rs, n as int);
        assert(out@[0] == table[0] && out@[1] == table[1] && out@[2] == table[2] && out@[3]
            == table[3]);
    }
    Some(out)
}

/// The first `upto` table entries of `b` address the records of `recs`
/// as their encoding lays them out.
pub open spec fn table_matches(b: Seq<u8>, recs: Seq<Seq<u8>>, upto: int) -> bool {
    forall|j: int|
        0 <= j < upto ==> #[trigger] entry_offset(b, j) == data_offset(recs, j) && entry_length(b, j)
            == recs[j].len()
}

/// Table entries survive when bytes are appended after them.
proof fn lemma_prefix_keeps_table(before: Seq<u8>, after: Seq<u8>, recs: Seq<Seq<u8>>, upto: int)
    requires
        0 <= upto,
        4 + 8 * upto <= before.len() <= after.len(),
        forall|t: int| 0 <= t < before.len() ==> #[trigger] after[t] == before[t],
        table_matches(before, recs, upto),
    ensures
        table_matches(after, recs, upto),
{
    assert forall|j: int| 0 <= j < upto implies #[trigger] entry_offset(after, j) == data_offset(
        recs,
        j,
    ) && entry_length(after, j) == recs[j].len() by {
        assert(entry_offset(before, j) == data_offset(recs, j));
        assert(after[4 + 8 * j] == before[4 + 8 * j]);
        assert(after[5 + 8 * j] == before[5 + 8 * j]);
        assert(after[6 + 8 * j] == before[6 + 8 * j]);
        assert(after[7 + 8 * j] == before[7 + 8 * j]);
        assert(after[8 + 8 * j] == before[8 + 8 * j]);
        assert(after[9 + 8 * j] == before[9 + 8 * j]);
        assert(after[10 + 8 * j] == before[10 + 8 * j]);
        assert(after[11 + 8 * j] == before[11 + 8 * j]);
    }
}

/// Data offsets grow with the record index.
pub proof fn lemma_data_offset_monotone(recs: Seq<Seq<u8>>, i: int, j: int)
    requires
        0 <= i <= j <= recs.len(),
    ensures
        data_offset(recs, i) <= data_offset(recs, j),
    decreases j - i,
{
    if i < j {
        lemma_total_len_prefix(recs, j - 1);
        lemma_data_offset_monotone(recs, i, j - 1);
    }
}

/// Parsing an encoding gives back the records that were encoded: as many as
/// there were, each byte for byte, in their original order.
pub proof fn lemma_round_trip(recs: Seq<Seq<u8>>, b: Seq<u8>)
    requires
        encodes(recs, b),
    ensures
        is_container(b),
        records(b) == recs,
{
    lemma_total_len_nonneg(recs);
    assert forall|i: int| 0 <= i < record_count(b) implies #[trigger] entry_ok(b, i) by {
        lemma_total_len_prefix(recs, i);
        lemma_data_offset_monotone(recs, i + 1, recs.len() as int);
        assert(recs.take(recs.len() as int) =~= recs);
        if i == 0 {
            assert(recs.take(0) =~= Seq::<Seq<u8>>::empty());
        } else {
            lemma_total_len_prefix(recs, i - 1);
            assert(entry_offset(b, i - 1) == data_offset(recs, i - 1));
        }
    }
    assert forall|i: int| 0 <= i < recs.len() implies #[trigger] record(b, i) == recs[i] by {
        assert(entry_ok(b, i));
        assert(record(b, i) =~= recs[i]);
    }
    assert(records(b) =~= recs);
}

} // verus!
