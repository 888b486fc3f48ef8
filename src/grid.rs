//! The hierarchical grid: its decoding from six records, and the
//! resolution of a pixel coordinate to the attribute value stored for it.
//!
//! A grid covers `width × height` macro-cells of 128×128 pixels. Each
//! macro-cell names a shape in the macro table; from there the descent
//! walks three index levels and a leaf index, each step refining a base
//! offset by one bit of `y` and one bit of `x` (bits 6, 5, 4 and 3), and ends
//! in an 8×8 block addressed by the low three bits of each coordinate.

use vstd::prelude::*;
use crate::container::contents;

verus! {

/// Size of a macro-cell's side, in pixels.
pub const MACRO_CELL: u32 = 128;

/// Size of one block's record data, in bytes.
pub const BLOCK_BYTES: usize = 64;

/// Number of records that describe one grid.
pub const GRID_RECORDS: usize = 6;

/// Why grid data could not be decoded or resolved.
#[derive(Clone, Copy, Debug, PartialEq, Eq, Structural)]
pub enum GridError {
    /// The records do not have the shape a grid needs.
    FormatError,
    /// A coordinate, or an index computed from it, lies outside the array
    /// it addresses.
    IndexOutOfRange,
}

/// The two encodings of the index levels. They differ only in the unit by
/// which each coordinate bit moves a key.
#[derive(Clone, Copy, Debug, PartialEq, Eq, Structural)]
pub enum IndexVariant {
    /// Compact nodes: a set bit moves the key by one entry.
    Segment,
    /// Explicit nodes of stride two: a set bit moves the key by two entries.
    Header,
}

impl IndexVariant {
    /// The step by which a set coordinate bit moves a key.
    pub open spec fn unit(self) -> int {
        match self {
            IndexVariant::Segment => 1,
            IndexVariant::Header => 2,
        }
    }

    /// The step by which a set coordinate bit moves a key.
    pub fn branch_unit(self) -> (r: usize)
        ensures
            r == self.unit(),
    {
        match self {
            IndexVariant::Segment => 1,
            IndexVariant::Header => 2,
        }
    }
}

/// Size of the grid and the shape of each macro-cell.
pub struct GridInfo {
    /// Number of macro-cells across.
    pub width: u8,
    /// Number of macro-cells down.
    pub height: u8,
    /// The macro table: one shape id per macro-cell, row by row; the bytes
    /// that the info record holds beyond `width * height` are kept too.
    pub c: Vec<u8>,
}

/// Byte offsets of the six records of one grid within the buffer they were
/// read from.
pub struct GridOffsets {
    pub info_offset: u32,
    pub header1: u32,
    pub header2: u32,
    pub header3: u32,
    pub indices: u32,
    pub blocks_offset: u32,
}

/// A decoded grid. It is never changed after it is built.
pub struct Grid {
    pub info: GridInfo,
    /// The first index level.
    pub segment1: Vec<u8>,
    /// The second index level.
    pub segment2: Vec<u16>,
    /// The third index level.
    pub segment3: Vec<u16>,
    /// The leaf index: block ids.
    pub indices: Vec<u16>,
    /// The blocks, each eight rows of eight values.
    pub blocks: Vec<[[u8; 8]; 8]>,
    /// How the index levels are encoded.
    pub variant: IndexVariant,
}

/// Whether bit `d` (a power of two) of the coordinate `v` is set.
pub open spec fn has_bit(v: int, d: int) -> bool {
    (v / d) % 2 == 1
}

/// One descent step: the base offset `base` is doubled and moved by `unit`
/// when the `y` bit is set, then doubled again and moved by `unit` when the
/// `x` bit is set.
pub open spec fn fold_key(base: int, ybit: bool, xbit: bool, unit: int) -> int {
    let k = base * 2 + if ybit { unit } else { 0 };
    k * 2 + if xbit { unit } else { 0 }
}

/// The value a grid holds for pixel `(x, y)`, or `None` when the pixel lies
/// outside the grid or an index along the descent lies outside its array.
pub open spec fn resolve(g: &Grid, x: int, y: int) -> Option<u8> {
    let unit = g.variant.unit();
    let macros = g.info.c@;
    let s1 = g.segment1@;
    let s2 = g.segment2@;
    let s3 = g.segment3@;
    let leaves = g.indices@;
    let blocks = g.blocks@;
    if !(0 <= x < g.info.width * 128 && 0 <= y < g.info.height * 128) {
        None
    } else {
        let macro_key = (y / 128) * g.info.width + x / 128;
        if macro_key >= macros.len() {
            None
        } else {
            let k1 = fold_key(macros[macro_key] as int, has_bit(y, 64), has_bit(x, 64), unit);
            if k1 >= s1.len() {
                None
            } else {
                let k2 = fold_key(s1[k1] as int, has_bit(y, 32), has_bit(x, 32), unit);
                if k2 >= s2.len() {
                    None
                } else {
                    let k3 = fold_key(s2[k2] as int, has_bit(y, 16), has_bit(x, 16), unit);
                    if k3 >= s3.len() {
                        None
                    } else {
                        let leaf = fold_key(s3[k3] as int, has_bit(y, 8), has_bit(x, 8), unit);
                        if leaf >= leaves.len() {
                            None
                        } else {
                            let id = leaves[leaf] as int;
                            if id >= blocks.len() {
                                None
                            } else {
                                Some(blocks[id]@[y % 8]@[x % 8])
                            }
                        }
                    }
                }
            }
        }
    }
}

/// The bit operations of the descent, in arithmetic terms.
proof fn lemma_coordinate_bits(v: u32)
    ensures
        v >> 7u32 == v / 128,
        v & 7 == v % 8,
        ((v & 64) != 0) == ((v / 64) % 2 == 1),
        ((v & 32) != 0) == ((v / 32) % 2 == 1),
        ((v & 16) != 0) == ((v / 16) % 2 == 1),
        ((v & 8) != 0) == ((v / 8) % 2 == 1),
{
    assert(v >> 7u32 == v / 128) by (bit_vector);
    assert(v & 7 == v % 8) by (bit_vector);
    assert(((v & 64) != 0) == ((v / 64) % 2 == 1)) by (bit_vector);
    assert(((v & 32) != 0) == ((v / 32) % 2 == 1)) by (bit_vector);
    assert(((v & 16) != 0) == ((v / 16) % 2 == 1)) by (bit_vector);
    assert(((v & 8) != 0) == ((v / 8) % 2 == 1)) by (bit_vector);
}

/// One descent step, as `fold_key` states it.
fn fold(base: usize, ybit: bool, xbit: bool, unit: usize) -> (r: usize)
    requires
        base <= 0xffff,
        1 <= unit <= 2,
    ensures
        r == fold_key(base as int, ybit, xbit, unit as int),
{
    let mut k = base * 2;
    if ybit {
        k = k + unit;
    }
    if xbit {
        k * 2 + unit
    } else {
        k * 2
    }
}

/// The attribute value stored for pixel `(x, y)`.
///
/// Fails with `IndexOutOfRange` when the pixel lies outside the grid, or
/// when any index computed along the descent lies outside its array.
pub fn get_grid_value(grid_s: &Grid, x: u32, y: u32) -> (r: Result<u8, GridError>)
    ensures
        r == match resolve(grid_s, x as int, y as int) {
            Some(v) => Ok::<u8, GridError>(v),
            None => Err(GridError::IndexOutOfRange),
        },
{
    proof {
        lemma_coordinate_bits(x);
        lemma_coordinate_bits(y);
    }
    let width = grid_s.info.width as u32;
    let height = grid_s.info.height as u32;
    if x >= width * MACRO_CELL || y >= height * MACRO_CELL {
        return Err(GridError::IndexOutOfRange);
    }
    let unit = grid_s.variant.branch_unit();
    let row = y >> 7;
    let col = x >> 7;
    assert(row * width <= 255 * 255) by (nonlinear_arith)
        requires
            row < height <= 255,
            width <= 255,
    ;
    let macro_key = (row * width + col) as usize;
    if macro_key >= grid_s.info.c.len() {
        return Err(GridError::IndexOutOfRange);
    }
    let k1 = fold(grid_s.info.c[macro_key] as usize, (y & 64) != 0, (x & 64) != 0, unit);
    if k1 >= grid_s.segment1.len() {
        return Err(GridError::IndexOutOfRange);
    }
    let k2 = fold(grid_s.segment1[k1] as usize, (y & 32) != 0, (x & 32) != 0, unit);
    if k2 >= grid_s.segment2.len() {
        return Err(GridError::IndexOutOfRange);
    }
    let k3 = fold(grid_s.segment2[k2] as usize, (y & 16) != 0, (x & 16) != 0, unit);
    if k3 >= grid_s.segment3.len() {
        return Err(GridError::IndexOutOfRange);
    }
    let leaf = fold(grid_s.segment3[k3] as usize, (y & 8) != 0, (x & 8) != 0, unit);
    if leaf >= grid_s.indices.len() {
        return Err(GridError::IndexOutOfRange);
    }
    let id = grid_s.indices[leaf] as usize;
    if id >= grid_s.blocks.len() {
        return Err(GridError::IndexOutOfRange);
    }
    let block = &grid_s.blocks[id];
    Ok(block[(y & 7) as usize][(x & 7) as usize])
}

/// The little-endian 16-bit values of `b`, two bytes each; a trailing odd
/// byte is dropped.
pub open spec fn le_u16s(b: Seq<u8>) -> Seq<u16> {
    Seq::new(b.len() / 2, |i: int| (b[2 * i] + 256 * b[2 * i + 1]) as u16)
}

/// Reads `data` as consecutive little-endian 16-bit values.
pub fn to_u16s(data: &Vec<u8>) -> (r: Vec<u16>)
    ensures
        r@ == le_u16s(data@),
{
    let len = data.len();
    let n = len / 2;
    let mut out: Vec<u16> = Vec::new();
    let mut i: usize = 0;
    while i < n
        invariant
            len == data@.len(),
            n == data@.len() / 2,
            i <= n,
            out@ == le_u16s(data@).take(i as int),
        decreases n - i,
    {
        assert(2 * i + 1 < data@.len()) by (nonlinear_arith)
            requires
                i < n,
                n == data@.len() / 2,
        ;
        let v = data[2 * i] as u16 + 256 * (data[2 * i + 1] as u16);
        out.push(v);
        i = i + 1;
        assert(out@ =~= le_u16s(data@).take(i as int));
    }
    assert(out@ =~= le_u16s(data@));
    out
}

/// Byte `c` of row `r` of block `k` in block data `b`: blocks are stored one
/// after another, 64 bytes each, row by row.
pub open spec fn block_byte(b: Seq<u8>, k: int, r: int, c: int) -> u8 {
    b[64 * k + 8 * r + c]
}

/// Eight bytes of `data` from `start` on.
fn row_at(data: &[u8], start: usize) -> (r: [u8; 8])
    requires
        start + 8 <= data@.len(),
    ensures
        forall|c: int| 0 <= c < 8 ==> #[trigger] r@[c] == data@[start + c],
{
    [
        data[start],
        data[start + 1],
        data[start + 2],
        data[start + 3],
        data[start + 4],
        data[start + 5],
        data[start + 6],
        data[start + 7],
    ]
}

/// The block whose 64 bytes start at `start`, row by row.
fn block_at(data: &[u8], start: usize) -> (r: [[u8; 8]; 8])
    requires
        start + 64 <= data@.len(),
    ensures
        forall|row: int, c: int|
            0 <= row < 8 && 0 <= c < 8 ==> #[trigger] r@[row]@[c] == data@[start + 8 * row + c],
{
    let len = data.len();
    assert(start + 64 <= len);
    [
        row_at(data, start),
        row_at(data, start + 8),
        row_at(data, start + 16),
        row_at(data, start + 24),
        row_at(data, start + 32),
        row_at(data, start + 40),
        row_at(data, start + 48),
        row_at(data, start + 56),
    ]
}

/// Cuts block data into consecutive 64-byte blocks.
fn to_blocks(data: &Vec<u8>) -> (r: Vec<[[u8; 8]; 8]>)
    ensures
        r@.len() == data@.len() / 64,
        forall|k: int, row: int, c: int|
            0 <= k < r@.len() && 0 <= row < 8 && 0 <= c < 8 ==> #[trigger] r@[k]@[row]@[c]
                == block_byte(data@, k, row, c),
{
    let len = data.len();
    let n = len / BLOCK_BYTES;
    let mut out: Vec<[[u8; 8]; 8]> = Vec::new();
    let mut k: usize = 0;
    while k < n
        invariant
            len == data@.len(),
            n == data@.len() / 64,
            k <= n,
            out@.len() == k,
            forall|j: int, row: int, c: int|
                0 <= j < k && 0 <= row < 8 && 0 <= c < 8 ==> #[trigger] out@[j]@[row]@[c]
                    == block_byte(data@, j, row, c),
        decreases n - k,
    {
        assert(k * 64 + 64 <= data@.len()) by (nonlinear_arith)
            requires
                k < n,
                n == data@.len() / 64,
        ;
        let block = block_at(data.as_slice(), k * BLOCK_BYTES);
        out.push(block);
        k = k + 1;
    }
    out
}

/// Six records that a grid can be decoded from: the info record holds the
/// two size bytes and a full macro table, and the block record is a whole
/// number of blocks.
pub open spec fn decodable(recs: Seq<Seq<u8>>) -> bool {
    &&& recs.len() == 6
    &&& recs[0].len() >= 2
    &&& recs[0].len() >= 2 + recs[0][0] * recs[0][1]
    &&& recs[5].len() % 64 == 0
}

/// `g` is the grid that `recs` describe, with its index levels read in the
/// encoding `variant`.
pub open spec fn is_decoding(recs: Seq<Seq<u8>>, variant: IndexVariant, g: &Grid) -> bool {
    let w = recs[0][0];
    let h = recs[0][1];
    &&& g.info.width == w
    &&& g.info.height == h
    &&& g.info.c@ == recs[0].subrange(2, recs[0].len() as int)
    &&& g.segment1@ == recs[1]
    &&& g.segment2@ == le_u16s(recs[2])
    &&& g.segment3@ == le_u16s(recs[3])
    &&& g.indices@ == le_u16s(recs[4])
    &&& g.blocks@.len() == recs[5].len() / 64
    &&& forall|k: int, row: int, c: int|
        0 <= k < g.blocks@.len() && 0 <= row < 8 && 0 <= c < 8 ==> #[trigger] g.blocks@[k]@[row]@[c]
            == block_byte(recs[5], k, row, c)
    &&& g.variant == variant
}

/// Builds a grid from the six records of one asset: the info record (width,
/// height, macro table), the three index levels, the leaf index and the
/// block data.
///
/// Fails with `FormatError` unless there are exactly six records, the info
/// record holds its macro table, and the block data is a whole number of
/// 64-byte blocks.
pub fn decode_grid(records: &Vec<Vec<u8>>, variant: IndexVariant) -> (r: Result<Grid, GridError>)
    ensures
        match r {
            Ok(g) => decodable(contents(records@)) && is_decoding(contents(records@), variant, &g),
            Err(e) => !decodable(contents(records@)) && e == GridError::FormatError,
        },
        records@.len() != 6 ==> r == Err::<Grid, GridError>(GridError::FormatError),
        records@.len() == 6 && records@[5]@.len() % 64 != 0 ==> r == Err::<Grid, GridError>(
            GridError::FormatError,
        ),
{
    let ghost recs = contents(records@);
    if records.len() != GRID_RECORDS {
        return Err(GridError::FormatError);
    }
    assert(recs[0] == records@[0]@ && recs[5] == records@[5]@);
    let info = &records[0];
    if info.len() < 2 {
        return Err(GridError::FormatError);
    }
    let width = info[0];
    let height = info[1];
    assert(width as usize * height as usize <= 255 * 255) by (nonlinear_arith)
        requires
            width <= 255,
            height <= 255,
    ;
    let cells = width as usize * height as usize;
    if info.len() - 2 < cells {
        return Err(GridError::FormatError);
    }
    if records[5].len() % BLOCK_BYTES != 0 {
        return Err(GridError::FormatError);
    }
    let c = vstd::slice::slice_to_vec(&info.as_slice()[2..info.len()]);
    let segment1 = records[1].clone();
    assert(segment1@ =~= records@[1]@);
    let g = Grid {
        info: GridInfo { width, height, c },
        segment1,
        segment2: to_u16s(&records[2]),
        segment3: to_u16s(&records[3]),
        indices: to_u16s(&records[4]),
        blocks: to_blocks(&records[5]),
        variant,
    };
    Ok(g)
}

/// Every key that a descent step can form from an entry of `from` indexes
/// `to`: an entry `v` leads to keys up to `4 * v + 3 * unit`.
pub open spec fn level_leads_into(from: Seq<int>, to_len: int, unit: int) -> bool {
    forall|i: int| 0 <= i < from.len() ==> 4 * #[trigger] from[i] + 3 * unit < to_len
}

/// The entries of a `u8` array, as integers.
pub open spec fn entries_u8(s: Seq<u8>) -> Seq<int> {
    Seq::new(s.len(), |i: int| s[i] as int)
}

/// The entries of a `u16` array, as integers.
pub open spec fn entries_u16(s: Seq<u16>) -> Seq<int> {
    Seq::new(s.len(), |i: int| s[i] as int)
}

/// A grid whose macro table covers every macro-cell, whose every index
/// entry leads to keys inside the next level, and whose every block id
/// names a block.
pub open spec fn well_indexed(g: &Grid) -> bool {
    let unit = g.variant.unit();
    &&& g.info.c@.len() >= g.info.width * g.info.height
    &&& level_leads_into(entries_u8(g.info.c@), g.segment1@.len() as int, unit)
    &&& level_leads_into(entries_u8(g.segment1@), g.segment2@.len() as int, unit)
    &&& level_leads_into(entries_u16(g.segment2@), g.segment3@.len() as int, unit)
    &&& level_leads_into(entries_u16(g.segment3@), g.indices@.len() as int, unit)
    &&& forall|i: int| 0 <= i < g.indices@.len() ==> (#[trigger] g.indices@[i]) < g.blocks@.len()
}

/// The block id that the descent for pixel `(x, y)` ends in.
pub open spec fn block_id_at(g: &Grid, x: int, y: int) -> int {
    let unit = g.variant.unit();
    let macro_key = (y / 128) * g.info.width + x / 128;
    let k1 = fold_key(g.info.c@[macro_key] as int, has_bit(y, 64), has_bit(x, 64), unit);
    let k2 = fold_key(g.segment1@[k1] as int, has_bit(y, 32), has_bit(x, 32), unit);
    let k3 = fold_key(g.segment2@[k2] as int, has_bit(y, 16), has_bit(x, 16), unit);
    let leaf = fold_key(g.segment3@[k3] as int, has_bit(y, 8), has_bit(x, 8), unit);
    g.indices@[leaf] as int
}

/// On a well-indexed grid every pixel of the grid resolves, to the value of
/// the block the descent ends in at the pixel's low three coordinate bits.
pub proof fn lemma_well_indexed_resolves(g: &Grid, x: int, y: int)
    requires
        well_indexed(g),
        0 <= x < g.info.width * 128,
        0 <= y < g.info.height * 128,
    ensures
        0 <= block_id_at(g, x, y) < g.blocks@.len(),
        resolve(g, x, y) == Some(g.blocks@[block_id_at(g, x, y)]@[y % 8]@[x % 8]),
{
    let unit = g.variant.unit();
    let w = g.info.width as int;
    let h = g.info.height as int;
    assert((y / 128) * w + x / 128 < w * h) by (nonlinear_arith)
        requires
            0 <= x < w * 128,
            0 <= y < h * 128,
            w >= 1,
    ;
    assert(0 <= (y / 128) * w + x / 128) by (nonlinear_arith)
        requires
            0 <= x,
            0 <= y,
            w >= 1,
    ;
    let macro_key = (y / 128) * w + x / 128;
    assert(entries_u8(g.info.c@)[macro_key] == g.info.c@[macro_key] as int);
    let k1 = fold_key(g.info.c@[macro_key] as int, has_bit(y, 64), has_bit(x, 64), unit);
    assert(entries_u8(g.segment1@)[k1] == g.segment1@[k1] as int);
    let k2 = fold_key(g.segment1@[k1] as int, has_bit(y, 32), has_bit(x, 32), unit);
    assert(entries_u16(g.segment2@)[k2] == g.segment2@[k2] as int);
    let k3 = fold_key(g.segment2@[k2] as int, has_bit(y, 16), has_bit(x, 16), unit);
    assert(entries_u16(g.segment3@)[k3] == g.segment3@[k3] as int);
    let leaf = fold_key(g.segment3@[k3] as int, has_bit(y, 8), has_bit(x, 8), unit);
    assert(g.indices@[leaf] < g.blocks@.len());
}

/// On a well-indexed grid with a single block, each pixel of the grid reads
/// that block at its low three coordinate bits, whatever the grid's width
/// and height.
pub proof fn lemma_single_block(g: &Grid, x: int, y: int)
    requires
        well_indexed(g),
        g.blocks@.len() == 1,
        0 <= x < g.info.width * 128,
        0 <= y < g.info.height * 128,
    ensures
        resolve(g, x, y) == Some(g.blocks@[0]@[y % 8]@[x % 8]),
{
    lemma_well_indexed_resolves(g, x, y);
}

/// The last pixel of a well-indexed grid, in its last row and last column,
/// resolves.
pub proof fn lemma_last_pixel_resolves(g: &Grid)
    requires
        well_indexed(g),
        g.info.width >= 1,
        g.info.height >= 1,
    ensures
        resolve(g, g.info.width * 128 - 1, g.info.height * 128 - 1) is Some,
{
    lemma_well_indexed_resolves(g, g.info.width * 128 - 1, g.info.height * 128 - 1);
}

/// A pixel one past the grid's last column or last row does not resolve,
/// on any grid.
pub proof fn lemma_past_edge_fails(g: &Grid, x: int, y: int)
    requires
        x == g.info.width * 128 || y == g.info.height * 128,
    ensures
        resolve(g, x, y) is None,
{
}

} // verus!
