//! Rendered tile payloads.
use vstd::prelude::*;
use crate::lod::TILE_COLS;

verus! {

/// Bytes per RGBA pixel.
pub const BYTES_PER_PIXEL: usize = 4;

/// Bytes in one pixel row of a full-width tile.
pub const TILE_ROW_BYTES: usize = 1024;

/// A rendered image: `width × height` RGBA pixels, row-major.
pub struct PreRendered {
    pub width: u32,
    pub height: u32,
    pub pixels: Vec<u8>,
}

impl PreRendered {
    /// Number of bytes of pixel storage the image holds.
    pub open spec fn spec_byte_len(&self) -> nat {
        self.pixels@.len()
    }

    /// Number of bytes of pixel storage the image holds.
    pub fn byte_len(&self) -> (r: usize)
        ensures
            r == self.spec_byte_len(),
    {
        self.pixels.len()
    }
}

/// Byte `k` of a full-width tile made from `pixels`, an image `width`
/// pixels wide: the source byte at the same row and offset where the row
/// offset lies within the source width and the whole source row exists,
/// else zero (transparent black).
pub open spec fn padded_byte(pixels: Seq<u8>, width: int, k: int) -> u8 {
    let row = k / (TILE_ROW_BYTES as int);
    let off = k % (TILE_ROW_BYTES as int);
    let src_row = width * (BYTES_PER_PIXEL as int);
    if off < src_row && (row + 1) * src_row <= pixels.len() {
        pixels[row * src_row + off]
    } else {
        0
    }
}

proof fn lemma_row_index(row: int, off: int)
    requires
        0 <= row,
        0 <= off < TILE_ROW_BYTES as int,
    ensures
        (row * (TILE_ROW_BYTES as int) + off) / (TILE_ROW_BYTES as int) == row,
        (row * (TILE_ROW_BYTES as int) + off) % (TILE_ROW_BYTES as int) == off,
{
    vstd::arithmetic::div_mod::lemma_fundamental_div_mod_converse(
        row * (TILE_ROW_BYTES as int) + off,
        TILE_ROW_BYTES as int,
        row,
        off,
    );
}

/// Widens a partial tile (fewer than `TILE_COLS` columns, as while a file
/// is still being recorded) to the full tile width, leaving the new columns
/// zero. Empty images and images already full width are returned as they are.
pub fn pad_to_tile_width(partial: PreRendered) -> (r: PreRendered)
    requires
        partial.height as int * (TILE_ROW_BYTES as int) <= usize::MAX,
    ensures
        partial.width == 0 || partial.height == 0 || partial.width as int >= TILE_COLS as int ==> r
            == partial,
        !(partial.width == 0 || partial.height == 0 || partial.width as int >= TILE_COLS as int)
            ==> {
            &&& r.width as int == TILE_COLS as int
            &&& r.height == partial.height
            &&& r.pixels@.len() == partial.height as int * (TILE_ROW_BYTES as int)
            &&& forall|k: int|
                0 <= k < r.pixels@.len() ==> #[trigger] r.pixels@[k] == padded_byte(
                    partial.pixels@,
                    partial.width as int,
                    k,
                )
        },
{
    if partial.width == 0 || partial.height == 0 || partial.width as usize >= TILE_COLS {
        return partial;
    }
    let height = partial.height as usize;
    let src_row = partial.width as usize * BYTES_PER_PIXEL;
    let total = height * TILE_ROW_BYTES;
    let ghost src = partial.pixels@;
    let ghost w = partial.width as int;
    let plen = partial.pixels.len();
    let mut full: Vec<u8> = vec![0u8; total];
    let mut y: usize = 0;
    while y < height
        invariant
            y <= height,
            height == partial.height,
            total == height * TILE_ROW_BYTES,
            src == partial.pixels@,
            plen == src.len(),
            src_row == w * 4,
            0 < w < 256,
            full@.len() == total,
            forall|k: int| 0 <= k < y * TILE_ROW_BYTES ==> #[trigger] full@[k] == padded_byte(src, w, k),
            forall|k: int| y * TILE_ROW_BYTES <= k < total ==> #[trigger] full@[k] == 0u8,
        decreases height - y,
    {
        assert((y + 1) * TILE_ROW_BYTES <= total) by (nonlinear_arith)
            requires
                y < height,
                total == height * TILE_ROW_BYTES,
        ;
        let row_start = y * TILE_ROW_BYTES;
        assert(y * src_row <= y * TILE_ROW_BYTES) by (nonlinear_arith)
            requires
                src_row < TILE_ROW_BYTES,
        ;
        let src_start = y * src_row;
        let fits = src_row <= plen && src_start <= plen - src_row;
        proof {
            assert((y + 1) * src_row == y * src_row + src_row) by (nonlinear_arith);
            assert(fits == ((y + 1) * src_row <= src.len()));
        }
        let mut i: usize = 0;
        while i < src_row && fits
            invariant
                y < height,
                i <= src_row,
                src_row == w * 4,
                0 < w < 256,
                row_start == y * TILE_ROW_BYTES,
                (y + 1) * TILE_ROW_BYTES <= total,
                src_start == y * src_row,
                fits ==> src_start + src_row <= src.len(),
                !fits ==> i == 0,
                plen == src.len(),
                src == partial.pixels@,
                full@.len() == total,
                forall|k: int| 0 <= k < row_start ==> #[trigger] full@[k] == padded_byte(src, w, k),
                forall|k: int| row_start + i <= k < total ==> #[trigger] full@[k] == 0u8,
                forall|k: int|
                    row_start <= k < row_start + i ==> #[trigger] full@[k] == src[src_start + (k
                        - row_start)],
            decreases src_row - i,
        {
            full[row_start + i] = partial.pixels[src_start + i];
            i = i + 1;
        }
        proof {
            assert forall|k: int| 0 <= k < (y + 1) * TILE_ROW_BYTES implies #[trigger] full@[k]
                == padded_byte(src, w, k) by {
                if k >= row_start {
                    let off = k - row_start;
                    lemma_row_index(y as int, off);
                    assert(k == y * (TILE_ROW_BYTES as int) + off);
                    assert(fits == ((y + 1) * src_row <= src.len()));
                    if fits && off < src_row {
                        assert(full@[k] == src[src_start + off]);
                    } else {
                        assert(full@[k] == 0u8);
                    }
                }
            }
        }
        y = y + 1;
    }
    PreRendered { width: TILE_COLS as u32, height: partial.height, pixels: full }
}

} // verus!
