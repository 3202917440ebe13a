use vstd::prelude::*;
use vstd::arithmetic::div_mod::lemma_fundamental_div_mod_converse;

verus! {

/// The `edge`-sized square RGBA8 block cut out of `src` at pixel offset
/// (`x`, `y`), row-major, where one row of `src` is `width` pixels.
/// Byte `i` of the block lies in block row `i / (4 * edge)` at in-row byte
/// `i % (4 * edge)`.
pub open spec fn extract_block(src: Seq<u8>, width: u32, x: u32, y: u32, edge: u32) -> Seq<u8> {
    Seq::new(
        (edge * edge * 4) as nat,
        |i: int|
            src[4 * ((y + i / (4 * (edge as int))) * width + x) + (i % (4 * (edge as int)))],
    )
}

/// Copies one row of `copy_width` RGBA8 pixels from position
/// (`src_x`, `src_y`) of `src` to position (`dst_x`, `dst_y`) of `dst`,
/// where a row of `src` is `src_width` pixels and a row of `dst` is
/// `dst_width` pixels. The copied region must lie fully inside both
/// buffers; every other byte of `dst` is untouched.
pub fn rgba8_image_copy_row(
    copy_width: u32,
    src: &Vec<u8>,
    src_width: u32,
    src_x: u32,
    src_y: u32,
    dst: &mut Vec<u8>,
    dst_width: u32,
    dst_x: u32,
    dst_y: u32,
)
    requires
        src_x + copy_width <= src_width,
        dst_x + copy_width <= dst_width,
        4 * (src_y * src_width + src_x + copy_width) <= src@.len(),
        4 * (dst_y * dst_width + dst_x + copy_width) <= old(dst)@.len(),
    ensures
        final(dst)@.len() == old(dst)@.len(),
        forall|j: int|
            4 * (dst_y * dst_width + dst_x) <= j < 4 * (dst_y * dst_width + dst_x) + 4
                * copy_width ==> final(dst)@[j] == src@[4 * (src_y * src_width + src_x) + (j - 4
                * (dst_y * dst_width + dst_x))],
        forall|j: int|
            0 <= j < final(dst)@.len() && !(4 * (dst_y * dst_width + dst_x) <= j < 4 * (dst_y
                * dst_width + dst_x) + 4 * copy_width) ==> final(dst)@[j] == old(dst)@[j],
{
    let src_total: usize = src.len();
    let dst_total: usize = dst.len();
    proof {
        assert(src_y * src_width >= 0) by (nonlinear_arith);
        assert(dst_y * dst_width >= 0) by (nonlinear_arith);
    }
    let src_start: usize = 4 * ((src_y as usize) * (src_width as usize) + (src_x as usize));
    let dst_start: usize = 4 * ((dst_y as usize) * (dst_width as usize) + (dst_x as usize));
    let count: usize = 4 * (copy_width as usize);
    let mut k: usize = 0;
    proof {
        assert(src@.len() <= usize::MAX && old(dst)@.len() <= usize::MAX);
    }
    while k < count
        invariant
            src@.len() <= usize::MAX,
            dst@.len() <= usize::MAX,
            count == 4 * copy_width,
            src_start == 4 * (src_y * src_width + src_x),
            dst_start == 4 * (dst_y * dst_width + dst_x),
            src_start + count <= src@.len(),
            dst_start + count <= dst@.len(),
            dst@.len() == old(dst)@.len(),
            k <= count,
            forall|j: int|
                dst_start <= j < dst_start + k ==> dst@[j] == src@[src_start + (j - dst_start)],
            forall|j: int|
                0 <= j < dst@.len() && !(dst_start <= j < dst_start + k) ==> dst@[j] == old(
                dst)@[j],
        decreases count - k,
    {
        let b = src[src_start + k];
        dst[dst_start + k] = b;
        k = k + 1;
    }
}

/// Cuts the `edge`-sized square block at pixel offset (`x`, `y`) out of
/// `src` into a fresh buffer of `4 * edge * edge` bytes.
pub fn extract_frame(src: &Vec<u8>, src_width: u32, x: u32, y: u32, edge: u32) -> (r: Vec<u8>)
    requires
        x + edge <= src_width,
        y + edge <= u32::MAX,
        4 * ((y + edge) * src_width) <= src@.len(),
        edge * edge * 4 <= u32::MAX,
    ensures
        r@ == extract_block(src@, src_width, x, y, edge),
        r@.len() == edge * edge * 4,
{
    let byte_len: usize = ((edge * edge) as usize) * 4;
    let mut dst: Vec<u8> = vec![0u8; byte_len];
    let mut row: u32 = 0;
    while row < edge
        invariant
            x + edge <= src_width,
            y + edge <= u32::MAX,
            4 * ((y + edge) * src_width) <= src@.len(),
            edge * edge * 4 <= u32::MAX,
            byte_len == edge * edge * 4,
            dst@.len() == byte_len,
            row <= edge,
            forall|j: int| 0 <= j < 4 * (row * edge) ==> dst@[j] == extract_block(
                src@,
                src_width,
                x,
                y,
                edge,
            )[j],
        decreases edge - row,
    {
        proof {
            lemma_row_bounds(
                src@.len() as int,
                src_width as int,
                x as int,
                y as int,
                edge as int,
                row as int,
            );
            assert(4 * ((y + row) * src_width + x + edge) <= src@.len());
            assert(4 * (row * edge + 0 + edge) <= dst@.len());
        }
        rgba8_image_copy_row(edge, src, src_width, x, y + row, &mut dst, edge, 0, row);
        proof {
            lemma_row_matches(src@, dst@, src_width, x, y, edge, row);
        }
        row = row + 1;
    }
    proof {
        assert(4 * ((edge * edge) as int) == edge * edge * 4);
        assert(dst@ =~= extract_block(src@, src_width, x, y, edge));
    }
    dst
}

/// In-bounds facts for copying block row `row`: the source row lies inside
/// `src` and the destination row inside the block buffer.
proof fn lemma_row_bounds(src_len: int, w: int, x: int, y: int, e: int, row: int)
    requires
        x + e <= w,
        4 * ((y + e) * w) <= src_len,
        0 <= row < e,
        0 <= x,
        0 <= y,
    ensures
        4 * ((y + row) * w + x + e) <= src_len,
        4 * (row * e + 0 + e) <= e * e * 4,
{
    assert((y + row) * w + x + e <= (y + e) * w) by (nonlinear_arith)
        requires
            x + e <= w,
            0 <= row < e,
            0 <= x,
            0 <= y,
    ;
    assert(row * e + e <= e * e) by (nonlinear_arith)
        requires
            0 <= row < e,
    ;
}

/// After copying block row `row`, every byte of the block buffer up to the
/// end of that row agrees with `extract_block`.
proof fn lemma_row_matches(
    src: Seq<u8>,
    dst: Seq<u8>,
    width: u32,
    x: u32,
    y: u32,
    edge: u32,
    row: u32,
)
    requires
        dst.len() == edge * edge * 4,
        0 <= row < edge,
        forall|j: int|
            4 * (row * edge) <= j < 4 * (row * edge) + 4 * edge ==> dst[j] == src[4 * ((y + row)
                * width + x) + (j - 4 * (row * edge))],
        forall|j: int| 0 <= j < 4 * (row * edge) ==> dst[j] == extract_block(
            src,
            width,
            x,
            y,
            edge,
        )[j],
    ensures
        forall|j: int| 0 <= j < 4 * ((row + 1) * edge) ==> dst[j] == extract_block(
            src,
            width,
            x,
            y,
            edge,
        )[j],
{
    let e = edge as int;
    let r = row as int;
    assert(4 * ((r + 1) * e) == 4 * (r * e) + 4 * e) by (nonlinear_arith);
    assert((r + 1) * e <= e * e) by (nonlinear_arith)
        requires
            0 <= r < e,
    ;
    assert forall|j: int| 0 <= j < 4 * ((r + 1) * e) implies dst[j] == extract_block(
        src,
        width,
        x,
        y,
        edge,
    )[j] by {
        if j >= 4 * (r * e) {
            let i = j - 4 * (r * e);
            assert(0 <= i < 4 * e);
            assert(j == r * (4 * e) + i) by (nonlinear_arith)
                requires
                    j == 4 * (r * e) + i,
            ;
            lemma_fundamental_div_mod_converse(j, 4 * e, r, i);
            assert(j / (4 * e) == r);
            assert(j % (4 * e) == i);
            assert(j < 4 * (e * e));
            assert(dst[j] == src[4 * ((y + r) * width + x) + i]);
            assert(extract_block(src, width, x, y, edge)[j] == src[4 * ((y + j / (4 * e)) * width
                + x) + (j % (4 * e))]);
        }
    }
}

} // verus!
