use vstd::prelude::*;
use vstd::arithmetic::div_mod::lemma_fundamental_div_mod_converse;
use crate::mip::is_pow2;
use crate::mip::spec_trailing_zeros;
use crate::mip::spec_mip_levels_max;
use crate::mip::spec_mip_level_size;
use crate::mip::spec_mip_level_data_len;
use crate::model::AtlasModel;
use crate::model::GroupModel;
use crate::model::TileModel;
use crate::model::tile_complete;
use crate::model::model_complete;

verus! {

/// Fixed-point sRGB-to-linear table: entry `v` is the linear intensity
/// of the 8-bit sRGB value `v / 255`, scaled by `2^20` and rounded to the
/// nearest integer. The transfer function is `s / 12.92` for
/// `s <= 0.04045` and `((s + 0.055) / 1.055)^2.4` above; the table is
/// strictly increasing, with 0 at entry 0 and exactly `2^20` at entry
/// 255.
pub open spec fn srgb_linear_table() -> Seq<u32> {
    seq![
        0u32, 318, 637, 955, 1273, 1591, 1910, 2228,
        2546, 2864, 3183, 3509, 3855, 4220, 4605, 5009,
        5433, 5878, 6343, 6828, 7335, 7863, 8413, 8984,
        9578, 10193, 10832, 11492, 12176, 12883, 13614, 14368,
        15145, 15947, 16773, 17624, 18499, 19399, 20324, 21274,
        22250, 23251, 24278, 25331, 26410, 27516, 28648, 29807,
        30993, 32205, 33445, 34713, 36008, 37331, 38681, 40060,
        41467, 42903, 44367, 45860, 47381, 48932, 50512, 52121,
        53760, 55428, 57127, 58855, 60613, 62402, 64221, 66071,
        67951, 69862, 71805, 73778, 75783, 77819, 79886, 81985,
        84117, 86280, 88475, 90702, 92962, 95254, 97579, 99937,
        102328, 104751, 107208, 109698, 112222, 114779, 117370, 119994,
        122653, 125345, 128072, 130833, 133628, 136458, 139323, 142222,
        145156, 148125, 151130, 154169, 157244, 160355, 163501, 166683,
        169900, 173154, 176443, 179769, 183131, 186530, 189964, 193436,
        196944, 200489, 204072, 207691, 211347, 215041, 218772, 222540,
        226346, 230190, 234071, 237991, 241948, 245944, 249978, 254050,
        258161, 262310, 266498, 270724, 274990, 279294, 283637, 288020,
        292442, 296903, 301404, 305944, 310523, 315143, 319802, 324502,
        329241, 334021, 338840, 343700, 348601, 353542, 358523, 363546,
        368609, 373713, 378858, 384044, 389271, 394539, 399849, 405201,
        410594, 416028, 421504, 427022, 432582, 438184, 443828, 449515,
        455243, 461014, 466827, 472683, 478582, 484523, 490507, 496534,
        502604, 508717, 514873, 521072, 527315, 533601, 539930, 546303,
        552720, 559181, 565685, 572234, 578826, 585462, 592143, 598868,
        605637, 612451, 619309, 626211, 633159, 640151, 647188, 654270,
        661397, 668569, 675786, 683048, 690356, 697709, 705108, 712552,
        720042, 727577, 735159, 742786, 750459, 758178, 765944, 773755,
        781613, 789517, 797468, 805465, 813509, 821599, 829736, 837920,
        846151, 854429, 862753, 871125, 879545, 888011, 896525, 905086,
        913695, 922351, 931055, 939807, 948606, 957453, 966349, 975292,
        984283, 993323, 1002411, 1011547, 1020731, 1029964, 1039246, 1048576,
    ]
}

/// The same table as an executable vector.
fn make_srgb_linear_table() -> (t: Vec<u32>)
    ensures
        t@ == srgb_linear_table(),
{
    let a: [u32; 256] = [
        0, 318, 637, 955, 1273, 1591, 1910, 2228,
        2546, 2864, 3183, 3509, 3855, 4220, 4605, 5009,
        5433, 5878, 6343, 6828, 7335, 7863, 8413, 8984,
        9578, 10193, 10832, 11492, 12176, 12883, 13614, 14368,
        15145, 15947, 16773, 17624, 18499, 19399, 20324, 21274,
        22250, 23251, 24278, 25331, 26410, 27516, 28648, 29807,
        30993, 32205, 33445, 34713, 36008, 37331, 38681, 40060,
        41467, 42903, 44367, 45860, 47381, 48932, 50512, 52121,
        53760, 55428, 57127, 58855, 60613, 62402, 64221, 66071,
        67951, 69862, 71805, 73778, 75783, 77819, 79886, 81985,
        84117, 86280, 88475, 90702, 92962, 95254, 97579, 99937,
        102328, 104751, 107208, 109698, 112222, 114779, 117370, 119994,
        122653, 125345, 128072, 130833, 133628, 136458, 139323, 142222,
        145156, 148125, 151130, 154169, 157244, 160355, 163501, 166683,
        169900, 173154, 176443, 179769, 183131, 186530, 189964, 193436,
        196944, 200489, 204072, 207691, 211347, 215041, 218772, 222540,
        226346, 230190, 234071, 237991, 241948, 245944, 249978, 254050,
        258161, 262310, 266498, 270724, 274990, 279294, 283637, 288020,
        292442, 296903, 301404, 305944, 310523, 315143, 319802, 324502,
        329241, 334021, 338840, 343700, 348601, 353542, 358523, 363546,
        368609, 373713, 378858, 384044, 389271, 394539, 399849, 405201,
        410594, 416028, 421504, 427022, 432582, 438184, 443828, 449515,
        455243, 461014, 466827, 472683, 478582, 484523, 490507, 496534,
        502604, 508717, 514873, 521072, 527315, 533601, 539930, 546303,
        552720, 559181, 565685, 572234, 578826, 585462, 592143, 598868,
        605637, 612451, 619309, 626211, 633159, 640151, 647188, 654270,
        661397, 668569, 675786, 683048, 690356, 697709, 705108, 712552,
        720042, 727577, 735159, 742786, 750459, 758178, 765944, 773755,
        781613, 789517, 797468, 805465, 813509, 821599, 829736, 837920,
        846151, 854429, 862753, 871125, 879545, 888011, 896525, 905086,
        913695, 922351, 931055, 939807, 948606, 957453, 966349, 975292,
        984283, 993323, 1002411, 1011547, 1020731, 1029964, 1039246, 1048576,
    ];
    let t = vstd::slice::slice_to_vec(a.as_slice());
    proof {
        assert(t@ =~= srgb_linear_table());
    }
    t
}

/// Channel `c` of the pixel at (`x`, `y`) of an RGBA8 square of edge
/// `size`.
pub open spec fn sample(src: Seq<u8>, size: int, x: int, y: int, c: int) -> u8 {
    src[4 * (y * size + x) + c]
}

/// The linear intensity of an 8-bit sRGB value, scaled by `2^20`.
pub open spec fn lin_of(v: u8) -> int {
    srgb_linear_table()[v as int] as int
}

/// Sum of the four sample alphas of the 2-by-2 source block whose
/// top-left sample is (`2x`, `2y`).
pub open spec fn quad_den(src: Seq<u8>, size: int, x: int, y: int) -> int {
    sample(src, size, 2 * x, 2 * y, 3) + sample(src, size, 2 * x + 1, 2 * y, 3) + sample(
        src,
        size,
        2 * x,
        2 * y + 1,
        3,
    ) + sample(src, size, 2 * x + 1, 2 * y + 1, 3)
}

/// Sum over the 2-by-2 block of each sample's linear intensity in channel
/// `c`, premultiplied by its alpha. Scaled by `2^20 * 255`.
pub open spec fn quad_num(src: Seq<u8>, size: int, x: int, y: int, c: int) -> int {
    lin_of(sample(src, size, 2 * x, 2 * y, c)) * sample(src, size, 2 * x, 2 * y, 3) + lin_of(
        sample(src, size, 2 * x + 1, 2 * y, c),
    ) * sample(src, size, 2 * x + 1, 2 * y, 3) + lin_of(sample(src, size, 2 * x, 2 * y + 1, c))
        * sample(src, size, 2 * x, 2 * y + 1, 3) + lin_of(
        sample(src, size, 2 * x + 1, 2 * y + 1, c),
    ) * sample(src, size, 2 * x + 1, 2 * y + 1, 3)
}

/// The largest 8-bit value at most `k` whose linear intensity does not
/// exceed `num / den` (in the table's scale): the truncating
/// linear-to-sRGB encoder, searching downward.
///
/// Inverting the forward table places the encoder's knee at the true
/// inverse threshold (linear ~0.0031308). A formulation that applies
/// the forward-direction cut 0.04045 to linear values as well is
/// discontinuous in dark tones, so for averaged linear values between
/// the two knees this encoder deliberately returns the colorimetrically
/// consistent byte rather than that formulation's.
pub open spec fn spec_srgb_encode(num: int, den: int, k: int) -> u8
    decreases k,
{
    if k <= 0 {
        0
    } else if srgb_linear_table()[k] * den <= num {
        k as u8
    } else {
        spec_srgb_encode(num, den, k - 1)
    }
}

/// Byte `i` of the downsampled image: pixel `i / 4` at channel `i % 4`,
/// laid out row-major with edge `size / 2`. A colour channel is the
/// alpha-weighted average of the block's four samples, averaged in
/// linear light and re-encoded to sRGB by truncation; the alpha channel
/// is the plain average of the four alphas, truncated. A fully
/// transparent block yields zero in every channel.
pub open spec fn down_byte(src: Seq<u8>, size: int, i: int) -> u8 {
    let d = size / 2;
    let p = i / 4;
    let c = i % 4;
    let x = p % d;
    let y = p / d;
    if c == 3 {
        (quad_den(src, size, x, y) / 4) as u8
    } else if quad_den(src, size, x, y) == 0 {
        0
    } else {
        spec_srgb_encode(quad_num(src, size, x, y, c), quad_den(src, size, x, y), 255)
    }
}

/// The whole downsampled image: a square RGBA8 buffer of edge `size / 2`.
pub open spec fn downsample_bytes(src: Seq<u8>, size: int) -> Seq<u8> {
    Seq::new(((size / 2) * (size / 2) * 4) as nat, |i: int| down_byte(src, size, i))
}

/// An algorithm that reduces one RGBA8 square frame to half its edge
/// length. `kernel` names the bytes a given implementation produces, so
/// that code generic over the algorithm still has an exact contract.
pub trait DownsampleAlgorithm: Sized {
    /// The bytes this algorithm produces from one source frame.
    spec fn kernel(&self, src: Seq<u8>, size: int) -> Seq<u8>;

    /// The kernel always produces the half-sized frame's byte length.
    proof fn kernel_len(&self, src: Seq<u8>, size: int)
        requires
            size >= 2,
            size % 2 == 0,
            src.len() == size * size * 4,
        ensures
            self.kernel(src, size).len() == (size / 2) * (size / 2) * 4,
    ;

    /// Downsamples `src`, an RGBA8 square of even nonzero edge length
    /// `src_size`, into `dst`, which must be pre-sized to the half-sized
    /// frame's byte length.
    fn downsample(&self, src: &Vec<u8>, src_size: usize, dst: &mut Vec<u8>)
        requires
            src_size >= 2,
            src_size % 2 == 0,
            src_size <= 0x4000,
            src@.len() == src_size * src_size * 4,
            old(dst)@.len() == (src_size as int / 2) * (src_size as int / 2) * 4,
        ensures
            final(dst)@ == self.kernel(src@, src_size as int),
    ;
}

/// The bilinear sRGB box filter: each output pixel averages a 2-by-2
/// source block in linear light, premultiplied by alpha, and re-encodes
/// the result by truncation. The arithmetic is exact fixed-point over
/// the sRGB table, so the result is deterministic on every machine.
#[derive(Debug, Clone, Copy, Default)]
pub struct DownsampleBilinearSRGB;

/// The truncating linear-to-sRGB encoder over the table.
fn srgb_encode(num: u64, den: u64, tab: &Vec<u32>) -> (r: u8)
    requires
        tab@ == srgb_linear_table(),
        1 <= den <= 1020,
    ensures
        r == spec_srgb_encode(num as int, den as int, 255),
{
    proof {
        assert(srgb_linear_table().len() == 256);
    }
    let mut k: usize = 255;
    while k > 0
        invariant
            tab@ == srgb_linear_table(),
            1 <= den <= 1020,
            k <= 255,
            spec_srgb_encode(num as int, den as int, 255) == spec_srgb_encode(
                num as int,
                den as int,
                k as int,
            ),
        decreases k,
    {
        if (tab[k] as u64) * den <= num {
            return k as u8;
        }
        k = k - 1;
    }
    0
}

impl DownsampleAlgorithm for DownsampleBilinearSRGB {
    open spec fn kernel(&self, src: Seq<u8>, size: int) -> Seq<u8> {
        downsample_bytes(src, size)
    }

    proof fn kernel_len(&self, src: Seq<u8>, size: int) {
    }

    fn downsample(&self, src: &Vec<u8>, src_size: usize, dst: &mut Vec<u8>) {
        let tab = make_srgb_linear_table();
        let dst_size = src_size / 2;
        let ghost sz = src_size as int;
        let ghost d = sz / 2;
        let ghost target = downsample_bytes(src@, sz);
        proof {
            assert(dst_size == d);
            assert(target.len() == d * d * 4);
            assert(srgb_linear_table().len() == 256);
        }
        let mut y: usize = 0;
        while y < dst_size
            invariant
                tab@ == srgb_linear_table(),
                sz == src_size as int,
                d == dst_size as int,
                sz % 2 == 0,
                2 <= sz <= 0x4000,
                d == sz / 2,
                src@.len() == sz * sz * 4,
                dst@.len() == d * d * 4,
                target == downsample_bytes(src@, sz),
                y <= dst_size,
                forall|j: int| 0 <= j < 4 * (y * d) ==> dst@[j] == target[j],
            decreases dst_size - y,
        {
            let mut x: usize = 0;
            while x < dst_size
                invariant
                    tab@ == srgb_linear_table(),
                    sz == src_size as int,
                    d == dst_size as int,
                    sz % 2 == 0,
                    2 <= sz <= 0x4000,
                    d == sz / 2,
                    src@.len() == sz * sz * 4,
                    dst@.len() == d * d * 4,
                    target == downsample_bytes(src@, sz),
                    y < dst_size,
                    x <= dst_size,
                    forall|j: int| 0 <= j < 4 * (y * d + x) ==> dst@[j] == target[j],
                decreases dst_size - x,
            {
                proof {
                    lemma_quad_bounds(sz, d, x as int, y as int);
                }
                let sx = 2 * x;
                let sy = 2 * y;
                let i00 = 4 * (sy * src_size + sx);
                let i10 = 4 * (sy * src_size + sx + 1);
                let i01 = 4 * ((sy + 1) * src_size + sx);
                let i11 = 4 * ((sy + 1) * src_size + sx + 1);
                let a00 = src[i00 + 3];
                let a10 = src[i10 + 3];
                let a01 = src[i01 + 3];
                let a11 = src[i11 + 3];
                let den: u32 = (a00 as u32) + (a10 as u32) + (a01 as u32) + (a11 as u32);
                let out_base = 4 * (y * dst_size + x);
                let ghost dst_before = dst@;
                let mut c: usize = 0;
                while c < 3
                    invariant
                        tab@ == srgb_linear_table(),
                        tab@.len() == 256,
                        sz == src_size as int,
                        d == dst_size as int,
                        sz % 2 == 0,
                        2 <= sz <= 0x4000,
                        d == sz / 2,
                        src@.len() == sz * sz * 4,
                        dst@.len() == d * d * 4,
                        x < dst_size,
                        y < dst_size,
                        sx == 2 * x,
                        sy == 2 * y,
                        i00 == 4 * (sy * sz + sx),
                        i10 == 4 * (sy * sz + sx + 1),
                        i01 == 4 * ((sy + 1) * sz + sx),
                        i11 == 4 * ((sy + 1) * sz + sx + 1),
                        i00 + 3 < src@.len(),
                        i10 + 3 < src@.len(),
                        i01 + 3 < src@.len(),
                        i11 + 3 < src@.len(),
                        out_base == 4 * (y * d + x),
                        out_base + 3 < dst@.len(),
                        a00 == sample(src@, sz, 2 * x as int, 2 * y as int, 3),
                        a10 == sample(src@, sz, 2 * x + 1, 2 * y as int, 3),
                        a01 == sample(src@, sz, 2 * x as int, 2 * y + 1, 3),
                        a11 == sample(src@, sz, 2 * x + 1, 2 * y + 1, 3),
                        den == quad_den(src@, sz, x as int, y as int),
                        c <= 3,
                        dst@.len() == dst_before.len(),
                        forall|j: int|
                            0 <= j < dst@.len() && !(out_base <= j < out_base + c) ==> dst@[j]
                                == dst_before[j],
                        forall|j: int|
                            out_base <= j < out_base + c ==> dst@[j] == (if quad_den(
                                src@,
                                sz,
                                x as int,
                                y as int,
                            ) == 0 {
                                0u8
                            } else {
                                spec_srgb_encode(
                                    quad_num(src@, sz, x as int, y as int, j - out_base),
                                    quad_den(src@, sz, x as int, y as int),
                                    255,
                                )
                            }),
                    decreases 3 - c,
                {
                    let v00 = src[i00 + c];
                    let v10 = src[i10 + c];
                    let v01 = src[i01 + c];
                    let v11 = src[i11 + c];
                    let out: u8 = if den == 0 {
                        0
                    } else {
                        proof {
                            lemma_mul_bound(tab@[v00 as int] as u64, a00 as u64);
                            lemma_mul_bound(tab@[v10 as int] as u64, a10 as u64);
                            lemma_mul_bound(tab@[v01 as int] as u64, a01 as u64);
                            lemma_mul_bound(tab@[v11 as int] as u64, a11 as u64);
                        }
                        let num: u64 = (tab[v00 as usize] as u64) * (a00 as u64) + (tab[v10
                            as usize] as u64) * (a10 as u64) + (tab[v01 as usize] as u64) * (a01
                            as u64) + (tab[v11 as usize] as u64) * (a11 as u64);
                        proof {
                            assert(num == quad_num(src@, sz, x as int, y as int, c as int));
                        }
                        srgb_encode(num, den as u64, &tab)
                    };
                    let ghost before_c = dst@;
                    dst[out_base + c] = out;
                    proof {
                        assert forall|j: int|
                            0 <= j < dst@.len() && j != out_base + c implies dst@[j]
                            == before_c[j] by {
                            assert(dst@ == before_c.update(out_base + c, out));
                        }
                        assert(dst@[out_base + c] == out);
                        assert forall|j: int|
                            out_base <= j < out_base + c + 1 && j != out_base + c implies dst@[j]
                            == before_c[j] by {}
                        if den != 0 {
                            assert(out == spec_srgb_encode(
                                quad_num(src@, sz, x as int, y as int, c as int),
                                quad_den(src@, sz, x as int, y as int),
                                255,
                            ));
                        }
                    }
                    c = c + 1;
                }
                let ghost before_a = dst@;
                dst[out_base + 3] = (den / 4) as u8;
                proof {
                    assert forall|j: int|
                        0 <= j < dst@.len() && j != out_base + 3 implies dst@[j]
                        == before_a[j] by {
                        assert(dst@ == before_a.update(out_base + 3, (den / 4) as u8));
                    }
                    assert forall|j: int|
                        out_base <= j < out_base + 3 implies dst@[j] == (if quad_den(
                        src@,
                        sz,
                        x as int,
                        y as int,
                    ) == 0 {
                        0u8
                    } else {
                        spec_srgb_encode(
                            quad_num(src@, sz, x as int, y as int, j - out_base),
                            quad_den(src@, sz, x as int, y as int),
                            255,
                        )
                    }) by {
                        assert(dst@[j] == before_a[j]);
                    }
                    lemma_pixel_matches(src@, dst@, sz, d, x as int, y as int, target);
                    assert forall|j: int| 0 <= j < 4 * (y * d + x + 1) implies dst@[j]
                        == target[j] by {
                        if j < 4 * (y * d + x) {
                            assert(dst@[j] == dst_before[j]);
                        }
                    }
                }
                x = x + 1;
            }
            proof {
                assert(4 * (y * d + d) == 4 * ((y + 1) * d)) by (nonlinear_arith);
            }
            y = y + 1;
        }
        proof {
            assert(4 * (d * d) == d * d * 4) by (nonlinear_arith);
            assert(dst@ =~= target);
        }
    }
}

/// One level's frame list after a downsampling pass: with `force` the
/// old frames are discarded first; then frames missing against the
/// parent level `prev` are derived from the parent frame of the same
/// index.
pub open spec fn ds_seq_step<D: DownsampleAlgorithm>(
    d: D,
    prev: Seq<Seq<u8>>,
    cur: Seq<Seq<u8>>,
    src_size: int,
    force: bool,
) -> Seq<Seq<u8>> {
    Seq::new(
        if force {
            prev.len()
        } else if prev.len() > cur.len() {
            prev.len()
        } else {
            cur.len()
        },
        |i: int|
            if !force && i < cur.len() {
                cur[i]
            } else {
                d.kernel(prev[i], src_size)
            },
    )
}

/// Index form of one downsampling step: kept frames first, derived
/// frames beyond them.
pub proof fn lemma_ds_seq_step_index<D: DownsampleAlgorithm>(
    d: D,
    prev: Seq<Seq<u8>>,
    cur: Seq<Seq<u8>>,
    src_size: int,
    force: bool,
    i: int,
)
    requires
        0 <= i < ds_seq_step(d, prev, cur, src_size, force).len(),
    ensures
        ds_seq_step(d, prev, cur, src_size, force)[i] == (if !force && i < cur.len() {
            cur[i]
        } else {
            d.kernel(prev[i], src_size)
        }),
{
}

/// A tile's levels after downsampling the range `lo <= l < hi` in
/// ascending order, level 0 skipped, stopping at the mip chain's depth.
/// Each level is derived from the already-updated level below it.
pub open spec fn ds_levels<D: DownsampleAlgorithm>(
    d: D,
    size: u32,
    levels: Seq<Seq<Seq<u8>>>,
    lo: int,
    hi: int,
    force: bool,
) -> Seq<Seq<Seq<u8>>>
    decreases hi - lo,
{
    if lo >= hi || lo >= spec_mip_levels_max(size) || lo >= levels.len() {
        levels
    } else if lo <= 0 {
        ds_levels(d, size, levels, if hi < 1 { hi } else { 1 }, hi, force)
    } else {
        let src_size = spec_mip_level_size(size, (lo - 1) as u32) as int;
        let levels2 = levels.update(
            lo,
            ds_seq_step(d, levels[lo - 1], levels[lo], src_size, force),
        );
        ds_levels(d, size, levels2, lo + 1, hi, force)
    }
}

/// The whole builder after a downsampling pass over every tile.
pub open spec fn model_downsample<D: DownsampleAlgorithm>(
    d: D,
    m: AtlasModel,
    lo: int,
    hi: int,
    force: bool,
) -> AtlasModel {
    AtlasModel {
        size: m.size,
        groups: Seq::new(
            m.groups.len(),
            |g: int|
                (
                    m.groups[g].0,
                    GroupModel {
                        tiles: Seq::new(
                            m.groups[g].1.tiles.len(),
                            |t: int|
                                (
                                    m.groups[g].1.tiles[t].0,
                                    TileModel {
                                        levels: ds_levels(
                                            d,
                                            m.size,
                                            m.groups[g].1.tiles[t].1.levels,
                                            lo,
                                            hi,
                                            force,
                                        ),
                                    },
                                ),
                        ),
                    },
                ),
        ),
    }
}

/// Downsampling touches only levels at and above `lo`, and never
/// changes how many levels a tile has.
pub proof fn lemma_ds_levels_frame<D: DownsampleAlgorithm>(
    d: D,
    size: u32,
    levels: Seq<Seq<Seq<u8>>>,
    lo: int,
    hi: int,
    force: bool,
)
    ensures
        ds_levels(d, size, levels, lo, hi, force).len() == levels.len(),
        forall|j: int|
            0 <= j < lo ==> ds_levels(d, size, levels, lo, hi, force)[j] == levels[j],
        forall|j: int|
            spec_mip_levels_max(size) <= j < levels.len() ==> ds_levels(
                d,
                size,
                levels,
                lo,
                hi,
                force,
            )[j] == levels[j],
    decreases hi - lo,
{
    if lo >= hi || lo >= spec_mip_levels_max(size) || lo >= levels.len() {
        assert(ds_levels(d, size, levels, lo, hi, force) == levels);
    } else if lo <= 0 {
        let lo2: int = if hi < 1 { hi } else { 1 };
        lemma_ds_levels_frame(d, size, levels, lo2, hi, force);
        assert(ds_levels(d, size, levels, lo, hi, force) == ds_levels(
            d,
            size,
            levels,
            lo2,
            hi,
            force,
        ));
        assert forall|j: int| 0 <= j < lo implies ds_levels(d, size, levels, lo, hi, force)[j]
            == levels[j] by {
            assert(ds_levels(d, size, levels, lo2, hi, force)[j] == levels[j]);
        }
        assert forall|j: int|
            spec_mip_levels_max(size) <= j < levels.len() implies ds_levels(
            d,
            size,
            levels,
            lo,
            hi,
            force,
        )[j] == levels[j] by {
            assert(ds_levels(d, size, levels, lo2, hi, force)[j] == levels[j]);
        }
    } else {
        let src_size = spec_mip_level_size(size, (lo - 1) as u32) as int;
        let levels2 = levels.update(
            lo,
            ds_seq_step(d, levels[lo - 1], levels[lo], src_size, force),
        );
        lemma_ds_levels_frame(d, size, levels2, lo + 1, hi, force);
        assert(ds_levels(d, size, levels, lo, hi, force) == ds_levels(
            d,
            size,
            levels2,
            lo + 1,
            hi,
            force,
        ));
        assert forall|j: int| 0 <= j < lo implies ds_levels(d, size, levels, lo, hi, force)[j]
            == levels[j] by {
            assert(ds_levels(d, size, levels2, lo + 1, hi, force)[j] == levels2[j]);
            assert(levels2[j] == levels[j]);
        }
        assert forall|j: int|
            spec_mip_levels_max(size) <= j < levels.len() implies ds_levels(
            d,
            size,
            levels,
            lo,
            hi,
            force,
        )[j] == levels[j] by {
            assert(ds_levels(d, size, levels2, lo + 1, hi, force)[j] == levels2[j]);
            assert(levels2[j] == levels[j]);
        }
    }
}

/// Below the mip chain's last level, a tile's edge length is a nonzero
/// even number, so it can be downsampled further.
pub proof fn lemma_mip_size_even(size: u32, k: u32)
    requires
        is_pow2(size as nat),
        k < spec_trailing_zeros(size),
    ensures
        spec_mip_level_size(size, k) % 2 == 0,
        spec_mip_level_size(size, k) >= 2,
        spec_trailing_zeros(spec_mip_level_size(size, k)) == spec_trailing_zeros(size) - k,
    decreases k,
{
    if k == 0 {
        assert(size != 0);
        if size % 2 == 1 {
            assert(spec_trailing_zeros(size) == 0);
        }
    } else {
        lemma_mip_size_even(size, (k - 1) as u32);
        let s1 = spec_mip_level_size(size, (k - 1) as u32);
        let s = spec_mip_level_size(size, k);
        assert(s == s1 / 2);
        assert(s1 % 2 == 0 && s1 >= 2);
        assert(s != 0);
        assert(spec_trailing_zeros(s1) == 1 + spec_trailing_zeros(s));
        if s % 2 == 1 {
            assert(spec_trailing_zeros(s) == 0);
            assert(spec_trailing_zeros(s1) == 1);
        }
    }
}

/// Every level inside the mip chain has a nonzero edge length.
pub proof fn lemma_mip_size_pos(size: u32, level: u32)
    requires
        is_pow2(size as nat),
        level < spec_mip_levels_max(size),
    ensures
        spec_mip_level_size(size, level) >= 1,
{
    if level == 0 {
        assert(size >= 1);
    } else {
        lemma_mip_size_even(size, (level - 1) as u32);
    }
}

/// Downsampling preserves the per-level frame byte lengths of a
/// well-formed tile.
pub proof fn lemma_ds_levels_wf<D: DownsampleAlgorithm>(
    d: D,
    size: u32,
    levels: Seq<Seq<Seq<u8>>>,
    lo: int,
    hi: int,
    force: bool,
)
    requires
        is_pow2(size as nat),
        levels.len() == spec_mip_levels_max(size),
        forall|l: int, f: int|
            0 <= l < levels.len() && 0 <= f < levels[l].len() ==> (#[trigger] levels[l][f]).len()
                == spec_mip_level_data_len(size, l as u32),
    ensures
        forall|l: int, f: int|
            0 <= l < levels.len() && 0 <= f < ds_levels(d, size, levels, lo, hi, force)[l].len()
                ==> (#[trigger] ds_levels(d, size, levels, lo, hi, force)[l][f]).len()
                == spec_mip_level_data_len(size, l as u32),
    decreases hi - lo,
{
    lemma_ds_levels_frame(d, size, levels, lo, hi, force);
    if lo >= hi || lo >= spec_mip_levels_max(size) || lo <= 0 {
        if lo < hi && lo < spec_mip_levels_max(size) && lo < levels.len() && lo <= 0 {
            let lo2: int = if hi < 1 { hi } else { 1 };
            lemma_ds_levels_wf(d, size, levels, lo2, hi, force);
            assert forall|l: int, f: int|
                0 <= l < levels.len() && 0 <= f < ds_levels(d, size, levels, lo, hi, force)[l].len()
                    implies (#[trigger] ds_levels(d, size, levels, lo, hi, force)[l][f]).len()
                == spec_mip_level_data_len(size, l as u32) by {
                assert(ds_levels(d, size, levels, lo, hi, force) == ds_levels(
                    d,
                    size,
                    levels,
                    lo2,
                    hi,
                    force,
                ));
                assert(ds_levels(d, size, levels, lo, hi, force)[l][f] == ds_levels(
                    d,
                    size,
                    levels,
                    lo2,
                    hi,
                    force,
                )[l][f]);
            }
        } else {
            assert forall|l: int, f: int|
                0 <= l < levels.len() && 0 <= f < ds_levels(d, size, levels, lo, hi, force)[l].len()
                    implies (#[trigger] ds_levels(d, size, levels, lo, hi, force)[l][f]).len()
                == spec_mip_level_data_len(size, l as u32) by {
                assert(ds_levels(d, size, levels, lo, hi, force) == levels);
                assert(ds_levels(d, size, levels, lo, hi, force)[l][f] == levels[l][f]);
            }
        }
    } else {
        let src_size = spec_mip_level_size(size, (lo - 1) as u32) as int;
        let stepped = ds_seq_step(d, levels[lo - 1], levels[lo], src_size, force);
        let levels2 = levels.update(lo, stepped);
        lemma_mip_size_even(size, (lo - 1) as u32);
        crate::mip::lemma_trailing_zeros_le_32(size);
        assert(lo as u32 != 0);
        assert(((lo as u32) - 1) as u32 == (lo - 1) as u32);
        assert(spec_mip_level_size(size, lo as u32) == spec_mip_level_size(
            size,
            ((lo as u32) - 1) as u32,
        ) / 2);
        assert(spec_mip_level_size(size, lo as u32) == src_size / 2);
        assert forall|f: int| 0 <= f < stepped.len() implies (#[trigger] stepped[f]).len()
            == spec_mip_level_data_len(size, lo as u32) by {
            if !force && f < levels[lo].len() {
                assert(stepped[f] == levels[lo][f]);
            } else {
                assert(stepped[f] == d.kernel(levels[lo - 1][f], src_size));
                assert(levels[lo - 1][f].len() == spec_mip_level_data_len(
                    size,
                    (lo - 1) as u32,
                ));
                d.kernel_len(levels[lo - 1][f], src_size);
                assert((src_size / 2) * (src_size / 2) * 4 == spec_mip_level_data_len(
                    size,
                    lo as u32,
                )) by (nonlinear_arith)
                    requires
                        src_size / 2 == spec_mip_level_size(size, lo as u32),
                        spec_mip_level_data_len(size, lo as u32) == spec_mip_level_size(
                            size,
                            lo as u32,
                        ) * spec_mip_level_size(size, lo as u32) * 4,
                ;
            }
        }
        assert forall|l: int, f: int|
            0 <= l < levels2.len() && 0 <= f < levels2[l].len() implies (
        #[trigger] levels2[l][f]).len() == spec_mip_level_data_len(size, l as u32) by {
            if l != lo {
                assert(levels2[l] == levels[l]);
            }
        }
        lemma_ds_levels_wf(d, size, levels2, lo + 1, hi, force);
        assert forall|l: int, f: int|
            0 <= l < levels.len() && 0 <= f < ds_levels(d, size, levels, lo, hi, force)[l].len()
                implies (#[trigger] ds_levels(d, size, levels, lo, hi, force)[l][f]).len()
            == spec_mip_level_data_len(size, l as u32) by {
            assert(ds_levels(d, size, levels, lo, hi, force) == ds_levels(
                d,
                size,
                levels2,
                lo + 1,
                hi,
                force,
            ));
            assert(ds_levels(d, size, levels, lo, hi, force)[l][f] == ds_levels(
                d,
                size,
                levels2,
                lo + 1,
                hi,
                force,
            )[l][f]);
        }
    }
}

/// After a forced pass from level `lo` up, each processed level holds
/// exactly as many frames as the level below it.
proof fn lemma_ds_force_counts<D: DownsampleAlgorithm>(
    d: D,
    size: u32,
    levels: Seq<Seq<Seq<u8>>>,
    lo: int,
    hi: int,
)
    requires
        1 <= lo,
        hi >= spec_mip_levels_max(size),
        levels.len() == spec_mip_levels_max(size),
    ensures
        forall|l: int|
            lo <= l < levels.len() ==> (#[trigger] ds_levels(d, size, levels, lo, hi, true)[l]).len()
                == ds_levels(d, size, levels, lo, hi, true)[l - 1].len(),
    decreases hi - lo,
{
    lemma_ds_levels_frame(d, size, levels, lo, hi, true);
    if lo >= hi || lo >= spec_mip_levels_max(size) || lo >= levels.len() {
    } else {
        let src_size = spec_mip_level_size(size, (lo - 1) as u32) as int;
        let stepped = ds_seq_step(d, levels[lo - 1], levels[lo], src_size, true);
        let levels2 = levels.update(lo, stepped);
        assert(stepped.len() == levels[lo - 1].len());
        lemma_ds_force_counts(d, size, levels2, lo + 1, hi);
        lemma_ds_levels_frame(d, size, levels2, lo + 1, hi, true);
        let x = ds_levels(d, size, levels, lo, hi, true);
        assert(x == ds_levels(d, size, levels2, lo + 1, hi, true));
        assert forall|l: int| lo <= l < levels.len() implies (#[trigger] x[l]).len() == x[l
            - 1].len() by {
            if l == lo {
                assert(x[lo] == levels2[lo]);
                assert(x[lo - 1] == levels2[lo - 1]);
                assert(levels2[lo - 1] == levels[lo - 1]);
            } else {
                assert(ds_levels(d, size, levels2, lo + 1, hi, true)[l].len() == ds_levels(
                    d,
                    size,
                    levels2,
                    lo + 1,
                    hi,
                    true,
                )[l - 1].len());
            }
        }
    }
}

/// In a chain where each level's frame count equals its predecessor's,
/// every level matches the base.
proof fn lemma_adjacent_counts_equal(s: Seq<Seq<Seq<u8>>>, l: int)
    requires
        forall|j: int| 1 <= j < s.len() ==> (#[trigger] s[j]).len() == s[j - 1].len(),
        0 <= l < s.len(),
    ensures
        s[l].len() == s[0].len(),
    decreases l,
{
    if l > 0 {
        lemma_adjacent_counts_equal(s, l - 1);
    }
}

/// LAW: a forced downsampling pass that covers the whole mip range
/// leaves every tile of a well-formed atlas mip-complete: every level
/// holds as many frames as the base level.
pub proof fn lemma_downsample_force_completes<D: DownsampleAlgorithm>(
    d: D,
    m: AtlasModel,
    hi: int,
)
    requires
        m.wf(),
        hi >= spec_mip_levels_max(m.size),
    ensures
        model_complete(model_downsample(d, m, 0, hi, true)),
{
    let m2 = model_downsample(d, m, 0, hi, true);
    assert forall|g: int, t: int|
        0 <= g < m2.groups.len() && 0 <= t < m2.groups[g].1.tiles.len() implies tile_complete(
        (#[trigger] m2.groups[g].1.tiles[t]).1,
    ) by {
        let levels = m.groups[g].1.tiles[t].1.levels;
        assert(m.groups[g].1.wf(m.size));
        assert(m.groups[g].1.tiles[t].1.wf(m.size));
        let r = ds_levels(d, m.size, levels, 0, hi, true);
        assert(m2.groups[g].1.tiles[t].1.levels == r);
        assert(r == ds_levels(d, m.size, levels, 1, hi, true));
        lemma_ds_force_counts(d, m.size, levels, 1, hi);
        lemma_ds_levels_frame(d, m.size, levels, 1, hi, true);
        assert forall|j: int| 1 <= j < r.len() implies (#[trigger] r[j]).len() == r[j
            - 1].len() by {
            assert(ds_levels(d, m.size, levels, 1, hi, true)[j].len() == ds_levels(
                d,
                m.size,
                levels,
                1,
                hi,
                true,
            )[j - 1].len());
        }
        assert forall|l: int| 1 <= l < r.len() implies (#[trigger] r[l]).len()
            == r[0].len() by {
            lemma_adjacent_counts_equal(r, l);
        }
    }
}

/// A pass without force changes nothing below `lo`, and where it ran,
/// every level ends at least as long as the level below it began.
proof fn lemma_ds_levels_idem_rec<D: DownsampleAlgorithm>(
    d: D,
    size: u32,
    levels: Seq<Seq<Seq<u8>>>,
    lo: int,
    hi: int,
)
    ensures
        ds_levels(
            d,
            size,
            ds_levels(d, size, levels, lo, hi, false),
            lo,
            hi,
            false,
        ) == ds_levels(d, size, levels, lo, hi, false),
    decreases hi - lo,
{
    lemma_ds_levels_frame(d, size, levels, lo, hi, false);
    let x = ds_levels(d, size, levels, lo, hi, false);
    if lo >= hi || lo >= spec_mip_levels_max(size) || lo >= levels.len() {
        assert(x == levels);
    } else if lo <= 0 {
        let lo2: int = if hi < 1 {
            hi
        } else {
            1
        };
        lemma_ds_levels_idem_rec(d, size, levels, lo2, hi);
        assert(x == ds_levels(d, size, levels, lo2, hi, false));
        assert(x.len() == levels.len());
        assert(ds_levels(d, size, x, lo, hi, false) == ds_levels(d, size, x, lo2, hi, false));
    } else {
        let src_size = spec_mip_level_size(size, (lo - 1) as u32) as int;
        let step1 = ds_seq_step(d, levels[lo - 1], levels[lo], src_size, false);
        let levels2 = levels.update(lo, step1);
        assert(x == ds_levels(d, size, levels2, lo + 1, hi, false));
        lemma_ds_levels_frame(d, size, levels2, lo + 1, hi, false);
        assert(x[lo] == levels2[lo] && x[lo - 1] == levels2[lo - 1]);
        assert(levels2[lo] == step1 && levels2[lo - 1] == levels[lo - 1]);
        assert(step1.len() >= levels[lo - 1].len());
        let step2 = ds_seq_step(d, x[lo - 1], x[lo], src_size, false);
        assert(step2 =~= step1) by {
            assert(step2.len() == step1.len());
        }
        assert(ds_levels(d, size, x, lo, hi, false) == ds_levels(
            d,
            size,
            x.update(lo, step2),
            lo + 1,
            hi,
            false,
        ));
        assert(x.update(lo, step2) =~= x);
        assert(ds_levels(d, size, x, lo, hi, false) == ds_levels(d, size, x, lo + 1, hi, false));
        lemma_ds_levels_idem_rec(d, size, levels2, lo + 1, hi);
        assert(ds_levels(d, size, x, lo + 1, hi, false) == x);
    }
}

/// LAW: downsampling without force is idempotent. Running the same pass
/// twice over the same level range yields exactly the pyramid the first
/// run produced, because the second run finds every frame already
/// present.
pub proof fn lemma_downsample_idempotent<D: DownsampleAlgorithm>(
    d: D,
    m: AtlasModel,
    lo: int,
    hi: int,
)
    ensures
        model_downsample(
            d,
            model_downsample(d, m, lo, hi, false),
            lo,
            hi,
            false,
        ) =~~= model_downsample(d, m, lo, hi, false),
{
    let m1 = model_downsample(d, m, lo, hi, false);
    let m2 = model_downsample(d, m1, lo, hi, false);
    assert forall|g: int| 0 <= g < m2.groups.len() implies m2.groups[g]
        == m1.groups[g] by {
        assert forall|t: int| 0 <= t < m2.groups[g].1.tiles.len() implies m2.groups[g].1.tiles[t]
            == m1.groups[g].1.tiles[t] by {
            let levels = m.groups[g].1.tiles[t].1.levels;
            assert(m1.groups[g].1.tiles[t].1.levels == ds_levels(
                d,
                m.size,
                levels,
                lo,
                hi,
                false,
            ));
            lemma_ds_levels_idem_rec(d, m.size, levels, lo, hi);
            assert(m2.groups[g].1.tiles[t].1 =~~= m1.groups[g].1.tiles[t].1);
        }
        assert(m2.groups[g].1 =~~= m1.groups[g].1);
    }
    assert(m2 =~~= m1);
}

/// A downsampling pass preserves the builder's well-formedness.
pub proof fn lemma_model_downsample_wf<D: DownsampleAlgorithm>(
    d: D,
    m: AtlasModel,
    lo: int,
    hi: int,
    force: bool,
)
    requires
        m.wf(),
    ensures
        model_downsample(d, m, lo, hi, force).wf(),
        model_downsample(d, m, lo, hi, force).size == m.size,
{
    let m2 = model_downsample(d, m, lo, hi, force);
    assert forall|a: int, b: int| 0 <= a < b < m2.groups.len() implies (
    #[trigger] m2.groups[a].0) != (#[trigger] m2.groups[b].0) by {
        assert(m.groups[a].0 != m.groups[b].0);
    }
    assert forall|g: int| 0 <= g < m2.groups.len() implies (#[trigger] m2.groups[g]).1.wf(
        m.size,
    ) by {
        assert(m.groups[g].1.wf(m.size));
        let g1 = m.groups[g].1;
        let g2 = m2.groups[g].1;
        assert forall|a: int, b: int| 0 <= a < b < g2.tiles.len() implies (
        #[trigger] g2.tiles[a].0) != (#[trigger] g2.tiles[b].0) by {
            assert(g1.tiles[a].0 != g1.tiles[b].0);
        }
        assert forall|t: int| 0 <= t < g2.tiles.len() implies (#[trigger] g2.tiles[t]).1.wf(
            m.size,
        ) by {
            assert(g1.tiles[t].1.wf(m.size));
            lemma_ds_levels_frame(d, m.size, g1.tiles[t].1.levels, lo, hi, force);
            lemma_ds_levels_wf(d, m.size, g1.tiles[t].1.levels, lo, hi, force);
        }
    }
}

/// A product of a table entry and an alpha byte stays far below `u64`'s
/// range.
proof fn lemma_mul_bound(a: u64, b: u64)
    requires
        a < 0x100000000,
        b < 0x100,
    ensures
        a * b < 0x10000000000,
{
    assert(a * b < 0x10000000000) by (nonlinear_arith)
        requires
            a < 0x100000000,
            b < 0x100,
    ;
}

/// The four samples of block (`x`, `y`) lie inside the source buffer,
/// and the output pixel's bytes inside the destination.
proof fn lemma_quad_bounds(sz: int, d: int, x: int, y: int)
    requires
        d == sz / 2,
        sz % 2 == 0,
        2 <= sz <= 0x4000,
        0 <= x < d,
        0 <= y < d,
    ensures
        4 * ((2 * y + 1) * sz + 2 * x + 1) + 3 < sz * sz * 4,
        4 * (y * d + x) + 3 < d * d * 4,
        4 * (2 * y * sz + 2 * x) + 3 < sz * sz * 4,
        4 * (2 * y * sz + 2 * x + 1) + 3 < sz * sz * 4,
        4 * ((2 * y + 1) * sz + 2 * x) + 3 < sz * sz * 4,
        y * d + x < d * d,
        2 * x + 1 < sz,
        2 * y + 1 < sz,
        sz * sz * 4 <= 0x40000000,
        d * d * 4 <= 0x40000000,
{
    assert(d * d * 4 <= sz * sz * 4) by (nonlinear_arith)
        requires
            0 <= d,
            d <= sz,
    ;
    assert(sz * sz * 4 <= 0x40000000) by (nonlinear_arith)
        requires
            0 <= sz <= 0x4000,
    ;
    assert(sz == 2 * d);
    assert(2 * x + 1 < sz && 2 * y + 1 < sz) by (nonlinear_arith)
        requires
            0 <= x < d,
            0 <= y < d,
            sz == 2 * d,
    ;
    assert((2 * y + 1) * sz + 2 * x + 1 < sz * sz) by (nonlinear_arith)
        requires
            0 <= 2 * y + 1 < sz,
            0 <= 2 * x + 1 < sz,
    ;
    assert((2 * y) * sz + 2 * x + 1 < sz * sz) by (nonlinear_arith)
        requires
            0 <= 2 * y < sz,
            0 <= 2 * x + 1 < sz,
    ;
    assert((2 * y + 1) * sz + 2 * x < sz * sz) by (nonlinear_arith)
        requires
            0 <= 2 * y + 1 < sz,
            0 <= 2 * x < sz,
    ;
    assert(y * d + x < d * d) by (nonlinear_arith)
        requires
            0 <= x < d,
            0 <= y < d,
    ;
}

/// After the four bytes of output pixel (`x`, `y`) are written, they
/// agree with the kernel's bytes.
proof fn lemma_pixel_matches(
    src: Seq<u8>,
    dst: Seq<u8>,
    sz: int,
    d: int,
    x: int,
    y: int,
    target: Seq<u8>,
)
    requires
        d == sz / 2,
        sz % 2 == 0,
        2 <= sz,
        0 <= x < d,
        0 <= y < d,
        dst.len() == d * d * 4,
        target == downsample_bytes(src, sz),
        forall|j: int|
            4 * (y * d + x) <= j < 4 * (y * d + x) + 3 ==> dst[j] == (if quad_den(src, sz, x, y)
                == 0 {
                0u8
            } else {
                spec_srgb_encode(
                    quad_num(src, sz, x, y, j - 4 * (y * d + x)),
                    quad_den(src, sz, x, y),
                    255,
                )
            }),
        dst[4 * (y * d + x) + 3] == (quad_den(src, sz, x, y) / 4) as u8,
    ensures
        forall|j: int|
            4 * (y * d + x) <= j < 4 * (y * d + x) + 4 ==> dst[j] == target[j],
{
    let p = y * d + x;
    assert(p < d * d && 0 <= p) by (nonlinear_arith)
        requires
            p == y * d + x,
            0 <= x < d,
            0 <= y < d,
    ;
    assert forall|j: int| 4 * p <= j < 4 * p + 4 implies dst[j] == target[j] by {
        let c = j - 4 * p;
        assert(j == p * 4 + c) by (nonlinear_arith)
            requires
                j == 4 * p + c,
        ;
        lemma_fundamental_div_mod_converse(j, 4, p, c);
        assert(j / 4 == p && j % 4 == c);
        lemma_fundamental_div_mod_converse(p, d, y, x);
        assert(p / d == y && p % d == x);
        assert(j < d * d * 4) by (nonlinear_arith)
            requires
                j < 4 * p + 4,
                p < d * d,
                0 <= p,
        ;
        assert(target[j] == down_byte(src, sz, j));
        assert(sz / 2 == d);
        if c == 3 {
            assert(down_byte(src, sz, j) == (quad_den(src, sz, x, y) / 4) as u8);
            assert(dst[4 * (y * d + x) + 3] == (quad_den(src, sz, x, y) / 4) as u8);
        } else {
            assert(0 <= c < 3);
            assert(down_byte(src, sz, j) == (if quad_den(src, sz, x, y) == 0 {
                0u8
            } else {
                spec_srgb_encode(quad_num(src, sz, x, y, c), quad_den(src, sz, x, y), 255)
            }));
            assert(dst[j] == (if quad_den(src, sz, x, y) == 0 {
                0u8
            } else {
                spec_srgb_encode(
                    quad_num(src, sz, x, y, j - 4 * (y * d + x)),
                    quad_den(src, sz, x, y),
                    255,
                )
            }));
            assert(j - 4 * (y * d + x) == c);
        }
    }
}

} // verus!
