use vstd::prelude::*;
use vstd::utf8::encode_utf8;
use vstd::utf8::decode_utf8;
use vstd::utf8::valid_utf8;
use crate::model::AtlasModel;
use crate::model::GroupModel;
use crate::model::TileModel;
use crate::model::keys_unique;
use crate::mip::TILE_SIZE_MAX;
use crate::mip::is_pow2;
use crate::mip::is_power_of_two;
use crate::mip::spec_mip_levels_max;
use crate::mip::spec_mip_level_data_len;
use crate::mip::mip_levels_max;
use crate::mip::mip_level_data_len;
use crate::mip::lemma_trailing_zeros_le_32;
use crate::builder::TileAtlasBuilderImageSequence;
use crate::builder::TileAtlasBuilderSet;
use crate::builder::TileAtlasBuilderTileEntry;
use crate::builder::TileAtlasBuilderGroup;
use crate::builder::TileAtlasBuilderGroupEntry;
use crate::builder::deep_frames;
use crate::builder::tile_entries_view;
use crate::builder::group_entries_view;
use crate::text::str_eq;

verus! {

/// A 32-bit value as four little-endian bytes.
pub open spec fn enc_u32(x: u32) -> Seq<u8> {
    seq![
        (x % 256) as u8,
        ((x / 256) % 256) as u8,
        ((x / 65536) % 256) as u8,
        ((x / 16777216) % 256) as u8,
    ]
}

/// The value of four little-endian bytes.
pub open spec fn le32_val(b0: u8, b1: u8, b2: u8, b3: u8) -> u32 {
    (b0 + 256 * (b1 as int) + 65536 * (b2 as int) + 16777216 * (b3 as int)) as u32
}

/// A length-prefixed byte string.
pub open spec fn enc_blob(s: Seq<u8>) -> Seq<u8> {
    enc_u32(s.len() as u32) + s
}

/// A length-prefixed UTF-8 string.
pub open spec fn enc_str(s: Seq<char>) -> Seq<u8> {
    enc_blob(encode_utf8(s))
}

/// A frame list: each frame a length-prefixed byte string.
pub open spec fn enc_frames(fs: Seq<Seq<u8>>) -> Seq<u8>
    decreases fs.len(),
{
    if fs.len() == 0 {
        Seq::empty()
    } else {
        enc_blob(fs[0]) + enc_frames(fs.drop_first())
    }
}

/// A level list: each level a count-prefixed frame list.
pub open spec fn enc_levels(ls: Seq<Seq<Seq<u8>>>) -> Seq<u8>
    decreases ls.len(),
{
    if ls.len() == 0 {
        Seq::empty()
    } else {
        enc_u32(ls[0].len() as u32) + enc_frames(ls[0]) + enc_levels(ls.drop_first())
    }
}

/// A tile list: each tile its name, its level count, and its levels.
pub open spec fn enc_tiles(ts: Seq<(Seq<char>, TileModel)>) -> Seq<u8>
    decreases ts.len(),
{
    if ts.len() == 0 {
        Seq::empty()
    } else {
        enc_str(ts[0].0) + enc_u32(ts[0].1.levels.len() as u32) + enc_levels(ts[0].1.levels)
            + enc_tiles(ts.drop_first())
    }
}

/// A group list: each group its name, its tile count, and its tiles.
pub open spec fn enc_groups(gs: Seq<(Seq<char>, GroupModel)>) -> Seq<u8>
    decreases gs.len(),
{
    if gs.len() == 0 {
        Seq::empty()
    } else {
        enc_str(gs[0].0) + enc_u32(gs[0].1.tiles.len() as u32) + enc_tiles(gs[0].1.tiles)
            + enc_groups(gs.drop_first())
    }
}

/// The whole builder: base size, group count, then the groups.
pub open spec fn enc_atlas(m: AtlasModel) -> Seq<u8> {
    enc_u32(m.size) + enc_u32(m.groups.len() as u32) + enc_groups(m.groups)
}

/// Every count and every string's byte form fits the 32-bit fields of
/// the format.
pub open spec fn enc_sizes_ok(m: AtlasModel) -> bool {
    &&& m.groups.len() <= u32::MAX
    &&& forall|g: int|
        0 <= g < m.groups.len() ==> {
            &&& encode_utf8((#[trigger] m.groups[g]).0).len() <= u32::MAX
            &&& m.groups[g].1.tiles.len() <= u32::MAX
            &&& forall|t: int|
                0 <= t < m.groups[g].1.tiles.len() ==> {
                    &&& encode_utf8((#[trigger] m.groups[g].1.tiles[t]).0).len() <= u32::MAX
                    &&& m.groups[g].1.tiles[t].1.levels.len() <= u32::MAX
                    &&& forall|l: int|
                        0 <= l < m.groups[g].1.tiles[t].1.levels.len() ==> {
                            &&& (#[trigger] m.groups[g].1.tiles[t].1.levels[l]).len()
                                <= u32::MAX
                            &&& forall|f: int|
                                0 <= f < m.groups[g].1.tiles[t].1.levels[l].len() ==> (
                                #[trigger] m.groups[g].1.tiles[t].1.levels[l][f]).len()
                                    <= u32::MAX
                        }
                }
        }
}

/// Parses four little-endian bytes.
pub open spec fn dec_u32(b: Seq<u8>, i: int) -> Option<(u32, int)> {
    if 0 <= i && i + 4 <= b.len() {
        Some((le32_val(b[i], b[i + 1], b[i + 2], b[i + 3]), i + 4))
    } else {
        None
    }
}

/// Parses a length-prefixed byte string.
pub open spec fn dec_blob(b: Seq<u8>, i: int) -> Option<(Seq<u8>, int)> {
    match dec_u32(b, i) {
        Some((n, j)) => if j + n <= b.len() {
            Some((b.subrange(j, j + n), j + n))
        } else {
            None
        },
        None => None,
    }
}

/// Parses a length-prefixed UTF-8 string.
pub open spec fn dec_str(b: Seq<u8>, i: int) -> Option<(Seq<char>, int)> {
    match dec_blob(b, i) {
        Some((bs, j)) => if valid_utf8(bs) {
            Some((decode_utf8(bs), j))
        } else {
            None
        },
        None => None,
    }
}

/// Parses `n` length-prefixed frames.
pub open spec fn dec_frames(b: Seq<u8>, i: int, n: int) -> Option<(Seq<Seq<u8>>, int)>
    decreases n,
{
    if n <= 0 {
        Some((Seq::empty(), i))
    } else {
        match dec_blob(b, i) {
            Some((f, j)) => match dec_frames(b, j, n - 1) {
                Some((fs, k)) => Some((seq![f] + fs, k)),
                None => None,
            },
            None => None,
        }
    }
}

/// Parses `n` count-prefixed frame lists.
pub open spec fn dec_levels(b: Seq<u8>, i: int, n: int) -> Option<(Seq<Seq<Seq<u8>>>, int)>
    decreases n,
{
    if n <= 0 {
        Some((Seq::empty(), i))
    } else {
        match dec_u32(b, i) {
            Some((c, j)) => match dec_frames(b, j, c as int) {
                Some((fs, k)) => match dec_levels(b, k, n - 1) {
                    Some((ls, e)) => Some((seq![fs] + ls, e)),
                    None => None,
                },
                None => None,
            },
            None => None,
        }
    }
}

/// Parses `n` tiles.
pub open spec fn dec_tiles(b: Seq<u8>, i: int, n: int) -> Option<
    (Seq<(Seq<char>, TileModel)>, int),
>
    decreases n,
{
    if n <= 0 {
        Some((Seq::empty(), i))
    } else {
        match dec_str(b, i) {
            Some((name, j)) => match dec_u32(b, j) {
                Some((c, k)) => match dec_levels(b, k, c as int) {
                    Some((ls, e)) => match dec_tiles(b, e, n - 1) {
                        Some((ts, e2)) => Some(
                            (seq![(name, TileModel { levels: ls })] + ts, e2),
                        ),
                        None => None,
                    },
                    None => None,
                },
                None => None,
            },
            None => None,
        }
    }
}

/// Parses `n` groups.
pub open spec fn dec_groups(b: Seq<u8>, i: int, n: int) -> Option<
    (Seq<(Seq<char>, GroupModel)>, int),
>
    decreases n,
{
    if n <= 0 {
        Some((Seq::empty(), i))
    } else {
        match dec_str(b, i) {
            Some((name, j)) => match dec_u32(b, j) {
                Some((c, k)) => match dec_tiles(b, k, c as int) {
                    Some((ts, e)) => match dec_groups(b, e, n - 1) {
                        Some((gs, e2)) => Some(
                            (seq![(name, GroupModel { tiles: ts })] + gs, e2),
                        ),
                        None => None,
                    },
                    None => None,
                },
                None => None,
            },
            None => None,
        }
    }
}

/// Parses a whole builder: the input must be consumed exactly and the
/// decoded structure must be well-formed.
pub open spec fn dec_atlas(b: Seq<u8>) -> Option<AtlasModel> {
    match dec_u32(b, 0) {
        Some((size, i)) => match dec_u32(b, i) {
            Some((n, j)) => match dec_groups(b, j, n as int) {
                Some((gs, e)) => if e == b.len() && (AtlasModel { size, groups: gs }).wf() {
                    Some(AtlasModel { size, groups: gs })
                } else {
                    None
                },
                None => None,
            },
            None => None,
        },
        None => None,
    }
}

/// Why reading a serialized builder failed: the underlying byte stream
/// could not be recovered, or the payload did not decode to a
/// well-formed builder.
#[derive(Debug, Clone, Copy, PartialEq, Eq, Structural)]
pub enum TileAtlasBuilderReadError {
    Io,
    Decode,
}

/// Four little-endian bytes read back give the encoded value.
pub proof fn lemma_dec_u32_enc(b: Seq<u8>, i: int, x: u32)
    requires
        0 <= i,
        i + 4 <= b.len(),
        b.subrange(i, i + 4) == enc_u32(x),
    ensures
        dec_u32(b, i) == Some((x, i + 4)),
{
    assert(b[i] == enc_u32(x)[0]);
    assert(b[i + 1] == enc_u32(x)[1]);
    assert(b[i + 2] == enc_u32(x)[2]);
    assert(b[i + 3] == enc_u32(x)[3]);
    assert(x % 256 + 256 * ((x / 256) % 256) + 65536 * ((x / 65536) % 256) + 16777216 * ((x
        / 16777216) % 256) == x) by (bit_vector);
}

/// A length-prefixed byte string reads back as itself.
pub proof fn lemma_dec_blob_enc(b: Seq<u8>, i: int, s: Seq<u8>)
    requires
        0 <= i,
        s.len() <= u32::MAX,
        i + enc_blob(s).len() <= b.len(),
        b.subrange(i, i + enc_blob(s).len()) == enc_blob(s),
    ensures
        dec_blob(b, i) == Some((s, i + enc_blob(s).len())),
{
    let n = s.len() as u32;
    assert(enc_blob(s).len() == 4 + s.len());
    assert(b.subrange(i, i + 4) =~= enc_u32(n)) by {
        assert forall|k: int| 0 <= k < 4 implies b.subrange(i, i + 4)[k] == enc_u32(n)[k] by {
            assert(b.subrange(i, i + enc_blob(s).len())[k] == enc_blob(s)[k]);
        }
    }
    lemma_dec_u32_enc(b, i, n);
    assert(b.subrange(i + 4, i + 4 + n) =~= s) by {
        assert forall|k: int| 0 <= k < n implies b.subrange(i + 4, i + 4 + n)[k] == s[k] by {
            assert(b.subrange(i, i + enc_blob(s).len())[4 + k] == enc_blob(s)[4 + k]);
        }
    }
}

/// A length-prefixed UTF-8 string reads back as its characters.
pub proof fn lemma_dec_str_enc(b: Seq<u8>, i: int, s: Seq<char>)
    requires
        0 <= i,
        encode_utf8(s).len() <= u32::MAX,
        i + enc_str(s).len() <= b.len(),
        b.subrange(i, i + enc_str(s).len()) == enc_str(s),
    ensures
        dec_str(b, i) == Some((s, i + enc_str(s).len())),
{
    lemma_dec_blob_enc(b, i, encode_utf8(s));
    vstd::utf8::encode_utf8_valid_utf8(s);
    vstd::utf8::encode_utf8_decode_utf8(s);
}

/// A subrange equality restricted to a shorter prefix still holds.
proof fn lemma_subrange_chain(b: Seq<u8>, i: int, whole: Seq<u8>, a: int, c: int)
    requires
        0 <= i,
        i + whole.len() <= b.len(),
        b.subrange(i, i + whole.len()) == whole,
        0 <= a <= c <= whole.len(),
    ensures
        b.subrange(i + a, i + c) =~= whole.subrange(a, c),
{
    assert forall|k: int| 0 <= k < c - a implies b.subrange(i + a, i + c)[k] == whole.subrange(
        a,
        c,
    )[k] by {
        assert(b.subrange(i, i + whole.len())[a + k] == whole[a + k]);
    }
}

/// An encoded frame list reads back as itself.
pub proof fn lemma_dec_frames_enc(b: Seq<u8>, i: int, fs: Seq<Seq<u8>>)
    requires
        0 <= i,
        forall|f: int| 0 <= f < fs.len() ==> (#[trigger] fs[f]).len() <= u32::MAX,
        i + enc_frames(fs).len() <= b.len(),
        b.subrange(i, i + enc_frames(fs).len()) == enc_frames(fs),
    ensures
        dec_frames(b, i, fs.len() as int) == Some((fs, i + enc_frames(fs).len())),
    decreases fs.len(),
{
    if fs.len() > 0 {
        let head = enc_blob(fs[0]);
        let rest = enc_frames(fs.drop_first());
        assert(enc_frames(fs) == head + rest);
        lemma_subrange_chain(b, i, enc_frames(fs), 0, head.len() as int);
        assert(b.subrange(i, i + head.len()) =~= head);
        lemma_dec_blob_enc(b, i, fs[0]);
        lemma_subrange_chain(b, i, enc_frames(fs), head.len() as int, enc_frames(fs).len() as int);
        assert(b.subrange(i + head.len(), i + enc_frames(fs).len()) =~= rest);
        assert forall|f: int| 0 <= f < fs.drop_first().len() implies (
        #[trigger] fs.drop_first()[f]).len() <= u32::MAX by {
            assert(fs.drop_first()[f] == fs[f + 1]);
        }
        lemma_dec_frames_enc(b, i + head.len(), fs.drop_first());
        assert(seq![fs[0]] + fs.drop_first() =~= fs);
    }
}

/// An encoded level list reads back as itself.
pub proof fn lemma_dec_levels_enc(b: Seq<u8>, i: int, ls: Seq<Seq<Seq<u8>>>)
    requires
        0 <= i,
        forall|l: int|
            0 <= l < ls.len() ==> (#[trigger] ls[l]).len() <= u32::MAX && forall|f: int|
                0 <= f < ls[l].len() ==> (#[trigger] ls[l][f]).len() <= u32::MAX,
        i + enc_levels(ls).len() <= b.len(),
        b.subrange(i, i + enc_levels(ls).len()) == enc_levels(ls),
    ensures
        dec_levels(b, i, ls.len() as int) == Some((ls, i + enc_levels(ls).len())),
    decreases ls.len(),
{
    if ls.len() > 0 {
        let c = enc_u32(ls[0].len() as u32);
        let head = enc_frames(ls[0]);
        let rest = enc_levels(ls.drop_first());
        assert(enc_levels(ls) == c + head + rest);
        lemma_subrange_chain(b, i, enc_levels(ls), 0, 4);
        assert(b.subrange(i, i + 4) =~= c) by {
            assert forall|k: int| 0 <= k < 4 implies b.subrange(i, i + 4)[k] == c[k] by {
                assert((c + head + rest)[k] == c[k]);
            }
        }
        lemma_dec_u32_enc(b, i, ls[0].len() as u32);
        lemma_subrange_chain(b, i, enc_levels(ls), 4, 4 + head.len() as int);
        assert(b.subrange(i + 4, i + 4 + head.len()) =~= head) by {
            assert forall|k: int| 0 <= k < head.len() implies enc_levels(ls).subrange(
                4,
                4 + head.len() as int,
            )[k] == head[k] by {
                assert((c + head + rest)[4 + k] == head[k]);
            }
        }
        lemma_dec_frames_enc(b, i + 4, ls[0]);
        lemma_subrange_chain(
            b,
            i,
            enc_levels(ls),
            4 + head.len() as int,
            enc_levels(ls).len() as int,
        );
        assert(b.subrange(i + 4 + head.len(), i + enc_levels(ls).len()) =~= rest) by {
            assert forall|k: int| 0 <= k < rest.len() implies enc_levels(ls).subrange(
                4 + head.len() as int,
                enc_levels(ls).len() as int,
            )[k] == rest[k] by {
                assert((c + head + rest)[4 + head.len() + k] == rest[k]);
            }
        }
        assert forall|l: int|
            0 <= l < ls.drop_first().len() implies (#[trigger] ls.drop_first()[l]).len()
            <= u32::MAX && forall|f: int|
            0 <= f < ls.drop_first()[l].len() ==> (#[trigger] ls.drop_first()[l][f]).len()
                <= u32::MAX by {
            assert(ls.drop_first()[l] == ls[l + 1]);
        }
        lemma_dec_levels_enc(b, i + 4 + head.len(), ls.drop_first());
        assert(seq![ls[0]] + ls.drop_first() =~= ls);
    }
}

/// An encoded tile list reads back as itself.
#[verifier::rlimit(100)]
pub proof fn lemma_dec_tiles_enc(b: Seq<u8>, i: int, ts: Seq<(Seq<char>, TileModel)>)
    requires
        0 <= i,
        forall|t: int|
            0 <= t < ts.len() ==> {
                &&& encode_utf8((#[trigger] ts[t]).0).len() <= u32::MAX
                &&& ts[t].1.levels.len() <= u32::MAX
                &&& forall|l: int|
                    0 <= l < ts[t].1.levels.len() ==> (#[trigger] ts[t].1.levels[l]).len()
                        <= u32::MAX && forall|f: int|
                        0 <= f < ts[t].1.levels[l].len() ==> (
                        #[trigger] ts[t].1.levels[l][f]).len() <= u32::MAX
            },
        i + enc_tiles(ts).len() <= b.len(),
        b.subrange(i, i + enc_tiles(ts).len()) == enc_tiles(ts),
    ensures
        dec_tiles(b, i, ts.len() as int) == Some((ts, i + enc_tiles(ts).len())),
    decreases ts.len(),
{
    if ts.len() > 0 {
        let name = enc_str(ts[0].0);
        let cnt = enc_u32(ts[0].1.levels.len() as u32);
        let lvls = enc_levels(ts[0].1.levels);
        let rest = enc_tiles(ts.drop_first());
        assert(enc_tiles(ts) == name + cnt + lvls + rest);
        let whole = enc_tiles(ts);
        lemma_subrange_chain(b, i, whole, 0, name.len() as int);
        assert(b.subrange(i, i + name.len()) =~= name) by {
            assert forall|k: int| 0 <= k < name.len() implies whole.subrange(
                0,
                name.len() as int,
            )[k] == name[k] by {
                assert((name + cnt + lvls + rest)[k] == name[k]);
            }
        }
        lemma_dec_str_enc(b, i, ts[0].0);
        let j = i + name.len();
        lemma_subrange_chain(b, i, whole, name.len() as int, name.len() as int + 4);
        assert(b.subrange(j, j + 4) =~= cnt) by {
            assert forall|k: int| 0 <= k < 4 implies whole.subrange(
                name.len() as int,
                name.len() as int + 4,
            )[k] == cnt[k] by {
                assert((name + cnt + lvls + rest)[name.len() + k] == cnt[k]);
            }
        }
        lemma_dec_u32_enc(b, j, ts[0].1.levels.len() as u32);
        let k2 = j + 4;
        lemma_subrange_chain(b, i, whole, name.len() as int + 4, name.len() as int + 4 + lvls.len());
        assert(b.subrange(k2, k2 + lvls.len()) =~= lvls) by {
            assert forall|k: int| 0 <= k < lvls.len() implies whole.subrange(
                name.len() as int + 4,
                name.len() as int + 4 + lvls.len(),
            )[k] == lvls[k] by {
                assert((name + cnt + lvls + rest)[name.len() + 4 + k] == lvls[k]);
            }
        }
        lemma_dec_levels_enc(b, k2, ts[0].1.levels);
        let e = k2 + lvls.len();
        lemma_subrange_chain(
            b,
            i,
            whole,
            name.len() as int + 4 + lvls.len(),
            whole.len() as int,
        );
        assert(b.subrange(e, i + whole.len()) =~= rest) by {
            assert forall|k: int| 0 <= k < rest.len() implies whole.subrange(
                name.len() as int + 4 + lvls.len(),
                whole.len() as int,
            )[k] == rest[k] by {
                assert((name + cnt + lvls + rest)[name.len() + 4 + lvls.len() + k] == rest[k]);
            }
        }
        assert forall|t: int|
            0 <= t < ts.drop_first().len() implies {
            &&& encode_utf8((#[trigger] ts.drop_first()[t]).0).len() <= u32::MAX
            &&& ts.drop_first()[t].1.levels.len() <= u32::MAX
            &&& forall|l: int|
                0 <= l < ts.drop_first()[t].1.levels.len() ==> (
                #[trigger] ts.drop_first()[t].1.levels[l]).len() <= u32::MAX && forall|f: int|
                    0 <= f < ts.drop_first()[t].1.levels[l].len() ==> (
                    #[trigger] ts.drop_first()[t].1.levels[l][f]).len() <= u32::MAX
        } by {
            assert(ts.drop_first()[t] == ts[t + 1]);
        }
        lemma_dec_tiles_enc(b, e, ts.drop_first());
        assert(TileModel { levels: ts[0].1.levels } =~~= ts[0].1);
        assert(seq![(ts[0].0, ts[0].1)] + ts.drop_first() =~= ts);
    }
}

/// An encoded group list reads back as itself.
#[verifier::rlimit(100)]
pub proof fn lemma_dec_groups_enc(b: Seq<u8>, i: int, gs: Seq<(Seq<char>, GroupModel)>)
    requires
        0 <= i,
        forall|g: int|
            0 <= g < gs.len() ==> {
                &&& encode_utf8((#[trigger] gs[g]).0).len() <= u32::MAX
                &&& gs[g].1.tiles.len() <= u32::MAX
                &&& forall|t: int|
                    0 <= t < gs[g].1.tiles.len() ==> {
                        &&& encode_utf8((#[trigger] gs[g].1.tiles[t]).0).len() <= u32::MAX
                        &&& gs[g].1.tiles[t].1.levels.len() <= u32::MAX
                        &&& forall|l: int|
                            0 <= l < gs[g].1.tiles[t].1.levels.len() ==> (
                            #[trigger] gs[g].1.tiles[t].1.levels[l]).len() <= u32::MAX
                                && forall|f: int|
                                0 <= f < gs[g].1.tiles[t].1.levels[l].len() ==> (
                                #[trigger] gs[g].1.tiles[t].1.levels[l][f]).len() <= u32::MAX
                    }
            },
        i + enc_groups(gs).len() <= b.len(),
        b.subrange(i, i + enc_groups(gs).len()) == enc_groups(gs),
    ensures
        dec_groups(b, i, gs.len() as int) == Some((gs, i + enc_groups(gs).len())),
    decreases gs.len(),
{
    if gs.len() > 0 {
        let name = enc_str(gs[0].0);
        let cnt = enc_u32(gs[0].1.tiles.len() as u32);
        let tls = enc_tiles(gs[0].1.tiles);
        let rest = enc_groups(gs.drop_first());
        assert(enc_groups(gs) == name + cnt + tls + rest);
        let whole = enc_groups(gs);
        lemma_subrange_chain(b, i, whole, 0, name.len() as int);
        assert(b.subrange(i, i + name.len()) =~= name) by {
            assert forall|k: int| 0 <= k < name.len() implies whole.subrange(
                0,
                name.len() as int,
            )[k] == name[k] by {
                assert((name + cnt + tls + rest)[k] == name[k]);
            }
        }
        lemma_dec_str_enc(b, i, gs[0].0);
        let j = i + name.len();
        lemma_subrange_chain(b, i, whole, name.len() as int, name.len() as int + 4);
        assert(b.subrange(j, j + 4) =~= cnt) by {
            assert forall|k: int| 0 <= k < 4 implies whole.subrange(
                name.len() as int,
                name.len() as int + 4,
            )[k] == cnt[k] by {
                assert((name + cnt + tls + rest)[name.len() + k] == cnt[k]);
            }
        }
        lemma_dec_u32_enc(b, j, gs[0].1.tiles.len() as u32);
        let k2 = j + 4;
        lemma_subrange_chain(b, i, whole, name.len() as int + 4, name.len() as int + 4 + tls.len());
        assert(b.subrange(k2, k2 + tls.len()) =~= tls) by {
            assert forall|k: int| 0 <= k < tls.len() implies whole.subrange(
                name.len() as int + 4,
                name.len() as int + 4 + tls.len(),
            )[k] == tls[k] by {
                assert((name + cnt + tls + rest)[name.len() + 4 + k] == tls[k]);
            }
        }
        assert forall|t: int|
            0 <= t < gs[0].1.tiles.len() implies {
            &&& encode_utf8((#[trigger] gs[0].1.tiles[t]).0).len() <= u32::MAX
            &&& gs[0].1.tiles[t].1.levels.len() <= u32::MAX
            &&& forall|l: int|
                0 <= l < gs[0].1.tiles[t].1.levels.len() ==> (
                #[trigger] gs[0].1.tiles[t].1.levels[l]).len() <= u32::MAX && forall|f: int|
                    0 <= f < gs[0].1.tiles[t].1.levels[l].len() ==> (
                    #[trigger] gs[0].1.tiles[t].1.levels[l][f]).len() <= u32::MAX
        } by {}
        lemma_dec_tiles_enc(b, k2, gs[0].1.tiles);
        let e = k2 + tls.len();
        lemma_subrange_chain(
            b,
            i,
            whole,
            name.len() as int + 4 + tls.len(),
            whole.len() as int,
        );
        assert(b.subrange(e, i + whole.len()) =~= rest) by {
            assert forall|k: int| 0 <= k < rest.len() implies whole.subrange(
                name.len() as int + 4 + tls.len(),
                whole.len() as int,
            )[k] == rest[k] by {
                assert((name + cnt + tls + rest)[name.len() + 4 + tls.len() + k] == rest[k]);
            }
        }
        assert forall|g: int|
            0 <= g < gs.drop_first().len() implies {
            &&& encode_utf8((#[trigger] gs.drop_first()[g]).0).len() <= u32::MAX
            &&& gs.drop_first()[g].1.tiles.len() <= u32::MAX
            &&& forall|t: int|
                0 <= t < gs.drop_first()[g].1.tiles.len() ==> {
                    &&& encode_utf8((#[trigger] gs.drop_first()[g].1.tiles[t]).0).len()
                        <= u32::MAX
                    &&& gs.drop_first()[g].1.tiles[t].1.levels.len() <= u32::MAX
                    &&& forall|l: int|
                        0 <= l < gs.drop_first()[g].1.tiles[t].1.levels.len() ==> (
                        #[trigger] gs.drop_first()[g].1.tiles[t].1.levels[l]).len() <= u32::MAX
                            && forall|f: int|
                            0 <= f < gs.drop_first()[g].1.tiles[t].1.levels[l].len() ==> (
                            #[trigger] gs.drop_first()[g].1.tiles[t].1.levels[l][f]).len()
                                <= u32::MAX
                }
        } by {
            assert(gs.drop_first()[g] == gs[g + 1]);
        }
        lemma_dec_groups_enc(b, e, gs.drop_first());
        assert(GroupModel { tiles: gs[0].1.tiles } =~~= gs[0].1);
        assert(seq![(gs[0].0, gs[0].1)] + gs.drop_first() =~= gs);
    }
}

/// LAW: decoding inverts encoding. A well-formed builder whose counts
/// fit the format's 32-bit fields reads back exactly from its own
/// encoding.
#[verifier::rlimit(60)]
pub proof fn lemma_codec_round_trip(m: AtlasModel)
    requires
        m.wf(),
        enc_sizes_ok(m),
    ensures
        dec_atlas(enc_atlas(m)) == Some(m),
{
    let b = enc_atlas(m);
    let s0 = enc_u32(m.size);
    let s1 = enc_u32(m.groups.len() as u32);
    let gsb = enc_groups(m.groups);
    assert(b == s0 + s1 + gsb);
    assert(b.subrange(0, 4) =~= s0) by {
        assert forall|k: int| 0 <= k < 4 implies b.subrange(0, 4)[k] == s0[k] by {
            assert((s0 + s1 + gsb)[k] == s0[k]);
        }
    }
    lemma_dec_u32_enc(b, 0, m.size);
    assert(b.subrange(4, 8) =~= s1) by {
        assert forall|k: int| 0 <= k < 4 implies b.subrange(4, 8)[k] == s1[k] by {
            assert((s0 + s1 + gsb)[4 + k] == s1[k]);
        }
    }
    lemma_dec_u32_enc(b, 4, m.groups.len() as u32);
    assert(b.subrange(8, 8 + gsb.len() as int) =~= gsb) by {
        assert forall|k: int| 0 <= k < gsb.len() implies b.subrange(8, 8 + gsb.len() as int)[k]
            == gsb[k] by {
            assert((s0 + s1 + gsb)[8 + k] == gsb[k]);
        }
    }
    lemma_dec_groups_enc(b, 8, m.groups);
    assert(AtlasModel { size: m.size, groups: m.groups } =~~= m);
}

/// Appends a 32-bit value as four little-endian bytes.
pub fn push_u32(out: &mut Vec<u8>, x: u32)
    ensures
        final(out)@ == old(out)@ + enc_u32(x),
{
    out.push((x % 256) as u8);
    out.push(((x / 256) % 256) as u8);
    out.push(((x / 65536) % 256) as u8);
    out.push(((x / 16777216) % 256) as u8);
    proof {
        assert(out@ =~= old(out)@ + enc_u32(x));
    }
}

/// Appends a length-prefixed byte string.
pub fn push_blob(out: &mut Vec<u8>, v: &Vec<u8>)
    requires
        v@.len() <= u32::MAX,
    ensures
        final(out)@ == old(out)@ + enc_blob(v@),
{
    push_u32(out, v.len() as u32);
    out.extend_from_slice(v.as_slice());
    proof {
        assert(out@ =~= old(out)@ + enc_blob(v@));
    }
}

/// Appends a length-prefixed UTF-8 string.
pub fn push_str(out: &mut Vec<u8>, s: &String)
    requires
        encode_utf8(s@).len() <= u32::MAX,
    ensures
        final(out)@ == old(out)@ + enc_str(s@),
{
    let bytes = s.as_str().as_bytes();
    proof {
        assert(bytes@ == encode_utf8(s@));
    }
    push_u32(out, bytes.len() as u32);
    out.extend_from_slice(bytes);
    proof {
        assert(out@ =~= old(out)@ + enc_str(s@));
    }
}

/// Relies on `String::from_utf8`: succeeds exactly on valid UTF-8, and
/// then yields the characters those bytes encode.
#[verifier::external_body]
fn string_from_utf8(v: Vec<u8>) -> (r: Option<String>)
    ensures
        r is Some <==> valid_utf8(v@),
        r is Some ==> r.unwrap()@ == decode_utf8(v@),
{
    String::from_utf8(v).ok()
}

/// Reads four little-endian bytes.
pub fn read_u32(b: &Vec<u8>, i: usize) -> (r: Option<(u32, usize)>)
    ensures
        dec_u32(b@, i as int) == (match r {
            Some((x, j)) => Some((x, j as int)),
            None => None,
        }),
        r is Some ==> r.unwrap().1 == i + 4 && i + 4 <= b@.len(),
{
    if i <= b.len() && b.len() - i >= 4 {
        let x: u32 = (b[i] as u32) + 256 * (b[i + 1] as u32) + 65536 * (b[i + 2] as u32)
            + 16777216 * (b[i + 3] as u32);
        Some((x, i + 4))
    } else {
        None
    }
}

/// Reads a length-prefixed byte string.
pub fn read_blob(b: &Vec<u8>, i: usize) -> (r: Option<(Vec<u8>, usize)>)
    ensures
        dec_blob(b@, i as int) == (match r {
            Some((v, j)) => Some((v@, j as int)),
            None => None,
        }),
        r is Some ==> i <= r.unwrap().1 <= b@.len(),
{
    match read_u32(b, i) {
        Some((n, j)) => {
            if (n as usize) <= b.len() - j {
                let end = j + (n as usize);
                let mut v: Vec<u8> = Vec::new();
                let mut k: usize = j;
                while k < end
                    invariant
                        j <= k <= end,
                        end <= b@.len(),
                        v@ == b@.subrange(j as int, k as int),
                    decreases end - k,
                {
                    v.push(b[k]);
                    proof {
                        assert(v@ =~= b@.subrange(j as int, k as int + 1));
                    }
                    k = k + 1;
                }
                Some((v, end))
            } else {
                None
            }
        },
        None => None,
    }
}

/// Reads a length-prefixed UTF-8 string.
pub fn read_str(b: &Vec<u8>, i: usize) -> (r: Option<(String, usize)>)
    ensures
        dec_str(b@, i as int) == (match r {
            Some((s, j)) => Some((s@, j as int)),
            None => None,
        }),
        r is Some ==> i <= r.unwrap().1 <= b@.len(),
{
    match read_blob(b, i) {
        Some((bytes, j)) => {
            match string_from_utf8(bytes) {
                Some(s) => Some((s, j)),
                None => None,
            }
        },
        None => None,
    }
}

/// Reads `n` length-prefixed frames.
pub fn read_frames(b: &Vec<u8>, i: usize, n: u32) -> (r: Option<(Vec<Vec<u8>>, usize)>)
    ensures
        dec_frames(b@, i as int, n as int) == (match r {
            Some((vs, j)) => Some((deep_frames(vs@), j as int)),
            None => None,
        }),
        r is Some ==> r.unwrap().1 <= b@.len() || n == 0,
    decreases n,
{
    if n == 0 {
        proof {
            assert(deep_frames(Seq::<Vec<u8>>::empty()) =~= Seq::<Seq<u8>>::empty());
        }
        Some((Vec::new(), i))
    } else {
        match read_blob(b, i) {
            Some((f, j)) => {
                match read_frames(b, j, n - 1) {
                    Some((mut fs, k)) => {
                        let ghost fs_pre = fs@;
                        fs.insert(0, f);
                        proof {
                            assert(deep_frames(fs@) =~= seq![f@] + deep_frames(fs_pre));
                        }
                        Some((fs, k))
                    },
                    None => None,
                }
            },
            None => None,
        }
    }
}

/// Reads `n` count-prefixed frame lists as image sequences.
pub fn read_levels(b: &Vec<u8>, i: usize, n: u32) -> (r: Option<
    (Vec<TileAtlasBuilderImageSequence>, usize),
>)
    ensures
        dec_levels(b@, i as int, n as int) == (match r {
            Some((vs, j)) => Some(
                (Seq::new(vs@.len(), |l: int| vs@[l]@), j as int),
            ),
            None => None,
        }),
    decreases n,
{
    if n == 0 {
        proof {
            assert(Seq::new(
                Seq::<TileAtlasBuilderImageSequence>::empty().len(),
                |l: int| Seq::<TileAtlasBuilderImageSequence>::empty()[l]@,
            ) =~= Seq::<Seq<Seq<u8>>>::empty());
        }
        Some((Vec::new(), i))
    } else {
        match read_u32(b, i) {
            Some((c, j)) => {
                match read_frames(b, j, c) {
                    Some((fs, k)) => {
                        match read_levels(b, k, n - 1) {
                            Some((mut ls, e)) => {
                                let ghost ls_pre = ls@;
                                let sequence = TileAtlasBuilderImageSequence { data: fs };
                                ls.insert(0, sequence);
                                proof {
                                    assert(Seq::new(ls@.len(), |l: int| ls@[l]@)
                                        =~= seq![sequence@] + Seq::new(
                                        ls_pre.len(),
                                        |l: int| ls_pre[l]@,
                                    ));
                                    assert(sequence@ =~= deep_frames(fs@));
                                }
                                Some((ls, e))
                            },
                            None => None,
                        }
                    },
                    None => None,
                }
            },
            None => None,
        }
    }
}

/// Reads `n` tiles.
pub fn read_tiles(b: &Vec<u8>, i: usize, n: u32) -> (r: Option<
    (Vec<TileAtlasBuilderTileEntry>, usize),
>)
    ensures
        dec_tiles(b@, i as int, n as int) == (match r {
            Some((vs, j)) => Some((tile_entries_view(vs@), j as int)),
            None => None,
        }),
    decreases n,
{
    if n == 0 {
        proof {
            assert(tile_entries_view(Seq::<TileAtlasBuilderTileEntry>::empty()) =~= Seq::<
                (Seq<char>, TileModel),
            >::empty());
        }
        Some((Vec::new(), i))
    } else {
        match read_str(b, i) {
            Some((name, j)) => {
                match read_u32(b, j) {
                    Some((c, k)) => {
                        match read_levels(b, k, c) {
                            Some((ls, e)) => {
                                match read_tiles(b, e, n - 1) {
                                    Some((mut ts, e2)) => {
                                        let ghost ts_pre = ts@;
                                        let entry = TileAtlasBuilderTileEntry {
                                            id: name,
                                            set: TileAtlasBuilderSet { levels: ls },
                                        };
                                        let ghost eg = entry;
                                        ts.insert(0, entry);
                                        proof {
                                            assert(tile_entries_view(ts@) =~= seq![
                                                (eg.id@, eg.set@),
                                            ] + tile_entries_view(ts_pre));
                                        }
                                        Some((ts, e2))
                                    },
                                    None => None,
                                }
                            },
                            None => None,
                        }
                    },
                    None => None,
                }
            },
            None => None,
        }
    }
}

/// Reads `n` groups.
pub fn read_groups(b: &Vec<u8>, i: usize, n: u32) -> (r: Option<
    (Vec<TileAtlasBuilderGroupEntry>, usize),
>)
    ensures
        dec_groups(b@, i as int, n as int) == (match r {
            Some((vs, j)) => Some((group_entries_view(vs@), j as int)),
            None => None,
        }),
    decreases n,
{
    if n == 0 {
        proof {
            assert(group_entries_view(Seq::<TileAtlasBuilderGroupEntry>::empty()) =~= Seq::<
                (Seq<char>, GroupModel),
            >::empty());
        }
        Some((Vec::new(), i))
    } else {
        match read_str(b, i) {
            Some((name, j)) => {
                match read_u32(b, j) {
                    Some((c, k)) => {
                        match read_tiles(b, k, c) {
                            Some((ts, e)) => {
                                match read_groups(b, e, n - 1) {
                                    Some((mut gs, e2)) => {
                                        let ghost gs_pre = gs@;
                                        let entry = TileAtlasBuilderGroupEntry {
                                            id: name,
                                            group: TileAtlasBuilderGroup { tile_sets: ts },
                                        };
                                        let ghost eg = entry;
                                        gs.insert(0, entry);
                                        proof {
                                            assert(group_entries_view(gs@) =~= seq![
                                                (eg.id@, eg.group@),
                                            ] + group_entries_view(gs_pre));
                                        }
                                        Some((gs, e2))
                                    },
                                    None => None,
                                }
                            },
                            None => None,
                        }
                    },
                    None => None,
                }
            },
            None => None,
        }
    }
}

/// Checks the decoded structure against the builder's well-formedness:
/// the size a power of two within bounds, names unique, every tile's
/// chain as deep as the mip count, and every frame of its level's byte
/// length.
pub fn check_atlas_wf(size: u32, groups: &Vec<TileAtlasBuilderGroupEntry>) -> (r: bool)
    ensures
        r == (AtlasModel { size, groups: group_entries_view(groups@) }).wf(),
{
    let ghost m = AtlasModel { size, groups: group_entries_view(groups@) };
    if !is_power_of_two(size) || size > TILE_SIZE_MAX {
        return false;
    }
    let mips = mip_levels_max(size);
    proof {
        lemma_trailing_zeros_le_32(size);
    }
    let mut gi: usize = 0;
    while gi < groups.len()
        invariant
            m == (AtlasModel { size, groups: group_entries_view(groups@) }),
            is_pow2(size as nat),
            size <= TILE_SIZE_MAX,
            mips == spec_mip_levels_max(size),
            gi <= groups@.len(),
            forall|a: int, b2: int|
                #![trigger m.groups[a].0, m.groups[b2].0]
                0 <= a < b2 < groups@.len() && a < gi ==> m.groups[a].0 != m.groups[b2].0,
            forall|g: int| 0 <= g < gi ==> (#[trigger] m.groups[g]).1.wf(size),
        decreases groups@.len() - gi,
    {
        let mut gj: usize = gi + 1;
        while gj < groups.len()
            invariant
                m == (AtlasModel { size, groups: group_entries_view(groups@) }),
                gi < gj <= groups@.len(),
                gi < groups@.len(),
                forall|b2: int|
                    gi < b2 < gj ==> m.groups[gi as int].0 != (#[trigger] m.groups[b2]).0,
            decreases groups@.len() - gj,
        {
            if str_eq(groups[gi].id.as_str(), groups[gj].id.as_str()) {
                proof {
                    assert(m.groups[gi as int].0 == m.groups[gj as int].0);
                    assert(!keys_unique(m.groups));
                }
                return false;
            }
            gj = gj + 1;
        }
        let tile_count = groups[gi].group.tile_sets.len();
        let mut ti: usize = 0;
        while ti < tile_count
            invariant
                m == (AtlasModel { size, groups: group_entries_view(groups@) }),
                is_pow2(size as nat),
                size <= TILE_SIZE_MAX,
                mips == spec_mip_levels_max(size),
                gi < groups@.len(),
                tile_count == m.groups[gi as int].1.tiles.len(),
                ti <= tile_count,
                forall|a: int, b2: int|
                    #![trigger m.groups[gi as int].1.tiles[a].0, m.groups[gi as int].1.tiles[b2].0]
                    0 <= a < b2 < tile_count && a < ti ==> m.groups[gi as int].1.tiles[a].0
                        != m.groups[gi as int].1.tiles[b2].0,
                forall|t: int|
                    0 <= t < ti ==> (#[trigger] m.groups[gi as int].1.tiles[t]).1.wf(size),
            decreases tile_count - ti,
        {
            let mut tj: usize = ti + 1;
            while tj < tile_count
                invariant
                    m == (AtlasModel { size, groups: group_entries_view(groups@) }),
                    gi < groups@.len(),
                    tile_count == m.groups[gi as int].1.tiles.len(),
                    ti < tj <= tile_count,
                    ti < tile_count,
                    forall|b2: int|
                        ti < b2 < tj ==> m.groups[gi as int].1.tiles[ti as int].0 != (
                        #[trigger] m.groups[gi as int].1.tiles[b2]).0,
                decreases tile_count - tj,
            {
                if str_eq(
                    groups[gi].group.tile_sets[ti].id.as_str(),
                    groups[gi].group.tile_sets[tj].id.as_str(),
                ) {
                    proof {
                        assert(m.groups[gi as int].1.tiles[ti as int].0 == m.groups[gi
                            as int].1.tiles[tj as int].0);
                        assert(!keys_unique(m.groups[gi as int].1.tiles));
                        assert(!m.groups[gi as int].1.wf(size));
                    }
                    return false;
                }
                tj = tj + 1;
            }
            let ghost tmodel = m.groups[gi as int].1.tiles[ti as int].1;
            let level_count = groups[gi].group.tile_sets[ti].set.levels.len();
            if level_count != mips as usize {
                proof {
                    assert(!tmodel.wf(size));
                    assert(!m.groups[gi as int].1.wf(size));
                }
                return false;
            }
            let mut l: usize = 0;
            proof {
                lemma_trailing_zeros_le_32(size);
            }
            while l < level_count
                invariant
                    m == (AtlasModel { size, groups: group_entries_view(groups@) }),
                    is_pow2(size as nat),
                    size <= TILE_SIZE_MAX,
                    gi < groups@.len(),
                    ti < m.groups[gi as int].1.tiles.len(),
                    tmodel == m.groups[gi as int].1.tiles[ti as int].1,
                    level_count == tmodel.levels.len(),
                    level_count == spec_mip_levels_max(size),
                    level_count <= 33,
                    l <= level_count,
                    forall|l2: int, f: int|
                        0 <= l2 < l && 0 <= f < tmodel.levels[l2].len() ==> (
                        #[trigger] tmodel.levels[l2][f]).len() == spec_mip_level_data_len(
                            size,
                            l2 as u32,
                        ),
                decreases level_count - l,
            {
                let want = mip_level_data_len(size, l as u32);
                let frame_count = groups[gi].group.tile_sets[ti].set.levels[l].data.len();
                let mut f: usize = 0;
                while f < frame_count
                    invariant
                        m == (AtlasModel { size, groups: group_entries_view(groups@) }),
                        gi < groups@.len(),
                        ti < m.groups[gi as int].1.tiles.len(),
                        tmodel == m.groups[gi as int].1.tiles[ti as int].1,
                        l < tmodel.levels.len(),
                        frame_count == tmodel.levels[l as int].len(),
                        want == spec_mip_level_data_len(size, l as u32),
                        f <= frame_count,
                        forall|f2: int|
                            0 <= f2 < f ==> (#[trigger] tmodel.levels[l as int][f2]).len()
                                == spec_mip_level_data_len(size, l as u32),
                    decreases frame_count - f,
                {
                    if groups[gi].group.tile_sets[ti].set.levels[l].data[f].len()
                        != want as usize {
                        proof {
                            assert(tmodel.levels[l as int][f as int].len()
                                != spec_mip_level_data_len(size, l as u32));
                            assert(!tmodel.wf(size));
                            assert(!m.groups[gi as int].1.wf(size));
                        }
                        return false;
                    }
                    f = f + 1;
                }
                l = l + 1;
            }
            proof {
                assert(tmodel.wf(size));
            }
            ti = ti + 1;
        }
        proof {
            assert(m.groups[gi as int].1.wf(size));
        }
        gi = gi + 1;
    }
    proof {
        assert(keys_unique(m.groups));
        assert(m.wf());
    }
    true
}

/// Names what the Brotli decoder recovers from given bytes, `None`
/// where decoding fails. The decoder is integer-only code, so its
/// result depends on the input bytes alone; the encoder's exact output
/// is not named, since its cost model may differ across float
/// implementations.
pub uninterp spec fn spec_brotli_decode(data: Seq<u8>) -> Option<Seq<u8>>;

/// Relies on `brotli::CompressorWriter` over a byte-vector sink (8 MiB
/// buffer, quality 7, window 24; `into_inner` finishes the stream) and
/// on the format being lossless: whatever stream the encoder emits for
/// `data`, the decoder recovers exactly `data` from it.
#[verifier::external_body]
pub fn brotli_compress(data: &Vec<u8>) -> (r: Vec<u8>)
    ensures
        spec_brotli_decode(r@) == Some(data@),
{
    let mut w = brotli::CompressorWriter::new(Vec::new(), 8 * 1024 * 1024, 7, 24);
    let _ = std::io::Write::write_all(&mut w, data.as_slice());
    w.into_inner()
}

/// Relies on `brotli::Decompressor` read to the end: it returns the
/// decoded bytes, or fails, exactly as the pure decoder does.
#[verifier::external_body]
pub fn brotli_decompress(data: &Vec<u8>) -> (r: Option<Vec<u8>>)
    ensures
        match r {
            Some(v) => spec_brotli_decode(data@) == Some(v@),
            None => spec_brotli_decode(data@) is None,
        },
{
    let mut out = Vec::new();
    let mut d = brotli::Decompressor::new(data.as_slice(), 8 * 1024 * 1024);
    match std::io::Read::read_to_end(&mut d, &mut out) {
        Ok(_) => Some(out),
        Err(_) => None,
    }
}

} // verus!
