use vstd::prelude::*;
use crate::model::TileModel;
use crate::model::GroupModel;
use crate::model::AtlasModel;
use crate::model::tile_frame_count;
use crate::model::tiles_image_count;
use crate::model::groups_image_count;
use crate::model::model_image_count;
use crate::model::tiles_frames_at;
use crate::model::groups_frames_at;
use crate::model::model_frames_at;
use crate::model::lemma_tiles_image_count_nonneg;
use crate::model::lemma_groups_image_count_nonneg;
use crate::model::lemma_tiles_image_count_shift;
use crate::model::lemma_groups_image_count_shift;
use crate::model::lemma_tiles_frames_len;
use crate::model::lemma_groups_frames_len;
use crate::text::str_eq;

verus! {

/// One tile's place in the packed atlas: the first global slot its
/// level-0 frames occupy, and how many frames it has. Slots are
/// contiguous.
#[derive(Debug, Clone, Copy, PartialEq, Eq, Structural)]
pub struct TileAtlasEntry {
    pub index: u16,
    pub count: u16,
}

/// A named lookup entry inside a group.
pub struct TileAtlasNamedEntry {
    pub id: String,
    pub entry: TileAtlasEntry,
}

/// The lookup entries of one group, in the builder's tile order.
pub struct TileAtlasGroup {
    pub entries: Vec<TileAtlasNamedEntry>,
}

/// A named group of lookup entries.
pub struct TileAtlasNamedGroup {
    pub id: String,
    pub group: TileAtlasGroup,
}

/// The association-sequence view of a list of named lookup entries.
pub open spec fn named_entries_view(s: Seq<TileAtlasNamedEntry>) -> Seq<
    (Seq<char>, TileAtlasEntry),
> {
    Seq::new(s.len(), |i: int| (s[i].id@, s[i].entry))
}

impl View for TileAtlasGroup {
    type V = Seq<(Seq<char>, TileAtlasEntry)>;

    open spec fn view(&self) -> Seq<(Seq<char>, TileAtlasEntry)> {
        named_entries_view(self.entries@)
    }
}

/// The association-sequence view of a whole lookup table.
pub open spec fn lookup_view(s: Seq<TileAtlasNamedGroup>) -> Seq<
    (Seq<char>, Seq<(Seq<char>, TileAtlasEntry)>),
> {
    Seq::new(s.len(), |g: int| (s[g].id@, s[g].group@))
}

/// Lookup entries for a group's tiles, assigning slots from `idx0` on:
/// a tile without level-0 frames is skipped, every other tile takes the
/// next `count` slots.
pub open spec fn lookup_tiles(tiles: Seq<(Seq<char>, TileModel)>, idx0: int) -> Seq<
    (Seq<char>, TileAtlasEntry),
>
    decreases tiles.len(),
{
    if tiles.len() == 0 {
        Seq::empty()
    } else {
        let c = tile_frame_count(tiles[0].1);
        if c == 0 {
            lookup_tiles(tiles.drop_first(), idx0)
        } else {
            seq![
                (tiles[0].0, TileAtlasEntry { index: idx0 as u16, count: c as u16 }),
            ] + lookup_tiles(tiles.drop_first(), idx0 + c)
        }
    }
}

/// The whole lookup table, groups in builder order, slots assigned by a
/// running counter across groups; a group without any entry is skipped.
pub open spec fn lookup_groups(gs: Seq<(Seq<char>, GroupModel)>, idx0: int) -> Seq<
    (Seq<char>, Seq<(Seq<char>, TileAtlasEntry)>),
>
    decreases gs.len(),
{
    if gs.len() == 0 {
        Seq::empty()
    } else {
        let g = lookup_tiles(gs[0].1.tiles, idx0);
        let consumed = tiles_image_count(gs[0].1.tiles, 0);
        let rest = lookup_groups(gs.drop_first(), idx0 + consumed);
        if g.len() == 0 {
            rest
        } else {
            seq![(gs[0].0, g)] + rest
        }
    }
}

/// Each entry of a group's lookup names a tile of `tiles` whose level-0
/// frames sit exactly at slots `index - idx0 ..` of the group's
/// flattened level-0 frame sequence.
proof fn lemma_lookup_tiles_frames(tiles: Seq<(Seq<char>, TileModel)>, idx0: int)
    requires
        0 <= idx0,
        idx0 + tiles_image_count(tiles, 0) <= 0xFFFF,
    ensures
        forall|e: int|
            #![trigger lookup_tiles(tiles, idx0)[e]]
            0 <= e < lookup_tiles(tiles, idx0).len() ==> {
                &&& idx0 <= lookup_tiles(tiles, idx0)[e].1.index as int
                &&& lookup_tiles(tiles, idx0)[e].1.index + lookup_tiles(tiles, idx0)[e].1.count
                    <= idx0 + tiles_frames_at(tiles, 0).len()
                &&& exists|t: int|
                    0 <= t < tiles.len() && (#[trigger] tiles[t]).0 == lookup_tiles(
                        tiles,
                        idx0,
                    )[e].0 && tile_frame_count(tiles[t].1) == lookup_tiles(
                        tiles,
                        idx0,
                    )[e].1.count as int && forall|f: int|
                        0 <= f < lookup_tiles(tiles, idx0)[e].1.count ==> tiles_frames_at(
                            tiles,
                            0,
                        )[lookup_tiles(tiles, idx0)[e].1.index - idx0 + f] == tiles[t].1.levels[0][f]
            },
    decreases tiles.len(),
{
    if tiles.len() == 0 {
        return ;
    }
    let ls = lookup_tiles(tiles, idx0);
    let rest = tiles.drop_first();
    let c = tile_frame_count(tiles[0].1);
    let head = if 0 <= 0 < tiles[0].1.levels.len() {
        tiles[0].1.levels[0]
    } else {
        Seq::<Seq<u8>>::empty()
    };
    lemma_tiles_image_count_shift(tiles, 0);
    lemma_tiles_image_count_nonneg(rest, 0);
    lemma_tiles_frames_len(tiles);
    lemma_tiles_frames_len(rest);
    assert(head.len() == c);
    assert(tiles_frames_at(tiles, 0) == head + tiles_frames_at(rest, 0));
    if c == 0 {
        lemma_lookup_tiles_frames(rest, idx0);
        assert forall|e: int|
            #![trigger ls[e]]
            0 <= e < ls.len() implies {
            &&& idx0 <= ls[e].1.index as int
            &&& ls[e].1.index + ls[e].1.count <= idx0 + tiles_frames_at(tiles, 0).len()
            &&& exists|t: int|
                0 <= t < tiles.len() && (#[trigger] tiles[t]).0 == ls[e].0 && tile_frame_count(
                    tiles[t].1,
                ) == ls[e].1.count as int && forall|f: int|
                    0 <= f < ls[e].1.count ==> tiles_frames_at(tiles, 0)[ls[e].1.index - idx0
                        + f] == tiles[t].1.levels[0][f]
        } by {
            assert(ls[e] == lookup_tiles(rest, idx0)[e]);
            let t0 = choose|t: int|
                0 <= t < rest.len() && (#[trigger] rest[t]).0 == lookup_tiles(rest, idx0)[e].0
                    && tile_frame_count(rest[t].1) == lookup_tiles(rest, idx0)[e].1.count as int
                    && forall|f: int|
                    0 <= f < lookup_tiles(rest, idx0)[e].1.count ==> tiles_frames_at(rest, 0)[
                    lookup_tiles(rest, idx0)[e].1.index - idx0 + f] == rest[t].1.levels[0][f];
            let t1 = t0 + 1;
            assert(tiles[t1] == rest[t0]);
            assert forall|f: int|
                #![trigger tiles[t1].1.levels[0][f]]
                0 <= f < ls[e].1.count implies tiles_frames_at(tiles, 0)[ls[e].1.index - idx0
                + f] == tiles[t1].1.levels[0][f] by {
                assert(tiles_frames_at(rest, 0)[ls[e].1.index - idx0 + f]
                    == rest[t0].1.levels[0][f]);
                assert(tiles_frames_at(tiles, 0)[ls[e].1.index - idx0 + f] == tiles_frames_at(
                    rest,
                    0,
                )[ls[e].1.index - idx0 + f]);
            }
        }
    } else {
        let ent0 = TileAtlasEntry { index: idx0 as u16, count: c as u16 };
        lemma_lookup_tiles_frames(rest, idx0 + c);
        assert(ls == seq![(tiles[0].0, ent0)] + lookup_tiles(rest, idx0 + c));
        assert forall|e: int|
            #![trigger ls[e]]
            0 <= e < ls.len() implies {
            &&& idx0 <= ls[e].1.index as int
            &&& ls[e].1.index + ls[e].1.count <= idx0 + tiles_frames_at(tiles, 0).len()
            &&& exists|t: int|
                0 <= t < tiles.len() && (#[trigger] tiles[t]).0 == ls[e].0 && tile_frame_count(
                    tiles[t].1,
                ) == ls[e].1.count as int && forall|f: int|
                    0 <= f < ls[e].1.count ==> tiles_frames_at(tiles, 0)[ls[e].1.index - idx0
                        + f] == tiles[t].1.levels[0][f]
        } by {
            if e == 0 {
                assert(ls[0] == (tiles[0].0, ent0));
                assert(ent0.index as int == idx0);
                assert(ent0.count as int == c);
                assert(tiles[0].0 == ls[0].0);
                assert forall|f: int|
                    #![trigger tiles[0].1.levels[0][f]]
                    0 <= f < ls[0].1.count implies tiles_frames_at(tiles, 0)[ls[0].1.index - idx0
                    + f] == tiles[0].1.levels[0][f] by {
                    assert(tiles_frames_at(tiles, 0)[f] == head[f]);
                }
            } else {
                let lr = lookup_tiles(rest, idx0 + c);
                assert(ls[e] == lr[e - 1]);
                let t0 = choose|t: int|
                    0 <= t < rest.len() && (#[trigger] rest[t]).0 == lr[e - 1].0
                        && tile_frame_count(rest[t].1) == lr[e - 1].1.count as int && forall|
                        f: int,
                    |
                        0 <= f < lr[e - 1].1.count ==> tiles_frames_at(rest, 0)[lr[e
                            - 1].1.index - (idx0 + c) + f] == rest[t].1.levels[0][f];
                let t1 = t0 + 1;
                assert(tiles[t1] == rest[t0]);
                assert forall|f: int|
                    #![trigger tiles[t1].1.levels[0][f]]
                    0 <= f < ls[e].1.count implies tiles_frames_at(tiles, 0)[ls[e].1.index - idx0
                    + f] == tiles[t1].1.levels[0][f] by {
                    assert(idx0 + c <= ls[e].1.index as int);
                    assert(tiles_frames_at(rest, 0)[ls[e].1.index - (idx0 + c) + f]
                        == rest[t0].1.levels[0][f]);
                    assert(tiles_frames_at(tiles, 0)[ls[e].1.index - idx0 + f]
                        == tiles_frames_at(rest, 0)[ls[e].1.index - idx0 - c + f]);
                }
            }
        }
    }
}

/// Each entry of the whole lookup names a group and tile of `gs` whose
/// level-0 frames sit exactly at slots `index - idx0 ..` of the global
/// flattened level-0 frame sequence.
proof fn lemma_lookup_groups_frames(gs: Seq<(Seq<char>, GroupModel)>, idx0: int)
    requires
        0 <= idx0,
        idx0 + groups_image_count(gs, 0) <= 0xFFFF,
    ensures
        forall|g: int, e: int|
            #![trigger lookup_groups(gs, idx0)[g].1[e]]
            0 <= g < lookup_groups(gs, idx0).len() && 0 <= e < lookup_groups(gs, idx0)[g].1.len()
                ==> {
                &&& idx0 <= lookup_groups(gs, idx0)[g].1[e].1.index as int
                &&& lookup_groups(gs, idx0)[g].1[e].1.index + lookup_groups(
                    gs,
                    idx0,
                )[g].1[e].1.count <= idx0 + groups_frames_at(gs, 0).len()
                &&& exists|gi: int, ti: int|
                    0 <= gi < gs.len() && 0 <= ti < gs[gi].1.tiles.len() && gs[gi].0
                        == lookup_groups(gs, idx0)[g].0 && (
                    #[trigger] gs[gi].1.tiles[ti]).0 == lookup_groups(gs, idx0)[g].1[e].0
                        && tile_frame_count(gs[gi].1.tiles[ti].1) == lookup_groups(
                        gs,
                        idx0,
                    )[g].1[e].1.count as int && forall|f: int|
                        0 <= f < lookup_groups(gs, idx0)[g].1[e].1.count ==> groups_frames_at(
                            gs,
                            0,
                        )[lookup_groups(gs, idx0)[g].1[e].1.index - idx0 + f]
                            == gs[gi].1.tiles[ti].1.levels[0][f]
            },
    decreases gs.len(),
{
    if gs.len() == 0 {
        return ;
    }
    let lg = lookup_groups(gs, idx0);
    let rest = gs.drop_first();
    let gl = lookup_tiles(gs[0].1.tiles, idx0);
    let consumed = tiles_image_count(gs[0].1.tiles, 0);
    let head = tiles_frames_at(gs[0].1.tiles, 0);
    lemma_groups_image_count_shift(gs, 0);
    lemma_groups_image_count_nonneg(rest, 0);
    lemma_tiles_image_count_nonneg(gs[0].1.tiles, 0);
    lemma_tiles_frames_len(gs[0].1.tiles);
    lemma_groups_frames_len(gs);
    lemma_groups_frames_len(rest);
    assert(head.len() == consumed);
    assert(groups_frames_at(gs, 0) == head + groups_frames_at(rest, 0));
    lemma_lookup_tiles_frames(gs[0].1.tiles, idx0);
    lemma_lookup_groups_frames(rest, idx0 + consumed);
    let lr = lookup_groups(rest, idx0 + consumed);
    assert forall|g: int, e: int|
        #![trigger lg[g].1[e]]
        0 <= g < lg.len() && 0 <= e < lg[g].1.len() implies {
        &&& idx0 <= lg[g].1[e].1.index as int
        &&& lg[g].1[e].1.index + lg[g].1[e].1.count <= idx0 + groups_frames_at(gs, 0).len()
        &&& exists|gi: int, ti: int|
            0 <= gi < gs.len() && 0 <= ti < gs[gi].1.tiles.len() && gs[gi].0 == lg[g].0 && (
            #[trigger] gs[gi].1.tiles[ti]).0 == lg[g].1[e].0 && tile_frame_count(
                gs[gi].1.tiles[ti].1,
            ) == lg[g].1[e].1.count as int && forall|f: int|
                0 <= f < lg[g].1[e].1.count ==> groups_frames_at(gs, 0)[lg[g].1[e].1.index
                    - idx0 + f] == gs[gi].1.tiles[ti].1.levels[0][f]
    } by {
        if gl.len() > 0 && g == 0 {
            assert(lg == seq![(gs[0].0, gl)] + lr);
            assert(lg[0] == (gs[0].0, gl));
            let t0 = choose|t: int|
                0 <= t < gs[0].1.tiles.len() && (#[trigger] gs[0].1.tiles[t]).0 == gl[e].0
                    && tile_frame_count(gs[0].1.tiles[t].1) == gl[e].1.count as int && forall|
                    f: int,
                |
                    0 <= f < gl[e].1.count ==> tiles_frames_at(gs[0].1.tiles, 0)[gl[e].1.index
                        - idx0 + f] == gs[0].1.tiles[t].1.levels[0][f];
            assert forall|f: int|
                #![trigger gs[0].1.tiles[t0].1.levels[0][f]]
                0 <= f < lg[0].1[e].1.count implies groups_frames_at(gs, 0)[lg[0].1[e].1.index
                - idx0 + f] == gs[0].1.tiles[t0].1.levels[0][f] by {
                assert(gl[e].1.index - idx0 + f < head.len());
                assert(groups_frames_at(gs, 0)[gl[e].1.index - idx0 + f] == head[gl[e].1.index
                    - idx0 + f]);
                assert(tiles_frames_at(gs[0].1.tiles, 0)[gl[e].1.index - idx0 + f]
                    == gs[0].1.tiles[t0].1.levels[0][f]);
            }
        } else {
            let gq = if gl.len() > 0 {
                g - 1
            } else {
                g
            };
            if gl.len() > 0 {
                assert(lg == seq![(gs[0].0, gl)] + lr);
                assert(lg[g] == lr[gq]);
            } else {
                assert(lg == lr);
                assert(lg[g] == lr[gq]);
            }
            let (gi0, ti0): (int, int) = choose|gi: int, ti: int|
                0 <= gi < rest.len() && 0 <= ti < rest[gi].1.tiles.len() && rest[gi].0
                    == lr[gq].0 && (#[trigger] rest[gi].1.tiles[ti]).0 == lr[gq].1[e].0
                    && tile_frame_count(rest[gi].1.tiles[ti].1) == lr[gq].1[e].1.count as int
                    && forall|f: int|
                    0 <= f < lr[gq].1[e].1.count ==> groups_frames_at(rest, 0)[lr[gq].1[e].1.index
                        - (idx0 + consumed) + f] == rest[gi].1.tiles[ti].1.levels[0][f];
            let gi1 = gi0 + 1;
            assert(gs[gi1] == rest[gi0]);
            assert forall|f: int|
                #![trigger gs[gi1].1.tiles[ti0].1.levels[0][f]]
                0 <= f < lg[g].1[e].1.count implies groups_frames_at(gs, 0)[lg[g].1[e].1.index
                - idx0 + f] == gs[gi1].1.tiles[ti0].1.levels[0][f] by {
                assert(idx0 + consumed <= lg[g].1[e].1.index as int);
                assert(groups_frames_at(rest, 0)[lr[gq].1[e].1.index - (idx0 + consumed) + f]
                    == rest[gi0].1.tiles[ti0].1.levels[0][f]);
                assert(groups_frames_at(gs, 0)[lg[g].1[e].1.index - idx0 + f]
                    == groups_frames_at(rest, 0)[lg[g].1[e].1.index - idx0 - consumed + f]);
            }
        }
    }
}

/// LAW: the lookup table's slot assignment matches the page packer's
/// frame order. Every entry `{index, count}` of the table names a tile
/// whose level-0 frames are exactly slots `index .. index + count` of
/// the flattened level-0 frame sequence the pages are packed from, so
/// a consumer may address the packed atlas by lookup index alone.
pub proof fn lemma_lookup_matches_packing(m: AtlasModel)
    requires
        model_image_count(m) <= 0xFFFF,
    ensures
        forall|g: int, e: int|
            #![trigger lookup_groups(m.groups, 0)[g].1[e]]
            0 <= g < lookup_groups(m.groups, 0).len() && 0 <= e < lookup_groups(
                m.groups,
                0,
            )[g].1.len() ==> {
                &&& lookup_groups(m.groups, 0)[g].1[e].1.index + lookup_groups(
                    m.groups,
                    0,
                )[g].1[e].1.count <= model_frames_at(m, 0).len()
                &&& exists|gi: int, ti: int|
                    0 <= gi < m.groups.len() && 0 <= ti < m.groups[gi].1.tiles.len()
                        && m.groups[gi].0 == lookup_groups(m.groups, 0)[g].0 && (
                    #[trigger] m.groups[gi].1.tiles[ti]).0 == lookup_groups(m.groups, 0)[g].1[e].0
                        && tile_frame_count(m.groups[gi].1.tiles[ti].1) == lookup_groups(
                        m.groups,
                        0,
                    )[g].1[e].1.count as int && forall|f: int|
                        0 <= f < lookup_groups(m.groups, 0)[g].1[e].1.count ==> model_frames_at(
                            m,
                            0,
                        )[lookup_groups(m.groups, 0)[g].1[e].1.index + f]
                            == m.groups[gi].1.tiles[ti].1.levels[0][f]
            },
{
    lemma_lookup_groups_frames(m.groups, 0);
    let lg = lookup_groups(m.groups, 0);
    assert forall|g: int, e: int|
        #![trigger lg[g].1[e]]
        0 <= g < lg.len() && 0 <= e < lg[g].1.len() implies {
        &&& lg[g].1[e].1.index + lg[g].1[e].1.count <= model_frames_at(m, 0).len()
        &&& exists|gi: int, ti: int|
            0 <= gi < m.groups.len() && 0 <= ti < m.groups[gi].1.tiles.len() && m.groups[gi].0
                == lg[g].0 && (#[trigger] m.groups[gi].1.tiles[ti]).0 == lg[g].1[e].0
                && tile_frame_count(m.groups[gi].1.tiles[ti].1) == lg[g].1[e].1.count as int
                && forall|f: int|
                0 <= f < lg[g].1[e].1.count ==> model_frames_at(m, 0)[lg[g].1[e].1.index + f]
                    == m.groups[gi].1.tiles[ti].1.levels[0][f]
    } by {
        let (gi0, ti0): (int, int) = choose|gi: int, ti: int|
            0 <= gi < m.groups.len() && 0 <= ti < m.groups[gi].1.tiles.len() && m.groups[gi].0
                == lg[g].0 && (#[trigger] m.groups[gi].1.tiles[ti]).0 == lg[g].1[e].0
                && tile_frame_count(m.groups[gi].1.tiles[ti].1) == lg[g].1[e].1.count as int
                && forall|f: int|
                0 <= f < lg[g].1[e].1.count ==> groups_frames_at(m.groups, 0)[lg[g].1[e].1.index
                    - 0 + f] == m.groups[gi].1.tiles[ti].1.levels[0][f];
        assert forall|f: int|
            #![trigger m.groups[gi0].1.tiles[ti0].1.levels[0][f]]
            0 <= f < lg[g].1[e].1.count implies model_frames_at(m, 0)[lg[g].1[e].1.index + f]
            == m.groups[gi0].1.tiles[ti0].1.levels[0][f] by {
            assert(groups_frames_at(m.groups, 0)[lg[g].1[e].1.index - 0 + f]
                == m.groups[gi0].1.tiles[ti0].1.levels[0][f]);
        }
        assert(m.groups[gi0].1.tiles[ti0].0 == lg[g].1[e].0);
    }
}

impl TileAtlasGroup {
    /// The entry stored under `id`, scanning in order, if any.
    pub fn get(&self, id: &str) -> (r: Option<&TileAtlasEntry>)
        ensures
            match r {
                Some(e) => exists|i: int|
                    0 <= i < self@.len() && (#[trigger] self@[i]).0 == id@ && self@[i].1 == *e,
                None => forall|i: int| 0 <= i < self@.len() ==> (#[trigger] self@[i]).0 != id@,
            },
    {
        let mut i: usize = 0;
        while i < self.entries.len()
            invariant
                i <= self.entries@.len(),
                forall|j: int| 0 <= j < i ==> (#[trigger] self@[j]).0 != id@,
            decreases self.entries@.len() - i,
        {
            if str_eq(self.entries[i].id.as_str(), id) {
                proof {
                    assert(self@[i as int].0 == id@);
                }
                return Some(&self.entries[i].entry);
            }
            i = i + 1;
        }
        None
    }

    /// Number of entries in this group.
    pub fn len(&self) -> (r: usize)
        ensures
            r == self@.len(),
    {
        self.entries.len()
    }

    /// Whether this group holds no entries.
    pub fn is_empty(&self) -> (r: bool)
        ensures
            r == (self@.len() == 0),
    {
        self.entries.len() == 0
    }
}

/// The published atlas: an opaque handle to the image the rendering side
/// built from the packed buffer, plus the lookup table from group and
/// tile names to slot ranges.
pub struct TileAtlas {
    image: u64,
    lookup: Vec<TileAtlasNamedGroup>,
}

impl TileAtlas {
    /// The lookup table, as the association-sequence view.
    pub closed spec fn spec_lookup(self) -> Seq<
        (Seq<char>, Seq<(Seq<char>, TileAtlasEntry)>),
    > {
        lookup_view(self.lookup@)
    }

    /// The image handle this atlas refers to.
    pub closed spec fn spec_image(self) -> u64 {
        self.image
    }

    /// Bundles an image handle with its lookup table.
    pub fn new(image: u64, lookup: Vec<TileAtlasNamedGroup>) -> (r: Self)
        ensures
            r.spec_image() == image,
            r.spec_lookup() == lookup_view(lookup@),
    {
        TileAtlas { image, lookup }
    }

    /// The image handle.
    pub fn image(&self) -> (r: u64)
        ensures
            r == self.spec_image(),
    {
        self.image
    }

    /// The group of lookup entries stored under `group`, if any.
    pub fn get_group(&self, group: &str) -> (r: Option<&TileAtlasGroup>)
        ensures
            match r {
                Some(g) => exists|i: int|
                    0 <= i < self.spec_lookup().len() && (#[trigger] self.spec_lookup()[i]).0
                        == group@ && self.spec_lookup()[i].1 == g@,
                None => forall|i: int|
                    0 <= i < self.spec_lookup().len() ==> (#[trigger] self.spec_lookup()[i]).0
                        != group@,
            },
    {
        let mut i: usize = 0;
        while i < self.lookup.len()
            invariant
                i <= self.lookup@.len(),
                forall|j: int|
                    0 <= j < i ==> (#[trigger] self.spec_lookup()[j]).0 != group@,
            decreases self.lookup@.len() - i,
        {
            if str_eq(self.lookup[i].id.as_str(), group) {
                proof {
                    assert(self.spec_lookup()[i as int].0 == group@);
                }
                return Some(&self.lookup[i].group);
            }
            i = i + 1;
        }
        None
    }

    /// The lookup entry stored under `group` / `id`, if any.
    pub fn get_entry(&self, group: &str, id: &str) -> (r: Option<&TileAtlasEntry>)
        ensures
            match r {
                Some(e) => exists|i: int, j: int|
                    0 <= i < self.spec_lookup().len() && (#[trigger] self.spec_lookup()[i]).0
                        == group@ && 0 <= j < self.spec_lookup()[i].1.len() && (
                    #[trigger] self.spec_lookup()[i].1[j]).0 == id@
                        && self.spec_lookup()[i].1[j].1 == *e,
                None => (forall|i: int|
                    0 <= i < self.spec_lookup().len() ==> (#[trigger] self.spec_lookup()[i]).0
                        != group@) || (exists|i: int|
                    0 <= i < self.spec_lookup().len() && (#[trigger] self.spec_lookup()[i]).0
                        == group@ && forall|j: int|
                        0 <= j < self.spec_lookup()[i].1.len() ==> (
                        #[trigger] self.spec_lookup()[i].1[j]).0 != id@),
            },
    {
        match self.get_group(group) {
            Some(g) => g.get(id),
            None => None,
        }
    }
}

} // verus!
