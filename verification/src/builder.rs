use vstd::prelude::*;
use crate::mip::TILE_SIZE_MAX;
use crate::mip::is_pow2;
use crate::mip::spec_mip_levels_max;
use crate::mip::spec_mip_level_size;
use crate::mip::spec_mip_level_data_len;
use crate::mip::lemma_trailing_zeros_le_32;
use crate::mip::lemma_mip_level_size_le;
use crate::mip::mip_levels_max;
use crate::mip::mip_level_size;
use crate::mip::mip_level_data_len;
use crate::model::AtlasModel;
use crate::model::GroupModel;
use crate::model::TileModel;
use crate::model::has_key;
use crate::model::key_idx;
use crate::model::key_get;
use crate::model::keys_unique;
use crate::model::lemma_key_at;
use crate::copy::extract_block;
use crate::copy::extract_frame;
use crate::settings::TileSetSettings;
use crate::model::lemma_remove_insert;
use crate::model::lemma_model_insert_wf;
use crate::model::model_insert;
use crate::model::empty_tile;
use crate::model::upsert;
use crate::model::upsert_all;
use crate::model::remove_key;
use crate::model::lemma_upsert;
use crate::model::lemma_remove_key;
use crate::model::model_merge;
use crate::model::model_complete;
use crate::model::tile_complete;
use crate::model::tile_common_from;
use crate::model::tile_common_max;
use crate::model::tiles_common_min;
use crate::model::groups_common_min;
use crate::model::common_max_sentinel;
use crate::model::model_common_max;
use crate::model::tile_frame_count;
use crate::model::tiles_image_count;
use crate::model::groups_image_count;
use crate::model::model_image_count;
use crate::model::model_page_count;
use crate::model::lemma_tiles_image_count_nonneg;
use crate::model::lemma_groups_image_count_nonneg;
use crate::model::lemma_tiles_common_min_le;
use crate::model::lemma_groups_common_min_le;
use crate::model::lemma_model_common_max_le;
use crate::mip::lemma_data_len_bounds;
use crate::lookup::TileAtlasEntry;
use crate::lookup::TileAtlasNamedEntry;
use crate::lookup::TileAtlasNamedGroup;
use crate::lookup::TileAtlasGroup;
use crate::lookup::named_entries_view;
use crate::lookup::lookup_view;
use crate::lookup::lookup_tiles;
use crate::lookup::lookup_groups;
use crate::codec::enc_atlas;
use crate::codec::enc_groups;
use crate::codec::enc_tiles;
use crate::codec::enc_levels;
use crate::codec::enc_frames;
use crate::codec::enc_blob;
use crate::codec::enc_str;
use crate::codec::enc_u32;
use crate::codec::enc_sizes_ok;
use crate::codec::dec_atlas;
use crate::codec::push_u32;
use crate::codec::push_blob;
use crate::codec::push_str;
use crate::codec::read_u32;
use crate::codec::read_groups;
use crate::codec::check_atlas_wf;
use crate::codec::spec_brotli_decode;
use crate::codec::brotli_compress;
use crate::codec::brotli_decompress;
use crate::codec::lemma_codec_round_trip;
use crate::codec::TileAtlasBuilderReadError;
use crate::model::model_remove;
use crate::model::tile_is_empty;
use crate::model::lemma_model_merge_wf;
use crate::model::lemma_model_remove_wf;
use crate::model::model_remove_level;
use crate::model::model_remove_levels;
use crate::model::model_update_tile_gc;
use crate::model::clear_levels;
use crate::model::lemma_clear_levels_wf;
use crate::model::lemma_model_update_tile_gc_wf;
use crate::model::model_limit_levels;
use crate::model::lemma_model_limit_levels_wf;
use crate::downsample::DownsampleAlgorithm;
use crate::downsample::ds_levels;
use crate::downsample::ds_seq_step;
use crate::downsample::model_downsample;
use crate::downsample::lemma_ds_levels_wf;
use crate::downsample::lemma_ds_levels_frame;
use crate::downsample::lemma_mip_size_even;
use crate::downsample::lemma_model_downsample_wf;
use crate::downsample::lemma_ds_seq_step_index;
use crate::downsample::lemma_mip_size_pos;
use vstd::arithmetic::div_mod::lemma_multiply_divide_lt;
use crate::model::model_frames_at;
use crate::model::tiles_frames_at;
use crate::model::groups_frames_at;
use crate::model::lemma_model_frames_at_wf;
use crate::text::str_eq;

verus! {

/// The per-frame views of a list of raw frame buffers.
pub open spec fn deep_frames(s: Seq<Vec<u8>>) -> Seq<Seq<u8>> {
    Seq::new(s.len(), |f: int| s[f]@)
}

/// The frame list cut out of `src` by a list of pixel offsets: one
/// `edge`-sized square block per offset, in order.
pub open spec fn block_frames(
    src: Seq<u8>,
    src_width: u32,
    offsets: Seq<(u32, u32)>,
    edge: u32,
) -> Seq<Seq<u8>> {
    Seq::new(
        offsets.len(),
        |k: int| extract_block(src, src_width, offsets[k].0, offsets[k].1, edge),
    )
}

/// The row-major uniform grid of pixel offsets described by `settings`
/// for tiles of edge length `edge`: cell `i` lies at column `i % count_x`
/// and row `i / count_x`.
pub open spec fn grid_offsets(settings: TileSetSettings, edge: u32) -> Seq<(u32, u32)> {
    Seq::new(
        (settings.count@[0] * settings.count@[1]) as nat,
        |i: int|
            (
                (settings.offset@[0] + (i % (settings.count@[0] as int)) * (settings.spacing@[0]
                    + edge)) as u32,
                (settings.offset@[1] + (i / (settings.count@[0] as int)) * (settings.spacing@[1]
                    + edge)) as u32,
            ),
    )
}

/// One mip level of a tile: the ordered list of its animation frames,
/// each a raw RGBA8 byte buffer.
pub struct TileAtlasBuilderImageSequence {
    pub data: Vec<Vec<u8>>,
}

/// One tile: an image sequence per mip level.
pub struct TileAtlasBuilderSet {
    pub levels: Vec<TileAtlasBuilderImageSequence>,
}

/// A tile and its name inside a group.
pub struct TileAtlasBuilderTileEntry {
    pub id: String,
    pub set: TileAtlasBuilderSet,
}

/// A named namespace of tiles, in insertion order.
pub struct TileAtlasBuilderGroup {
    pub tile_sets: Vec<TileAtlasBuilderTileEntry>,
}

/// A group and its name inside the builder.
pub struct TileAtlasBuilderGroupEntry {
    pub id: String,
    pub group: TileAtlasBuilderGroup,
}

/// Builds a tile atlas: tiles are inserted per group and name, organised
/// as a mip pyramid, and later packed into pages. Groups and tiles keep
/// their insertion order, so every derived projection is reproducible.
pub struct TileAtlasBuilder {
    size: u32,
    groups: Vec<TileAtlasBuilderGroupEntry>,
}

impl View for TileAtlasBuilderImageSequence {
    type V = Seq<Seq<u8>>;

    open spec fn view(&self) -> Seq<Seq<u8>> {
        Seq::new(self.data@.len(), |f: int| self.data@[f]@)
    }
}

impl View for TileAtlasBuilderSet {
    type V = TileModel;

    open spec fn view(&self) -> TileModel {
        TileModel { levels: Seq::new(self.levels@.len(), |l: int| self.levels@[l]@) }
    }
}

/// The association-sequence view of a list of tile entries.
pub open spec fn tile_entries_view(s: Seq<TileAtlasBuilderTileEntry>) -> Seq<
    (Seq<char>, TileModel),
> {
    Seq::new(s.len(), |t: int| (s[t].id@, s[t].set@))
}

/// The association-sequence view of a list of group entries.
pub open spec fn group_entries_view(s: Seq<TileAtlasBuilderGroupEntry>) -> Seq<
    (Seq<char>, GroupModel),
> {
    Seq::new(s.len(), |g: int| (s[g].id@, s[g].group@))
}

impl View for TileAtlasBuilderGroup {
    type V = GroupModel;

    open spec fn view(&self) -> GroupModel {
        GroupModel { tiles: tile_entries_view(self.tile_sets@) }
    }
}

impl View for TileAtlasBuilder {
    type V = AtlasModel;

    closed spec fn view(&self) -> AtlasModel {
        AtlasModel { size: self.size, groups: group_entries_view(self.groups@) }
    }
}

impl TileAtlasBuilderSet {
    /// A tile with `level_count` empty image sequences.
    pub fn new(level_count: u32) -> (r: Self)
        ensures
            r@.levels =~= Seq::new(level_count as nat, |l: int| Seq::<Seq<u8>>::empty()),
    {
        let mut levels: Vec<TileAtlasBuilderImageSequence> = Vec::new();
        let mut i: u32 = 0;
        while i < level_count
            invariant
                i <= level_count,
                levels@.len() == i,
                forall|l: int| 0 <= l < i ==> (#[trigger] levels@[l])@.len() == 0,
            decreases level_count - i,
        {
            levels.push(TileAtlasBuilderImageSequence { data: Vec::new() });
            i = i + 1;
        }
        let r = TileAtlasBuilderSet { levels };
        proof {
            assert forall|l: int| 0 <= l < level_count implies r@.levels[l] =~= Seq::<
                Seq<u8>,
            >::empty() by {}
        }
        r
    }
}

/// Index of the entry named `id` among the group entries, scanning in
/// order; `None` when no entry has that name.
fn find_group_entry(groups: &Vec<TileAtlasBuilderGroupEntry>, id: &str) -> (r: Option<usize>)
    ensures
        match r {
            Some(i) => i < groups@.len() && groups@[i as int].id@ == id@,
            None => forall|j: int| 0 <= j < groups@.len() ==> (#[trigger] groups@[j]).id@ != id@,
        },
{
    let mut i: usize = 0;
    while i < groups.len()
        invariant
            i <= groups@.len(),
            forall|j: int| 0 <= j < i ==> (#[trigger] groups@[j]).id@ != id@,
        decreases groups@.len() - i,
    {
        if str_eq(groups[i].id.as_str(), id) {
            return Some(i);
        }
        i = i + 1;
    }
    None
}

/// Index of the entry named `id` among a group's tile entries.
fn find_tile_entry(tiles: &Vec<TileAtlasBuilderTileEntry>, id: &str) -> (r: Option<usize>)
    ensures
        match r {
            Some(i) => i < tiles@.len() && tiles@[i as int].id@ == id@,
            None => forall|j: int| 0 <= j < tiles@.len() ==> (#[trigger] tiles@[j]).id@ != id@,
        },
{
    let mut i: usize = 0;
    while i < tiles.len()
        invariant
            i <= tiles@.len(),
            forall|j: int| 0 <= j < i ==> (#[trigger] tiles@[j]).id@ != id@,
        decreases tiles@.len() - i,
    {
        if str_eq(tiles[i].id.as_str(), id) {
            return Some(i);
        }
        i = i + 1;
    }
    None
}

impl TileAtlasBuilder {
    /// A builder for base tiles of `size` by `size` pixels, holding no
    /// groups yet. The size must be a power of two, small enough that a
    /// base frame's byte length fits in `u32`.
    pub fn new(size: u32) -> (r: Self)
        requires
            is_pow2(size as nat),
            size <= TILE_SIZE_MAX,
        ensures
            r@.size == size,
            r@.groups =~= Seq::<(Seq<char>, GroupModel)>::empty(),
            r@.wf(),
    {
        TileAtlasBuilder { size, groups: Vec::new() }
    }

    /// The group with the given `group_id`, if it exists.
    pub fn get_group(&self, group_id: &str) -> (r: Option<&TileAtlasBuilderGroup>)
        requires
            self@.wf(),
        ensures
            match r {
                Some(g) => self@.get_group(group_id@) == Some(g@),
                None => self@.get_group(group_id@) is None,
            },
    {
        match find_group_entry(&self.groups, group_id) {
            Some(i) => {
                proof {
                    lemma_key_at(self@.groups, group_id@, i as int);
                }
                Some(&self.groups[i].group)
            },
            None => {
                proof {
                    if has_key(self@.groups, group_id@) {
                        let j = key_idx(self@.groups, group_id@);
                        assert(self@.groups[j].0 == group_id@);
                        assert(self.groups@[j].id@ == group_id@);
                    }
                }
                None
            },
        }
    }

    /// The tile with the given `tile_id` in the group `group_id`, if it
    /// exists.
    pub fn get_tile(&self, group_id: &str, tile_id: &str) -> (r: Option<&TileAtlasBuilderSet>)
        requires
            self@.wf(),
        ensures
            match r {
                Some(t) => self@.get_tile(group_id@, tile_id@) == Some(t@),
                None => self@.get_tile(group_id@, tile_id@) is None,
            },
    {
        let group = match self.get_group(group_id) {
            Some(g) => g,
            None => {
                return None;
            },
        };
        proof {
            assert(self@.get_group(group_id@) == Some(group@));
            assert(group@.wf(self@.size));
        }
        match find_tile_entry(&group.tile_sets, tile_id) {
            Some(i) => {
                proof {
                    lemma_key_at(group@.tiles, tile_id@, i as int);
                }
                Some(&group.tile_sets[i].set)
            },
            None => {
                proof {
                    if has_key(group@.tiles, tile_id@) {
                        let j = key_idx(group@.tiles, tile_id@);
                        assert(group@.tiles[j].0 == tile_id@);
                        assert(group.tile_sets@[j].id@ == tile_id@);
                    }
                }
                None
            },
        }
    }

    /// Replaces the whole frame sequence at `level` of the tile
    /// `group_id` / `tile_id` with `frames`, creating the group and the
    /// tile on first use. No other level, tile or group changes.
    fn set_tile_frames(&mut self, group_id: &str, tile_id: &str, level: u32, frames: Vec<Vec<u8>>)
        requires
            old(self)@.wf(),
            level < spec_mip_levels_max(old(self)@.size),
            forall|f: int|
                0 <= f < frames@.len() ==> (#[trigger] frames@[f])@.len()
                    == spec_mip_level_data_len(old(self)@.size, level),
        ensures
            final(self)@ == model_insert(
                old(self)@,
                group_id@,
                tile_id@,
                level,
                deep_frames(frames@),
            ),
            final(self)@.wf(),
    {
        let ghost m0 = self@;
        let ghost fseq = deep_frames(frames@);
        let level_count = mip_levels_max(self.size);
        proof {
            lemma_trailing_zeros_le_32(self.size);
        }
        let ghost gmodel = match m0.get_group(group_id@) {
            Some(g) => g,
            None => GroupModel { tiles: Seq::empty() },
        };
        let gi: usize;
        match find_group_entry(&self.groups, group_id) {
            Some(i) => {
                gi = i;
                proof {
                    lemma_key_at(m0.groups, group_id@, gi as int);
                }
            },
            None => {
                gi = self.groups.len();
                proof {
                    if has_key(m0.groups, group_id@) {
                        let j = key_idx(m0.groups, group_id@);
                        assert(self.groups@[j].id@ == group_id@);
                    }
                }
                self.groups.push(
                    TileAtlasBuilderGroupEntry {
                        id: group_id.to_owned(),
                        group: TileAtlasBuilderGroup { tile_sets: Vec::new() },
                    },
                );
            },
        }
        let ghost gvec1 = self.groups@;
        proof {
            assert(gvec1[gi as int].id@ == group_id@);
            assert(gvec1[gi as int].group@ =~~= gmodel);
        }
        let mut gentry = self.groups.remove(gi);
        let ghost tmodel = if has_key(gmodel.tiles, tile_id@) {
            key_get(gmodel.tiles, tile_id@)
        } else {
            empty_tile(m0.size)
        };
        let ti: usize;
        match find_tile_entry(&gentry.group.tile_sets, tile_id) {
            Some(i) => {
                ti = i;
                proof {
                    assert(gmodel.wf(m0.size));
                    lemma_key_at(gmodel.tiles, tile_id@, ti as int);
                }
            },
            None => {
                ti = gentry.group.tile_sets.len();
                proof {
                    assert(gmodel.wf(m0.size));
                    if has_key(gmodel.tiles, tile_id@) {
                        let j = key_idx(gmodel.tiles, tile_id@);
                        assert(gentry.group.tile_sets@[j].id@ == tile_id@);
                    }
                }
                gentry.group.tile_sets.push(
                    TileAtlasBuilderTileEntry {
                        id: tile_id.to_owned(),
                        set: TileAtlasBuilderSet::new(level_count),
                    },
                );
            },
        }
        let ghost tvec1 = gentry.group.tile_sets@;
        proof {
            assert(tvec1[ti as int].id@ == tile_id@);
            assert(tvec1[ti as int].set@ =~~= tmodel);
            assert(tmodel.wf(m0.size));
        }
        let mut tentry = gentry.group.tile_sets.remove(ti);
        let mut sequence = tentry.set.levels.remove(level as usize);
        sequence.data = frames;
        tentry.set.levels.insert(level as usize, sequence);
        gentry.group.tile_sets.insert(ti, tentry);
        self.groups.insert(gi, gentry);
        proof {
            let m2 = model_insert(m0, group_id@, tile_id@, level, fseq);
            let t2 = TileModel { levels: tmodel.levels.update(level as int, fseq) };
            let g2 = GroupModel { tiles: upsert(gmodel.tiles, tile_id@, t2) };
            lemma_remove_insert(
                Seq::new(tvec1.len(), |t: int| tvec1[t].id@),
                ti as int,
                tile_id@,
            );
            assert(sequence@ =~= fseq);
            assert(tentry.set@ =~~= t2) by {
                lemma_remove_insert(tmodel.levels, level as int, fseq);
                assert(tentry.set@.levels =~~= tmodel.levels.remove(level as int).insert(
                    level as int,
                    fseq,
                ));
            }
            assert(gentry.group@ =~~= g2) by {
                if has_key(gmodel.tiles, tile_id@) {
                    assert(key_idx(gmodel.tiles, tile_id@) == ti as int);
                    assert(gentry.group@.tiles =~~= gmodel.tiles.update(
                        ti as int,
                        (tile_id@, t2),
                    ));
                } else {
                    assert(gentry.group@.tiles =~~= gmodel.tiles.push((tile_id@, t2)));
                }
            }
            assert(self@ =~~= m2) by {
                if has_key(m0.groups, group_id@) {
                    assert(key_idx(m0.groups, group_id@) == gi as int);
                    assert(self@.groups =~~= m0.groups.update(gi as int, (group_id@, g2)));
                } else {
                    assert(self@.groups =~~= m0.groups.push((group_id@, g2)));
                }
            }
            lemma_model_insert_wf(m0, group_id@, tile_id@, level, fseq);
        }
    }

    /// Replaces the frame sequence at mip `level` of the tile
    /// `group_id` / `tile_id` with one square block per offset, each cut
    /// out of `src`: block `k` is taken at pixel offset `src_offsets[k]`,
    /// where a row of `src` is `src_width` pixels. Other levels, tiles
    /// and groups are untouched; a missing group or tile is created.
    /// Every block must lie fully inside `src`.
    pub fn insert(
        &mut self,
        group_id: &str,
        tile_id: &str,
        level: u32,
        src: &Vec<u8>,
        src_width: u32,
        src_offsets: &Vec<(u32, u32)>,
    )
        requires
            old(self)@.wf(),
            level < spec_mip_levels_max(old(self)@.size),
            forall|k: int|
                0 <= k < src_offsets@.len() ==> (#[trigger] src_offsets@[k]).0
                    + spec_mip_level_size(old(self)@.size, level) <= src_width,
            forall|k: int|
                0 <= k < src_offsets@.len() ==> (#[trigger] src_offsets@[k]).1
                    + spec_mip_level_size(old(self)@.size, level) <= u32::MAX,
            forall|k: int|
                0 <= k < src_offsets@.len() ==> 4 * (((#[trigger] src_offsets@[k]).1
                    + spec_mip_level_size(old(self)@.size, level)) * src_width) <= src@.len(),
        ensures
            final(self)@ == model_insert(
                old(self)@,
                group_id@,
                tile_id@,
                level,
                block_frames(
                    src@,
                    src_width,
                    src_offsets@,
                    spec_mip_level_size(old(self)@.size, level),
                ),
            ),
            final(self)@.wf(),
    {
        let edge = mip_level_size(self.size, level);
        proof {
            lemma_mip_level_size_le(self@.size, level);
            assert(edge <= TILE_SIZE_MAX ==> edge * edge * 4 <= u32::MAX) by (nonlinear_arith);
        }
        let ghost blocks = block_frames(src@, src_width, src_offsets@, edge);
        let mut frames: Vec<Vec<u8>> = Vec::new();
        let mut k: usize = 0;
        while k < src_offsets.len()
            invariant
                self@ == old(self)@,
                edge == spec_mip_level_size(old(self)@.size, level),
                edge * edge * 4 <= u32::MAX,
                blocks == block_frames(src@, src_width, src_offsets@, edge),
                forall|k2: int|
                    0 <= k2 < src_offsets@.len() ==> (#[trigger] src_offsets@[k2]).0 + edge
                        <= src_width,
                forall|k2: int|
                    0 <= k2 < src_offsets@.len() ==> (#[trigger] src_offsets@[k2]).1 + edge
                        <= u32::MAX,
                forall|k2: int|
                    0 <= k2 < src_offsets@.len() ==> 4 * (((#[trigger] src_offsets@[k2]).1 + edge)
                        * src_width) <= src@.len(),
                k <= src_offsets@.len(),
                frames@.len() == k,
                forall|f: int| 0 <= f < k ==> (#[trigger] frames@[f])@ == blocks[f],
            decreases src_offsets@.len() - k,
        {
            let off = src_offsets[k];
            let frame = extract_frame(src, src_width, off.0, off.1, edge);
            frames.push(frame);
            k = k + 1;
        }
        proof {
            assert(deep_frames(frames@) =~= blocks);
            assert forall|f: int| 0 <= f < deep_frames(frames@).len() implies (
            #[trigger] deep_frames(frames@)[f]).len() == spec_mip_level_data_len(
                old(self)@.size,
                level,
            ) by {
                assert(blocks[f].len() == edge * edge * 4);
            }
        }
        self.set_tile_frames(group_id, tile_id, level, frames);
    }

    /// Inserts a single square block cut out of `src` at `src_offset` as
    /// a one-frame sequence at mip `level` of `group_id` / `tile_id`.
    pub fn insert_single(
        &mut self,
        group_id: &str,
        tile_id: &str,
        level: u32,
        src: &Vec<u8>,
        src_width: u32,
        src_offset: (u32, u32),
    )
        requires
            old(self)@.wf(),
            level < spec_mip_levels_max(old(self)@.size),
            src_offset.0 + spec_mip_level_size(old(self)@.size, level) <= src_width,
            src_offset.1 + spec_mip_level_size(old(self)@.size, level) <= u32::MAX,
            4 * ((src_offset.1 + spec_mip_level_size(old(self)@.size, level)) * src_width)
                <= src@.len(),
        ensures
            final(self)@ == model_insert(
                old(self)@,
                group_id@,
                tile_id@,
                level,
                block_frames(
                    src@,
                    src_width,
                    seq![src_offset],
                    spec_mip_level_size(old(self)@.size, level),
                ),
            ),
            final(self)@.wf(),
    {
        let mut offsets: Vec<(u32, u32)> = Vec::new();
        offsets.push(src_offset);
        proof {
            assert(offsets@ =~= seq![src_offset]);
        }
        self.insert(group_id, tile_id, level, src, src_width, &offsets);
    }

    /// Inserts the uniform grid of blocks described by `src_settings`,
    /// one frame per grid cell in row-major order, as the frame sequence
    /// at mip `level` of `group_id` / `tile_id`. The whole grid must lie
    /// inside `src`.
    pub fn insert_tileset(
        &mut self,
        group_id: &str,
        tile_id: &str,
        level: u32,
        src: &Vec<u8>,
        src_width: u32,
        src_settings: TileSetSettings,
    )
        requires
            old(self)@.wf(),
            level < spec_mip_levels_max(old(self)@.size),
            src_settings.count@[0] >= 1,
            src_settings.count@[1] >= 1,
            src_settings.count@[0] * src_settings.count@[1] <= u32::MAX,
            src_settings.spacing@[0] + spec_mip_level_size(old(self)@.size, level) <= u32::MAX,
            src_settings.spacing@[1] + spec_mip_level_size(old(self)@.size, level) <= u32::MAX,
            src_settings.offset@[0] + (src_settings.count@[0] - 1) * (src_settings.spacing@[0]
                + spec_mip_level_size(old(self)@.size, level)) + spec_mip_level_size(
                old(self)@.size,
                level,
            ) <= src_width,
            src_settings.offset@[1] + (src_settings.count@[1] - 1) * (src_settings.spacing@[1]
                + spec_mip_level_size(old(self)@.size, level)) + spec_mip_level_size(
                old(self)@.size,
                level,
            ) <= u32::MAX,
            4 * ((src_settings.offset@[1] + (src_settings.count@[1] - 1)
                * (src_settings.spacing@[1] + spec_mip_level_size(old(self)@.size, level))
                + spec_mip_level_size(old(self)@.size, level)) * src_width) <= src@.len(),
        ensures
            final(self)@ == model_insert(
                old(self)@,
                group_id@,
                tile_id@,
                level,
                block_frames(
                    src@,
                    src_width,
                    grid_offsets(src_settings, spec_mip_level_size(old(self)@.size, level)),
                    spec_mip_level_size(old(self)@.size, level),
                ),
            ),
            final(self)@.wf(),
    {
        let edge = mip_level_size(self.size, level);
        let count_x = src_settings.count[0];
        let count_y = src_settings.count[1];
        let total = count_x * count_y;
        let step_x = src_settings.spacing[0] + edge;
        let step_y = src_settings.spacing[1] + edge;
        let ghost goffs = grid_offsets(src_settings, edge);
        let ghost ymax = (src_settings.offset@[1] + (src_settings.count@[1] - 1)
            * (src_settings.spacing@[1] + edge) + edge) as int;
        let mut offsets: Vec<(u32, u32)> = Vec::new();
        let mut i: u32 = 0;
        while i < total
            invariant
                self@ == old(self)@,
                edge == spec_mip_level_size(old(self)@.size, level),
                count_x == src_settings.count@[0],
                count_y == src_settings.count@[1],
                count_x >= 1,
                count_y >= 1,
                total == count_x * count_y,
                step_x == src_settings.spacing@[0] + edge,
                step_y == src_settings.spacing@[1] + edge,
                src_settings.offset@[0] + (count_x - 1) * step_x + edge <= src_width,
                src_settings.offset@[1] + (count_y - 1) * step_y + edge <= u32::MAX,
                4 * ((src_settings.offset@[1] + (count_y - 1) * step_y + edge) * src_width)
                    <= src@.len(),
                goffs == grid_offsets(src_settings, edge),
                i <= total,
                offsets@.len() == i,
                forall|k: int| 0 <= k < i ==> (#[trigger] offsets@[k]) == goffs[k],
                forall|k: int|
                    0 <= k < i ==> (#[trigger] offsets@[k]).0 + edge <= src_width && offsets@[k].1
                        + edge <= u32::MAX && 4 * ((offsets@[k].1 + edge) * src_width)
                        <= src@.len(),
            decreases total - i,
        {
            let x = i % count_x;
            let y = i / count_x;
            proof {
                assert(x <= count_x - 1 && y <= count_y - 1) by (nonlinear_arith)
                    requires
                        x == i % count_x,
                        y == i / count_x,
                        count_x >= 1,
                        count_y >= 1,
                        i < count_x * count_y,
                ;
                assert(x * step_x <= (count_x - 1) * step_x) by (nonlinear_arith)
                    requires
                        0 <= x <= count_x - 1,
                        0 <= step_x,
                ;
                assert(y * step_y <= (count_y - 1) * step_y) by (nonlinear_arith)
                    requires
                        0 <= y <= count_y - 1,
                        0 <= step_y,
                ;
                assert((src_settings.offset@[1] + y * step_y + edge) * src_width
                    <= (src_settings.offset@[1] + (count_y - 1) * step_y + edge) * src_width)
                    by (nonlinear_arith)
                    requires
                        src_settings.offset@[1] + y * step_y <= src_settings.offset@[1] + (count_y
                            - 1) * step_y,
                        0 <= src_width,
                        0 <= edge,
                ;
            }
            let ox = src_settings.offset[0] + x * step_x;
            let oy = src_settings.offset[1] + y * step_y;
            offsets.push((ox, oy));
            i = i + 1;
        }
        proof {
            assert(offsets@ =~= goffs);
        }
        self.insert(group_id, tile_id, level, src, src_width, &offsets);
    }

    /// The maximum number of mip levels for this builder's size, the base
    /// level included.
    pub fn mip_levels_max(&self) -> (r: u32)
        ensures
            r == spec_mip_levels_max(self@.size),
    {
        mip_levels_max(self.size)
    }

    /// The edge length of a tile at the given mip level.
    pub fn mip_level_size(&self, level: u32) -> (r: u32)
        ensures
            r == spec_mip_level_size(self@.size, level),
    {
        mip_level_size(self.size, level)
    }

    /// The byte length of one frame at the given mip level.
    pub fn mip_level_data_len(&self, level: u32) -> (r: u32)
        requires
            self@.wf(),
        ensures
            r == spec_mip_level_data_len(self@.size, level),
    {
        mip_level_data_len(self.size, level)
    }
}

impl TileAtlasBuilder {
    /// Clears every tile's frame sequences at and above `max_level`,
    /// keeping all groups and tiles in place. Used to cap memory before
    /// serialization.
    pub fn limit_levels(&mut self, max_level: u32)
        requires
            old(self)@.wf(),
            max_level <= spec_mip_levels_max(old(self)@.size),
        ensures
            final(self)@ == model_limit_levels(old(self)@, max_level),
            final(self)@.wf(),
    {
        let ghost m0 = self@;
        proof {
            lemma_model_limit_levels_wf(m0, max_level);
            lemma_trailing_zeros_le_32(self.size);
        }
        let ghost target = model_limit_levels(m0, max_level);
        let glen = self.groups.len();
        let mut gi: usize = 0;
        while gi < glen
            invariant
                m0.wf(),
                target == model_limit_levels(m0, max_level),
                max_level <= spec_mip_levels_max(m0.size),
                glen == self.groups@.len(),
                self@.groups.len() == m0.groups.len(),
                gi <= glen,
                self@.size == m0.size,
                forall|g: int| 0 <= g < gi ==> self@.groups[g] == target.groups[g],
                forall|g: int| gi <= g < glen ==> self@.groups[g] == m0.groups[g],
            decreases glen - gi,
        {
            let ghost gvec0 = self.groups@;
            let mut gentry = self.groups.remove(gi);
            let ghost g0 = m0.groups[gi as int].1;
            let ghost tg = target.groups[gi as int].1;
            proof {
                assert(gentry.group@ == g0);
                assert(g0.wf(m0.size));
            }
            let tlen = gentry.group.tile_sets.len();
            let mut ti: usize = 0;
            while ti < tlen
                invariant
                    m0.wf(),
                    g0.wf(m0.size),
                    g0 == m0.groups[gi as int].1,
                    target == model_limit_levels(m0, max_level),
                    0 <= gi < m0.groups.len(),
                    tg == target.groups[gi as int].1,
                    max_level <= spec_mip_levels_max(m0.size),
                    tlen == gentry.group.tile_sets@.len(),
                    tlen == g0.tiles.len(),
                    ti <= tlen,
                    gentry.id@ == m0.groups[gi as int].0,
                    forall|t: int| 0 <= t < ti ==> gentry.group@.tiles[t] == tg.tiles[t],
                    forall|t: int| ti <= t < tlen ==> gentry.group@.tiles[t] == g0.tiles[t],
                decreases tlen - ti,
            {
                let ghost tvecb = gentry.group.tile_sets@;
                let mut tentry = gentry.group.tile_sets.remove(ti);
                let ghost t0 = g0.tiles[ti as int].1;
                proof {
                    assert(tentry.set@ == t0);
                    assert(t0.wf(m0.size));
                }
                let llen = tentry.set.levels.len();
                let mut l: usize = max_level as usize;
                while l < llen
                    invariant
                        llen == t0.levels.len(),
                        max_level <= l,
                        tentry.set@.levels.len() == llen,
                        tentry.id@ == g0.tiles[ti as int].0,
                        forall|j: int|
                            0 <= j < llen && !(max_level <= j < l) ==> tentry.set@.levels[j]
                                == t0.levels[j],
                        forall|j: int|
                            max_level <= j < l ==> (#[trigger] tentry.set@.levels[j]).len() == 0,
                    decreases llen - l,
                {
                    let ghost before = tentry.set@.levels;
                    tentry.set.levels[l] = TileAtlasBuilderImageSequence { data: Vec::new() };
                    proof {
                        assert forall|j: int| 0 <= j < llen && j != l implies tentry.set@.levels[j]
                            == before[j] by {
                            assert(tentry.set.levels@[j] == tentry.set.levels@.update(
                                l as int,
                                tentry.set.levels@[l as int],
                            )[j]);
                        }
                        assert(tentry.set@.levels[l as int].len() == 0);
                        assert forall|j: int|
                            max_level <= j < l + 1 implies (
                        #[trigger] tentry.set@.levels[j]).len() == 0 by {
                            if j < l {
                                assert(before[j].len() == 0);
                                assert(tentry.set@.levels[j] == before[j]);
                            }
                        }
                    }
                    l = l + 1;
                }
                proof {
                    assert(tentry.set@ =~~= clear_levels(
                        t0,
                        max_level as int,
                        t0.levels.len() as int,
                    ));
                }
                let ghost tentry_back = tentry;
                gentry.group.tile_sets.insert(ti, tentry);
                proof {
                    lemma_remove_insert(tvecb, ti as int, tentry_back);
                    assert(gentry.group.tile_sets@ =~= tvecb.update(ti as int, tentry_back));
                    assert(gentry.group@.tiles[ti as int] == tg.tiles[ti as int]);
                    assert forall|t: int| 0 <= t < ti + 1 implies gentry.group@.tiles[t]
                        == tg.tiles[t] by {}
                }
                ti = ti + 1;
            }
            proof {
                assert(gentry.group@ =~~= tg);
            }
            let ghost gentry_back = gentry;
            self.groups.insert(gi, gentry);
            proof {
                lemma_remove_insert(gvec0, gi as int, gentry_back);
                assert(self.groups@ =~= gvec0.update(gi as int, gentry_back));
                assert(self@.groups[gi as int] == target.groups[gi as int]);
            }
            gi = gi + 1;
        }
        proof {
            assert(self@ =~~= target);
        }
    }
}

impl TileAtlasBuilder {
    /// Downsamples the mip levels `lo <= l < hi` of one tile, level 0
    /// skipped, stopping at the mip chain's depth: each level gains the
    /// frames it is missing against the level below, derived with
    /// `downsampler`; with `force` existing derived frames are rebuilt.
    fn downsample_levels_in_set<D: DownsampleAlgorithm>(
        size: u32,
        set: &mut TileAtlasBuilderSet,
        lo: u32,
        hi: u32,
        force: bool,
        downsampler: &D,
    )
        requires
            is_pow2(size as nat),
            size <= TILE_SIZE_MAX,
            old(set)@.wf(size),
        ensures
            final(set)@.levels == ds_levels(
                *downsampler,
                size,
                old(set)@.levels,
                lo as int,
                hi as int,
                force,
            ),
            final(set)@.wf(size),
    {
        let mips = mip_levels_max(size);
        proof {
            lemma_trailing_zeros_le_32(size);
            lemma_ds_levels_wf(*downsampler, size, old(set)@.levels, lo as int, hi as int, force);
            lemma_ds_levels_frame(
                *downsampler,
                size,
                old(set)@.levels,
                lo as int,
                hi as int,
                force,
            );
        }
        let ghost levels0 = set@.levels;
        let mut l: u32 = if lo == 0 {
            1
        } else {
            lo
        };
        proof {
            assert(ds_levels(*downsampler, size, levels0, lo as int, hi as int, force)
                == ds_levels(*downsampler, size, set@.levels, l as int, hi as int, force));
        }
        while l < hi && l < mips
            invariant
                is_pow2(size as nat),
                size <= TILE_SIZE_MAX,
                mips == spec_mip_levels_max(size),
                set@.wf(size),
                1 <= l,
                ds_levels(*downsampler, size, levels0, lo as int, hi as int, force) == ds_levels(
                    *downsampler,
                    size,
                    set@.levels,
                    l as int,
                    hi as int,
                    force,
                ),
            decreases hi - l,
        {
            let src_size = mip_level_size(size, l - 1);
            let dst_len = mip_level_data_len(size, l);
            proof {
                lemma_mip_size_even(size, (l - 1) as u32);
                lemma_mip_level_size_le(size, (l - 1) as u32);
                assert(spec_mip_level_size(size, l) == spec_mip_level_size(size, (l - 1) as u32)
                    / 2);
            }
            let ghost cur_levels = set@.levels;
            let ghost target_step = ds_seq_step(
                *downsampler,
                cur_levels[l as int - 1],
                cur_levels[l as int],
                src_size as int,
                force,
            );
            let ghost base = if force {
                Seq::<Seq<u8>>::empty()
            } else {
                cur_levels[l as int]
            };
            let ghost lvec0 = set.levels@;
            let mut cur = set.levels.remove(l as usize);
            if force {
                cur.data.clear();
            }
            proof {
                assert(cur@ =~= base);
                assert(set.levels@[l as int - 1] == lvec0[l as int - 1]);
            }
            let prev_len = set.levels[(l - 1) as usize].data.len();
            while cur.data.len() < prev_len
                invariant
                    is_pow2(size as nat),
                    size <= TILE_SIZE_MAX,
                    mips == spec_mip_levels_max(size),
                    1 <= l < mips,
                    l < hi,
                    src_size == spec_mip_level_size(size, (l - 1) as u32),
                    2 <= src_size,
                    src_size <= TILE_SIZE_MAX,
                    src_size % 2 == 0,
                    lvec0.len() == spec_mip_levels_max(size),
                    set.levels@.len() == lvec0.len() - 1,
                    dst_len == spec_mip_level_data_len(size, l),
                    spec_mip_level_size(size, l) == src_size / 2,
                    set.levels@ == lvec0.remove(l as int),
                    set.levels@[l as int - 1]@ == cur_levels[l as int - 1],
                    prev_len == cur_levels[l as int - 1].len(),
                    forall|f: int|
                        0 <= f < prev_len ==> (#[trigger] cur_levels[l as int - 1][f]).len()
                            == spec_mip_level_data_len(size, (l - 1) as u32),
                    target_step == ds_seq_step(
                        *downsampler,
                        cur_levels[l as int - 1],
                        cur_levels[l as int],
                        src_size as int,
                        force,
                    ),
                    base == (if force {
                        Seq::<Seq<u8>>::empty()
                    } else {
                        cur_levels[l as int]
                    }),
                    base.len() <= cur@.len() <= target_step.len(),
                    target_step.len() == (if prev_len > base.len() {
                        prev_len as int
                    } else {
                        base.len() as int
                    }),
                    forall|i: int| 0 <= i < cur@.len() ==> (#[trigger] cur@[i]) == target_step[i],
                decreases prev_len - cur.data@.len(),
            {
                let i = cur.data.len();
                let mut buf: Vec<u8> = vec![0u8; dst_len as usize];
                proof {
                    assert(set.levels@[l as int - 1]@[i as int] == cur_levels[l as int - 1][i as int]);
                    assert(cur_levels[l as int - 1][i as int].len() == spec_mip_level_data_len(
                        size,
                        (l - 1) as u32,
                    ));
                    assert(spec_mip_level_data_len(size, (l - 1) as u32) == src_size * src_size
                        * 4);
                    assert((src_size as int / 2) * (src_size as int / 2) * 4
                        == spec_mip_level_data_len(size, l)) by (nonlinear_arith)
                        requires
                            src_size / 2 == spec_mip_level_size(size, l),
                            spec_mip_level_data_len(size, l) == spec_mip_level_size(size, l)
                                * spec_mip_level_size(size, l) * 4,
                    ;
                }
                downsampler.downsample(
                    &set.levels[(l - 1) as usize].data[i],
                    src_size as usize,
                    &mut buf,
                );
                proof {
                    assert(buf@ == downsampler.kernel(
                        cur_levels[l as int - 1][i as int],
                        src_size as int,
                    ));
                    assert(base.len() <= cur@.len());
                    assert(cur@.len() == cur.data@.len());
                    assert(i == cur.data@.len());
                    assert(i >= base.len());
                    assert(i < target_step.len());
                    lemma_ds_seq_step_index(
                        *downsampler,
                        cur_levels[l as int - 1],
                        cur_levels[l as int],
                        src_size as int,
                        force,
                        i as int,
                    );
                    assert(!(!force && (i as int) < cur_levels[l as int].len()));
                    assert(target_step[i as int] == (if !force && (i as int) < cur_levels[l
                        as int].len() {
                        cur_levels[l as int][i as int]
                    } else {
                        (*downsampler).kernel(cur_levels[l as int - 1][i as int], src_size as int)
                    }));
                    assert(target_step[i as int] == downsampler.kernel(
                        cur_levels[l as int - 1][i as int],
                        src_size as int,
                    ));
                }
                let ghost cur_pre = cur@;
                cur.data.push(buf);
                proof {
                    assert(cur@.len() == cur_pre.len() + 1);
                    assert forall|i2: int| 0 <= i2 < cur@.len() implies (#[trigger] cur@[i2])
                        == target_step[i2] by {
                        if i2 < cur_pre.len() {
                            assert(cur@[i2] == cur_pre[i2]);
                        } else {
                            assert(cur@[i2] == buf@);
                        }
                    }
                }
            }
            proof {
                assert(cur@ =~= target_step);
            }
            let ghost cur_back = cur;
            set.levels.insert(l as usize, cur);
            proof {
                lemma_remove_insert(lvec0, l as int, cur_back);
                assert(set.levels@ =~= lvec0.update(l as int, cur_back));
                assert(set@.levels =~~= cur_levels.update(l as int, target_step));
                assert(ds_levels(*downsampler, size, cur_levels, l as int, hi as int, force)
                    == ds_levels(
                    *downsampler,
                    size,
                    cur_levels.update(l as int, target_step),
                    l as int + 1,
                    hi as int,
                    force,
                ));
                assert forall|l2: int, f: int|
                    0 <= l2 < set@.levels.len() && 0 <= f < set@.levels[l2].len() implies (
                #[trigger] set@.levels[l2][f]).len() == spec_mip_level_data_len(
                    size,
                    l2 as u32,
                ) by {
                    if l2 == l as int {
                        assert(set@.levels[l2][f] == target_step[f]);
                        if f < base.len() {
                            assert(target_step[f] == base[f]);
                            assert(base[f] == cur_levels[l as int][f]);
                        } else {
                            assert(target_step[f] == (*downsampler).kernel(
                                cur_levels[l as int - 1][base.len() + (f - base.len())],
                                src_size as int,
                            ));
                            assert(cur_levels[l as int - 1][f].len() == spec_mip_level_data_len(
                                size,
                                (l - 1) as u32,
                            ));
                            downsampler.kernel_len(
                                cur_levels[l as int - 1][f],
                                src_size as int,
                            );
                            assert((src_size as int / 2) * (src_size as int / 2) * 4
                                == spec_mip_level_data_len(size, l)) by (nonlinear_arith)
                                requires
                                    src_size / 2 == spec_mip_level_size(size, l),
                                    spec_mip_level_data_len(size, l) == spec_mip_level_size(
                                        size,
                                        l,
                                    ) * spec_mip_level_size(size, l) * 4,
                            ;
                        }
                    } else {
                        assert(set@.levels[l2] == cur_levels[l2]);
                    }
                }
            }
            l = l + 1;
        }
        proof {
            assert(ds_levels(*downsampler, size, set@.levels, l as int, hi as int, force)
                == set@.levels);
        }
    }
}

impl TileAtlasBuilder {
    /// Downsamples the mip levels `levels_start <= l < levels_end` of
    /// every tile, level 0 skipped, stopping at the mip chain's depth:
    /// each level gains the frames it is missing against the level below,
    /// derived with `downsampler`; with `force` existing derived frames
    /// are rebuilt first.
    pub fn downsample_levels<D: DownsampleAlgorithm>(
        &mut self,
        levels_start: u32,
        levels_end: u32,
        force: bool,
        downsampler: &D,
    )
        requires
            old(self)@.wf(),
        ensures
            final(self)@ == model_downsample(
                *downsampler,
                old(self)@,
                levels_start as int,
                levels_end as int,
                force,
            ),
            final(self)@.wf(),
    {
        let ghost m0 = self@;
        proof {
            lemma_model_downsample_wf(
                *downsampler,
                m0,
                levels_start as int,
                levels_end as int,
                force,
            );
        }
        let ghost target = model_downsample(
            *downsampler,
            m0,
            levels_start as int,
            levels_end as int,
            force,
        );
        let glen = self.groups.len();
        let mut gi: usize = 0;
        while gi < glen
            invariant
                m0.wf(),
                target == model_downsample(
                    *downsampler,
                    m0,
                    levels_start as int,
                    levels_end as int,
                    force,
                ),
                glen == self.groups@.len(),
                self@.groups.len() == m0.groups.len(),
                gi <= glen,
                self@.size == m0.size,
                forall|g: int| 0 <= g < gi ==> self@.groups[g] == target.groups[g],
                forall|g: int| gi <= g < glen ==> self@.groups[g] == m0.groups[g],
            decreases glen - gi,
        {
            let ghost gvec0 = self.groups@;
            let mut gentry = self.groups.remove(gi);
            let ghost g0 = m0.groups[gi as int].1;
            let ghost tg = target.groups[gi as int].1;
            proof {
                assert(gentry.group@ == g0);
                assert(g0.wf(m0.size));
            }
            let tlen = gentry.group.tile_sets.len();
            let mut ti: usize = 0;
            while ti < tlen
                invariant
                    m0.wf(),
                    g0.wf(m0.size),
                    g0 == m0.groups[gi as int].1,
                    target == model_downsample(
                        *downsampler,
                        m0,
                        levels_start as int,
                        levels_end as int,
                        force,
                    ),
                    0 <= gi < m0.groups.len(),
                    self@.size == m0.size,
                    tg == target.groups[gi as int].1,
                    tlen == gentry.group.tile_sets@.len(),
                    tlen == g0.tiles.len(),
                    ti <= tlen,
                    gentry.id@ == m0.groups[gi as int].0,
                    forall|t: int| 0 <= t < ti ==> gentry.group@.tiles[t] == tg.tiles[t],
                    forall|t: int| ti <= t < tlen ==> gentry.group@.tiles[t] == g0.tiles[t],
                decreases tlen - ti,
            {
                let ghost tvecb = gentry.group.tile_sets@;
                let mut tentry = gentry.group.tile_sets.remove(ti);
                let ghost t0 = g0.tiles[ti as int].1;
                proof {
                    assert(tentry.set@ == t0);
                    assert(t0.wf(m0.size));
                }
                Self::downsample_levels_in_set(
                    self.size,
                    &mut tentry.set,
                    levels_start,
                    levels_end,
                    force,
                    downsampler,
                );
                proof {
                    assert(tentry.set@ =~~= tg.tiles[ti as int].1);
                }
                let ghost tentry_back = tentry;
                gentry.group.tile_sets.insert(ti, tentry);
                proof {
                    lemma_remove_insert(tvecb, ti as int, tentry_back);
                    assert(gentry.group.tile_sets@ =~= tvecb.update(ti as int, tentry_back));
                    assert(gentry.group@.tiles[ti as int] == tg.tiles[ti as int]);
                    assert forall|t: int| 0 <= t < ti + 1 implies gentry.group@.tiles[t]
                        == tg.tiles[t] by {}
                }
                ti = ti + 1;
            }
            proof {
                assert(gentry.group@ =~~= tg);
            }
            let ghost gentry_back = gentry;
            self.groups.insert(gi, gentry);
            proof {
                lemma_remove_insert(gvec0, gi as int, gentry_back);
                assert(self.groups@ =~= gvec0.update(gi as int, gentry_back));
                assert(self@.groups[gi as int] == target.groups[gi as int]);
            }
            gi = gi + 1;
        }
        proof {
            assert(self@ =~~= target);
        }
    }

    /// Downsamples the mip levels `levels_start <= l < levels_end` of the
    /// one tile `group_id` / `tile_id`, which must exist.
    pub fn downsample_levels_for<D: DownsampleAlgorithm>(
        &mut self,
        group_id: &str,
        tile_id: &str,
        levels_start: u32,
        levels_end: u32,
        force: bool,
        downsampler: &D,
    )
        requires
            old(self)@.wf(),
            old(self)@.get_tile(group_id@, tile_id@) is Some,
        ensures
            final(self)@.size == old(self)@.size,
            final(self)@.wf(),
            final(self)@.groups == upsert(
                old(self)@.groups,
                group_id@,
                GroupModel {
                    tiles: upsert(
                        key_get(old(self)@.groups, group_id@).tiles,
                        tile_id@,
                        TileModel {
                            levels: ds_levels(
                                *downsampler,
                                old(self)@.size,
                                old(self)@.get_tile(group_id@, tile_id@).unwrap().levels,
                                levels_start as int,
                                levels_end as int,
                                force,
                            ),
                        },
                    ),
                },
            ),
    {
        let ghost m0 = self@;
        let gi = match find_group_entry(&self.groups, group_id) {
            Some(i) => i,
            None => {
                proof {
                    if has_key(m0.groups, group_id@) {
                        let j = key_idx(m0.groups, group_id@);
                        assert(self.groups@[j].id@ == group_id@);
                    }
                    assert(false);
                }
                return ;
            },
        };
        proof {
            lemma_key_at(m0.groups, group_id@, gi as int);
        }
        let ghost g = key_get(m0.groups, group_id@);
        let ghost gvec0 = self.groups@;
        let mut gentry = self.groups.remove(gi);
        let ti = match find_tile_entry(&gentry.group.tile_sets, tile_id) {
            Some(i) => i,
            None => {
                proof {
                    if has_key(g.tiles, tile_id@) {
                        let j = key_idx(g.tiles, tile_id@);
                        assert(gentry.group.tile_sets@[j].id@ == tile_id@);
                    }
                    assert(false);
                }
                self.groups.insert(gi, gentry);
                return ;
            },
        };
        proof {
            lemma_key_at(g.tiles, tile_id@, ti as int);
        }
        let ghost t = key_get(g.tiles, tile_id@);
        let ghost tvec0 = gentry.group.tile_sets@;
        let mut tentry = gentry.group.tile_sets.remove(ti);
        proof {
            assert(tentry.set@ == t);
            assert(t.wf(m0.size));
        }
        Self::downsample_levels_in_set(
            self.size,
            &mut tentry.set,
            levels_start,
            levels_end,
            force,
            downsampler,
        );
        let ghost t2 = TileModel {
            levels: ds_levels(
                *downsampler,
                m0.size,
                t.levels,
                levels_start as int,
                levels_end as int,
                force,
            ),
        };
        let ghost g2 = GroupModel { tiles: upsert(g.tiles, tile_id@, t2) };
        proof {
            assert(tentry.set@ =~~= t2);
        }
        let ghost tentry_back = tentry;
        gentry.group.tile_sets.insert(ti, tentry);
        let ghost gentry_back = gentry;
        self.groups.insert(gi, gentry);
        proof {
            lemma_remove_insert(tvec0, ti as int, tentry_back);
            assert(gentry_back.group.tile_sets@ =~= tvec0.update(ti as int, tentry_back));
            lemma_upsert(g.tiles, tile_id@, t2);
            assert(gentry_back.group@.tiles =~= g.tiles.update(ti as int, (tile_id@, t2)));
            assert(gentry_back.group@.tiles =~= upsert(g.tiles, tile_id@, t2));
            lemma_remove_insert(gvec0, gi as int, gentry_back);
            assert(self.groups@ =~= gvec0.update(gi as int, gentry_back));
            assert(self@.groups =~= m0.groups.update(gi as int, (group_id@, g2)));
            lemma_upsert(m0.groups, group_id@, g2);
            assert(self@.groups =~= upsert(m0.groups, group_id@, g2));
            assert(self@.wf()) by {
                assert forall|j: int| 0 <= j < self@.groups.len() implies (
                #[trigger] self@.groups[j]).1.wf(m0.size) by {
                    if j != gi as int {
                        assert(self@.groups[j] == m0.groups[j]);
                    } else {
                        assert(self@.groups[j].1 == g2);
                        assert(g2.wf(m0.size)) by {
                            assert forall|t3: int| 0 <= t3 < g2.tiles.len() implies (
                            #[trigger] g2.tiles[t3]).1.wf(m0.size) by {
                                if t3 != ti as int {
                                    assert(g2.tiles[t3] == g.tiles[t3]);
                                } else {
                                    assert(g2.tiles[t3].1 == t2);
                                    assert(tentry_back.set@ =~~= t2);
                                    assert(t2.wf(m0.size));
                                }
                            }
                        }
                    }
                }
            }
        }
    }
}

impl TileAtlasBuilder {
    /// True exactly when every tile is mip-complete: each non-empty
    /// level beyond the base holds as many frames as the base level.
    pub fn mip_levels_complete(&self) -> (r: bool)
        ensures
            r == model_complete(self@),
    {
        let mut gi: usize = 0;
        while gi < self.groups.len()
            invariant
                gi <= self.groups@.len(),
                forall|g: int, t: int|
                    0 <= g < gi && 0 <= t < self@.groups[g].1.tiles.len() ==> tile_complete(
                        (#[trigger] self@.groups[g].1.tiles[t]).1,
                    ),
            decreases self.groups@.len() - gi,
        {
            let tile_count = self.groups[gi].group.tile_sets.len();
            let mut ti: usize = 0;
            while ti < tile_count
                invariant
                    gi < self.groups@.len(),
                    tile_count == self@.groups[gi as int].1.tiles.len(),
                    ti <= tile_count,
                    forall|t: int|
                        0 <= t < ti ==> tile_complete(
                            (#[trigger] self@.groups[gi as int].1.tiles[t]).1,
                        ),
            decreases tile_count - ti,
            {
                let ghost tmodel = self@.groups[gi as int].1.tiles[ti as int].1;
                let level_count = self.groups[gi].group.tile_sets[ti].set.levels.len();
                if level_count == 0 {
                    proof {
                        assert(!tile_complete(tmodel));
                    }
                    return false;
                }
                let base_count = self.groups[gi].group.tile_sets[ti].set.levels[0].data.len();
                let mut l: usize = 1;
                while l < level_count
                    invariant
                        gi < self.groups@.len(),
                        ti < self@.groups[gi as int].1.tiles.len(),
                        tmodel == self@.groups[gi as int].1.tiles[ti as int].1,
                        level_count == tmodel.levels.len(),
                        level_count >= 1,
                        base_count == tmodel.levels[0].len(),
                        1 <= l,
                        forall|j: int|
                            1 <= j < l && (#[trigger] tmodel.levels[j]).len() != 0
                                ==> tmodel.levels[j].len() == base_count,
                    decreases level_count - l,
                {
                    let n = self.groups[gi].group.tile_sets[ti].set.levels[l].data.len();
                    if n != 0 && n != base_count {
                        proof {
                            assert(tmodel.levels[l as int].len() != 0);
                            assert(tmodel.levels[l as int].len() != base_count);
                            assert(!tile_complete(tmodel));
                        }
                        return false;
                    }
                    l = l + 1;
                }
                proof {
                    assert(tile_complete(tmodel));
                }
                ti = ti + 1;
            }
            gi = gi + 1;
        }
        true
    }

    /// The lowest safe mip level count over all tiles: the minimum, per
    /// tile, of the first level whose frame count diverges from the base
    /// level's (or the whole chain's depth when none diverges); 0 when
    /// the atlas holds no tiles.
    pub fn find_mip_level_common_max(&self) -> (r: u32)
        requires
            self@.wf(),
        ensures
            r == model_common_max(self@),
    {
        proof {
            lemma_trailing_zeros_le_32(self.size);
        }
        let mut found = false;
        let mut best: u32 = 0;
        let mut gi: usize = 0;
        while gi < self.groups.len()
            invariant
                self@.wf(),
                gi <= self.groups@.len(),
                found ==> best <= 0xFF,
                groups_common_min(self@.groups, 0) == (if !found {
                    groups_common_min(self@.groups, gi as int)
                } else if best as int <= groups_common_min(self@.groups, gi as int) {
                    best as int
                } else {
                    groups_common_min(self@.groups, gi as int)
                }),
            decreases self.groups@.len() - gi,
        {
            let ghost gtiles = self@.groups[gi as int].1.tiles;
            let tile_count = self.groups[gi].group.tile_sets.len();
            let mut here_found = false;
            let mut here: u32 = 0;
            let mut ti: usize = 0;
            while ti < tile_count
                invariant
                    self@.wf(),
                    gi < self.groups@.len(),
                    gtiles == self@.groups[gi as int].1.tiles,
                    tile_count == gtiles.len(),
                    ti <= tile_count,
                    here_found ==> here <= 0xFF,
                    tiles_common_min(gtiles, 0) == (if !here_found {
                        tiles_common_min(gtiles, ti as int)
                    } else if here as int <= tiles_common_min(gtiles, ti as int) {
                        here as int
                    } else {
                        tiles_common_min(gtiles, ti as int)
                    }),
                decreases tile_count - ti,
            {
                let ghost tmodel = gtiles[ti as int].1;
                proof {
                    assert(tmodel.wf(self@.size));
                    lemma_trailing_zeros_le_32(self.size);
                    assert(tmodel.levels.len() <= 33);
                }
                let level_count = self.groups[gi].group.tile_sets[ti].set.levels.len();
                let tile_common: u32;
                if level_count == 0 {
                    tile_common = 0;
                    proof {
                        assert(tile_common_max(tmodel) == 0);
                    }
                } else {
                    let base_count = self.groups[gi].group.tile_sets[ti].set.levels[0].data.len();
                    let mut l: usize = 1;
                    let mut diverged = false;
                    while l < level_count && !diverged
                        invariant
                            gi < self.groups@.len(),
                            ti < gtiles.len(),
                            gtiles == self@.groups[gi as int].1.tiles,
                            tmodel == gtiles[ti as int].1,
                            level_count == tmodel.levels.len(),
                            1 <= level_count <= 33,
                            base_count == tmodel.levels[0].len(),
                            1 <= l <= level_count,
                            !diverged ==> tile_common_from(tmodel, 1) == tile_common_from(
                                tmodel,
                                l as int,
                            ),
                            diverged ==> tile_common_from(tmodel, 1) == l as int,
                        decreases level_count - l + (if diverged {
                            0int
                        } else {
                            1int
                        }),
                    {
                        if self.groups[gi].group.tile_sets[ti].set.levels[l].data.len()
                            != base_count {
                            diverged = true;
                        } else {
                            l = l + 1;
                        }
                    }
                    if diverged {
                        tile_common = l as u32;
                    } else {
                        tile_common = level_count as u32;
                        proof {
                            assert(tile_common_from(tmodel, level_count as int)
                                == level_count as int);
                        }
                    }
                    proof {
                        assert(tile_common as int == tile_common_max(tmodel));
                    }
                }
                proof {
                    assert(tiles_common_min(gtiles, ti as int) == (if tile_common_max(tmodel)
                        < tiles_common_min(gtiles, ti as int + 1) {
                        tile_common_max(tmodel)
                    } else {
                        tiles_common_min(gtiles, ti as int + 1)
                    }));
                }
                if !here_found || tile_common < here {
                    here = tile_common;
                    here_found = true;
                }
                ti = ti + 1;
            }
            proof {
                assert(tiles_common_min(gtiles, tile_count as int) == common_max_sentinel());
                lemma_tiles_common_min_le(gtiles, 0);
                lemma_groups_common_min_le(self@.groups, gi as int + 1);
                assert(groups_common_min(self@.groups, gi as int) == (if tiles_common_min(
                    gtiles,
                    0,
                ) < groups_common_min(self@.groups, gi as int + 1) {
                    tiles_common_min(gtiles, 0)
                } else {
                    groups_common_min(self@.groups, gi as int + 1)
                }));
            }
            if here_found {
                if !found || here < best {
                    best = here;
                    found = true;
                }
            }
            gi = gi + 1;
        }
        proof {
            assert(groups_common_min(self@.groups, self@.groups.len() as int)
                == common_max_sentinel());
        }
        if found {
            best
        } else {
            0
        }
    }

    /// Total number of level-0 frames across all tiles.
    pub fn image_count(&self) -> (r: u32)
        requires
            self@.wf(),
            model_image_count(self@) <= u32::MAX,
        ensures
            r == model_image_count(self@),
    {
        proof {
            lemma_groups_image_count_nonneg(self@.groups, 0);
        }
        let mut acc: u32 = 0;
        let mut gi: usize = 0;
        while gi < self.groups.len()
            invariant
                self@.wf(),
                model_image_count(self@) <= u32::MAX,
                gi <= self.groups@.len(),
                acc + groups_image_count(self@.groups, gi as int) == model_image_count(self@),
                acc <= u32::MAX,
            decreases self.groups@.len() - gi,
        {
            let ghost gtiles = self@.groups[gi as int].1.tiles;
            proof {
                lemma_groups_image_count_nonneg(self@.groups, gi as int + 1);
                lemma_tiles_image_count_nonneg(gtiles, 0);
            }
            let tile_count = self.groups[gi].group.tile_sets.len();
            let mut ti: usize = 0;
            while ti < tile_count
                invariant
                    self@.wf(),
                    gi < self.groups@.len(),
                    gtiles == self@.groups[gi as int].1.tiles,
                    tile_count == gtiles.len(),
                    ti <= tile_count,
                    acc + tiles_image_count(gtiles, ti as int) + groups_image_count(
                        self@.groups,
                        gi as int + 1,
                    ) == model_image_count(self@),
                    model_image_count(self@) <= u32::MAX,
                    acc <= u32::MAX,
                decreases tile_count - ti,
            {
                proof {
                    lemma_tiles_image_count_nonneg(gtiles, ti as int + 1);
                    lemma_groups_image_count_nonneg(self@.groups, gi as int + 1);
                }
                let level_count = self.groups[gi].group.tile_sets[ti].set.levels.len();
                if level_count > 0 {
                    let n = self.groups[gi].group.tile_sets[ti].set.levels[0].data.len();
                    proof {
                        assert(tile_frame_count(gtiles[ti as int].1) == n);
                    }
                    acc = acc + (n as u32);
                } else {
                    proof {
                        assert(tile_frame_count(gtiles[ti as int].1) == 0);
                    }
                }
                ti = ti + 1;
            }
            proof {
                assert(tiles_image_count(gtiles, tile_count as int) == 0);
            }
            gi = gi + 1;
        }
        proof {
            assert(groups_image_count(self@.groups, self@.groups.len() as int) == 0);
        }
        acc
    }

    /// Number of 16-by-16-tile pages needed to hold every level-0 frame.
    pub fn page_count(&self) -> (r: u32)
        requires
            self@.wf(),
            model_image_count(self@) <= u32::MAX,
        ensures
            r == model_page_count(self@),
    {
        let c = self.image_count();
        (((c as u64) + 255) / 256) as u32
    }

    /// Byte length of one page at the given mip level: 256 tile slots of
    /// that level's frame size.
    pub fn page_len(&self, level: u32) -> (r: u32)
        requires
            self@.wf(),
            spec_mip_level_data_len(self@.size, level) * 256 <= u32::MAX,
        ensures
            r == spec_mip_level_data_len(self@.size, level) * 256,
    {
        self.mip_level_data_len(level) * 256
    }
}

/// Byte `j` of one packed page. A page is a 16-by-16 grid of tile cells,
/// each `edge` pixels square; cell (cx, cy) holds frame
/// `start + cy * 16 + cx` of the flattened level sequence, and a cell
/// whose frame index falls beyond the sequence stays zero.
pub open spec fn page_byte(frames: Seq<Seq<u8>>, edge: int, start: int, j: int) -> u8 {
    let w = 16 * edge;
    let p = j / 4;
    let c = j % 4;
    let px = p % w;
    let py = p / w;
    let cx = px / edge;
    let cy = py / edge;
    let f = start + cy * 16 + cx;
    let fx = px % edge;
    let fy = py % edge;
    if f < frames.len() {
        frames[f][4 * (fy * edge + fx) + c]
    } else {
        0
    }
}

/// One packed page: 256 cells of `edge * edge` RGBA8 pixels.
pub open spec fn page_bytes(frames: Seq<Seq<u8>>, edge: int, start: int) -> Seq<u8> {
    Seq::new((edge * edge * 4 * 256) as nat, |j: int| page_byte(frames, edge, start, j))
}

/// A byte-for-byte copy of one frame buffer.
fn copy_bytes(v: &Vec<u8>) -> (r: Vec<u8>)
    ensures
        r@ == v@,
{
    let mut out: Vec<u8> = Vec::new();
    let mut i: usize = 0;
    while i < v.len()
        invariant
            i <= v@.len(),
            out@ == v@.take(i as int),
        decreases v@.len() - i,
    {
        out.push(v[i]);
        proof {
            assert(out@ =~= v@.take(i as int + 1));
        }
        i = i + 1;
    }
    proof {
        assert(v@.take(v@.len() as int) =~= v@);
    }
    out
}

impl TileAtlasBuilder {
    /// The flattened frame sequence at mip `level`, in the fixed
    /// group-then-tile order every projection uses.
    fn collect_frames_at(&self, level: u32) -> (r: Vec<Vec<u8>>)
        ensures
            deep_frames(r@) == model_frames_at(self@, level as int),
    {
        let ghost lvl = level as int;
        let mut out: Vec<Vec<u8>> = Vec::new();
        let mut gi: usize = 0;
        proof {
            assert(deep_frames(out@) =~= Seq::<Seq<u8>>::empty());
            assert(self@.groups.skip(0) =~= self@.groups);
            assert(model_frames_at(self@, lvl) =~= deep_frames(out@) + groups_frames_at(
                self@.groups.skip(0),
                lvl,
            ));
        }
        while gi < self.groups.len()
            invariant
                lvl == level as int,
                gi <= self.groups@.len(),
                model_frames_at(self@, lvl) == deep_frames(out@) + groups_frames_at(
                    self@.groups.skip(gi as int),
                    lvl,
                ),
            decreases self.groups@.len() - gi,
        {
            let ghost gtiles = self@.groups[gi as int].1.tiles;
            proof {
                assert(self@.groups.skip(gi as int)[0] == self@.groups[gi as int]);
                assert(self@.groups.skip(gi as int).drop_first() =~= self@.groups.skip(
                    gi as int + 1,
                ));
            }
            let tile_count = self.groups[gi].group.tile_sets.len();
            let mut ti: usize = 0;
            proof {
                assert(groups_frames_at(self@.groups.skip(gi as int), lvl) == tiles_frames_at(
                    gtiles,
                    lvl,
                ) + groups_frames_at(self@.groups.skip(gi as int + 1), lvl));
                assert(gtiles.skip(0) =~= gtiles);
                assert(deep_frames(out@) + (tiles_frames_at(gtiles, lvl) + groups_frames_at(
                    self@.groups.skip(gi as int + 1),
                    lvl,
                )) =~= deep_frames(out@) + tiles_frames_at(gtiles.skip(0), lvl)
                    + groups_frames_at(self@.groups.skip(gi as int + 1), lvl));
            }
            while ti < tile_count
                invariant
                    lvl == level as int,
                    gi < self.groups@.len(),
                    gtiles == self@.groups[gi as int].1.tiles,
                    tile_count == gtiles.len(),
                    ti <= tile_count,
                    model_frames_at(self@, lvl) == deep_frames(out@) + tiles_frames_at(
                        gtiles.skip(ti as int),
                        lvl,
                    ) + groups_frames_at(self@.groups.skip(gi as int + 1), lvl),
                decreases tile_count - ti,
            {
                let ghost tmodel = gtiles[ti as int].1;
                proof {
                    assert(gtiles.skip(ti as int)[0] == gtiles[ti as int]);
                    assert(gtiles.skip(ti as int).drop_first() =~= gtiles.skip(ti as int + 1));
                }
                let level_count = self.groups[gi].group.tile_sets[ti].set.levels.len();
                if (level as usize) < level_count {
                    let ghost head = tmodel.levels[lvl];
                    let frame_count = self.groups[gi].group.tile_sets[ti].set.levels[level
                        as usize].data.len();
                    let mut fi: usize = 0;
                    proof {
                        assert(gtiles.skip(ti as int)[0] == gtiles[ti as int]);
                        assert(0 <= lvl < gtiles.skip(ti as int)[0].1.levels.len());
                        assert(tiles_frames_at(gtiles.skip(ti as int), lvl)
                            == gtiles.skip(ti as int)[0].1.levels[lvl] + tiles_frames_at(
                            gtiles.skip(ti as int).drop_first(),
                            lvl,
                        ));
                        assert(gtiles.skip(ti as int).drop_first() =~= gtiles.skip(
                            ti as int + 1,
                        ));
                        assert(tiles_frames_at(gtiles.skip(ti as int), lvl) == head
                            + tiles_frames_at(gtiles.skip(ti as int + 1), lvl));
                        assert(head.skip(0) =~= head);
                        assert(deep_frames(out@) + (head + tiles_frames_at(
                            gtiles.skip(ti as int + 1),
                            lvl,
                        )) + groups_frames_at(self@.groups.skip(gi as int + 1), lvl)
                            =~= deep_frames(out@) + head.skip(0) + tiles_frames_at(
                            gtiles.skip(ti as int + 1),
                            lvl,
                        ) + groups_frames_at(self@.groups.skip(gi as int + 1), lvl));
                    }
                    while fi < frame_count
                        invariant
                            gi < self.groups@.len(),
                            ti < gtiles.len(),
                            gtiles == self@.groups[gi as int].1.tiles,
                            tmodel == gtiles[ti as int].1,
                            0 <= lvl < tmodel.levels.len(),
                            head == tmodel.levels[lvl],
                            frame_count == head.len(),
                            level_count == tmodel.levels.len(),
                            level as usize == lvl,
                            fi <= frame_count,
                            model_frames_at(self@, lvl) == deep_frames(out@) + head.skip(
                                fi as int,
                            ) + tiles_frames_at(gtiles.skip(ti as int + 1), lvl)
                                + groups_frames_at(self@.groups.skip(gi as int + 1), lvl),
                        decreases frame_count - fi,
                    {
                        let ghost out_pre = out@;
                        let frame = copy_bytes(
                            &self.groups[gi].group.tile_sets[ti].set.levels[level
                                as usize].data[fi],
                        );
                        out.push(frame);
                        proof {
                            assert(deep_frames(out@) =~= deep_frames(out_pre) + seq![
                                head[fi as int],
                            ]);
                            assert(head.skip(fi as int)[0] == head[fi as int]);
                            assert(head.skip(fi as int).drop_first() =~= head.skip(
                                fi as int + 1,
                            ));
                            assert(head.skip(fi as int) =~= seq![head[fi as int]] + head.skip(
                                fi as int + 1,
                            ));
                            assert(deep_frames(out@) + head.skip(fi as int + 1)
                                + tiles_frames_at(gtiles.skip(ti as int + 1), lvl)
                                + groups_frames_at(self@.groups.skip(gi as int + 1), lvl)
                                =~= deep_frames(out_pre) + head.skip(fi as int)
                                + tiles_frames_at(gtiles.skip(ti as int + 1), lvl)
                                + groups_frames_at(self@.groups.skip(gi as int + 1), lvl));
                        }
                        fi = fi + 1;
                    }
                    proof {
                        assert(head.skip(head.len() as int) =~= Seq::<Seq<u8>>::empty());
                        assert(deep_frames(out@) + tiles_frames_at(
                            gtiles.skip(ti as int + 1),
                            lvl,
                        ) + groups_frames_at(self@.groups.skip(gi as int + 1), lvl)
                            =~= deep_frames(out@) + head.skip(head.len() as int)
                            + tiles_frames_at(gtiles.skip(ti as int + 1), lvl)
                            + groups_frames_at(self@.groups.skip(gi as int + 1), lvl));
                    }
                } else {
                    proof {
                        assert(tiles_frames_at(gtiles.skip(ti as int), lvl)
                            == (if 0 <= lvl < tmodel.levels.len() {
                            tmodel.levels[lvl]
                        } else {
                            Seq::<Seq<u8>>::empty()
                        }) + tiles_frames_at(gtiles.skip(ti as int + 1), lvl));
                        assert(!(0 <= lvl < tmodel.levels.len()));
                        assert(tiles_frames_at(gtiles.skip(ti as int), lvl)
                            =~= tiles_frames_at(gtiles.skip(ti as int + 1), lvl));
                    }
                }
                ti = ti + 1;
            }
            proof {
                assert(tiles_frames_at(gtiles.skip(tile_count as int), lvl) =~= Seq::<
                    Seq<u8>,
                >::empty());
                assert(deep_frames(out@) + tiles_frames_at(gtiles.skip(tile_count as int), lvl)
                    + groups_frames_at(self@.groups.skip(gi as int + 1), lvl)
                    =~= deep_frames(out@) + groups_frames_at(
                    self@.groups.skip(gi as int + 1),
                    lvl,
                ));
            }
            gi = gi + 1;
        }
        proof {
            assert(groups_frames_at(
                self@.groups.skip(self@.groups.len() as int),
                lvl,
            ) =~= Seq::<Seq<u8>>::empty());
            assert(deep_frames(out@) + groups_frames_at(
                self@.groups.skip(self@.groups.len() as int),
                lvl,
            ) =~= deep_frames(out@));
        }
        out
    }

    /// Appends one packed page of mip `level` to `dst`: 256 cells in a
    /// 16-by-16 grid, cell `i` of this page holding flattened frame
    /// `page * 256 + i`, zero-filled where no frame remains.
    pub fn build_page(&self, dst: &mut Vec<u8>, level: u32, page: u32)
        requires
            self@.wf(),
            level < spec_mip_levels_max(self@.size),
            spec_mip_level_data_len(self@.size, level) * 256 <= u32::MAX,
            page as int * 256 + 255 <= usize::MAX,
        ensures
            final(dst)@ == old(dst)@ + page_bytes(
                model_frames_at(self@, level as int),
                spec_mip_level_size(self@.size, level) as int,
                page as int * 256,
            ),
    {
        let frames = self.collect_frames_at(level);
        let edge = self.mip_level_size(level);
        let byte_total = self.page_len(level);
        proof {
            lemma_model_frames_at_wf(self@, level as int);
            lemma_mip_size_pos(self@.size, level);
            lemma_trailing_zeros_le_32(self.size);
        }
        let ghost fseq = model_frames_at(self@, level as int);
        let ghost eg = edge as int;
        let ghost target = page_bytes(fseq, eg, page as int * 256);
        proof {
            assert(eg * eg * 4 * 256 == spec_mip_level_data_len(self@.size, level) * 256);
            assert(target.len() == byte_total);
        }
        proof {
            lemma_mip_level_size_le(self@.size, level);
        }
        let e = edge as usize;
        let w = 16 * e;
        let start = (page as usize) * 256;
        proof {
            assert(page_bytes(fseq, eg, page as int * 256).take(0) =~= Seq::<u8>::empty());
            assert(dst@ =~= old(dst)@ + target.take(0));
        }
        let mut j: usize = 0;
        while j < byte_total as usize
            invariant
                1 <= e,
                e <= 0x4000,
                w == 16 * e,
                eg == e as int,
                start == page as int * 256,
                start + 255 <= usize::MAX,
                byte_total == eg * eg * 4 * 256,
                fseq == model_frames_at(self@, level as int),
                forall|f: int|
                    0 <= f < fseq.len() ==> (#[trigger] fseq[f]).len() == eg * eg * 4,
                deep_frames(frames@) == fseq,
                target == page_bytes(fseq, eg, page as int * 256),
                target.len() == byte_total,
                j <= byte_total,
                dst@ == old(dst)@ + target.take(j as int),
            decreases byte_total - j,
        {
            let p = j / 4;
            let c = j % 4;
            let px = p % w;
            let py = p / w;
            let cx = px / e;
            let cy = py / e;
            proof {
                assert(4 * (256 * (eg * eg)) == eg * eg * 4 * 256) by (nonlinear_arith);
                assert((16 * eg) * (16 * eg) == 256 * (eg * eg)) by (nonlinear_arith);
                lemma_multiply_divide_lt(j as int, 4, 256 * (eg * eg));
                assert((p as int) < (16 * eg) * (16 * eg));
                lemma_multiply_divide_lt(p as int, 16 * eg, 16 * eg);
                assert((py as int) < 16 * eg);
                assert((px as int) < 16 * eg);
                assert(eg * 16 == 16 * eg);
                lemma_multiply_divide_lt(px as int, eg, 16);
                lemma_multiply_divide_lt(py as int, eg, 16);
                assert(cx < 16 && cy < 16);
            }
            let fi = start + cy * 16 + cx;
            let fx = px % e;
            let fy = py % e;
            let b: u8 = if fi < frames.len() {
                proof {
                    assert(fseq[fi as int].len() == eg * eg * 4);
                    assert(4 * ((fy as int) * eg + (fx as int)) + (c as int) < eg * eg
                        * 4) by (nonlinear_arith)
                        requires
                            0 <= fy < eg,
                            0 <= fx < eg,
                            0 <= c < 4,
                            1 <= eg,
                    ;
                    assert(frames@[fi as int]@ == fseq[fi as int]);
                }
                frames[fi][4 * (fy * e + fx) + c]
            } else {
                0
            };
            proof {
                assert(b == page_byte(fseq, eg, page as int * 256, j as int));
            }
            dst.push(b);
            proof {
                assert(dst@ =~= old(dst)@ + target.take(j as int + 1));
            }
            j = j + 1;
        }
        proof {
            assert(target.take(target.len() as int) =~= target);
        }
    }
}

/// The bytes of every mip level of one page, base level first.
pub open spec fn image_levels(m: AtlasModel, page: int, level: int, mips: int) -> Seq<u8>
    decreases mips - level,
{
    if level >= mips {
        Seq::empty()
    } else {
        page_bytes(
            model_frames_at(m, level),
            spec_mip_level_size(m.size, level as u32) as int,
            page * 256,
        ) + image_levels(m, page, level + 1, mips)
    }
}

/// The bytes of all pages, each page's levels kept together.
pub open spec fn image_pages(m: AtlasModel, page: int, pages: int, mips: int) -> Seq<u8>
    decreases pages - page,
{
    if page >= pages {
        Seq::empty()
    } else {
        image_levels(m, page, 0, mips) + image_pages(m, page + 1, pages, mips)
    }
}

/// The whole packed image: every page up to the page count, every mip
/// level up to the common maximum.
pub open spec fn model_image_bytes(m: AtlasModel) -> Seq<u8> {
    image_pages(m, 0, model_page_count(m), model_common_max(m))
}

/// Byte length of the first `upto` levels of one page.
pub open spec fn levels_len_sum(m: AtlasModel, upto: int) -> int
    decreases upto,
{
    if upto <= 0 {
        0
    } else {
        levels_len_sum(m, upto - 1) + spec_mip_level_data_len(m.size, (upto - 1) as u32) * 256
    }
}

/// Level sums grow with the level, by at most one bounded page chunk at
/// a time.
pub proof fn lemma_levels_len_sum_bounds(m: AtlasModel, a: int, b: int)
    requires
        m.size <= TILE_SIZE_MAX,
        0 <= a <= b,
    ensures
        0 <= levels_len_sum(m, a) <= levels_len_sum(m, b),
        levels_len_sum(m, b) <= b * 0x4000000000,
    decreases b,
{
    if b > 0 {
        lemma_data_len_bounds(m.size, (b - 1) as u32);
        if a == b {
            lemma_levels_len_sum_bounds(m, if a > b - 1 {
                b - 1
            } else {
                a
            }, b - 1);
        } else {
            lemma_levels_len_sum_bounds(m, a, b - 1);
        }
        assert(levels_len_sum(m, b) == levels_len_sum(m, b - 1) + spec_mip_level_data_len(
            m.size,
            (b - 1) as u32,
        ) * 256);
    }
}

/// The packed image plus the metadata the rendering side needs to build
/// an array texture from it: the page edge length in pixels, the page
/// count (array layers), and the mip level count.
pub struct TileAtlasImage {
    pub data: Vec<u8>,
    pub size: u32,
    pub page_count: u32,
    pub mip_level_count: u32,
}

impl TileAtlasBuilder {
    /// The lookup table: for every tile with level-0 frames, in group
    /// and tile insertion order, the first global slot its frames occupy
    /// and their count. The order is fixed, so the same builder contents
    /// always produce the same table, matching the page packer's frame
    /// order.
    pub fn build_lookup(&self) -> (r: Vec<TileAtlasNamedGroup>)
        requires
            self@.wf(),
            model_image_count(self@) <= 0xFFFF,
        ensures
            lookup_view(r@) == lookup_groups(self@.groups, 0),
    {
        let mut out: Vec<TileAtlasNamedGroup> = Vec::new();
        let mut index: u16 = 0;
        let mut gi: usize = 0;
        proof {
            lemma_groups_image_count_nonneg(self@.groups, 0);
            assert(self@.groups.skip(0) =~= self@.groups);
            assert(lookup_view(out@) =~= Seq::<
                (Seq<char>, Seq<(Seq<char>, TileAtlasEntry)>),
            >::empty());
            assert(lookup_groups(self@.groups, 0) =~= lookup_view(out@) + lookup_groups(
                self@.groups.skip(0),
                0,
            ));
        }
        while gi < self.groups.len()
            invariant
                self@.wf(),
                model_image_count(self@) <= 0xFFFF,
                gi <= self.groups@.len(),
                index as int + groups_image_count(self@.groups, gi as int) == model_image_count(
                    self@,
                ),
                lookup_groups(self@.groups, 0) == lookup_view(out@) + lookup_groups(
                    self@.groups.skip(gi as int),
                    index as int,
                ),
            decreases self.groups@.len() - gi,
        {
            let ghost gtiles = self@.groups[gi as int].1.tiles;
            let ghost idx_g = index as int;
            proof {
                assert(self@.groups.skip(gi as int)[0] == self@.groups[gi as int]);
                assert(self@.groups.skip(gi as int).drop_first() =~= self@.groups.skip(
                    gi as int + 1,
                ));
                lemma_groups_image_count_nonneg(self@.groups, gi as int + 1);
                lemma_tiles_image_count_nonneg(gtiles, 0);
                assert(gtiles.skip(0) =~= gtiles);
            }
            let mut entries: Vec<TileAtlasNamedEntry> = Vec::new();
            let tile_count = self.groups[gi].group.tile_sets.len();
            let mut ti: usize = 0;
            proof {
                assert(named_entries_view(entries@) =~= Seq::<
                    (Seq<char>, TileAtlasEntry),
                >::empty());
                assert(lookup_tiles(gtiles, idx_g) =~= named_entries_view(entries@)
                    + lookup_tiles(gtiles.skip(0), idx_g));
            }
            while ti < tile_count
                invariant
                    self@.wf(),
                    model_image_count(self@) <= 0xFFFF,
                    gi < self.groups@.len(),
                    gtiles == self@.groups[gi as int].1.tiles,
                    tile_count == gtiles.len(),
                    ti <= tile_count,
                    index as int + tiles_image_count(gtiles, ti as int) + groups_image_count(
                        self@.groups,
                        gi as int + 1,
                    ) == model_image_count(self@),
                    lookup_tiles(gtiles, idx_g) == named_entries_view(entries@) + lookup_tiles(
                        gtiles.skip(ti as int),
                        index as int,
                    ),
                decreases tile_count - ti,
            {
                let ghost tmodel = gtiles[ti as int].1;
                proof {
                    assert(gtiles.skip(ti as int)[0] == gtiles[ti as int]);
                    assert(gtiles.skip(ti as int).drop_first() =~= gtiles.skip(ti as int + 1));
                    lemma_tiles_image_count_nonneg(gtiles, ti as int + 1);
                    lemma_groups_image_count_nonneg(self@.groups, gi as int + 1);
                }
                let level_count = self.groups[gi].group.tile_sets[ti].set.levels.len();
                let c: usize = if level_count > 0 {
                    self.groups[gi].group.tile_sets[ti].set.levels[0].data.len()
                } else {
                    0
                };
                proof {
                    assert(c == tile_frame_count(tmodel));
                    assert(tiles_image_count(gtiles, ti as int) == tile_frame_count(tmodel)
                        + tiles_image_count(gtiles, ti as int + 1));
                }
                if c > 0 {
                    let ghost entries_pre = entries@;
                    entries.push(
                        TileAtlasNamedEntry {
                            id: self.groups[gi].group.tile_sets[ti].id.clone(),
                            entry: TileAtlasEntry { index, count: c as u16 },
                        },
                    );
                    proof {
                        assert(named_entries_view(entries@) =~= named_entries_view(entries_pre)
                            + seq![
                            (
                                gtiles[ti as int].0,
                                TileAtlasEntry { index, count: c as u16 },
                            ),
                        ]) by {
                            assert(entries@[entries_pre.len() as int].id@ == gtiles[ti
                                as int].0);
                        }
                        assert(lookup_tiles(gtiles.skip(ti as int), index as int) == seq![
                            (
                                gtiles[ti as int].0,
                                TileAtlasEntry { index: index as u16, count: c as u16 },
                            ),
                        ] + lookup_tiles(gtiles.skip(ti as int + 1), index as int + c));
                        assert(named_entries_view(entries@) + lookup_tiles(
                            gtiles.skip(ti as int + 1),
                            index as int + c,
                        ) =~= named_entries_view(entries_pre) + lookup_tiles(
                            gtiles.skip(ti as int),
                            index as int,
                        ));
                    }
                    index = index + (c as u16);
                } else {
                    proof {
                        assert(lookup_tiles(gtiles.skip(ti as int), index as int)
                            == lookup_tiles(gtiles.skip(ti as int + 1), index as int));
                    }
                }
                ti = ti + 1;
            }
            proof {
                assert(lookup_tiles(gtiles.skip(tile_count as int), index as int) =~= Seq::<
                    (Seq<char>, TileAtlasEntry),
                >::empty());
                assert(lookup_tiles(gtiles, idx_g) =~= named_entries_view(entries@));
                assert(index as int == idx_g + tiles_image_count(gtiles, 0));
            }
            if entries.len() > 0 {
                let ghost out_pre = out@;
                out.push(
                    TileAtlasNamedGroup {
                        id: self.groups[gi].id.clone(),
                        group: TileAtlasGroup { entries },
                    },
                );
                proof {
                    assert(lookup_view(out@) =~= lookup_view(out_pre) + seq![
                        (self@.groups[gi as int].0, lookup_tiles(gtiles, idx_g)),
                    ]) by {
                        assert(out@[out_pre.len() as int].id@ == self@.groups[gi as int].0);
                        assert(out@[out_pre.len() as int].group@ == lookup_tiles(
                            gtiles,
                            idx_g,
                        ));
                    }
                    assert(lookup_groups(self@.groups.skip(gi as int), idx_g) == seq![
                        (self@.groups[gi as int].0, lookup_tiles(gtiles, idx_g)),
                    ] + lookup_groups(self@.groups.skip(gi as int + 1), index as int));
                    assert(lookup_view(out@) + lookup_groups(
                        self@.groups.skip(gi as int + 1),
                        index as int,
                    ) =~= lookup_view(out_pre) + lookup_groups(
                        self@.groups.skip(gi as int),
                        idx_g,
                    ));
                }
            } else {
                proof {
                    assert(named_entries_view(entries@).len() == 0);
                    assert(lookup_tiles(gtiles, idx_g).len() == 0);
                    assert(lookup_groups(self@.groups.skip(gi as int), idx_g) == lookup_groups(
                        self@.groups.skip(gi as int + 1),
                        index as int,
                    ));
                }
            }
            gi = gi + 1;
        }
        proof {
            assert(lookup_groups(
                self@.groups.skip(self@.groups.len() as int),
                index as int,
            ) =~= Seq::<(Seq<char>, Seq<(Seq<char>, TileAtlasEntry)>)>::empty());
            assert(lookup_view(out@) + lookup_groups(
                self@.groups.skip(self@.groups.len() as int),
                index as int,
            ) =~= lookup_view(out@));
        }
        out
    }

    /// Packs every page of every safe mip level into one flat buffer:
    /// pages outermost, each page's levels from the base level up. The
    /// metadata describes the buffer as a mip-mapped array texture of
    /// 16-by-16-tile pages.
    pub fn build_image(&self) -> (r: TileAtlasImage)
        requires
            self@.wf(),
            model_image_count(self@) <= u32::MAX,
            spec_mip_level_data_len(self@.size, 0) * 256 <= u32::MAX,
        ensures
            r.data@ == model_image_bytes(self@),
            r.size == self@.size * 16,
            r.page_count == model_page_count(self@),
            r.mip_level_count == model_common_max(self@),
    {
        let mips = self.find_mip_level_common_max();
        let pages = self.page_count();
        proof {
            lemma_model_common_max_le(self@);
            lemma_trailing_zeros_le_32(self.size);
            lemma_groups_image_count_nonneg(self@.groups, 0);
            vstd::arithmetic::div_mod::lemma_div_is_ordered(
                model_image_count(self@) + 255,
                0xFFFFFFFFint + 255,
                256,
            );
            assert((0xFFFFFFFFint + 255) / 256 == 16777216);
        }
        let mut data: Vec<u8> = Vec::new();
        let mut page: u32 = 0;
        proof {
            assert(data@ =~= Seq::<u8>::empty());
            assert(model_image_bytes(self@) =~= data@ + image_pages(
                self@,
                page as int,
                pages as int,
                mips as int,
            ));
        }
        while page < pages
            invariant
                self@.wf(),
                mips == model_common_max(self@),
                mips <= 33,
                pages == model_page_count(self@),
                pages <= 16777216,
                page <= pages,
                spec_mip_level_data_len(self@.size, 0) * 256 <= u32::MAX,
                model_image_bytes(self@) == data@ + image_pages(
                    self@,
                    page as int,
                    pages as int,
                    mips as int,
                ),
            decreases pages - page,
        {
            let mut level: u32 = 0;
            proof {
                assert(image_pages(self@, page as int, pages as int, mips as int)
                    == image_levels(self@, page as int, 0, mips as int) + image_pages(
                    self@,
                    page as int + 1,
                    pages as int,
                    mips as int,
                ));
                assert(data@ + (image_levels(self@, page as int, 0, mips as int) + image_pages(
                    self@,
                    page as int + 1,
                    pages as int,
                    mips as int,
                )) =~= data@ + image_levels(self@, page as int, 0, mips as int) + image_pages(
                    self@,
                    page as int + 1,
                    pages as int,
                    mips as int,
                ));
            }
            while level < mips
                invariant
                    self@.wf(),
                    mips == model_common_max(self@),
                    mips <= 33,
                    pages == model_page_count(self@),
                    pages <= 16777216,
                    page < pages,
                    level <= mips,
                    spec_mip_level_data_len(self@.size, 0) * 256 <= u32::MAX,
                    model_image_bytes(self@) == data@ + image_levels(
                        self@,
                        page as int,
                        level as int,
                        mips as int,
                    ) + image_pages(self@, page as int + 1, pages as int, mips as int),
                decreases mips - level,
            {
                proof {
                    lemma_model_common_max_le(self@);
                    lemma_trailing_zeros_le_32(self.size);
                    lemma_data_len_bounds(self@.size, level);
                }
                let ghost data_pre = data@;
                self.build_page(&mut data, level, page);
                proof {
                    assert(image_levels(self@, page as int, level as int, mips as int)
                        == page_bytes(
                        model_frames_at(self@, level as int),
                        spec_mip_level_size(self@.size, level) as int,
                        page as int * 256,
                    ) + image_levels(self@, page as int, level as int + 1, mips as int));
                    assert(data_pre + (page_bytes(
                        model_frames_at(self@, level as int),
                        spec_mip_level_size(self@.size, level) as int,
                        page as int * 256,
                    ) + image_levels(self@, page as int, level as int + 1, mips as int))
                        =~= data@ + image_levels(
                        self@,
                        page as int,
                        level as int + 1,
                        mips as int,
                    ));
                }
                level = level + 1;
            }
            proof {
                assert(image_levels(self@, page as int, mips as int, mips as int) =~= Seq::<
                    u8,
                >::empty());
                assert(data@ + image_levels(self@, page as int, mips as int, mips as int)
                    + image_pages(self@, page as int + 1, pages as int, mips as int) =~= data@
                    + image_pages(self@, page as int + 1, pages as int, mips as int));
            }
            page = page + 1;
        }
        proof {
            assert(image_pages(self@, pages as int, pages as int, mips as int) =~= Seq::<
                u8,
            >::empty());
            assert(data@ + image_pages(self@, pages as int, pages as int, mips as int)
                =~= data@);
        }
        TileAtlasImage { data, size: self.size * 16, page_count: pages, mip_level_count: mips }
    }

    /// The byte range one page's one mip level occupies inside the flat
    /// buffer `build_image` produces, or `None` when the page or level
    /// lies outside the built image.
    pub fn get_page_range_bytes(&self, page: u32, level: u32) -> (r: Option<(usize, usize)>)
        requires
            self@.wf(),
            model_image_count(self@) <= u32::MAX,
            model_page_count(self@) * levels_len_sum(self@, model_common_max(self@))
                + levels_len_sum(self@, model_common_max(self@)) <= usize::MAX,
        ensures
            r is Some <==> (level < model_common_max(self@) && page < model_page_count(self@)),
            r is Some ==> r.unwrap().0 == page * levels_len_sum(
                self@,
                model_common_max(self@),
            ) + levels_len_sum(self@, level as int),
            r is Some ==> r.unwrap().1 == r.unwrap().0 + spec_mip_level_data_len(
                self@.size,
                level,
            ) * 256,
    {
        let mips = self.find_mip_level_common_max();
        if level >= mips {
            return None;
        }
        let pages = self.page_count();
        if page >= pages {
            return None;
        }
        proof {
            lemma_model_common_max_le(self@);
            lemma_trailing_zeros_le_32(self.size);
        }
        let mut total: u64 = 0;
        let mut l: u32 = 0;
        while l < mips
            invariant
                self@.wf(),
                mips == model_common_max(self@),
                mips <= 33,
                l <= mips,
                total == levels_len_sum(self@, l as int),
                total <= l as int * 0x4000000000,
            decreases mips - l,
        {
            proof {
                lemma_data_len_bounds(self@.size, l);
            }
            total = total + (self.mip_level_data_len(l) as u64) * 256;
            l = l + 1;
        }
        let mut below: u64 = 0;
        let mut l2: u32 = 0;
        while l2 < level
            invariant
                self@.wf(),
                level < mips,
                mips == model_common_max(self@),
                mips <= 33,
                l2 <= level,
                below == levels_len_sum(self@, l2 as int),
                below <= l2 as int * 0x4000000000,
            decreases level - l2,
        {
            proof {
                lemma_data_len_bounds(self@.size, l2);
            }
            below = below + (self.mip_level_data_len(l2) as u64) * 256;
            l2 = l2 + 1;
        }
        proof {
            lemma_levels_len_sum_bounds(self@, level as int + 1, mips as int);
            lemma_levels_len_sum_bounds(self@, level as int, level as int + 1);
            lemma_levels_len_sum_bounds(self@, 0, level as int);
            assert(page as int * total as int <= (model_page_count(self@) - 1) * total as int)
                by (nonlinear_arith)
                requires
                    page as int <= model_page_count(self@) - 1,
                    total as int >= 0,
            ;
            assert((model_page_count(self@) - 1) * total as int + total as int
                == model_page_count(self@) * total as int) by (nonlinear_arith);
            assert(page as int * 256 >= 0);
        }
        let start = (page as u64) * total + below;
        let chunk = (self.mip_level_data_len(level) as u64) * 256;
        proof {
            assert(below as int + chunk as int == levels_len_sum(self@, level as int + 1));
            assert(below as int + chunk as int <= total as int);
        }
        Some(((start as usize), ((start + chunk) as usize)))
    }
}

impl TileAtlasBuilder {
    /// Appends the builder's full binary encoding to `sink`: the base
    /// size, then every group, tile, level and frame, each list
    /// count-prefixed, names as length-prefixed UTF-8.
    #[verifier::rlimit(100)]
    pub fn write_uncompressed_to(&self, sink: &mut Vec<u8>)
        requires
            self@.wf(),
            enc_sizes_ok(self@),
        ensures
            final(sink)@ == old(sink)@ + enc_atlas(self@),
    {
        let ghost m = self@;
        push_u32(sink, self.size);
        push_u32(sink, self.groups.len() as u32);
        let mut gi: usize = 0;
        proof {
            assert(m.groups.skip(0) =~= m.groups);
            assert(sink@ + enc_groups(m.groups.skip(0)) =~= old(sink)@ + enc_atlas(m));
        }
        while gi < self.groups.len()
            invariant
                m == self@,
                self@.wf(),
                enc_sizes_ok(self@),
                gi <= self.groups@.len(),
                sink@ + enc_groups(m.groups.skip(gi as int)) == old(sink)@ + enc_atlas(m),
            decreases self.groups@.len() - gi,
        {
            let ghost gtiles = m.groups[gi as int].1.tiles;
            proof {
                assert(m.groups.skip(gi as int)[0] == m.groups[gi as int]);
                assert(m.groups.skip(gi as int).drop_first() =~= m.groups.skip(gi as int + 1));
                assert(enc_groups(m.groups.skip(gi as int)) == enc_str(m.groups[gi as int].0)
                    + enc_u32(gtiles.len() as u32) + enc_tiles(gtiles) + enc_groups(
                    m.groups.skip(gi as int + 1),
                ));
            }
            let ghost sink_g = sink@;
            push_str(sink, &self.groups[gi].id);
            push_u32(sink, self.groups[gi].group.tile_sets.len() as u32);
            let tile_count = self.groups[gi].group.tile_sets.len();
            let mut ti: usize = 0;
            proof {
                assert(gtiles.skip(0) =~= gtiles);
                assert(sink@ + enc_tiles(gtiles.skip(0)) + enc_groups(
                    m.groups.skip(gi as int + 1),
                ) =~= old(sink)@ + enc_atlas(m));
            }
            while ti < tile_count
                invariant
                    m == self@,
                    self@.wf(),
                    enc_sizes_ok(self@),
                    gi < self.groups@.len(),
                    gtiles == m.groups[gi as int].1.tiles,
                    tile_count == gtiles.len(),
                    ti <= tile_count,
                    sink@ + enc_tiles(gtiles.skip(ti as int)) + enc_groups(
                        m.groups.skip(gi as int + 1),
                    ) == old(sink)@ + enc_atlas(m),
                decreases tile_count - ti,
            {
                let ghost tmodel = gtiles[ti as int].1;
                proof {
                    assert(gtiles.skip(ti as int)[0] == gtiles[ti as int]);
                    assert(gtiles.skip(ti as int).drop_first() =~= gtiles.skip(ti as int + 1));
                    assert(enc_tiles(gtiles.skip(ti as int)) == enc_str(gtiles[ti as int].0)
                        + enc_u32(tmodel.levels.len() as u32) + enc_levels(tmodel.levels)
                        + enc_tiles(gtiles.skip(ti as int + 1)));
                    assert(m.groups[gi as int].1.tiles[ti as int].1 == tmodel);
                    assert(tmodel.levels.len() <= u32::MAX);
                    assert forall|l2: int, f2: int|
                        0 <= l2 < tmodel.levels.len() && 0 <= f2 < tmodel.levels[l2].len()
                            implies (#[trigger] tmodel.levels[l2][f2]).len() <= u32::MAX by {
                        assert(m.groups[gi as int].1.tiles[ti as int].1.levels[l2].len()
                            <= u32::MAX);
                        assert(m.groups[gi as int].1.tiles[ti as int].1.levels[l2][f2].len()
                            <= u32::MAX);
                    }
                    assert forall|l2: int|
                        0 <= l2 < tmodel.levels.len() implies (#[trigger] tmodel.levels[l2]).len()
                        <= u32::MAX by {
                        assert(m.groups[gi as int].1.tiles[ti as int].1.levels[l2].len()
                            <= u32::MAX);
                    }
                }
                push_str(sink, &self.groups[gi].group.tile_sets[ti].id);
                push_u32(sink, self.groups[gi].group.tile_sets[ti].set.levels.len() as u32);
                let level_count = self.groups[gi].group.tile_sets[ti].set.levels.len();
                let mut l: usize = 0;
                proof {
                    assert(tmodel.levels.skip(0) =~= tmodel.levels);
                    assert(sink@ + enc_levels(tmodel.levels.skip(0)) + enc_tiles(
                        gtiles.skip(ti as int + 1),
                    ) + enc_groups(m.groups.skip(gi as int + 1)) =~= old(sink)@ + enc_atlas(m));
                }
                while l < level_count
                    invariant
                        m == self@,
                        gi < self.groups@.len(),
                        gtiles == m.groups[gi as int].1.tiles,
                        ti < gtiles.len(),
                        tmodel == gtiles[ti as int].1,
                        level_count == tmodel.levels.len(),
                        l <= level_count,
                        forall|l2: int|
                            0 <= l2 < tmodel.levels.len() ==> (#[trigger] tmodel.levels[l2]).len()
                                <= u32::MAX,
                        forall|l2: int, f2: int|
                            0 <= l2 < tmodel.levels.len() && 0 <= f2 < tmodel.levels[l2].len()
                                ==> (#[trigger] tmodel.levels[l2][f2]).len() <= u32::MAX,
                        sink@ + enc_levels(tmodel.levels.skip(l as int)) + enc_tiles(
                            gtiles.skip(ti as int + 1),
                        ) + enc_groups(m.groups.skip(gi as int + 1)) == old(sink)@ + enc_atlas(
                            m,
                        ),
                    decreases level_count - l,
                {
                    let ghost frames = tmodel.levels[l as int];
                    proof {
                        assert(tmodel.levels.skip(l as int)[0] == tmodel.levels[l as int]);
                        assert(tmodel.levels.skip(l as int).drop_first() =~= tmodel.levels.skip(
                            l as int + 1,
                        ));
                        assert(enc_levels(tmodel.levels.skip(l as int)) == enc_u32(
                            frames.len() as u32,
                        ) + enc_frames(frames) + enc_levels(tmodel.levels.skip(l as int + 1)));
                    }
                    push_u32(
                        sink,
                        self.groups[gi].group.tile_sets[ti].set.levels[l].data.len() as u32,
                    );
                    let frame_count =
                        self.groups[gi].group.tile_sets[ti].set.levels[l].data.len();
                    let mut f: usize = 0;
                    proof {
                        assert(frames.skip(0) =~= frames);
                        assert(sink@ + enc_frames(frames.skip(0)) + enc_levels(
                            tmodel.levels.skip(l as int + 1),
                        ) + enc_tiles(gtiles.skip(ti as int + 1)) + enc_groups(
                            m.groups.skip(gi as int + 1),
                        ) =~= old(sink)@ + enc_atlas(m));
                    }
                    while f < frame_count
                        invariant
                            m == self@,
                            gi < self.groups@.len(),
                            gtiles == m.groups[gi as int].1.tiles,
                            ti < gtiles.len(),
                            tmodel == gtiles[ti as int].1,
                            l < tmodel.levels.len(),
                            frames == tmodel.levels[l as int],
                            frame_count == frames.len(),
                            f <= frame_count,
                            forall|f2: int|
                                0 <= f2 < frames.len() ==> (#[trigger] frames[f2]).len()
                                    <= u32::MAX,
                            sink@ + enc_frames(frames.skip(f as int)) + enc_levels(
                                tmodel.levels.skip(l as int + 1),
                            ) + enc_tiles(gtiles.skip(ti as int + 1)) + enc_groups(
                                m.groups.skip(gi as int + 1),
                            ) == old(sink)@ + enc_atlas(m),
                        decreases frame_count - f,
                    {
                        proof {
                            assert(frames.skip(f as int)[0] == frames[f as int]);
                            assert(frames.skip(f as int).drop_first() =~= frames.skip(
                                f as int + 1,
                            ));
                            assert(enc_frames(frames.skip(f as int)) == enc_blob(
                                frames[f as int],
                            ) + enc_frames(frames.skip(f as int + 1)));
                        }
                        let ghost sink_pre = sink@;
                        push_blob(
                            sink,
                            &self.groups[gi].group.tile_sets[ti].set.levels[l].data[f],
                        );
                        proof {
                            assert(sink@ + enc_frames(frames.skip(f as int + 1)) + enc_levels(
                                tmodel.levels.skip(l as int + 1),
                            ) + enc_tiles(gtiles.skip(ti as int + 1)) + enc_groups(
                                m.groups.skip(gi as int + 1),
                            ) =~= sink_pre + enc_frames(frames.skip(f as int)) + enc_levels(
                                tmodel.levels.skip(l as int + 1),
                            ) + enc_tiles(gtiles.skip(ti as int + 1)) + enc_groups(
                                m.groups.skip(gi as int + 1),
                            ));
                        }
                        f = f + 1;
                    }
                    proof {
                        assert(enc_frames(frames.skip(frames.len() as int)) =~= Seq::<
                            u8,
                        >::empty());
                        assert(sink@ + enc_levels(tmodel.levels.skip(l as int + 1)) + enc_tiles(
                            gtiles.skip(ti as int + 1),
                        ) + enc_groups(m.groups.skip(gi as int + 1)) =~= sink@ + enc_frames(
                            frames.skip(frames.len() as int),
                        ) + enc_levels(tmodel.levels.skip(l as int + 1)) + enc_tiles(
                            gtiles.skip(ti as int + 1),
                        ) + enc_groups(m.groups.skip(gi as int + 1)));
                    }
                    l = l + 1;
                }
                proof {
                    assert(enc_levels(tmodel.levels.skip(tmodel.levels.len() as int)) =~= Seq::<
                        u8,
                    >::empty());
                    assert(sink@ + enc_tiles(gtiles.skip(ti as int + 1)) + enc_groups(
                        m.groups.skip(gi as int + 1),
                    ) =~= sink@ + enc_levels(tmodel.levels.skip(tmodel.levels.len() as int))
                        + enc_tiles(gtiles.skip(ti as int + 1)) + enc_groups(
                        m.groups.skip(gi as int + 1),
                    ));
                }
                ti = ti + 1;
            }
            proof {
                assert(enc_tiles(gtiles.skip(gtiles.len() as int)) =~= Seq::<u8>::empty());
                assert(sink@ + enc_groups(m.groups.skip(gi as int + 1)) =~= sink@ + enc_tiles(
                    gtiles.skip(gtiles.len() as int),
                ) + enc_groups(m.groups.skip(gi as int + 1)));
            }
            gi = gi + 1;
        }
        proof {
            assert(enc_groups(m.groups.skip(m.groups.len() as int)) =~= Seq::<u8>::empty());
            assert(sink@ + enc_groups(m.groups.skip(m.groups.len() as int)) =~= sink@);
        }
    }

    /// Decodes a builder from its binary encoding. Fails when the bytes
    /// do not parse, leave anything unconsumed, or decode to a structure
    /// that is not well-formed.
    pub fn read_uncompressed_from(source: &Vec<u8>) -> (r: Result<
        TileAtlasBuilder,
        TileAtlasBuilderReadError,
    >)
        ensures
            match r {
                Ok(bdr) => dec_atlas(source@) == Some(bdr@) && bdr@.wf(),
                Err(e) => dec_atlas(source@) is None && e == TileAtlasBuilderReadError::Decode,
            },
    {
        let (size, i) = match read_u32(source, 0) {
            Some(p) => p,
            None => {
                return Err(TileAtlasBuilderReadError::Decode);
            },
        };
        let (n, j) = match read_u32(source, i) {
            Some(p) => p,
            None => {
                return Err(TileAtlasBuilderReadError::Decode);
            },
        };
        let (groups, e) = match read_groups(source, j, n) {
            Some(p) => p,
            None => {
                return Err(TileAtlasBuilderReadError::Decode);
            },
        };
        if e != source.len() {
            return Err(TileAtlasBuilderReadError::Decode);
        }
        if !check_atlas_wf(size, &groups) {
            return Err(TileAtlasBuilderReadError::Decode);
        }
        let b = TileAtlasBuilder { size, groups };
        proof {
            assert(b@ =~~= AtlasModel { size, groups: group_entries_view(b.groups@) });
            assert(dec_atlas(source@) == Some(b@));
        }
        Ok(b)
    }

    /// Appends the Brotli-compressed form of the builder's binary
    /// encoding to `sink`: the appended bytes decode back to exactly
    /// `enc_atlas` of this builder.
    pub fn write_compressed_to(&self, sink: &mut Vec<u8>)
        requires
            self@.wf(),
            enc_sizes_ok(self@),
        ensures
            final(sink)@.len() >= old(sink)@.len(),
            final(sink)@.subrange(0, old(sink)@.len() as int) == old(sink)@,
            spec_brotli_decode(final(sink)@.skip(old(sink)@.len() as int)) == Some(
                enc_atlas(self@),
            ),
    {
        let mut raw: Vec<u8> = Vec::new();
        self.write_uncompressed_to(&mut raw);
        let ghost comp_pre = sink@;
        let mut comp = brotli_compress(&raw);
        let ghost comp_view = comp@;
        sink.append(&mut comp);
        proof {
            assert(raw@ =~= enc_atlas(self@));
            assert(sink@.subrange(0, old(sink)@.len() as int) =~= old(sink)@);
            assert(sink@.skip(old(sink)@.len() as int) =~= comp_view);
        }
    }

    /// Decodes a builder from the Brotli-compressed form of its binary
    /// encoding: a stream the decoder cannot recover reads as an I/O
    /// error, a recovered payload that does not parse as a decode
    /// error. Bytes produced by `write_compressed_to` from a
    /// well-formed builder always read back as that builder.
    pub fn read_compressed_from(source: &Vec<u8>) -> (r: Result<
        TileAtlasBuilder,
        TileAtlasBuilderReadError,
    >)
        ensures
            r is Ok ==> r.unwrap()@.wf(),
            spec_brotli_decode(source@) is None <==> r == Err::<
                TileAtlasBuilder,
                TileAtlasBuilderReadError,
            >(TileAtlasBuilderReadError::Io),
            forall|raw: Seq<u8>|
                spec_brotli_decode(source@) == Some(raw) ==> (match r {
                    Ok(b) => dec_atlas(raw) == Some(b@),
                    Err(e) => dec_atlas(raw) is None && e == TileAtlasBuilderReadError::Decode,
                }),
            forall|m: AtlasModel|
                spec_brotli_decode(source@) == Some(enc_atlas(m)) && m.wf() && enc_sizes_ok(
                    m,
                ) ==> r is Ok && r.unwrap()@ == m,
    {
        match brotli_decompress(source) {
            Some(raw) => {
                let r = Self::read_uncompressed_from(&raw);
                proof {
                    assert forall|m: AtlasModel|
                        spec_brotli_decode(source@) == Some(enc_atlas(m)) && m.wf()
                            && enc_sizes_ok(m) implies r is Ok && r.unwrap()@ == m by {
                        assert(raw@ == enc_atlas(m));
                        lemma_codec_round_trip(m);
                    }
                }
                r
            },
            None => Err(TileAtlasBuilderReadError::Io),
        }
    }
}

/// Whether every level of the tile holds no frames.
fn all_levels_empty(set: &TileAtlasBuilderSet) -> (r: bool)
    ensures
        r == tile_is_empty(set@),
{
    let mut l: usize = 0;
    while l < set.levels.len()
        invariant
            l <= set.levels@.len(),
            forall|j: int| 0 <= j < l ==> (#[trigger] set@.levels[j]).len() == 0,
        decreases set.levels@.len() - l,
    {
        if set.levels[l].data.len() > 0 {
            proof {
                assert(set@.levels[l as int].len() > 0);
            }
            return false;
        }
        l = l + 1;
    }
    true
}

impl TileAtlasBuilder {
    /// Merges another builder of the same base size into this one, group
    /// by group in the other's order: tiles of a shared group overwrite
    /// tiles of the same name here, a new group is appended whole.
    pub fn merge(&mut self, other: TileAtlasBuilder)
        requires
            old(self)@.wf(),
            other@.wf(),
            other@.size == old(self)@.size,
        ensures
            final(self)@ == model_merge(old(self)@, other@.groups),
            final(self)@.wf(),
    {
        let ghost m0 = self@;
        let ghost adds = other@.groups;
        let mut rest = other.groups;
        proof {
            assert(group_entries_view(rest@) =~= adds);
            assert forall|i: int| 0 <= i < rest@.len() implies (#[trigger] rest@[i]).group@.wf(
                m0.size,
            ) by {
                assert(other@.groups[i].1.wf(other@.size));
            }
        }
        while rest.len() > 0
            invariant
                self@.wf(),
                self@.size == m0.size,
                model_merge(m0, adds) == model_merge(self@, group_entries_view(rest@)),
                forall|i: int|
                    0 <= i < rest@.len() ==> (#[trigger] rest@[i]).group@.wf(m0.size),
            decreases rest@.len(),
        {
            let ghost m_before = self@;
            let ghost eb = group_entries_view(rest@);
            let entry = rest.remove(0);
            proof {
                assert(eb[0] == (entry.id@, entry.group@));
                assert(group_entries_view(rest@) =~= eb.drop_first());
            }
            let ghost p = eb[0];
            let ghost g2 = if has_key(m_before.groups, p.0) {
                GroupModel {
                    tiles: upsert_all(key_get(m_before.groups, p.0).tiles, p.1.tiles),
                }
            } else {
                p.1
            };
            let ghost m2 = AtlasModel {
                size: m_before.size,
                groups: upsert(m_before.groups, p.0, g2),
            };
            match find_group_entry(&self.groups, entry.id.as_str()) {
                Some(gi) => {
                    proof {
                        lemma_key_at(m_before.groups, p.0, gi as int);
                    }
                    let ghost t0 = key_get(m_before.groups, p.0).tiles;
                    let ghost gvec0 = self.groups@;
                    let mut gentry = self.groups.remove(gi);
                    let mut tiles = entry.group.tile_sets;
                    proof {
                        assert(gentry.group@.tiles =~= t0);
                        assert(tile_entries_view(tiles@) =~= p.1.tiles);
                    }
                    while tiles.len() > 0
                        invariant
                            gentry.id@ == p.0,
                            keys_unique(gentry.group@.tiles),
                            upsert_all(t0, p.1.tiles) == upsert_all(
                                gentry.group@.tiles,
                                tile_entries_view(tiles@),
                            ),
                        decreases tiles@.len(),
                    {
                        let ghost tb = tile_entries_view(tiles@);
                        let ghost cur = gentry.group@.tiles;
                        let tentry = tiles.remove(0);
                        proof {
                            assert(tb[0] == (tentry.id@, tentry.set@));
                            assert(tile_entries_view(tiles@) =~= tb.drop_first());
                            lemma_upsert(cur, tentry.id@, tentry.set@);
                        }
                        match find_tile_entry(&gentry.group.tile_sets, tentry.id.as_str()) {
                            Some(ti) => {
                                proof {
                                    lemma_key_at(cur, tentry.id@, ti as int);
                                }
                                gentry.group.tile_sets[ti] = tentry;
                                proof {
                                    assert(gentry.group@.tiles =~= upsert(
                                        cur,
                                        tb[0].0,
                                        tb[0].1,
                                    ));
                                }
                            },
                            None => {
                                proof {
                                    if has_key(cur, tentry.id@) {
                                        let j = key_idx(cur, tentry.id@);
                                        assert(gentry.group.tile_sets@[j].id@ == tentry.id@);
                                    }
                                }
                                gentry.group.tile_sets.push(tentry);
                                proof {
                                    assert(gentry.group@.tiles =~= upsert(
                                        cur,
                                        tb[0].0,
                                        tb[0].1,
                                    ));
                                }
                            },
                        }
                    }
                    proof {
                        assert(tile_entries_view(tiles@) =~= Seq::<
                            (Seq<char>, TileModel),
                        >::empty());
                        assert(gentry.group@.tiles == upsert_all(t0, p.1.tiles));
                        assert(gentry.group@ =~~= g2);
                    }
                    let ghost gentry_final = gentry;
                    self.groups.insert(gi, gentry);
                    proof {
                        lemma_remove_insert(gvec0, gi as int, gentry_final);
                        assert(self.groups@ =~= gvec0.update(gi as int, gentry_final));
                        assert(gentry_final.id@ == p.0);
                        assert(gentry_final.group@ =~~= g2);
                        assert(self@.groups =~= m_before.groups.update(gi as int, (p.0, g2)));
                        assert(self@ =~~= m2);
                    }
                },
                None => {
                    proof {
                        if has_key(m_before.groups, p.0) {
                            let j = key_idx(m_before.groups, p.0);
                            assert(self.groups@[j].id@ == p.0);
                        }
                    }
                    self.groups.push(entry);
                    proof {
                        assert(self@.groups =~= m_before.groups.push((p.0, p.1)));
                        assert(self@ =~~= m2);
                    }
                },
            }
            proof {
                let single = eb.take(1);
                assert(single.len() == 1);
                assert(single[0] == p);
                assert(single.drop_first() =~= Seq::<(Seq<char>, GroupModel)>::empty());
                assert(model_merge(m2, Seq::<(Seq<char>, GroupModel)>::empty()) == m2);
                assert(model_merge(m_before, single) == m2);
                lemma_model_merge_wf(m_before, single);
                assert(model_merge(m_before, eb) == model_merge(m2, eb.drop_first()));
            }
        }
        proof {
            assert(group_entries_view(rest@) =~= Seq::<(Seq<char>, GroupModel)>::empty());
        }
    }

    /// Removes the tile `group_id` / `tile_id` and returns it; a group
    /// left without tiles is removed too.
    pub fn remove(&mut self, group_id: &str, tile_id: &str) -> (r: Option<TileAtlasBuilderSet>)
        requires
            old(self)@.wf(),
        ensures
            final(self)@ == model_remove(old(self)@, group_id@, tile_id@),
            final(self)@.wf(),
            match r {
                Some(t) => old(self)@.get_tile(group_id@, tile_id@) == Some(t@),
                None => old(self)@.get_tile(group_id@, tile_id@) is None,
            },
    {
        let ghost m0 = self@;
        proof {
            lemma_model_remove_wf(m0, group_id@, tile_id@);
        }
        let gi = match find_group_entry(&self.groups, group_id) {
            Some(i) => i,
            None => {
                proof {
                    if has_key(m0.groups, group_id@) {
                        let j = key_idx(m0.groups, group_id@);
                        assert(self.groups@[j].id@ == group_id@);
                    }
                }
                return None;
            },
        };
        proof {
            lemma_key_at(m0.groups, group_id@, gi as int);
        }
        let ghost g = key_get(m0.groups, group_id@);
        let mut gentry = self.groups.remove(gi);
        let ti = match find_tile_entry(&gentry.group.tile_sets, tile_id) {
            Some(i) => i,
            None => {
                proof {
                    if has_key(g.tiles, tile_id@) {
                        let j = key_idx(g.tiles, tile_id@);
                        assert(gentry.group.tile_sets@[j].id@ == tile_id@);
                    }
                }
                self.groups.insert(gi, gentry);
                proof {
                    lemma_remove_insert(
                        m0.groups,
                        gi as int,
                        (gentry.id@, gentry.group@),
                    );
                    assert(self@.groups =~= m0.groups.update(
                        gi as int,
                        (gentry.id@, gentry.group@),
                    ));
                    assert(self@.groups =~= m0.groups);
                    assert(self@ =~~= m0);
                }
                return None;
            },
        };
        proof {
            lemma_key_at(g.tiles, tile_id@, ti as int);
            lemma_remove_key(g.tiles, tile_id@);
        }
        let tentry = gentry.group.tile_sets.remove(ti);
        proof {
            assert(gentry.group@.tiles =~= remove_key(g.tiles, tile_id@));
        }
        if gentry.group.tile_sets.len() == 0 {
            proof {
                lemma_remove_key(m0.groups, group_id@);
                assert(self@.groups =~= remove_key(m0.groups, group_id@));
                assert(self@ =~~= model_remove(m0, group_id@, tile_id@));
            }
        } else {
            let ghost g2 = GroupModel { tiles: remove_key(g.tiles, tile_id@) };
            self.groups.insert(gi, gentry);
            proof {
                assert(self@.groups =~= m0.groups.update(gi as int, (group_id@, g2)));
                lemma_upsert(m0.groups, group_id@, g2);
                assert(self@ =~~= model_remove(m0, group_id@, tile_id@));
            }
        }
        Some(tentry.set)
    }

    /// Removes one mip level's frame sequence from the tile
    /// `group_id` / `tile_id` and returns it. A tile left without frames
    /// at every level is removed, cascading to its group.
    pub fn remove_level(&mut self, group_id: &str, tile_id: &str, level: u32) -> (r: Option<
        TileAtlasBuilderImageSequence,
    >)
        requires
            old(self)@.wf(),
        ensures
            final(self)@ == model_remove_level(old(self)@, group_id@, tile_id@, level),
            final(self)@.wf(),
            r is Some <==> (level < spec_mip_levels_max(old(self)@.size) && old(self)@.get_tile(
                group_id@,
                tile_id@,
            ) is Some),
            r is Some ==> r.unwrap()@ == old(self)@.get_tile(
                group_id@,
                tile_id@,
            ).unwrap().levels[level as int],
    {
        let ghost m0 = self@;
        let max = mip_levels_max(self.size);
        proof {
            lemma_trailing_zeros_le_32(self.size);
        }
        if level >= max {
            return None;
        }
        let gi = match find_group_entry(&self.groups, group_id) {
            Some(i) => i,
            None => {
                proof {
                    if has_key(m0.groups, group_id@) {
                        let j = key_idx(m0.groups, group_id@);
                        assert(self.groups@[j].id@ == group_id@);
                    }
                }
                return None;
            },
        };
        proof {
            lemma_key_at(m0.groups, group_id@, gi as int);
        }
        let ghost g = key_get(m0.groups, group_id@);
        let ghost gvec0 = self.groups@;
        let mut gentry = self.groups.remove(gi);
        let ti = match find_tile_entry(&gentry.group.tile_sets, tile_id) {
            Some(i) => i,
            None => {
                proof {
                    if has_key(g.tiles, tile_id@) {
                        let j = key_idx(g.tiles, tile_id@);
                        assert(gentry.group.tile_sets@[j].id@ == tile_id@);
                    }
                }
                let ghost gentry_back = gentry;
                self.groups.insert(gi, gentry);
                proof {
                    lemma_remove_insert(gvec0, gi as int, gentry_back);
                    assert(self.groups@ =~= gvec0.update(gi as int, gentry_back));
                    assert(self@.groups =~= m0.groups);
                    assert(self@ =~~= m0);
                }
                return None;
            },
        };
        proof {
            lemma_key_at(g.tiles, tile_id@, ti as int);
        }
        let ghost t = key_get(g.tiles, tile_id@);
        let ghost tvec0 = gentry.group.tile_sets@;
        let mut tentry = gentry.group.tile_sets.remove(ti);
        proof {
            assert(t.wf(m0.size));
        }
        let mut sequence = tentry.set.levels.remove(level as usize);
        tentry.set.levels.insert(
            level as usize,
            TileAtlasBuilderImageSequence { data: Vec::new() },
        );
        let ghost t2 = clear_levels(t, level as int, level as int + 1);
        proof {
            lemma_remove_insert(
                t.levels,
                level as int,
                Seq::<Seq<u8>>::empty(),
            );
            assert(tentry.set@.levels =~~= t.levels.update(
                level as int,
                Seq::<Seq<u8>>::empty(),
            ));
            assert(tentry.set@ =~~= t2);
            lemma_clear_levels_wf(t, m0.size, level as int, level as int + 1);
            lemma_model_update_tile_gc_wf(m0, group_id@, tile_id@, t2);
        }
        let now_empty = all_levels_empty(&tentry.set);
        if now_empty {
            proof {
                lemma_remove_key(g.tiles, tile_id@);
                assert(gentry.group@.tiles =~= remove_key(g.tiles, tile_id@));
            }
            if gentry.group.tile_sets.len() == 0 {
                proof {
                    lemma_remove_key(m0.groups, group_id@);
                    assert(self@.groups =~= remove_key(m0.groups, group_id@));
                    assert(self@ =~~= model_remove(m0, group_id@, tile_id@));
                }
            } else {
                let ghost g2 = GroupModel { tiles: remove_key(g.tiles, tile_id@) };
                let ghost gentry_back = gentry;
                self.groups.insert(gi, gentry);
                proof {
                    lemma_remove_insert(gvec0, gi as int, gentry_back);
                    assert(self.groups@ =~= gvec0.update(gi as int, gentry_back));
                    assert(self@.groups =~= m0.groups.update(gi as int, (group_id@, g2)));
                    lemma_upsert(m0.groups, group_id@, g2);
                    assert(self@ =~~= model_remove(m0, group_id@, tile_id@));
                }
            }
        } else {
            let ghost g2 = GroupModel { tiles: upsert(g.tiles, tile_id@, t2) };
            let ghost tentry_back = tentry;
            gentry.group.tile_sets.insert(ti, tentry);
            let ghost gentry_back = gentry;
            self.groups.insert(gi, gentry);
            proof {
                lemma_remove_insert(tvec0, ti as int, tentry_back);
                assert(gentry_back.group.tile_sets@ =~= tvec0.update(ti as int, tentry_back));
                assert(gentry_back.group@.tiles =~= g.tiles.update(
                    ti as int,
                    (tile_id@, t2),
                ));
                lemma_upsert(g.tiles, tile_id@, t2);
                assert(gentry_back.group@.tiles =~= upsert(g.tiles, tile_id@, t2));
                lemma_remove_insert(gvec0, gi as int, gentry_back);
                assert(self.groups@ =~= gvec0.update(gi as int, gentry_back));
                assert(self@.groups =~= m0.groups.update(gi as int, (group_id@, g2)));
                lemma_upsert(m0.groups, group_id@, g2);
                assert(self@ =~~= model_update_tile_gc(m0, group_id@, tile_id@, t2));
            }
        }
        proof {
            assert(sequence@ == t.levels[level as int]);
        }
        Some(sequence)
    }

    /// Clears the frame sequences of the mip levels
    /// `levels_start <= l < levels_end` of the tile `group_id` / `tile_id`.
    /// A tile left without frames at every level is removed, cascading to
    /// its group.
    pub fn remove_levels(&mut self, group_id: &str, tile_id: &str, levels_start: u32, levels_end: u32)
        requires
            old(self)@.wf(),
        ensures
            final(self)@ == model_remove_levels(
                old(self)@,
                group_id@,
                tile_id@,
                levels_start,
                levels_end,
            ),
            final(self)@.wf(),
    {
        let ghost m0 = self@;
        let gi = match find_group_entry(&self.groups, group_id) {
            Some(i) => i,
            None => {
                proof {
                    if has_key(m0.groups, group_id@) {
                        let j = key_idx(m0.groups, group_id@);
                        assert(self.groups@[j].id@ == group_id@);
                    }
                }
                return ;
            },
        };
        proof {
            lemma_key_at(m0.groups, group_id@, gi as int);
        }
        let ghost g = key_get(m0.groups, group_id@);
        let ghost gvec0 = self.groups@;
        let mut gentry = self.groups.remove(gi);
        let ti = match find_tile_entry(&gentry.group.tile_sets, tile_id) {
            Some(i) => i,
            None => {
                proof {
                    if has_key(g.tiles, tile_id@) {
                        let j = key_idx(g.tiles, tile_id@);
                        assert(gentry.group.tile_sets@[j].id@ == tile_id@);
                    }
                }
                let ghost gentry_back = gentry;
                self.groups.insert(gi, gentry);
                proof {
                    lemma_remove_insert(gvec0, gi as int, gentry_back);
                    assert(self.groups@ =~= gvec0.update(gi as int, gentry_back));
                    assert(self@.groups =~= m0.groups);
                    assert(self@ =~~= m0);
                }
                return ;
            },
        };
        proof {
            lemma_key_at(g.tiles, tile_id@, ti as int);
        }
        let ghost t = key_get(g.tiles, tile_id@);
        let ghost tvec0 = gentry.group.tile_sets@;
        let mut tentry = gentry.group.tile_sets.remove(ti);
        proof {
            assert(t.wf(m0.size));
            lemma_trailing_zeros_le_32(self.size);
        }
        let len = tentry.set.levels.len();
        let mut l: u32 = levels_start;
        while (l as usize) < len && l < levels_end
            invariant
                len == t.levels.len(),
                levels_start <= l,
                l <= levels_end || l == levels_start,
                tentry.set@.levels.len() == len,
                tentry.id@ == tile_id@,
                forall|j: int|
                    0 <= j < len && !(levels_start <= j < l) ==> tentry.set@.levels[j]
                        == t.levels[j],
                forall|j: int|
                    levels_start <= j < l && j < len ==> (#[trigger] tentry.set@.levels[j]).len()
                        == 0,
            decreases levels_end - l,
        {
            let ghost before = tentry.set@.levels;
            tentry.set.levels[l as usize] = TileAtlasBuilderImageSequence { data: Vec::new() };
            proof {
                assert forall|j: int| 0 <= j < len && j != l implies tentry.set@.levels[j]
                    == before[j] by {
                    assert(tentry.set.levels@[j] == tentry.set.levels@.update(
                        l as int,
                        tentry.set.levels@[l as int],
                    )[j]);
                }
                assert(tentry.set@.levels[l as int].len() == 0);
                assert forall|j: int|
                    levels_start <= j < l + 1 && j < len implies (
                #[trigger] tentry.set@.levels[j]).len() == 0 by {
                    if j < l {
                        assert(before[j].len() == 0);
                        assert(tentry.set@.levels[j] == before[j]);
                    }
                }
            }
            l = l + 1;
        }
        let ghost t2 = clear_levels(t, levels_start as int, levels_end as int);
        proof {
            assert(tentry.set@ =~~= t2);
            lemma_clear_levels_wf(t, m0.size, levels_start as int, levels_end as int);
            lemma_model_update_tile_gc_wf(m0, group_id@, tile_id@, t2);
        }
        let now_empty = all_levels_empty(&tentry.set);
        if now_empty {
            proof {
                lemma_remove_key(g.tiles, tile_id@);
                assert(gentry.group@.tiles =~= remove_key(g.tiles, tile_id@));
            }
            if gentry.group.tile_sets.len() == 0 {
                proof {
                    lemma_remove_key(m0.groups, group_id@);
                    assert(self@.groups =~= remove_key(m0.groups, group_id@));
                    assert(self@ =~~= model_remove(m0, group_id@, tile_id@));
                }
            } else {
                let ghost g2 = GroupModel { tiles: remove_key(g.tiles, tile_id@) };
                let ghost gentry_back = gentry;
                self.groups.insert(gi, gentry);
                proof {
                    lemma_remove_insert(gvec0, gi as int, gentry_back);
                    assert(self.groups@ =~= gvec0.update(gi as int, gentry_back));
                    assert(self@.groups =~= m0.groups.update(gi as int, (group_id@, g2)));
                    lemma_upsert(m0.groups, group_id@, g2);
                    assert(self@ =~~= model_remove(m0, group_id@, tile_id@));
                }
            }
        } else {
            let ghost g2 = GroupModel { tiles: upsert(g.tiles, tile_id@, t2) };
            let ghost tentry_back = tentry;
            gentry.group.tile_sets.insert(ti, tentry);
            let ghost gentry_back = gentry;
            self.groups.insert(gi, gentry);
            proof {
                lemma_remove_insert(tvec0, ti as int, tentry_back);
                assert(gentry_back.group.tile_sets@ =~= tvec0.update(ti as int, tentry_back));
                assert(gentry_back.group@.tiles =~= g.tiles.update(
                    ti as int,
                    (tile_id@, t2),
                ));
                lemma_upsert(g.tiles, tile_id@, t2);
                assert(gentry_back.group@.tiles =~= upsert(g.tiles, tile_id@, t2));
                lemma_remove_insert(gvec0, gi as int, gentry_back);
                assert(self.groups@ =~= gvec0.update(gi as int, gentry_back));
                assert(self@.groups =~= m0.groups.update(gi as int, (group_id@, g2)));
                lemma_upsert(m0.groups, group_id@, g2);
                assert(self@ =~~= model_update_tile_gc(m0, group_id@, tile_id@, t2));
            }
        }
    }
}

} // verus!
