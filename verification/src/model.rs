use vstd::prelude::*;
use crate::mip::is_pow2;
use crate::mip::spec_mip_levels_max;
use crate::mip::spec_mip_level_data_len;
use crate::mip::TILE_SIZE_MAX;

verus! {

/// Model of one tile: per mip level, the list of its frames' raw bytes.
/// Frame `f` at level `l` depicts the same animation frame as frame `f`
/// at level 0, reduced `l` times.
#[verifier::ext_equal]
pub struct TileModel {
    pub levels: Seq<Seq<Seq<u8>>>,
}

/// Model of a named group: its tiles as an ordered association sequence.
#[verifier::ext_equal]
pub struct GroupModel {
    pub tiles: Seq<(Seq<char>, TileModel)>,
}

/// Model of the whole builder: the base tile edge length and the groups
/// as an ordered association sequence.
#[verifier::ext_equal]
pub struct AtlasModel {
    pub size: u32,
    pub groups: Seq<(Seq<char>, GroupModel)>,
}

/// No two entries of the association sequence share a key.
pub open spec fn keys_unique<V>(s: Seq<(Seq<char>, V)>) -> bool {
    forall|i: int, j: int|
        #![trigger s[i].0, s[j].0]
        0 <= i < j < s.len() ==> s[i].0 != s[j].0
}

/// Some entry of the association sequence has key `k`.
pub open spec fn has_key<V>(s: Seq<(Seq<char>, V)>, k: Seq<char>) -> bool {
    exists|i: int| 0 <= i < s.len() && (#[trigger] s[i]).0 == k
}

/// The index of the entry with key `k`; meaningful under `keys_unique`
/// and `has_key`.
pub open spec fn key_idx<V>(s: Seq<(Seq<char>, V)>, k: Seq<char>) -> int {
    choose|i: int| 0 <= i < s.len() && (#[trigger] s[i]).0 == k
}

/// The value stored under key `k`; meaningful under `has_key`.
pub open spec fn key_get<V>(s: Seq<(Seq<char>, V)>, k: Seq<char>) -> V {
    s[key_idx(s, k)].1
}

/// Replaces the value under `k` in place, or appends a new entry at the
/// end when the key is absent.
pub open spec fn upsert<V>(s: Seq<(Seq<char>, V)>, k: Seq<char>, v: V) -> Seq<(Seq<char>, V)> {
    if has_key(s, k) {
        s.update(key_idx(s, k), (k, v))
    } else {
        s.push((k, v))
    }
}

/// Removes the entry under `k`, if any, keeping the order of the rest.
pub open spec fn remove_key<V>(s: Seq<(Seq<char>, V)>, k: Seq<char>) -> Seq<(Seq<char>, V)> {
    if has_key(s, k) {
        s.remove(key_idx(s, k))
    } else {
        s
    }
}

/// Taking an element out and putting another back at the same place is an
/// update.
pub proof fn lemma_remove_insert<T>(s: Seq<T>, i: int, x: T)
    requires
        0 <= i < s.len(),
    ensures
        s.remove(i).insert(i, x) =~= s.update(i, x),
{
}

/// An entry found at index `i` pins down `key_idx` and `key_get` when the
/// keys are unique.
pub proof fn lemma_key_at<V>(s: Seq<(Seq<char>, V)>, k: Seq<char>, i: int)
    requires
        keys_unique(s),
        0 <= i < s.len(),
        s[i].0 == k,
    ensures
        has_key(s, k),
        key_idx(s, k) == i,
        key_get(s, k) == s[i].1,
{
    assert(has_key(s, k));
    let j = key_idx(s, k);
    assert(0 <= j < s.len() && s[j].0 == k);
    if i < j {
        assert(s[i].0 != s[j].0);
    } else if j < i {
        assert(s[j].0 != s[i].0);
    }
}

/// `upsert` keeps keys unique and leaves every other key's value alone.
pub proof fn lemma_upsert<V>(s: Seq<(Seq<char>, V)>, k: Seq<char>, v: V)
    requires
        keys_unique(s),
    ensures
        keys_unique(upsert(s, k, v)),
        has_key(upsert(s, k, v), k),
        key_get(upsert(s, k, v), k) == v,
        forall|k2: Seq<char>|
            k2 != k ==> #[trigger] has_key(upsert(s, k, v), k2) == has_key(s, k2),
        forall|k2: Seq<char>|
            k2 != k && has_key(s, k2) ==> #[trigger] key_get(upsert(s, k, v), k2) == key_get(
                s,
                k2,
            ),
{
    let s2 = upsert(s, k, v);
    if has_key(s, k) {
        let i = key_idx(s, k);
        assert(0 <= i < s.len() && s[i].0 == k);
        assert forall|a: int, b: int| 0 <= a < b < s2.len() implies (#[trigger] s2[a].0)
            != (#[trigger] s2[b].0) by {
            assert(s[a].0 != s[b].0);
        }
        lemma_key_at(s2, k, i);
        assert forall|k2: Seq<char>| k2 != k implies #[trigger] has_key(s2, k2) == has_key(
            s,
            k2,
        ) by {
            if has_key(s, k2) {
                let j = key_idx(s, k2);
                assert(s2[j].0 == k2);
                assert(has_key(s2, k2));
            }
            if has_key(s2, k2) {
                let j = choose|j: int| 0 <= j < s2.len() && (#[trigger] s2[j]).0 == k2;
                assert(s[j].0 == k2);
                assert(has_key(s, k2));
            }
        }
        assert forall|k2: Seq<char>| k2 != k && has_key(s, k2) implies #[trigger] key_get(s2, k2)
            == key_get(s, k2) by {
            let j = key_idx(s, k2);
            assert(0 <= j < s.len() && s[j].0 == k2);
            assert(j != i);
            lemma_key_at(s2, k2, j);
        }
    } else {
        assert forall|a: int, b: int| 0 <= a < b < s2.len() implies (#[trigger] s2[a].0)
            != (#[trigger] s2[b].0) by {
            if b < s.len() {
                assert(s[a].0 != s[b].0);
            } else {
                assert(s2[b].0 == k);
                assert(s2[a] == s[a]);
                assert(!has_key(s, k));
                if s[a].0 == k {
                    assert(has_key(s, k));
                }
            }
        }
        lemma_key_at(s2, k, s.len() as int);
        assert forall|k2: Seq<char>| k2 != k implies #[trigger] has_key(s2, k2) == has_key(
            s,
            k2,
        ) by {
            if has_key(s, k2) {
                let j = key_idx(s, k2);
                assert(s2[j].0 == k2);
            }
            if has_key(s2, k2) {
                let j = choose|j: int| 0 <= j < s2.len() && (#[trigger] s2[j]).0 == k2;
                assert(j < s.len());
                assert(s[j].0 == k2);
            }
        }
        assert forall|k2: Seq<char>| k2 != k && has_key(s, k2) implies #[trigger] key_get(s2, k2)
            == key_get(s, k2) by {
            let j = key_idx(s, k2);
            assert(0 <= j < s.len() && s[j].0 == k2);
            lemma_key_at(s2, k2, j);
        }
    }
}

/// `remove_key` keeps keys unique, drops `k`, and leaves every other
/// key's value alone.
pub proof fn lemma_remove_key<V>(s: Seq<(Seq<char>, V)>, k: Seq<char>)
    requires
        keys_unique(s),
    ensures
        keys_unique(remove_key(s, k)),
        !has_key(remove_key(s, k), k),
        forall|k2: Seq<char>|
            k2 != k ==> #[trigger] has_key(remove_key(s, k), k2) == has_key(s, k2),
        forall|k2: Seq<char>|
            k2 != k && has_key(s, k2) ==> #[trigger] key_get(remove_key(s, k), k2) == key_get(
                s,
                k2,
            ),
{
    if !has_key(s, k) {
        return ;
    }
    let i = key_idx(s, k);
    assert(0 <= i < s.len() && s[i].0 == k);
    let s2 = s.remove(i);
    assert forall|a: int, b: int| 0 <= a < b < s2.len() implies (#[trigger] s2[a].0)
        != (#[trigger] s2[b].0) by {
        let a0 = if a < i {
            a
        } else {
            a + 1
        };
        let b0 = if b < i {
            b
        } else {
            b + 1
        };
        assert(s2[a] == s[a0] && s2[b] == s[b0]);
        assert(s[a0].0 != s[b0].0);
    }
    assert forall|j: int| 0 <= j < s2.len() implies (#[trigger] s2[j]).0 != k by {
        let j0 = if j < i {
            j
        } else {
            j + 1
        };
        assert(s2[j] == s[j0]);
        if j0 < i {
            assert(s[j0].0 != s[i].0);
        } else {
            assert(s[i].0 != s[j0].0);
        }
    }
    assert forall|k2: Seq<char>| k2 != k implies #[trigger] has_key(s2, k2) == has_key(s, k2) by {
        if has_key(s, k2) {
            let j = key_idx(s, k2);
            assert(0 <= j < s.len() && s[j].0 == k2);
            assert(j != i);
            let j2 = if j < i {
                j
            } else {
                j - 1
            };
            assert(s2[j2] == s[j]);
            assert(has_key(s2, k2));
        }
        if has_key(s2, k2) {
            let j = choose|j: int| 0 <= j < s2.len() && (#[trigger] s2[j]).0 == k2;
            let j0 = if j < i {
                j
            } else {
                j + 1
            };
            assert(s2[j] == s[j0]);
            assert(has_key(s, k2));
        }
    }
    assert forall|k2: Seq<char>| k2 != k && has_key(s, k2) implies #[trigger] key_get(s2, k2)
        == key_get(s, k2) by {
        let j = key_idx(s, k2);
        assert(0 <= j < s.len() && s[j].0 == k2);
        assert(j != i);
        let j2 = if j < i {
            j
        } else {
            j - 1
        };
        assert(s2[j2] == s[j]);
        lemma_key_at(s2, k2, j2);
    }
}

impl TileModel {
    /// Every level holds frames of exactly that level's byte length, and
    /// the level list is as deep as the mip chain of `size`.
    pub open spec fn wf(self, size: u32) -> bool {
        &&& self.levels.len() == spec_mip_levels_max(size)
        &&& forall|l: int, f: int|
            0 <= l < self.levels.len() && 0 <= f < self.levels[l].len() ==> (#[trigger] self.levels[l][f]).len()
                == spec_mip_level_data_len(size, l as u32)
    }
}

impl GroupModel {
    pub open spec fn wf(self, size: u32) -> bool {
        &&& keys_unique(self.tiles)
        &&& forall|t: int| 0 <= t < self.tiles.len() ==> (#[trigger] self.tiles[t]).1.wf(size)
    }
}

impl AtlasModel {
    pub open spec fn wf(self) -> bool {
        &&& is_pow2(self.size as nat)
        &&& self.size <= TILE_SIZE_MAX
        &&& keys_unique(self.groups)
        &&& forall|g: int| 0 <= g < self.groups.len() ==> (#[trigger] self.groups[g]).1.wf(
            self.size,
        )
    }

    /// The group stored under `gid`, if any.
    pub open spec fn get_group(self, gid: Seq<char>) -> Option<GroupModel> {
        if has_key(self.groups, gid) {
            Some(key_get(self.groups, gid))
        } else {
            None
        }
    }

    /// The tile stored under `gid` / `tid`, if any.
    pub open spec fn get_tile(self, gid: Seq<char>, tid: Seq<char>) -> Option<TileModel> {
        match self.get_group(gid) {
            Some(g) => if has_key(g.tiles, tid) {
                Some(key_get(g.tiles, tid))
            } else {
                None
            },
            None => None,
        }
    }
}

/// A tile with the full mip chain for base size `size` and no frames yet.
pub open spec fn empty_tile(size: u32) -> TileModel {
    TileModel { levels: Seq::new(spec_mip_levels_max(size), |l: int| Seq::empty()) }
}

/// The model after an insertion: the frame list at `level` of the tile
/// `gid` / `tid` is replaced by `frames`, every other level kept; a
/// missing group or tile is created first, at the end of its sequence.
pub open spec fn model_insert(
    m: AtlasModel,
    gid: Seq<char>,
    tid: Seq<char>,
    level: u32,
    frames: Seq<Seq<u8>>,
) -> AtlasModel {
    let g = match m.get_group(gid) {
        Some(g) => g,
        None => GroupModel { tiles: Seq::empty() },
    };
    let t = if has_key(g.tiles, tid) {
        key_get(g.tiles, tid)
    } else {
        empty_tile(m.size)
    };
    let t2 = TileModel { levels: t.levels.update(level as int, frames) };
    AtlasModel {
        size: m.size,
        groups: upsert(m.groups, gid, GroupModel { tiles: upsert(g.tiles, tid, t2) }),
    }
}

/// Every level of the tile holds no frames.
pub open spec fn tile_is_empty(t: TileModel) -> bool {
    forall|l: int| 0 <= l < t.levels.len() ==> (#[trigger] t.levels[l]).len() == 0
}

/// `t` with the frame lists at levels `from <= l < to` emptied and every
/// other level kept.
pub open spec fn clear_levels(t: TileModel, from: int, to: int) -> TileModel {
    TileModel {
        levels: Seq::new(
            t.levels.len(),
            |l: int|
                if from <= l < to {
                    Seq::empty()
                } else {
                    t.levels[l]
                },
        ),
    }
}

/// The model after removing the tile `gid` / `tid`: the tile leaves its
/// group, and a group left without tiles leaves the builder.
pub open spec fn model_remove(m: AtlasModel, gid: Seq<char>, tid: Seq<char>) -> AtlasModel {
    match m.get_group(gid) {
        Some(g) => if has_key(g.tiles, tid) {
            let g2 = GroupModel { tiles: remove_key(g.tiles, tid) };
            if g2.tiles.len() == 0 {
                AtlasModel { size: m.size, groups: remove_key(m.groups, gid) }
            } else {
                AtlasModel { size: m.size, groups: upsert(m.groups, gid, g2) }
            }
        } else {
            m
        },
        None => m,
    }
}

/// Replaces the tile `gid` / `tid` (which must exist) by `t2`, except
/// that a tile emptied of all frames is removed instead, cascading to
/// its group.
pub open spec fn model_update_tile_gc(
    m: AtlasModel,
    gid: Seq<char>,
    tid: Seq<char>,
    t2: TileModel,
) -> AtlasModel {
    if tile_is_empty(t2) {
        model_remove(m, gid, tid)
    } else {
        let g = key_get(m.groups, gid);
        AtlasModel {
            size: m.size,
            groups: upsert(m.groups, gid, GroupModel { tiles: upsert(g.tiles, tid, t2) }),
        }
    }
}

/// The model after removing one mip level of the tile `gid` / `tid`.
pub open spec fn model_remove_level(
    m: AtlasModel,
    gid: Seq<char>,
    tid: Seq<char>,
    level: u32,
) -> AtlasModel {
    if level >= spec_mip_levels_max(m.size) {
        m
    } else {
        match m.get_tile(gid, tid) {
            Some(t) => model_update_tile_gc(
                m,
                gid,
                tid,
                clear_levels(t, level as int, level as int + 1),
            ),
            None => m,
        }
    }
}

/// The model after clearing the mip levels `from <= l < to` of the tile
/// `gid` / `tid`.
pub open spec fn model_remove_levels(
    m: AtlasModel,
    gid: Seq<char>,
    tid: Seq<char>,
    from: u32,
    to: u32,
) -> AtlasModel {
    match m.get_tile(gid, tid) {
        Some(t) => model_update_tile_gc(m, gid, tid, clear_levels(t, from as int, to as int)),
        None => m,
    }
}

/// The model after clearing every tile's levels at and above
/// `max_level`. Tiles and groups all stay, in order.
pub open spec fn model_limit_levels(m: AtlasModel, max_level: u32) -> AtlasModel {
    AtlasModel {
        size: m.size,
        groups: Seq::new(
            m.groups.len(),
            |g: int|
                (
                    m.groups[g].0,
                    GroupModel {
                        tiles: Seq::new(
                            m.groups[g].1.tiles.len(),
                            |t: int|
                                (
                                    m.groups[g].1.tiles[t].0,
                                    clear_levels(
                                        m.groups[g].1.tiles[t].1,
                                        max_level as int,
                                        m.groups[g].1.tiles[t].1.levels.len() as int,
                                    ),
                                ),
                        ),
                    },
                ),
        ),
    }
}

/// A tile is mip-complete when every non-empty level beyond the base
/// holds as many frames as the base level; a level still without frames
/// does not count against it.
pub open spec fn tile_complete(t: TileModel) -> bool {
    &&& t.levels.len() >= 1
    &&& forall|l: int|
        1 <= l < t.levels.len() && (#[trigger] t.levels[l]).len() != 0 ==> t.levels[l].len()
            == t.levels[0].len()
}

/// Every tile of the builder is mip-complete.
pub open spec fn model_complete(m: AtlasModel) -> bool {
    forall|g: int, t: int|
        0 <= g < m.groups.len() && 0 <= t < m.groups[g].1.tiles.len() ==> tile_complete(
            (#[trigger] m.groups[g].1.tiles[t]).1,
        )
}

/// The first level at or after `l` whose frame count diverges from the
/// base level's, or the level count when none diverges.
pub open spec fn tile_common_from(t: TileModel, l: int) -> int
    decreases t.levels.len() - l,
{
    if l >= t.levels.len() {
        t.levels.len() as int
    } else if t.levels[l].len() != t.levels[0].len() {
        l
    } else {
        tile_common_from(t, l + 1)
    }
}

/// How many leading mip levels of this tile are safe to address: the
/// first divergent level's index, or the whole chain when none diverges.
/// A tile without levels contributes 0.
pub open spec fn tile_common_max(t: TileModel) -> int {
    if t.levels.len() == 0 {
        0
    } else {
        tile_common_from(t, 1)
    }
}

/// Sentinel for "no tiles seen": larger than any real mip level count.
pub open spec fn common_max_sentinel() -> int {
    0x100000000
}

/// Minimum of `tile_common_max` over a group's tiles from index `i` on.
pub open spec fn tiles_common_min(tiles: Seq<(Seq<char>, TileModel)>, i: int) -> int
    decreases tiles.len() - i,
{
    if i < 0 || i >= tiles.len() {
        common_max_sentinel()
    } else {
        let rest = tiles_common_min(tiles, i + 1);
        if tile_common_max(tiles[i].1) < rest {
            tile_common_max(tiles[i].1)
        } else {
            rest
        }
    }
}

/// Minimum of `tile_common_max` over every tile from group `g` on.
pub open spec fn groups_common_min(gs: Seq<(Seq<char>, GroupModel)>, g: int) -> int
    decreases gs.len() - g,
{
    if g < 0 || g >= gs.len() {
        common_max_sentinel()
    } else {
        let here = tiles_common_min(gs[g].1.tiles, 0);
        let rest = groups_common_min(gs, g + 1);
        if here < rest {
            here
        } else {
            rest
        }
    }
}

/// The lowest safe mip level count over the whole atlas, 0 when it holds
/// no tiles.
pub open spec fn model_common_max(m: AtlasModel) -> int {
    if groups_common_min(m.groups, 0) == common_max_sentinel() {
        0
    } else {
        groups_common_min(m.groups, 0)
    }
}

/// The tile-level minimum never exceeds the sentinel.
pub proof fn lemma_tiles_common_min_le(tiles: Seq<(Seq<char>, TileModel)>, i: int)
    ensures
        tiles_common_min(tiles, i) <= common_max_sentinel(),
    decreases tiles.len() - i,
{
    if 0 <= i < tiles.len() {
        lemma_tiles_common_min_le(tiles, i + 1);
    }
}

/// The group-level minimum never exceeds the sentinel.
pub proof fn lemma_groups_common_min_le(gs: Seq<(Seq<char>, GroupModel)>, g: int)
    ensures
        groups_common_min(gs, g) <= common_max_sentinel(),
    decreases gs.len() - g,
{
    if 0 <= g < gs.len() {
        lemma_groups_common_min_le(gs, g + 1);
        lemma_tiles_common_min_le(gs[g].1.tiles, 0);
    }
}

/// The first divergent level lies between `l` and the chain's depth.
pub proof fn lemma_tile_common_from_range(t: TileModel, l: int)
    requires
        1 <= l <= t.levels.len(),
    ensures
        l <= tile_common_from(t, l) <= t.levels.len(),
    decreases t.levels.len() - l,
{
    if l < t.levels.len() && t.levels[l].len() == t.levels[0].len() {
        lemma_tile_common_from_range(t, l + 1);
    }
}

/// Over well-formed tiles the minimum is the sentinel or within the mip
/// chain's depth.
pub proof fn lemma_tiles_common_min_range(
    tiles: Seq<(Seq<char>, TileModel)>,
    i: int,
    size: u32,
)
    requires
        forall|t: int| 0 <= t < tiles.len() ==> (#[trigger] tiles[t]).1.wf(size),
        0 <= i,
    ensures
        tiles_common_min(tiles, i) == common_max_sentinel() || (0 <= tiles_common_min(tiles, i)
            <= spec_mip_levels_max(size)),
    decreases tiles.len() - i,
{
    if i < tiles.len() {
        lemma_tiles_common_min_range(tiles, i + 1, size);
        assert(tiles[i].1.wf(size));
        if tiles[i].1.levels.len() > 0 {
            lemma_tile_common_from_range(tiles[i].1, 1);
        }
    }
}

/// Over a well-formed atlas the minimum is the sentinel or within the
/// mip chain's depth.
pub proof fn lemma_groups_common_min_range(
    gs: Seq<(Seq<char>, GroupModel)>,
    g: int,
    size: u32,
)
    requires
        forall|j: int| 0 <= j < gs.len() ==> (#[trigger] gs[j]).1.wf(size),
        0 <= g,
    ensures
        groups_common_min(gs, g) == common_max_sentinel() || (0 <= groups_common_min(gs, g)
            <= spec_mip_levels_max(size)),
    decreases gs.len() - g,
{
    if g < gs.len() {
        lemma_groups_common_min_range(gs, g + 1, size);
        assert(gs[g].1.wf(size));
        lemma_tiles_common_min_range(gs[g].1.tiles, 0, size);
    }
}

/// The lowest safe mip level count never exceeds the chain's depth.
pub proof fn lemma_model_common_max_le(m: AtlasModel)
    requires
        m.wf(),
    ensures
        0 <= model_common_max(m) <= spec_mip_levels_max(m.size),
{
    lemma_groups_common_min_range(m.groups, 0, m.size);
}

/// Level-0 frame count of one tile.
pub open spec fn tile_frame_count(t: TileModel) -> int {
    if t.levels.len() == 0 {
        0
    } else {
        t.levels[0].len() as int
    }
}

/// Sum of level-0 frame counts over a group's tiles from index `i` on.
pub open spec fn tiles_image_count(tiles: Seq<(Seq<char>, TileModel)>, i: int) -> int
    decreases tiles.len() - i,
{
    if i < 0 || i >= tiles.len() {
        0
    } else {
        tile_frame_count(tiles[i].1) + tiles_image_count(tiles, i + 1)
    }
}

/// Sum of level-0 frame counts over every tile from group `g` on.
pub open spec fn groups_image_count(gs: Seq<(Seq<char>, GroupModel)>, g: int) -> int
    decreases gs.len() - g,
{
    if g < 0 || g >= gs.len() {
        0
    } else {
        tiles_image_count(gs[g].1.tiles, 0) + groups_image_count(gs, g + 1)
    }
}

/// Total number of level-0 frames in the atlas.
pub open spec fn model_image_count(m: AtlasModel) -> int {
    groups_image_count(m.groups, 0)
}

/// Number of 16-by-16-tile pages needed to hold every level-0 frame.
pub open spec fn model_page_count(m: AtlasModel) -> int {
    (model_image_count(m) + 255) / 256
}

/// The sum from index `i` is nonnegative.
pub proof fn lemma_tiles_image_count_nonneg(tiles: Seq<(Seq<char>, TileModel)>, i: int)
    ensures
        tiles_image_count(tiles, i) >= 0,
    decreases tiles.len() - i,
{
    if 0 <= i < tiles.len() {
        lemma_tiles_image_count_nonneg(tiles, i + 1);
    }
}

/// Summing from earlier on only adds nonnegative terms.
pub proof fn lemma_tiles_image_count_prefix(tiles: Seq<(Seq<char>, TileModel)>, a: int, b: int)
    requires
        0 <= a <= b,
    ensures
        tiles_image_count(tiles, b) <= tiles_image_count(tiles, a),
    decreases b - a,
{
    if a < b {
        lemma_tiles_image_count_prefix(tiles, a + 1, b);
        lemma_tiles_image_count_nonneg(tiles, a + 1);
        lemma_tiles_image_count_nonneg(tiles, a);
    }
}

/// The group-level sum is nonnegative.
pub proof fn lemma_groups_image_count_nonneg(gs: Seq<(Seq<char>, GroupModel)>, g: int)
    ensures
        groups_image_count(gs, g) >= 0,
    decreases gs.len() - g,
{
    if 0 <= g < gs.len() {
        lemma_groups_image_count_nonneg(gs, g + 1);
        lemma_tiles_image_count_nonneg(gs[g].1.tiles, 0);
    }
}

/// Summing from an earlier group on only adds nonnegative terms.
pub proof fn lemma_groups_image_count_prefix(gs: Seq<(Seq<char>, GroupModel)>, a: int, b: int)
    requires
        0 <= a <= b,
    ensures
        groups_image_count(gs, b) <= groups_image_count(gs, a),
    decreases b - a,
{
    if a < b {
        lemma_groups_image_count_prefix(gs, a + 1, b);
        lemma_groups_image_count_nonneg(gs, a + 1);
        lemma_tiles_image_count_nonneg(gs[a].1.tiles, 0);
    }
}

/// The frames of a group's tiles at mip level `l`, flattened in tile
/// order. A tile whose chain is shorter contributes nothing.
pub open spec fn tiles_frames_at(tiles: Seq<(Seq<char>, TileModel)>, l: int) -> Seq<Seq<u8>>
    decreases tiles.len(),
{
    if tiles.len() == 0 {
        Seq::empty()
    } else {
        (if 0 <= l < tiles[0].1.levels.len() {
            tiles[0].1.levels[l]
        } else {
            Seq::empty()
        }) + tiles_frames_at(tiles.drop_first(), l)
    }
}

/// The frames of every tile at mip level `l`, flattened in group order.
pub open spec fn groups_frames_at(gs: Seq<(Seq<char>, GroupModel)>, l: int) -> Seq<Seq<u8>>
    decreases gs.len(),
{
    if gs.len() == 0 {
        Seq::empty()
    } else {
        tiles_frames_at(gs[0].1.tiles, l) + groups_frames_at(gs.drop_first(), l)
    }
}

/// The global frame sequence at mip level `l`: the order the page packer
/// and the lookup builder both use.
pub open spec fn model_frames_at(m: AtlasModel, l: int) -> Seq<Seq<u8>> {
    groups_frames_at(m.groups, l)
}

/// In a well-formed group, every frame of the flattened level-`l`
/// sequence has that level's byte length.
pub proof fn lemma_tiles_frames_at_wf(
    tiles: Seq<(Seq<char>, TileModel)>,
    l: int,
    size: u32,
)
    requires
        forall|t: int| 0 <= t < tiles.len() ==> (#[trigger] tiles[t]).1.wf(size),
    ensures
        forall|f: int|
            0 <= f < tiles_frames_at(tiles, l).len() ==> (#[trigger] tiles_frames_at(
                tiles,
                l,
            )[f]).len() == spec_mip_level_data_len(size, l as u32),
    decreases tiles.len(),
{
    if tiles.len() > 0 {
        assert forall|t: int| 0 <= t < tiles.drop_first().len() implies (
        #[trigger] tiles.drop_first()[t]).1.wf(size) by {
            assert(tiles.drop_first()[t] == tiles[t + 1]);
        }
        lemma_tiles_frames_at_wf(tiles.drop_first(), l, size);
        let head = if 0 <= l < tiles[0].1.levels.len() {
            tiles[0].1.levels[l]
        } else {
            Seq::<Seq<u8>>::empty()
        };
        assert(tiles[0].1.wf(size));
        assert forall|f: int| 0 <= f < tiles_frames_at(tiles, l).len() implies (
        #[trigger] tiles_frames_at(tiles, l)[f]).len() == spec_mip_level_data_len(
            size,
            l as u32,
        ) by {
            if f < head.len() {
                assert(tiles_frames_at(tiles, l)[f] == head[f]);
            } else {
                assert(tiles_frames_at(tiles, l)[f] == tiles_frames_at(tiles.drop_first(), l)[f
                    - head.len()]);
            }
        }
    }
}

/// In a well-formed atlas, every frame of the flattened level-`l`
/// sequence has that level's byte length.
pub proof fn lemma_model_frames_at_wf(m: AtlasModel, l: int)
    requires
        m.wf(),
    ensures
        forall|f: int|
            0 <= f < model_frames_at(m, l).len() ==> (#[trigger] model_frames_at(m, l)[f]).len()
                == spec_mip_level_data_len(m.size, l as u32),
{
    lemma_groups_frames_at_wf(m.groups, l, m.size);
}

/// As `lemma_tiles_frames_at_wf`, over every group.
pub proof fn lemma_groups_frames_at_wf(
    gs: Seq<(Seq<char>, GroupModel)>,
    l: int,
    size: u32,
)
    requires
        forall|g: int| 0 <= g < gs.len() ==> (#[trigger] gs[g]).1.wf(size),
    ensures
        forall|f: int|
            0 <= f < groups_frames_at(gs, l).len() ==> (#[trigger] groups_frames_at(
                gs,
                l,
            )[f]).len() == spec_mip_level_data_len(size, l as u32),
    decreases gs.len(),
{
    if gs.len() > 0 {
        assert forall|g: int| 0 <= g < gs.drop_first().len() implies (
        #[trigger] gs.drop_first()[g]).1.wf(size) by {
            assert(gs.drop_first()[g] == gs[g + 1]);
        }
        lemma_groups_frames_at_wf(gs.drop_first(), l, size);
        let head = tiles_frames_at(gs[0].1.tiles, l);
        assert(gs[0].1.wf(size));
        lemma_tiles_frames_at_wf(gs[0].1.tiles, l, size);
        assert forall|f: int| 0 <= f < groups_frames_at(gs, l).len() implies (
        #[trigger] groups_frames_at(gs, l)[f]).len() == spec_mip_level_data_len(
            size,
            l as u32,
        ) by {
            if f < head.len() {
                assert(groups_frames_at(gs, l)[f] == head[f]);
            } else {
                assert(groups_frames_at(gs, l)[f] == groups_frames_at(gs.drop_first(), l)[f
                    - head.len()]);
            }
        }
    }
}

/// Dropping the first tile shifts the index-based frame-count sum.
pub proof fn lemma_tiles_image_count_shift(tiles: Seq<(Seq<char>, TileModel)>, i: int)
    requires
        0 <= i,
        tiles.len() > 0,
    ensures
        tiles_image_count(tiles.drop_first(), i) == tiles_image_count(tiles, i + 1),
    decreases tiles.len() - i,
{
    if i < tiles.drop_first().len() {
        assert(tiles.drop_first()[i] == tiles[i + 1]);
        lemma_tiles_image_count_shift(tiles, i + 1);
    }
}

/// Dropping the first group shifts the index-based frame-count sum.
pub proof fn lemma_groups_image_count_shift(gs: Seq<(Seq<char>, GroupModel)>, i: int)
    requires
        0 <= i,
        gs.len() > 0,
    ensures
        groups_image_count(gs.drop_first(), i) == groups_image_count(gs, i + 1),
    decreases gs.len() - i,
{
    if i < gs.drop_first().len() {
        assert(gs.drop_first()[i] == gs[i + 1]);
        lemma_groups_image_count_shift(gs, i + 1);
    }
}

/// The flattened level-0 frame sequence of a group's tiles is exactly as
/// long as their frame-count sum.
pub proof fn lemma_tiles_frames_len(tiles: Seq<(Seq<char>, TileModel)>)
    ensures
        tiles_frames_at(tiles, 0).len() == tiles_image_count(tiles, 0),
    decreases tiles.len(),
{
    if tiles.len() > 0 {
        lemma_tiles_frames_len(tiles.drop_first());
        lemma_tiles_image_count_shift(tiles, 0);
    }
}

/// The flattened level-0 frame sequence of the whole atlas is exactly as
/// long as the total frame count.
pub proof fn lemma_groups_frames_len(gs: Seq<(Seq<char>, GroupModel)>)
    ensures
        groups_frames_at(gs, 0).len() == groups_image_count(gs, 0),
    decreases gs.len(),
{
    if gs.len() > 0 {
        lemma_groups_frames_len(gs.drop_first());
        lemma_groups_image_count_shift(gs, 0);
        lemma_tiles_frames_len(gs[0].1.tiles);
    }
}

/// Upserts every entry of `adds` into `s`, first to last./// Upserts every entry of `adds` into `s`, first to last.
pub open spec fn upsert_all<V>(
    s: Seq<(Seq<char>, V)>,
    adds: Seq<(Seq<char>, V)>,
) -> Seq<(Seq<char>, V)>
    decreases adds.len(),
{
    if adds.len() == 0 {
        s
    } else {
        upsert_all(upsert(s, adds[0].0, adds[0].1), adds.drop_first())
    }
}

/// The model after merging another builder's groups in, first to last:
/// a shared group takes the other's tiles one by one (overwriting shared
/// tile names), a new group is appended whole.
pub open spec fn model_merge(m: AtlasModel, adds: Seq<(Seq<char>, GroupModel)>) -> AtlasModel
    decreases adds.len(),
{
    if adds.len() == 0 {
        m
    } else {
        let p = adds[0];
        let g2 = if has_key(m.groups, p.0) {
            GroupModel { tiles: upsert_all(key_get(m.groups, p.0).tiles, p.1.tiles) }
        } else {
            p.1
        };
        let m2 = AtlasModel { size: m.size, groups: upsert(m.groups, p.0, g2) };
        model_merge(m2, adds.drop_first())
    }
}

/// Clearing levels preserves a tile's well-formedness.
pub proof fn lemma_clear_levels_wf(t: TileModel, size: u32, from: int, to: int)
    requires
        t.wf(size),
    ensures
        clear_levels(t, from, to).wf(size),
{
}

/// Removing a tile preserves well-formedness.
pub proof fn lemma_model_remove_wf(m: AtlasModel, gid: Seq<char>, tid: Seq<char>)
    requires
        m.wf(),
    ensures
        model_remove(m, gid, tid).wf(),
        model_remove(m, gid, tid).size == m.size,
{
    let m2 = model_remove(m, gid, tid);
    if has_key(m.groups, gid) {
        lemma_key_at(m.groups, gid, key_idx(m.groups, gid));
        let g = key_get(m.groups, gid);
        if has_key(g.tiles, tid) {
            lemma_remove_key(g.tiles, tid);
            let g2 = GroupModel { tiles: remove_key(g.tiles, tid) };
            if g2.tiles.len() == 0 {
                lemma_remove_key(m.groups, gid);
                let i = key_idx(m.groups, gid);
                assert forall|j: int| 0 <= j < m2.groups.len() implies (
                #[trigger] m2.groups[j]).1.wf(m.size) by {
                    let j0 = if j < i {
                        j
                    } else {
                        j + 1
                    };
                    assert(m2.groups[j] == m.groups[j0]);
                }
            } else {
                lemma_upsert(m.groups, gid, g2);
                assert(g2.wf(m.size)) by {
                    assert forall|j: int| 0 <= j < g2.tiles.len() implies (
                    #[trigger] g2.tiles[j]).1.wf(m.size) by {
                        let i = key_idx(g.tiles, tid);
                        let j0 = if j < i {
                            j
                        } else {
                            j + 1
                        };
                        assert(g2.tiles[j] == g.tiles[j0]);
                    }
                }
                let i = key_idx(m.groups, gid);
                assert forall|j: int| 0 <= j < m2.groups.len() implies (
                #[trigger] m2.groups[j]).1.wf(m.size) by {
                    if j != i {
                        assert(m2.groups[j] == m.groups[j]);
                    }
                }
            }
        }
    }
}

/// Replacing a tile with garbage collection preserves well-formedness.
pub proof fn lemma_model_update_tile_gc_wf(
    m: AtlasModel,
    gid: Seq<char>,
    tid: Seq<char>,
    t2: TileModel,
)
    requires
        m.wf(),
        t2.wf(m.size),
        has_key(m.groups, gid),
    ensures
        model_update_tile_gc(m, gid, tid, t2).wf(),
        model_update_tile_gc(m, gid, tid, t2).size == m.size,
{
    if tile_is_empty(t2) {
        lemma_model_remove_wf(m, gid, tid);
    } else {
        let m2 = model_update_tile_gc(m, gid, tid, t2);
        lemma_key_at(m.groups, gid, key_idx(m.groups, gid));
        let g = key_get(m.groups, gid);
        let g2 = GroupModel { tiles: upsert(g.tiles, tid, t2) };
        lemma_upsert(g.tiles, tid, t2);
        assert(g2.wf(m.size)) by {
            assert forall|j: int| 0 <= j < g2.tiles.len() implies (#[trigger] g2.tiles[j]).1.wf(
                m.size,
            ) by {
                if has_key(g.tiles, tid) {
                    if j != key_idx(g.tiles, tid) {
                        assert(g2.tiles[j] == g.tiles[j]);
                    }
                } else {
                    if j < g.tiles.len() {
                        assert(g2.tiles[j] == g.tiles[j]);
                    }
                }
            }
        }
        lemma_upsert(m.groups, gid, g2);
        let i = key_idx(m.groups, gid);
        assert forall|j: int| 0 <= j < m2.groups.len() implies (#[trigger] m2.groups[j]).1.wf(
            m.size,
        ) by {
            if j != i {
                assert(m2.groups[j] == m.groups[j]);
            }
        }
    }
}

/// Capping the mip chain preserves well-formedness.
pub proof fn lemma_model_limit_levels_wf(m: AtlasModel, max_level: u32)
    requires
        m.wf(),
    ensures
        model_limit_levels(m, max_level).wf(),
        model_limit_levels(m, max_level).size == m.size,
{
    let m2 = model_limit_levels(m, max_level);
    assert forall|a: int, b: int| 0 <= a < b < m2.groups.len() implies (
    #[trigger] m2.groups[a].0) != (#[trigger] m2.groups[b].0) by {
        assert(m.groups[a].0 != m.groups[b].0);
    }
    assert forall|g: int| 0 <= g < m2.groups.len() implies (#[trigger] m2.groups[g]).1.wf(
        m.size,
    ) by {
        assert(m.groups[g].1.wf(m.size));
        let g2 = m2.groups[g].1;
        let g1 = m.groups[g].1;
        assert forall|a: int, b: int| 0 <= a < b < g2.tiles.len() implies (
        #[trigger] g2.tiles[a].0) != (#[trigger] g2.tiles[b].0) by {
            assert(g1.tiles[a].0 != g1.tiles[b].0);
        }
        assert forall|t: int| 0 <= t < g2.tiles.len() implies (#[trigger] g2.tiles[t]).1.wf(
            m.size,
        ) by {
            assert(g1.tiles[t].1.wf(m.size));
            lemma_clear_levels_wf(
                g1.tiles[t].1,
                m.size,
                max_level as int,
                g1.tiles[t].1.levels.len() as int,
            );
        }
    }
}

/// Upserting a sequence of well-formed tiles into a well-formed tile
/// sequence yields a well-formed tile sequence.
pub proof fn lemma_upsert_all_tiles_wf(
    s: Seq<(Seq<char>, TileModel)>,
    adds: Seq<(Seq<char>, TileModel)>,
    size: u32,
)
    requires
        keys_unique(s),
        forall|i: int| 0 <= i < s.len() ==> (#[trigger] s[i]).1.wf(size),
        forall|i: int| 0 <= i < adds.len() ==> (#[trigger] adds[i]).1.wf(size),
    ensures
        keys_unique(upsert_all(s, adds)),
        forall|i: int|
            0 <= i < upsert_all(s, adds).len() ==> (#[trigger] upsert_all(s, adds)[i]).1.wf(size),
    decreases adds.len(),
{
    if adds.len() > 0 {
        let s2 = upsert(s, adds[0].0, adds[0].1);
        lemma_upsert(s, adds[0].0, adds[0].1);
        assert forall|i: int| 0 <= i < s2.len() implies (#[trigger] s2[i]).1.wf(size) by {
            if has_key(s, adds[0].0) {
                if i != key_idx(s, adds[0].0) {
                    assert(s2[i] == s[i]);
                }
            } else {
                if i < s.len() {
                    assert(s2[i] == s[i]);
                }
            }
        }
        assert forall|i: int| 0 <= i < adds.drop_first().len() implies (
        #[trigger] adds.drop_first()[i]).1.wf(size) by {
            assert(adds.drop_first()[i] == adds[i + 1]);
        }
        lemma_upsert_all_tiles_wf(s2, adds.drop_first(), size);
    }
}

/// Merging well-formed groups of the same base size preserves
/// well-formedness.
pub proof fn lemma_model_merge_wf(m: AtlasModel, adds: Seq<(Seq<char>, GroupModel)>)
    requires
        m.wf(),
        forall|i: int| 0 <= i < adds.len() ==> (#[trigger] adds[i]).1.wf(m.size),
    ensures
        model_merge(m, adds).wf(),
        model_merge(m, adds).size == m.size,
    decreases adds.len(),
{
    if adds.len() > 0 {
        let p = adds[0];
        let g2 = if has_key(m.groups, p.0) {
            GroupModel { tiles: upsert_all(key_get(m.groups, p.0).tiles, p.1.tiles) }
        } else {
            p.1
        };
        if has_key(m.groups, p.0) {
            lemma_key_at(m.groups, p.0, key_idx(m.groups, p.0));
            lemma_upsert_all_tiles_wf(key_get(m.groups, p.0).tiles, p.1.tiles, m.size);
        }
        assert(g2.wf(m.size));
        let m2 = AtlasModel { size: m.size, groups: upsert(m.groups, p.0, g2) };
        lemma_upsert(m.groups, p.0, g2);
        assert(m2.wf()) by {
            assert forall|j: int| 0 <= j < m2.groups.len() implies (#[trigger] m2.groups[j]).1.wf(
                m.size,
            ) by {
                if has_key(m.groups, p.0) {
                    if j != key_idx(m.groups, p.0) {
                        assert(m2.groups[j] == m.groups[j]);
                    }
                } else {
                    if j < m.groups.len() {
                        assert(m2.groups[j] == m.groups[j]);
                    }
                }
            }
        }
        assert forall|i: int| 0 <= i < adds.drop_first().len() implies (
        #[trigger] adds.drop_first()[i]).1.wf(m.size) by {
            assert(adds.drop_first()[i] == adds[i + 1]);
        }
        lemma_model_merge_wf(m2, adds.drop_first());
    }
}

/// Insertion preserves well-formedness when the frames have the level's
/// byte length, and changes no tile but the one named.
pub proof fn lemma_model_insert_wf(
    m: AtlasModel,
    gid: Seq<char>,
    tid: Seq<char>,
    level: u32,
    frames: Seq<Seq<u8>>,
)
    requires
        m.wf(),
        level < spec_mip_levels_max(m.size),
        forall|f: int|
            0 <= f < frames.len() ==> (#[trigger] frames[f]).len() == spec_mip_level_data_len(
                m.size,
                level,
            ),
    ensures
        model_insert(m, gid, tid, level, frames).wf(),
        model_insert(m, gid, tid, level, frames).size == m.size,
{
    let m2 = model_insert(m, gid, tid, level, frames);
    let g = match m.get_group(gid) {
        Some(g) => g,
        None => GroupModel { tiles: Seq::empty() },
    };
    let t = if has_key(g.tiles, tid) {
        key_get(g.tiles, tid)
    } else {
        empty_tile(m.size)
    };
    let t2 = TileModel { levels: t.levels.update(level as int, frames) };
    let g2 = GroupModel { tiles: upsert(g.tiles, tid, t2) };
    if has_key(m.groups, gid) {
        lemma_key_at(m.groups, gid, key_idx(m.groups, gid));
    }
    assert(g.wf(m.size));
    assert(t.wf(m.size));
    assert(t2.wf(m.size)) by {
        assert forall|l: int, f: int|
            0 <= l < t2.levels.len() && 0 <= f < t2.levels[l].len() implies (
        #[trigger] t2.levels[l][f]).len() == spec_mip_level_data_len(m.size, l as u32) by {
            if l != level {
                assert(t2.levels[l] == t.levels[l]);
            }
        }
    }
    lemma_upsert(g.tiles, tid, t2);
    assert(g2.wf(m.size)) by {
        assert forall|i: int| 0 <= i < g2.tiles.len() implies (#[trigger] g2.tiles[i]).1.wf(
            m.size,
        ) by {
            if has_key(g.tiles, tid) {
                if i != key_idx(g.tiles, tid) {
                    assert(g2.tiles[i] == g.tiles[i]);
                }
            } else {
                if i < g.tiles.len() {
                    assert(g2.tiles[i] == g.tiles[i]);
                }
            }
        }
    }
    lemma_upsert(m.groups, gid, g2);
    assert forall|i: int| 0 <= i < m2.groups.len() implies (#[trigger] m2.groups[i]).1.wf(
        m.size,
    ) by {
        if has_key(m.groups, gid) {
            if i != key_idx(m.groups, gid) {
                assert(m2.groups[i] == m.groups[i]);
            }
        } else {
            if i < m.groups.len() {
                assert(m2.groups[i] == m.groups[i]);
            }
        }
    }
}

} // verus!
