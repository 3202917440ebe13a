use vstd::prelude::*;
use crate::mip::TILE_SIZE_MAX;
use crate::mip::is_pow2;
use crate::mip::spec_mip_level_size;
use crate::model::AtlasModel;
use crate::model::model_insert;
use crate::builder::TileAtlasBuilder;
use crate::builder::block_frames;
use crate::builder::grid_offsets;
use crate::settings::TileSetSettings;
use crate::text::str_eq;

verus! {

/// A registered source image waiting to be loaded: the opaque handle
/// the external loader polls, and how to slice the image once its bytes
/// arrive.
pub struct TileAtlasBuildQueueImageItem {
    pub source: u64,
    pub settings: TileSetSettings,
}

/// One pending registration.
pub struct TileAtlasBuildQueueEntry {
    pub group_id: String,
    pub tile_id: String,
    pub item: TileAtlasBuildQueueImageItem,
}

/// Tracks source images that arrive asynchronously before the pyramid
/// can be built: registrations are accepted while open, then the queue
/// is locked and each entry is either loaded with its bytes or skipped.
/// The queue never blocks; an external loop polls it forward.
pub struct TileAtlasBuildQueue {
    builder: Option<TileAtlasBuilder>,
    queue: Vec<TileAtlasBuildQueueEntry>,
    count_loaded: usize,
    count_total: usize,
    queue_locked: bool,
}

impl TileAtlasBuildQueue {
    /// The pending registrations, newest last, as (group, tile) names.
    pub closed spec fn spec_queue(self) -> Seq<(Seq<char>, Seq<char>)> {
        Seq::new(self.queue@.len(), |i: int| (self.queue@[i].group_id@, self.queue@[i].tile_id@))
    }

    /// The pending registrations with everything they store: names, the
    /// opaque source handle, and the slicing settings.
    pub closed spec fn spec_items(self) -> Seq<(Seq<char>, Seq<char>, u64, TileSetSettings)> {
        Seq::new(
            self.queue@.len(),
            |i: int|
                (
                    self.queue@[i].group_id@,
                    self.queue@[i].tile_id@,
                    self.queue@[i].item.source,
                    self.queue@[i].item.settings,
                ),
        )
    }

    /// The accumulated builder's model, if one exists yet.
    pub closed spec fn spec_builder(self) -> Option<AtlasModel> {
        match self.builder {
            Some(b) => Some(b@),
            None => None,
        }
    }

    /// Whether registration is closed.
    pub closed spec fn spec_locked(self) -> bool {
        self.queue_locked
    }

    /// How many registrations were ever accepted in this round.
    pub closed spec fn spec_total(self) -> int {
        self.count_total as int
    }

    /// How many registrations were resolved, by loading or skipping.
    pub closed spec fn spec_loaded(self) -> int {
        self.count_loaded as int
    }

    /// Every accepted registration is resolved or still pending, no
    /// two pending registrations name the same tile, and the builder,
    /// once it exists, is well-formed.
    pub closed spec fn wf(self) -> bool {
        &&& self.count_total as int == self.count_loaded as int + self.queue@.len()
        &&& forall|i: int, j: int|
            0 <= i < j < self.spec_queue().len() ==> (#[trigger] self.spec_queue()[i]) != (
            #[trigger] self.spec_queue()[j])
        &&& match self.spec_builder() {
            Some(m) => m.wf(),
            None => true,
        }
    }

    /// An empty, open queue with no builder yet: the builder's size is
    /// taken from the first image loaded.
    pub fn new() -> (r: Self)
        ensures
            r.wf(),
            !r.spec_locked(),
            r.spec_total() == 0,
            r.spec_loaded() == 0,
            r.spec_queue().len() == 0,
            r.spec_builder() is None,
    {
        TileAtlasBuildQueue {
            builder: None,
            queue: Vec::new(),
            count_loaded: 0,
            count_total: 0,
            queue_locked: false,
        }
    }

    /// An empty, open queue whose builder is already sized.
    pub fn new_with_size(size: u32) -> (r: Self)
        requires
            is_pow2(size as nat),
            size <= TILE_SIZE_MAX,
        ensures
            r.wf(),
            !r.spec_locked(),
            r.spec_total() == 0,
            r.spec_loaded() == 0,
            r.spec_queue().len() == 0,
            r.spec_builder() is Some,
            r.spec_builder().unwrap().size == size,
            r.spec_builder().unwrap().groups.len() == 0,
    {
        TileAtlasBuildQueue {
            builder: Some(TileAtlasBuilder::new(size)),
            queue: Vec::new(),
            count_loaded: 0,
            count_total: 0,
            queue_locked: false,
        }
    }

    /// Number of registrations still pending.
    pub fn pending_len(&self) -> (r: usize)
        ensures
            r == self.spec_items().len(),
    {
        self.queue.len()
    }

    /// The pending registration at position `i`, in registration order:
    /// the names, the source handle to poll, and the slicing settings.
    pub fn pending_entry(&self, i: usize) -> (r: &TileAtlasBuildQueueEntry)
        requires
            i < self.spec_items().len(),
        ensures
            r.group_id@ == self.spec_items()[i as int].0,
            r.tile_id@ == self.spec_items()[i as int].1,
            r.item.source == self.spec_items()[i as int].2,
            r.item.settings == self.spec_items()[i as int].3,
    {
        &self.queue[i]
    }

    /// Index of the pending registration for `group_id` / `tile_id`.
    fn find_entry(&self, group_id: &str, tile_id: &str) -> (r: Option<usize>)
        ensures
            match r {
                Some(i) => i < self.spec_queue().len() && self.spec_queue()[i as int] == (
                    group_id@,
                    tile_id@,
                ),
                None => forall|i: int|
                    0 <= i < self.spec_queue().len() ==> (#[trigger] self.spec_queue()[i]) != (
                        group_id@,
                        tile_id@,
                    ),
            },
    {
        let mut i: usize = 0;
        while i < self.queue.len()
            invariant
                i <= self.queue@.len(),
                forall|j: int|
                    0 <= j < i ==> (#[trigger] self.spec_queue()[j]) != (group_id@, tile_id@),
            decreases self.queue@.len() - i,
        {
            if str_eq(self.queue[i].group_id.as_str(), group_id) && str_eq(
                self.queue[i].tile_id.as_str(),
                tile_id,
            ) {
                proof {
                    assert(self.spec_queue()[i as int] == (group_id@, tile_id@));
                }
                return Some(i);
            }
            i = i + 1;
        }
        None
    }

    /// Registers a source image for `group_id` / `tile_id`. A second
    /// registration for the same tile replaces the first and is not
    /// counted again.
    pub fn insert_image(
        &mut self,
        group_id: &str,
        tile_id: &str,
        source: u64,
        settings: TileSetSettings,
    )
        requires
            old(self).wf(),
            !old(self).spec_locked(),
            old(self).spec_total() < usize::MAX,
        ensures
            final(self).wf(),
            !final(self).spec_locked(),
            final(self).spec_builder() == old(self).spec_builder(),
            final(self).spec_loaded() == old(self).spec_loaded(),
            (exists|i: int|
                0 <= i < old(self).spec_queue().len() && old(self).spec_queue()[i] == (
                    group_id@,
                    tile_id@,
                )) ==> {
                &&& final(self).spec_total() == old(self).spec_total()
                &&& final(self).spec_queue() =~= old(self).spec_queue()
                &&& exists|i: int|
                    0 <= i < old(self).spec_queue().len() && old(self).spec_queue()[i] == (
                        group_id@,
                        tile_id@,
                    ) && final(self).spec_items() =~= old(self).spec_items().update(
                        i,
                        (group_id@, tile_id@, source, settings),
                    )
            },
            !(exists|i: int|
                0 <= i < old(self).spec_queue().len() && old(self).spec_queue()[i] == (
                    group_id@,
                    tile_id@,
                )) ==> {
                &&& final(self).spec_total() == old(self).spec_total() + 1
                &&& final(self).spec_queue() =~= old(self).spec_queue().push(
                    (group_id@, tile_id@),
                )
                &&& final(self).spec_items() =~= old(self).spec_items().push(
                    (group_id@, tile_id@, source, settings),
                )
            },
    {
        match self.find_entry(group_id, tile_id) {
            Some(i) => {
                let ghost q0 = self.spec_queue();
                let ghost items0 = self.spec_items();
                self.queue[i] = TileAtlasBuildQueueEntry {
                    group_id: group_id.to_owned(),
                    tile_id: tile_id.to_owned(),
                    item: TileAtlasBuildQueueImageItem { source, settings },
                };
                proof {
                    assert(self.spec_queue() =~= q0);
                    assert(self.spec_items() =~= items0.update(
                        i as int,
                        (group_id@, tile_id@, source, settings),
                    ));
                }
            },
            None => {
                let ghost q0 = self.spec_queue();
                self.queue.push(
                    TileAtlasBuildQueueEntry {
                        group_id: group_id.to_owned(),
                        tile_id: tile_id.to_owned(),
                        item: TileAtlasBuildQueueImageItem { source, settings },
                    },
                );
                self.count_total = self.count_total + 1;
                proof {
                    assert(self.spec_queue() =~= q0.push((group_id@, tile_id@)));
                    assert(self.spec_items() =~= old(self).spec_items().push(
                        (group_id@, tile_id@, source, settings),
                    ));
                    assert forall|a: int, b: int|
                        0 <= a < b < self.spec_queue().len() implies (
                    #[trigger] self.spec_queue()[a]) != (#[trigger] self.spec_queue()[b]) by {
                        if b < q0.len() {
                            assert(q0[a] != q0[b]);
                        } else {
                            assert(self.spec_queue()[b] == (group_id@, tile_id@));
                            assert(q0[a] != (group_id@, tile_id@));
                        }
                    }
                }
            },
        }
    }

    /// Closes registration; resolving may begin.
    pub fn lock_queue(&mut self)
        requires
            old(self).wf(),
        ensures
            final(self).wf(),
            final(self).spec_locked(),
            final(self).spec_queue() == old(self).spec_queue(),
            final(self).spec_total() == old(self).spec_total(),
            final(self).spec_loaded() == old(self).spec_loaded(),
            final(self).spec_builder() == old(self).spec_builder(),
    {
        self.queue_locked = true;
        proof {
            assert(self.spec_queue() =~= old(self).spec_queue());
        }
    }

    /// Whether registration is closed.
    pub fn queue_locked(&self) -> (r: bool)
        ensures
            r == self.spec_locked(),
    {
        self.queue_locked
    }

    /// How many registrations this round accepted.
    pub fn count_total(&self) -> (r: usize)
        ensures
            r == self.spec_total(),
    {
        self.count_total
    }

    /// How many registrations were resolved so far.
    pub fn count_loaded(&self) -> (r: usize)
        ensures
            r == self.spec_loaded(),
    {
        self.count_loaded
    }

    /// Marks the registration for `group_id` / `tile_id` resolved
    /// without data: it counts toward completion and contributes no
    /// pixels.
    #[verifier::rlimit(100)]
    pub fn skip(&mut self, group_id: &str, tile_id: &str)
        requires
            old(self).wf(),
        ensures
            final(self).wf(),
            final(self).spec_locked() == old(self).spec_locked(),
            final(self).spec_builder() == old(self).spec_builder(),
            final(self).spec_total() == old(self).spec_total(),
            (exists|i: int|
                0 <= i < old(self).spec_queue().len() && old(self).spec_queue()[i] == (
                    group_id@,
                    tile_id@,
                )) ==> final(self).spec_loaded() == old(self).spec_loaded() + 1,
            !(exists|i: int|
                0 <= i < old(self).spec_queue().len() && old(self).spec_queue()[i] == (
                    group_id@,
                    tile_id@,
                )) ==> final(self).spec_loaded() == old(self).spec_loaded(),
            (exists|i: int|
                0 <= i < old(self).spec_queue().len() && old(self).spec_queue()[i] == (
                    group_id@,
                    tile_id@,
                )) ==> exists|i: int|
                0 <= i < old(self).spec_queue().len() && old(self).spec_queue()[i] == (
                    group_id@,
                    tile_id@,
                ) && final(self).spec_queue() =~= old(self).spec_queue().remove(i) && final(self).spec_items() =~= old(self).spec_items().remove(i),
            !(exists|i: int|
                0 <= i < old(self).spec_queue().len() && old(self).spec_queue()[i] == (
                    group_id@,
                    tile_id@,
                )) ==> final(self).spec_queue() == old(self).spec_queue() && final(self).spec_items() == old(self).spec_items(),
            forall|i: int|
                0 <= i < final(self).spec_queue().len() ==> (
                #[trigger] final(self).spec_queue()[i]) != (group_id@, tile_id@),
    {
        match self.find_entry(group_id, tile_id) {
            Some(i) => {
                let ghost q0 = self.spec_queue();
                let ghost items0 = self.spec_items();
                self.queue.remove(i);
                self.count_loaded = self.count_loaded + 1;
                proof {
                    assert(self.spec_queue() =~= q0.remove(i as int));
                    assert(self.spec_items() =~= items0.remove(i as int));
                    self.lemma_queue_remove(q0, i as int, (group_id@, tile_id@));
                }
            },
            None => {
                proof {
                    assert(self.spec_queue() =~= old(self).spec_queue());
                    assert(self.spec_items() =~= old(self).spec_items());
                }
            },
        }
    }

    /// After removing the unique entry for `p` at `i`, no entry for `p`
    /// remains and every other pair's membership is unchanged.
    proof fn lemma_queue_remove(self, q0: Seq<(Seq<char>, Seq<char>)>, i: int, p: (Seq<char>, Seq<char>))
        requires
            0 <= i < q0.len(),
            q0[i] == p,
            forall|a: int, b: int|
                0 <= a < b < q0.len() ==> (#[trigger] q0[a]) != (#[trigger] q0[b]),
            self.spec_queue() == q0.remove(i),
        ensures
            forall|j: int|
                0 <= j < self.spec_queue().len() ==> (#[trigger] self.spec_queue()[j]) != p,
            forall|a: int, b: int|
                0 <= a < b < self.spec_queue().len() ==> (#[trigger] self.spec_queue()[a]) != (
                #[trigger] self.spec_queue()[b]),
    {
        let q = self.spec_queue();
        assert forall|j: int| 0 <= j < q.len() implies (#[trigger] q[j]) != p by {
            let j0 = if j < i {
                j
            } else {
                j + 1
            };
            assert(q[j] == q0[j0]);
            if j0 < i {
                assert(q0[j0] != q0[i]);
            } else {
                assert(q0[i] != q0[j0]);
            }
        }
        assert forall|a: int, b: int| 0 <= a < b < q.len() implies (#[trigger] q[a]) != (
        #[trigger] q[b]) by {
            let a0 = if a < i {
                a
            } else {
                a + 1
            };
            let b0 = if b < i {
                b
            } else {
                b + 1
            };
            assert(q[a] == q0[a0] && q[b] == q0[b0]);
            assert(q0[a0] != q0[b0]);
        }
    }

    /// Marks every pending registration resolved without data.
    pub fn skip_remaining(&mut self)
        requires
            old(self).wf(),
        ensures
            final(self).wf(),
            final(self).spec_locked() == old(self).spec_locked(),
            final(self).spec_builder() == old(self).spec_builder(),
            final(self).spec_total() == old(self).spec_total(),
            final(self).spec_loaded() == old(self).spec_total(),
            final(self).spec_queue().len() == 0,
    {
        self.count_loaded = self.count_total;
        self.queue.clear();
    }

    /// Whether every accepted registration has been resolved after the
    /// queue was locked.
    pub fn is_complete(&self) -> (r: bool)
        ensures
            r == (self.spec_locked() && self.spec_loaded() >= self.spec_total()),
    {
        self.queue_locked && self.count_loaded >= self.count_total
    }

    /// The accumulated builder's base size, once a builder exists.
    pub fn get_size(&self) -> (r: Option<u32>)
        ensures
            match r {
                Some(s) => self.spec_builder() is Some && s == self.spec_builder().unwrap().size,
                None => self.spec_builder() is None,
            },
    {
        match &self.builder {
            Some(b) => Some(b.mip_level_size(0)),
            None => None,
        }
    }

    /// Consumes one pending registration (if `group_id` / `tile_id` is
    /// still queued, it counts as resolved) and slices the image bytes
    /// into the accumulated builder at level 0. The first load sizes
    /// the builder from the image's dimensions and grid settings when
    /// no size was given: each axis yields
    /// `(extent - offset) / count - spacing`, and the smaller axis wins.
    pub fn load(
        &mut self,
        group_id: &str,
        tile_id: &str,
        src: &Vec<u8>,
        src_width: u32,
        src_height: u32,
        src_settings: TileSetSettings,
    )
        requires
            old(self).wf(),
            old(self).spec_locked(),
            old(self).spec_loaded() < usize::MAX,
            src_settings.count@[0] >= 1,
            src_settings.count@[1] >= 1,
            src_settings.count@[0] * src_settings.count@[1] <= u32::MAX,
            old(self).spec_builder() is None ==> {
                &&& src_settings.offset@[0] <= src_width
                &&& src_settings.offset@[1] <= src_height
                &&& (src_width - src_settings.offset@[0]) / (src_settings.count@[0] as int)
                    >= src_settings.spacing@[0]
                &&& (src_height - src_settings.offset@[1]) / (src_settings.count@[1] as int)
                    >= src_settings.spacing@[1]
                &&& is_pow2(
                    (if (src_width - src_settings.offset@[0]) / (src_settings.count@[0] as int)
                        - src_settings.spacing@[0] <= (src_height - src_settings.offset@[1])
                        / (src_settings.count@[1] as int) - src_settings.spacing@[1] {
                        (src_width - src_settings.offset@[0]) / (src_settings.count@[0] as int)
                            - src_settings.spacing@[0]
                    } else {
                        (src_height - src_settings.offset@[1]) / (src_settings.count@[1] as int)
                            - src_settings.spacing@[1]
                    }) as nat,
                )
                &&& (if (src_width - src_settings.offset@[0]) / (src_settings.count@[0] as int)
                    - src_settings.spacing@[0] <= (src_height - src_settings.offset@[1])
                    / (src_settings.count@[1] as int) - src_settings.spacing@[1] {
                    (src_width - src_settings.offset@[0]) / (src_settings.count@[0] as int)
                        - src_settings.spacing@[0]
                } else {
                    (src_height - src_settings.offset@[1]) / (src_settings.count@[1] as int)
                        - src_settings.spacing@[1]
                }) <= TILE_SIZE_MAX
            },
            src_settings.spacing@[0] + spec_mip_level_size(
                old(self).spec_load_size(src_width, src_height, src_settings),
                0,
            ) <= u32::MAX,
            src_settings.spacing@[1] + spec_mip_level_size(
                old(self).spec_load_size(src_width, src_height, src_settings),
                0,
            ) <= u32::MAX,
            src_settings.offset@[0] + (src_settings.count@[0] - 1) * (src_settings.spacing@[0]
                + spec_mip_level_size(
                old(self).spec_load_size(src_width, src_height, src_settings),
                0,
            )) + spec_mip_level_size(
                old(self).spec_load_size(src_width, src_height, src_settings),
                0,
            ) <= src_width,
            src_settings.offset@[1] + (src_settings.count@[1] - 1) * (src_settings.spacing@[1]
                + spec_mip_level_size(
                old(self).spec_load_size(src_width, src_height, src_settings),
                0,
            )) + spec_mip_level_size(
                old(self).spec_load_size(src_width, src_height, src_settings),
                0,
            ) <= u32::MAX,
            4 * ((src_settings.offset@[1] + (src_settings.count@[1] - 1)
                * (src_settings.spacing@[1] + spec_mip_level_size(
                old(self).spec_load_size(src_width, src_height, src_settings),
                0,
            )) + spec_mip_level_size(
                old(self).spec_load_size(src_width, src_height, src_settings),
                0,
            )) * src_width) <= src@.len(),
        ensures
            final(self).wf(),
            final(self).spec_locked(),
            final(self).spec_total() == old(self).spec_total(),
            final(self).spec_builder() is Some,
            final(self).spec_builder().unwrap() == model_insert(
                (match old(self).spec_builder() {
                    Some(m) => m,
                    None => AtlasModel {
                        size: old(self).spec_load_size(src_width, src_height, src_settings),
                        groups: Seq::empty(),
                    },
                }),
                group_id@,
                tile_id@,
                0,
                block_frames(
                    src@,
                    src_width,
                    grid_offsets(
                        src_settings,
                        spec_mip_level_size(
                            old(self).spec_load_size(src_width, src_height, src_settings),
                            0,
                        ),
                    ),
                    spec_mip_level_size(
                        old(self).spec_load_size(src_width, src_height, src_settings),
                        0,
                    ),
                ),
            ),
            (exists|i: int|
                0 <= i < old(self).spec_queue().len() && old(self).spec_queue()[i] == (
                    group_id@,
                    tile_id@,
                )) ==> final(self).spec_loaded() == old(self).spec_loaded() + 1,
            !(exists|i: int|
                0 <= i < old(self).spec_queue().len() && old(self).spec_queue()[i] == (
                    group_id@,
                    tile_id@,
                )) ==> final(self).spec_loaded() == old(self).spec_loaded(),
            (exists|i: int|
                0 <= i < old(self).spec_queue().len() && old(self).spec_queue()[i] == (
                    group_id@,
                    tile_id@,
                )) ==> exists|i: int|
                0 <= i < old(self).spec_queue().len() && old(self).spec_queue()[i] == (
                    group_id@,
                    tile_id@,
                ) && final(self).spec_queue() =~= old(self).spec_queue().remove(i) && final(self).spec_items() =~= old(self).spec_items().remove(i),
            !(exists|i: int|
                0 <= i < old(self).spec_queue().len() && old(self).spec_queue()[i] == (
                    group_id@,
                    tile_id@,
                )) ==> final(self).spec_queue() == old(self).spec_queue() && final(self).spec_items() == old(self).spec_items(),
            forall|i: int|
                0 <= i < final(self).spec_queue().len() ==> (
                #[trigger] final(self).spec_queue()[i]) != (group_id@, tile_id@),
    {
        match self.find_entry(group_id, tile_id) {
            Some(i) => {
                let ghost q0 = self.spec_queue();
                let ghost items0 = self.spec_items();
                self.queue.remove(i);
                self.count_loaded = self.count_loaded + 1;
                proof {
                    assert(self.spec_queue() =~= q0.remove(i as int));
                    assert(self.spec_items() =~= items0.remove(i as int));
                    self.lemma_queue_remove(q0, i as int, (group_id@, tile_id@));
                }
            },
            None => {
                proof {
                    assert(self.spec_queue() =~= old(self).spec_queue());
                    assert(self.spec_items() =~= old(self).spec_items());
                }
            },
        }
        let mut taken: Option<TileAtlasBuilder> = None;
        core::mem::swap(&mut taken, &mut self.builder);
        let mut b = match taken {
            Some(b) => b,
            None => {
                let tile_w = (src_width - src_settings.offset[0]) / src_settings.count[0]
                    - src_settings.spacing[0];
                let tile_h = (src_height - src_settings.offset[1]) / src_settings.count[1]
                    - src_settings.spacing[1];
                let tile_size = if tile_w <= tile_h {
                    tile_w
                } else {
                    tile_h
                };
                TileAtlasBuilder::new(tile_size)
            },
        };
        proof {
            assert(b@ =~~= (match old(self).spec_builder() {
                Some(m) => m,
                None => AtlasModel {
                    size: old(self).spec_load_size(src_width, src_height, src_settings),
                    groups: Seq::empty(),
                },
            }));
        }
        let ghost q1 = self.spec_queue();
        let ghost items1 = self.spec_items();
        b.insert_tileset(group_id, tile_id, 0, src, src_width, src_settings);
        self.builder = Some(b);
        proof {
            assert(self.spec_queue() =~= q1);
            assert(self.spec_items() =~= items1);
        }
    }

    /// Hands the accumulated builder out and starts a fresh round:
    /// queue, lock and counters are cleared, and the internal builder is
    /// replaced by a fresh one of `size` (or none, to size lazily
    /// again).
    pub fn reset(&mut self, size: Option<u32>) -> (r: TileAtlasBuilder)
        requires
            old(self).wf(),
            old(self).spec_builder() is Some,
            match size {
                Some(s) => is_pow2(s as nat) && s <= TILE_SIZE_MAX,
                None => true,
            },
        ensures
            final(self).wf(),
            r@ == old(self).spec_builder().unwrap(),
            !final(self).spec_locked(),
            final(self).spec_total() == 0,
            final(self).spec_loaded() == 0,
            final(self).spec_queue().len() == 0,
            match size {
                Some(s) => final(self).spec_builder() is Some
                    && final(self).spec_builder().unwrap().size == s
                    && final(self).spec_builder().unwrap().groups.len() == 0,
                None => final(self).spec_builder() is None,
            },
    {
        let replacement = match size {
            Some(s) => Some(TileAtlasBuilder::new(s)),
            None => None,
        };
        let mut taken = replacement;
        core::mem::swap(&mut taken, &mut self.builder);
        self.queue_locked = false;
        self.count_loaded = 0;
        self.count_total = 0;
        self.queue.clear();
        match taken {
            Some(b) => b,
            None => {
                proof {
                    assert(false);
                }
                TileAtlasBuilder::new(1)
            },
        }
    }

    /// The base size the builder would take from the first loaded
    /// image, or its current size once it exists.
    pub open spec fn spec_load_size(
        self,
        src_width: u32,
        src_height: u32,
        settings: TileSetSettings,
    ) -> u32 {
        match self.spec_builder() {
            Some(m) => m.size,
            None => {
                let w = ((src_width - settings.offset@[0]) / (settings.count@[0] as int)
                    - settings.spacing@[0]) as u32;
                let h = ((src_height - settings.offset@[1]) / (settings.count@[1] as int)
                    - settings.spacing@[1]) as u32;
                if w <= h {
                    w
                } else {
                    h
                }
            },
        }
    }
}

} // verus!
