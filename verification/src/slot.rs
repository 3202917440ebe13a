use vstd::prelude::*;

verus! {

/// Compact runtime reference to a tile in the packed atlas: a 1-based slot
/// index (0 is the empty sentinel) and a packed animation word.
///
/// The animation word packs `frame_count` at bits 0..4, `frame_duration` at
/// bits 4..8 and `frame_delay` at bits 8..12. The `frame_duration` and
/// `frame_delay` getters read 2 and 8 bits respectively, not the 4 bits the
/// setter stores; the widths disagree in the packing scheme this type must
/// stay compatible with, so the getters keep those masks as they are.
#[derive(Debug, Clone, Copy, PartialEq, Eq, Hash, Structural)]
pub struct TileAtlasSlot {
    slot: u16,
    anim: u16,
}

impl TileAtlasSlot {
    /// The stored 1-based slot word.
    pub closed spec fn raw_slot(self) -> u16 {
        self.slot
    }

    /// The stored animation word.
    pub closed spec fn raw_anim(self) -> u16 {
        self.anim
    }

    /// Constructors only ever write the low 12 bits of the animation word.
    pub open spec fn wf(self) -> bool {
        self.raw_anim() < 0x1000
    }

    /// Frame count as the getter reads it: bits 0..4.
    pub closed spec fn spec_frame_count(self) -> u16 {
        self.anim & 0x000F
    }

    /// Frame duration as the getter reads it: bits 4..6.
    pub closed spec fn spec_frame_duration(self) -> u16 {
        (self.anim >> 4) & 0x0003
    }

    /// Frame delay as the getter reads it: bits 8..16.
    pub closed spec fn spec_frame_delay(self) -> u16 {
        (self.anim >> 8) & 0x00FF
    }

    /// The getters of a zero animation word all read zero.
    pub proof fn lemma_zero_anim(self)
        requires
            self.raw_anim() == 0,
        ensures
            self.spec_frame_count() == 0,
            self.spec_frame_duration() == 0,
            self.spec_frame_delay() == 0,
    {
        assert((0u16 & 0x000F) == 0) by (bit_vector);
        assert(((0u16 >> 4) & 0x0003) == 0) by (bit_vector);
        assert(((0u16 >> 8) & 0x00FF) == 0) by (bit_vector);
    }

    /// The empty sentinel: refers to no tile.
    pub fn empty() -> (r: Self)
        ensures
            r.raw_slot() == 0,
            r.raw_anim() == 0,
            r.spec_frame_count() == 0,
            r.spec_frame_duration() == 0,
            r.spec_frame_delay() == 0,
            r.wf(),
    {
        let r = TileAtlasSlot { slot: 0, anim: 0 };
        proof {
            r.lemma_zero_anim();
        }
        r
    }

    /// Builds a reference to the 0-based atlas `slot`; fails only when the
    /// 1-based form would not fit in 16 bits.
    pub fn new(slot: u16) -> (r: Option<Self>)
        ensures
            slot < 0xFFFF <==> r is Some,
            r is Some ==> r.unwrap().raw_slot() == slot + 1 && r.unwrap().raw_anim() == 0
                && r.unwrap().spec_frame_count() == 0 && r.unwrap().spec_frame_duration() == 0
                && r.unwrap().spec_frame_delay() == 0 && r.unwrap().wf(),
    {
        if slot < 0xFFFF {
            let r = TileAtlasSlot { slot: slot + 1, anim: 0 };
            proof {
                r.lemma_zero_anim();
            }
            Some(r)
        } else {
            None
        }
    }

    /// Like `new`, but wraps to the empty sentinel when `slot` is `0xFFFF`.
    pub fn new_unchecked(slot: u16) -> (r: Self)
        ensures
            r.raw_slot() == (if slot == 0xFFFF { 0 } else { slot + 1 }),
            r.raw_anim() == 0,
            r.spec_frame_count() == 0,
            r.spec_frame_duration() == 0,
            r.spec_frame_delay() == 0,
            r.wf(),
    {
        let r = if slot == 0xFFFF {
            TileAtlasSlot { slot: 0, anim: 0 }
        } else {
            TileAtlasSlot { slot: slot + 1, anim: 0 }
        };
        proof {
            r.lemma_zero_anim();
        }
        r
    }

    /// The 0-based atlas slot, or `None` for the empty sentinel.
    pub fn slot(&self) -> (r: Option<u16>)
        ensures
            r is Some <==> self.raw_slot() != 0,
            r is Some ==> r.unwrap() == self.raw_slot() - 1,
    {
        if self.slot == 0 {
            None
        } else {
            Some(self.slot - 1)
        }
    }

    /// Repacks the animation word; the slot index is kept. Each field is
    /// stored masked to 4 bits, and read back through the getters' masks.
    pub fn with_animation(self, frame_count: u16, frame_duration: u16, frame_delay: u16) -> (r:
        Self)
        ensures
            r.raw_slot() == self.raw_slot(),
            r.raw_anim() == ((frame_count & 0x000F) | ((frame_duration & 0x000F) << 4) | ((
            frame_delay & 0x000F) << 8)),
            r.spec_frame_count() == frame_count % 16,
            r.spec_frame_duration() == frame_duration % 4,
            r.spec_frame_delay() == frame_delay % 16,
            r.wf(),
    {
        let anim: u16 = (frame_count & 0x000F) | ((frame_duration & 0x000F) << 4) | ((frame_delay
            & 0x000F) << 8);
        proof {
            let c = frame_count;
            let d = frame_duration;
            let y = frame_delay;
            assert((((c & 0x000F) | ((d & 0x000F) << 4) | ((y & 0x000F) << 8)) & 0x000F) == c
                % 16) by (bit_vector);
            assert(((((c & 0x000F) | ((d & 0x000F) << 4) | ((y & 0x000F) << 8)) >> 4) & 0x0003)
                == d % 4) by (bit_vector);
            assert(((((c & 0x000F) | ((d & 0x000F) << 4) | ((y & 0x000F) << 8)) >> 8) & 0x00FF)
                == y % 16) by (bit_vector);
            assert(((c & 0x000F) | ((d & 0x000F) << 4) | ((y & 0x000F) << 8)) < 0x1000)
                by (bit_vector);
        }
        TileAtlasSlot { slot: self.slot, anim }
    }

    /// Replaces the frame count, keeping duration and delay as the getters
    /// see them.
    pub fn with_frame_count(self, frame_count: u16) -> (r: Self)
        ensures
            r.raw_slot() == self.raw_slot(),
            r.spec_frame_count() == frame_count % 16,
            r.spec_frame_duration() == self.spec_frame_duration(),
            self.wf() ==> r.spec_frame_delay() == self.spec_frame_delay(),
            r.wf(),
    {
        proof {
            self.lemma_getter_bounds();
        }
        self.with_animation(frame_count, self.frame_duration(), self.frame_delay())
    }

    /// Replaces the frame duration, keeping count and delay as the getters
    /// see them.
    pub fn with_frame_duration(self, frame_duration: u16) -> (r: Self)
        ensures
            r.raw_slot() == self.raw_slot(),
            r.spec_frame_count() == self.spec_frame_count(),
            r.spec_frame_duration() == frame_duration % 4,
            self.wf() ==> r.spec_frame_delay() == self.spec_frame_delay(),
            r.wf(),
    {
        proof {
            self.lemma_getter_bounds();
        }
        self.with_animation(self.frame_count(), frame_duration, self.frame_delay())
    }

    /// Replaces the frame delay, keeping count and duration as the getters
    /// see them.
    pub fn with_frame_delay(self, frame_delay: u16) -> (r: Self)
        ensures
            r.raw_slot() == self.raw_slot(),
            r.spec_frame_count() == self.spec_frame_count(),
            r.spec_frame_duration() == self.spec_frame_duration(),
            r.spec_frame_delay() == frame_delay % 16,
            r.wf(),
    {
        proof {
            self.lemma_getter_bounds();
        }
        self.with_animation(self.frame_count(), self.frame_duration(), frame_delay)
    }

    /// Frame count: bits 0..4 of the animation word.
    pub fn frame_count(&self) -> (r: u16)
        ensures
            r == self.spec_frame_count(),
    {
        self.anim & 0x000F
    }

    /// Frame duration: bits 4..6 of the animation word.
    pub fn frame_duration(&self) -> (r: u16)
        ensures
            r == self.spec_frame_duration(),
    {
        (self.anim >> 4) & 0x0003
    }

    /// Frame delay: bits 8..16 of the animation word.
    pub fn frame_delay(&self) -> (r: u16)
        ensures
            r == self.spec_frame_delay(),
    {
        (self.anim >> 8) & 0x00FF
    }

    /// The getters read masked fields, so their results are bounded, and a
    /// well-formed word keeps its delay within the setter's 4-bit mask.
    pub proof fn lemma_getter_bounds(self)
        ensures
            self.spec_frame_count() < 16,
            self.spec_frame_duration() < 4,
            self.spec_frame_delay() < 256,
            self.wf() ==> self.spec_frame_delay() < 16,
    {
        let a = self.anim;
        assert((a & 0x000F) < 16) by (bit_vector);
        assert(((a >> 4) & 0x0003) < 4) by (bit_vector);
        assert(((a >> 8) & 0x00FF) < 256) by (bit_vector);
        assert(a < 0x1000 ==> ((a >> 8) & 0x00FF) < 16) by (bit_vector);
    }
}

impl Default for TileAtlasSlot {
    /// The empty sentinel.
    fn default() -> (r: Self)
        ensures
            r.raw_slot() == 0,
            r.raw_anim() == 0,
            r.spec_frame_count() == 0,
            r.spec_frame_duration() == 0,
            r.spec_frame_delay() == 0,
            r.wf(),
    {
        let r = TileAtlasSlot { slot: 0, anim: 0 };
        proof {
            r.lemma_zero_anim();
        }
        r
    }
}

} // verus!
