use vstd::prelude::*;

verus! {

/// How a uniform grid of tiles is sliced out of one source image: a pixel
/// `offset` to the first tile, the `spacing` between tiles, and how many
/// tiles to take along each axis (`count`).
#[derive(Debug, Clone, Copy)]
pub struct TileSetSettings {
    pub offset: [u32; 2],
    pub spacing: [u32; 2],
    pub count: [u32; 2],
}

impl TileSetSettings {
    /// A `count_x` by `count_y` grid with no offset and no spacing.
    pub fn new(count_x: u32, count_y: u32) -> (r: Self)
        ensures
            r.offset@ == seq![0u32, 0u32],
            r.spacing@ == seq![0u32, 0u32],
            r.count@ == seq![count_x, count_y],
    {
        let r = TileSetSettings { offset: [0, 0], spacing: [0, 0], count: [count_x, count_y] };
        proof {
            assert(r.offset@ =~= seq![0u32, 0u32]);
            assert(r.spacing@ =~= seq![0u32, 0u32]);
            assert(r.count@ =~= seq![count_x, count_y]);
        }
        r
    }

    /// The same settings with the grid size replaced.
    pub fn with_count(self, count_x: u32, count_y: u32) -> (r: Self)
        ensures
            r.offset == self.offset,
            r.spacing == self.spacing,
            r.count@ == seq![count_x, count_y],
    {
        let r = TileSetSettings { count: [count_x, count_y], ..self };
        proof {
            assert(r.count@ =~= seq![count_x, count_y]);
        }
        r
    }

    /// The same settings with the offset to the first tile replaced.
    pub fn with_offset(self, offset_x: u32, offset_y: u32) -> (r: Self)
        ensures
            r.offset@ == seq![offset_x, offset_y],
            r.spacing == self.spacing,
            r.count == self.count,
    {
        let r = TileSetSettings { offset: [offset_x, offset_y], ..self };
        proof {
            assert(r.offset@ =~= seq![offset_x, offset_y]);
        }
        r
    }

    /// The same settings with the spacing between tiles replaced.
    pub fn with_spacing(self, spacing_x: u32, spacing_y: u32) -> (r: Self)
        ensures
            r.offset == self.offset,
            r.spacing@ == seq![spacing_x, spacing_y],
            r.count == self.count,
    {
        let r = TileSetSettings { spacing: [spacing_x, spacing_y], ..self };
        proof {
            assert(r.spacing@ =~= seq![spacing_x, spacing_y]);
        }
        r
    }
}

} // verus!
