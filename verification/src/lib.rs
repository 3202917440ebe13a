use vstd::prelude::*;

mod builder;
mod codec;
mod copy;
mod downsample;
mod lookup;
mod mip;
mod model;
mod queue;
mod settings;
mod slot;
mod text;

pub use builder::TileAtlasBuilder;
pub use builder::TileAtlasBuilderGroup;
pub use builder::TileAtlasBuilderGroupEntry;
pub use builder::TileAtlasBuilderImageSequence;
pub use builder::TileAtlasBuilderSet;
pub use builder::TileAtlasBuilderTileEntry;
pub use builder::TileAtlasImage;
pub use codec::TileAtlasBuilderReadError;
pub use copy::extract_frame;
pub use copy::rgba8_image_copy_row;
pub use downsample::DownsampleAlgorithm;
pub use downsample::DownsampleBilinearSRGB;
pub use lookup::TileAtlas;
pub use lookup::TileAtlasEntry;
pub use lookup::TileAtlasGroup;
pub use lookup::TileAtlasNamedEntry;
pub use lookup::TileAtlasNamedGroup;
pub use mip::TILE_SIZE_MAX;
pub use mip::is_power_of_two;
pub use mip::mip_level_data_len;
pub use mip::mip_level_size;
pub use mip::mip_levels_max;
pub use queue::TileAtlasBuildQueue;
pub use queue::TileAtlasBuildQueueEntry;
pub use queue::TileAtlasBuildQueueImageItem;
pub use settings::TileSetSettings;
pub use slot::TileAtlasSlot;

verus! {

} // verus!
