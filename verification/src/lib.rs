//! Multi-video mosaic compositor: balanced grouping of clips, per-region
//! frame cursors, and the layout engine that joins region frames into one
//! canvas frame.

pub mod audio;
pub mod cli;
pub mod clock;
pub mod frame_shape;
pub mod group_split;
pub mod group_splitter;
pub mod helper_functions;
pub mod order;
pub mod plan;
pub mod playback;
pub mod settings;
pub mod switches;
pub mod text;
pub mod video;
