pub mod text;
pub mod order;
pub mod fold;
pub mod format;
pub mod audio;
pub mod multi_value;
pub mod sort;
pub mod lines;
pub mod lrc;
pub mod tags;
pub mod registry;
pub mod io;
pub mod ffmpeg;
pub mod paths;
pub mod types;
pub mod queue;
pub mod scan_tags;
pub mod problems;
pub mod sidecar;
pub mod store;
pub mod identity;
pub mod excludes;
pub mod discover;
pub mod scan;
pub mod scan_run;
pub mod comps_order;
pub mod duplicates;
pub mod triggers;
pub mod image;
pub mod ids;
pub mod catalog;
pub mod model;
pub mod keyed;
pub mod analysis;
pub mod tag_map;
