pub mod catalog;
pub mod depth;
pub mod diffuse;
pub mod error;
pub mod exif_write;
pub mod faces;
pub mod geocode;
pub mod imageio;
pub mod model;
pub mod naming;
pub mod offset;
pub mod overrides;
pub mod paths;
pub mod providers;
pub mod quality;
pub mod raw;
pub mod rotate;
pub mod scenes;
pub mod search;
pub mod similar;
pub mod suspect;
pub mod tagging;
pub mod text;
pub mod weights;
pub mod tags;
pub mod presets;
pub mod inpaint;
pub mod ai;
pub mod copy;
pub mod companion;
pub mod sface;
pub mod digest;
pub mod order;
pub mod moment;
pub mod selection;
pub mod dateparse;
pub mod duplicates;
pub mod plan;
pub mod scan;
pub mod partners;
