pub mod mml_parser;
pub mod mml_timing;
pub mod input;
pub mod color;
pub mod ramp;
pub mod raster;
pub mod rasterizer;
pub mod scene;
pub mod shading;
pub mod music;
pub mod math;
pub mod image;
pub mod old_resource_data;
pub mod font;
pub mod pcm;
pub mod old_mml_parser;
pub mod resource_staging;
