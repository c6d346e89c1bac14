//! A small multimedia toolkit: error and timing model, byte/bit I/O,
//! checksums, DEFLATE/zlib, raster image codecs, WAVE and image2 formats.

pub mod error;
pub mod rational;
pub mod media;
pub mod video;
pub mod byteio;
pub mod checksum;
pub mod bytes_util;
pub mod inflate;
pub mod deflate_encode;
pub mod deflate_level;
pub mod zlib;
pub mod fixed_roundtrip;
pub mod codec;
pub mod pnm;
pub mod bmp;
pub mod tga;
pub mod scale;
pub mod wave;
pub mod image2;
pub mod png_filter;
pub mod png;
pub mod png_options;
pub mod png_encode;
pub mod png_ffmpeg_encode;
pub mod png_roundtrip;
pub mod adam7_roundtrip;
pub mod png_trailing;
pub mod jpeg;
pub mod png_adam7;
pub mod image;
pub mod jpeg_decode;
pub mod text;
pub mod ffmpeg;
pub mod cli;
pub mod ffprobe;
