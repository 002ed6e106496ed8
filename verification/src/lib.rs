//! A verified core of a Project SEKAI chart library: `.sus` and custom
//! chart JSON parsing, exact timing, note linking, and the decisions behind
//! drawing a chart sheet.
pub mod arith;
pub mod fraction;
pub mod notes;
pub mod text;
pub mod meta;
pub mod pattern;
pub mod sorting;
pub mod line;
pub mod lyric;
pub mod score;
pub mod output;
pub mod style;
pub mod score_json;
pub mod sheet;
pub mod rebase;
pub mod raster;
pub mod laws;
