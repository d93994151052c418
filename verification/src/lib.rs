//! Rearranges the pixels of a picture into a portrait.
pub mod assignment;
pub mod buffers;
pub mod cost;
pub mod drawing;
pub mod drawing_job;
pub mod draws;
pub mod errors;
pub mod genetic;
pub mod gif_file;
pub mod gif_recorder;
pub mod images;
pub mod match_steps;
pub mod messages;
pub mod naming;
pub mod natural;
pub mod optimal;
pub mod prepare;
pub mod preset;
pub mod preview;
pub mod process;
pub mod random;
pub mod row_set;
pub mod schedule;
pub mod settings;
pub mod storage;
pub mod text;
