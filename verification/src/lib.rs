//! Speech recognition: the logic around the models.
//!
//! - [`vad`] finds speech in a recording and cuts it into segments; [`cluster`] tells speakers apart.
//! - [`chunks`] cuts long audio and joins texts; [`frames`] lays out spectrograms; [`resample`] hands
//!   samples to a converter.
//! - [`tokenizer`], [`ctc`], [`tdt`], [`whisper`] and [`pipeline`] turn what models compute into texts;
//!   [`definition`] reads Whisper's tokenizer, [`listening`] and [`segment`] run Whisper over a segment,
//!   [`qwen3`] runs Qwen3-ASR over a prompt.
//! - [`prediction`], [`joint`], [`conformer`], [`encoder`], [`decoder`] and [`attention`] are the layers
//!   of the models, built from [`nn`] and [`weights`] on the operations in [`tensor`]; [`metal`] tries
//!   a device before it is used.
//! - [`engine`], [`files`] and [`naming`] choose models, files and names; [`text`] and [`json`] have what
//!   they share.
pub mod attention;
pub mod chunks;
pub mod cluster;
pub mod conformer;
pub mod ctc;
pub mod decoder;
pub mod definition;
pub mod encoder;
pub mod engine;
pub mod files;
pub mod frames;
pub mod joint;
pub mod json;
pub mod listening;
pub mod metal;
pub mod naming;
pub mod nn;
pub mod pipeline;
pub mod prediction;
pub mod qwen3;
pub mod resample;
pub mod segment;
pub mod tdt;
pub mod tensor;
pub mod text;
pub mod tokenizer;
pub mod vad;
pub mod weights;
pub mod whisper;
