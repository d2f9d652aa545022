//! SenseVoice speech transcription: the decisions of the pipeline, verified.
//!
//! Audio, features and logits are floating-point numbers that this library never computes
//! with. Where it only moves them it is generic over their type; where it has to order them
//! it reads their IEEE-754 bit pattern (see [`order`]); where they have to be computed it is
//! handed the operation as a function and states what that function is called on.

pub mod order;
pub mod text;
pub mod audio;
pub mod features;
pub mod ctc;
pub mod vocab;
pub mod meta;
pub mod asr;
pub mod app;
pub mod server;
pub mod capture;
