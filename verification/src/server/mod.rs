//! The realtime server: how it is set up, and the streams that it serves.
use std::path::PathBuf;
use vstd::prelude::*;

pub mod ws;

verus! {

/// When an utterance is sent, counted in samples.
#[derive(Clone, Copy)]
pub struct VadConfig {
    /// Silence behind speech that ends an utterance.
    pub silence_needed: usize,
    /// Samples from one partial result to the next.
    pub partial_every: usize,
    /// Length at which an utterance is ended in any case; the silence held before its first
    /// speech counts, but does not end it.
    pub max_samples: usize,
    /// The bits of the loudness above which a block counts as speech.
    pub threshold: u32,
}

/// How the server is asked to run.
pub struct ServeOpts {
    pub addr: Option<String>,
    pub model_dir: Option<PathBuf>,
    pub fp32: bool,
    pub cpu: bool,
    pub language: String,
    pub itn: bool,
    pub vad: VadConfig,
    /// The password that protects every route; without one the server is open.
    pub password: Option<String>,
}

/// What every request has to carry.
pub struct Gate {
    pub user: String,
    pub password: String,
}

/// The credentials that requests are checked for: the user is always `stt`.
pub fn gate(password: Option<String>) -> (gate: Option<Gate>)
    ensures
        match password {
            None => gate is None,
            Some(p) => gate matches Some(g) && g.user@ == "stt"@ && g.password@ == p@,
        },
{
    match password {
        None => None,
        Some(password) => Some(Gate { user: "stt".to_owned(), password }),
    }
}

} // verus!
