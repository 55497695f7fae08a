//! ChronosynD core: behavioral events and their wire forms, the syscall
//! histogram extractor, the hash-chained audit log, and the scoring
//! request checks, each stated over a mathematical model and proved.

pub mod event;
pub mod source;
pub mod ngram;
pub mod replay;
pub mod demo;
pub mod recording;
pub mod raw;
pub mod audit;
pub mod scoring;
pub mod storage;
pub mod baseline;
pub mod observations;
