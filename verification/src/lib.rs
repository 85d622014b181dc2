//! DupeHunter's core: file classification, exact-duplicate bucketing,
//! perceptual clustering, duplicate groups and the bookkeeping of file actions.

pub mod text;
pub mod calendar;
pub mod scanner;
pub mod perceptual;
pub mod hasher;
pub mod grouper;
pub mod actions;
pub mod view;
pub mod report;
