//! Verified core of a photo and video organiser: date-based filing rules,
//! media classification, perceptual-hash clustering of similar pictures and
//! the bookkeeping around scans, organising runs and duplicate reviews.

pub mod clusters;
pub mod dedup;
pub mod embedder;
pub mod ids;
pub mod models;
pub mod organizer;
pub mod phash;
pub mod projects;
pub mod scanner;
pub mod text;
pub mod thumbnail;

use vstd::prelude::*;

verus! {
} // verus!
