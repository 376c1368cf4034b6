//! Rooted: the verified core of a local-first Bible study library.
use vstd::prelude::*;

pub mod db;
pub mod ingest;
pub mod packs;
pub mod sidecar;
pub mod text;
pub mod upload;

verus! {
}
