//! animstudio — the headless engine of a node-graph 2D animation suite,
//! with its contracts stated and proved.
//!
//! * document model: Project -> Scene -> Cut (drawings + X-sheet + graph)
//! * X-sheet with hold semantics — timing separate from artwork
//! * memoized evaluation cache with downstream-only invalidation
//! * command-based editing with exact inverses (undo/redo, per-artist)
//! * flood fill with gap closing and growth under the lines
//! * XDTS timing-sheet interop, PNG plate import
//! * the session room's codecs and decisions (base32, TOTP, the door, the roster,
//!   frames, discovery) and the update channel's judgement of a release

pub mod action;
pub mod apply;
pub mod base32;
pub mod bytes;
pub mod clock;
pub mod command;
pub mod engine;
pub mod error;
pub mod eval;
pub mod fill;
pub mod graph;
pub mod ids;
pub mod json;
pub mod image;
pub mod laws;
pub mod memo;
pub mod model;
pub mod net;
pub mod newproject;
pub mod paint;
pub mod palette;
pub mod raster;
pub mod room;
pub mod runs;
pub mod sparse;
pub mod step;
pub mod store;
pub mod text;
pub mod uidump;
pub mod update;
pub mod value;
pub mod workspace;
pub mod xdts;
pub mod xsheet;
