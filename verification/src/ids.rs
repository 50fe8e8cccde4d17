//! Typed ids. Every entity id is a u64 allocated from the project's monotonic
//! counter, so ids are unique across the whole document and stable across
//! sessions (the counter persists).

use vstd::prelude::*;

verus! {

#[derive(Debug, Clone, Copy, PartialEq, Eq, Structural, Hash)]
pub struct SceneId(pub u64);

#[derive(Debug, Clone, Copy, PartialEq, Eq, Structural, Hash)]
pub struct CutId(pub u64);

#[derive(Debug, Clone, Copy, PartialEq, Eq, Structural, Hash)]
pub struct DrawingId(pub u64);

#[derive(Debug, Clone, Copy, PartialEq, Eq, Structural, Hash)]
pub struct ColumnId(pub u64);

#[derive(Debug, Clone, Copy, PartialEq, Eq, Structural, Hash)]
pub struct NodeId(pub u64);

#[derive(Debug, Clone, Copy, PartialEq, Eq, Structural, Hash)]
pub struct LayerId(pub u64);

#[derive(Debug, Clone, Copy, PartialEq, Eq, Structural, Hash)]
pub struct ImageId(pub u64);

#[derive(Debug, Clone, Copy, PartialEq, Eq, Structural, Hash)]
pub struct ParamId(pub u64);

} // verus!
