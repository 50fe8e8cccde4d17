//! The engine's error vocabulary.

use vstd::prelude::*;
use crate::eval::{id_string, id_text};
use crate::ids::{ColumnId, CutId, DrawingId, LayerId, NodeId, SceneId};
use crate::text::{decimal, decimal_spec, string_from_chars};

verus! {

/// Why a command was refused although every id it names exists.
#[derive(Debug, Clone, Copy, PartialEq, Eq, Structural)]
pub enum CommandFault {
    /// AddDrawing with an id the cut already holds.
    DrawingExists(DrawingId),
    /// AddNode with an id the graph already holds.
    NodeExists(NodeId),
    /// PopStroke on a drawing with no strokes.
    NoStrokesToPop(DrawingId),
    /// Per-author undo refused: a later edit touches the same drawing layer.
    LaterEditTouchesLayer,
}

#[derive(Debug, PartialEq, Eq)]
pub enum EngineError {
    UnknownScene(SceneId),
    UnknownCut(CutId),
    UnknownNode(NodeId),
    UnknownColumn(ColumnId),
    UnknownDrawing(DrawingId),
    UnknownLayer(LayerId),
    /// Connecting `from -> to` would create a cycle.
    WouldCycle { from: NodeId, to: NodeId },
    /// Pin out of range for the node.
    PinOutOfRange { node: NodeId, pin: u16 },
    /// The cut has no output node set.
    NoOutput,
    /// Cycle detected during evaluation at this node.
    EvalCycle(NodeId),
    NothingToUndo,
    NothingToRedo,
    InvalidCommand(CommandFault),
    /// A batch was refused at this command index (0-based), for this
    /// reason; what had applied before it was rolled back.
    BatchFailed { index: usize, cause: Box<EngineError> },
    /// Unsupported project schema version.
    SchemaVersion(i64),
    /// Corrupt project file.
    Corrupt,
}

/// A fault as the user reads it.
pub open spec fn fault_text(f: CommandFault) -> Seq<char> {
    match f {
        CommandFault::DrawingExists(d) => "drawing "@ + id_text('D', d.0) + " already exists"@,
        CommandFault::NodeExists(n) => "node "@ + id_text('N', n.0) + " already exists"@,
        CommandFault::NoStrokesToPop(d) => "drawing "@ + id_text('D', d.0) + " has no strokes to pop"@,
        CommandFault::LaterEditTouchesLayer => "a later edit touches the same layer \u{2014} undo refused"@,
    }
}

/// A signed number in decimal, with a leading '-' when negative.
pub open spec fn signed_text(v: i64) -> Seq<char> {
    if v < 0 {
        "-"@ + decimal_spec((-v) as nat)
    } else {
        decimal_spec(v as nat)
    }
}

/// An error as the user reads it.
pub open spec fn error_text(e: EngineError) -> Seq<char>
    decreases e,
{
    match e {
        EngineError::UnknownScene(s) => "unknown scene "@ + id_text('S', s.0),
        EngineError::UnknownCut(c) => "unknown cut "@ + id_text('C', c.0),
        EngineError::UnknownNode(n) => "unknown node "@ + id_text('N', n.0),
        EngineError::UnknownColumn(c) => "unknown column "@ + id_text('C', c.0),
        EngineError::UnknownDrawing(d) => "unknown drawing "@ + id_text('D', d.0),
        EngineError::UnknownLayer(l) => "unknown cel layer "@ + id_text('L', l.0),
        EngineError::WouldCycle { from, to } => "connecting "@ + id_text('N', from.0) + " -> "@ + id_text('N', to.0)
            + " would create a cycle"@,
        EngineError::PinOutOfRange { node, pin } => "pin "@ + decimal_spec(pin as nat) + " out of range for node "@
            + id_text('N', node.0),
        EngineError::NoOutput => "cut has no output node set"@,
        EngineError::EvalCycle(n) => "cycle detected during evaluation at node "@ + id_text('N', n.0),
        EngineError::NothingToUndo => "nothing to undo"@,
        EngineError::NothingToRedo => "nothing to redo"@,
        EngineError::InvalidCommand(f) => "invalid command: "@ + fault_text(f),
        EngineError::BatchFailed { index, cause } => "invalid command: batch failed at command "@ + decimal_spec(
            index as nat,
        ) + ": "@ + error_text(*cause),
        EngineError::SchemaVersion(v) => "unsupported project schema version "@ + signed_text(v),
        EngineError::Corrupt => "corrupt project file"@,
    }
}

fn number(n: u64) -> (s: String)
    ensures
        s@ == decimal_spec(n as nat),
{
    string_from_chars(&decimal(n))
}

fn signed_number(v: i64) -> (s: String)
    ensures
        s@ == signed_text(v),
{
    if v < 0 {
        let m: i128 = -(v as i128);
        String::from_str("-").concat(number(m as u64).as_str())
    } else {
        number(v as u64)
    }
}

impl CommandFault {
    /// The fault as the user reads it.
    pub fn message(&self) -> (s: String)
        ensures
            s@ == fault_text(*self),
    {
        match self {
            CommandFault::DrawingExists(d) => String::from_str("drawing ").concat(id_string('D', d.0).as_str()).concat(
                " already exists",
            ),
            CommandFault::NodeExists(n) => String::from_str("node ").concat(id_string('N', n.0).as_str()).concat(
                " already exists",
            ),
            CommandFault::NoStrokesToPop(d) => String::from_str("drawing ").concat(id_string('D', d.0).as_str()).concat(
                " has no strokes to pop",
            ),
            CommandFault::LaterEditTouchesLayer => String::from_str("a later edit touches the same layer \u{2014} undo refused"),
        }
    }
}

impl EngineError {
    /// The error as the user reads it; a refused batch names the command
    /// at which it stopped, then that command's error.
    pub fn message(&self) -> (s: String)
        ensures
            s@ == error_text(*self),
        decreases self,
    {
        match self {
            EngineError::UnknownScene(s) => String::from_str("unknown scene ").concat(id_string('S', s.0).as_str()),
            EngineError::UnknownCut(c) => String::from_str("unknown cut ").concat(id_string('C', c.0).as_str()),
            EngineError::UnknownNode(n) => String::from_str("unknown node ").concat(id_string('N', n.0).as_str()),
            EngineError::UnknownColumn(c) => String::from_str("unknown column ").concat(id_string('C', c.0).as_str()),
            EngineError::UnknownDrawing(d) => String::from_str("unknown drawing ").concat(id_string('D', d.0).as_str()),
            EngineError::UnknownLayer(l) => String::from_str("unknown cel layer ").concat(id_string('L', l.0).as_str()),
            EngineError::WouldCycle { from, to } => String::from_str("connecting ").concat(id_string('N', from.0).as_str())
                .concat(" -> ").concat(id_string('N', to.0).as_str()).concat(" would create a cycle"),
            EngineError::PinOutOfRange { node, pin } => String::from_str("pin ").concat(number(*pin as u64).as_str())
                .concat(" out of range for node ").concat(id_string('N', node.0).as_str()),
            EngineError::NoOutput => String::from_str("cut has no output node set"),
            EngineError::EvalCycle(n) => String::from_str("cycle detected during evaluation at node ").concat(
                id_string('N', n.0).as_str(),
            ),
            EngineError::NothingToUndo => String::from_str("nothing to undo"),
            EngineError::NothingToRedo => String::from_str("nothing to redo"),
            EngineError::InvalidCommand(f) => String::from_str("invalid command: ").concat(f.message().as_str()),
            EngineError::BatchFailed { index, cause } => String::from_str("invalid command: batch failed at command ")
                .concat(number(*index as u64).as_str()).concat(": ").concat(cause.message().as_str()),
            EngineError::SchemaVersion(v) => String::from_str("unsupported project schema version ").concat(
                signed_number(*v).as_str(),
            ),
            EngineError::Corrupt => String::from_str("corrupt project file"),
        }
    }
}

} // verus!
