//! The New Project form: the project's name, resolution and frame rate,
//! set before anything is created.

use vstd::prelude::*;

verus! {

/// The form's buttons.
#[derive(Clone, Copy, PartialEq, Eq, Debug)]
pub enum FormAction {
    Create,
    Open,
    Cancel,
}

/// The form's fields. `preset` indexes the resolution presets; 0 is
/// "Custom" (the width and height as typed).
#[derive(Clone, Debug, PartialEq, Eq)]
pub struct NewProjectForm {
    pub name: String,
    pub width: u32,
    pub height: u32,
    pub fps: u32,
    pub dpi: u32,
    pub preset: usize,
}

} // verus!
