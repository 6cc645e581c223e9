//! Interactive gizmos attached to nodes.
use vstd::prelude::*;

verus! {

/// What a transform gizmo edits.
#[derive(Debug, Copy, Clone, PartialEq, Eq, Structural)]
pub enum TransformGizmoMode {
    Translate,
    Rotate,
    Scale,
}

} // verus!
