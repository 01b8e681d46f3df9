//! Plain B-Rep topology records, the kinds of boolean operation, and the
//! error of STEP exchange.
use vstd::prelude::*;

verus! {

/// Boolean operation type.
#[derive(Debug, Clone, Copy, PartialEq, Eq, Structural)]
pub enum BooleanOp {
    Union,
    Intersection,
    Difference,
}

/// A wire: an ordered loop of edges forming a closed boundary.
#[derive(Debug, Clone)]
pub struct CadWire {
    pub id: usize,
    /// Indices into the shape's edges.
    pub edge_ids: Vec<usize>,
    /// Whether each edge is traversed in its natural direction.
    pub orientations: Vec<bool>,
}

/// A shell: a connected set of faces forming a closed or open skin.
#[derive(Debug, Clone)]
pub struct CadShell {
    pub id: usize,
    /// Indices into the shape's faces.
    pub face_ids: Vec<usize>,
}

/// A solid: a watertight volume bounded by shells.
#[derive(Debug, Clone)]
pub struct CadSolid {
    pub id: usize,
    /// Index of the outer shell in the shape's shells.
    pub outer_shell: usize,
    /// Indices of inner shells (voids) in the shape's shells.
    pub inner_shells: Vec<usize>,
}

#[verifier::external_type_specification]
#[verifier::external_body]
pub struct ExIoError(std::io::Error);

/// Error of reading or writing STEP files.
#[derive(Debug)]
pub enum StepError {
    /// Reading or writing failed.
    Io(std::io::Error),
    /// The STEP text could not be read.
    Parse(String),
}

} // verus!
