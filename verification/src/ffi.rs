//! The status codes and node tags of the C interface, with the numbers C code sees.
use vstd::prelude::*;
use crate::node::NodeId;

verus! {

/// Result code returned by every C entry point; `Ok` is 0 so any nonzero value is a failure.
#[derive(Clone, Copy, Debug, PartialEq, Eq, Structural)]
pub enum TptYamlErrorCode {
    /// The call succeeded.
    Success,
    /// The source failed to parse as YAML.
    ParseError,
    /// A required pointer argument was null.
    NullPointer,
    /// A byte slice argument was not valid UTF-8.
    InvalidUtf8,
    /// A node id, mapping index or sequence index was out of bounds.
    IndexOutOfBounds,
    /// The operation doesn't apply to the node's kind.
    TypeMismatch,
    /// A panic was caught at the boundary instead of unwinding across it.
    PanicCaught,
}

impl TptYamlErrorCode {
    /// The number C code receives.
    pub fn code(self) -> (r: u32)
        ensures
            r == match self {
                TptYamlErrorCode::Success => 0u32,
                TptYamlErrorCode::ParseError => 1,
                TptYamlErrorCode::NullPointer => 2,
                TptYamlErrorCode::InvalidUtf8 => 3,
                TptYamlErrorCode::IndexOutOfBounds => 4,
                TptYamlErrorCode::TypeMismatch => 5,
                TptYamlErrorCode::PanicCaught => 6,
            },
    {
        match self {
            TptYamlErrorCode::Success => 0,
            TptYamlErrorCode::ParseError => 1,
            TptYamlErrorCode::NullPointer => 2,
            TptYamlErrorCode::InvalidUtf8 => 3,
            TptYamlErrorCode::IndexOutOfBounds => 4,
            TptYamlErrorCode::TypeMismatch => 5,
            TptYamlErrorCode::PanicCaught => 6,
        }
    }
}

/// The structural kind of a node.
#[derive(Clone, Copy, Debug, PartialEq, Eq, Structural)]
pub enum TptYamlNodeKind {
    Scalar,
    Mapping,
    Sequence,
    Alias,
}

impl TptYamlNodeKind {
    /// The number C code receives.
    pub fn code(self) -> (r: u32)
        ensures
            r == match self {
                TptYamlNodeKind::Scalar => 0u32,
                TptYamlNodeKind::Mapping => 1,
                TptYamlNodeKind::Sequence => 2,
                TptYamlNodeKind::Alias => 3,
            },
    {
        match self {
            TptYamlNodeKind::Scalar => 0,
            TptYamlNodeKind::Mapping => 1,
            TptYamlNodeKind::Sequence => 2,
            TptYamlNodeKind::Alias => 3,
        }
    }
}

/// The resolved type of a scalar node.
#[derive(Clone, Copy, Debug, PartialEq, Eq, Structural)]
pub enum TptYamlScalarType {
    Null,
    Bool,
    Int,
    Float,
    String,
    Timestamp,
}

impl TptYamlScalarType {
    /// The number C code receives.
    pub fn code(self) -> (r: u32)
        ensures
            r == match self {
                TptYamlScalarType::Null => 0u32,
                TptYamlScalarType::Bool => 1,
                TptYamlScalarType::Int => 2,
                TptYamlScalarType::Float => 3,
                TptYamlScalarType::String => 4,
                TptYamlScalarType::Timestamp => 5,
            },
    {
        match self {
            TptYamlScalarType::Null => 0,
            TptYamlScalarType::Bool => 1,
            TptYamlScalarType::Int => 2,
            TptYamlScalarType::Float => 3,
            TptYamlScalarType::String => 4,
            TptYamlScalarType::Timestamp => 5,
        }
    }
}

/// The node a C-side node handle names.
pub fn node_id_from_ffi(id: u32) -> (r: NodeId)
    ensures
        r == NodeId(id),
{
    NodeId(id)
}

/// The C-side handle of a node.
pub fn node_id_to_ffi(id: NodeId) -> (r: u32)
    ensures
        r == id.0,
{
    id.get()
}

/// A node handle converts to C and back unchanged, and so does a C handle.
pub proof fn lemma_node_id_round_trip(id: NodeId, raw: u32)
    ensures
        NodeId(id.0) == id,
        NodeId(raw).0 == raw,
{
}

} // verus!
