//! Node identities, trivia, scalar styles and parser options of the document model.
use vstd::prelude::*;
use crate::lexer_spec::ScalarStyle as LexScalarStyle;
use crate::resolve_spec::ScalarModel;
use crate::span::Span;
use crate::version::YamlVersion;

verus! {

/// An index into a document's node arena.
#[derive(Clone, Copy, Debug, PartialEq, Eq, Hash, PartialOrd, Ord, Structural)]
pub struct NodeId(pub u32);

impl NodeId {
    /// The arena index.
    pub fn get(self) -> (r: u32)
        ensures
            r == self.0,
    {
        self.0
    }
}

/// Textual trivia associated with a node.
#[derive(Clone, Debug, PartialEq, Eq)]
pub enum TriviaKind {
    Comment(String),
    BlankLine,
}

#[derive(Clone, Debug, PartialEq, Eq)]
pub struct Trivia {
    pub kind: TriviaKind,
    pub span: Span,
}

/// The typed value of a resolved scalar. A float holds the text it reads from (commas removed;
/// `h:m:s` for a YAML 1.1 sexagesimal float).
#[derive(Clone, Debug, PartialEq, Eq)]
pub enum ScalarValue {
    Null,
    Bool(bool),
    Int(i64),
    Float(String),
    String(String),
    Timestamp(String),
}

impl View for ScalarValue {
    type V = ScalarModel;

    open spec fn view(&self) -> ScalarModel {
        match self {
            ScalarValue::Null => ScalarModel::Null,
            ScalarValue::Bool(b) => ScalarModel::Bool(*b),
            ScalarValue::Int(i) => ScalarModel::Int(*i as int),
            ScalarValue::Float(t) => ScalarModel::Float(t@),
            ScalarValue::String(s) => ScalarModel::Str(s@),
            ScalarValue::Timestamp(s) => ScalarModel::Timestamp(s@),
        }
    }
}

impl ScalarValue {
    /// The text of a string or timestamp.
    pub fn as_str(&self) -> (r: Option<&str>)
        ensures
            match self@ {
                ScalarModel::Str(s) => r matches Some(x) && x@ == s,
                ScalarModel::Timestamp(s) => r matches Some(x) && x@ == s,
                _ => r is None,
            },
    {
        match self {
            ScalarValue::String(v) => Some(v.as_str()),
            ScalarValue::Timestamp(v) => Some(v.as_str()),
            _ => None,
        }
    }

    pub fn as_bool(&self) -> (r: Option<bool>)
        ensures
            match self@ {
                ScalarModel::Bool(b) => r == Some(b),
                _ => r is None,
            },
    {
        match self {
            ScalarValue::Bool(v) => Some(*v),
            _ => None,
        }
    }

    pub fn as_i64(&self) -> (r: Option<i64>)
        ensures
            match self@ {
                ScalarModel::Int(i) => r matches Some(x) && x as int == i,
                _ => r is None,
            },
    {
        match self {
            ScalarValue::Int(v) => Some(*v),
            _ => None,
        }
    }
}

/// The quoting or block style a scalar was written in.
#[derive(Clone, Copy, Debug, PartialEq, Eq, Structural)]
pub enum ScalarStyle {
    Plain,
    SingleQuoted,
    DoubleQuoted,
    BlockLiteral,
    BlockChomped,
}

/// The document style of a scalar that the lexer read in a flow style.
pub open spec fn style_of(style: LexScalarStyle) -> ScalarStyle {
    match style {
        LexScalarStyle::Plain => ScalarStyle::Plain,
        LexScalarStyle::SingleQuoted => ScalarStyle::SingleQuoted,
        LexScalarStyle::DoubleQuoted => ScalarStyle::DoubleQuoted,
    }
}

pub fn convert_scalar_style(style: LexScalarStyle) -> (r: ScalarStyle)
    ensures
        r == style_of(style),
{
    match style {
        LexScalarStyle::Plain => ScalarStyle::Plain,
        LexScalarStyle::SingleQuoted => ScalarStyle::SingleQuoted,
        LexScalarStyle::DoubleQuoted => ScalarStyle::DoubleQuoted,
    }
}

/// Options that change how a source is parsed.
#[derive(Clone, Copy, Debug, PartialEq, Eq, Structural)]
pub struct ParserOptions {
    /// Force resolution under a specific YAML version; `None` means "auto" (1.2 unless a
    /// `%YAML` directive says otherwise).
    pub yaml_version: Option<YamlVersion>,
    /// Whether `<<` merge keys are expanded in mappings.
    pub merge_keys: bool,
    /// When set and no version is pinned, a plain scalar that resolves differently under 1.1
    /// and 1.2 is an error.
    pub strict_version: bool,
}

impl Default for ParserOptions {
    fn default() -> (r: ParserOptions)
        ensures
            r.yaml_version is None,
            r.merge_keys,
            !r.strict_version,
    {
        ParserOptions { yaml_version: None, merge_keys: true, strict_version: false }
    }
}

} // verus!
