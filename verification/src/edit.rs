//! Paths into a document (`Path::root().field("a").index(0)`) and the errors of editing.
use vstd::prelude::*;
use crate::diagnostics::{yaml_error_text, YamlError};
use crate::text::{decimal_chars, decimal_text, push_chars, push_text, string_from_chars};

verus! {

/// The error type of every fallible editing operation.
#[derive(Clone, Debug, PartialEq, Eq)]
pub enum Error {
    /// The document has no root node.
    EmptyDocument,
    /// A path passed to a removal had no segments.
    EmptyPath,
    /// A field segment didn't name an existing entry of the mapping.
    KeyNotFound,
    /// An index segment was out of bounds for the sequence.
    IndexOutOfBounds,
    /// A path segment expected a mapping or sequence but found something else.
    TypeMismatch,
    /// A node id of the document's own structure didn't resolve to a node.
    DanglingNode,
    /// The source failed to parse.
    Parse(String),
}

/// The message an editing error displays.
pub open spec fn edit_error_text(e: Error) -> Seq<char> {
    match e {
        Error::EmptyDocument => "document has no root node"@,
        Error::EmptyPath => "path has no segments"@,
        Error::KeyNotFound => "key not found"@,
        Error::IndexOutOfBounds => "index out of bounds"@,
        Error::TypeMismatch => "path segment does not match the node's kind"@,
        Error::DanglingNode => "dangling node id"@,
        Error::Parse(msg) => msg@,
    }
}

impl Error {
    /// The error's message.
    pub fn message(&self) -> (r: String)
        ensures
            r@ == edit_error_text(*self),
    {
        match self {
            Error::EmptyDocument => "document has no root node".to_string(),
            Error::EmptyPath => "path has no segments".to_string(),
            Error::KeyNotFound => "key not found".to_string(),
            Error::IndexOutOfBounds => "index out of bounds".to_string(),
            Error::TypeMismatch => "path segment does not match the node's kind".to_string(),
            Error::DanglingNode => "dangling node id".to_string(),
            Error::Parse(msg) => msg.clone(),
        }
    }

    /// A parse failure, carrying the rendered parse error.
    pub fn from_yaml_error(e: &YamlError) -> (r: Error)
        ensures
            r matches Error::Parse(msg) && msg@ == yaml_error_text(*e),
    {
        Error::Parse(e.render())
    }
}

/// One segment of a path: a mapping field or a sequence index.
#[derive(Clone, Debug, PartialEq, Eq)]
pub enum Key {
    Field(String),
    Index(usize),
}

/// A path segment by its contents.
pub enum KeyModel {
    Field(Seq<char>),
    Index(nat),
}

impl View for Key {
    type V = KeyModel;

    open spec fn view(&self) -> KeyModel {
        match self {
            Key::Field(name) => KeyModel::Field(name@),
            Key::Index(i) => KeyModel::Index(*i as nat),
        }
    }
}

pub open spec fn keys_model(keys: Seq<Key>) -> Seq<KeyModel> {
    keys.map_values(|k: Key| k@)
}

/// A copy of a key with the same contents.
fn copy_key(k: &Key) -> (r: Key)
    ensures
        r@ == k@,
{
    match k {
        Key::Field(name) => Key::Field(name.clone()),
        Key::Index(i) => Key::Index(*i),
    }
}

/// A path from a document's root down to some node.
#[derive(Clone, Debug, PartialEq, Eq)]
pub struct Path(Vec<Key>);

impl View for Path {
    type V = Seq<KeyModel>;

    closed spec fn view(&self) -> Seq<KeyModel> {
        keys_model(self.0@)
    }
}

impl Default for Path {
    fn default() -> (r: Path)
        ensures
            r@ == Seq::<KeyModel>::empty(),
    {
        Path::root()
    }
}

impl Path {
    /// The empty path, naming the root itself.
    pub fn root() -> (r: Path)
        ensures
            r@ == Seq::<KeyModel>::empty(),
    {
        let p = Path(Vec::new());
        assert(p@ =~= Seq::<KeyModel>::empty());
        p
    }

    /// This path followed by the mapping field `name`.
    pub fn field(self, name: &str) -> (r: Path)
        ensures
            r@ == self@.push(KeyModel::Field(name@)),
    {
        let mut keys = self.0;
        let ghost before = keys_model(keys@);
        keys.push(Key::Field(name.to_string()));
        let p = Path(keys);
        assert(p@ =~= before.push(KeyModel::Field(name@)));
        p
    }

    /// This path followed by the sequence index `i`.
    pub fn index(self, i: usize) -> (r: Path)
        ensures
            r@ == self@.push(KeyModel::Index(i as nat)),
    {
        let mut keys = self.0;
        let ghost before = keys_model(keys@);
        keys.push(Key::Index(i));
        let p = Path(keys);
        assert(p@ =~= before.push(KeyModel::Index(i as nat)));
        p
    }

    pub fn is_empty(&self) -> (r: bool)
        ensures
            r == (self@.len() == 0),
    {
        self.0.len() == 0
    }

    /// The segments, root first.
    pub fn keys(&self) -> (r: &[Key])
        ensures
            keys_model(r@) == self@,
    {
        self.0.as_slice()
    }

    /// Splits off the last segment: everything before it and the segment itself, or `None` for
    /// the root path.
    pub fn split_last(&self) -> (r: Option<(Path, Key)>)
        ensures
            match r {
                None => self@.len() == 0,
                Some((init, last)) => self@.len() > 0 && init@ == self@.drop_last() && last@
                    == self@.last(),
            },
    {
        let n = self.0.len();
        if n == 0 {
            return None;
        }
        let mut init: Vec<Key> = Vec::new();
        let mut i: usize = 0;
        while i < n - 1
            invariant
                n == self.0@.len(),
                n > 0,
                i <= n - 1,
                keys_model(init@) == keys_model(self.0@).take(i as int),
            decreases n - 1 - i,
        {
            let k = copy_key(&self.0[i]);
            let ghost before = init@;
            assert(k@ == self.0@[i as int]@);
            init.push(k);
            assert(keys_model(init@) =~= keys_model(before).push(k@));
            assert(keys_model(self.0@).take(i + 1) =~= keys_model(self.0@).take(i as int).push(
                self.0@[i as int]@,
            ));
            i = i + 1;
        }
        let last = copy_key(&self.0[n - 1]);
        let p = Path(init);
        assert(p@ =~= self@.drop_last());
        Some((p, last))
    }
}

/// Splitting the last segment off a path extended by a segment gives back the path and the
/// segment.
pub proof fn lemma_split_last_undoes_extend(keys: Seq<KeyModel>, k: KeyModel)
    ensures
        keys.push(k).len() > 0,
        keys.push(k).drop_last() == keys,
        keys.push(k).last() == k,
{
    assert(keys.push(k).drop_last() =~= keys);
}

/// How a path segment is spelled in a dotted path.
pub open spec fn key_text(k: KeyModel) -> Seq<char> {
    match k {
        KeyModel::Field(name) => name,
        KeyModel::Index(i) => decimal_text(i),
    }
}

/// The segments joined with `.`; a `.` is only written once something has been written.
pub open spec fn joined_path(keys: Seq<KeyModel>) -> Seq<char>
    decreases keys.len(),
{
    if keys.len() == 0 {
        Seq::empty()
    } else {
        let acc = joined_path(keys.drop_last());
        if acc.len() > 0 {
            acc.push('.') + key_text(keys.last())
        } else {
            key_text(keys.last())
        }
    }
}

/// The dotted spelling of a path, `<root>` for the empty path.
pub open spec fn path_text(keys: Seq<KeyModel>) -> Seq<char> {
    if keys.len() == 0 {
        "<root>"@
    } else {
        joined_path(keys)
    }
}

/// Renders a path as `a.0.b`, or `<root>` for the empty path.
pub fn path_to_string(path: &[Key]) -> (r: String)
    ensures
        r@ == path_text(keys_model(path@)),
{
    if path.len() == 0 {
        return "<root>".to_string();
    }
    let mut out: Vec<char> = Vec::new();
    let mut i: usize = 0;
    assert(keys_model(path@).take(0) =~= Seq::<KeyModel>::empty());
    while i < path.len()
        invariant
            i <= path@.len(),
            out@ == joined_path(keys_model(path@).take(i as int)),
        decreases path@.len() - i,
    {
        let ghost km = keys_model(path@);
        assert(km.take(i + 1).drop_last() =~= km.take(i as int));
        assert(km.take(i + 1).last() == path@[i as int]@);
        if out.len() > 0 {
            out.push('.');
        }
        match &path[i] {
            Key::Field(name) => {
                push_text(&mut out, name.as_str());
            },
            Key::Index(n) => {
                push_chars(&mut out, &decimal_chars(*n));
            },
        }
        i = i + 1;
    }
    assert(keys_model(path@).take(path@.len() as int) =~= keys_model(path@));
    string_from_chars(out.as_slice())
}

} // verus!
