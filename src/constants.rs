//! The constants pool: four append-only arenas that hand out stable handles.
use vstd::prelude::*;
use crate::values::{ExpressionValue, Path, PathId, StringId, TextId, TextPath, ValueId};

verus! {

/// Strings, texts, values and paths met while compiling one template.
///
/// Each arena only grows; a handle is the position of what it stands for.
#[derive(Debug)]
pub struct Constants {
    strings: Vec<String>,
    texts: Vec<TextPath>,
    values: Vec<ExpressionValue>,
    paths: Vec<Path>,
}

impl Constants {
    /// The stored strings, by handle.
    pub closed spec fn strings(&self) -> Seq<String> {
        self.strings@
    }

    /// The stored texts, by handle.
    pub closed spec fn texts(&self) -> Seq<TextPath> {
        self.texts@
    }

    /// The stored values, by handle.
    pub closed spec fn values(&self) -> Seq<ExpressionValue> {
        self.values@
    }

    /// The stored paths, by handle.
    pub closed spec fn paths_view(&self) -> Seq<Path> {
        self.paths@
    }

    /// Whether `later` holds everything this pool holds, under the same handles.
    pub open spec fn kept_in(&self, later: &Constants) -> bool {
        &&& self.strings().len() <= later.strings().len()
        &&& self.texts().len() <= later.texts().len()
        &&& self.values().len() <= later.values().len()
        &&& self.paths_view().len() <= later.paths_view().len()
        &&& forall|i: int|
            0 <= i < self.strings().len() ==> #[trigger] later.strings()[i] == self.strings()[i]
        &&& forall|i: int| 0 <= i < self.texts().len() ==> #[trigger] later.texts()[i] == self.texts()[i]
        &&& forall|i: int| 0 <= i < self.values().len() ==> #[trigger] later.values()[i] == self.values()[i]
        &&& forall|i: int|
            0 <= i < self.paths_view().len() ==> #[trigger] later.paths_view()[i] == self.paths_view()[i]
    }

    /// An empty pool.
    pub fn new() -> (r: Constants)
        ensures
            r.strings().len() == 0,
            r.texts().len() == 0,
            r.values().len() == 0,
            r.paths_view().len() == 0,
    {
        Constants { strings: Vec::new(), texts: Vec::new(), values: Vec::new(), paths: Vec::new() }
    }

    /// Stores a string under a new handle.
    pub fn store_string(&mut self, string: String) -> (r: StringId)
        ensures
            old(self).kept_in(&*final(self)),
            final(self).strings() == old(self).strings().push(string),
            final(self).texts() == old(self).texts(),
            final(self).values() == old(self).values(),
            final(self).paths_view() == old(self).paths_view(),
            r.0 == old(self).strings().len(),
    {
        let id = self.strings.len();
        self.strings.push(string);
        StringId(id)
    }

    /// Stores a text under a new handle.
    pub fn store_text(&mut self, text: TextPath) -> (r: TextId)
        ensures
            old(self).kept_in(&*final(self)),
            final(self).texts() == old(self).texts().push(text),
            final(self).strings() == old(self).strings(),
            final(self).values() == old(self).values(),
            final(self).paths_view() == old(self).paths_view(),
            r.0 == old(self).texts().len(),
    {
        let id = self.texts.len();
        self.texts.push(text);
        TextId(id)
    }

    /// Stores a value under a new handle.
    pub fn store_value(&mut self, value: ExpressionValue) -> (r: ValueId)
        ensures
            old(self).kept_in(&*final(self)),
            final(self).values() == old(self).values().push(value),
            final(self).strings() == old(self).strings(),
            final(self).texts() == old(self).texts(),
            final(self).paths_view() == old(self).paths_view(),
            r.0 == old(self).values().len(),
    {
        let id = self.values.len();
        self.values.push(value);
        ValueId(id)
    }

    /// Stores a path under a new handle.
    pub fn store_path(&mut self, path: Path) -> (r: PathId)
        ensures
            old(self).kept_in(&*final(self)),
            final(self).paths_view() == old(self).paths_view().push(path),
            final(self).strings() == old(self).strings(),
            final(self).texts() == old(self).texts(),
            final(self).values() == old(self).values(),
            r.0 == old(self).paths_view().len(),
    {
        let id = self.paths.len();
        self.paths.push(path);
        PathId(id)
    }

    /// All stored paths, in the order they were stored.
    pub fn paths(&self) -> (r: &[Path])
        ensures
            r@ == self.paths_view(),
    {
        self.paths.as_slice()
    }

    /// The string under a handle, if there is one.
    pub fn lookup_string(&self, index: StringId) -> (r: Option<&str>)
        ensures
            index.0 < self.strings().len() ==> r is Some && r->0@ == self.strings()[index.0 as int]@,
            index.0 >= self.strings().len() ==> r is None,
    {
        if index.0 < self.strings.len() {
            Some(self.strings[index.0].as_str())
        } else {
            None
        }
    }

    /// The text under a handle, if there is one.
    pub fn lookup_text(&self, index: TextId) -> (r: Option<&TextPath>)
        ensures
            index.0 < self.texts().len() ==> r == Some(&self.texts()[index.0 as int]),
            index.0 >= self.texts().len() ==> r is None,
    {
        if index.0 < self.texts.len() {
            Some(&self.texts[index.0])
        } else {
            None
        }
    }

    /// The value under a handle, if there is one.
    pub fn lookup_value(&self, index: ValueId) -> (r: Option<&ExpressionValue>)
        ensures
            index.0 < self.values().len() ==> r == Some(&self.values()[index.0 as int]),
            index.0 >= self.values().len() ==> r is None,
    {
        if index.0 < self.values.len() {
            Some(&self.values[index.0])
        } else {
            None
        }
    }

    /// The path under a handle, if there is one.
    pub fn lookup_path(&self, path_id: PathId) -> (r: Option<&Path>)
        ensures
            path_id.0 < self.paths_view().len() ==> r == Some(&self.paths_view()[path_id.0 as int]),
            path_id.0 >= self.paths_view().len() ==> r is None,
    {
        if path_id.0 < self.paths.len() {
            Some(&self.paths[path_id.0])
        } else {
            None
        }
    }
}

/// Further stores keep what earlier stores put in the pool: being kept
/// carries over from one pool to the next.
pub proof fn lemma_kept_in_trans(a: Constants, b: Constants, c: Constants)
    requires
        a.kept_in(&b),
        b.kept_in(&c),
    ensures
        a.kept_in(&c),
{
    assert forall|i: int| 0 <= i < a.strings().len() implies #[trigger] c.strings()[i] == a.strings()[i] by {
        assert(c.strings()[i] == b.strings()[i]);
    }
    assert forall|i: int| 0 <= i < a.texts().len() implies #[trigger] c.texts()[i] == a.texts()[i] by {
        assert(c.texts()[i] == b.texts()[i]);
    }
    assert forall|i: int| 0 <= i < a.values().len() implies #[trigger] c.values()[i] == a.values()[i] by {
        assert(c.values()[i] == b.values()[i]);
    }
    assert forall|i: int| 0 <= i < a.paths_view().len() implies #[trigger] c.paths_view()[i]
        == a.paths_view()[i] by {
        assert(c.paths_view()[i] == b.paths_view()[i]);
    }
}

/// A string stored under `id` is still there in any later pool that keeps
/// this one, however many stores came between.
pub proof fn lemma_string_kept(stored: Constants, later: Constants, id: StringId, s: String)
    requires
        id.0 < stored.strings().len(),
        stored.strings()[id.0 as int] == s,
        stored.kept_in(&later),
    ensures
        later.strings()[id.0 as int] == s,
{
}

/// A text stored under `id` is still there in any later pool that keeps this one.
pub proof fn lemma_text_kept(stored: Constants, later: Constants, id: TextId, t: TextPath)
    requires
        id.0 < stored.texts().len(),
        stored.texts()[id.0 as int] == t,
        stored.kept_in(&later),
    ensures
        later.texts()[id.0 as int] == t,
{
}

/// A value stored under `id` is still there in any later pool that keeps this one.
pub proof fn lemma_value_kept(stored: Constants, later: Constants, id: ValueId, v: ExpressionValue)
    requires
        id.0 < stored.values().len(),
        stored.values()[id.0 as int] == v,
        stored.kept_in(&later),
    ensures
        later.values()[id.0 as int] == v,
{
}

/// A path stored under `id` is still there in any later pool that keeps this one.
pub proof fn lemma_path_kept(stored: Constants, later: Constants, id: PathId, p: Path)
    requires
        id.0 < stored.paths_view().len(),
        stored.paths_view()[id.0 as int] == p,
        stored.kept_in(&later),
    ensures
        later.paths_view()[id.0 as int] == p,
{
}

/// Storing a string and looking up the handle it gave returns that string;
/// what was stored before stays under its handle.
pub proof fn lemma_string_round_trip(before: Constants, after: Constants, s: String, id: StringId)
    requires
        after.strings() == before.strings().push(s),
        id.0 == before.strings().len(),
    ensures
        after.strings()[id.0 as int] == s,
        forall|i: int| 0 <= i < before.strings().len() ==> after.strings()[i] == before.strings()[i],
{
}

/// Storing a text and looking up the handle it gave returns that text.
pub proof fn lemma_text_round_trip(before: Constants, after: Constants, t: TextPath, id: TextId)
    requires
        after.texts() == before.texts().push(t),
        id.0 == before.texts().len(),
    ensures
        after.texts()[id.0 as int] == t,
        forall|i: int| 0 <= i < before.texts().len() ==> after.texts()[i] == before.texts()[i],
{
}

/// Storing a value and looking up the handle it gave returns that value.
pub proof fn lemma_value_round_trip(
    before: Constants,
    after: Constants,
    v: ExpressionValue,
    id: ValueId,
)
    requires
        after.values() == before.values().push(v),
        id.0 == before.values().len(),
    ensures
        after.values()[id.0 as int] == v,
        forall|i: int| 0 <= i < before.values().len() ==> after.values()[i] == before.values()[i],
{
}

/// Storing a path and looking up the handle it gave returns that path.
pub proof fn lemma_path_round_trip(before: Constants, after: Constants, p: Path, id: PathId)
    requires
        after.paths_view() == before.paths_view().push(p),
        id.0 == before.paths_view().len(),
    ensures
        after.paths_view()[id.0 as int] == p,
        forall|i: int|
            0 <= i < before.paths_view().len() ==> after.paths_view()[i] == before.paths_view()[i],
{
}

} // verus!
