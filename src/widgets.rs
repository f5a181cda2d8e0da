//! Widget-side pieces that the compiled tree feeds: the factory registry,
//! node metadata and the settings of a multi-child layout.
use vstd::prelude::*;
use crate::text::str_eq;
use crate::values::{Axis, Direction, TextPath};

verus! {

/// Names that statements use and that no widget may take.
pub open spec fn is_reserved(name: Seq<char>) -> bool {
    name == "if"@ || name == "for"@ || name == "else"@ || name == "with"@
}

/// Why a factory could not be registered or found.
#[derive(Debug, Clone, PartialEq, Eq)]
pub enum FactoryError {
    /// The name belongs to the template language.
    ReservedName(String),
    /// A factory is registered under the name already.
    ExistingName(String),
    /// No factory is registered under the name.
    UnregisteredWidget(String),
}

/// Widget factories by name, passed to whoever builds widgets.
pub struct Factory<F> {
    entries: Vec<(String, F)>,
}

impl<F> Factory<F> {
    /// The registered names, in registration order.
    pub closed spec fn names(&self) -> Seq<Seq<char>> {
        self.entries@.map_values(|e: (String, F)| e.0@)
    }

    /// The registered factories, by position.
    pub closed spec fn factories(&self) -> Seq<F> {
        self.entries@.map_values(|e: (String, F)| e.1)
    }

    /// An empty registry.
    pub fn new() -> (r: Factory<F>)
        ensures
            r.names().len() == 0,
            r.factories().len() == 0,
    {
        Factory { entries: Vec::new() }
    }

    fn position(&self, ident: &str) -> (r: Option<usize>)
        ensures
            match r {
                Some(i) => i < self.names().len() && self.names()[i as int] == ident@,
                None => !self.names().contains(ident@),
            },
    {
        let mut i: usize = 0;
        while i < self.entries.len()
            invariant
                i <= self.entries@.len(),
                forall|k: int| 0 <= k < i ==> self.names()[k] != ident@,
            decreases self.entries@.len() - i,
        {
            if str_eq(self.entries[i].0.as_str(), ident) {
                return Some(i);
            }
            i += 1;
        }
        None
    }

    /// Registers `factory` under `ident`, unless the name is reserved or taken.
    pub fn register(&mut self, ident: String, factory: F) -> (r: Result<(), FactoryError>)
        ensures
            is_reserved(ident@) ==> r == Err::<(), FactoryError>(FactoryError::ReservedName(ident))
                && final(self).names() == old(self).names(),
            !is_reserved(ident@) && old(self).names().contains(ident@) ==> r == Err::<
                (),
                FactoryError,
            >(FactoryError::ExistingName(ident)) && final(self).names() == old(self).names(),
            !is_reserved(ident@) && !old(self).names().contains(ident@) ==> r is Ok
                && final(self).names() == old(self).names().push(ident@)
                && final(self).factories() == old(self).factories().push(factory),
            r is Err ==> final(self).factories() == old(self).factories(),
    {
        let s = ident.as_str();
        if str_eq(s, "if") || str_eq(s, "for") || str_eq(s, "else") || str_eq(s, "with") {
            return Err(FactoryError::ReservedName(ident));
        }
        if self.position(s).is_some() {
            return Err(FactoryError::ExistingName(ident));
        }
        self.entries.push((ident, factory));
        assert(self.names() =~= old(self).names().push(ident@));
        assert(self.factories() =~= old(self).factories().push(factory));
        Ok(())
    }

    /// The factory registered under `ident`.
    pub fn exec(&self, ident: &str) -> (r: Result<&F, FactoryError>)
        ensures
            self.names().contains(ident@) ==> (r matches Ok(f) && exists|i: int|
                0 <= i < self.names().len() && self.names()[i] == ident@ && *f
                    == self.factories()[i]),
            !self.names().contains(ident@) ==> (r matches Err(FactoryError::UnregisteredWidget(n))
                && n@ == ident@),
    {
        match self.position(ident) {
            Some(i) => Ok(&self.entries[i].1),
            None => Err(FactoryError::UnregisteredWidget(ident.to_owned())),
        }
    }
}

/// What a widget is built from: its name and its text.
pub struct WidgetMeta {
    pub ident: String,
    pub text: Option<TextPath>,
}

#[derive(Debug, Clone, Copy)]
struct Offset {
    axis: Axis,
    inner: i32,
    enabled: bool,
}

/// Lays children out one after another along an axis, skipping `offset`
/// cells first.
#[derive(Debug, Clone, Copy)]
pub struct Many {
    pub direction: Direction,
    pub axis: Axis,
    offset: Offset,
    unconstrained: bool,
}

impl Many {
    pub closed spec fn direction_view(&self) -> Direction {
        self.direction
    }

    pub closed spec fn axis_view(&self) -> Axis {
        self.axis
    }

    pub closed spec fn offset_view(&self) -> i32 {
        self.offset.inner
    }

    pub closed spec fn unconstrained_view(&self) -> bool {
        self.unconstrained
    }

    /// A layout along `axis`, in `direction`, that skips `offset` cells.
    pub fn new(direction: Direction, axis: Axis, offset: i32, unconstrained: bool) -> (r: Many)
        ensures
            r.direction_view() == direction,
            r.axis_view() == axis,
            r.offset_view() == offset,
            r.unconstrained_view() == unconstrained,
    {
        Many { direction, axis, offset: Offset { axis, inner: offset, enabled: true }, unconstrained }
    }

    /// The cells still to skip.
    pub fn offset(&self) -> (r: i32)
        ensures
            r == self.offset_view(),
    {
        self.offset.inner
    }
}

} // verus!
