//! The path-ascension primitive: a path paired with a marker recording
//! whether it was walked upward (truncated) from its original form.

use vstd::prelude::*;

use crate::paths::DirPath;
use crate::paths::ellipsis_component;
use crate::paths::ellipsis_seq;

verus! {

/// The display value of an ascension state: the wrapped path itself, with a
/// trailing ellipsis component when levels were elided.
pub open spec fn materialized(v: (Seq<Seq<char>>, bool)) -> Seq<Seq<char>> {
    if v.1 {
        v.0.push(ellipsis_seq())
    } else {
        v.0
    }
}

/// A path and its truncation marker. The marker is true iff the path was
/// replaced by a strict ancestor of an original candidate during processing.
#[derive(Debug)]
pub struct ShrinkPath {
    p: DirPath,
    shrunk: bool,
}

impl View for ShrinkPath {
    type V = (Seq<Seq<char>>, bool);

    closed spec fn view(&self) -> (Seq<Seq<char>>, bool) {
        (self.p@, self.shrunk)
    }
}

impl ShrinkPath {
    /// Wraps a path, not yet truncated.
    pub fn new(p: DirPath) -> (r: ShrinkPath)
        ensures
            r@ == (p@, false),
    {
        ShrinkPath { p, shrunk: false }
    }

    /// The wrapped path's parent, without mutating; at the root, where no
    /// parent exists, the path itself.
    pub fn parent(&self) -> (r: DirPath)
        ensures
            self@.0.len() == 0 ==> r@ == self@.0,
            self@.0.len() > 0 ==> r@ == self@.0.drop_last(),
    {
        match self.p.parent() {
            Some(q) => q,
            None => self.p.duplicate(),
        }
    }

    /// Replaces the wrapped path by its parent (the root stays put) and
    /// records the truncation.
    pub fn ascend(&mut self)
        ensures
            old(self)@.0.len() == 0 ==> final(self)@ == (old(self)@.0, true),
            old(self)@.0.len() > 0 ==> final(self)@ == (old(self)@.0.drop_last(), true),
    {
        let q = self.parent();
        self.p = q;
        self.shrunk = true;
    }

    /// How many components the wrapped path has.
    pub fn depth(&self) -> (n: usize)
        ensures
            n == self@.0.len(),
    {
        self.p.depth()
    }

    /// The wrapped path.
    pub fn path(&self) -> (r: &DirPath)
        ensures
            r@ == self@.0,
    {
        &self.p
    }

    /// An independent copy of the ascension state.
    pub fn duplicate(&self) -> (r: ShrinkPath)
        ensures
            r@ == self@,
    {
        ShrinkPath { p: self.p.duplicate(), shrunk: self.shrunk }
    }

    /// The displayable value: the path, plus a literal ellipsis component
    /// signalling elided levels when the truncation marker is set.
    pub fn materialize(&self) -> (r: DirPath)
        ensures
            r@ == materialized(self@),
    {
        let mut d = self.p.duplicate();
        if self.shrunk {
            d.push(ellipsis_component());
        }
        d
    }
}

impl PartialEq for ShrinkPath {
    /// Equality over the materialized value, not the raw pair: two ascension
    /// histories that produce the same visible entry count as one.
    fn eq(&self, other: &ShrinkPath) -> (r: bool) {
        self.materialize() == other.materialize()
    }
}

impl vstd::std_specs::cmp::PartialEqSpecImpl for ShrinkPath {
    open spec fn obeys_eq_spec() -> bool {
        true
    }

    open spec fn eq_spec(&self, other: &ShrinkPath) -> bool {
        materialized(self@) == materialized(other@)
    }
}

} // verus!
