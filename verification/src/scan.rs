//! The list of roots that a recursive walk over the file system starts from.
use crate::progress::Progress;
use vstd::prelude::*;

verus! {

/// The roots of a walker that had `roots` after `added` are added one after
/// another, each as `Walker::add_path` adds it.
pub open spec fn spec_roots_after<T>(roots: Seq<T>, added: Seq<T>) -> Seq<T>
    decreases added.len(),
{
    if added.len() == 0 {
        roots
    } else {
        spec_roots_after(roots, added.drop_last()).push(added.last())
    }
}

/// Roots added one after another are all kept, duplicates included, in the
/// order they were added, after those already there; so the walk, root by
/// root, goes in that order.
pub proof fn lemma_roots_in_order<T>(roots: Seq<T>, added: Seq<T>)
    ensures
        spec_roots_after(roots, added) == roots + added,
    decreases added.len(),
{
    if added.len() > 0 {
        lemma_roots_in_order(roots, added.drop_last());
        assert(roots + added.drop_last() + seq![added.last()] =~= roots + added);
        assert((roots + added.drop_last()).push(added.last()) =~= roots + added);
    }
}

/// The roots to walk, in the order they were added, and the progress that
/// hears of errors met while walking.  The walk itself is done by the caller,
/// root by root.
pub struct Walker<'a, P> {
    paths: Vec<&'a str>,
    progress: &'a P,
}

impl<'a, P: Progress> Walker<'a, P> {
    /// The roots added so far.
    pub closed spec fn spec_paths(&self) -> Seq<&'a str> {
        self.paths@
    }

    /// The progress that hears of errors.
    pub closed spec fn spec_progress(&self) -> &'a P {
        self.progress
    }

    /// A walker with no roots yet.
    pub fn new(progress: &'a P) -> (w: Self)
        ensures
            w.spec_paths() == Seq::<&'a str>::empty(),
            w.spec_progress() == progress,
    {
        Walker { paths: Vec::new(), progress }
    }

    /// Adds a root to walk after those already added.
    pub fn add_path(&mut self, path: &'a str)
        ensures
            final(self).spec_paths() == old(self).spec_paths().push(path),
            final(self).spec_progress() == old(self).spec_progress(),
    {
        self.paths.push(path);
    }

    /// The roots, in the order they were added.
    pub fn paths(&self) -> (p: &Vec<&'a str>)
        ensures
            p@ == self.spec_paths(),
    {
        &self.paths
    }

    /// The progress that hears of errors.
    pub fn progress(&self) -> (p: &'a P)
        ensures
            p == self.spec_progress(),
    {
        self.progress
    }
}

} // verus!
