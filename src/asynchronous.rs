use vstd::prelude::*;
use crate::labelset::{
    keys_unique, lemma_lookup_after_set, lookup, pairs_view, set_all, set_spec, Labelset, LabelsView,
};
use crate::root::{active, LabelRoot};

verus! {

/// A suspendable computation together with the label set that is installed
/// while it is driven.
pub struct Labeled<Fut> {
    inner: Fut,
    labelset: Labelset,
}

impl<Fut> Labeled<Fut> {
    /// The wrapped computation.
    pub closed spec fn inner_spec(&self) -> Fut {
        self.inner
    }

    /// The labels that each drive step installs.
    pub closed spec fn labels(&self) -> LabelsView {
        self.labelset@
    }

    /// Pairs `inner` with `labelset`.
    pub fn new(inner: Fut, labelset: Labelset) -> (r: Self)
        ensures
            r.inner_spec() == inner,
            r.labels() == labelset@,
    {
        Labeled { inner, labelset }
    }

    /// The carried label set.
    pub fn labelset(&self) -> (r: &Labelset)
        ensures
            r@ == self.labels(),
    {
        &self.labelset
    }

    /// Splits into the computation and the carried label set.
    pub fn into_parts(self) -> (r: (Fut, Labelset))
        ensures
            r.0 == self.inner_spec(),
            r.1@ == self.labels(),
    {
        (self.inner, self.labelset)
    }

    /// One drive step: installs the carried set, runs `step`, and installs
    /// again whatever was current before, whatever `step` did.
    ///
    /// Changes that `step` makes through the slot are kept in the carried set
    /// for the next step.
    pub fn drive<F, Ret>(&mut self, root: LabelRoot, step: F) -> (res: (LabelRoot, Ret))
        where
            F: FnOnce(LabelRoot) -> (LabelRoot, Ret),
        requires
            forall|r: LabelRoot| r@ == Some(old(self).labels()) ==> #[trigger] step.requires((r,)),
        ensures
            res.0@ == root@,
            final(self).inner_spec() == old(self).inner_spec(),
            (forall|r: LabelRoot, o: (LabelRoot, Ret)| #[trigger] step.ensures((r,), o) ==> o.0@ == r@)
                ==> final(self).labels() == old(self).labels(),
            exists|r_in: LabelRoot, out: (LabelRoot, Ret)|
                {
                    &&& r_in@ == Some(old(self).labels())
                    &&& step.ensures((r_in,), out)
                    &&& keys_unique(active(out.0@))
                    &&& final(self).labels() == active(out.0@)
                    &&& res.1 == out.1
                },
    {
        self.labelset.enter(root, step)
    }
}

/// Attaches labels to a suspendable computation.
pub trait Label: Sized {
    /// Carries a copy of the labels current at the time of the call.
    fn with_current_labels(self, root: &LabelRoot) -> (r: Labeled<Self>)
        ensures
            r.inner_spec() == self,
            r.labels() == active(root@),
    ;

    /// Carries the current labels with `key` bound to `value`.
    fn with_label(self, root: &LabelRoot, key: &[u8], value: &[u8]) -> (r: Labeled<Self>)
        ensures
            r.inner_spec() == self,
            r.labels() == set_spec(active(root@), key@, value@),
            lookup(r.labels(), key@) == Some(value@),
    ;

    /// Carries the current labels with each of `pairs` bound in turn.
    fn with_labels(self, root: &LabelRoot, pairs: &Vec<(Vec<u8>, Vec<u8>)>) -> (r: Labeled<Self>)
        ensures
            r.inner_spec() == self,
            r.labels() == set_all(active(root@), pairs_view(pairs@)),
    ;

    /// Carries `labelset` as it is.
    fn with_labelset(self, labelset: Labelset) -> (r: Labeled<Self>)
        ensures
            r.inner_spec() == self,
            r.labels() == labelset@,
    ;
}

impl<Fut> Label for Fut {
    fn with_current_labels(self, root: &LabelRoot) -> (r: Labeled<Self>) {
        Labeled::new(self, Labelset::clone_from_current(root))
    }

    fn with_label(self, root: &LabelRoot, key: &[u8], value: &[u8]) -> (r: Labeled<Self>) {
        let mut labelset = Labelset::clone_from_current(root);
        labelset.set(key, value);
        proof {
            lemma_lookup_after_set(active(root@), key@, value@, key@);
        }
        Labeled::new(self, labelset)
    }

    fn with_labels(self, root: &LabelRoot, pairs: &Vec<(Vec<u8>, Vec<u8>)>) -> (r: Labeled<Self>) {
        let mut labelset = Labelset::clone_from_current(root);
        labelset.extend(pairs);
        Labeled::new(self, labelset)
    }

    fn with_labelset(self, labelset: Labelset) -> (r: Labeled<Self>) {
        Labeled::new(self, labelset)
    }
}

} // verus!
