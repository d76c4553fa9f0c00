use vstd::prelude::*;
use crate::labelset::{keys_unique, lookup, set_spec, delete_spec, Labelset, LabelsView};

verus! {

/// The view of an optional label set.
pub open spec fn opt_view(o: Option<Labelset>) -> Option<LabelsView> {
    match o {
        Some(l) => Some(l@),
        None => None,
    }
}

/// The labels in force for a slot: those of the installed set, or none.
pub open spec fn active(v: Option<LabelsView>) -> LabelsView {
    match v {
        Some(s) => s,
        None => Seq::empty(),
    }
}

/// The slot that holds a thread's current label set.
///
/// Each thread owns exactly one slot. It holds either no label set or one
/// installed set; `replace` is the one way to change which set that is.
pub struct LabelRoot {
    current: Option<Labelset>,
}

impl View for LabelRoot {
    type V = Option<LabelsView>;

    closed spec fn view(&self) -> Option<LabelsView> {
        opt_view(self.current)
    }
}

impl LabelRoot {
    #[verifier::type_invariant]
    pub open spec fn inv(self) -> bool {
        keys_unique(active(self@))
    }

    /// A slot with no label set installed.
    pub fn new() -> (r: Self)
        ensures
            r@ == None::<LabelsView>,
    {
        LabelRoot { current: None }
    }

    /// The installed label set, if any.
    pub fn current(&self) -> (r: Option<&Labelset>)
        ensures
            match r {
                Some(l) => self@ == Some(l@),
                None => self@ == None::<LabelsView>,
            },
    {
        match &self.current {
            Some(l) => Some(l),
            None => None,
        }
    }

    /// Installs `new` and hands back what was installed before.
    pub fn replace(&mut self, new: Option<Labelset>) -> (r: Option<Labelset>)
        ensures
            final(self)@ == opt_view(new),
            opt_view(r) == old(self)@,
            keys_unique(active(old(self)@)),
            keys_unique(active(final(self)@)),
    {
        proof {
            use_type_invariant(&*self);
            match &new {
                Some(l) => use_type_invariant(l),
                None => {},
            }
        }
        let mut other = LabelRoot { current: new };
        std::mem::swap(self, &mut other);
        other.current
    }

    /// Installs an empty label set when none is installed.
    pub fn ensure_current(&mut self)
        ensures
            final(self)@ == Some(active(old(self)@)),
    {
        proof {
            use_type_invariant(&*self);
        }
        if self.current.is_none() {
            self.current = Some(Labelset::new());
        }
    }

    /// The value of `key` in the installed set; absent when none is installed.
    pub fn get(&self, key: &[u8]) -> (r: Option<&[u8]>)
        ensures
            match r {
                Some(v) => lookup(active(self@), key@) == Some(v@),
                None => lookup(active(self@), key@) == None::<Seq<u8>>,
            },
            keys_unique(active(self@)),
    {
        proof {
            use_type_invariant(self);
        }
        match &self.current {
            Some(l) => l.get(key),
            None => None,
        }
    }

    /// Binds `key` to `value` in the installed set, installing an empty set
    /// first when there is none.
    pub fn set(&mut self, key: &[u8], value: &[u8])
        ensures
            final(self)@ == Some(set_spec(active(old(self)@), key@, value@)),
            keys_unique(active(old(self)@)),
            keys_unique(active(final(self)@)),
    {
        let mut taken = LabelRoot::new();
        std::mem::swap(self, &mut taken);
        let mut l = match taken.current {
            Some(l) => l,
            None => Labelset::new(),
        };
        l.set(key, value);
        *self = LabelRoot { current: Some(l) };
    }

    /// Removes `key` from the installed set, if there is one.
    pub fn delete(&mut self, key: &[u8])
        ensures
            final(self)@ == match old(self)@ {
                Some(s) => Some(delete_spec(s, key@)),
                None => None,
            },
            keys_unique(active(old(self)@)),
            keys_unique(active(final(self)@)),
    {
        proof {
            use_type_invariant(&*self);
        }
        let mut taken = LabelRoot::new();
        std::mem::swap(self, &mut taken);
        let current = match taken.current {
            Some(l) => {
                let mut l = l;
                l.delete(key);
                Some(l)
            },
            None => None,
        };
        *self = LabelRoot { current };
    }
}

impl Default for LabelRoot {
    fn default() -> (r: Self)
        ensures
            r@ == None::<LabelsView>,
    {
        LabelRoot::new()
    }
}

impl Labelset {
    /// A copy of the installed label set, or an empty set when none is
    /// installed.
    pub fn clone_from_current(root: &LabelRoot) -> (r: Labelset)
        ensures
            r@ == active(root@),
    {
        match Self::try_clone_from_current(root) {
            Some(l) => l,
            None => Labelset::new(),
        }
    }

    /// A copy of the installed label set, if there is one.
    pub fn try_clone_from_current(root: &LabelRoot) -> (r: Option<Labelset>)
        ensures
            opt_view(r) == root@,
    {
        match root.current() {
            Some(l) => Some(l.clone()),
            None => None,
        }
    }
}

} // verus!
