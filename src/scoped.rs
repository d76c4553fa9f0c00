use vstd::prelude::*;
use crate::labelset::{
    copy_bytes, delete_spec, keys_unique, lemma_delete_keeps_unique, lemma_lookup_after_delete,
    lemma_lookup_after_set, lemma_set_all_keeps_unique, lemma_set_keeps_unique, lookup,
    pairs_view, set_all, set_spec, Labelset, LabelsView,
};
use crate::root::{active, opt_view, LabelRoot};

verus! {

/// The slot after a scoped change of `saved.0` ends: the key gets back the
/// value `saved.1` that it had when the scope began, or loses its entry when
/// it had none.
pub open spec fn restore_spec(v: Option<LabelsView>, saved: (Seq<u8>, Option<Seq<u8>>)) -> Option<
    LabelsView,
> {
    match saved.1 {
        Some(ov) => Some(set_spec(active(v), saved.0, ov)),
        None => match v {
            Some(s) => Some(delete_spec(s, saved.0)),
            None => None,
        },
    }
}

/// Undoes the scoped changes `saved` from the innermost one out.
pub open spec fn restore_all(v: Option<LabelsView>, saved: Seq<(Seq<u8>, Option<Seq<u8>>)>) -> Option<
    LabelsView,
>
    decreases saved.len(),
{
    if saved.len() == 0 {
        v
    } else {
        restore_all(restore_spec(v, saved.last()), saved.drop_last())
    }
}

/// The slot that the body of a scoped change of `pairs` runs on: the slot
/// unchanged when there are no pairs, else the current labels (none when no
/// set is installed) with each pair bound in turn.
pub open spec fn labels_for(v: Option<LabelsView>, pairs: LabelsView) -> Option<LabelsView> {
    if pairs.len() == 0 {
        v
    } else {
        Some(set_all(active(v), pairs))
    }
}

/// What scoped changes remember when they bind `pairs` in turn onto `s`:
/// each key with the value it had just before its own change.
pub open spec fn saved_for(s: LabelsView, pairs: LabelsView) -> Seq<(Seq<u8>, Option<Seq<u8>>)> {
    Seq::new(pairs.len(), |i: int| (pairs[i].0, lookup(set_all(s, pairs.take(i)), pairs[i].0)))
}

/// However the slot was changed in between, ending a scoped change gives its
/// key back the value it had when the scope began.
pub proof fn lemma_restore_reverts(v: Option<LabelsView>, saved: (Seq<u8>, Option<Seq<u8>>))
    requires
        keys_unique(active(v)),
    ensures
        lookup(active(restore_spec(v, saved)), saved.0) == saved.1,
{
    match saved.1 {
        Some(ov) => lemma_lookup_after_set(active(v), saved.0, ov, saved.0),
        None => match v {
            Some(s) => lemma_lookup_after_delete(s, saved.0, saved.0),
            None => {},
        },
    }
}

proof fn lemma_restore_keeps_unique(v: Option<LabelsView>, saved: (Seq<u8>, Option<Seq<u8>>))
    requires
        keys_unique(active(v)),
    ensures
        keys_unique(active(restore_spec(v, saved))),
{
    match saved.1 {
        Some(ov) => lemma_set_keeps_unique(active(v), saved.0, ov),
        None => match v {
            Some(s) => lemma_delete_keeps_unique(s, saved.0),
            None => {},
        },
    }
}

proof fn lemma_restore_other(v: Option<LabelsView>, saved: (Seq<u8>, Option<Seq<u8>>), q: Seq<u8>)
    requires
        keys_unique(active(v)),
        q != saved.0,
    ensures
        lookup(active(restore_spec(v, saved)), q) == lookup(active(v), q),
{
    match saved.1 {
        Some(ov) => lemma_lookup_after_set(active(v), saved.0, ov, q),
        None => match v {
            Some(s) => lemma_lookup_after_delete(s, saved.0, q),
            None => {},
        },
    }
}

proof fn lemma_set_all_other(s: LabelsView, pairs: LabelsView, q: Seq<u8>)
    requires
        keys_unique(s),
        forall|i: int| 0 <= i < pairs.len() ==> pairs[i].0 != q,
    ensures
        lookup(set_all(s, pairs), q) == lookup(s, q),
    decreases pairs.len(),
{
    if pairs.len() > 0 {
        let d = pairs.drop_last();
        assert forall|i: int| 0 <= i < d.len() implies d[i].0 != q by {
            assert(d[i] == pairs[i]);
        }
        lemma_set_all_other(s, d, q);
        lemma_set_all_keeps_unique(s, d);
        lemma_lookup_after_set(set_all(s, d), pairs.last().0, pairs.last().1, q);
    }
}

proof fn lemma_restore_all_other(
    v: Option<LabelsView>,
    saved: Seq<(Seq<u8>, Option<Seq<u8>>)>,
    q: Seq<u8>,
)
    requires
        keys_unique(active(v)),
        forall|i: int| 0 <= i < saved.len() ==> saved[i].0 != q,
    ensures
        lookup(active(restore_all(v, saved)), q) == lookup(active(v), q),
    decreases saved.len(),
{
    if saved.len() > 0 {
        let d = saved.drop_last();
        assert forall|i: int| 0 <= i < d.len() implies d[i].0 != q by {
            assert(d[i] == saved[i]);
        }
        lemma_restore_other(v, saved.last(), q);
        lemma_restore_keeps_unique(v, saved.last());
        lemma_restore_all_other(restore_spec(v, saved.last()), d, q);
    }
}

proof fn lemma_saved_for_drop_last(s: LabelsView, pairs: LabelsView)
    requires
        pairs.len() > 0,
    ensures
        saved_for(s, pairs).drop_last() == saved_for(s, pairs.drop_last()),
        saved_for(s, pairs).last() == (
            pairs.last().0,
            lookup(set_all(s, pairs.drop_last()), pairs.last().0),
        ),
{
    let d = pairs.drop_last();
    assert forall|i: int| 0 <= i < d.len() implies pairs.take(i) == d.take(i) by {
        assert(pairs.take(i) =~= d.take(i));
    }
    assert(saved_for(s, pairs).drop_last() =~= saved_for(s, d));
    assert(pairs.take(pairs.len() - 1) =~= d);
}

/// Binding `pairs` in turn as nested scopes and ending them all, whatever
/// happened in between, gives every key of `pairs` back the value it had
/// before the outermost scope began.
pub proof fn lemma_restore_all_reverts(
    s: LabelsView,
    pairs: LabelsView,
    v: Option<LabelsView>,
    q: Seq<u8>,
)
    requires
        keys_unique(s),
        keys_unique(active(v)),
        exists|i: int| 0 <= i < pairs.len() && pairs[i].0 == q,
    ensures
        lookup(active(restore_all(v, saved_for(s, pairs))), q) == lookup(s, q),
    decreases pairs.len(),
{
    let d = pairs.drop_last();
    let saved = saved_for(s, pairs);
    lemma_saved_for_drop_last(s, pairs);
    let v1 = restore_spec(v, saved.last());
    lemma_restore_keeps_unique(v, saved.last());
    if exists|i: int| 0 <= i < d.len() && d[i].0 == q {
        lemma_restore_all_reverts(s, d, v1, q);
    } else {
        let i = choose|i: int| 0 <= i < pairs.len() && pairs[i].0 == q;
        assert forall|j: int| 0 <= j < d.len() implies d[j].0 != q by {}
        if i < d.len() {
            assert(d[i] == pairs[i]);
        }
        assert(i == pairs.len() - 1);
        lemma_restore_reverts(v, saved.last());
        lemma_set_all_other(s, d, q);
        let sd = saved_for(s, d);
        assert forall|j: int| 0 <= j < sd.len() implies sd[j].0 != q by {
            assert(sd[j].0 == d[j].0);
        }
        lemma_restore_all_other(v1, sd, q);
    }
}

/// The memory of one scoped change: the key and the value that it had
/// before the change, if any.
pub struct SavedLabel {
    key: Vec<u8>,
    old: Option<Vec<u8>>,
}

impl View for SavedLabel {
    type V = (Seq<u8>, Option<Seq<u8>>);

    closed spec fn view(&self) -> (Seq<u8>, Option<Seq<u8>>) {
        (
            self.key@,
            match self.old {
                Some(v) => Some(v@),
                None => None,
            },
        )
    }
}

impl SavedLabel {
    /// Binds `key` to `value` in the slot's set (installing an empty set
    /// first if there is none) and remembers what `key` held before.
    pub fn set_scoped(root: &mut LabelRoot, key: &[u8], value: &[u8]) -> (saved: SavedLabel)
        ensures
            saved@ == (key@, lookup(active(old(root)@), key@)),
            final(root)@ == Some(set_spec(active(old(root)@), key@, value@)),
            keys_unique(active(old(root)@)),
    {
        let old = match root.get(key) {
            Some(v) => Some(copy_bytes(v)),
            None => None,
        };
        let saved = SavedLabel { key: copy_bytes(key), old };
        root.set(key, value);
        saved
    }

    /// Ends the scoped change: the key gets back its remembered value, or
    /// loses its entry when it had none.
    pub fn restore(self, root: &mut LabelRoot)
        ensures
            final(root)@ == restore_spec(old(root)@, self@),
            lookup(active(final(root)@), self@.0) == self@.1,
            keys_unique(active(old(root)@)),
    {
        let ghost before = root@;
        match &self.old {
            Some(v) => root.set(self.key.as_slice(), v.as_slice()),
            None => root.delete(self.key.as_slice()),
        }
        proof {
            lemma_restore_reverts(before, self@);
        }
    }
}

/// Sets the label for `key` to `value` while `f` runs, then gives `key` back
/// the value it had before, or removes it if it had none.
///
/// The slot is handed to `f` and taken back from it. The restore only looks
/// at the value it saved itself, so calls nest to any depth, on the same key
/// or on others.
pub fn with_label<F, Ret>(root: LabelRoot, key: &[u8], value: &[u8], f: F) -> (res: (LabelRoot, Ret))
    where
        F: FnOnce(LabelRoot) -> (LabelRoot, Ret),
    requires
        forall|r: LabelRoot|
            r@ == Some(set_spec(active(root@), key@, value@)) ==> #[trigger] f.requires((r,)),
    ensures
        exists|r_in: LabelRoot, out: (LabelRoot, Ret)|
            {
                &&& r_in@ == Some(set_spec(active(root@), key@, value@))
                &&& f.ensures((r_in,), out)
                &&& keys_unique(active(out.0@))
                &&& res.0@ == restore_spec(out.0@, (key@, lookup(active(root@), key@)))
                &&& res.1 == out.1
            },
        lookup(active(res.0@), key@) == lookup(active(root@), key@),
{
    let mut root = root;
    let saved = SavedLabel::set_scoped(&mut root, key, value);
    let ghost r_in = root;
    let out = f(root);
    let ghost out_g = out;
    let (mut root, ret) = out;
    saved.restore(&mut root);
    assert(f.ensures((r_in,), out_g));
    (root, ret)
}

/// Sets each `(key, value)` of `pairs` while `f` runs, with the same effect
/// as nesting one `with_label` per pair in order.
pub fn with_labels<F, Ret>(root: LabelRoot, pairs: &Vec<(Vec<u8>, Vec<u8>)>, f: F) -> (res: (
    LabelRoot,
    Ret,
))
    where
        F: FnOnce(LabelRoot) -> (LabelRoot, Ret),
    requires
        forall|r: LabelRoot| r@ == labels_for(root@, pairs_view(pairs@)) ==> #[trigger] f.requires((r,)),
    ensures
        exists|r_in: LabelRoot, out: (LabelRoot, Ret)|
            {
                &&& r_in@ == labels_for(root@, pairs_view(pairs@))
                &&& f.ensures((r_in,), out)
                &&& keys_unique(active(out.0@))
                &&& res.0@ == restore_all(out.0@, saved_for(active(root@), pairs_view(pairs@)))
                &&& res.1 == out.1
            },
        forall|q: Seq<u8>|
            (exists|i: int| 0 <= i < pairs@.len() && (#[trigger] pairs@[i]).0@ == q) ==> lookup(
                active(res.0@),
                q,
            ) == lookup(active(root@), q),
{
    let mut root = root;
    let ghost start = active(root@);
    let ghost pv = pairs_view(pairs@);
    let ghost root0 = root@;
    let mut saved: Vec<SavedLabel> = Vec::new();
    let mut i: usize = 0;
    while i < pairs.len()
        invariant
            0 <= i <= pairs@.len(),
            pv == pairs_view(pairs@),
            start == active(root0),
            root@ == labels_for(root0, pv.take(i as int)),
            saved@.len() == i,
            forall|j: int| 0 <= j < i ==> (#[trigger] saved@[j])@ == saved_for(start, pv)[j],
            i > 0 ==> keys_unique(start),
        decreases pairs@.len() - i,
    {
        assert(pv.take(i as int + 1).drop_last() =~= pv.take(i as int));
        assert(pv.take(0) =~= Seq::<(Seq<u8>, Seq<u8>)>::empty());
        assert(set_all(start, pv.take(0)) == start);
        assert(active(root@) == set_all(start, pv.take(i as int)));
        let s = SavedLabel::set_scoped(&mut root, pairs[i].0.as_slice(), pairs[i].1.as_slice());
        saved.push(s);
        i = i + 1;
    }
    assert(pv.take(pv.len() as int) =~= pv);
    let ghost r_in = root;
    let out = f(root);
    let ghost out_g = out;
    let (mut root, ret) = out;
    proof {
        use_type_invariant(&root);
    }
    let ghost all = saved_for(start, pv);
    assert(all.take(all.len() as int) =~= all);
    while saved.len() > 0
        invariant
            saved@.len() <= all.len(),
            forall|j: int| 0 <= j < saved@.len() ==> (#[trigger] saved@[j])@ == all[j],
            restore_all(out_g.0@, all) == restore_all(root@, all.take(saved@.len() as int)),
            keys_unique(active(out_g.0@)),
        decreases saved@.len(),
    {
        let n = saved.len();
        let s = saved.pop().unwrap();
        assert(all.take(n as int).drop_last() =~= all.take(n - 1));
        s.restore(&mut root);
    }
    assert(f.ensures((r_in,), out_g));
    proof {
        assert forall|q: Seq<u8>|
            (exists|i: int| 0 <= i < pairs@.len() && (#[trigger] pairs@[i]).0@ == q) implies lookup(
                active(restore_all(out_g.0@, all)),
                q,
            ) == lookup(start, q) by {
            let i = choose|i: int| 0 <= i < pairs@.len() && (#[trigger] pairs@[i]).0@ == q;
            assert(pv[i].0 == q);
            lemma_set_all_keeps_unique(start, pv);
            lemma_restore_all_reverts(start, pv, out_g.0@, q);
        }
    }
    (root, ret)
}

impl Labelset {
    /// Installs this set as the slot's current set, leaving this value
    /// empty, and hands back what was current before.
    pub fn install(&mut self, root: &mut LabelRoot) -> (prev: Option<Labelset>)
        ensures
            final(root)@ == Some(old(self)@),
            opt_view(prev) == old(root)@,
            final(self)@ == Seq::<(Seq<u8>, Seq<u8>)>::empty(),
    {
        let mut mine = Labelset::new();
        std::mem::swap(self, &mut mine);
        root.replace(Some(mine))
    }

    /// Takes the slot's current set back into this value (an empty set when
    /// none is installed) and installs `prev` again.
    pub fn uninstall(&mut self, root: &mut LabelRoot, prev: Option<Labelset>)
        ensures
            final(self)@ == active(old(root)@),
            final(root)@ == opt_view(prev),
    {
        let back = root.replace(prev);
        *self = match back {
            Some(l) => l,
            None => Labelset::new(),
        };
    }

    /// Runs `f` with this set installed as the slot's current set, then
    /// installs again whatever was current before.
    ///
    /// Changes made through the slot while `f` runs stay in this set.
    pub fn enter<F, Ret>(&mut self, root: LabelRoot, f: F) -> (res: (LabelRoot, Ret))
        where
            F: FnOnce(LabelRoot) -> (LabelRoot, Ret),
        requires
            forall|r: LabelRoot| r@ == Some(old(self)@) ==> #[trigger] f.requires((r,)),
        ensures
            res.0@ == root@,
            exists|r_in: LabelRoot, out: (LabelRoot, Ret)|
                {
                    &&& r_in@ == Some(old(self)@)
                    &&& f.ensures((r_in,), out)
                    &&& keys_unique(active(out.0@))
                    &&& final(self)@ == active(out.0@)
                    &&& res.1 == out.1
                },
    {
        let mut root = root;
        let prev = self.install(&mut root);
        let ghost r_in = root;
        let out = f(root);
        let ghost out_g = out;
        let (mut root, ret) = out;
        proof {
            use_type_invariant(&root);
        }
        self.uninstall(&mut root, prev);
        assert(f.ensures((r_in,), out_g));
        (root, ret)
    }
}

} // verus!
