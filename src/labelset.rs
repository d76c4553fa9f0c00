use vstd::prelude::*;

verus! {

/// The abstract contents of a label set: its `(key, value)` pairs in the
/// order in which their keys were first inserted.
pub type LabelsView = Seq<(Seq<u8>, Seq<u8>)>;

/// No two entries share a key.
pub open spec fn keys_unique(s: LabelsView) -> bool {
    forall|i: int, j: int| 0 <= i < j < s.len() ==> s[i].0 != s[j].0
}

/// Position of the last entry whose key is `key`, or -1 when there is none.
pub open spec fn key_index(s: LabelsView, key: Seq<u8>) -> int
    decreases s.len(),
{
    if s.len() == 0 {
        -1
    } else if s.last().0 == key {
        s.len() - 1
    } else {
        key_index(s.drop_last(), key)
    }
}

/// The value stored under `key`, if any.
pub open spec fn lookup(s: LabelsView, key: Seq<u8>) -> Option<Seq<u8>> {
    let i = key_index(s, key);
    if 0 <= i {
        Some(s[i].1)
    } else {
        None
    }
}

/// `s` with `key` bound to `value`: an existing entry is overwritten in place,
/// a new key is appended at the end.
pub open spec fn set_spec(s: LabelsView, key: Seq<u8>, value: Seq<u8>) -> LabelsView {
    let i = key_index(s, key);
    if 0 <= i {
        s.update(i, (key, value))
    } else {
        s.push((key, value))
    }
}

/// `s` without the entry for `key`; `s` itself when the key is absent.
pub open spec fn delete_spec(s: LabelsView, key: Seq<u8>) -> LabelsView {
    let i = key_index(s, key);
    if 0 <= i {
        s.remove(i)
    } else {
        s
    }
}

/// `s` after binding each pair of `pairs` in turn.
pub open spec fn set_all(s: LabelsView, pairs: LabelsView) -> LabelsView
    decreases pairs.len(),
{
    if pairs.len() == 0 {
        s
    } else {
        let p = pairs.last();
        set_spec(set_all(s, pairs.drop_last()), p.0, p.1)
    }
}

/// The abstract view of a sequence of owned byte-string pairs.
pub open spec fn pairs_view(pairs: Seq<(Vec<u8>, Vec<u8>)>) -> LabelsView {
    pairs.map_values(|p: (Vec<u8>, Vec<u8>)| (p.0@, p.1@))
}

pub proof fn lemma_key_index(s: LabelsView, key: Seq<u8>)
    ensures
        -1 <= key_index(s, key) < s.len(),
        0 <= key_index(s, key) ==> s[key_index(s, key)].0 == key,
        forall|j: int| key_index(s, key) < j < s.len() ==> s[j].0 != key,
    decreases s.len(),
{
    if s.len() > 0 && s.last().0 != key {
        let d = s.drop_last();
        lemma_key_index(d, key);
        assert forall|j: int| key_index(s, key) < j < s.len() implies s[j].0 != key by {
            if j < d.len() {
                assert(s[j] == d[j]);
            }
        }
    }
}

pub proof fn lemma_key_index_unique(s: LabelsView, key: Seq<u8>, j: int)
    requires
        keys_unique(s),
        0 <= j < s.len(),
        s[j].0 == key,
    ensures
        key_index(s, key) == j,
{
    lemma_key_index(s, key);
}

proof fn lemma_key_index_take(s: LabelsView, key: Seq<u8>, i: int)
    requires
        0 <= i < s.len(),
        s[i].0 != key,
    ensures
        key_index(s.take(i + 1), key) == key_index(s.take(i), key),
{
    assert(s.take(i + 1).drop_last() =~= s.take(i));
}

pub proof fn lemma_set_keeps_unique(s: LabelsView, key: Seq<u8>, value: Seq<u8>)
    requires
        keys_unique(s),
    ensures
        keys_unique(set_spec(s, key, value)),
{
    lemma_key_index(s, key);
}

pub proof fn lemma_delete_keeps_unique(s: LabelsView, key: Seq<u8>)
    requires
        keys_unique(s),
    ensures
        keys_unique(delete_spec(s, key)),
{
    lemma_key_index(s, key);
    let r = delete_spec(s, key);
    let i = key_index(s, key);
    if 0 <= i {
        assert forall|a: int, b: int| 0 <= a < b < r.len() implies r[a].0 != r[b].0 by {
            let sa = if a < i { a } else { a + 1 };
            let sb = if b < i { b } else { b + 1 };
            assert(r[a] == s[sa]);
            assert(r[b] == s[sb]);
        }
    }
}

pub proof fn lemma_set_all_keeps_unique(s: LabelsView, pairs: LabelsView)
    requires
        keys_unique(s),
    ensures
        keys_unique(set_all(s, pairs)),
    decreases pairs.len(),
{
    if pairs.len() > 0 {
        lemma_set_all_keeps_unique(s, pairs.drop_last());
        lemma_set_keeps_unique(set_all(s, pairs.drop_last()), pairs.last().0, pairs.last().1);
    }
}

/// Reading a key after binding it gives the value just written, and binding
/// one key leaves every other key as it was.
pub proof fn lemma_lookup_after_set(s: LabelsView, key: Seq<u8>, value: Seq<u8>, q: Seq<u8>)
    requires
        keys_unique(s),
    ensures
        lookup(set_spec(s, key, value), q) == (if q == key {
            Some(value)
        } else {
            lookup(s, q)
        }),
{
    let r = set_spec(s, key, value);
    lemma_key_index(s, key);
    lemma_key_index(s, q);
    lemma_set_keeps_unique(s, key, value);
    lemma_key_index(r, q);
    let i = key_index(s, key);
    if q == key {
        if 0 <= i {
            lemma_key_index_unique(r, q, i);
        } else {
            lemma_key_index_unique(r, q, s.len() as int);
        }
    } else {
        let iq = key_index(s, q);
        if 0 <= iq {
            lemma_key_index_unique(r, q, iq);
        } else {
            assert forall|j: int| 0 <= j < r.len() implies r[j].0 != q by {
                if j < s.len() && j != i {
                    assert(r[j] == s[j]);
                }
            }
        }
    }
}

/// After removing a key, reading it finds nothing, and every other key keeps
/// its value.
pub proof fn lemma_lookup_after_delete(s: LabelsView, key: Seq<u8>, q: Seq<u8>)
    requires
        keys_unique(s),
    ensures
        lookup(delete_spec(s, key), q) == (if q == key {
            None
        } else {
            lookup(s, q)
        }),
{
    let r = delete_spec(s, key);
    let i = key_index(s, key);
    lemma_key_index(s, key);
    lemma_key_index(s, q);
    lemma_delete_keeps_unique(s, key);
    lemma_key_index(r, q);
    if 0 <= i {
        let iq = key_index(s, q);
        if q != key && 0 <= iq {
            let jq = if iq < i { iq } else { iq - 1 };
            assert(r[jq] == s[iq]);
            lemma_key_index_unique(r, q, jq);
        } else {
            assert forall|j: int| 0 <= j < r.len() implies r[j].0 != q by {
                let sj = if j < i { j } else { j + 1 };
                assert(r[j] == s[sj]);
                if q == key {
                    assert(sj != i);
                }
            }
        }
    }
}

/// One change to a label set, as a value.
pub enum LabelEdit {
    Bind(Seq<u8>, Seq<u8>),
    Remove(Seq<u8>),
}

/// `s` after each of `edits` in turn.
pub open spec fn apply_edits(s: LabelsView, edits: Seq<LabelEdit>) -> LabelsView
    decreases edits.len(),
{
    if edits.len() == 0 {
        s
    } else {
        let before = apply_edits(s, edits.drop_last());
        match edits.last() {
            LabelEdit::Bind(k, v) => set_spec(before, k, v),
            LabelEdit::Remove(k) => delete_spec(before, k),
        }
    }
}

/// What the last of `edits` that touches `q` left there: `Some(Some(v))` for
/// a write of `v`, `Some(None)` for a removal, `None` when no edit touches it.
pub open spec fn last_write(edits: Seq<LabelEdit>, q: Seq<u8>) -> Option<Option<Seq<u8>>>
    decreases edits.len(),
{
    if edits.len() == 0 {
        None
    } else {
        match edits.last() {
            LabelEdit::Bind(k, v) => if k == q {
                Some(Some(v))
            } else {
                last_write(edits.drop_last(), q)
            },
            LabelEdit::Remove(k) => if k == q {
                Some(None)
            } else {
                last_write(edits.drop_last(), q)
            },
        }
    }
}

/// After any interleaving of sets and removals, reading a key gives the value
/// of the last write to it, nothing when the last edit of it removed it, and
/// its first value when no edit touched it.
pub proof fn lemma_lookup_after_edits(s: LabelsView, edits: Seq<LabelEdit>, q: Seq<u8>)
    requires
        keys_unique(s),
    ensures
        keys_unique(apply_edits(s, edits)),
        lookup(apply_edits(s, edits), q) == match last_write(edits, q) {
            Some(w) => w,
            None => lookup(s, q),
        },
    decreases edits.len(),
{
    if edits.len() > 0 {
        let before = apply_edits(s, edits.drop_last());
        lemma_lookup_after_edits(s, edits.drop_last(), q);
        match edits.last() {
            LabelEdit::Bind(k, v) => {
                lemma_set_keeps_unique(before, k, v);
                lemma_lookup_after_set(before, k, v, q);
            },
            LabelEdit::Remove(k) => {
                lemma_delete_keeps_unique(before, k);
                lemma_lookup_after_delete(before, k, q);
            },
        }
    }
}

/// One entry of a label set: an owned key and an owned value.
pub struct Entry {
    pub key: Vec<u8>,
    pub value: Vec<u8>,
}

impl Entry {
    pub open spec fn view(&self) -> (Seq<u8>, Seq<u8>) {
        (self.key@, self.value@)
    }
}

/// Whether two byte strings are equal.
pub fn bytes_eq(a: &[u8], b: &[u8]) -> (r: bool)
    ensures
        r == (a@ == b@),
{
    if a.len() != b.len() {
        return false;
    }
    let mut i: usize = 0;
    while i < a.len()
        invariant
            a@.len() == b@.len(),
            0 <= i <= a@.len(),
            forall|j: int| 0 <= j < i ==> a@[j] == b@[j],
        decreases a@.len() - i,
    {
        if a[i] != b[i] {
            return false;
        }
        i = i + 1;
    }
    assert(a@ =~= b@);
    true
}

/// An owned copy of a byte string.
pub fn copy_bytes(a: &[u8]) -> (r: Vec<u8>)
    ensures
        r@ == a@,
{
    let mut r: Vec<u8> = Vec::with_capacity(a.len());
    let mut i: usize = 0;
    while i < a.len()
        invariant
            0 <= i <= a@.len(),
            r@ == a@.take(i as int),
        decreases a@.len() - i,
    {
        r.push(a[i]);
        i = i + 1;
        assert(r@ =~= a@.take(i as int));
    }
    assert(a@.take(a@.len() as int) =~= a@);
    r
}

fn copy_entry(e: &Entry) -> (r: Entry)
    ensures
        r@ == e@,
{
    Entry { key: copy_bytes(e.key.as_slice()), value: copy_bytes(e.value.as_slice()) }
}

/// A set of key-value labels that can be installed as the current label set.
///
/// Keys are unique and entries keep the order in which their keys were first
/// set. A change that adds or removes an entry builds the new entry list in
/// full and then replaces the old list with it in one assignment; overwriting
/// a value replaces that one entry. No entry is edited in place.
pub struct Labelset {
    entries: Vec<Entry>,
}

impl View for Labelset {
    type V = LabelsView;

    closed spec fn view(&self) -> LabelsView {
        self.entries@.map_values(|e: Entry| e@)
    }
}

impl Labelset {
    #[verifier::type_invariant]
    pub open spec fn inv(self) -> bool {
        keys_unique(self@)
    }

    /// Create a new, empty label set.
    pub fn new() -> (r: Self)
        ensures
            r@ == Seq::<(Seq<u8>, Seq<u8>)>::empty(),
    {
        Self::with_capacity(0)
    }

    /// Create a new, empty label set with room for `capacity` labels.
    pub fn with_capacity(capacity: usize) -> (r: Self)
        ensures
            r@ == Seq::<(Seq<u8>, Seq<u8>)>::empty(),
    {
        let r = Labelset { entries: Vec::with_capacity(capacity) };
        assert(r@ =~= Seq::<(Seq<u8>, Seq<u8>)>::empty());
        r
    }

    /// The number of labels in the set.
    pub fn len(&self) -> (r: usize)
        ensures
            r == self@.len(),
    {
        self.entries.len()
    }

    /// Whether the set holds no labels.
    pub fn is_empty(&self) -> (r: bool)
        ensures
            r == (self@.len() == 0),
    {
        self.entries.len() == 0
    }

    /// The key of the entry at position `i`.
    pub fn key_at(&self, i: usize) -> (r: &[u8])
        requires
            i < self@.len(),
        ensures
            r@ == self@[i as int].0,
    {
        self.entries[i].key.as_slice()
    }

    /// The value of the entry at position `i`.
    pub fn value_at(&self, i: usize) -> (r: &[u8])
        requires
            i < self@.len(),
        ensures
            r@ == self@[i as int].1,
    {
        self.entries[i].value.as_slice()
    }

    /// The position of the entry for `key`, if there is one.
    pub fn find(&self, key: &[u8]) -> (r: Option<usize>)
        ensures
            match r {
                Some(i) => i as int == key_index(self@, key@) && 0 <= i < self@.len(),
                None => key_index(self@, key@) == -1,
            },
    {
        let ghost s = self@;
        let mut i: usize = self.entries.len();
        assert(s.take(i as int) =~= s);
        while i > 0
            invariant
                0 <= i <= s.len(),
                s == self@,
                s.len() == self.entries@.len(),
                key_index(s, key@) == key_index(s.take(i as int), key@),
            decreases i,
        {
            let k = self.entries[i - 1].key.as_slice();
            if bytes_eq(k, key) {
                assert(s.take(i as int).last() == s[i - 1]);
                return Some(i - 1);
            }
            proof {
                lemma_key_index_take(s, key@, i - 1);
            }
            i = i - 1;
        }
        None
    }

    /// The value stored under `key`, if any. Does not allocate.
    pub fn get(&self, key: &[u8]) -> (r: Option<&[u8]>)
        ensures
            match r {
                Some(v) => lookup(self@, key@) == Some(v@),
                None => lookup(self@, key@) == None::<Seq<u8>>,
            },
            keys_unique(self@),
    {
        proof {
            use_type_invariant(self);
        }
        match self.find(key) {
            Some(i) => Some(self.entries[i].value.as_slice()),
            None => None,
        }
    }

    /// Binds `key` to a copy of `value`, overwriting any earlier value.
    pub fn set(&mut self, key: &[u8], value: &[u8])
        ensures
            final(self)@ == set_spec(old(self)@, key@, value@),
            keys_unique(old(self)@),
            keys_unique(final(self)@),
    {
        proof {
            use_type_invariant(&*self);
            lemma_set_keeps_unique(self@, key@, value@);
            lemma_key_index(self@, key@);
        }
        let e = Entry { key: copy_bytes(key), value: copy_bytes(value) };
        match self.find(key) {
            Some(i) => {
                let ghost before = self@;
                let mut next = self.copy_entries(None);
                next.set(i, e);
                assert(next@.map_values(|e: Entry| e@) =~= set_spec(before, key@, value@));
                self.entries = next;
            },
            None => {
                let ghost before = self@;
                let mut next = self.copy_entries(None);
                next.push(e);
                assert(next@.map_values(|e: Entry| e@) =~= set_spec(before, key@, value@));
                self.entries = next;
            },
        }
    }

    /// Removes the entry for `key`; does nothing when the key is absent.
    pub fn delete(&mut self, key: &[u8])
        ensures
            final(self)@ == delete_spec(old(self)@, key@),
            keys_unique(old(self)@),
            keys_unique(final(self)@),
    {
        proof {
            use_type_invariant(&*self);
            lemma_delete_keeps_unique(self@, key@);
            lemma_key_index(self@, key@);
        }
        match self.find(key) {
            Some(i) => {
                let ghost before = self@;
                let next = self.copy_entries(Some(i));
                assert(next@.map_values(|e: Entry| e@) =~= delete_spec(before, key@));
                self.entries = next;
            },
            None => {},
        }
    }

    /// A fresh copy of the entry list, leaving out position `skip` if given.
    fn copy_entries(&self, skip: Option<usize>) -> (r: Vec<Entry>)
        requires
            match skip {
                Some(i) => i < self@.len(),
                None => true,
            },
        ensures
            r@.map_values(|e: Entry| e@) == match skip {
                Some(i) => self@.remove(i as int),
                None => self@,
            },
    {
        let n = self.entries.len();
        let mut r: Vec<Entry> = Vec::with_capacity(n);
        let mut i: usize = 0;
        let ghost src = self@;
        while i < n
            invariant
                n == src.len(),
                src == self@,
                0 <= i <= n,
                match skip {
                    Some(k) => k < n && r@.len() == (if i <= k { i as int } else { i - 1 }),
                    None => r@.len() == i,
                },
                forall|j: int|
                    0 <= j < r@.len() ==> (#[trigger] r@[j])@ == match skip {
                        Some(k) => if j < k {
                            src[j]
                        } else {
                            src[j + 1]
                        },
                        None => src[j],
                    },
            decreases n - i,
        {
            let keep = match skip {
                Some(k) => k != i,
                None => true,
            };
            if keep {
                let e = copy_entry(&self.entries[i]);
                r.push(e);
            }
            i = i + 1;
        }
        let ghost target = match skip {
            Some(k) => src.remove(k as int),
            None => src,
        };
        assert(r@.map_values(|e: Entry| e@) =~= target);
        r
    }

    /// Binds each pair in turn, as repeated calls of `set` would.
    pub fn extend(&mut self, pairs: &Vec<(Vec<u8>, Vec<u8>)>)
        ensures
            final(self)@ == set_all(old(self)@, pairs_view(pairs@)),
            keys_unique(final(self)@),
    {
        proof {
            use_type_invariant(&*self);
        }
        let mut i: usize = 0;
        let ghost start = self@;
        while i < pairs.len()
            invariant
                0 <= i <= pairs@.len(),
                self@ == set_all(start, pairs_view(pairs@).take(i as int)),
            decreases pairs@.len() - i,
        {
            let ghost pv = pairs_view(pairs@);
            assert(pv.take(i as int + 1).drop_last() =~= pv.take(i as int));
            self.set(pairs[i].0.as_slice(), pairs[i].1.as_slice());
            i = i + 1;
        }
        assert(pairs_view(pairs@).take(pairs@.len() as int) =~= pairs_view(pairs@));
        proof {
            lemma_set_all_keeps_unique(start, pairs_view(pairs@));
        }
    }
}

impl Default for Labelset {
    fn default() -> (r: Self)
        ensures
            r@ == Seq::<(Seq<u8>, Seq<u8>)>::empty(),
    {
        Labelset::new()
    }
}

impl Clone for Labelset {
    /// A deep, independent copy.
    fn clone(&self) -> (r: Self)
        ensures
            r@ == self@,
    {
        proof {
            use_type_invariant(self);
        }
        Labelset { entries: self.copy_entries(None) }
    }
}

} // verus!
