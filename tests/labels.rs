use custom_labels::asynchronous::{Label, Labeled};
use custom_labels::labelset::{bytes_eq, copy_bytes};
use custom_labels::{with_label, with_labels, ClTracingLayer, LabelRoot, Labelset, SavedLabel};

fn pairs(items: &[(&str, &str)]) -> Vec<(Vec<u8>, Vec<u8>)> {
    items.iter().map(|(k, v)| (k.as_bytes().to_vec(), v.as_bytes().to_vec())).collect()
}

fn entries(l: &Labelset) -> Vec<(Vec<u8>, Vec<u8>)> {
    (0..l.len()).map(|i| (l.key_at(i).to_vec(), l.value_at(i).to_vec())).collect()
}

fn get_root(root: &LabelRoot, key: &str) -> Option<Vec<u8>> {
    root.get(key.as_bytes()).map(|v| v.to_vec())
}

#[test]
fn new_sets_are_empty() {
    assert!(Labelset::new().is_empty());
    assert_eq!(Labelset::with_capacity(16).len(), 0);
    assert_eq!(Labelset::default().len(), 0);
    assert_eq!(Labelset::new().get(b"a"), None);
}

#[test]
fn set_then_get() {
    let mut l = Labelset::new();
    l.set(b"user", b"marta");
    assert_eq!(l.get(b"user"), Some(&b"marta"[..]));
    assert_eq!(l.get(b"other"), None);
    assert_eq!(l.len(), 1);
}

#[test]
fn overwrite_keeps_position_and_uniqueness() {
    let mut l = Labelset::new();
    l.set(b"a", b"1");
    l.set(b"b", b"2");
    l.set(b"a", b"3");
    assert_eq!(entries(&l), pairs(&[("a", "3"), ("b", "2")]));
    l.set(b"b", b"2");
    assert_eq!(entries(&l), pairs(&[("a", "3"), ("b", "2")]));
}

#[test]
fn delete_present_and_absent() {
    let mut l = Labelset::new();
    l.set(b"a", b"1");
    l.set(b"b", b"2");
    l.set(b"c", b"3");
    l.delete(b"b");
    assert_eq!(entries(&l), pairs(&[("a", "1"), ("c", "3")]));
    l.delete(b"zzz");
    assert_eq!(entries(&l), pairs(&[("a", "1"), ("c", "3")]));
    assert_eq!(l.get(b"b"), None);
    assert_eq!(l.find(b"c"), Some(1));
}

#[test]
fn interleaved_edits_read_last_write() {
    let mut l = Labelset::new();
    l.set(b"k", b"1");
    l.set(b"j", b"x");
    l.delete(b"k");
    assert_eq!(l.get(b"k"), None);
    l.set(b"k", b"2");
    l.set(b"k", b"3");
    assert_eq!(l.get(b"k"), Some(&b"3"[..]));
    l.delete(b"j");
    l.delete(b"j");
    assert_eq!(l.get(b"j"), None);
    assert_eq!(l.get(b"k"), Some(&b"3"[..]));
}

#[test]
fn empty_key_and_value_are_labels() {
    let mut l = Labelset::new();
    l.set(b"", b"");
    assert_eq!(l.get(b""), Some(&b""[..]));
    assert_eq!(l.len(), 1);
}

#[test]
fn clone_is_independent() {
    let mut orig = Labelset::new();
    orig.set(b"a", b"1");
    let mut copy = orig.clone();
    copy.set(b"a", b"2");
    copy.set(b"b", b"3");
    assert_eq!(orig.get(b"a"), Some(&b"1"[..]));
    assert_eq!(orig.get(b"b"), None);
    orig.delete(b"a");
    assert_eq!(copy.get(b"a"), Some(&b"2"[..]));
}

#[test]
fn extend_binds_in_order() {
    let mut l = Labelset::new();
    l.set(b"a", b"0");
    l.extend(&pairs(&[("b", "1"), ("a", "2"), ("b", "3")]));
    assert_eq!(entries(&l), pairs(&[("a", "2"), ("b", "3")]));
}

#[test]
fn byte_helpers() {
    assert!(bytes_eq(b"abc", b"abc"));
    assert!(!bytes_eq(b"abc", b"abd"));
    assert!(!bytes_eq(b"ab", b"abc"));
    assert_eq!(copy_bytes(b"xyz"), b"xyz".to_vec());
}

#[test]
fn root_starts_empty_and_installs_lazily() {
    let mut root = LabelRoot::new();
    assert!(root.current().is_none());
    assert_eq!(get_root(&root, "a"), None);
    root.delete(b"a");
    assert!(root.current().is_none());
    root.set(b"a", b"1");
    assert_eq!(get_root(&root, "a"), Some(b"1".to_vec()));
    assert_eq!(root.current().map(|l| l.len()), Some(1));
}

#[test]
fn replace_hands_back_previous() {
    let mut root = LabelRoot::default();
    let mut first = Labelset::new();
    first.set(b"a", b"1");
    assert!(root.replace(Some(first)).is_none());
    let prev = root.replace(None).unwrap();
    assert_eq!(prev.get(b"a"), Some(&b"1"[..]));
    assert!(root.current().is_none());
}

#[test]
fn clone_from_current_copies_or_creates() {
    let mut root = LabelRoot::new();
    assert!(Labelset::try_clone_from_current(&root).is_none());
    assert!(Labelset::clone_from_current(&root).is_empty());
    root.set(b"a", b"1");
    let mut copy = Labelset::clone_from_current(&root);
    copy.set(b"a", b"2");
    assert_eq!(get_root(&root, "a"), Some(b"1".to_vec()));
    assert_eq!(Labelset::try_clone_from_current(&root).unwrap().get(b"a"), Some(&b"1"[..]));
}

#[test]
fn with_label_nested_same_key() {
    let root = LabelRoot::new();
    let (root, seen) = with_label(root, b"user", b"marta", |r: LabelRoot| {
        with_label(r, b"user", b"petros", |r: LabelRoot| {
            let v = get_root(&r, "user");
            (r, v)
        })
    });
    assert_eq!(seen, Some(b"petros".to_vec()));
    assert_eq!(get_root(&root, "user"), None);
}

#[test]
fn with_label_restores_previous_value() {
    let mut root = LabelRoot::new();
    root.set(b"user", b"orig");
    let (root, inner) = with_label(root, b"user", b"a", |r: LabelRoot| {
        let (r, mid) = with_label(r, b"user", b"b", |r: LabelRoot| {
            let (r, deep) = with_label(r, b"user", b"c", |r: LabelRoot| {
                let v = get_root(&r, "user");
                (r, v)
            });
            let after = get_root(&r, "user");
            (r, (deep, after))
        });
        let after = get_root(&r, "user");
        (r, (mid, after))
    });
    assert_eq!(inner.0 .0, Some(b"c".to_vec()));
    assert_eq!(inner.0 .1, Some(b"b".to_vec()));
    assert_eq!(inner.1, Some(b"a".to_vec()));
    assert_eq!(get_root(&root, "user"), Some(b"orig".to_vec()));
}

#[test]
fn with_label_same_value_and_other_keys() {
    let mut root = LabelRoot::new();
    root.set(b"k", b"v");
    let (root, _) = with_label(root, b"k", b"v", |mut r: LabelRoot| {
        r.set(b"other", b"x");
        (r, ())
    });
    assert_eq!(get_root(&root, "k"), Some(b"v".to_vec()));
    assert_eq!(get_root(&root, "other"), Some(b"x".to_vec()));
}

#[test]
fn with_label_restores_even_if_body_deletes() {
    let root = LabelRoot::new();
    let (root, _) = with_label(root, b"k", b"v", |mut r: LabelRoot| {
        r.delete(b"k");
        r.replace(None);
        (r, ())
    });
    assert_eq!(get_root(&root, "k"), None);
}

#[test]
fn with_labels_acts_as_nesting() {
    let mut root = LabelRoot::new();
    root.set(b"a", b"0");
    let list = pairs(&[("a", "1"), ("b", "2"), ("a", "3")]);
    let (root, seen) = with_labels(root, &list, |r: LabelRoot| {
        let v = (get_root(&r, "a"), get_root(&r, "b"));
        (r, v)
    });
    assert_eq!(seen, (Some(b"3".to_vec()), Some(b"2".to_vec())));
    assert_eq!(get_root(&root, "a"), Some(b"0".to_vec()));
    assert_eq!(get_root(&root, "b"), None);
}

#[test]
fn with_labels_empty_runs_body() {
    let root = LabelRoot::new();
    let (root, n) = with_labels(root, &Vec::new(), |r: LabelRoot| (r, 7u32));
    assert_eq!(n, 7);
    assert!(root.current().is_none());
}

#[test]
fn install_and_uninstall_halves() {
    let mut root = LabelRoot::new();
    root.set(b"outer", b"1");
    let mut mine = Labelset::new();
    mine.set(b"inner", b"2");
    let prev = mine.install(&mut root);
    assert!(mine.is_empty());
    assert_eq!(get_root(&root, "inner"), Some(b"2".to_vec()));
    assert_eq!(get_root(&root, "outer"), None);
    root.set(b"added", b"3");
    mine.uninstall(&mut root, prev);
    assert_eq!(get_root(&root, "outer"), Some(b"1".to_vec()));
    assert_eq!(mine.get(b"added"), Some(&b"3"[..]));
    assert_eq!(mine.get(b"inner"), Some(&b"2"[..]));
}

#[test]
fn labeled_many_steps_keep_label() {
    let root = LabelRoot::new();
    let mut fut = ().with_label(&root, b"req", b"42");
    let mut root = root;
    for _ in 0..5 {
        let (r, seen) = fut.drive(root, |r: LabelRoot| {
            let v = get_root(&r, "req");
            (r, v)
        });
        assert_eq!(seen, Some(b"42".to_vec()));
        assert_eq!(get_root(&r, "req"), None);
        root = r;
    }
}

#[test]
fn saved_label_round_trip() {
    let mut root = LabelRoot::new();
    root.set(b"k", b"old");
    let saved = SavedLabel::set_scoped(&mut root, b"k", b"new");
    assert_eq!(get_root(&root, "k"), Some(b"new".to_vec()));
    saved.restore(&mut root);
    assert_eq!(get_root(&root, "k"), Some(b"old".to_vec()));
}

#[test]
fn enter_installs_and_restores() {
    let mut root = LabelRoot::new();
    root.set(b"outer", b"1");
    let mut mine = Labelset::new();
    mine.set(b"inner", b"2");
    let (root, seen) = mine.enter(root, |mut r: LabelRoot| {
        let v = (get_root(&r, "outer"), get_root(&r, "inner"));
        r.set(b"added", b"3");
        (r, v)
    });
    assert_eq!(seen, (None, Some(b"2".to_vec())));
    assert_eq!(get_root(&root, "outer"), Some(b"1".to_vec()));
    assert_eq!(get_root(&root, "added"), None);
    assert_eq!(mine.get(b"added"), Some(&b"3"[..]));
}

#[test]
fn labeled_computation_sees_label_only_while_driven() {
    let root = LabelRoot::new();
    let mut fut: Labeled<u32> = 5u32.with_label(&root, b"req", b"42");
    let (root, first) = fut.drive(root, |r: LabelRoot| {
        let v = get_root(&r, "req");
        (r, v)
    });
    assert_eq!(first, Some(b"42".to_vec()));
    assert_eq!(get_root(&root, "req"), None);
    let (root, second) = fut.drive(root, |r: LabelRoot| {
        let v = get_root(&r, "req");
        (r, v)
    });
    assert_eq!(second, Some(b"42".to_vec()));
    assert_eq!(get_root(&root, "req"), None);
    let (inner, labels) = fut.into_parts();
    assert_eq!(inner, 5);
    assert_eq!(labels.get(b"req"), Some(&b"42"[..]));
}

#[test]
fn labeled_restores_prior_value() {
    let mut root = LabelRoot::new();
    root.set(b"req", b"1");
    let mut fut = "job".with_label(&root, b"req", b"42");
    root.set(b"req", b"7");
    let (root, seen) = fut.drive(root, |r: LabelRoot| {
        let v = get_root(&r, "req");
        (r, v)
    });
    assert_eq!(seen, Some(b"42".to_vec()));
    assert_eq!(get_root(&root, "req"), Some(b"7".to_vec()));
}

#[test]
fn label_constructors() {
    let mut root = LabelRoot::new();
    root.set(b"a", b"1");
    let cur = 0u8.with_current_labels(&root);
    assert_eq!(entries(cur.labelset()), pairs(&[("a", "1")]));
    let many = 0u8.with_labels(&root, &pairs(&[("b", "2"), ("a", "3")]));
    assert_eq!(entries(many.labelset()), pairs(&[("a", "3"), ("b", "2")]));
    let mut own = Labelset::new();
    own.set(b"z", b"9");
    let given = 0u8.with_labelset(own);
    assert_eq!(entries(given.labelset()), pairs(&[("z", "9")]));
    let built = Labeled::new(1u8, Labelset::new());
    assert!(built.labelset().is_empty());
}

#[test]
fn span_entered_twice() {
    let layer = ClTracingLayer::new(|| ());
    let mut root = LabelRoot::new();
    root.set(b"before", b"yes");
    let mut span = layer.on_new_span(&root, &pairs(&[("span_id", "s1")]));
    layer.on_enter(&mut span, &mut root);
    assert_eq!(get_root(&root, "span_id"), Some(b"s1".to_vec()));
    assert_eq!(get_root(&root, "before"), Some(b"yes".to_vec()));
    layer.on_exit(&mut span, &mut root);
    assert_eq!(get_root(&root, "span_id"), None);
    assert_eq!(get_root(&root, "before"), Some(b"yes".to_vec()));
    layer.on_enter(&mut span, &mut root);
    assert_eq!(get_root(&root, "span_id"), Some(b"s1".to_vec()));
    layer.on_exit(&mut span, &mut root);
    assert_eq!(get_root(&root, "span_id"), None);
    assert_eq!(get_root(&root, "before"), Some(b"yes".to_vec()));
    layer.on_exit(&mut span, &mut root);
    assert_eq!(get_root(&root, "before"), Some(b"yes".to_vec()));
}

#[test]
fn span_with_nothing_current_before() {
    let layer = ClTracingLayer::new(0u8);
    assert_eq!(*layer.label_fn(), 0);
    let mut root = LabelRoot::new();
    let mut span = layer.on_new_span(&root, &pairs(&[("trace_id", "t")]));
    layer.on_enter(&mut span, &mut root);
    assert_eq!(get_root(&root, "trace_id"), Some(b"t".to_vec()));
    layer.on_exit(&mut span, &mut root);
    assert!(root.current().is_none());
    layer.on_enter(&mut span, &mut root);
    assert_eq!(get_root(&root, "trace_id"), Some(b"t".to_vec()));
    layer.on_exit(&mut span, &mut root);
    assert!(root.current().is_none());
}

#[test]
fn interleaved_spans() {
    let layer = ClTracingLayer::new(());
    let mut root = LabelRoot::new();
    let mut a = layer.on_new_span(&root, &pairs(&[("span", "a")]));
    let mut b = layer.on_new_span(&root, &pairs(&[("span", "b")]));
    layer.on_enter(&mut a, &mut root);
    layer.on_enter(&mut b, &mut root);
    assert_eq!(get_root(&root, "span"), Some(b"b".to_vec()));
    layer.on_exit(&mut b, &mut root);
    assert_eq!(get_root(&root, "span"), Some(b"a".to_vec()));
    layer.on_exit(&mut a, &mut root);
    assert!(root.current().is_none());
}
