use vstd::prelude::*;
use crate::labelset::{pairs_view, set_all, Labelset, LabelsView};
use crate::root::{active, opt_view, LabelRoot};

verus! {

/// The two slots that a span carries: its own labels, present while the span
/// is not entered, and the set to install again on exit, present while it is.
pub type SpanView = (Option<LabelsView>, Option<Option<LabelsView>>);

/// Entering a span installs its own labels and keeps what was current.
pub open spec fn enter_spec(sp: SpanView, r: Option<LabelsView>) -> (SpanView, Option<LabelsView>) {
    match sp.0 {
        Some(own) => ((None, Some(r)), Some(own)),
        None => (sp, r),
    }
}

/// Exiting a span installs again what was current on entry and takes the
/// span's own labels back.
pub open spec fn exit_spec(sp: SpanView, r: Option<LabelsView>) -> (SpanView, Option<LabelsView>) {
    match sp.1 {
        Some(prev) => ((r, None), prev),
        None => (sp, r),
    }
}

/// A span entered, exited, entered again and exited again: its labels are in
/// force during each entered interval (during the second, as the first left
/// them), what was current before is in force between the two intervals, and
/// it is in force again, exactly, after the last exit.
pub proof fn lemma_span_reentry(
    own: LabelsView,
    r0: Option<LabelsView>,
    left1: LabelsView,
    left2: Option<LabelsView>,
)
    ensures
        ({
            let sp0: SpanView = (Some(own), None);
            let (sp1, r1) = enter_spec(sp0, r0);
            let (sp2, r2) = exit_spec(sp1, Some(left1));
            let (sp3, r3) = enter_spec(sp2, r2);
            let (sp4, r4) = exit_spec(sp3, left2);
            &&& r1 == Some(own)
            &&& r2 == r0
            &&& sp2 == (Some(left1), None::<Option<LabelsView>>)
            &&& r3 == Some(left1)
            &&& r4 == r0
            &&& sp4 == (left2, None::<Option<LabelsView>>)
        }),
{
}

/// Entering and then exiting a span that its body left as it found it
/// changes nothing.
pub proof fn lemma_enter_exit_round_trip(sp: SpanView, r: Option<LabelsView>)
    requires
        sp.0 is Some,
        sp.1 is None,
    ensures
        ({
            let (sp1, r1) = enter_spec(sp, r);
            exit_spec(sp1, r1) == (sp, r)
        }),
{
}

/// The labels attached to one span.
pub struct SpanLabels {
    own: Option<Labelset>,
    restore: Option<Option<Labelset>>,
}

impl View for SpanLabels {
    type V = SpanView;

    closed spec fn view(&self) -> SpanView {
        (
            opt_view(self.own),
            match self.restore {
                Some(p) => Some(opt_view(p)),
                None => None,
            },
        )
    }
}

/// Keeps labels in step with the spans of a tracing model, whose enter and
/// exit events need not nest like calls. `f` yields the labels that a new
/// span adds.
pub struct ClTracingLayer<F> {
    f: F,
}

impl<F> ClTracingLayer<F> {
    /// A layer that takes each new span's labels from `f`.
    pub fn new(f: F) -> (r: Self)
        ensures
            r.label_fn_spec() == f,
    {
        ClTracingLayer { f }
    }

    /// The function that yields a new span's labels.
    pub closed spec fn label_fn_spec(&self) -> F {
        self.f
    }

    /// The function that yields a new span's labels.
    pub fn label_fn(&self) -> (r: &F)
        ensures
            *r == self.label_fn_spec(),
    {
        &self.f
    }

    /// The labels of a new span: a copy of the current set with `labels`
    /// bound in turn.
    pub fn on_new_span(&self, root: &LabelRoot, labels: &Vec<(Vec<u8>, Vec<u8>)>) -> (r: SpanLabels)
        ensures
            r@ == (Some(set_all(active(root@), pairs_view(labels@))), None::<Option<LabelsView>>),
    {
        let mut own = Labelset::clone_from_current(root);
        own.extend(labels);
        SpanLabels { own: Some(own), restore: None }
    }

    /// The span is entered: its labels become current.
    pub fn on_enter(&self, span: &mut SpanLabels, root: &mut LabelRoot)
        ensures
            (final(span)@, final(root)@) == enter_spec(old(span)@, old(root)@),
    {
        match span.own.take() {
            Some(own) => {
                let prev = root.replace(Some(own));
                span.restore = Some(prev);
            },
            None => {},
        }
    }

    /// The span is exited: what was current on entry becomes current again.
    pub fn on_exit(&self, span: &mut SpanLabels, root: &mut LabelRoot)
        ensures
            (final(span)@, final(root)@) == exit_spec(old(span)@, old(root)@),
    {
        match span.restore.take() {
            Some(prev) => {
                let own = root.replace(prev);
                span.own = own;
            },
            None => {},
        }
    }
}

} // verus!
