use vstd::prelude::*;
use vstd::multiset::Multiset;

use crate::color::{lemma_metric_wf, metric_of, HslComponent, Pixel};
use crate::ratio::{lemma_le_total, lemma_le_trans};
use crate::spans::Span;

verus! {

/// `a` comes no later than `b` when sorting by metric `kind`.
pub open spec fn key_le(a: Pixel, b: Pixel, kind: HslComponent) -> bool {
    metric_of(a, kind).spec_le(metric_of(b, kind))
}

/// The pixels are in ascending order of metric `kind`.
pub open spec fn sorted_by_metric(s: Seq<Pixel>, kind: HslComponent) -> bool {
    forall|i: int, j: int| 0 <= i < j < s.len() ==> key_le(#[trigger] s[i], #[trigger] s[j], kind)
}

/// `r` is what sorting `s` by metric `kind` gives: the same pixels in
/// ascending order of the metric, and `s` itself when `s` is already in
/// that order. Pixels of equal metric may otherwise come in any order.
pub open spec fn sort_outcome(s: Seq<Pixel>, r: Seq<Pixel>, kind: HslComponent) -> bool {
    &&& sorted_by_metric(r, kind)
    &&& r.to_multiset() == s.to_multiset()
    &&& sorted_by_metric(s, kind) ==> r == s
}

/// Every pixel carries the HSL triple of its colour.
pub open spec fn all_wf(s: Seq<Pixel>) -> bool {
    forall|i: int| 0 <= i < s.len() ==> (#[trigger] s[i]).wf()
}

/// The order by a metric is transitive on well-formed pixels.
pub proof fn lemma_key_trans(a: Pixel, b: Pixel, c: Pixel, kind: HslComponent)
    requires
        a.wf(),
        b.wf(),
        c.wf(),
        key_le(a, b, kind),
        key_le(b, c, kind),
    ensures
        key_le(a, c, kind),
{
    lemma_metric_wf(a, kind);
    lemma_metric_wf(b, kind);
    lemma_metric_wf(c, kind);
    lemma_le_trans(metric_of(a, kind), metric_of(b, kind), metric_of(c, kind));
}

/// Merges two sorted runs into one; on equal metrics the pixel of `a` comes
/// first, so when every pixel of `a` comes no later than every pixel of `b`
/// the result is `a` followed by `b`.
fn merge(a: &Vec<Pixel>, b: &Vec<Pixel>, kind: HslComponent) -> (r: Vec<Pixel>)
    requires
        sorted_by_metric(a@, kind),
        sorted_by_metric(b@, kind),
        all_wf(a@),
        all_wf(b@),
    ensures
        sorted_by_metric(r@, kind),
        all_wf(r@),
        r@.to_multiset() == a@.to_multiset().add(b@.to_multiset()),
        (forall|i: int, j: int|
            0 <= i < a@.len() && 0 <= j < b@.len() ==> key_le(#[trigger] a@[i], #[trigger] b@[j], kind))
            ==> r@ == a@ + b@,
{
    broadcast use vstd::seq_lib::group_to_multiset_ensures, vstd::multiset::group_multiset_axioms;

    let ghost in_order = forall|i: int, j: int|
        0 <= i < a@.len() && 0 <= j < b@.len() ==> key_le(#[trigger] a@[i], #[trigger] b@[j], kind);
    let mut r: Vec<Pixel> = Vec::new();
    let mut i: usize = 0;
    let mut j: usize = 0;
    assert(a@.subrange(0, 0).to_multiset() =~= Multiset::empty());
    assert(b@.subrange(0, 0).to_multiset() =~= Multiset::empty());
    while i < a.len() || j < b.len()
        invariant
            sorted_by_metric(a@, kind),
            sorted_by_metric(b@, kind),
            all_wf(a@),
            all_wf(b@),
            in_order == (forall|i: int, j: int|
                0 <= i < a@.len() && 0 <= j < b@.len() ==> key_le(
                    #[trigger] a@[i],
                    #[trigger] b@[j],
                    kind,
                )),
            i <= a.len(),
            j <= b.len(),
            sorted_by_metric(r@, kind),
            all_wf(r@),
            r@.to_multiset() == a@.subrange(0, i as int).to_multiset().add(
                b@.subrange(0, j as int).to_multiset(),
            ),
            forall|m: int| 0 <= m < r@.len() && i < a@.len() ==> key_le(#[trigger] r@[m], a@[i as int], kind),
            forall|m: int| 0 <= m < r@.len() && j < b@.len() ==> key_le(#[trigger] r@[m], b@[j as int], kind),
            in_order ==> r@ == a@.subrange(0, i as int) + b@.subrange(0, j as int) && (j > 0 ==> i
                == a.len()),
        decreases a.len() + b.len() - i - j,
    {
        let ghost old_r = r@;
        let take_a = if i == a.len() {
            false
        } else if j == b.len() {
            true
        } else {
            a[i].metric(kind).le(&b[j].metric(kind))
        };
        if take_a {
            let x = a[i];
            r.push(x);
            proof {
                assert(a@.subrange(0, i + 1) =~= a@.subrange(0, i as int).push(x));
                assert(r@ == old_r.push(x));
                vstd::seq_lib::to_multiset_build(old_r, x);
                vstd::seq_lib::to_multiset_build(a@.subrange(0, i as int), x);
                assert(r@.to_multiset() == old_r.to_multiset().insert(x));
                assert(a@.subrange(0, i + 1).to_multiset() == a@.subrange(0, i as int).to_multiset().insert(x));
                assert forall|m: int| 0 <= m < r@.len() && i + 1 < a@.len() implies key_le(
                    #[trigger] r@[m],
                    a@[i + 1],
                    kind,
                ) by {
                    if m < old_r.len() {
                        lemma_key_trans(old_r[m], x, a@[i + 1], kind);
                    }
                }
                if in_order {
                    assert(j == 0);
                    assert(r@ =~= a@.subrange(0, i + 1) + b@.subrange(0, j as int));
                }
            }
            i = i + 1;
        } else {
            let x = b[j];
            r.push(x);
            proof {
                if i < a.len() {
                    lemma_le_total(metric_of(x, kind), metric_of(a@[i as int], kind));
                }
                assert(b@.subrange(0, j + 1) =~= b@.subrange(0, j as int).push(x));
                assert(r@ == old_r.push(x));
                vstd::seq_lib::to_multiset_build(old_r, x);
                vstd::seq_lib::to_multiset_build(b@.subrange(0, j as int), x);
                assert(r@.to_multiset() == old_r.to_multiset().insert(x));
                assert(b@.subrange(0, j + 1).to_multiset() == b@.subrange(0, j as int).to_multiset().insert(x));
                assert forall|m: int| 0 <= m < r@.len() && j + 1 < b@.len() implies key_le(
                    #[trigger] r@[m],
                    b@[j + 1],
                    kind,
                ) by {
                    if m < old_r.len() {
                        lemma_key_trans(old_r[m], x, b@[j + 1], kind);
                    }
                }
                if in_order {
                    assert(i == a.len());
                    assert(r@ =~= a@.subrange(0, i as int) + b@.subrange(0, j + 1));
                }
            }
            j = j + 1;
        }
        assert(r@.to_multiset() =~= a@.subrange(0, i as int).to_multiset().add(
            b@.subrange(0, j as int).to_multiset(),
        ));
    }
    assert(a@.subrange(0, a@.len() as int) =~= a@);
    assert(b@.subrange(0, b@.len() as int) =~= b@);
    r
}

/// Sorts `v[lo..hi]` by metric `kind`, returning a new vector.
fn sort_range(v: &Vec<Pixel>, lo: usize, hi: usize, kind: HslComponent) -> (r: Vec<Pixel>)
    requires
        lo <= hi <= v@.len(),
        all_wf(v@),
    ensures
        sort_outcome(v@.subrange(lo as int, hi as int), r@, kind),
        all_wf(r@),
    decreases hi - lo,
{
    let ghost sub = v@.subrange(lo as int, hi as int);
    if hi - lo <= 1 {
        let mut r: Vec<Pixel> = Vec::new();
        if hi > lo {
            r.push(v[lo]);
        }
        assert(r@ =~= sub);
        r
    } else {
        let mid: usize = lo + (hi - lo) / 2;
        let a = sort_range(v, lo, mid, kind);
        let b = sort_range(v, mid, hi, kind);
        let ghost left = v@.subrange(lo as int, mid as int);
        let ghost right = v@.subrange(mid as int, hi as int);
        proof {
            assert(sub =~= left + right);
            vstd::seq_lib::lemma_multiset_commutative(left, right);
            if sorted_by_metric(sub, kind) {
                assert(sorted_by_metric(left, kind)) by {
                    assert forall|i: int, j: int| 0 <= i < j < left.len() implies key_le(
                        #[trigger] left[i],
                        #[trigger] left[j],
                        kind,
                    ) by {
                        assert(left[i] == sub[i] && left[j] == sub[j]);
                    }
                }
                assert(sorted_by_metric(right, kind)) by {
                    assert forall|i: int, j: int| 0 <= i < j < right.len() implies key_le(
                        #[trigger] right[i],
                        #[trigger] right[j],
                        kind,
                    ) by {
                        assert(right[i] == sub[left.len() + i] && right[j] == sub[left.len() + j]);
                    }
                }
                assert forall|i: int, j: int|
                    0 <= i < a@.len() && 0 <= j < b@.len() implies key_le(
                    #[trigger] a@[i],
                    #[trigger] b@[j],
                    kind,
                ) by {
                    assert(a@[i] == sub[i] && b@[j] == sub[left.len() + j]);
                }
            }
        }
        merge(&a, &b, kind)
    }
}

/// Sorts a span's pixels in ascending order of metric `kind`, keeping its
/// origin. The sort is a merge sort, so its depth of recursion grows with
/// the logarithm of the span's length; an already sorted span is left as
/// it is.
pub fn sort_span(span: &mut Span, kind: HslComponent)
    requires
        all_wf(old(span).pixels@),
    ensures
        final(span).origin == old(span).origin,
        sort_outcome(old(span).pixels@, final(span).pixels@, kind),
        all_wf(final(span).pixels@),
{
    let sorted = sort_range(&span.pixels, 0, span.pixels.len(), kind);
    assert(span.pixels@.subrange(0, span.pixels@.len() as int) =~= span.pixels@);
    span.pixels = sorted;
}

/// Sorting a span whose pixels all share one metric value leaves the same
/// pixels, each still with that value: what comes out is a permutation of
/// what went in, and every metric value that comes out equals every one
/// that went in.
pub proof fn lemma_uniform_span(s: Seq<Pixel>, r: Seq<Pixel>, kind: HslComponent)
    requires
        sort_outcome(s, r, kind),
        forall|i: int, j: int|
            0 <= i < s.len() && 0 <= j < s.len() ==> metric_of(#[trigger] s[i], kind).same_value(
                metric_of(#[trigger] s[j], kind),
            ),
    ensures
        r.to_multiset() == s.to_multiset(),
        forall|i: int, j: int|
            0 <= i < r.len() && 0 <= j < s.len() ==> metric_of(#[trigger] r[i], kind).same_value(
                metric_of(#[trigger] s[j], kind),
            ),
{
    assert(sorted_by_metric(s, kind)) by {
        assert forall|i: int, j: int| 0 <= i < j < s.len() implies key_le(
            #[trigger] s[i],
            #[trigger] s[j],
            kind,
        ) by {
            assert(metric_of(s[i], kind).same_value(metric_of(s[j], kind)));
        }
    }
}

} // verus!
