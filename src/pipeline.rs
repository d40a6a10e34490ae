use vstd::prelude::*;

use crate::buffer::{walk_seq, ImageData};
use crate::color::{HslComponent, Pixel};
use crate::error::SortError;
use crate::filter::{filter_check, Filter};
use crate::grid::{lemma_order_rank, lemma_rank_order, line_len, order, rank, Direction};
use crate::sorter::{all_wf, sort_outcome, sort_span};
use crate::spans::{
    covers_start, eligibility, extract_spans, lemma_run_members, lemma_run_of, run_end, run_start,
    span_ok, span_start, spans_of, Span,
};
use crate::writer::{write_span, written, written_len};

verus! {

/// `u` is the walk `t` with every run of selected steps sorted by metric
/// `kind`, and every step outside a run unchanged. Runs are as
/// [`run_start`] and [`run_end`] define them over the selection `el`.
pub open spec fn runs_sorted(t: Seq<Pixel>, u: Seq<Pixel>, el: Seq<bool>, line: nat, kind: HslComponent) -> bool {
    &&& u.len() == t.len()
    &&& forall|k: int| 0 <= k < t.len() && !el[k] ==> #[trigger] u[k] == t[k]
    &&& forall|k: int|
        0 <= k < t.len() && #[trigger] el[k] ==> sort_outcome(
            t.subrange(run_start(el, line, k), run_end(el, line, k)),
            u.subrange(run_start(el, line, k), run_end(el, line, k)),
            kind,
        )
}

/// `after` is `before` (a `w` by `h` image) pixel-sorted with filter `f`
/// in direction `dir`.
pub open spec fn pixel_sorted(before: Seq<Pixel>, after: Seq<Pixel>, w: nat, h: nat, f: Filter, dir: Direction) -> bool {
    let t = walk_seq(before, w, h, dir);
    &&& after.len() == before.len()
    &&& runs_sorted(t, walk_seq(after, w, h, dir), eligibility(t, f), line_len(w, h, dir), f.kind)
}

/// What the spans of a walk give once the spans from index `done` on have
/// been sorted and written back: each such span's steps hold a sorted
/// permutation of its pixels, and a step outside them is unchanged.
pub open spec fn spans_applied(t: Seq<Pixel>, u: Seq<Pixel>, spans: Seq<Span>, done: int, w: nat, h: nat, dir: Direction, kind: HslComponent) -> bool {
    &&& u.len() == t.len()
    &&& forall|i: int|
        done <= i < spans.len() ==> sort_outcome(
            t.subrange(
                span_start(#[trigger] spans[i], w, h, dir),
                span_start(spans[i], w, h, dir) + spans[i].pixels@.len(),
            ),
            u.subrange(
                span_start(spans[i], w, h, dir),
                span_start(spans[i], w, h, dir) + spans[i].pixels@.len(),
            ),
            kind,
        )
    &&& forall|k: int|
        0 <= k < t.len() && (forall|i: int|
            done <= i < spans.len() ==> !(span_start(#[trigger] spans[i], w, h, dir) <= k
                < span_start(spans[i], w, h, dir) + spans[i].pixels@.len())) ==> #[trigger] u[k]
            == t[k]
}

/// Once every span has been applied, every run of the walk is sorted.
proof fn lemma_all_spans_applied(t: Seq<Pixel>, u: Seq<Pixel>, spans: Seq<Span>, w: nat, h: nat, f: Filter, dir: Direction)
    requires
        spans_of(spans, t, eligibility(t, f), w, h, dir),
        spans_applied(t, u, spans, 0, w, h, dir, f.kind),
    ensures
        runs_sorted(t, u, eligibility(t, f), line_len(w, h, dir), f.kind),
{
    let el = eligibility(t, f);
    let line = line_len(w, h, dir);
    // A step inside a span lies in the run that the span is.
    assert forall|i: int, k: int|
        0 <= i < spans.len() && span_start(#[trigger] spans[i], w, h, dir) <= k < span_start(
            spans[i],
            w,
            h,
            dir,
        ) + spans[i].pixels@.len() implies #[trigger] el[k] && run_start(el, line, k)
        == span_start(spans[i], w, h, dir) && run_end(el, line, k) == span_start(spans[i], w, h, dir)
        + spans[i].pixels@.len() by {
        assert(span_ok(spans[i], t, el, w, h, dir));
        lemma_run_members(el, line, span_start(spans[i], w, h, dir), k);
    }
    assert forall|k: int| 0 <= k < t.len() && !el[k] implies #[trigger] u[k] == t[k] by {
        assert forall|i: int| 0 <= i < spans.len() implies !(span_start(
            #[trigger] spans[i],
            w,
            h,
            dir,
        ) <= k < span_start(spans[i], w, h, dir) + spans[i].pixels@.len()) by {
            if span_start(spans[i], w, h, dir) <= k < span_start(spans[i], w, h, dir)
                + spans[i].pixels@.len() {
                assert(el[k]);
            }
        }
    }
    assert forall|k: int| 0 <= k < t.len() && #[trigger] el[k] implies sort_outcome(
        t.subrange(run_start(el, line, k), run_end(el, line, k)),
        u.subrange(run_start(el, line, k), run_end(el, line, k)),
        f.kind,
    ) by {
        lemma_run_of(el, line, k);
        let rs = run_start(el, line, k);
        let re = run_end(el, line, k);
        if re - rs >= 2 {
            assert(covers_start(spans, rs, w, h, dir));
            let i = choose|i: int| 0 <= i < spans.len() && span_start(#[trigger] spans[i], w, h, dir) == rs;
            assert(span_ok(spans[i], t, el, w, h, dir));
        } else {
            assert forall|i: int| 0 <= i < spans.len() implies !(span_start(
                #[trigger] spans[i],
                w,
                h,
                dir,
            ) <= k < span_start(spans[i], w, h, dir) + spans[i].pixels@.len()) by {
                assert(span_ok(spans[i], t, el, w, h, dir));
            }
            assert(u[k] == t[k]);
            assert(t.subrange(rs, re) =~= seq![t[k]]);
            assert(u.subrange(rs, re) =~= seq![t[k]]);
        }
    }
}

/// Pixel-sorts an image in place: every run of pixels that `filter`
/// selects along the walk in direction `direction` (runs break at an
/// unselected pixel and where a new row or column of the walk begins) is
/// sorted in ascending order of the filter's metric; all other pixels stay.
///
/// Fails with `UnsupportedMetric` for selection by hue and with
/// `InvalidRange` for a malformed range, checked in that order, and then
/// leaves the image as it is.
pub fn sort_image(image: &mut ImageData, filter: &Filter, direction: Direction) -> (r: Result<
    (),
    SortError,
>)
    requires
        old(image).wf(),
    ensures
        final(image).width == old(image).width,
        final(image).height == old(image).height,
        final(image).wf(),
        filter_check(*filter) is Err ==> r == Err::<(), SortError>(filter_check(*filter)->Err_0)
            && final(image).data@ == old(image).data@,
        filter_check(*filter) is Ok ==> r == Ok::<(), SortError>(()) && pixel_sorted(
            old(image).data@,
            final(image).data@,
            old(image).width as nat,
            old(image).height as nat,
            *filter,
            direction,
        ),
{
    let mut spans = match extract_spans(image, filter, direction) {
        Ok(s) => s,
        Err(e) => return Err(e),
    };
    let ghost wn = image.width as nat;
    let ghost hn = image.height as nat;
    let ghost all = spans@;
    let ghost t = walk_seq(image.data@, wn, hn, direction);
    let ghost el = eligibility(t, *filter);
    let kind = filter.kind;
    assert forall|i: int| 0 <= i < t.len() implies (#[trigger] t[i]).wf() by {
        lemma_order_rank(wn, hn, direction, i);
    }
    assert(spans_applied(t, walk_seq(image.data@, wn, hn, direction), all, all.len() as int, wn, hn, direction, kind));
    while spans.len() > 0
        invariant
            image.wf(),
            image.width == wn,
            image.height == hn,
            image.data@.len() == wn * hn,
            t.len() == wn * hn,
            kind == filter.kind,
            spans_of(all, t, el, wn, hn, direction),
            el == eligibility(t, *filter),
            spans@.len() <= all.len(),
            spans@ == all.subrange(0, spans@.len() as int),
            spans_applied(t, walk_seq(image.data@, wn, hn, direction), all, spans@.len() as int, wn, hn, direction, kind),
            forall|i: int| 0 <= i < t.len() ==> (#[trigger] t[i]).wf(),
        decreases spans@.len(),
    {
        let ghost c = spans@.len() - 1;
        let ghost before_pop = spans@;
        let mut span = spans.pop().unwrap();
        assert(before_pop[c] == all[c]);
        let ghost u = walk_seq(image.data@, wn, hn, direction);
        let ghost data = image.data@;
        assert(span == all[c]);
        assert(span_ok(all[c], t, el, wn, hn, direction));
        let ghost s = span_start(span, wn, hn, direction);
        let ghost len = span.pixels@.len() as int;
        assert(all_wf(span.pixels@)) by {
            assert forall|i: int| 0 <= i < span.pixels@.len() implies (#[trigger] span.pixels@[i]).wf() by {
                assert(span.pixels@[i] == t[s + i]);
            }
        }
        let ghost unsorted = span.pixels@;
        sort_span(&mut span, kind);
        proof {
            vstd::seq_lib::to_multiset_len(unsorted);
            vstd::seq_lib::to_multiset_len(span.pixels@);
        }
        let _ = write_span(image, &span, direction);
        proof {
            let u2 = walk_seq(image.data@, wn, hn, direction);
            assert(written_len(span, wn, hn, direction) == len);
            assert forall|k: int| 0 <= k < t.len() implies #[trigger] u2[k] == (if s <= k < s + len {
                span.pixels@[k - s]
            } else {
                u[k]
            }) by {
                lemma_order_rank(wn, hn, direction, k);
            }
            // The steps of the span had not been touched yet.
            assert forall|k: int| s <= k < s + len implies #[trigger] u[k] == t[k] by {
                assert forall|i: int| c < i < all.len() implies !(span_start(#[trigger] all[i], wn, hn, direction) <= k
                    < span_start(all[i], wn, hn, direction) + all[i].pixels@.len()) by {
                    assert(span_start(all[c], wn, hn, direction) + all[c].pixels@.len() <= span_start(all[i], wn, hn, direction));
                }
            }
            assert(u2.subrange(s, s + len) =~= span.pixels@);
            assert(t.subrange(s, s + len) =~= all[c].pixels@);
            assert forall|i: int| c < i < all.len() implies #[trigger] u2.subrange(
                span_start(all[i], wn, hn, direction),
                span_start(all[i], wn, hn, direction) + all[i].pixels@.len(),
            ) == u.subrange(
                span_start(all[i], wn, hn, direction),
                span_start(all[i], wn, hn, direction) + all[i].pixels@.len(),
            ) by {
                assert(span_start(all[c], wn, hn, direction) + all[c].pixels@.len() <= span_start(all[i], wn, hn, direction));
                assert(span_ok(all[i], t, el, wn, hn, direction));
                assert(u2.subrange(
                    span_start(all[i], wn, hn, direction),
                    span_start(all[i], wn, hn, direction) + all[i].pixels@.len(),
                ) =~= u.subrange(
                    span_start(all[i], wn, hn, direction),
                    span_start(all[i], wn, hn, direction) + all[i].pixels@.len(),
                ));
            }
            assert(spans@ =~= all.subrange(0, c));
        }
    }
    proof {
        lemma_all_spans_applied(t, walk_seq(image.data@, wn, hn, direction), all, wn, hn, *filter, direction);
    }
    Ok(())
}

/// Pixel-sorting twice is pixel-sorting once: sorting the result of a run
/// again, with the same filter and direction, gives that result back.
///
/// Sorting keeps every pixel of a run inside the run, so the same pixels
/// are selected the second time and the runs are the same; each of them is
/// sorted already and a sorted run is left as it is.
pub proof fn lemma_sorting_twice_changes_nothing(a: Seq<Pixel>, b: Seq<Pixel>, c: Seq<Pixel>, w: nat, h: nat, f: Filter, dir: Direction)
    requires
        a.len() == w * h,
        pixel_sorted(a, b, w, h, f, dir),
        pixel_sorted(b, c, w, h, f, dir),
    ensures
        c == b,
{
    broadcast use vstd::seq_lib::group_to_multiset_ensures;

    let ta = walk_seq(a, w, h, dir);
    let tb = walk_seq(b, w, h, dir);
    let tc = walk_seq(c, w, h, dir);
    let ela = eligibility(ta, f);
    let elb = eligibility(tb, f);
    let line = line_len(w, h, dir);
    assert forall|k: int| 0 <= k < ela.len() implies #[trigger] elb[k] == ela[k] by {
        if ela[k] {
            lemma_run_of(ela, line, k);
            let rs = run_start(ela, line, k);
            let re = run_end(ela, line, k);
            let sa = ta.subrange(rs, re);
            let sb = tb.subrange(rs, re);
            let x = tb[k];
            assert(sb[k - rs] == x);
            assert(sb.contains(x));
            assert(sa.to_multiset().count(x) > 0);
            assert(sa.contains(x));
            let j = choose|j: int| 0 <= j < sa.len() && sa[j] == x;
            lemma_run_members(ela, line, rs, rs + j);
            assert(ta[rs + j] == x);
        }
    }
    assert(elb =~= ela);
    assert forall|k: int| 0 <= k < tb.len() implies #[trigger] tc[k] == tb[k] by {
        if ela[k] {
            lemma_run_of(ela, line, k);
            let rs = run_start(ela, line, k);
            let re = run_end(ela, line, k);
            assert(tc.subrange(rs, re)[k - rs] == tc[k]);
            assert(tb.subrange(rs, re)[k - rs] == tb[k]);
        }
    }
    assert forall|id: int| 0 <= id < b.len() implies #[trigger] c[id] == b[id] by {
        lemma_rank_order(w, h, dir, id);
        assert(tc[rank(w, h, dir, id)] == tb[rank(w, h, dir, id)]);
    }
    assert(c =~= b);
}

} // verus!
