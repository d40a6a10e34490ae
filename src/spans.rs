use vstd::prelude::*;

use crate::buffer::{walk_seq, ImageData};
use crate::color::Pixel;
use crate::error::SortError;
use crate::filter::{check_eligibility, eligible, filter_check, Filter};
use crate::grid::{
    lemma_order_rank, lemma_walk_order, line_len, opt_int, order, rank, start_id, successor, walk,
    Direction,
};

verus! {

/// A run of selected pixels taken along the walk: the id where it starts
/// and its pixels in walk order.
#[derive(Debug)]
pub struct Span {
    pub origin: usize,
    pub pixels: Vec<Pixel>,
}

/// Which steps of the walk visit a selected pixel.
pub open spec fn eligibility(t: Seq<Pixel>, f: Filter) -> Seq<bool> {
    t.map_values(|p: Pixel| eligible(p, f))
}

/// The first step of the run of selected steps that holds step `k`: runs
/// break where a step is not selected and where a new line of the walk
/// begins (every `line` steps).
pub open spec fn run_start(el: Seq<bool>, line: nat, k: int) -> int
    decreases k,
{
    if k <= 0 || k % (line as int) == 0 || !el[k - 1] {
        k
    } else {
        run_start(el, line, k - 1)
    }
}

/// One past the last step of the run that holds step `k`.
pub open spec fn run_end(el: Seq<bool>, line: nat, k: int) -> int
    decreases el.len() - k,
{
    if k + 1 >= el.len() || (k + 1) % (line as int) == 0 || !el[k + 1] {
        k + 1
    } else {
        run_end(el, line, k + 1)
    }
}

/// The step of the walk at which a span starts.
pub open spec fn span_start(sp: Span, w: nat, h: nat, dir: Direction) -> int {
    rank(w, h, dir, sp.origin as int)
}

/// `sp` is the whole run that starts at its origin, of length at least two,
/// and holds that run's pixels.
pub open spec fn span_ok(sp: Span, t: Seq<Pixel>, el: Seq<bool>, w: nat, h: nat, dir: Direction) -> bool {
    let s = span_start(sp, w, h, dir);
    let len = sp.pixels@.len();
    &&& sp.origin < w * h
    &&& 0 <= s
    &&& s + len <= t.len()
    &&& len >= 2
    &&& el[s]
    &&& run_start(el, line_len(w, h, dir), s) == s
    &&& run_end(el, line_len(w, h, dir), s) == s + len
    &&& sp.pixels@ == t.subrange(s, s + len)
}

/// Some span of the list starts at step `s`.
pub open spec fn covers_start(spans: Seq<Span>, s: int, w: nat, h: nat, dir: Direction) -> bool {
    exists|i: int| 0 <= i < spans.len() && span_start(#[trigger] spans[i], w, h, dir) == s
}

/// `spans` are exactly the runs of length at least two of the walk `t`
/// under the selection `el`, in walk order.
pub open spec fn spans_of(spans: Seq<Span>, t: Seq<Pixel>, el: Seq<bool>, w: nat, h: nat, dir: Direction) -> bool {
    let line = line_len(w, h, dir);
    &&& forall|i: int| 0 <= i < spans.len() ==> span_ok(#[trigger] spans[i], t, el, w, h, dir)
    &&& forall|i: int, j: int|
        0 <= i < j < spans.len() ==> span_start(#[trigger] spans[i], w, h, dir)
            + spans[i].pixels@.len() <= span_start(#[trigger] spans[j], w, h, dir)
    &&& forall|s: int|
        0 <= s < t.len() && el[s] && run_start(el, line, s) == s && run_end(el, line, s) - s >= 2
            ==> #[trigger] covers_start(spans, s, w, h, dir)
}

/// A run starts at or before the step it holds.
pub proof fn lemma_run_start_bound(el: Seq<bool>, line: nat, k: int)
    requires
        0 <= k,
    ensures
        0 <= run_start(el, line, k) <= k,
    decreases k,
{
    if !(k <= 0 || k % (line as int) == 0 || !el[k - 1]) {
        lemma_run_start_bound(el, line, k - 1);
    }
}

/// A run ends after the step it holds, and not past the walk.
pub proof fn lemma_run_end_bound(el: Seq<bool>, line: nat, k: int)
    requires
        0 <= k < el.len(),
    ensures
        k < run_end(el, line, k) <= el.len(),
    decreases el.len() - k,
{
    if !(k + 1 >= el.len() || (k + 1) % (line as int) == 0 || !el[k + 1]) {
        lemma_run_end_bound(el, line, k + 1);
    }
}

/// Steps `j..=m` that are joined (each later one selected and not the start
/// of a line) share the end of their run.
pub proof fn lemma_run_end_chain(el: Seq<bool>, line: nat, j: int, m: int)
    requires
        0 <= j <= m < el.len(),
        forall|i: int| j < i <= m ==> #[trigger] el[i] && i % (line as int) != 0,
    ensures
        run_end(el, line, j) == run_end(el, line, m),
    decreases m - j,
{
    if j < m {
        assert(j < j + 1 <= m);
        assert(el[j + 1]);
        assert((j + 1) % (line as int) != 0);
        lemma_run_end_chain(el, line, j + 1, m);
    }
}

/// Every step of the run that starts at a selected step `s` is selected and
/// belongs to that same run.
pub proof fn lemma_run_members(el: Seq<bool>, line: nat, s: int, j: int)
    requires
        0 <= s <= j < run_end(el, line, s),
        s < el.len(),
        el[s],
    ensures
        el[j],
        run_start(el, line, j) == run_start(el, line, s),
        run_end(el, line, j) == run_end(el, line, s),
    decreases j - s,
{
    if j > s {
        lemma_run_members(el, line, s + 1, j);
    }
}

/// A selected step lies in the run that starts at its `run_start`.
pub proof fn lemma_run_of(el: Seq<bool>, line: nat, k: int)
    requires
        0 <= k < el.len(),
        el[k],
    ensures
        0 <= run_start(el, line, k) <= k < run_end(el, line, k) <= el.len(),
        el[run_start(el, line, k)],
        run_start(el, line, run_start(el, line, k)) == run_start(el, line, k),
        run_end(el, line, run_start(el, line, k)) == run_end(el, line, k),
    decreases k,
{
    lemma_run_end_bound(el, line, k);
    if !(k <= 0 || k % (line as int) == 0 || !el[k - 1]) {
        lemma_run_of(el, line, k - 1);
    }
}

/// Walks the image in direction `direction` and collects the runs of pixels
/// that `filter` selects: a run breaks at an unselected pixel and where a
/// new line of the walk begins, and runs shorter than two pixels are dropped.
///
/// Fails with `UnsupportedMetric` for selection by hue and with
/// `InvalidRange` for a malformed range, checked in that order.
#[verifier::rlimit(40)]
pub fn extract_spans(image: &ImageData, filter: &Filter, direction: Direction) -> (r: Result<
    Vec<Span>,
    SortError,
>)
    requires
        image.wf(),
    ensures
        filter_check(*filter) is Err ==> r == Err::<Vec<Span>, SortError>(
            filter_check(*filter)->Err_0,
        ),
        filter_check(*filter) is Ok ==> (r matches Ok(spans) && {
            let t = walk_seq(image.data@, image.width as nat, image.height as nat, direction);
            spans_of(
                spans@,
                t,
                eligibility(t, *filter),
                image.width as nat,
                image.height as nat,
                direction,
            )
        }),
{
    match filter.validate() {
        Err(e) => return Err(e),
        Ok(()) => {},
    }
    let w = image.width;
    let h = image.height;
    let n: usize = image.data.len();
    let line: usize = match direction {
        Direction::Left | Direction::Right => w,
        Direction::Up | Direction::Down => h,
    };
    let ghost wn = w as nat;
    let ghost hn = h as nat;
    let ghost t = walk_seq(image.data@, wn, hn, direction);
    let ghost el = eligibility(t, *filter);
    let ghost ln = line as nat;
    let mut spans: Vec<Span> = Vec::new();
    let mut inside = false;
    let mut origin: usize = 0;
    let mut buf: Vec<Pixel> = Vec::new();
    let ghost mut start: int = 0;
    let mut cur = start_id(w, h, direction);
    let mut k: usize = 0;
    proof {
        lemma_walk_order(wn, hn, direction, 0);
    }
    while cur.is_some()
        invariant
            image.wf(),
            filter_check(*filter) is Ok,
            n == image.data@.len(),
            n == w * h,
            w == image.width,
            h == image.height,
            wn == w,
            hn == h,
            line == ln,
            ln == line_len(wn, hn, direction),
            t == walk_seq(image.data@, wn, hn, direction),
            el == eligibility(t, *filter),
            k <= n,
            opt_int(cur) == (if k < n {
                Some(order(wn, hn, direction, k as int))
            } else {
                None::<int>
            }),
            inside == (k > 0 && el[k - 1]),
            inside ==> {
                &&& 0 <= start < k
                &&& el[start]
                &&& run_start(el, ln, start) == start
                &&& origin == order(wn, hn, direction, start)
                &&& buf@ == t.subrange(start, k as int)
                &&& forall|j: int| start <= j < k ==> #[trigger] el[j]
                &&& forall|j: int| start < j < k ==> #[trigger] (j % (ln as int)) != 0
            },
            !inside ==> buf@.len() == 0,
            forall|i: int|
                0 <= i < spans@.len() ==> span_ok(#[trigger] spans@[i], t, el, wn, hn, direction),
            forall|i: int|
                0 <= i < spans@.len() ==> span_start(#[trigger] spans@[i], wn, hn, direction)
                    + spans@[i].pixels@.len() <= (if inside {
                    start
                } else {
                    k as int
                }),
            forall|i: int, j: int|
                0 <= i < j < spans@.len() ==> span_start(#[trigger] spans@[i], wn, hn, direction)
                    + spans@[i].pixels@.len() <= span_start(#[trigger] spans@[j], wn, hn, direction),
            forall|s: int|
                0 <= s < k && el[s] && run_start(el, ln, s) == s && run_end(el, ln, s) - s >= 2 && !(
                inside && s == start) ==> #[trigger] covers_start(spans@, s, wn, hn, direction),
        decreases n - k,
    {
        let id = cur.unwrap();
        proof {
            lemma_order_rank(wn, hn, direction, k as int);
        }
        let pixel = image.data[id];
        assert(t[k as int] == pixel);
        let selected = match check_eligibility(&pixel, filter) {
            Ok(b) => b,
            Err(e) => return Err(e),
        };
        assert(selected == el[k as int]);
        let boundary = k % line == 0;
        if (!selected || boundary) && inside {
            proof {
                lemma_run_end_chain(el, ln, start, k - 1);
                lemma_run_start_bound(el, ln, start);
            }
            assert(run_end(el, ln, k - 1) == k);
            if buf.len() >= 2 {
                let ghost old_spans = spans@;
                let sp = Span { origin, pixels: buf };
                proof {
                    lemma_order_rank(wn, hn, direction, start);
                }
                assert(span_ok(sp, t, el, wn, hn, direction));
                spans.push(sp);
                assert forall|s: int|
                    0 <= s < k && el[s] && run_start(el, ln, s) == s && run_end(el, ln, s) - s
                        >= 2 implies #[trigger] covers_start(spans@, s, wn, hn, direction) by {
                    if s == start {
                        assert(spans@[old_spans.len() as int] == sp);
                    } else {
                        assert(covers_start(old_spans, s, wn, hn, direction));
                        let i = choose|i: int|
                            0 <= i < old_spans.len() && span_start(
                                #[trigger] old_spans[i],
                                wn,
                                hn,
                                direction,
                            ) == s;
                        assert(spans@[i] == old_spans[i]);
                    }
                }
            }
            buf = Vec::new();
            inside = false;
        }
        let ghost closed_spans = spans@;
        let ghost was_inside = inside;
        if selected {
            if !inside {
                proof {
                    start = k as int;
                }
                inside = true;
                origin = id;
            } else {
                proof {
                    lemma_run_start_bound(el, ln, k - 1);
                }
                assert(run_start(el, ln, k as int) == run_start(el, ln, k - 1));
            }
            buf.push(pixel);
        }
        assert forall|s: int|
            0 <= s < k + 1 && el[s] && run_start(el, ln, s) == s && run_end(el, ln, s) - s >= 2
                && !(inside && s == start) implies #[trigger] covers_start(
            spans@,
            s,
            wn,
            hn,
            direction,
        ) by {
            if s < k {
                assert(covers_start(closed_spans, s, wn, hn, direction));
            }
        }
        proof {
            lemma_walk_order(wn, hn, direction, k as nat);
        }
        cur = successor(id, w, h, direction);
        proof {
            crate::grid::lemma_next_order(wn, hn, direction, k as int);
        }
        k = k + 1;
    }
    if inside && buf.len() >= 2 {
        proof {
            lemma_run_end_chain(el, ln, start, k - 1);
            lemma_order_rank(wn, hn, direction, start);
        }
        let ghost old_spans = spans@;
        let sp = Span { origin, pixels: buf };
        spans.push(sp);
        assert forall|s: int|
            0 <= s < k && el[s] && run_start(el, ln, s) == s && run_end(el, ln, s) - s
                >= 2 implies #[trigger] covers_start(spans@, s, wn, hn, direction) by {
            if s == start {
                assert(spans@[old_spans.len() as int] == sp);
            } else {
                assert(covers_start(old_spans, s, wn, hn, direction));
                let i = choose|i: int|
                    0 <= i < old_spans.len() && span_start(#[trigger] old_spans[i], wn, hn, direction)
                        == s;
                assert(spans@[i] == old_spans[i]);
            }
        }
    }
    assert(t.len() == n);
    Ok(spans)
}

} // verus!
