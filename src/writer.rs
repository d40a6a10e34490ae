use vstd::prelude::*;

use crate::buffer::ImageData;
use crate::color::Pixel;
use crate::error::SortError;
use crate::grid::{
    lemma_next_order, lemma_order_rank, lemma_rank_order, opt_int, order, rank, successor,
    Direction,
};
use crate::sorter::all_wf;
use crate::spans::Span;

verus! {

/// How many of a span's pixels fit on the walk from its origin to the end
/// of the walk.
pub open spec fn written_len(sp: Span, w: nat, h: nat, dir: Direction) -> int {
    let room = w * h - rank(w, h, dir, sp.origin as int);
    if sp.pixels@.len() <= room {
        sp.pixels@.len() as int
    } else {
        room
    }
}

/// `data` after the span's pixels are written along the walk, from its
/// origin on: the pixel visited `i` steps after the origin becomes the
/// span's pixel `i`, for as many pixels as fit before the walk ends.
pub open spec fn written(data: Seq<Pixel>, sp: Span, w: nat, h: nat, dir: Direction) -> Seq<Pixel> {
    let s = rank(w, h, dir, sp.origin as int);
    Seq::new(
        data.len(),
        |id: int|
            {
                let k = rank(w, h, dir, id);
                if s <= k < s + written_len(sp, w, h, dir) {
                    sp.pixels@[k - s]
                } else {
                    data[id]
                }
            },
    )
}

/// Writes a span's pixels back along the walk in direction `direction`,
/// starting at its origin and stopping when the pixels run out or the walk
/// ends. Fails with `OutOfRange`, leaving the image as it is, when the
/// origin lies outside the image.
pub fn write_span(image: &mut ImageData, span: &Span, direction: Direction) -> (r: Result<
    (),
    SortError,
>)
    requires
        old(image).wf(),
        all_wf(span.pixels@),
    ensures
        final(image).width == old(image).width,
        final(image).height == old(image).height,
        final(image).wf(),
        span.origin >= old(image).data@.len() ==> r == Err::<(), SortError>(SortError::OutOfRange)
            && final(image).data@ == old(image).data@,
        span.origin < old(image).data@.len() ==> r == Ok::<(), SortError>(())
            && final(image).data@ == written(
            old(image).data@,
            *span,
            old(image).width as nat,
            old(image).height as nat,
            direction,
        ),
{
    let n = image.data.len();
    if span.origin >= n {
        return Err(SortError::OutOfRange);
    }
    let w = image.width;
    let h = image.height;
    let ghost wn = w as nat;
    let ghost hn = h as nat;
    let ghost before = image.data@;
    let ghost s = rank(wn, hn, direction, span.origin as int);
    proof {
        lemma_rank_order(wn, hn, direction, span.origin as int);
    }
    let mut cur: Option<usize> = Some(span.origin);
    let mut j: usize = 0;
    while j < span.pixels.len() && cur.is_some()
        invariant
            image.width == w,
            image.height == h,
            wn == w,
            hn == h,
            n == w * h,
            image.data@.len() == n,
            before.len() == n,
            all_wf(before),
            all_wf(span.pixels@),
            0 <= s < n,
            s == rank(wn, hn, direction, span.origin as int),
            j <= span.pixels@.len(),
            s + j <= n,
            opt_int(cur) == (if s + j < n {
                Some(order(wn, hn, direction, s + j))
            } else {
                None::<int>
            }),
            forall|id: int|
                0 <= id < n ==> #[trigger] image.data@[id] == (if s <= rank(wn, hn, direction, id) < s
                    + j {
                    span.pixels@[rank(wn, hn, direction, id) - s]
                } else {
                    before[id]
                }),
        decreases span.pixels@.len() - j,
    {
        let id = cur.unwrap();
        proof {
            lemma_order_rank(wn, hn, direction, s + j);
        }
        image.data.set(id, span.pixels[j]);
        proof {
            assert forall|x: int| 0 <= x < n implies #[trigger] image.data@[x] == (if s <= rank(
                wn,
                hn,
                direction,
                x,
            ) < s + j + 1 {
                span.pixels@[rank(wn, hn, direction, x) - s]
            } else {
                before[x]
            }) by {
                lemma_rank_order(wn, hn, direction, x);
            }
            lemma_next_order(wn, hn, direction, s + j);
        }
        cur = successor(id, w, h, direction);
        j = j + 1;
    }
    proof {
        let sp = *span;
        assert(j == written_len(sp, wn, hn, direction));
        assert(image.data@ =~= written(before, sp, wn, hn, direction));
        assert forall|x: int| 0 <= x < image.data@.len() implies (#[trigger] image.data@[x]).wf() by {
            lemma_rank_order(wn, hn, direction, x);
        }
    }
    Ok(())
}

} // verus!
