//! A stable merge sort of pixels by raster key, and what holds of its result.

use crate::convert::Pixel;
use crate::order::{has_key, in_raster_order, is_stable_sort, keyed, may_precede, raster_key};
use vstd::prelude::*;

verus! {

/// Adding a pixel at the end adds it to the pixels of its own key and leaves
/// the pixels of every other key as they were.
pub proof fn lemma_keyed_push(pixels: Seq<Pixel>, pixel: Pixel, width: usize, key: int)
    ensures
        keyed(pixels.push(pixel), width, key) == if raster_key(pixel, width) == key {
            keyed(pixels, width, key).push(pixel)
        } else {
            keyed(pixels, width, key)
        },
{
    pixels.lemma_filter_push(pixel, has_key(width, key));
}

/// Where no pixel has the key, the pixels of that key are none.
pub proof fn lemma_keyed_none(pixels: Seq<Pixel>, width: usize, key: int)
    requires
        forall|i: int| 0 <= i < pixels.len() ==> raster_key(#[trigger] pixels[i], width) != key,
    ensures
        keyed(pixels, width, key).len() == 0,
    decreases pixels.len(),
{
    if pixels.len() == 0 {
        reveal(Seq::filter);
    } else {
        let front = pixels.drop_last();
        assert forall|i: int| 0 <= i < front.len() implies raster_key(
            #[trigger] front[i],
            width,
        ) != key by {
            assert(front[i] == pixels[i]);
        }
        lemma_keyed_none(front, width, key);
        assert(pixels == front.push(pixels.last()));
        lemma_keyed_push(front, pixels.last(), width, key);
    }
}

/// Where some pixel of `pixels` has the key, one can be pointed at.
pub proof fn lemma_keyed_some(pixels: Seq<Pixel>, width: usize, key: int) -> (i: int)
    requires
        keyed(pixels, width, key).len() > 0,
    ensures
        0 <= i < pixels.len(),
        raster_key(pixels[i], width) == key,
{
    if forall|n: int| 0 <= n < pixels.len() ==> raster_key(#[trigger] pixels[n], width) != key {
        lemma_keyed_none(pixels, width, key);
        0
    } else {
        choose|n: int| 0 <= n < pixels.len() && raster_key(#[trigger] pixels[n], width) == key
    }
}

/// Raster order together with the order within each key fixes a sequence:
/// two sequences in raster order that hold, for every key, the same pixels of
/// that key in the same order are one and the same.
pub proof fn lemma_raster_order_is_unique(first: Seq<Pixel>, second: Seq<Pixel>, width: usize)
    requires
        in_raster_order(first, width),
        in_raster_order(second, width),
        forall|key: int| #[trigger] keyed(first, width, key) == keyed(second, width, key),
    ensures
        first == second,
    decreases first.len(),
{
    if first.len() == 0 {
        if second.len() > 0 {
            let key = raster_key(second.last(), width);
            assert(second == second.drop_last().push(second.last()));
            lemma_keyed_push(second.drop_last(), second.last(), width, key);
            lemma_keyed_none(first, width, key);
            assert(keyed(first, width, key) == keyed(second, width, key));
        }
    } else {
        let first_front = first.drop_last();
        let first_key = raster_key(first.last(), width);
        assert(first == first_front.push(first.last()));
        lemma_keyed_push(first_front, first.last(), width, first_key);
        assert(keyed(first, width, first_key) == keyed(second, width, first_key));
        let j = lemma_keyed_some(second, width, first_key);
        let second_front = second.drop_last();
        let second_key = raster_key(second.last(), width);
        assert(second == second_front.push(second.last()));
        lemma_keyed_push(second_front, second.last(), width, second_key);
        assert(keyed(first, width, second_key) == keyed(second, width, second_key));
        let i = lemma_keyed_some(first, width, second_key);
        assert(raster_key(first[i], width) <= raster_key(first[first.len() - 1], width));
        assert(raster_key(second[j], width) <= raster_key(second[second.len() - 1], width));
        assert(first_key == second_key);
        assert(first.last() == keyed(first, width, first_key).last());
        assert(second.last() == keyed(second, width, first_key).last());
        assert forall|key: int| #[trigger]
            keyed(first_front, width, key) == keyed(second_front, width, key) by {
            lemma_keyed_push(first_front, first.last(), width, key);
            lemma_keyed_push(second_front, second.last(), width, key);
            assert(keyed(first, width, key) == keyed(second, width, key));
            if key == first_key {
                assert(keyed(first_front, width, key) == keyed(first, width, key).drop_last());
                assert(keyed(second_front, width, key) == keyed(second, width, key).drop_last());
            }
        }
        assert(in_raster_order(first_front, width)) by {
            assert forall|m: int, n: int| 0 <= m <= n < first_front.len() implies raster_key(
                #[trigger] first_front[m],
                width,
            ) <= raster_key(#[trigger] first_front[n], width) by {
                assert(first_front[m] == first[m] && first_front[n] == first[n]);
            }
        }
        assert(in_raster_order(second_front, width)) by {
            assert forall|m: int, n: int| 0 <= m <= n < second_front.len() implies raster_key(
                #[trigger] second_front[m],
                width,
            ) <= raster_key(#[trigger] second_front[n], width) by {
                assert(second_front[m] == second[m] && second_front[n] == second[n]);
            }
        }
        lemma_raster_order_is_unique(first_front, second_front, width);
    }
}

/// A sequence in raster order is its own stable sort, and the only one.
pub proof fn lemma_sorted_stays(sorted: Seq<Pixel>, pixels: Seq<Pixel>, width: usize)
    requires
        in_raster_order(pixels, width),
        is_stable_sort(sorted, pixels, width),
    ensures
        is_stable_sort(pixels, pixels, width),
        sorted == pixels,
{
    lemma_raster_order_is_unique(sorted, pixels, width);
}

/// A pixel occurs in a sequence as often as it occurs among the pixels of
/// its own key.
proof fn lemma_count_by_key(pixels: Seq<Pixel>, width: usize, pixel: Pixel)
    ensures
        pixels.to_multiset().count(pixel) == keyed(
            pixels,
            width,
            raster_key(pixel, width),
        ).to_multiset().count(pixel),
    decreases pixels.len(),
{
    let key = raster_key(pixel, width);
    if pixels.len() == 0 {
        lemma_keyed_none(pixels, width, key);
        assert(keyed(pixels, width, key) == pixels);
    } else {
        let front = pixels.drop_last();
        let last = pixels.last();
        lemma_count_by_key(front, width, pixel);
        assert(pixels == front.push(last));
        lemma_keyed_push(front, last, width, key);
        vstd::seq_lib::to_multiset_build(front, last);
        vstd::seq_lib::to_multiset_build(keyed(front, width, key), last);
    }
}

/// Sequences that hold, for every key, the same pixels of that key hold the
/// same pixels, each as often as the other: neither a pixel nor a colour is
/// lost or made up.
pub proof fn lemma_same_pixels(first: Seq<Pixel>, second: Seq<Pixel>, width: usize)
    requires
        forall|key: int| #[trigger] keyed(first, width, key) == keyed(second, width, key),
    ensures
        first.to_multiset() == second.to_multiset(),
        first.len() == second.len(),
{
    assert forall|pixel: Pixel|
        first.to_multiset().count(pixel) == second.to_multiset().count(pixel) by {
        let key = raster_key(pixel, width);
        lemma_count_by_key(first, width, pixel);
        lemma_count_by_key(second, width, pixel);
        assert(keyed(first, width, key) == keyed(second, width, key));
    }
    assert(first.to_multiset() =~= second.to_multiset());
    vstd::seq_lib::to_multiset_len(first);
    vstd::seq_lib::to_multiset_len(second);
}

/// Merges two runs that are each in raster order into one. Where a pixel of
/// `left` and one of `right` have the same key, the one of `left` comes first.
fn merge(left: &Vec<Pixel>, right: &Vec<Pixel>, width: usize) -> (merged: Vec<Pixel>)
    requires
        in_raster_order(left@, width),
        in_raster_order(right@, width),
    ensures
        in_raster_order(merged@, width),
        forall|key: int| #[trigger]
            keyed(merged@, width, key) == keyed(left@, width, key) + keyed(right@, width, key),
{
    let mut merged: Vec<Pixel> = Vec::new();
    let mut i: usize = 0;
    let mut j: usize = 0;
    proof {
        assert forall|key: int| #[trigger]
            keyed(merged@, width, key) == keyed(left@.take(0), width, key) + keyed(
                right@.take(0),
                width,
                key,
            ) by {
            lemma_keyed_none(merged@, width, key);
            lemma_keyed_none(left@.take(0), width, key);
            lemma_keyed_none(right@.take(0), width, key);
        }
    }
    while i < left.len() || j < right.len()
        invariant
            i <= left.len(),
            j <= right.len(),
            in_raster_order(left@, width),
            in_raster_order(right@, width),
            in_raster_order(merged@, width),
            forall|key: int| #[trigger]
                keyed(merged@, width, key) == keyed(left@.take(i as int), width, key) + keyed(
                    right@.take(j as int),
                    width,
                    key,
                ),
            forall|n: int|
                0 <= n < merged.len() && i < left.len() ==> raster_key(
                    #[trigger] merged@[n],
                    width,
                ) <= raster_key(left@[i as int], width),
            forall|n: int|
                0 <= n < merged.len() && j < right.len() ==> raster_key(
                    #[trigger] merged@[n],
                    width,
                ) <= raster_key(right@[j as int], width),
            forall|n: int|
                0 <= n < j && i < left.len() ==> raster_key(#[trigger] right@[n], width)
                    < raster_key(left@[i as int], width),
        decreases left.len() - i + right.len() - j,
    {
        let from_left: bool = if j >= right.len() {
            true
        } else if i >= left.len() {
            false
        } else {
            may_precede(&left[i], &right[j], width)
        };
        let ghost before = merged@;
        if from_left {
            let pixel: Pixel = left[i];
            merged.push(pixel);
            proof {
                let own = raster_key(pixel, width);
                assert(left@.take(i + 1) == left@.take(i as int).push(pixel));
                assert forall|key: int| #[trigger]
                    keyed(merged@, width, key) == keyed(left@.take(i + 1), width, key) + keyed(
                        right@.take(j as int),
                        width,
                        key,
                    ) by {
                    lemma_keyed_push(before, pixel, width, key);
                    lemma_keyed_push(left@.take(i as int), pixel, width, key);
                    if key == own {
                        lemma_keyed_none(right@.take(j as int), width, key);
                    }
                }
            }
            i += 1;
        } else {
            let pixel: Pixel = right[j];
            merged.push(pixel);
            proof {
                assert(right@.take(j + 1) == right@.take(j as int).push(pixel));
                assert forall|key: int| #[trigger]
                    keyed(merged@, width, key) == keyed(left@.take(i as int), width, key) + keyed(
                        right@.take(j + 1),
                        width,
                        key,
                    ) by {
                    lemma_keyed_push(before, pixel, width, key);
                    lemma_keyed_push(right@.take(j as int), pixel, width, key);
                }
            }
            j += 1;
        }
    }
    proof {
        assert(left@.take(i as int) == left@);
        assert(right@.take(j as int) == right@);
    }
    merged
}

/// Sorts the pixels `pixels[from..to]` into a run of their own.
fn sort_range(pixels: &[Pixel], from: usize, to: usize, width: usize) -> (run: Vec<Pixel>)
    requires
        from <= to <= pixels.len(),
    ensures
        is_stable_sort(run@, pixels@.subrange(from as int, to as int), width),
    decreases to - from,
{
    let ghost part = pixels@.subrange(from as int, to as int);
    if to - from <= 1 {
        let mut run: Vec<Pixel> = Vec::new();
        if from < to {
            run.push(pixels[from]);
        }
        assert(run@ == part);
        run
    } else {
        let middle: usize = from + (to - from) / 2;
        let left = sort_range(pixels, from, middle, width);
        let right = sort_range(pixels, middle, to, width);
        let run = merge(&left, &right, width);
        proof {
            let head = pixels@.subrange(from as int, middle as int);
            let tail = pixels@.subrange(middle as int, to as int);
            assert(part == head + tail);
            assert forall|key: int| #[trigger]
                keyed(run@, width, key) == keyed(part, width, key) by {
                Seq::filter_distributes_over_add(head, tail, has_key(width, key));
            }
        }
        run
    }
}

/// Puts `pixels` into raster order for a frame `width` wide. The sort is
/// stable: pixels with the same key stay in the order in which they came, so
/// two pixels that were moved to one position both survive, the earlier one
/// first. Pixels that are in raster order already come back unchanged.
pub fn sort_pixels(pixels: &[Pixel], width: usize) -> (sorted: Vec<Pixel>)
    ensures
        is_stable_sort(sorted@, pixels@, width),
        sorted@.to_multiset() == pixels@.to_multiset(),
        sorted@.len() == pixels@.len(),
        in_raster_order(pixels@, width) ==> sorted@ == pixels@,
{
    let sorted = sort_range(pixels, 0, pixels.len(), width);
    proof {
        assert(pixels@.subrange(0, pixels.len() as int) == pixels@);
        lemma_same_pixels(sorted@, pixels@, width);
        if in_raster_order(pixels@, width) {
            lemma_sorted_stays(sorted@, pixels@, width);
        }
    }
    sorted
}

} // verus!
