//! Pixels, images, the frame of a pixel set, and the step that turns moved
//! pixels back into an image.
//!
//! The comparison of two pixels and the raw buffers of images have modules of
//! their own and can be reached from here as well.

use crate::order::{in_raster_order, is_stable_sort};
use crate::sort::{
    lemma_raster_order_is_unique, lemma_same_pixels, lemma_sorted_stays, sort_pixels,
};
use vstd::prelude::*;

pub use crate::order::compare;
pub use crate::raster::{read_image, write_image};

verus! {

/// Two values of one type.
pub type Pair<T> = (T, T);

/// Three values of one type.
pub type Triplet<T> = (T, T, T);

/// A colour: red, green and blue.
pub type RGB = Triplet<u8>;

/// A pixel position `(x, y)`; the origin is the top left corner and `y`
/// grows downwards. The same type holds the size `(width, height)` of an image.
pub type Coord = Pair<usize>;

/// A position and the colour found there.
pub type Pixel = (Coord, RGB);

/// Whether the position `at` lies inside a frame of size `bounds`.
pub open spec fn inside(at: Coord, bounds: Coord) -> bool {
    at.0 < bounds.0 && at.1 < bounds.1
}

/// Whether every pixel of `pixels` lies inside a frame of size `bounds`.
pub open spec fn all_inside(pixels: Seq<Pixel>, bounds: Coord) -> bool {
    forall|i: int| 0 <= i < pixels.len() ==> inside(#[trigger] pixels[i].0, bounds)
}

/// A frame and the pixels that belong to it, in the order in which they are
/// written out.
pub struct Image {
    pub bounds: Coord,
    pub pixels: Vec<Pixel>,
}

impl Image {
    /// The invariant of an image: no pixel lies outside its frame.
    pub open spec fn well_formed(&self) -> bool {
        all_inside(self.pixels@, self.bounds)
    }

    /// Whether the frame is the smallest that holds the pixels.
    pub open spec fn is_tight(&self) -> bool {
        self.bounds.0 == width_of(self.pixels@) && self.bounds.1 == height_of(self.pixels@)
    }
}

/// One past the largest `x` among `pixels`, and 0 where there is no pixel.
pub open spec fn width_of(pixels: Seq<Pixel>) -> nat
    decreases pixels.len(),
{
    if pixels.len() == 0 {
        0
    } else {
        let rest = width_of(pixels.drop_last());
        let x = pixels.last().0.0;
        if x < rest {
            rest
        } else {
            (x + 1) as nat
        }
    }
}

/// One past the largest `y` among `pixels`, and 0 where there is no pixel.
pub open spec fn height_of(pixels: Seq<Pixel>) -> nat
    decreases pixels.len(),
{
    if pixels.len() == 0 {
        0
    } else {
        let rest = height_of(pixels.drop_last());
        let y = pixels.last().0.1;
        if y < rest {
            rest
        } else {
            (y + 1) as nat
        }
    }
}

/// Whether one more can be added to every coordinate of `pixels` without
/// leaving `usize`.
pub open spec fn has_room(pixels: Seq<Pixel>) -> bool {
    forall|i: int|
        0 <= i < pixels.len() ==> (#[trigger] pixels[i]).0.0 < usize::MAX && pixels[i].0.1
            < usize::MAX
}

/// `width_of` and `height_of` give the smallest frame that holds every pixel:
/// each pixel lies inside it, and in each direction either the frame is empty
/// or some pixel touches its far edge.
pub proof fn lemma_bounds_are_tight(pixels: Seq<Pixel>)
    ensures
        forall|i: int|
            0 <= i < pixels.len() ==> (#[trigger] pixels[i]).0.0 < width_of(pixels)
                && pixels[i].0.1 < height_of(pixels),
        pixels.len() == 0 ==> width_of(pixels) == 0 && height_of(pixels) == 0,
        pixels.len() > 0 ==> exists|i: int|
            0 <= i < pixels.len() && (#[trigger] pixels[i]).0.0 + 1 == width_of(pixels),
        pixels.len() > 0 ==> exists|i: int|
            0 <= i < pixels.len() && (#[trigger] pixels[i]).0.1 + 1 == height_of(pixels),
    decreases pixels.len(),
{
    if pixels.len() > 0 {
        let front = pixels.drop_last();
        let last = pixels.len() - 1;
        lemma_bounds_are_tight(front);
        assert forall|i: int| 0 <= i < pixels.len() implies (#[trigger] pixels[i]).0.0 < width_of(
            pixels,
        ) && pixels[i].0.1 < height_of(pixels) by {
            if i < last {
                assert(front[i] == pixels[i]);
            }
        }
        if pixels.last().0.0 < width_of(front) {
            let i = choose|i: int|
                0 <= i < front.len() && (#[trigger] front[i]).0.0 + 1 == width_of(front);
            assert(pixels[i] == front[i]);
        } else {
            assert(pixels[last].0.0 + 1 == width_of(pixels));
        }
        if pixels.last().0.1 < height_of(front) {
            let i = choose|i: int|
                0 <= i < front.len() && (#[trigger] front[i]).0.1 + 1 == height_of(front);
            assert(pixels[i] == front[i]);
        } else {
            assert(pixels[last].0.1 + 1 == height_of(pixels));
        }
    }
}

/// The frame depends on which pixels there are, not on their order: two
/// sequences that hold the same pixels, each as often as the other, have the
/// same frame.
pub proof fn lemma_bounds_of_same_pixels(first: Seq<Pixel>, second: Seq<Pixel>)
    requires
        first.to_multiset() == second.to_multiset(),
    ensures
        width_of(first) == width_of(second),
        height_of(first) == height_of(second),
{
    lemma_bounds_are_tight(first);
    lemma_bounds_are_tight(second);
    vstd::seq_lib::to_multiset_len(first);
    vstd::seq_lib::to_multiset_len(second);
    if first.len() > 0 {
        let i = choose|i: int|
            0 <= i < first.len() && (#[trigger] first[i]).0.0 + 1 == width_of(first);
        let j = lemma_occurs_in_both(first, second, i);
        assert(second[j].0.0 < width_of(second));
        let i = choose|i: int|
            0 <= i < second.len() && (#[trigger] second[i]).0.0 + 1 == width_of(second);
        let j = lemma_occurs_in_both(second, first, i);
        assert(first[j].0.0 < width_of(first));
        let i = choose|i: int|
            0 <= i < first.len() && (#[trigger] first[i]).0.1 + 1 == height_of(first);
        let j = lemma_occurs_in_both(first, second, i);
        assert(second[j].0.1 < height_of(second));
        let i = choose|i: int|
            0 <= i < second.len() && (#[trigger] second[i]).0.1 + 1 == height_of(second);
        let j = lemma_occurs_in_both(second, first, i);
        assert(first[j].0.1 < height_of(first));
    }
}

/// A pixel of one sequence can be pointed at in any sequence that holds the
/// same pixels.
pub proof fn lemma_occurs_in_both(first: Seq<Pixel>, second: Seq<Pixel>, i: int) -> (j: int)
    requires
        first.to_multiset() == second.to_multiset(),
        0 <= i < first.len(),
    ensures
        0 <= j < second.len(),
        second[j] == first[i],
{
    vstd::seq_lib::to_multiset_contains(first, first[i]);
    vstd::seq_lib::to_multiset_contains(second, first[i]);
    assert(first.contains(first[i]));
    choose|j: int| 0 <= j < second.len() && second[j] == first[i]
}

/// The frame of a pixel set: in each direction one past the largest
/// coordinate that occurs, and `(0, 0)` for no pixels at all. Every pixel lies
/// inside the frame that is returned, and no smaller frame holds them all.
pub fn calc_bounds(pixels: &[Pixel]) -> (bounds: Coord)
    requires
        has_room(pixels@),
    ensures
        bounds.0 == width_of(pixels@),
        bounds.1 == height_of(pixels@),
        all_inside(pixels@, bounds),
{
    let mut width: usize = 0;
    let mut height: usize = 0;
    let mut i: usize = 0;
    while i < pixels.len()
        invariant
            i <= pixels.len(),
            has_room(pixels@),
            width == width_of(pixels@.take(i as int)),
            height == height_of(pixels@.take(i as int)),
        decreases pixels.len() - i,
    {
        let at: Coord = pixels[i].0;
        proof {
            let next = pixels@.take(i + 1);
            assert(next.drop_last() == pixels@.take(i as int));
            assert(next.last() == pixels@[i as int]);
        }
        if at.0 >= width {
            width = at.0 + 1;
        }
        if at.1 >= height {
            height = at.1 + 1;
        }
        i += 1;
    }
    proof {
        assert(pixels@.take(i as int) == pixels@);
        lemma_bounds_are_tight(pixels@);
    }
    (width, height)
}

/// Whether `image` is what `pixels` become once they have their frame and
/// their order: the frame is the smallest that holds them, and the pixels are
/// sorted by their keys for the width of that frame, those with equal keys in
/// the order in which they came.
pub open spec fn is_transform_of(image: Image, pixels: Seq<Pixel>) -> bool {
    &&& image.bounds.0 == width_of(pixels)
    &&& image.bounds.1 == height_of(pixels)
    &&& is_stable_sort(image.pixels@, pixels, image.bounds.0)
}

/// Builds the image of a set of pixels that have been moved to new
/// positions. The frame is computed anew from the positions, since pixels may
/// have left the old frame or may no longer fill it. The pixels are then put
/// into raster order for the new width, by a stable sort, so that pixels that
/// were moved to the same position both stay, in the order in which they came.
pub fn transform(pixels: &[Pixel]) -> (image: Image)
    requires
        has_room(pixels@),
    ensures
        is_transform_of(image, pixels@),
        image.well_formed(),
        image.is_tight(),
        image.pixels@.to_multiset() == pixels@.to_multiset(),
        image.pixels@.len() == pixels@.len(),
        in_raster_order(pixels@, image.bounds.0) ==> image.pixels@ == pixels@,
{
    let bounds = calc_bounds(pixels);
    let sorted = sort_pixels(pixels, bounds.0);
    let image = Image { bounds, pixels: sorted };
    proof {
        lemma_transform_keeps_pixels(image, pixels@);
    }
    image
}

/// A transform neither loses nor makes up a pixel, and leaves every pixel
/// inside the frame that it computed, which is also the smallest frame of the
/// pixels in their new order.
pub proof fn lemma_transform_keeps_pixels(image: Image, pixels: Seq<Pixel>)
    requires
        is_transform_of(image, pixels),
    ensures
        image.pixels@.to_multiset() == pixels.to_multiset(),
        image.pixels@.len() == pixels.len(),
        image.well_formed(),
        image.is_tight(),
{
    lemma_same_pixels(image.pixels@, pixels, image.bounds.0);
    lemma_bounds_of_same_pixels(image.pixels@, pixels);
    lemma_bounds_are_tight(image.pixels@);
}

/// What a transform returns is fixed by the pixels it is given.
pub proof fn lemma_transform_is_unique(first: Image, second: Image, pixels: Seq<Pixel>)
    requires
        is_transform_of(first, pixels),
        is_transform_of(second, pixels),
    ensures
        first.bounds == second.bounds,
        first.pixels@ == second.pixels@,
{
    lemma_raster_order_is_unique(first.pixels@, second.pixels@, first.bounds.0);
}

/// Transforming the pixels of a transformed image changes nothing any more:
/// they have their frame and their order already.
pub proof fn lemma_transform_settles(once: Image, twice: Image, pixels: Seq<Pixel>)
    requires
        is_transform_of(once, pixels),
        is_transform_of(twice, once.pixels@),
    ensures
        twice.bounds == once.bounds,
        twice.pixels@ == once.pixels@,
{
    lemma_transform_keeps_pixels(once, pixels);
    lemma_sorted_stays(twice.pixels@, once.pixels@, once.bounds.0);
}

} // verus!
