//! Images as raw buffers: three bytes of colour for each pixel, row by row
//! from the top, each row from the left.

use crate::convert::{
    all_inside, height_of, is_transform_of, lemma_bounds_are_tight, width_of, Coord, Image, Pixel,
    RGB,
};
use crate::order::{in_raster_order, raster_key};
use vstd::prelude::*;

verus! {

/// The position of the pixel that comes `index`-th in a frame `width` wide.
pub open spec fn position_of(index: int, width: usize) -> Coord {
    ((index % (width as int)) as usize, (index / (width as int)) as usize)
}

/// The colour that a raw buffer holds for its `index`-th pixel.
pub open spec fn color_at(data: Seq<u8>, index: int) -> RGB {
    (data[3 * index], data[3 * index + 1], data[3 * index + 2])
}

/// The pixels that a raw buffer holds for a frame of size `bounds`.
pub open spec fn raster_of(bounds: Coord, data: Seq<u8>) -> Seq<Pixel> {
    Seq::new(
        (bounds.0 * bounds.1) as nat,
        |index: int| (position_of(index, bounds.0), color_at(data, index)),
    )
}

/// One byte of a colour: 0 for red, 1 for green, anything else for blue.
pub open spec fn channel(color: RGB, which: int) -> u8 {
    if which == 0 {
        color.0
    } else if which == 1 {
        color.1
    } else {
        color.2
    }
}

/// The raw buffer of a sequence of pixels: their colours one after another,
/// whatever their positions.
pub open spec fn colors_of(pixels: Seq<Pixel>) -> Seq<u8> {
    Seq::new(3 * pixels.len(), |at: int| channel(pixels[at / 3].1, at % 3))
}

/// Whether `pixels` fills a frame of size `bounds`: one pixel for each
/// position, in raster order.
pub open spec fn fills(pixels: Seq<Pixel>, bounds: Coord) -> bool {
    &&& pixels.len() == bounds.0 * bounds.1
    &&& forall|index: int|
        0 <= index < pixels.len() ==> (#[trigger] pixels[index]).0 == position_of(index, bounds.0)
}

/// In a frame `width` wide and `height` high, the `index`-th position lies
/// inside the frame and has `index` as its key.
pub proof fn lemma_position_of(index: int, width: usize, height: usize)
    requires
        0 <= index < width * height,
    ensures
        position_of(index, width).0 == index % (width as int),
        position_of(index, width).1 == index / (width as int),
        position_of(index, width).0 < width,
        position_of(index, width).1 < height,
        position_of(index, width).1 * width + position_of(index, width).0 == index,
{
    let w = width as int;
    let h = height as int;
    assert(w > 0) by (nonlinear_arith)
        requires
            0 <= index < w * h,
            w >= 0,
    ;
    vstd::arithmetic::div_mod::lemma_fundamental_div_mod(index, w);
    vstd::arithmetic::div_mod::lemma_mod_bound(index, w);
    assert(0 <= index / w < h) by (nonlinear_arith)
        requires
            0 <= index < w * h,
            w > 0,
            index == w * (index / w) + index % w,
            0 <= index % w < w,
    ;
    assert(w * (index / w) == (index / w) * w) by (nonlinear_arith);
}

/// Pixels that fill a frame lie inside it and are in raster order for its
/// width.
pub proof fn lemma_full_frame(pixels: Seq<Pixel>, bounds: Coord)
    requires
        fills(pixels, bounds),
    ensures
        all_inside(pixels, bounds),
        in_raster_order(pixels, bounds.0),
{
    assert forall|i: int| 0 <= i < pixels.len() implies (#[trigger] pixels[i]).0.0 < bounds.0
        && pixels[i].0.1 < bounds.1 && raster_key(pixels[i], bounds.0) == i by {
        lemma_position_of(i, bounds.0, bounds.1);
    }
    assert forall|i: int, j: int| 0 <= i <= j < pixels.len() implies raster_key(
        #[trigger] pixels[i],
        bounds.0,
    ) <= raster_key(#[trigger] pixels[j], bounds.0) by {
        assert(raster_key(pixels[i], bounds.0) == i);
        assert(raster_key(pixels[j], bounds.0) == j);
    }
}

/// An image that fills a frame of at least one position is settled: its
/// frame is the smallest that holds its pixels, and its pixels have their
/// order, so that it is what its own pixels transform to.
pub proof fn lemma_full_frame_is_settled(image: Image)
    requires
        fills(image.pixels@, image.bounds),
        image.bounds.0 > 0,
        image.bounds.1 > 0,
    ensures
        is_transform_of(image, image.pixels@),
{
    let pixels = image.pixels@;
    let w = image.bounds.0 as int;
    let h = image.bounds.1 as int;
    lemma_full_frame(pixels, image.bounds);
    lemma_bounds_are_tight(pixels);
    let last = w * h - 1;
    assert(0 <= w - 1 <= last) by (nonlinear_arith)
        requires
            w > 0,
            h > 0,
            last == w * h - 1,
    ;
    lemma_position_of(w - 1, image.bounds.0, image.bounds.1);
    lemma_position_of(last, image.bounds.0, image.bounds.1);
    let x = position_of(w - 1, image.bounds.0).0 as int;
    let y = position_of(w - 1, image.bounds.0).1 as int;
    assert(x == w - 1) by (nonlinear_arith)
        requires
            y * w + x == w - 1,
            0 <= x < w,
            0 <= y,
    ;
    let x = position_of(last, image.bounds.0).0 as int;
    let y = position_of(last, image.bounds.0).1 as int;
    assert(y == h - 1) by (nonlinear_arith)
        requires
            y * w + x == w * h - 1,
            0 <= x < w,
            0 <= y < h,
    ;
    assert(pixels[w - 1].0.0 < width_of(pixels));
    assert(pixels[last].0.1 < height_of(pixels));
    let i = choose|i: int|
        0 <= i < pixels.len() && (#[trigger] pixels[i]).0.0 + 1 == width_of(pixels);
    assert(pixels[i].0.0 < w);
    let j = choose|j: int|
        0 <= j < pixels.len() && (#[trigger] pixels[j]).0.1 + 1 == height_of(pixels);
    assert(pixels[j].0.1 < h);
}

/// Reads an image out of a raw buffer for a frame of size `bounds`
/// (`(width, height)`). The buffer must hold exactly one colour for each
/// position of the frame; any other length is refused. A frame without width
/// or height holds no pixel and is read from the empty buffer.
///
/// The pixel that comes `i`-th gets the position `(i % width, i / width)` and
/// the colour in the bytes `3 * i`, `3 * i + 1` and `3 * i + 2`.
pub fn read_image(bounds: &Coord, data: &[u8]) -> (image: Option<Image>)
    ensures
        image.is_some() <==> data@.len() == 3 * (bounds.0 * bounds.1),
        image matches Some(read) ==> {
            &&& read.bounds == *bounds
            &&& read.pixels@ == raster_of(*bounds, data@)
            &&& fills(read.pixels@, *bounds)
            &&& read.well_formed()
            &&& in_raster_order(read.pixels@, bounds.0)
        },
{
    let width: usize = bounds.0;
    let height: usize = bounds.1;
    let length: usize = data.len();
    let count: usize = match width.checked_mul(height) {
        Some(count) => count,
        None => {
            return None;
        },
    };
    match count.checked_mul(3) {
        Some(expected) => {
            if expected != length {
                return None;
            }
        },
        None => {
            return None;
        },
    }
    let mut pixels: Vec<Pixel> = Vec::new();
    let mut index: usize = 0;
    while index < count
        invariant
            index <= count,
            count == width * height,
            data@.len() == 3 * count,
            3 * count <= usize::MAX,
            width == bounds.0,
            height == bounds.1,
            pixels@ == raster_of(*bounds, data@).take(index as int),
        decreases count - index,
    {
        proof {
            lemma_position_of(index as int, width, height);
        }
        let at: Coord = (index % width, index / width);
        let color: RGB = (data[3 * index], data[3 * index + 1], data[3 * index + 2]);
        pixels.push((at, color));
        index += 1;
        assert(pixels@ == raster_of(*bounds, data@).take(index as int));
    }
    proof {
        assert(pixels@ == raster_of(*bounds, data@));
        lemma_full_frame(pixels@, *bounds);
    }
    Some(Image { bounds: *bounds, pixels })
}

/// Writes the pixels of an image out as a raw buffer: the three bytes of
/// each colour, pixel after pixel in the order in which the image holds them.
pub fn write_image(image: &Image) -> (data: Vec<u8>)
    ensures
        data@ == colors_of(image.pixels@),
{
    let mut data: Vec<u8> = Vec::new();
    let mut index: usize = 0;
    while index < image.pixels.len()
        invariant
            index <= image.pixels.len(),
            data@ == colors_of(image.pixels@.take(index as int)),
        decreases image.pixels.len() - index,
    {
        let color: RGB = image.pixels[index].1;
        let ghost before = data@;
        data.push(color.0);
        data.push(color.1);
        data.push(color.2);
        index += 1;
        proof {
            let now = image.pixels@.take(index as int);
            let earlier = image.pixels@.take(index - 1);
            assert forall|at: int| 0 <= at < data@.len() implies data@[at] == colors_of(
                now,
            )[at] by {
                if at < before.len() {
                    assert(earlier[at / 3] == now[at / 3]);
                }
            }
            assert(data@ == colors_of(now));
        }
    }
    proof {
        assert(image.pixels@.take(index as int) == image.pixels@);
    }
    data
}

/// Writing out what was read gives the buffer back.
pub proof fn lemma_read_then_write(bounds: Coord, data: Seq<u8>)
    requires
        data.len() == 3 * (bounds.0 * bounds.1),
    ensures
        colors_of(raster_of(bounds, data)) == data,
{
    let pixels = raster_of(bounds, data);
    assert forall|at: int| 0 <= at < data.len() implies colors_of(pixels)[at] == data[at] by {
        let index = at / 3;
        assert(pixels[index].1 == color_at(data, index));
    }
    assert(colors_of(pixels) =~= data);
}

/// Reading what was written gives the pixels back, where they fill the
/// frame.
pub proof fn lemma_write_then_read(pixels: Seq<Pixel>, bounds: Coord)
    requires
        fills(pixels, bounds),
    ensures
        colors_of(pixels).len() == 3 * (bounds.0 * bounds.1),
        raster_of(bounds, colors_of(pixels)) == pixels,
{
    let data = colors_of(pixels);
    let read = raster_of(bounds, data);
    assert forall|index: int| 0 <= index < pixels.len() implies read[index] == pixels[index] by {
        assert((3 * index) / 3 == index && (3 * index + 1) / 3 == index && (3 * index + 2) / 3
            == index);
        assert(color_at(data, index) == pixels[index].1);
    }
    assert(read =~= pixels);
}

} // verus!
