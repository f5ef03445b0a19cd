//! Raster order: the key by which pixels are ordered, the comparison of two
//! pixels by it, and what it means that a sequence of pixels is sorted.
//!
//! A sort is stable when pixels with equal keys keep the order in which they
//! came. This is stated key by key: for every key, the pixels that carry it
//! form the same sequence before and after.

use crate::convert::Pixel;
use std::cmp::Ordering;
use vstd::prelude::*;

verus! {

/// The key of a pixel in a frame `width` wide: the rows above it, counted in
/// full, and then its column.
pub open spec fn raster_key(pixel: Pixel, width: usize) -> int {
    pixel.0.1 * width + pixel.0.0
}

/// The test "this pixel has the key `key`".
pub open spec fn has_key(width: usize, key: int) -> spec_fn(Pixel) -> bool {
    |pixel: Pixel| raster_key(pixel, width) == key
}

/// The pixels of `pixels` that have the key `key`, in the order in which they
/// stand in `pixels`.
pub open spec fn keyed(pixels: Seq<Pixel>, width: usize, key: int) -> Seq<Pixel> {
    pixels.filter(has_key(width, key))
}

/// Whether the keys of `pixels` never fall from one pixel to a later one.
pub open spec fn in_raster_order(pixels: Seq<Pixel>, width: usize) -> bool {
    forall|i: int, j: int|
        0 <= i <= j < pixels.len() ==> raster_key(#[trigger] pixels[i], width) <= raster_key(
            #[trigger] pixels[j],
            width,
        )
}

/// Whether `sorted` holds the pixels of `pixels` in raster order, those with
/// equal keys in the order they have in `pixels`.
pub open spec fn is_stable_sort(sorted: Seq<Pixel>, pixels: Seq<Pixel>, width: usize) -> bool {
    &&& in_raster_order(sorted, width)
    &&& forall|key: int| #[trigger] keyed(sorted, width, key) == keyed(pixels, width, key)
}

/// The key of a pixel, computed in 128 bits so that no frame width makes it
/// overflow.
pub fn key_of(pixel: &Pixel, width: usize) -> (key: u128)
    ensures
        key == raster_key(*pixel, width),
{
    let row: u128 = pixel.0.1 as u128;
    let span: u128 = width as u128;
    let column: u128 = pixel.0.0 as u128;
    assert(row * span + column <= u128::MAX) by (nonlinear_arith)
        requires
            row <= 0xffff_ffff_ffff_ffff,
            span <= 0xffff_ffff_ffff_ffff,
            column <= 0xffff_ffff_ffff_ffff,
    ;
    row * span + column
}

/// Compares two pixels by their keys in a frame `width` wide.
pub fn compare(first: &Pixel, second: &Pixel, width: usize) -> (order: Ordering)
    ensures
        match order {
            Ordering::Less => raster_key(*first, width) < raster_key(*second, width),
            Ordering::Equal => raster_key(*first, width) == raster_key(*second, width),
            Ordering::Greater => raster_key(*first, width) > raster_key(*second, width),
        },
{
    let first_key: u128 = key_of(first, width);
    let second_key: u128 = key_of(second, width);
    if first_key < second_key {
        Ordering::Less
    } else if first_key == second_key {
        Ordering::Equal
    } else {
        Ordering::Greater
    }
}

/// Whether `first` may stand before `second` in raster order: its key is
/// not the larger one.
pub fn may_precede(first: &Pixel, second: &Pixel, width: usize) -> (fine: bool)
    ensures
        fine == (raster_key(*first, width) <= raster_key(*second, width)),
{
    match compare(first, second, width) {
        Ordering::Greater => false,
        _ => true,
    }
}

/// Among pixels whose columns lie inside a frame `width` wide, the key orders
/// by row first and by column within a row, and only pixels at one position
/// have one key.
pub proof fn lemma_key_orders_positions(first: Pixel, second: Pixel, width: usize)
    requires
        first.0.0 < width,
        second.0.0 < width,
    ensures
        raster_key(first, width) < raster_key(second, width) <==> first.0.1 < second.0.1 || (
        first.0.1 == second.0.1 && first.0.0 < second.0.0),
        raster_key(first, width) == raster_key(second, width) <==> first.0 == second.0,
{
    let w = width as int;
    let (x1, y1) = (first.0.0 as int, first.0.1 as int);
    let (x2, y2) = (second.0.0 as int, second.0.1 as int);
    assert(y1 < y2 ==> y1 * w + x1 < y2 * w + x2) by (nonlinear_arith)
        requires
            0 <= x1 < w,
            0 <= x2 < w,
    ;
    assert(y2 < y1 ==> y2 * w + x2 < y1 * w + x1) by (nonlinear_arith)
        requires
            0 <= x1 < w,
            0 <= x2 < w,
    ;
}

} // verus!
