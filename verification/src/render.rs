//! The integer side of an escape-time rendering: the positions at which the
//! escape time is to be found, the count of the steps that a point stays, the
//! colour that stands for an escape time, and the image that is put together
//! from the escape times of a whole frame.
//!
//! The escape time of a point is the index of the first step of the
//! iteration after which the point lies outside the unit disk. Steps are
//! counted from 0 to 255; a point that is still inside after the step 255 has
//! the escape time 255. Whether a point is inside after a step is for the
//! caller to find out; what follows from the answer is decided here.

use crate::convert::{Coord, Image, Pixel, RGB};
use crate::order::in_raster_order;
use crate::raster::{fills, lemma_full_frame, lemma_position_of, position_of};
use vstd::prelude::*;

verus! {

/// The colour that stands for an escape time. In grey all three bytes are
/// the escape time itself. In colour, red is the escape time, green twice and
/// blue three times the escape time, each modulo 256.
pub open spec fn shade_of(level: u8, colored: bool) -> RGB {
    if colored {
        (level, ((2 * level) % 256) as u8, ((3 * level) % 256) as u8)
    } else {
        (level, level, level)
    }
}

/// The positions of a frame of size `bounds`, row by row from the top, each
/// row from the left.
pub open spec fn positions_of(bounds: Coord) -> Seq<Coord> {
    Seq::new((bounds.0 * bounds.1) as nat, |index: int| position_of(index, bounds.0))
}

/// The pixels of a rendering: the `index`-th position of the frame with the
/// colour of the `index`-th escape time.
pub open spec fn rendering_of(bounds: Coord, levels: Seq<u8>, colored: bool) -> Seq<Pixel> {
    Seq::new(
        (bounds.0 * bounds.1) as nat,
        |index: int| (position_of(index, bounds.0), shade_of(levels[index], colored)),
    )
}

/// What is known of a point while its steps are counted.
#[derive(Clone, Copy, Debug, PartialEq, Eq, Structural)]
pub enum Escape {
    /// The point has stayed inside so far, and the step with this index is
    /// the next to take.
    Pending(u8),
    /// The point has this escape time.
    Known(u8),
}

/// What is known after the step `step`, where `stayed` says whether the
/// point lay inside the unit disk after it.
pub open spec fn after_step(step: u8, stayed: bool) -> Escape {
    if !stayed {
        Escape::Known(step)
    } else if step < 255 {
        Escape::Pending((step + 1) as u8)
    } else {
        Escape::Known(255)
    }
}

/// The escape time that counting arrives at from the step `step` on, where
/// `stayed[i]` says whether the point lay inside the unit disk after the step
/// `i`.
pub open spec fn escape_from(stayed: Seq<bool>, step: u8) -> u8
    decreases 255 - step,
{
    if stayed[step as int] && step < 255 {
        escape_from(stayed, (step + 1) as u8)
    } else {
        step
    }
}

/// Counting from the step `step` on ends at the first later step after which
/// the point lies outside, and at 255 where there is none.
pub proof fn lemma_escape_from(stayed: Seq<bool>, step: u8)
    ensures
        step <= escape_from(stayed, step),
        forall|i: int| step <= i < escape_from(stayed, step) ==> stayed[i],
        escape_from(stayed, step) < 255 ==> !stayed[escape_from(stayed, step) as int],
    decreases 255 - step,
{
    if stayed[step as int] && step < 255 {
        lemma_escape_from(stayed, (step + 1) as u8);
    }
}

/// The escape time is the index of the first step after which the point lies
/// outside the unit disk: the point lies inside after every earlier step.
/// It is 255 for a point that never leaves in 256 steps.
pub proof fn lemma_escape_time(stayed: Seq<bool>)
    ensures
        forall|i: int| 0 <= i < escape_from(stayed, 0) ==> stayed[i],
        escape_from(stayed, 0) < 255 ==> !stayed[escape_from(stayed, 0) as int],
        (forall|i: int| 0 <= i < 256 ==> stayed[i]) ==> escape_from(stayed, 0) == 255,
{
    lemma_escape_from(stayed, 0);
}

/// One step of counting links to the rest: where the step leaves the escape
/// time open, counting goes on from the next step, and where it does not, the
/// escape time is the one that counting from this step arrives at.
pub proof fn lemma_after_step(stayed: Seq<bool>, step: u8)
    ensures
        match after_step(step, stayed[step as int]) {
            Escape::Pending(next) => next == step + 1 && escape_from(stayed, step) == escape_from(
                stayed,
                next,
            ),
            Escape::Known(time) => escape_from(stayed, step) == time,
        },
{
}

/// Decides what follows from one step of the iteration: `step` is the index
/// of the step that was taken, and `stayed` says whether the point lay inside
/// the unit disk after it. A point that left has the index of the step as its
/// escape time. A point that stayed goes on to the next step, up to the step
/// 255, after which it has the escape time 255.
pub fn advance(step: u8, stayed: bool) -> (next: Escape)
    ensures
        next == after_step(step, stayed),
{
    if !stayed {
        Escape::Known(step)
    } else if step < 255 {
        Escape::Pending(step + 1)
    } else {
        Escape::Known(255)
    }
}

/// Computes the colour that stands for an escape time.
pub fn shade(level: u8, colored: bool) -> (color: RGB)
    ensures
        color == shade_of(level, colored),
{
    if colored {
        let wide: u32 = level as u32;
        (level, ((2 * wide) % 256) as u8, ((3 * wide) % 256) as u8)
    } else {
        (level, level, level)
    }
}

/// Lists the positions of a frame in raster order. There is no list where
/// the number of positions does not fit in `usize`.
pub fn grid(bounds: &Coord) -> (positions: Option<Vec<Coord>>)
    ensures
        positions.is_some() <==> bounds.0 * bounds.1 <= usize::MAX,
        positions matches Some(list) ==> list@ == positions_of(*bounds),
{
    let width: usize = bounds.0;
    let height: usize = bounds.1;
    let count: usize = match width.checked_mul(height) {
        Some(count) => count,
        None => {
            return None;
        },
    };
    let mut list: Vec<Coord> = Vec::new();
    let mut index: usize = 0;
    while index < count
        invariant
            index <= count,
            count == width * height,
            width == bounds.0,
            height == bounds.1,
            list@ == positions_of(*bounds).take(index as int),
        decreases count - index,
    {
        proof {
            lemma_position_of(index as int, width, height);
        }
        list.push((index % width, index / width));
        index += 1;
        assert(list@ == positions_of(*bounds).take(index as int));
    }
    assert(list@ == positions_of(*bounds));
    Some(list)
}

/// Puts the image of a rendering together from the escape times of a frame
/// of size `bounds`, given in raster order. There must be exactly one escape
/// time for each position of the frame; any other number is refused.
pub fn assemble(bounds: &Coord, levels: &[u8], colored: bool) -> (image: Option<Image>)
    ensures
        image.is_some() <==> levels@.len() == bounds.0 * bounds.1,
        image matches Some(made) ==> {
            &&& made.bounds == *bounds
            &&& made.pixels@ == rendering_of(*bounds, levels@, colored)
            &&& fills(made.pixels@, *bounds)
            &&& made.well_formed()
            &&& in_raster_order(made.pixels@, bounds.0)
        },
{
    let width: usize = bounds.0;
    let height: usize = bounds.1;
    let count: usize = levels.len();
    match width.checked_mul(height) {
        Some(expected) => {
            if expected != count {
                return None;
            }
        },
        None => {
            return None;
        },
    }
    let mut pixels: Vec<Pixel> = Vec::new();
    let mut index: usize = 0;
    while index < count
        invariant
            index <= count,
            count == width * height,
            count == levels@.len(),
            width == bounds.0,
            height == bounds.1,
            pixels@ == rendering_of(*bounds, levels@, colored).take(index as int),
        decreases count - index,
    {
        proof {
            lemma_position_of(index as int, width, height);
        }
        let at: Coord = (index % width, index / width);
        pixels.push((at, shade(levels[index], colored)));
        index += 1;
        assert(pixels@ == rendering_of(*bounds, levels@, colored).take(index as int));
    }
    proof {
        assert(pixels@ == rendering_of(*bounds, levels@, colored));
        lemma_full_frame(pixels@, *bounds);
    }
    Some(Image { bounds: *bounds, pixels })
}

} // verus!
