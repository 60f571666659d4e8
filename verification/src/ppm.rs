//! The plain-text PPM format: the text that writes an image, and what a
//! byte string decodes to.

use crate::color::Color;
use crate::grid::Grid;
use crate::text::{decimal, find, parse_number, split, CR, LF, SPACE};
use vstd::prelude::*;

verus! {

/// Why a byte string is no image.
#[derive(Clone, Copy, Debug, PartialEq, Eq, Structural)]
pub enum DecodeError {
    /// The first line is not the magic marker `P3`.
    BadMagic,
    /// The second line is not two numbers separated by one space.
    BadDimensions,
    /// The third line is not `255`, the only channel depth supported.
    UnsupportedDepth,
    /// Width times height is more than a buffer can hold.
    TooLarge { width: usize, height: usize },
    /// The pixel line with this index (from zero) is not three numbers of
    /// at most 255 separated by single spaces.
    BadPixelLine { line: usize },
    /// The input ends before the announced number of pixels.
    TooFewPixels { expected: usize, found: usize },
    /// The input goes on after the announced number of pixels.
    TooManyPixels { expected: usize },
}

/// The largest value of a channel.
pub const DEPTH: u8 = 255;

/// The magic line: the letter `P`, the digit `3`, a line feed.
pub open spec fn magic_line() -> Seq<u8> {
    seq![0x50u8, 0x33u8, LF]
}

/// The depth line: the largest value of a channel in decimal, a line feed.
pub open spec fn depth_line() -> Seq<u8> {
    decimal(DEPTH as nat).push(LF)
}

/// A line without the carriage return that may end it.
pub open spec fn without_cr(line: Seq<u8>) -> Seq<u8> {
    if line.len() > 0 && line.last() == CR {
        line.drop_last()
    } else {
        line
    }
}

/// The lines of `s`. A line ends at a line feed; a carriage return just
/// before that line feed is no part of the line. What follows the last line
/// feed is a line too, unless it is empty.
pub open spec fn lines(s: Seq<u8>) -> Seq<Seq<u8>>
    decreases s.len(),
{
    if s.len() == 0 {
        Seq::empty()
    } else {
        let k = find(s, LF);
        if k >= s.len() {
            seq![s]
        } else {
            seq![without_cr(s.take(k as int))] + lines(s.skip(k as int + 1))
        }
    }
}

/// The numbers of a line, if the line is exactly `count` numbers of at most
/// `max` separated by single spaces.
pub open spec fn parse_fields(line: Seq<u8>, count: nat, max: nat) -> Option<Seq<nat>> {
    let tokens = split(line, SPACE);
    if tokens.len() == count && forall|i: int|
        0 <= i < tokens.len() ==> parse_number(#[trigger] tokens[i], max) is Some {
        Some(Seq::new(count, |i: int| parse_number(tokens[i], max).unwrap()))
    } else {
        None
    }
}

/// Width and height, if the line gives them.
pub open spec fn parse_dimensions(line: Seq<u8>) -> Option<(nat, nat)> {
    match parse_fields(line, 2, usize::MAX as nat) {
        Some(v) => Some((v[0], v[1])),
        None => None,
    }
}

/// The color, if the line gives its red, green and blue channels.
pub open spec fn parse_pixel(line: Seq<u8>) -> Option<Color> {
    match parse_fields(line, 3, DEPTH as nat) {
        Some(v) => Some(Color(v[0] as u8, v[1] as u8, v[2] as u8)),
        None => None,
    }
}

/// The line of a pixel, without its line feed: the three channels in
/// decimal, separated by single spaces.
pub open spec fn pixel_text(color: Color) -> Seq<u8> {
    decimal(color.0 as nat) + seq![SPACE] + decimal(color.1 as nat) + seq![SPACE] + decimal(
        color.2 as nat,
    )
}

/// The line of a pixel, with its line feed.
pub open spec fn pixel_line(color: Color) -> Seq<u8> {
    pixel_text(color).push(LF)
}

/// The dimensions line, without its line feed: width and height in
/// decimal, separated by a single space.
pub open spec fn dimensions_text(width: nat, height: nat) -> Seq<u8> {
    decimal(width) + seq![SPACE] + decimal(height)
}

/// The three header lines of an image of the given dimensions.
pub open spec fn header(width: nat, height: nat) -> Seq<u8> {
    magic_line() + dimensions_text(width, height).push(LF) + depth_line()
}

/// The pixel lines of an image, one per pixel in row-major order.
pub open spec fn body(pixels: Seq<Color>) -> Seq<u8> {
    pixels.map_values(|color: Color| pixel_line(color)).flatten()
}

/// The text of an image: the header, then the pixel lines.
pub open spec fn encoding(g: Grid) -> Seq<u8> {
    header(g.width, g.height) + body(g.pixels)
}

/// Index of the first line that gives no color, or `lines.len()` where
/// every line gives one.
pub open spec fn first_malformed(lines: Seq<Seq<u8>>) -> nat
    decreases lines.len(),
{
    if lines.len() == 0 || parse_pixel(lines[0]) is None {
        0
    } else {
        1 + first_malformed(lines.drop_first())
    }
}

/// What the pixel lines of an image of `expected` pixels decode to. The
/// lines are taken in order: a line beyond the announced number is an
/// excess, whatever it holds; a line that gives no color, before that, is
/// malformed; and an end before the announced number is a truncation.
pub open spec fn decode_body(lines: Seq<Seq<u8>>, expected: nat) -> Result<
    Seq<Color>,
    DecodeError,
> {
    let bad = first_malformed(lines);
    if bad < lines.len() && bad < expected {
        Err(DecodeError::BadPixelLine { line: bad as usize })
    } else if lines.len() > expected {
        Err(DecodeError::TooManyPixels { expected: expected as usize })
    } else if lines.len() < expected {
        Err(DecodeError::TooFewPixels { expected: expected as usize, found: lines.len() as usize })
    } else {
        Ok(Seq::new(lines.len(), |i: int| parse_pixel(lines[i]).unwrap()))
    }
}

/// What a byte string decodes to: the image that it writes, or the first
/// reason why it writes none. The magic line, the dimensions line and the
/// depth line each end with a line feed; the pixel lines follow.
pub open spec fn decoding(bytes: Seq<u8>) -> Result<Grid, DecodeError> {
    if !magic_line().is_prefix_of(bytes) {
        Err(DecodeError::BadMagic)
    } else {
        let after_magic = bytes.skip(magic_line().len() as int);
        let end = find(after_magic, LF);
        if end >= after_magic.len() {
            Err(DecodeError::BadDimensions)
        } else {
            match parse_dimensions(after_magic.take(end as int)) {
                None => Err(DecodeError::BadDimensions),
                Some((width, height)) => {
                    let after_dimensions = after_magic.skip(end as int + 1);
                    if !depth_line().is_prefix_of(after_dimensions) {
                        Err(DecodeError::UnsupportedDepth)
                    } else if width * height > usize::MAX {
                        Err(
                            DecodeError::TooLarge {
                                width: width as usize,
                                height: height as usize,
                            },
                        )
                    } else {
                        let body = after_dimensions.skip(depth_line().len() as int);
                        match decode_body(lines(body), width * height) {
                            Ok(pixels) => Ok(Grid { width, height, pixels }),
                            Err(e) => Err(e),
                        }
                    }
                },
            }
        }
    }
}

/// `first_malformed` gives an index of `lines` or its length; every earlier
/// line gives a color, and the line there, if any, gives none.
pub proof fn lemma_first_malformed(lines: Seq<Seq<u8>>)
    ensures
        first_malformed(lines) <= lines.len(),
        forall|j: int| 0 <= j < first_malformed(lines) ==> parse_pixel(#[trigger] lines[j]) is Some,
        first_malformed(lines) < lines.len() ==> parse_pixel(
            lines[first_malformed(lines) as int],
        ) is None,
    decreases lines.len(),
{
    if lines.len() == 0 || parse_pixel(lines[0]) is None {
    } else {
        let rest = lines.drop_first();
        lemma_first_malformed(rest);
        assert forall|j: int| 0 <= j < first_malformed(lines) implies parse_pixel(
            #[trigger] lines[j],
        ) is Some by {
            if j > 0 {
                assert(lines[j] == rest[j - 1]);
            }
        }
    }
}

/// The depth line is the digits `2`, `5`, `5` and a line feed.
pub proof fn lemma_depth_line()
    ensures
        depth_line() == seq![0x32u8, 0x35u8, 0x35u8, LF],
{
    reveal_with_fuel(decimal, 3);
    assert(depth_line() =~= seq![0x32u8, 0x35u8, 0x35u8, LF]);
}

} // verus!
