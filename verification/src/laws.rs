//! What holds of the buffer and of the codec, whatever the image.

use crate::color::Color;
use crate::grid::{
    lemma_in_bounds_is_inside_sequence, lemma_offset_splits, lemma_position_splits, Grid,
};
use crate::ppm::{
    body, decode_body, decoding, depth_line, dimensions_text, encoding, first_malformed,
    lemma_depth_line, lemma_first_malformed, lines, magic_line, parse_dimensions, parse_fields,
    parse_pixel, pixel_line, pixel_text, without_cr, DecodeError, DEPTH,
};
use crate::text::{
    decimal, find, lemma_decimal, lemma_find_is, lemma_split_first, lemma_split_one, parse_number,
    split, LF, SPACE,
};
use vstd::prelude::*;

verus! {

/// A coordinate designates a pixel exactly when its column is below the
/// width and its row below the height: at or beyond either edge it
/// designates none, whatever its position in the sequence would be.
pub proof fn lemma_in_bounds_is_inside_rectangle(g: Grid, x: int, y: int)
    ensures
        (0 <= x < g.width && 0 <= y < g.height) ==> g.in_bounds(x, y),
        (x >= g.width || y >= g.height) ==> !g.in_bounds(x, y),
{
}

/// No coordinate reaches into another row: two coordinates of the grid
/// with the same position in the sequence are the same coordinate.
pub proof fn lemma_no_wraparound(g: Grid, x1: int, y1: int, x2: int, y2: int)
    requires
        g.in_bounds(x1, y1),
        g.in_bounds(x2, y2),
        g.offset(x1, y1) == g.offset(x2, y2),
    ensures
        x1 == x2,
        y1 == y2,
{
    lemma_offset_splits(g.width as int, x1, y1);
    lemma_offset_splits(g.width as int, x2, y2);
}

/// The scan of a grid is complete and in row-major order: it has one triple
/// per cell; the cell `(x, y)` appears at position `y * width + x` with its
/// color; every triple is a cell of the grid and appears at that cell's
/// position only; and along the scan rows never decrease, and columns
/// increase within a row.
pub proof fn lemma_triples_complete(g: Grid)
    requires
        g.wf(),
    ensures
        g.triples().len() == g.width * g.height,
        forall|x: int, y: int|
            0 <= x < g.width && 0 <= y < g.height ==> 0 <= #[trigger] g.offset(x, y)
                < g.triples().len() && g.triples()[g.offset(x, y)] == (
                x as nat,
                y as nat,
                g.at(x, y),
            ),
        forall|i: int|
            0 <= i < g.triples().len() ==> {
                let t = #[trigger] g.triples()[i];
                t.0 < g.width && t.1 < g.height && g.offset(t.0 as int, t.1 as int) == i
            },
        forall|i: int, j: int|
            0 <= i < j < g.triples().len() ==> {
                let a = #[trigger] g.triples()[i];
                let b = #[trigger] g.triples()[j];
                a.1 < b.1 || (a.1 == b.1 && a.0 < b.0)
            },
{
    let w = g.width as int;
    let h = g.height as int;
    assert forall|x: int, y: int| 0 <= x < g.width && 0 <= y < g.height implies 0
        <= #[trigger] g.offset(x, y) < g.triples().len() && g.triples()[g.offset(x, y)] == (
        x as nat,
        y as nat,
        g.at(x, y),
    ) by {
        lemma_in_bounds_is_inside_sequence(g, x, y);
        lemma_offset_splits(w, x, y);
    }
    assert forall|i: int| 0 <= i < g.triples().len() implies {
        let t = #[trigger] g.triples()[i];
        t.0 < g.width && t.1 < g.height && g.offset(t.0 as int, t.1 as int) == i
    } by {
        lemma_position_splits(w, h, i);
    }
    assert forall|i: int, j: int| 0 <= i < j < g.triples().len() implies {
        let a = #[trigger] g.triples()[i];
        let b = #[trigger] g.triples()[j];
        a.1 < b.1 || (a.1 == b.1 && a.0 < b.0)
    } by {
        lemma_position_splits(w, h, i);
        lemma_position_splits(w, h, j);
        let (qi, qj) = (i / w, j / w);
        assert(qi <= qj) by (nonlinear_arith)
            requires
                0 < w,
                i < j,
                i == qi * w + i % w,
                j == qj * w + j % w,
                0 <= i % w < w,
                0 <= j % w < w,
        ;
    }
}

/// The line of a pixel gives back the pixel. It holds no line feed and does
/// not end with a carriage return.
pub proof fn lemma_pixel_text(color: Color)
    ensures
        parse_pixel(pixel_text(color)) == Some(color),
        forall|j: int| 0 <= j < pixel_text(color).len() ==> pixel_text(color)[j] != LF,
        without_cr(pixel_text(color)) == pixel_text(color),
{
    let (r, g, b) = (decimal(color.0 as nat), decimal(color.1 as nat), decimal(color.2 as nat));
    let text = pixel_text(color);
    lemma_decimal(color.0 as nat);
    lemma_decimal(color.1 as nat);
    lemma_decimal(color.2 as nat);
    assert(text =~= r + seq![SPACE] + (g + seq![SPACE] + b));
    lemma_split_first(r, SPACE, g + seq![SPACE] + b);
    lemma_split_first(g, SPACE, b);
    lemma_split_one(b, SPACE);
    let tokens = split(text, SPACE);
    assert(tokens =~= seq![r, g, b]);
    assert(parse_number(r, DEPTH as nat) == Some(color.0 as nat));
    assert(parse_number(g, DEPTH as nat) == Some(color.1 as nat));
    assert(parse_number(b, DEPTH as nat) == Some(color.2 as nat));
    let fields = parse_fields(text, 3, DEPTH as nat);
    assert(fields is Some);
    assert(fields.unwrap()[0] == color.0);
    assert(fields.unwrap()[1] == color.1);
    assert(fields.unwrap()[2] == color.2);
    assert(text.last() == b.last());
}

/// The lines of the pixel lines of an image are the lines of its pixels.
pub proof fn lemma_lines_of_body(pixels: Seq<Color>)
    ensures
        lines(body(pixels)) == pixels.map_values(|color: Color| pixel_text(color)),
    decreases pixels.len(),
{
    let texts = pixels.map_values(|color: Color| pixel_text(color));
    let pixel_lines = pixels.map_values(|color: Color| pixel_line(color));
    if pixels.len() == 0 {
        assert(lines(body(pixels)) =~= texts);
    } else {
        let rest = pixels.drop_first();
        let text = pixel_text(pixels[0]);
        lemma_lines_of_body(rest);
        lemma_pixel_text(pixels[0]);
        assert(pixel_lines.drop_first() =~= rest.map_values(|color: Color| pixel_line(color)));
        let s = body(pixels);
        assert(s =~= text + seq![LF] + body(rest));
        lemma_find_is(s, LF, text.len() as int);
        assert(s.take(text.len() as int) =~= text);
        assert(s.skip(text.len() as int + 1) =~= body(rest));
        assert(lines(s) =~= seq![text] + lines(body(rest)));
        assert(lines(s) =~= texts);
    }
}

/// The dimensions line gives back the dimensions, and holds no line feed.
pub proof fn lemma_dimensions_text(width: nat, height: nat)
    requires
        width <= usize::MAX,
        height <= usize::MAX,
    ensures
        parse_dimensions(dimensions_text(width, height)) == Some((width, height)),
        forall|j: int|
            0 <= j < dimensions_text(width, height).len() ==> dimensions_text(width, height)[j]
                != LF,
{
    let (w, h) = (decimal(width), decimal(height));
    let text = dimensions_text(width, height);
    lemma_decimal(width);
    lemma_decimal(height);
    lemma_split_first(w, SPACE, h);
    lemma_split_one(h, SPACE);
    let tokens = split(text, SPACE);
    assert(tokens =~= seq![w, h]);
    assert(parse_number(w, usize::MAX as nat) == Some(width));
    assert(parse_number(h, usize::MAX as nat) == Some(height));
    let fields = parse_fields(text, 2, usize::MAX as nat);
    assert(fields is Some);
    assert(fields.unwrap()[0] == width);
    assert(fields.unwrap()[1] == height);
}

/// The pixel lines of an image decode to its pixels.
pub proof fn lemma_body_decodes(pixels: Seq<Color>)
    ensures
        decode_body(lines(body(pixels)), pixels.len()) == Ok::<Seq<Color>, DecodeError>(pixels),
{
    let all = lines(body(pixels));
    lemma_lines_of_body(pixels);
    assert forall|j: int| 0 <= j < all.len() implies parse_pixel(#[trigger] all[j]) == Some(
        pixels[j],
    ) by {
        lemma_pixel_text(pixels[j]);
    }
    lemma_first_malformed(all);
    assert(first_malformed(all) == all.len());
    assert(Seq::new(all.len(), |i: int| parse_pixel(all[i]).unwrap()) =~= pixels);
}

/// Decoding undoes encoding: the text of a well-formed image decodes to
/// that image.
pub proof fn lemma_decode_encode(g: Grid)
    requires
        g.wf(),
    ensures
        decoding(encoding(g)) == Ok::<Grid, DecodeError>(g),
{
    let text = encoding(g);
    let dimensions = dimensions_text(g.width, g.height);
    let tail = depth_line() + body(g.pixels);
    let after_magic = text.skip(magic_line().len() as int);
    assert(magic_line().is_prefix_of(text)) by {
        assert(magic_line() =~= text.subrange(0, 3));
    }
    assert(after_magic =~= dimensions + seq![LF] + tail);
    let end = find(after_magic, LF);
    assert(end == dimensions.len()) by {
        lemma_dimensions_text(g.width, g.height);
        lemma_find_is(after_magic, LF, dimensions.len() as int);
    }
    assert(parse_dimensions(after_magic.take(end as int)) == Some((g.width, g.height))) by {
        lemma_dimensions_text(g.width, g.height);
        assert(after_magic.take(end as int) =~= dimensions);
    }
    let after_dimensions = after_magic.skip(end as int + 1);
    assert(after_dimensions =~= tail);
    assert(depth_line().is_prefix_of(after_dimensions)) by {
        lemma_depth_line();
        assert(depth_line() =~= after_dimensions.subrange(0, 4));
    }
    let pixel_lines = after_dimensions.skip(depth_line().len() as int);
    assert(pixel_lines =~= body(g.pixels)) by {
        lemma_depth_line();
    }
    lemma_body_decodes(g.pixels);
}

/// A text whose first line is not exactly `P3` is rejected for its magic
/// marker, whatever follows.
pub proof fn lemma_magic_rejection(bytes: Seq<u8>)
    requires
        bytes.take(find(bytes, LF) as int) != seq![0x50u8, 0x33u8],
    ensures
        decoding(bytes) == Err::<Grid, DecodeError>(DecodeError::BadMagic),
{
    if magic_line().is_prefix_of(bytes) {
        assert(bytes[0] == magic_line()[0] && bytes[1] == magic_line()[1] && bytes[2]
            == magic_line()[2]) by {
            let prefix = bytes.subrange(0, 3);
            assert(prefix[0] == bytes[0] && prefix[1] == bytes[1] && prefix[2] == bytes[2]);
        }
        lemma_find_is(bytes, LF, 2);
        assert(bytes.take(2) =~= seq![0x50u8, 0x33u8]);
    }
}

} // verus!
