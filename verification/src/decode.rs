//! Decoding: from the text of an image to a pixel buffer.

use crate::color::Color;
use crate::grid::Grid;
use crate::pixels::Pixels;
use crate::ppm::{
    decode_body, decoding, depth_line, first_malformed, lemma_depth_line, lemma_first_malformed,
    lines, magic_line, parse_dimensions, parse_fields, parse_pixel, without_cr, DecodeError, DEPTH,
};
use crate::text::{find_byte, parse_number, read_number, split, CR, LF, SPACE};
use vstd::prelude::*;

verus! {

/// The numbers of `bytes[from..to]`, if that line is exactly `count`
/// numbers of at most `max` separated by single spaces.
fn read_fields(bytes: &[u8], from: usize, to: usize, count: usize, max: usize) -> (r: Option<
    Vec<usize>,
>)
    requires
        from <= to <= bytes@.len(),
    ensures
        match r {
            Some(v) => parse_fields(
                bytes@.subrange(from as int, to as int),
                count as nat,
                max as nat,
            ) == Some(v@.map_values(|n: usize| n as nat)),
            None => parse_fields(bytes@.subrange(from as int, to as int), count as nat, max as nat)
                is None,
        },
{
    let ghost line = bytes@.subrange(from as int, to as int);
    let ghost tokens = split(line, SPACE);
    let ghost seen: Seq<Seq<u8>> = Seq::empty();
    let mut values: Vec<usize> = Vec::new();
    let mut pos = from;
    assert(line.skip(0) =~= line);
    loop
        invariant
            from <= pos <= to <= bytes@.len(),
            line == bytes@.subrange(from as int, to as int),
            tokens == split(line, SPACE),
            tokens == seen + split(line.skip(pos - from), SPACE),
            seen.len() == values@.len(),
            forall|i: int|
                0 <= i < seen.len() ==> parse_number(#[trigger] seen[i], max as nat) == Some(
                    values@[i] as nat,
                ),
        decreases to - pos,
    {
        let ghost rest = line.skip(pos - from);
        if values.len() == count {
            // at least one more piece follows
            assert(split(rest, SPACE).len() >= 1);
            return None;
        }
        let end = find_byte(bytes, pos, to, SPACE);
        assert(bytes@.subrange(pos as int, to as int) =~= rest);
        let ghost token = rest.take(end - pos);
        assert(bytes@.subrange(pos as int, end as int) =~= token);
        assert(tokens[seen.len() as int] == token);
        match read_number(bytes, pos, end, max) {
            None => {
                return None;
            },
            Some(n) => {
                values.push(n);
            },
        }
        proof {
            seen = seen.push(token);
        }
        if end == to {
            assert(tokens =~= seen);
            if values.len() == count {
                assert(Seq::new(
                    count as nat,
                    |i: int| parse_number(tokens[i], max as nat).unwrap(),
                ) =~= values@.map_values(|n: usize| n as nat));
                return Some(values);
            } else {
                return None;
            }
        }
        assert(rest.skip(end - pos + 1) =~= line.skip(end + 1 - from));
        assert(tokens =~= seen + split(line.skip(end + 1 - from), SPACE));
        pos = end + 1;
    }
}

/// Width and height, if `bytes[from..to]` gives them.
fn read_dimensions(bytes: &[u8], from: usize, to: usize) -> (r: Option<(usize, usize)>)
    requires
        from <= to <= bytes@.len(),
    ensures
        match r {
            Some((width, height)) => parse_dimensions(bytes@.subrange(from as int, to as int))
                == Some((width as nat, height as nat)),
            None => parse_dimensions(bytes@.subrange(from as int, to as int)) is None,
        },
{
    match read_fields(bytes, from, to, 2, usize::MAX) {
        Some(v) => {
            assert(v@.map_values(|n: usize| n as nat).len() == 2);
            Some((v[0], v[1]))
        },
        None => None,
    }
}

/// The color, if `bytes[from..to]` gives its three channels.
fn read_pixel(bytes: &[u8], from: usize, to: usize) -> (r: Option<Color>)
    requires
        from <= to <= bytes@.len(),
    ensures
        r == parse_pixel(bytes@.subrange(from as int, to as int)),
{
    match read_fields(bytes, from, to, 3, DEPTH as usize) {
        Some(v) => {
            proof {
                let tokens = split(bytes@.subrange(from as int, to as int), SPACE);
                let numbers = v@.map_values(|n: usize| n as nat);
                assert(numbers.len() == 3);
                assert(numbers[0] == parse_number(tokens[0], DEPTH as nat).unwrap());
                assert(numbers[1] == parse_number(tokens[1], DEPTH as nat).unwrap());
                assert(numbers[2] == parse_number(tokens[2], DEPTH as nat).unwrap());
            }
            Some(Color(v[0] as u8, v[1] as u8, v[2] as u8))
        },
        None => None,
    }
}

/// The colors that the pixel lines in `bytes[from..]` give for an image of
/// `expected` pixels, or the first reason why they give none.
fn read_body(bytes: &[u8], from: usize, expected: usize) -> (r: Result<Vec<Color>, DecodeError>)
    requires
        from <= bytes@.len(),
    ensures
        match r {
            Ok(data) => decode_body(lines(bytes@.skip(from as int)), expected as nat) == Ok::<
                Seq<Color>,
                DecodeError,
            >(data@),
            Err(e) => decode_body(lines(bytes@.skip(from as int)), expected as nat) == Err::<
                Seq<Color>,
                DecodeError,
            >(e),
        },
{
    let n = bytes.len();
    let ghost all = lines(bytes@.skip(from as int));
    let mut data: Vec<Color> = Vec::new();
    let mut pos = from;
    proof {
        lemma_first_malformed(all);
        assert(all.skip(0) =~= all);
    }
    while pos < n
        invariant
            from <= pos <= n == bytes@.len(),
            all == lines(bytes@.skip(from as int)),
            data@.len() <= all.len(),
            data@.len() <= expected,
            all.skip(data@.len() as int) == lines(bytes@.skip(pos as int)),
            forall|i: int| 0 <= i < data@.len() ==> parse_pixel(#[trigger] all[i]) == Some(data@[i]),
            first_malformed(all) <= all.len(),
            forall|j: int|
                0 <= j < first_malformed(all) ==> parse_pixel(#[trigger] all[j]) is Some,
            first_malformed(all) < all.len() ==> parse_pixel(all[first_malformed(all) as int])
                is None,
        decreases n - pos,
    {
        let ghost rest = bytes@.skip(pos as int);
        let ghost k = data@.len() as int;
        assert(k < all.len()) by {
            assert(lines(rest).len() >= 1);
            assert(all.skip(k).len() == all.len() - k);
        }
        if data.len() == expected {
            return Err(DecodeError::TooManyPixels { expected });
        }
        let end = find_byte(bytes, pos, n, LF);
        assert(bytes@.subrange(pos as int, n as int) =~= rest);
        let stop = if end < n && pos < end && bytes[end - 1] == CR {
            end - 1
        } else {
            end
        };
        proof {
            let first = if end < n {
                without_cr(rest.take(end - pos))
            } else {
                rest
            };
            assert(lines(rest)[0] == first);
            assert(all.skip(k)[0] == all[k]);
            assert(bytes@.subrange(pos as int, stop as int) =~= first);
        }
        match read_pixel(bytes, pos, stop) {
            None => {
                return Err(DecodeError::BadPixelLine { line: data.len() });
            },
            Some(color) => {
                data.push(color);
            },
        }
        let next = if end < n {
            end + 1
        } else {
            n
        };
        proof {
            if end < n {
                assert(rest.skip(end - pos + 1) =~= bytes@.skip(next as int));
                assert(lines(rest).skip(1) =~= lines(bytes@.skip(next as int)));
            } else {
                assert(lines(rest).skip(1) =~= lines(bytes@.skip(next as int)));
            }
            assert(all.skip(k + 1) =~= all.skip(k).skip(1));
        }
        pos = next;
    }
    if data.len() < expected {
        Err(DecodeError::TooFewPixels { expected, found: data.len() })
    } else {
        assert(data@ =~= Seq::new(all.len(), |i: int| parse_pixel(all[i]).unwrap()));
        Ok(data)
    }
}

impl Pixels {
    /// Decodes an image from its text, or says why the text is no image.
    /// Nothing of a rejected text is returned.
    pub fn decode(bytes: &[u8]) -> (r: Result<Pixels, DecodeError>)
        ensures
            match r {
                Ok(p) => decoding(bytes@) == Ok::<Grid, DecodeError>(p@) && p@.wf(),
                Err(e) => decoding(bytes@) == Err::<Grid, DecodeError>(e),
            },
    {
        let n = bytes.len();
        if !(n >= 3 && bytes[0] == 0x50 && bytes[1] == 0x33 && bytes[2] == LF) {
            return Err(DecodeError::BadMagic);
        }
        proof {
            lemma_depth_line();
        }
        assert(magic_line() =~= bytes@.subrange(0, 3));
        let ghost after_magic = bytes@.skip(3);
        let end = find_byte(bytes, 3, n, LF);
        assert(bytes@.subrange(3, n as int) =~= after_magic);
        if end == n {
            return Err(DecodeError::BadDimensions);
        }
        assert(bytes@.subrange(3, end as int) =~= after_magic.take(end - 3));
        let (width, height) = match read_dimensions(bytes, 3, end) {
            None => {
                return Err(DecodeError::BadDimensions);
            },
            Some(dimensions) => dimensions,
        };
        let depth = end + 1;
        let ghost after_dimensions = after_magic.skip(end - 3 + 1);
        assert(after_dimensions =~= bytes@.skip(depth as int));
        if !(n - depth >= 4 && bytes[depth] == 0x32 && bytes[depth + 1] == 0x35 && bytes[depth + 2]
            == 0x35 && bytes[depth + 3] == LF) {
            return Err(DecodeError::UnsupportedDepth);
        }
        assert(depth_line() =~= after_dimensions.subrange(0, 4));
        let expected = match width.checked_mul(height) {
            None => {
                return Err(DecodeError::TooLarge { width, height });
            },
            Some(expected) => expected,
        };
        assert(after_dimensions.skip(4) =~= bytes@.skip(depth + 4));
        match read_body(bytes, depth + 4, expected) {
            Err(e) => Err(e),
            Ok(data) => Ok(Pixels::from_parts(width, height, data)),
        }
    }
}

} // verus!
