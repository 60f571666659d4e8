//! Encoding: from a pixel buffer to the text of its image.

use crate::color::Color;
use crate::grid::Grid;
use crate::laws::lemma_decode_encode;
use crate::pixels::Pixels;
use crate::ppm::{decoding, encoding, header, lemma_depth_line, pixel_line, DecodeError};
use crate::text::{write_number, LF, SPACE};
use vstd::prelude::*;

verus! {

/// Appends the line of a pixel.
fn write_pixel(out: &mut Vec<u8>, color: Color)
    ensures
        final(out)@ == old(out)@ + pixel_line(color),
{
    write_number(out, color.0 as usize);
    out.push(SPACE);
    write_number(out, color.1 as usize);
    out.push(SPACE);
    write_number(out, color.2 as usize);
    out.push(LF);
    assert(final(out)@ =~= old(out)@ + pixel_line(color));
}

/// The three header lines of an image of the given dimensions.
pub fn encode_header(width: usize, height: usize) -> (out: Vec<u8>)
    ensures
        out@ == header(width as nat, height as nat),
{
    let mut out: Vec<u8> = Vec::new();
    out.push(0x50);
    out.push(0x33);
    out.push(LF);
    write_number(&mut out, width);
    out.push(SPACE);
    write_number(&mut out, height);
    out.push(LF);
    out.push(0x32);
    out.push(0x35);
    out.push(0x35);
    out.push(LF);
    proof {
        lemma_depth_line();
    }
    assert(out@ =~= header(width as nat, height as nat));
    out
}

/// The line of one pixel, with its line feed.
pub fn encode_pixel(color: Color) -> (out: Vec<u8>)
    ensures
        out@ == pixel_line(color),
{
    let mut out: Vec<u8> = Vec::new();
    write_pixel(&mut out, color);
    out
}

impl Pixels {
    /// The text of the image: the header, then one line per pixel in
    /// row-major order. It decodes to this image again.
    pub fn encode(&self) -> (out: Vec<u8>)
        ensures
            out@ == encoding(self@),
            decoding(out@) == Ok::<Grid, DecodeError>(self@),
            self@.wf(),
    {
        let mut out = encode_header(self.width(), self.height());
        let data = self.as_slice();
        let ghost pixel_lines = data@.map_values(|color: Color| pixel_line(color));
        let mut i: usize = 0;
        while i < data.len()
            invariant
                i <= data@.len(),
                data@ == self@.pixels,
                pixel_lines == data@.map_values(|color: Color| pixel_line(color)),
                out@ == header(self@.width, self@.height) + pixel_lines.take(i as int).flatten(),
            decreases data@.len() - i,
        {
            write_pixel(&mut out, data[i]);
            proof {
                assert(pixel_lines.take(i + 1) =~= pixel_lines.take(i as int).push(
                    pixel_line(data@[i as int]),
                ));
                pixel_lines.take(i as int).lemma_flatten_push(pixel_line(data@[i as int]));
            }
            i += 1;
        }
        proof {
            assert(pixel_lines.take(i as int) =~= pixel_lines);
            lemma_decode_encode(self@);
        }
        out
    }
}

/// The extension of the temporary file that stands beside a destination
/// while its image is written: the destination's own extension with the
/// marker `.tmp` after it. A writer fills that file and renames it onto the
/// destination once the whole text is in it.
pub fn temp_extension(extension: &str) -> (temp: String)
    ensures
        temp@ == extension@ + ".tmp"@,
{
    String::from_str(extension).concat(".tmp")
}

} // verus!
