//! Colours as they reach the image file: three channels of eight bits each.

use vstd::prelude::*;
use crate::ppm::{decimal, push_decimal, NEWLINE, SPACE};

verus! {

/// A colour sample quantised for output. Each channel runs from 0, none of
/// that primary, to 255, all of it.
#[derive(Clone, Copy, Debug, PartialEq, Eq, Structural)]
pub struct Rgb {
    pub r: u8,
    pub g: u8,
    pub b: u8,
}

/// The line that a pixel takes in a plain-text PPM file: its three channels
/// as decimal numerals, separated by single spaces and ended by a line feed.
pub open spec fn pixel_line(color: Rgb) -> Seq<u8> {
    decimal(color.r as nat) + seq![SPACE] + decimal(color.g as nat) + seq![SPACE] + decimal(
        color.b as nat,
    ) + seq![NEWLINE]
}

/// The lines of a run of pixels, one after the other.
pub open spec fn pixel_lines(colors: Seq<Rgb>) -> Seq<u8>
    decreases colors.len(),
{
    if colors.len() == 0 {
        Seq::empty()
    } else {
        pixel_lines(colors.drop_last()) + pixel_line(colors.last())
    }
}

impl Rgb {
    /// The colour with the given channels.
    pub fn new(r: u8, g: u8, b: u8) -> (color: Self)
        ensures
            color == (Rgb { r, g, b }),
    {
        Rgb { r, g, b }
    }

    /// Black: every channel at zero.
    pub fn black() -> (color: Self)
        ensures
            color == (Rgb { r: 0, g: 0, b: 0 }),
    {
        Rgb { r: 0, g: 0, b: 0 }
    }

    /// Appends this colour's line to `out`.
    pub fn push_ppm(&self, out: &mut Vec<u8>)
        ensures
            final(out)@ == old(out)@ + pixel_line(*self),
    {
        push_decimal(out, self.r as usize);
        out.push(SPACE);
        push_decimal(out, self.g as usize);
        out.push(SPACE);
        push_decimal(out, self.b as usize);
        out.push(NEWLINE);
        assert(out@ =~= old(out)@ + pixel_line(*self));
    }

    /// This colour's line in a plain-text PPM file.
    pub fn to_ppm(&self) -> (line: Vec<u8>)
        ensures
            line@ == pixel_line(*self),
    {
        let mut line: Vec<u8> = Vec::new();
        self.push_ppm(&mut line);
        line
    }
}

} // verus!
