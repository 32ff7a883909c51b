use vstd::prelude::*;

use crate::source::Source;

verus! {

/// One pixel: four independent 8-bit channels.
#[derive(Clone, Copy, Debug, PartialEq, Eq, Structural)]
pub struct Rgba {
    pub red: u8,
    pub green: u8,
    pub blue: u8,
    pub alpha: u8,
}

/// Slot of the 64-entry color table that a color is stored under.
pub open spec fn hash_of(c: Rgba) -> int {
    (c.red as int * 3 + c.green as int * 5 + c.blue as int * 7 + c.alpha as int * 11) % 64
}

impl Rgba {
    /// Opaque black.
    pub fn new() -> (r: Self)
        ensures
            r == (Rgba { red: 0, green: 0, blue: 0, alpha: 255 }),
    {
        Rgba { red: 0, green: 0, blue: 0, alpha: 255 }
    }

    /// Fully transparent black: the initial previous pixel and table fill.
    pub fn zero() -> (r: Self)
        ensures
            r == (Rgba { red: 0, green: 0, blue: 0, alpha: 0 }),
    {
        Rgba { red: 0, green: 0, blue: 0, alpha: 0 }
    }

    /// `(3 r + 5 g + 7 b + 11 a) mod 64`.
    pub fn hash_index(&self) -> (r: u8)
        ensures
            r as int == hash_of(*self),
            r < 64,
    {
        let sum: u32 = self.red as u32 * 3 + self.green as u32 * 5 + self.blue as u32 * 7
            + self.alpha as u32 * 11;
        (sum % 64) as u8
    }

    /// Reads red, green, blue and alpha from the next four bytes.
    pub fn decode(s: &mut Source) -> (r: Option<Self>)
        ensures
            old(s)@.len() >= 4 ==> r == Some(rgba_at(old(s)@)) && final(s)@ == old(s)@.skip(4),
            old(s)@.len() < 4 ==> r is None && final(s)@.len() == 0,
    {
        let red = match s.next() { Some(b) => b, None => return None };
        let green = match s.next() { Some(b) => b, None => return None };
        let blue = match s.next() { Some(b) => b, None => return None };
        let alpha = match s.next() { Some(b) => b, None => return None };
        assert(s@ =~= old(s)@.skip(4));
        Some(Rgba { red, green, blue, alpha })
    }

    /// Reads red, green and blue from the next three bytes; alpha is given.
    pub fn decode_with_alpha(s: &mut Source, alpha: u8) -> (r: Option<Self>)
        ensures
            old(s)@.len() >= 3 ==> r == Some(rgb_at(old(s)@, alpha)) && final(s)@ == old(s)@.skip(3),
            old(s)@.len() < 3 ==> r is None && final(s)@.len() == 0,
    {
        let red = match s.next() { Some(b) => b, None => return None };
        let green = match s.next() { Some(b) => b, None => return None };
        let blue = match s.next() { Some(b) => b, None => return None };
        assert(s@ =~= old(s)@.skip(3));
        Some(Rgba { red, green, blue, alpha })
    }
}

/// The color spelled by the first four bytes of `s`.
pub open spec fn rgba_at(s: Seq<u8>) -> Rgba {
    Rgba { red: s[0], green: s[1], blue: s[2], alpha: s[3] }
}

/// The color spelled by the first three bytes of `s`, with the given alpha.
pub open spec fn rgb_at(s: Seq<u8>, alpha: u8) -> Rgba {
    Rgba { red: s[0], green: s[1], blue: s[2], alpha }
}

} // verus!
