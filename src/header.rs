use vstd::prelude::*;

use crate::source::Source;

verus! {

/// Whether the source image carries alpha; the stream always encodes it.
#[derive(Clone, Copy, Debug, PartialEq, Eq, Structural)]
pub enum Channels {
    Rgb,
    Rgba,
}

/// Informational colorspace tag; it never affects the pixel arithmetic.
#[derive(Clone, Copy, Debug, PartialEq, Eq, Structural)]
pub enum ColorSpace {
    SRgbWithLinearAlpha,
    FullLinear,
}

/// The fixed 14-byte preamble of a stream.
#[derive(Clone, Copy, Debug, PartialEq, Eq, Structural)]
pub struct Header {
    pub width: u32,
    pub height: u32,
    pub channels: Channels,
    pub colorspace: ColorSpace,
}

/// Length of the encoded header.
pub const HEADER_LEN: usize = 14;

pub open spec fn channels_byte(c: Channels) -> u8 {
    match c {
        Channels::Rgb => 3,
        Channels::Rgba => 4,
    }
}

pub open spec fn channels_of(b: u8) -> Option<Channels> {
    if b == 3 {
        Some(Channels::Rgb)
    } else if b == 4 {
        Some(Channels::Rgba)
    } else {
        None
    }
}

pub open spec fn colorspace_byte(c: ColorSpace) -> u8 {
    match c {
        ColorSpace::SRgbWithLinearAlpha => 0,
        ColorSpace::FullLinear => 1,
    }
}

pub open spec fn colorspace_of(b: u8) -> Option<ColorSpace> {
    if b == 0 {
        Some(ColorSpace::SRgbWithLinearAlpha)
    } else if b == 1 {
        Some(ColorSpace::FullLinear)
    } else {
        None
    }
}

/// The ASCII magic `qoif`.
pub open spec fn magic() -> Seq<u8> {
    seq![0x71u8, 0x6fu8, 0x69u8, 0x66u8]
}

/// The big-endian bytes of `x`.
pub open spec fn be_bytes(x: u32) -> Seq<u8> {
    seq![(x >> 24) as u8, (x >> 16) as u8, (x >> 8) as u8, x as u8]
}

/// The integer whose big-endian bytes are `a b c d`.
pub open spec fn be_value(a: u8, b: u8, c: u8, d: u8) -> u32 {
    (a as u32) << 24 | (b as u32) << 16 | (c as u32) << 8 | d as u32
}

/// The wire form of a header.
pub open spec fn header_bytes(h: Header) -> Seq<u8> {
    magic() + be_bytes(h.width) + be_bytes(h.height) + seq![
        channels_byte(h.channels),
        colorspace_byte(h.colorspace),
    ]
}

/// The header that the first 14 bytes of `s` spell, if they spell one.
pub open spec fn parse_header(s: Seq<u8>) -> Option<Header> {
    if s.len() >= 14 && s.take(4) == magic() && channels_of(s[12]) is Some && colorspace_of(
        s[13],
    ) is Some {
        Some(
            Header {
                width: be_value(s[4], s[5], s[6], s[7]),
                height: be_value(s[8], s[9], s[10], s[11]),
                channels: channels_of(s[12])->Some_0,
                colorspace: colorspace_of(s[13])->Some_0,
            },
        )
    } else {
        None
    }
}

impl Channels {
    pub fn try_from(value: u8) -> (r: Result<Self, ()>)
        ensures
            channels_of(value) is Some ==> r == Ok::<Channels, ()>(channels_of(value)->Some_0),
            channels_of(value) is None ==> r is Err,
    {
        if value == 3 {
            Ok(Channels::Rgb)
        } else if value == 4 {
            Ok(Channels::Rgba)
        } else {
            Err(())
        }
    }

    pub fn as_byte(&self) -> (r: u8)
        ensures
            r == channels_byte(*self),
    {
        match self {
            Channels::Rgb => 3,
            Channels::Rgba => 4,
        }
    }
}

impl ColorSpace {
    pub fn try_from(value: u8) -> (r: Result<Self, ()>)
        ensures
            colorspace_of(value) is Some ==> r == Ok::<ColorSpace, ()>(colorspace_of(value)->Some_0),
            colorspace_of(value) is None ==> r is Err,
    {
        if value == 0 {
            Ok(ColorSpace::SRgbWithLinearAlpha)
        } else if value == 1 {
            Ok(ColorSpace::FullLinear)
        } else {
            Err(())
        }
    }

    pub fn as_byte(&self) -> (r: u8)
        ensures
            r == colorspace_byte(*self),
    {
        match self {
            ColorSpace::SRgbWithLinearAlpha => 0,
            ColorSpace::FullLinear => 1,
        }
    }
}

impl Header {
    /// Reads a header off the front of `source`.
    pub fn decode(source: &mut Source) -> (r: Option<Header>)
        ensures
            r == parse_header(old(source)@),
            r is Some ==> final(source)@ == old(source)@.skip(14),
    {
        if source.len() < HEADER_LEN {
            return None;
        }
        let ghost s0 = source@;
        let mut raw: [u8; 14] = [0u8; 14];
        let mut i: usize = 0;
        while i < HEADER_LEN
            invariant
                i <= 14,
                s0.len() >= 14,
                source@ == s0.skip(i as int),
                forall|j: int| 0 <= j < i ==> raw@[j] == s0[j],
            decreases 14 - i,
        {
            let b = source.next().unwrap();
            raw[i] = b;
            assert(source@ =~= s0.skip(i + 1));
            i = i + 1;
        }
        if raw[0] != 0x71 || raw[1] != 0x6f || raw[2] != 0x69 || raw[3] != 0x66 {
            assert(s0.take(4)[0] == raw@[0] && s0.take(4)[1] == raw@[1]);
            assert(s0.take(4)[2] == raw@[2] && s0.take(4)[3] == raw@[3]);
            return None;
        }
        assert(s0.take(4) =~= magic());
        let channels = match Channels::try_from(raw[12]) {
            Ok(c) => c,
            Err(_) => return None,
        };
        let colorspace = match ColorSpace::try_from(raw[13]) {
            Ok(c) => c,
            Err(_) => return None,
        };
        Some(
            Header {
                width: be_u32(raw[4], raw[5], raw[6], raw[7]),
                height: be_u32(raw[8], raw[9], raw[10], raw[11]),
                channels,
                colorspace,
            },
        )
    }

    /// The 14 bytes of this header on the wire.
    pub fn encode(&self) -> (r: [u8; 14])
        ensures
            r@ == header_bytes(*self),
    {
        let r = [
            0x71u8,
            0x6f,
            0x69,
            0x66,
            (self.width >> 24) as u8,
            (self.width >> 16) as u8,
            (self.width >> 8) as u8,
            self.width as u8,
            (self.height >> 24) as u8,
            (self.height >> 16) as u8,
            (self.height >> 8) as u8,
            self.height as u8,
            self.channels.as_byte(),
            self.colorspace.as_byte(),
        ];
        assert(r@ =~= header_bytes(*self));
        r
    }
}

fn be_u32(a: u8, b: u8, c: u8, d: u8) -> (r: u32)
    ensures
        r == be_value(a, b, c, d),
{
    (a as u32) << 24 | (b as u32) << 16 | (c as u32) << 8 | d as u32
}

impl Default for Header {
    fn default() -> (r: Self)
        ensures
            r == (Header {
                width: 0,
                height: 0,
                channels: Channels::Rgb,
                colorspace: ColorSpace::SRgbWithLinearAlpha,
            }),
    {
        Header { width: 0, height: 0, channels: Channels::Rgb, colorspace: ColorSpace::SRgbWithLinearAlpha }
    }
}

/// A header survives its wire form.
pub proof fn lemma_header_round_trip(h: Header, rest: Seq<u8>)
    ensures
        parse_header(header_bytes(h) + rest) == Some(h),
{
    let s = header_bytes(h) + rest;
    assert(s.take(4) =~= magic());
    let (w, ht) = (h.width, h.height);
    assert(be_value((w >> 24) as u8, (w >> 16) as u8, (w >> 8) as u8, w as u8) == w)
        by (bit_vector);
    assert(be_value((ht >> 24) as u8, (ht >> 16) as u8, (ht >> 8) as u8, ht as u8) == ht)
        by (bit_vector);
}

} // verus!
