use vstd::prelude::*;

use crate::color::{hash_of, Rgba};
use crate::header::{header_bytes, parse_header, Header};
use crate::source::Source;

verus! {

/// The state that a decode or encode call threads from pixel to pixel.
pub struct CodecState {
    pub prev: Rgba,
    pub cache: Seq<Rgba>,
}

pub open spec fn zero_color() -> Rgba {
    Rgba { red: 0, green: 0, blue: 0, alpha: 0 }
}

/// Previous pixel transparent black, all 64 slots transparent black.
pub open spec fn initial_state() -> CodecState {
    CodecState { prev: zero_color(), cache: Seq::new(64, |i: int| zero_color()) }
}

/// `c` becomes the previous pixel and is stored under its hash.
pub open spec fn state_after(st: CodecState, c: Rgba) -> CodecState {
    CodecState { prev: c, cache: st.cache.update(hash_of(c), c) }
}

/// The 8-byte end marker: seven zero bytes and a one.
pub open spec fn terminator() -> Seq<u8> {
    seq![0u8, 0u8, 0u8, 0u8, 0u8, 0u8, 0u8, 1u8]
}

pub open spec fn starts_with_terminator(s: Seq<u8>) -> bool {
    s.len() >= 8 && s.take(8) == terminator()
}

pub open spec fn is_index_tag(tag: u8) -> bool {
    tag & 0xc0 == 0x00
}

pub open spec fn is_diff_tag(tag: u8) -> bool {
    tag & 0xc0 == 0x40
}

pub open spec fn is_luma_tag(tag: u8) -> bool {
    tag & 0xc0 == 0x80
}

/// A small-diff chunk: each of red, green, blue moves by a 2-bit field minus 2.
pub open spec fn diff_pixel(prev: Rgba, tag: u8) -> Rgba {
    Rgba {
        red: prev.red.wrapping_add(((tag >> 4) & 3).wrapping_sub(2)),
        green: prev.green.wrapping_add(((tag >> 2) & 3).wrapping_sub(2)),
        blue: prev.blue.wrapping_add((tag & 3).wrapping_sub(2)),
        alpha: prev.alpha,
    }
}

/// A luma chunk: green moves by a 6-bit field minus 32; red and blue move by
/// the same amount plus a 4-bit field minus 8 each.
pub open spec fn luma_pixel(prev: Rgba, tag: u8, second: u8) -> Rgba {
    let dg = (tag & 0x3f).wrapping_sub(32);
    Rgba {
        red: prev.red.wrapping_add((second >> 4).wrapping_sub(8).wrapping_add(dg)),
        green: prev.green.wrapping_add(dg),
        blue: prev.blue.wrapping_add((second & 0x0f).wrapping_sub(8).wrapping_add(dg)),
        alpha: prev.alpha,
    }
}

/// What the chunk at the front of a byte sequence stands for.
pub enum Step {
    /// One new pixel, and the number of bytes the chunk takes.
    Pixel(Rgba, nat),
    /// The previous pixel, this many times; the chunk takes one byte.
    Run(nat),
    /// The chunk's extra bytes are missing.
    Truncated,
}

/// Reads the chunk at the front of `s` (which is not empty) in state `st`.
pub open spec fn chunk_step(st: CodecState, s: Seq<u8>) -> Step {
    let tag = s[0];
    if tag == 0xfe {
        if s.len() < 4 {
            Step::Truncated
        } else {
            Step::Pixel(Rgba { red: s[1], green: s[2], blue: s[3], alpha: st.prev.alpha }, 4)
        }
    } else if tag == 0xff {
        if s.len() < 5 {
            Step::Truncated
        } else {
            Step::Pixel(Rgba { red: s[1], green: s[2], blue: s[3], alpha: s[4] }, 5)
        }
    } else if is_index_tag(tag) {
        Step::Pixel(st.cache[tag as int], 1)
    } else if is_diff_tag(tag) {
        Step::Pixel(diff_pixel(st.prev, tag), 1)
    } else if is_luma_tag(tag) {
        if s.len() < 2 {
            Step::Truncated
        } else {
            Step::Pixel(luma_pixel(st.prev, tag, s[1]), 2)
        }
    } else {
        Step::Run(((tag & 0x3f) + 1) as nat)
    }
}

/// How decoding a whole chunk stream ends.
pub struct Decoded {
    /// Every pixel produced, in order.
    pub pixels: Seq<Rgba>,
    /// The previous pixel and table when the terminator was reached.
    pub state: CodecState,
    /// The bytes after the terminator.
    pub rest: Seq<u8>,
}

/// `px` followed by the pixels of `r`, if `r` is a success.
pub open spec fn prefixed(px: Seq<Rgba>, r: Result<Decoded, DecodeError>) -> Result<
    Decoded,
    DecodeError,
> {
    match r {
        Ok(d) => Ok(Decoded { pixels: px + d.pixels, ..d }),
        Err(e) => Err(e),
    }
}

/// Decodes chunks from `s` in state `st` up to the terminator.
pub open spec fn decode_chunks(st: CodecState, s: Seq<u8>) -> Result<Decoded, DecodeError>
    decreases s.len(),
{
    if s.len() == 0 {
        Err(DecodeError::MissingTerminator)
    } else if starts_with_terminator(s) {
        Ok(Decoded { pixels: Seq::empty(), state: st, rest: s.skip(8) })
    } else {
        match chunk_step(st, s) {
            Step::Truncated => Err(DecodeError::OutOfBytes),
            Step::Pixel(c, n) => if 0 < n <= s.len() {
                prefixed(seq![c], decode_chunks(state_after(st, c), s.skip(n as int)))
            } else {
                Err(DecodeError::OutOfBytes)
            },
            Step::Run(k) => prefixed(Seq::new(k, |i: int| st.prev), decode_chunks(st, s.skip(1))),
        }
    }
}

proof fn lemma_prefixed_twice(a: Seq<Rgba>, b: Seq<Rgba>, r: Result<Decoded, DecodeError>)
    ensures
        prefixed(a, prefixed(b, r)) == prefixed(a + b, r),
{
    if let Ok(d) = r {
        assert(a + (b + d.pixels) =~= (a + b) + d.pixels);
    }
}

/// Decodes a whole stream: the header, then the chunks.
pub open spec fn decode_stream(s: Seq<u8>) -> Result<(Header, Seq<Rgba>), DecodeError> {
    match parse_header(s) {
        None => Err(DecodeError::Header),
        Some(h) => match decode_chunks(initial_state(), s.skip(14)) {
            Ok(d) => Ok((h, d.pixels)),
            Err(e) => Err(e),
        },
    }
}

/// The longest run one chunk holds.
pub const MAX_RUN: u8 = 62;

/// The run chunk for `n` repeats of the previous pixel; nothing for no repeats.
pub open spec fn run_chunk(n: nat) -> Seq<u8> {
    if n == 0 {
        Seq::empty()
    } else {
        seq![(0xc0 + n - 1) as u8]
    }
}

/// The smallest chunk that brings state `st` to pixel `p`, which differs from `st.prev`.
pub open spec fn pixel_chunk(st: CodecState, p: Rgba) -> Seq<u8> {
    let i = hash_of(p);
    if st.cache[i] == p {
        seq![i as u8]
    } else if p.alpha == st.prev.alpha {
        let dr = p.red.wrapping_sub(st.prev.red);
        let dg = p.green.wrapping_sub(st.prev.green);
        let db = p.blue.wrapping_sub(st.prev.blue);
        let fr = dr.wrapping_add(2);
        let fg = dg.wrapping_add(2);
        let fb = db.wrapping_add(2);
        let lg = dg.wrapping_add(32);
        let lr = dr.wrapping_sub(dg).wrapping_add(8);
        let lb = db.wrapping_sub(dg).wrapping_add(8);
        if fr < 4 && fg < 4 && fb < 4 {
            seq![0x40u8 | fr << 4u8 | fg << 2u8 | fb]
        } else if lg < 64 && lr < 16 && lb < 16 {
            seq![0x80u8 | lg, lr << 4u8 | lb]
        } else {
            seq![0xfeu8, p.red, p.green, p.blue]
        }
    } else {
        seq![0xffu8, p.red, p.green, p.blue, p.alpha]
    }
}

/// The chunks for `px`, from state `st` with `run` repeats of `st.prev` pending.
pub open spec fn encode_chunks(st: CodecState, run: nat, px: Seq<Rgba>) -> Seq<u8>
    decreases px.len(),
{
    if px.len() == 0 {
        run_chunk(run)
    } else if px[0] == st.prev {
        if run + 1 == MAX_RUN {
            run_chunk(MAX_RUN as nat) + encode_chunks(st, 0, px.drop_first())
        } else {
            encode_chunks(st, run + 1, px.drop_first())
        }
    } else {
        run_chunk(run) + pixel_chunk(st, px[0]) + encode_chunks(
            state_after(st, px[0]),
            0,
            px.drop_first(),
        )
    }
}

/// The state after encoding (or decoding) `px` from `st`.
pub open spec fn advance(st: CodecState, px: Seq<Rgba>) -> CodecState
    decreases px.len(),
{
    if px.len() == 0 {
        st
    } else if px[0] == st.prev {
        advance(st, px.drop_first())
    } else {
        advance(state_after(st, px[0]), px.drop_first())
    }
}

/// A whole stream: header, chunks, end marker.
pub open spec fn encode_stream(h: Header, px: Seq<Rgba>) -> Seq<u8> {
    header_bytes(h) + encode_chunks(initial_state(), 0, px) + terminator()
}

/// Why a stream could not be decoded.
#[derive(Clone, Copy, Debug, PartialEq, Eq, Structural)]
pub enum DecodeError {
    /// The stream ended without the end marker.
    MissingTerminator,
    /// Bad magic, a short header, or an undefined channel or colorspace byte.
    Header,
    /// The stream ended inside a chunk.
    OutOfBytes,
    /// A tag that no chunk kind has; every byte is some chunk's tag, so this is never returned.
    UnknownTag,
    /// The stream holds another number of pixels than the header's width times height.
    PixelCountMismatch,
}

/// The previous pixel and the 64-slot color table of one decode or encode call.
pub struct Data {
    pub last_seen_pixel: Rgba,
    pub stored_pixels: [Rgba; 64],
}

impl View for Data {
    type V = CodecState;

    open spec fn view(&self) -> CodecState {
        CodecState { prev: self.last_seen_pixel, cache: self.stored_pixels@ }
    }
}

impl Data {
    pub fn new() -> (r: Self)
        ensures
            r@ == initial_state(),
    {
        let r = Data { last_seen_pixel: Rgba::zero(), stored_pixels: [Rgba::zero(); 64] };
        assert(r@.cache =~= initial_state().cache);
        r
    }

    /// Returns to the initial state.
    pub fn reset(&mut self)
        ensures
            final(self)@ == initial_state(),
    {
        *self = Data::new();
    }

    /// Makes `c` the previous pixel and stores it under its hash.
    fn remember(&mut self, c: Rgba)
        ensures
            final(self)@ == state_after(old(self)@, c),
    {
        let i = c.hash_index();
        self.last_seen_pixel = c;
        self.stored_pixels[i as usize] = c;
        assert(self@.cache =~= state_after(old(self)@, c).cache);
    }

    /// Reads a header and then chunks from `source` up to the end marker,
    /// appending every pixel to `sink`, starting from this state.
    pub fn decode_into(&mut self, source: &mut Source, sink: &mut Vec<Rgba>) -> (r: Result<
        Header,
        DecodeError,
    >)
        ensures
            parse_header(old(source)@) is None ==> r == Err::<Header, DecodeError>(
                DecodeError::Header,
            ),
            parse_header(old(source)@) is Some ==> match decode_chunks(
                old(self)@,
                old(source)@.skip(14),
            ) {
                Ok(d) => r == Ok::<Header, DecodeError>(parse_header(old(source)@)->Some_0)
                    && final(sink)@ == old(sink)@ + d.pixels && final(self)@ == d.state
                    && final(source)@ == d.rest,
                Err(e) => r == Err::<Header, DecodeError>(e),
            },
    {
        let header = match Header::decode(source) {
            Some(h) => h,
            None => return Err(DecodeError::Header),
        };
        let ghost st0 = self@;
        let ghost s0 = source@;
        let ghost out0 = sink@;
        let ghost n0 = out0.len() as int;
        loop
            invariant
                self@.cache.len() == 64,
                decode_chunks(st0, s0) == prefixed(sink@.skip(n0), decode_chunks(self@, source@)),
                n0 <= sink@.len(),
                sink@.take(n0) == out0,
                parse_header(old(source)@) == Some(header),
                st0 == old(self)@,
                s0 == old(source)@.skip(14),
                out0 == old(sink)@,
                n0 == out0.len(),
            decreases source@.len(),
        {
            let ghost st = self@;
            let ghost s = source@;
            let ghost o = sink@;
            if source.len() == 0 {
                return Err(DecodeError::MissingTerminator);
            }
            if self.at_terminator(source) {
                let mut k: usize = 0;
                while k < 8
                    invariant
                        k <= 8,
                        s.len() >= 8,
                        source@ == s.skip(k as int),
                    decreases 8 - k,
                {
                    source.next();
                    assert(source@ =~= s.skip(k + 1));
                    k = k + 1;
                }
                assert(sink@ =~= sink@.take(n0) + sink@.skip(n0));
                assert(sink@.skip(n0) =~= sink@.skip(n0) + Seq::<Rgba>::empty());
                return Ok(header);
            }
            match self.decode_chunk(source, sink) {
                Ok(()) => {},
                Err(e) => return Err(e),
            }
            proof {
                lemma_prefixed_twice(o.skip(n0), sink@.skip(o.len() as int), decode_chunks(self@, source@));
                assert(sink@.skip(n0) =~= o.skip(n0) + sink@.skip(o.len() as int));
                assert(sink@.take(n0) =~= o.take(n0));
            }
        }
    }

    /// Decodes the one chunk at the front of `source`, which is not the end marker.
    fn decode_chunk(&mut self, source: &mut Source, sink: &mut Vec<Rgba>) -> (r: Result<(), DecodeError>)
        requires
            old(source)@.len() > 0,
            !starts_with_terminator(old(source)@),
            old(self)@.cache.len() == 64,
        ensures
            final(self)@.cache.len() == 64,
            r is Ok ==> final(source)@.len() < old(source)@.len()
                && old(sink)@.len() <= final(sink)@.len()
                && final(sink)@.take(old(sink)@.len() as int) == old(sink)@
                && decode_chunks(old(self)@, old(source)@) == prefixed(
                    final(sink)@.skip(old(sink)@.len() as int),
                    decode_chunks(final(self)@, final(source)@),
                ),
            r matches Err(e) ==> decode_chunks(old(self)@, old(source)@) == Err::<Decoded, DecodeError>(e),
    {
        let ghost s = source@;
        let ghost o = sink@;
        let tag = source.next().unwrap();
        if tag == 0xfe {
            match Rgba::decode_with_alpha(source, self.last_seen_pixel.alpha) {
                Some(c) => {
                    assert(source@ =~= s.skip(4));
                    self.remember(c);
                    sink.push(c);
                },
                None => return Err(DecodeError::OutOfBytes),
            }
        } else if tag == 0xff {
            match Rgba::decode(source) {
                Some(c) => {
                    assert(source@ =~= s.skip(5));
                    self.remember(c);
                    sink.push(c);
                },
                None => return Err(DecodeError::OutOfBytes),
            }
        } else if tag & 0xc0 == 0x00 {
            assert(tag & 0xc0 == 0x00 ==> tag < 64) by (bit_vector);
            assert(source@ =~= s.skip(1));
            let c = self.stored_pixels[tag as usize];
            self.remember(c);
            sink.push(c);
        } else if tag & 0xc0 == 0x40 {
            assert(source@ =~= s.skip(1));
            let c = apply_diff(self.last_seen_pixel, tag);
            self.remember(c);
            sink.push(c);
        } else if tag & 0xc0 == 0x80 {
            match source.next() {
                Some(second) => {
                    assert(source@ =~= s.skip(2));
                    let c = apply_luma(self.last_seen_pixel, tag, second);
                    self.remember(c);
                    sink.push(c);
                },
                None => return Err(DecodeError::OutOfBytes),
            }
        } else {
            assert(source@ =~= s.skip(1));
            assert((tag & 0x3f) + 1 < 256) by (bit_vector);
            let count: u8 = (tag & 0x3f) + 1;
            let c = self.last_seen_pixel;
            let mut j: u8 = 0;
            while j < count
                invariant
                    j <= count,
                    sink@ == o + Seq::new(j as nat, |i: int| c),
                decreases count - j,
            {
                sink.push(c);
                assert(sink@ =~= o + Seq::new((j + 1) as nat, |i: int| c));
                j = j + 1;
            }
            assert(sink@.skip(o.len() as int) =~= Seq::new(count as nat, |i: int| c));
            assert(sink@.take(o.len() as int) =~= o);
            return Ok(());
        }
        assert(sink@.skip(o.len() as int) =~= seq![sink@.last()]);
        assert(sink@.take(o.len() as int) =~= o);
        Ok(())
    }

    /// Appends the chunks for `pixels` to `sink`, starting from this state,
    /// and flushes any pending run at the end.
    pub fn encode_into(&mut self, pixels: &Vec<Rgba>, sink: &mut Vec<u8>)
        ensures
            final(sink)@ == old(sink)@ + encode_chunks(old(self)@, 0, pixels@),
            final(self)@ == advance(old(self)@, pixels@),
    {
        let ghost st0 = self@;
        let mut run: u8 = 0;
        let mut i: usize = 0;
        assert(pixels@.skip(0) =~= pixels@);
        while i < pixels.len()
            invariant
                i <= pixels@.len(),
                run < MAX_RUN,
                self@.cache.len() == 64,
                old(sink)@ + encode_chunks(st0, 0, pixels@) == sink@ + encode_chunks(
                    self@,
                    run as nat,
                    pixels@.skip(i as int),
                ),
                advance(st0, pixels@) == advance(self@, pixels@.skip(i as int)),
            decreases pixels@.len() - i,
        {
            let p = pixels[i];
            let ghost o = sink@;
            let ghost st = self@;
            let ghost run0 = run as nat;
            let ghost rest = pixels@.skip(i + 1);
            assert(pixels@.skip(i as int).drop_first() =~= pixels@.skip(i + 1));
            if p == self.last_seen_pixel {
                run = run + 1;
                if run == MAX_RUN {
                    sink.push(0xc0 + (run - 1));
                    run = 0;
                    assert(sink@ =~= o + run_chunk(MAX_RUN as nat));
                    assert(sink@ + encode_chunks(st, 0, rest) =~= o + (run_chunk(MAX_RUN as nat)
                        + encode_chunks(st, 0, rest)));
                }
            } else {
                if run > 0 {
                    sink.push(0xc0 + (run - 1));
                    run = 0;
                }
                self.push_chunk(p, sink);
                self.remember(p);
                assert(sink@ =~= o + run_chunk(run0) + pixel_chunk(st, p));
                assert(sink@ + encode_chunks(self@, 0, rest) =~= o + (run_chunk(run0) + pixel_chunk(
                    st,
                    p,
                ) + encode_chunks(self@, 0, rest)));
            }
            i = i + 1;
        }
        let ghost o = sink@;
        if run > 0 {
            sink.push(0xc0 + (run - 1));
        }
        assert(sink@ =~= o + run_chunk(run as nat));
        assert(pixels@.skip(i as int) =~= Seq::<Rgba>::empty());
    }

    /// Appends the chunk for `p`, which differs from the previous pixel.
    fn push_chunk(&self, p: Rgba, sink: &mut Vec<u8>)
        requires
            self@.cache.len() == 64,
        ensures
            final(sink)@ == old(sink)@ + pixel_chunk(self@, p),
    {
        let i = p.hash_index();
        let prev = self.last_seen_pixel;
        if self.stored_pixels[i as usize] == p {
            sink.push(i);
        } else if p.alpha == prev.alpha {
            let dr = p.red.wrapping_sub(prev.red);
            let dg = p.green.wrapping_sub(prev.green);
            let db = p.blue.wrapping_sub(prev.blue);
            let fr = dr.wrapping_add(2);
            let fg = dg.wrapping_add(2);
            let fb = db.wrapping_add(2);
            let lg = dg.wrapping_add(32);
            let lr = dr.wrapping_sub(dg).wrapping_add(8);
            let lb = db.wrapping_sub(dg).wrapping_add(8);
            if fr < 4 && fg < 4 && fb < 4 {
                sink.push(0x40u8 | fr << 4u8 | fg << 2u8 | fb);
            } else if lg < 64 && lr < 16 && lb < 16 {
                sink.push(0x80u8 | lg);
                sink.push(lr << 4u8 | lb);
            } else {
                sink.push(0xfe);
                sink.push(p.red);
                sink.push(p.green);
                sink.push(p.blue);
            }
        } else {
            sink.push(0xff);
            sink.push(p.red);
            sink.push(p.green);
            sink.push(p.blue);
            sink.push(p.alpha);
        }
        assert(sink@ =~= old(sink)@ + pixel_chunk(self@, p));
    }

    /// Whether the unread bytes of `source` start with the end marker.
    fn at_terminator(&self, source: &Source) -> (r: bool)
        ensures
            r == starts_with_terminator(source@),
    {
        if source.len() < 8 {
            return false;
        }
        let mut i: usize = 0;
        while i < 7
            invariant
                i <= 7,
                source@.len() >= 8,
                forall|j: int| 0 <= j < i ==> source@[j] == 0,
            decreases 7 - i,
        {
            if source.peek(i) != Some(0u8) {
                assert(source@.take(8)[i as int] != terminator()[i as int]);
                return false;
            }
            i = i + 1;
        }
        if source.peek(7) != Some(1u8) {
            assert(source@.take(8)[7] != terminator()[7]);
            return false;
        }
        assert(source@.take(8) =~= terminator());
        true
    }
}

fn apply_diff(prev: Rgba, tag: u8) -> (r: Rgba)
    ensures
        r == diff_pixel(prev, tag),
{
    Rgba {
        red: prev.red.wrapping_add(((tag >> 4) & 3).wrapping_sub(2)),
        green: prev.green.wrapping_add(((tag >> 2) & 3).wrapping_sub(2)),
        blue: prev.blue.wrapping_add((tag & 3).wrapping_sub(2)),
        alpha: prev.alpha,
    }
}

fn apply_luma(prev: Rgba, tag: u8, second: u8) -> (r: Rgba)
    ensures
        r == luma_pixel(prev, tag, second),
{
    let dg = (tag & 0x3f).wrapping_sub(32);
    Rgba {
        red: prev.red.wrapping_add((second >> 4).wrapping_sub(8).wrapping_add(dg)),
        green: prev.green.wrapping_add(dg),
        blue: prev.blue.wrapping_add((second & 0x0f).wrapping_sub(8).wrapping_add(dg)),
        alpha: prev.alpha,
    }
}

/// Decodes a whole stream: header, chunks, end marker.
pub fn decode(bytes: Vec<u8>) -> (r: Result<(Header, Vec<Rgba>), DecodeError>)
    ensures
        match decode_stream(bytes@) {
            Ok((h, px)) => r matches Ok((h2, v)) && h2 == h && v@ == px,
            Err(e) => r matches Err(e2) && e2 == e,
        },
{
    let mut source = Source::new(bytes);
    let mut data = Data::new();
    let mut pixels: Vec<Rgba> = Vec::new();
    let r = data.decode_into(&mut source, &mut pixels);
    assert(pixels@ =~= Seq::<Rgba>::empty() + pixels@);
    match r {
        Ok(h) => Ok((h, pixels)),
        Err(e) => Err(e),
    }
}

/// Encodes a whole stream: header, chunks, end marker.
pub fn encode(header: &Header, pixels: &Vec<Rgba>) -> (r: Vec<u8>)
    ensures
        r@ == encode_stream(*header, pixels@),
{
    let head = header.encode();
    let mut out: Vec<u8> = Vec::new();
    let mut i: usize = 0;
    while i < 14
        invariant
            i <= 14,
            head@.len() == 14,
            out@ == head@.take(i as int),
        decreases 14 - i,
    {
        out.push(head[i]);
        assert(out@ =~= head@.take(i + 1));
        i = i + 1;
    }
    assert(head@.take(14) =~= head@);
    let mut data = Data::new();
    data.encode_into(pixels, &mut out);
    let ghost body = out@;
    let mut k: usize = 0;
    while k < 7
        invariant
            k <= 7,
            out@ == body + Seq::new(k as nat, |j: int| 0u8),
        decreases 7 - k,
    {
        out.push(0);
        assert(out@ =~= body + Seq::new((k + 1) as nat, |j: int| 0u8));
        k = k + 1;
    }
    out.push(1);
    assert(out@ =~= body + terminator());
    out
}

/// Fails unless `pixels` holds exactly width times height colors.
pub fn check_pixel_count(header: &Header, pixels: &Vec<Rgba>) -> (r: Result<(), DecodeError>)
    ensures
        pixels@.len() == header.width as int * header.height as int ==> r is Ok,
        pixels@.len() != header.width as int * header.height as int ==> r == Err::<(), DecodeError>(
            DecodeError::PixelCountMismatch,
        ),
{
    let (w, h) = (header.width as u64, header.height as u64);
    assert(w * h <= 0xffff_ffff * 0xffff_ffff) by (nonlinear_arith)
        requires
            w <= 0xffff_ffff,
            h <= 0xffff_ffff,
    ;
    let expected: u64 = w * h;
    if pixels.len() as u64 == expected {
        Ok(())
    } else {
        Err(DecodeError::PixelCountMismatch)
    }
}

} // verus!
