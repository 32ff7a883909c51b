use vstd::prelude::*;

use crate::codec::{
    chunk_step, decode_chunks, decode_stream, encode_chunks, encode_stream, initial_state,
    pixel_chunk, prefixed, run_chunk, starts_with_terminator, state_after, terminator, CodecState,
    DecodeError, Step, MAX_RUN,
};
use crate::color::{hash_of, Rgba};
use crate::header::{header_bytes, lemma_header_round_trip, Header};

verus! {

proof fn lemma_diff_channel(prev: u8, cur: u8)
    by (bit_vector)
    ensures
        prev.wrapping_add(cur.wrapping_sub(prev).wrapping_add(2).wrapping_sub(2)) == cur,
{
}

proof fn lemma_luma_channel(prev: u8, cur: u8, dg: u8)
    by (bit_vector)
    ensures
        prev.wrapping_add(
            cur.wrapping_sub(prev).wrapping_sub(dg).wrapping_add(8).wrapping_sub(8).wrapping_add(
                dg.wrapping_add(32).wrapping_sub(32),
            ),
        ) == cur,
        prev.wrapping_add(cur.wrapping_sub(prev).wrapping_add(32).wrapping_sub(32)) == cur,
{
}

proof fn lemma_diff_tag(fr: u8, fg: u8, fb: u8)
    by (bit_vector)
    requires
        fr < 4,
        fg < 4,
        fb < 4,
    ensures
        ((0x40u8 | fr << 4u8 | fg << 2u8 | fb) >> 4u8) & 3 == fr,
        ((0x40u8 | fr << 4u8 | fg << 2u8 | fb) >> 2u8) & 3 == fg,
        (0x40u8 | fr << 4u8 | fg << 2u8 | fb) & 3 == fb,
        (0x40u8 | fr << 4u8 | fg << 2u8 | fb) & 0xc0 == 0x40,
        0x40u8 <= (0x40u8 | fr << 4u8 | fg << 2u8 | fb) < 0x80,
{
}

proof fn lemma_luma_tag(lg: u8, lr: u8, lb: u8)
    by (bit_vector)
    requires
        lg < 64,
        lr < 16,
        lb < 16,
    ensures
        (0x80u8 | lg) & 0xc0 == 0x80,
        (0x80u8 | lg) & 0x3f == lg,
        0x80u8 <= (0x80u8 | lg) < 0xc0,
        (lr << 4u8 | lb) >> 4u8 == lr,
        (lr << 4u8 | lb) & 0x0f == lb,
{
}

proof fn lemma_index_tag(i: u8)
    by (bit_vector)
    requires
        i < 64,
    ensures
        i & 0xc0 == 0,
{
}

proof fn lemma_run_tag(b: u8)
    by (bit_vector)
    requires
        0xc0 <= b < 0xfe,
    ensures
        b & 0xc0 == 0xc0,
        b & 0x3f == b - 0xc0,
{
}

/// The chunk that the encoder picks for `p` decodes back to `p`; its first
/// byte is zero only for an index chunk of slot zero.
proof fn lemma_pixel_chunk_decodes(st: CodecState, p: Rgba, rest: Seq<u8>)
    requires
        st.cache.len() == 64,
        p != st.prev,
    ensures
        1 <= pixel_chunk(st, p).len() <= 5,
        chunk_step(st, pixel_chunk(st, p) + rest) == Step::Pixel(p, pixel_chunk(st, p).len()),
        pixel_chunk(st, p)[0] == 0 ==> pixel_chunk(st, p).len() == 1 && hash_of(p) == 0
            && st.cache[0] == p,
{
    let c = pixel_chunk(st, p);
    let s = c + rest;
    let i = hash_of(p);
    let prev = st.prev;
    if st.cache[i] == p {
        lemma_index_tag(i as u8);
        assert(s[0] == i as u8);
        assert(chunk_step(st, s) == Step::Pixel(p, 1));
    } else if p.alpha == prev.alpha {
        let dr = p.red.wrapping_sub(prev.red);
        let dg = p.green.wrapping_sub(prev.green);
        let db = p.blue.wrapping_sub(prev.blue);
        let fr = dr.wrapping_add(2);
        let fg = dg.wrapping_add(2);
        let fb = db.wrapping_add(2);
        let lg = dg.wrapping_add(32);
        let lr = dr.wrapping_sub(dg).wrapping_add(8);
        let lb = db.wrapping_sub(dg).wrapping_add(8);
        if fr < 4 && fg < 4 && fb < 4 {
            lemma_diff_tag(fr, fg, fb);
            lemma_diff_channel(prev.red, p.red);
            lemma_diff_channel(prev.green, p.green);
            lemma_diff_channel(prev.blue, p.blue);
            assert(s[0] == 0x40u8 | fr << 4u8 | fg << 2u8 | fb);
            assert(chunk_step(st, s) == Step::Pixel(p, 1));
        } else if lg < 64 && lr < 16 && lb < 16 {
            lemma_luma_tag(lg, lr, lb);
            lemma_luma_channel(prev.red, p.red, dg);
            lemma_luma_channel(prev.green, p.green, dg);
            lemma_luma_channel(prev.blue, p.blue, dg);
            assert(s[0] == 0x80u8 | lg && s[1] == lr << 4u8 | lb);
            assert(chunk_step(st, s) == Step::Pixel(p, 2));
        } else {
            assert(s[0] == 0xfe && s[1] == p.red && s[2] == p.green && s[3] == p.blue);
        }
    } else {
        assert(s[0] == 0xff && s[1] == p.red && s[2] == p.green && s[3] == p.blue && s[4]
            == p.alpha);
    }
}

/// A run chunk yields `n` copies of the previous pixel and leaves the state alone.
proof fn lemma_run_chunk_decodes(st: CodecState, n: nat, t: Seq<u8>)
    requires
        0 < n <= MAX_RUN,
    ensures
        (run_chunk(n) + t)[0] != 0,
        decode_chunks(st, run_chunk(n) + t) == prefixed(
            Seq::new(n, |i: int| st.prev),
            decode_chunks(st, t),
        ),
{
    let s = run_chunk(n) + t;
    let b = (0xc0 + n - 1) as u8;
    lemma_run_tag(b);
    assert(s[0] == b);
    if s.len() >= 8 {
        assert(s.take(8)[0] != terminator()[0]);
    }
    assert(s.skip(1) =~= t);
    assert(chunk_step(st, s) == Step::Run(n));
}

/// The encoder's output starts with a zero byte only for a fresh index chunk
/// of slot zero.
proof fn lemma_first_byte(st: CodecState, run: nat, px: Seq<Rgba>)
    requires
        st.cache.len() == 64,
        run < MAX_RUN,
    ensures
        encode_chunks(st, run, px).len() > 0 && encode_chunks(st, run, px)[0] == 0 ==> run == 0
            && px.len() > 0 && px[0] != st.prev && st.cache[0] == px[0],
    decreases px.len(),
{
    if px.len() == 0 {
        if run > 0 {
            lemma_run_tag((0xc0 + run - 1) as u8);
        }
    } else if px[0] == st.prev {
        if run + 1 == MAX_RUN {
            lemma_run_tag((0xc0 + run) as u8);
        } else {
            lemma_first_byte(st, run + 1, px.drop_first());
        }
    } else if run > 0 {
        lemma_run_tag((0xc0 + run - 1) as u8);
    } else {
        lemma_pixel_chunk_decodes(st, px[0], Seq::empty());
    }
}

/// The chunks written for `px` from state `st`, with `run` repeats pending,
/// followed by the end marker, decode to those repeats and then `px`.
#[verifier::rlimit(60)]
proof fn lemma_decode_encoded(st: CodecState, run: nat, px: Seq<Rgba>)
    requires
        st.cache.len() == 64,
        run < MAX_RUN,
    ensures
        decode_chunks(st, encode_chunks(st, run, px) + terminator()) is Ok,
        decode_chunks(st, encode_chunks(st, run, px) + terminator())->Ok_0.pixels == Seq::new(
            run,
            |i: int| st.prev,
        ) + px,
    decreases px.len(),
{
    let e = encode_chunks(st, run, px);
    let prev = st.prev;
    assert(terminator().take(8) =~= terminator());
    if px.len() == 0 {
        if run == 0 {
            assert(e + terminator() =~= terminator());
        } else {
            lemma_run_chunk_decodes(st, run, terminator());
        }
        assert(Seq::new(run, |i: int| prev) + Seq::<Rgba>::empty() =~= Seq::new(run, |i: int| prev)
            + px);
    } else {
        let p = px[0];
        let rest = px.drop_first();
        if p == prev {
            if run + 1 == MAX_RUN {
                let e2 = encode_chunks(st, 0, rest);
                lemma_decode_encoded(st, 0, rest);
                lemma_run_chunk_decodes(st, MAX_RUN as nat, e2 + terminator());
                assert(e + terminator() =~= run_chunk(MAX_RUN as nat) + (e2 + terminator()));
                assert(Seq::new(MAX_RUN as nat, |i: int| prev) + (Seq::new(0, |i: int| prev) + rest)
                    =~= Seq::new(run, |i: int| prev) + px);
            } else {
                lemma_decode_encoded(st, run + 1, rest);
                assert(Seq::new(run + 1, |i: int| prev) + rest =~= Seq::new(run, |i: int| prev)
                    + px);
            }
        } else {
            let st2 = state_after(st, p);
            let e2 = encode_chunks(st2, 0, rest);
            let t = pixel_chunk(st, p) + (e2 + terminator());
            lemma_decode_encoded(st2, 0, rest);
            lemma_first_byte(st2, 0, rest);
            lemma_pixel_chunk_decodes(st, p, Seq::empty());
            if e2.len() > 0 {
                assert((e2 + terminator())[0] == e2[0]);
            } else {
                assert((e2 + terminator())[6] == terminator()[6]);
            }
            lemma_fresh_pixel_decodes(st, p, e2 + terminator());
            assert(seq![p] + (Seq::new(0, |i: int| p) + rest) =~= px);
            if run == 0 {
                assert(e + terminator() =~= t);
                assert(Seq::new(run, |i: int| prev) + px =~= px);
            } else {
                lemma_run_chunk_decodes(st, run, t);
                assert(e + terminator() =~= run_chunk(run) + t);
            }
        }
    }
}

/// The chunk for a pixel that differs from the previous one decodes to it,
/// unless it could be mistaken for the end marker.
proof fn lemma_fresh_pixel_decodes(st: CodecState, p: Rgba, tail: Seq<u8>)
    requires
        st.cache.len() == 64,
        p != st.prev,
        tail.len() >= 7,
        pixel_chunk(st, p)[0] == 0 ==> tail[0] != 0 || tail[6] != 1,
    ensures
        decode_chunks(st, pixel_chunk(st, p) + tail) == prefixed(
            seq![p],
            decode_chunks(state_after(st, p), tail),
        ),
{
    let c = pixel_chunk(st, p);
    let t = c + tail;
    lemma_pixel_chunk_decodes(st, p, tail);
    if t[0] == 0 {
        assert(t[1] == tail[0] && t[7] == tail[6]);
        assert(t.take(8)[1] != terminator()[1] || t.take(8)[7] != terminator()[7]);
    } else {
        assert(t.take(8)[0] != terminator()[0]);
    }
    assert(!starts_with_terminator(t));
    assert(t.skip(c.len() as int) =~= tail);
}

/// Decoding what the encoder writes for a header and pixels gives back that
/// header and those pixels.
pub proof fn lemma_round_trip(h: Header, px: Seq<Rgba>)
    ensures
        decode_stream(encode_stream(h, px)) == Ok::<(Header, Seq<Rgba>), DecodeError>((h, px)),
{
    let e = encode_chunks(initial_state(), 0, px);
    let s = encode_stream(h, px);
    assert(s =~= header_bytes(h) + (e + terminator()));
    lemma_header_round_trip(h, e + terminator());
    assert(s.skip(14) =~= e + terminator());
    lemma_decode_encoded(initial_state(), 0, px);
    assert(Seq::new(0, |i: int| initial_state().prev) + px =~= px);
}

/// After a literal, diff, luma or index chunk that yields color `c`, decoding
/// goes on from a state whose previous pixel is `c` and whose table holds `c`
/// in slot `hash_of(c)`.
pub proof fn lemma_cache_holds_decoded(st: CodecState, s: Seq<u8>)
    requires
        st.cache.len() == 64,
        s.len() > 0,
        !starts_with_terminator(s),
        chunk_step(st, s) is Pixel,
    ensures
        chunk_step(st, s) matches Step::Pixel(c, n) ==> 0 < n <= s.len() ==> decode_chunks(st, s)
            == prefixed(seq![c], decode_chunks(state_after(st, c), s.skip(n as int)))
            && state_after(st, c).prev == c && state_after(st, c).cache[hash_of(c)] == c,
{
}

proof fn lemma_step_fields(x: u8)
    by (bit_vector)
    ensures
        x.wrapping_add(1).wrapping_sub(x).wrapping_add(2) == 3,
        x.wrapping_add(2).wrapping_sub(x).wrapping_add(2) == 4,
        x.wrapping_add(2).wrapping_sub(x).wrapping_sub(0).wrapping_add(8) == 10,
        x.wrapping_sub(x) == 0,
        0x40u8 | 3u8 << 4u8 | 3u8 << 2u8 | 3u8 == 0x7f,
        0x80u8 | 32u8 == 0xa0,
        10u8 << 4u8 | 8u8 == 0xa8,
{
}

/// A pixel that is not in the table and differs from the previous one by
/// exactly +1 on red, green and blue, with the same alpha, is written as one
/// small-diff byte.
pub proof fn lemma_unit_step_is_small_diff(st: CodecState, p: Rgba)
    requires
        st.cache.len() == 64,
        st.cache[hash_of(p)] != p,
        p.red == st.prev.red.wrapping_add(1),
        p.green == st.prev.green.wrapping_add(1),
        p.blue == st.prev.blue.wrapping_add(1),
        p.alpha == st.prev.alpha,
    ensures
        pixel_chunk(st, p) == seq![0x7fu8],
{
    lemma_step_fields(st.prev.red);
    lemma_step_fields(st.prev.green);
    lemma_step_fields(st.prev.blue);
}

/// A pixel that is not in the table and differs from the previous one by +2
/// on red alone is not written as a small-diff chunk: it takes the two-byte
/// luma chunk.
pub proof fn lemma_red_two_is_luma(st: CodecState, p: Rgba)
    requires
        st.cache.len() == 64,
        st.cache[hash_of(p)] != p,
        p.red == st.prev.red.wrapping_add(2),
        p.green == st.prev.green,
        p.blue == st.prev.blue,
        p.alpha == st.prev.alpha,
    ensures
        pixel_chunk(st, p) == seq![0xa0u8, 0xa8u8],
{
    lemma_step_fields(st.prev.red);
    lemma_step_fields(st.prev.green);
    lemma_step_fields(st.prev.blue);
    let dg = p.green.wrapping_sub(st.prev.green);
    let db = p.blue.wrapping_sub(st.prev.blue);
    assert(dg.wrapping_add(32) == 32 && db.wrapping_sub(dg).wrapping_add(8) == 8) by (bit_vector)
        requires
            dg == 0,
            db == 0,
    ;
    assert(pixel_chunk(st, p) =~= seq![0xa0u8, 0xa8u8]);
}

} // verus!
