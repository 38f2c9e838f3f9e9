use vstd::prelude::*;
use crate::qoi::{
    QoiPixel, QOI_OP_RGB, QOI_OP_RGBA, QOI_OP_DIFF, QOI_OP_LUMA, QOI_OP_RUN, QOI_OP_INDEX, prepend, run_byte, repeat, decode_ops,
    op_pixel, flush, MAX_RUN, QoiChannels, QoiColorspace, enc_cache, enc_run, enc_emit, encode_ops,
    QoiError, be_value, be_bytes, decode_spec, encode_spec, header_bytes, initial_cache, opaque_black, magic,
    end_marker, channels_byte, colorspace_byte, hash_of, pixel_op, delta, diff_fits, luma_fits, op_len, is_run_byte,
};

verus! {

proof fn lemma_diff_bits(x: u8, y: u8, z: u8)
    requires
        x < 4,
        y < 4,
        z < 4,
    ensures
        ({
            let b = QOI_OP_DIFF | (x << 4u8) | (y << 2u8) | z;
            &&& 64 <= b < 128
            &&& (b & 48u8) >> 4u8 == x
            &&& (b & 12u8) >> 2u8 == y
            &&& b & 3u8 == z
        }),
{
    assert({
        let b = 0x40u8 | (x << 4u8) | (y << 2u8) | z;
        &&& 64 <= b < 128
        &&& (b & 48u8) >> 4u8 == x
        &&& (b & 12u8) >> 2u8 == y
        &&& b & 3u8 == z
    }) by (bit_vector)
        requires
            x < 4,
            y < 4,
            z < 4,
    ;
}

proof fn lemma_luma_bits(g: u8, r: u8, b: u8)
    requires
        g < 64,
        r < 16,
        b < 16,
    ensures
        ({
            let b1 = QOI_OP_LUMA | g;
            let b2 = (r << 4u8) | b;
            &&& 128 <= b1 < 192
            &&& b1 & 63u8 == g
            &&& (b2 >> 4u8) & 15u8 == r
            &&& b2 & 15u8 == b
        }),
{
    assert({
        let b1 = 0x80u8 | g;
        let b2 = (r << 4u8) | b;
        &&& 128 <= b1 < 192
        &&& b1 & 63u8 == g
        &&& (b2 >> 4u8) & 15u8 == r
        &&& b2 & 15u8 == b
    }) by (bit_vector)
        requires
            g < 64,
            r < 16,
            b < 16,
    ;
}

proof fn lemma_run_bits(x: u8)
    requires
        x < 62,
    ensures
        ({
            let b = QOI_OP_RUN | x;
            &&& 192 <= b < 254
            &&& b & 63u8 == x
        }),
{
    assert({
        let b = 0xc0u8 | x;
        &&& 192 <= b < 254
        &&& b & 63u8 == x
    }) by (bit_vector)
        requires
            x < 62,
    ;
}

proof fn lemma_index_bits(x: u8)
    requires
        x < 64,
    ensures
        QOI_OP_INDEX | x == x,
{
    assert(0u8 | x == x) by (bit_vector);
}

pub(crate) proof fn lemma_prepend_assoc(a: Seq<QoiPixel>, b: Seq<QoiPixel>, r: Option<(Seq<QoiPixel>, Seq<u8>)>)
    ensures
        prepend(a, prepend(b, r)) == prepend(a + b, r),
{
    if let Some((px, t)) = r {
        assert(a + (b + px) =~= (a + b) + px);
    }
}

/// A run operation of length `n` yields `n` copies of the previous pixel and
/// leaves the state as it was.
proof fn lemma_decode_run(n: int, rest: Seq<u8>, cache: Seq<QoiPixel>, prev: QoiPixel)
    requires
        1 <= n <= 62,
        rest.len() >= 8,
    ensures
        decode_ops(seq![run_byte(n)] + rest, cache, prev) == prepend(
            repeat(prev, n as nat),
            decode_ops(rest, cache, prev),
        ),
{
    reveal(decode_ops);
    let s = seq![run_byte(n)] + rest;
    lemma_run_bits((n - 1) as u8);
    assert(s[0] == run_byte(n));
    assert(s.subrange(1, s.len() as int) =~= rest);
    assert(op_pixel(s, cache, prev) == prev);
}

proof fn lemma_decode_flush(run: nat, rest: Seq<u8>, cache: Seq<QoiPixel>, prev: QoiPixel)
    requires
        run <= 62,
        rest.len() >= 8,
    ensures
        decode_ops(flush(run) + rest, cache, prev) == prepend(
            repeat(prev, run),
            decode_ops(rest, cache, prev),
        ),
{
    if run > 0 {
        lemma_decode_run(run as int, rest, cache, prev);
    } else {
        assert(flush(run) + rest =~= rest);
        if let Some((px, t)) = decode_ops(rest, cache, prev) {
            assert(repeat(prev, run) + px =~= px);
        }
    }
}

/// An index operation yields the pixel in its slot and leaves the cache as it
/// was.
proof fn lemma_decode_index(p: QoiPixel, rest: Seq<u8>, cache: Seq<QoiPixel>, prev: QoiPixel)
    requires
        cache.len() == 64,
        cache[hash_of(p)] == p,
        rest.len() >= 8,
    ensures
        decode_ops(seq![QOI_OP_INDEX | (hash_of(p) as u8)] + rest, cache, prev) == prepend(
            seq![p],
            decode_ops(rest, cache, p),
        ),
{
    reveal(decode_ops);
    let h = hash_of(p) as u8;
    lemma_index_bits(h);
    let s = seq![QOI_OP_INDEX | h] + rest;
    assert(s[0] == h);
    assert(s.subrange(1, s.len() as int) =~= rest);
    assert(op_pixel(s, cache, prev) == p);
    assert(cache.update(hash_of(p), p) =~= cache);
    assert(repeat(p, 1) =~= seq![p]);
}

/// One operation that is not a run, and yields `p`.
proof fn lemma_decode_one(o: Seq<u8>, p: QoiPixel, rest: Seq<u8>, cache: Seq<QoiPixel>, prev: QoiPixel)
    requires
        o.len() >= 1,
        rest.len() >= 8,
        op_len(o[0]) == o.len(),
        !is_run_byte(o[0]),
        op_pixel(o + rest, cache, prev) == p,
    ensures
        decode_ops(o + rest, cache, prev) == prepend(
            seq![p],
            decode_ops(rest, cache.update(hash_of(p), p), p),
        ),
{
    reveal(decode_ops);
    let s = o + rest;
    assert(s[0] == o[0]);
    assert(s.subrange(o.len() as int, s.len() as int) =~= rest);
    assert(repeat(p, 1) =~= seq![p]);
}

proof fn lemma_pixel_of_diff(p: QoiPixel, rest: Seq<u8>, cache: Seq<QoiPixel>, prev: QoiPixel)
    requires
        diff_fits(prev, p),
    ensures
        ({
            let o = pixel_op(prev, p);
            &&& o.len() == 1
            &&& 64 <= o[0] < 128
            &&& op_pixel(o + rest, cache, prev) == p
        }),
{
    let dr = delta(p.red, prev.red);
    let dg = delta(p.green, prev.green);
    let db = delta(p.blue, prev.blue);
    lemma_diff_bits((dr + 2) as u8, (dg + 2) as u8, (db + 2) as u8);
    let s = pixel_op(prev, p) + rest;
    assert(s[0] == pixel_op(prev, p)[0]);
}

proof fn lemma_pixel_of_luma(p: QoiPixel, rest: Seq<u8>, cache: Seq<QoiPixel>, prev: QoiPixel)
    requires
        !diff_fits(prev, p),
        luma_fits(prev, p),
    ensures
        ({
            let o = pixel_op(prev, p);
            &&& o.len() == 2
            &&& 128 <= o[0] < 192
            &&& op_pixel(o + rest, cache, prev) == p
        }),
{
    let dr = delta(p.red, prev.red);
    let dg = delta(p.green, prev.green);
    let db = delta(p.blue, prev.blue);
    lemma_luma_bits((dg + 32) as u8, (dr - dg + 8) as u8, (db - dg + 8) as u8);
    let s = pixel_op(prev, p) + rest;
    assert(s[0] == pixel_op(prev, p)[0]);
    assert(s[1] == pixel_op(prev, p)[1]);
}

proof fn lemma_pixel_of_raw(p: QoiPixel, rest: Seq<u8>, cache: Seq<QoiPixel>, prev: QoiPixel)
    requires
        p.alpha != prev.alpha || (!diff_fits(prev, p) && !luma_fits(prev, p)),
    ensures
        ({
            let o = pixel_op(prev, p);
            &&& o.len() == op_len(o[0])
            &&& o[0] == QOI_OP_RGB || o[0] == QOI_OP_RGBA
            &&& op_pixel(o + rest, cache, prev) == p
        }),
{
    let o = pixel_op(prev, p);
    let s = o + rest;
    assert(s[0] == o[0]);
    assert(s[1] == o[1]);
    assert(s[2] == o[2]);
    assert(s[3] == o[3]);
    if p.alpha != prev.alpha {
        assert(s[4] == o[4]);
    }
}

/// The operation that spells out a pixel yields that pixel and stores it in
/// its slot.
proof fn lemma_decode_pixel_op(p: QoiPixel, rest: Seq<u8>, cache: Seq<QoiPixel>, prev: QoiPixel)
    requires
        rest.len() >= 8,
    ensures
        decode_ops(pixel_op(prev, p) + rest, cache, prev) == prepend(
            seq![p],
            decode_ops(rest, cache.update(hash_of(p), p), p),
        ),
{
    if p.alpha == prev.alpha && diff_fits(prev, p) {
        lemma_pixel_of_diff(p, rest, cache, prev);
    } else if p.alpha == prev.alpha && luma_fits(prev, p) {
        lemma_pixel_of_luma(p, rest, cache, prev);
    } else {
        lemma_pixel_of_raw(p, rest, cache, prev);
    }
    lemma_decode_one(pixel_op(prev, p), p, rest, cache, prev);
}

/// Decoding the operations that encode `px[k..]` from a given state, from that
/// same state, yields the pending run and then `px[k..]`.
proof fn lemma_decode_encode_ops(
    px: Seq<QoiPixel>,
    k: int,
    cache: Seq<QoiPixel>,
    prev: QoiPixel,
    run: nat,
    tail: Seq<u8>,
)
    requires
        0 <= k <= px.len(),
        cache.len() == 64,
        run < MAX_RUN,
        tail.len() == 8,
    ensures
        decode_ops(encode_ops(px, k, cache, prev, run) + tail, cache, prev) == Some(
            (repeat(prev, run) + px.subrange(k, px.len() as int), tail),
        ),
    decreases px.len() - k,
{
    if k == px.len() {
        lemma_decode_flush(run, tail, cache, prev);
        assert(repeat(prev, run) + px.subrange(k, px.len() as int) =~= repeat(prev, run) + seq![]);
        assert(repeat(prev, run) + seq![] =~= repeat(prev, run));
        assert(decode_ops(tail, cache, prev) == Some((Seq::<QoiPixel>::empty(), tail))) by {
            reveal(decode_ops);
        }
    } else {
        let p = px[k];
        let c2 = enc_cache(cache, prev, p);
        let r2 = enc_run(prev, run, p);
        let e = encode_ops(px, k + 1, c2, p, r2);
        let emit = enc_emit(cache, prev, run, p);
        lemma_decode_encode_ops(px, k + 1, c2, p, r2, tail);
        let after = px.subrange(k + 1, px.len() as int);
        assert(px.subrange(k, px.len() as int) =~= seq![p] + after);
        assert(encode_ops(px, k, cache, prev, run) + tail =~= emit + (e + tail));
        if p == prev {
            if run + 1 == MAX_RUN {
                lemma_decode_run(MAX_RUN as int, e + tail, cache, prev);
                assert(repeat(prev, MAX_RUN as nat) + (repeat(p, 0) + after) =~= repeat(prev, run)
                    + (seq![p] + after));
            } else {
                assert(emit + (e + tail) =~= e + tail);
                assert(repeat(p, r2) + after =~= repeat(prev, run) + (seq![p] + after));
            }
        } else if cache[hash_of(p)] == p {
            let idx = seq![QOI_OP_INDEX | (hash_of(p) as u8)];
            assert(emit + (e + tail) =~= flush(run) + (idx + (e + tail)));
            lemma_decode_index(p, e + tail, cache, prev);
            lemma_decode_flush(run, idx + (e + tail), cache, prev);
            assert(repeat(prev, run) + (seq![p] + (repeat(p, 0) + after)) =~= repeat(prev, run) + (
            seq![p] + after));
        } else {
            let o = pixel_op(prev, p);
            assert(emit + (e + tail) =~= flush(run) + (o + (e + tail)));
            lemma_decode_pixel_op(p, e + tail, cache, prev);
            lemma_decode_flush(run, o + (e + tail), cache, prev);
            assert(repeat(prev, run) + (seq![p] + (repeat(p, 0) + after)) =~= repeat(prev, run) + (
            seq![p] + after));
        }
    }
}

proof fn lemma_be_round_trip(v: u32)
    ensures
        be_value(be_bytes(v), 0) == v,
{
}

/// Decoding what `encode_spec` makes of an image of `w * h` pixels gives back its width,
/// height, channels, colorspace and pixels.
pub proof fn lemma_round_trip(
    px: Seq<QoiPixel>,
    w: u32,
    h: u32,
    c: QoiChannels,
    cs: QoiColorspace,
)
    requires
        px.len() == w * h,
    ensures
        decode_spec(encode_spec(px, w, h, c, cs)) == Ok::<_, QoiError>((w, h, c, cs, px)),
{
    let ops = encode_ops(px, 0, initial_cache(), opaque_black(), 0);
    let hd = header_bytes(w, h, c, cs);
    let bytes = encode_spec(px, w, h, c, cs);
    assert(hd.len() == 14);
    assert(bytes.subrange(0, 4) =~= magic());
    assert(bytes.subrange(14, bytes.len() as int) =~= ops + end_marker());
    lemma_decode_encode_ops(px, 0, initial_cache(), opaque_black(), 0, end_marker());
    assert(repeat(opaque_black(), 0) + px.subrange(0, px.len() as int) =~= px);
    lemma_be_round_trip(w);
    lemma_be_round_trip(h);
    assert(bytes.subrange(4, 8) =~= be_bytes(w));
    assert(bytes.subrange(8, 12) =~= be_bytes(h));
    assert(be_value(bytes, 4) == be_value(be_bytes(w), 0));
    assert(be_value(bytes, 8) == be_value(be_bytes(h), 0));
    assert(bytes[12] == channels_byte(c));
    assert(bytes[13] == colorspace_byte(cs));
}

/// Decoding, encoding again and decoding once more gives what the first
/// decode gave.
pub proof fn lemma_decode_encode_decode(bytes: Seq<u8>)
    requires
        decode_spec(bytes) is Ok,
    ensures
        ({
            let (w, h, c, cs, px) = decode_spec(bytes)->Ok_0;
            decode_spec(encode_spec(px, w, h, c, cs)) == decode_spec(bytes)
        }),
{
    let (w, h, c, cs, px) = decode_spec(bytes)->Ok_0;
    lemma_round_trip(px, w, h, c, cs);
}

/// The encoder picks DIFF only when alpha is kept and every colour delta lies
/// in [-2, 1], LUMA only when alpha is kept, the green delta lies in
/// [-32, 31] and the other two differ from it by a value in [-8, 7], and a
/// pixel whose alpha changed is always written in full as RGBA.
pub proof fn lemma_opcode_ranges(prev: QoiPixel, p: QoiPixel)
    ensures
        64 <= pixel_op(prev, p)[0] < 128 ==> diff_fits(prev, p),
        128 <= pixel_op(prev, p)[0] < 192 ==> luma_fits(prev, p) && !diff_fits(prev, p),
        p.alpha != prev.alpha ==> pixel_op(prev, p) == seq![
            QOI_OP_RGBA,
            p.red,
            p.green,
            p.blue,
            p.alpha,
        ],
{
    let rest = Seq::<u8>::empty();
    let cache = Seq::<QoiPixel>::empty();
    if p.alpha == prev.alpha && diff_fits(prev, p) {
        lemma_pixel_of_diff(p, rest, cache, prev);
    } else if p.alpha == prev.alpha && luma_fits(prev, p) {
        lemma_pixel_of_luma(p, rest, cache, prev);
    } else {
        lemma_pixel_of_raw(p, rest, cache, prev);
    }
}

/// Pixels equal to the previous one, while the pending run stays under the
/// cap, emit nothing and only lengthen the run.
proof fn lemma_run_grows(px: Seq<QoiPixel>, k: int, m: int, cache: Seq<QoiPixel>, p: QoiPixel, run: nat)
    requires
        0 <= k,
        0 <= m,
        k + m <= px.len(),
        run + m < MAX_RUN,
        forall|i: int| k <= i < k + m ==> px[i] == p,
    ensures
        encode_ops(px, k, cache, p, run) == encode_ops(px, k + m, cache, p, (run + m) as nat),
    decreases m,
{
    if m > 0 {
        lemma_run_grows(px, k + 1, m - 1, cache, p, run + 1);
        assert(enc_emit(cache, p, run, p) =~= Seq::<u8>::empty());
        assert(encode_ops(px, k, cache, p, run) =~= encode_ops(px, k + 1, cache, p, run + 1));
    }
}

/// After a pixel `p`, sixty-two more copies of `p` and then one more are
/// written as a run of 62 followed by a run of 1: no run operation ever
/// carries 63.
pub proof fn lemma_run_cap(p: QoiPixel, cache: Seq<QoiPixel>)
    ensures
        encode_ops(repeat(p, 63), 0, cache, p, 0) == seq![run_byte(62), run_byte(1)],
        run_byte(62) == 0xfd,
        run_byte(1) == 0xc0,
{
    let px = repeat(p, 63);
    lemma_run_grows(px, 0, 61, cache, p, 0);
    assert(encode_ops(px, 63, cache, p, 1) == flush(1));
    assert(encode_ops(px, 62, cache, p, 0) =~= encode_ops(px, 63, cache, p, 1));
    assert(encode_ops(px, 61, cache, p, 61) =~= seq![run_byte(62)] + encode_ops(px, 62, cache, p, 0));
    assert(seq![run_byte(62)] + flush(1) =~= seq![run_byte(62), run_byte(1)]);
    assert(0xc0u8 | 61u8 == 0xfdu8) by (bit_vector);
    assert(0xc0u8 | 0u8 == 0xc0u8) by (bit_vector);
}

/// The encoder's cache, previous pixel and pending run just before it reads
/// `px[k]`.
pub open spec fn enc_state(px: Seq<QoiPixel>, k: int) -> (Seq<QoiPixel>, QoiPixel, nat)
    decreases k,
{
    if k <= 0 {
        (initial_cache(), opaque_black(), 0)
    } else {
        let (c, prev, run) = enc_state(px, k - 1);
        let p = px[k - 1];
        (enc_cache(c, prev, p), p, enc_run(prev, run, p))
    }
}

/// The bytes that the encoder has emitted once it has read `px[..k]`.
pub open spec fn enc_prefix(px: Seq<QoiPixel>, k: int) -> Seq<u8>
    decreases k,
{
    if k <= 0 {
        Seq::empty()
    } else {
        let (c, prev, run) = enc_state(px, k - 1);
        enc_prefix(px, k - 1) + enc_emit(c, prev, run, px[k - 1])
    }
}

/// The bytes emitted on reading `px[k]`.
pub open spec fn emitted_at(px: Seq<QoiPixel>, k: int) -> Seq<u8> {
    let (c, prev, run) = enc_state(px, k);
    enc_emit(c, prev, run, px[k])
}

proof fn lemma_enc_state(px: Seq<QoiPixel>, k: int)
    requires
        0 <= k <= px.len(),
    ensures
        enc_state(px, k).0.len() == 64,
        enc_state(px, k).2 < MAX_RUN,
        enc_state(px, k).1 == (if k == 0 { opaque_black() } else { px[k - 1] }),
        encode_ops(px, 0, initial_cache(), opaque_black(), 0) == enc_prefix(px, k) + encode_ops(
            px,
            k,
            enc_state(px, k).0,
            enc_state(px, k).1,
            enc_state(px, k).2,
        ),
    decreases k,
{
    if k == 0 {
        assert(enc_prefix(px, 0) + encode_ops(px, 0, initial_cache(), opaque_black(), 0)
            =~= encode_ops(px, 0, initial_cache(), opaque_black(), 0));
    } else {
        lemma_enc_state(px, k - 1);
        let (c, prev, run) = enc_state(px, k - 1);
        let p = px[k - 1];
        let rest = encode_ops(px, k, enc_cache(c, prev, p), p, enc_run(prev, run, p));
        assert(encode_ops(px, k - 1, c, prev, run) == enc_emit(c, prev, run, p) + rest);
        assert(enc_prefix(px, k - 1) + (enc_emit(c, prev, run, p) + rest) =~= enc_prefix(px, k)
            + rest);
    }
}

/// Where the bytes of each pixel stand in the operation stream that
/// `encode_spec` places after the header: those of `px[k]` follow those of
/// every earlier pixel, and the stream ends with the flush of the last
/// pending run.
pub proof fn lemma_stream_layout(px: Seq<QoiPixel>, k: int)
    requires
        0 <= k < px.len(),
    ensures
        ({
            let ops = encode_ops(px, 0, initial_cache(), opaque_black(), 0);
            let at = enc_prefix(px, k).len();
            &&& enc_prefix(px, k + 1) == enc_prefix(px, k) + emitted_at(px, k)
            &&& ops.subrange(at as int, (at + emitted_at(px, k).len()) as int) == emitted_at(px, k)
            &&& ops == enc_prefix(px, px.len() as int) + flush(enc_state(px, px.len() as int).2)
        }),
{
    lemma_enc_state(px, k);
    lemma_enc_state(px, px.len() as int);
    let (c, prev, run) = enc_state(px, k);
    let ops = encode_ops(px, 0, initial_cache(), opaque_black(), 0);
    let e = emitted_at(px, k);
    let pre = enc_prefix(px, k);
    let rest = encode_ops(px, k + 1, enc_cache(c, prev, px[k]), px[k], enc_run(prev, run, px[k]));
    assert(encode_ops(px, k, c, prev, run) == e + rest);
    assert(ops =~= pre + (e + rest));
    assert(ops.subrange(pre.len() as int, (pre.len() + e.len()) as int) =~= e);
}

/// No run operation carries more than 62 pixels: each pixel equal to the
/// previous one emits nothing or one run of exactly 62 (`0xfd`); any other
/// pixel first flushes a pending run of 1 to 61 (`0xc0` to `0xfc`); and the
/// run flushed at the end is shorter than 62 as well.
pub proof fn lemma_runs_capped(px: Seq<QoiPixel>, k: int)
    requires
        0 <= k <= px.len(),
    ensures
        enc_state(px, k).2 < MAX_RUN,
        flush(enc_state(px, k).2).len() == 0 || 0xc0 <= flush(enc_state(px, k).2)[0] <= 0xfc,
        k < px.len() && px[k] == enc_state(px, k).1 ==> emitted_at(px, k) == Seq::<u8>::empty()
            || emitted_at(px, k) == seq![0xfdu8],
        k < px.len() && px[k] != enc_state(px, k).1 ==> emitted_at(px, k).subrange(
            0,
            flush(enc_state(px, k).2).len() as int,
        ) == flush(enc_state(px, k).2),
{
    lemma_enc_state(px, k);
    let run = enc_state(px, k).2;
    if run > 0 {
        lemma_run_bits((run - 1) as u8);
        assert(0xc0u8 | 60u8 == 0xfcu8) by (bit_vector);
        let x = (run - 1) as u8;
        assert(x <= 60 ==> 0xc0u8 | x <= 0xfcu8) by (bit_vector);
    }
    assert(0xc0u8 | 61u8 == 0xfdu8) by (bit_vector);
    if k < px.len() {
        let (c, prev, r) = enc_state(px, k);
        let p = px[k];
        if p == prev {
            if r + 1 == MAX_RUN {
                assert(emitted_at(px, k) =~= seq![0xfdu8]);
            }
        } else if c[hash_of(p)] == p {
            assert(emitted_at(px, k).subrange(0, flush(r).len() as int) =~= flush(r));
        } else {
            assert(emitted_at(px, k).subrange(0, flush(r).len() as int) =~= flush(r));
        }
    }
}

/// What follows the flushed run in the bytes of a pixel that differs from
/// the previous one: an index into a slot that holds it, or the operation of
/// `pixel_op`. DIFF is used only when alpha is kept and every colour delta
/// lies in [-2, 1], LUMA only when alpha is kept, DIFF does not apply, the
/// green delta lies in [-32, 31] and the others differ from it by a value in
/// [-8, 7], and a pixel whose alpha changed is an index or a full RGBA.
pub proof fn lemma_ops_at_positions(px: Seq<QoiPixel>, k: int)
    requires
        0 <= k < px.len(),
        px[k] != enc_state(px, k).1,
    ensures
        ({
            let (c, prev, run) = enc_state(px, k);
            let p = px[k];
            let e = emitted_at(px, k);
            let op = e.subrange(flush(run).len() as int, e.len() as int);
            &&& prev == (if k == 0 { opaque_black() } else { px[k - 1] })
            &&& (c[hash_of(p)] == p ==> op == seq![hash_of(p) as u8] && hash_of(p) < 64)
            &&& (c[hash_of(p)] != p ==> op == pixel_op(prev, p))
            &&& (64 <= op[0] < 128 ==> diff_fits(prev, p))
            &&& (128 <= op[0] < 192 ==> luma_fits(prev, p) && !diff_fits(prev, p))
            &&& (p.alpha != prev.alpha ==> op == seq![hash_of(p) as u8] || op == seq![
                QOI_OP_RGBA,
                p.red,
                p.green,
                p.blue,
                p.alpha,
            ])
        }),
{
    lemma_enc_state(px, k);
    let (c, prev, run) = enc_state(px, k);
    let p = px[k];
    let e = emitted_at(px, k);
    let op = e.subrange(flush(run).len() as int, e.len() as int);
    lemma_opcode_ranges(prev, p);
    if c[hash_of(p)] == p {
        lemma_index_bits(hash_of(p) as u8);
        assert(op =~= seq![hash_of(p) as u8]);
    } else {
        assert(op =~= pixel_op(prev, p));
    }
}

} // verus!
