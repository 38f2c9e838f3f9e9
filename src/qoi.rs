use vstd::prelude::*;
use vstd::arithmetic::div_mod::lemma_mod_add_multiples_vanish;
use crate::laws::lemma_prepend_assoc;

verus! {

pub const QOI_OP_INDEX: u8 = 0x00;
pub const QOI_OP_DIFF: u8 = 0x40;
pub const QOI_OP_LUMA: u8 = 0x80;
pub const QOI_OP_RUN: u8 = 0xc0;
pub const QOI_OP_RGB: u8 = 0xfe;
pub const QOI_OP_RGBA: u8 = 0xff;

/// Length of the fixed header that precedes the operation stream.
pub const HEADER_LEN: usize = 14;

/// The longest run that one run operation can carry.
pub const MAX_RUN: u8 = 62;

/// Channel count recorded in the header.
#[derive(Debug, Clone, Copy, PartialEq, Eq, Structural)]
pub enum QoiChannels {
    UNK,
    RGB,
    RGBA,
}

/// Colorspace recorded in the header; carried through, never interpreted.
#[derive(Debug, Clone, Copy, PartialEq, Eq, Structural)]
pub enum QoiColorspace {
    UNK,
    SRGB,
    LINEAR,
}

#[derive(Debug, Clone, Copy, PartialEq, Eq, Structural)]
pub struct QoiPixel {
    pub red: u8,
    pub green: u8,
    pub blue: u8,
    pub alpha: u8,
}

/// Why a byte buffer could not be decoded.
#[derive(Debug, Clone, Copy, PartialEq, Eq, Structural)]
pub enum QoiError {
    HeaderTooShort,
    InvalidMagic,
    TruncatedStream,
    UnrecognizedOpcode,
    PaddingMismatch,
    /// The stream holds more pixels than the header's width times height.
    ExcessPixels,
}

/// Opaque black: the "previous pixel" that encoder and decoder start from.
pub open spec fn opaque_black() -> QoiPixel {
    QoiPixel { red: 0, green: 0, blue: 0, alpha: 255 }
}

/// Fully transparent black: what every cache slot starts with.
pub open spec fn transparent_black() -> QoiPixel {
    QoiPixel { red: 0, green: 0, blue: 0, alpha: 0 }
}

/// The cache slot of a pixel.
pub open spec fn hash_of(p: QoiPixel) -> int {
    (p.red * 3 + p.green * 5 + p.blue * 7 + p.alpha * 11) % 64
}

/// The cache as both directions find it before the first pixel.
pub open spec fn initial_cache() -> Seq<QoiPixel> {
    Seq::new(64, |i: int| transparent_black())
}

impl QoiPixel {
    pub fn empty() -> (r: QoiPixel)
        ensures
            r == opaque_black(),
    {
        QoiPixel { red: 0, green: 0, blue: 0, alpha: 255 }
    }

    pub fn clear() -> (r: QoiPixel)
        ensures
            r == transparent_black(),
    {
        QoiPixel { red: 0, green: 0, blue: 0, alpha: 0 }
    }

    pub fn new(red: u8, green: u8, blue: u8, alpha: u8) -> (r: QoiPixel)
        ensures
            r == (QoiPixel { red, green, blue, alpha }),
    {
        QoiPixel { red: red, green: green, blue: blue, alpha: alpha }
    }

    pub fn hash(&self) -> (r: usize)
        ensures
            r == hash_of(*self),
            r < 64,
    {
        (self.red as usize * 3 + self.green as usize * 5 + self.blue as usize * 7
            + self.alpha as usize * 11) % 64
    }
}

/// Wrapping 8-bit addition of three terms.
fn add3(a: u8, b: u8, c: u8) -> (r: u8)
    ensures
        r == (a + b + c) % 256,
{
    (((a as u32) + (b as u32) + (c as u32)) % 256) as u8
}

/// The signed difference of two channel values. The remainder by 256 is
/// Rust's truncating one, so for 8-bit operands it leaves the difference as is.
fn sub(a: u8, b: u8) -> (r: i32)
    ensures
        r == a - b,
{
    ((a as i32) - (b as i32)) % 256
}

fn is_op_rgb(byte: u8) -> (r: bool)
    ensures
        r == (byte == QOI_OP_RGB),
{
    byte == 254
}

fn is_op_rgba(byte: u8) -> (r: bool)
    ensures
        r == (byte == QOI_OP_RGBA),
{
    byte == 255
}

fn is_op_index(byte: u8) -> (r: bool)
    ensures
        r == (byte < 64),
{
    assert((byte & 192) == 0 <==> byte < 64) by (bit_vector);
    (byte & 192) == 0
}

fn is_op_diff(byte: u8) -> (r: bool)
    ensures
        r == (64 <= byte < 128),
{
    assert((byte & 192) == 64 <==> 64 <= byte < 128) by (bit_vector);
    (byte & 192) == 64
}

fn is_op_luma(byte: u8) -> (r: bool)
    ensures
        r == (128 <= byte < 192),
{
    assert((byte & 192) == 128 <==> 128 <= byte < 192) by (bit_vector);
    (byte & 192) == 128
}

fn is_op_run(byte: u8) -> (r: bool)
    ensures
        r == (192 <= byte),
{
    assert((byte & 192) == 192 <==> 192 <= byte) by (bit_vector);
    (byte & 192) == 192
}

/// The four big-endian bytes of a 32-bit value.
pub open spec fn be_bytes(v: u32) -> Seq<u8> {
    seq![(v / 0x1000000) as u8, ((v / 0x10000) % 256) as u8, ((v / 0x100) % 256) as u8, (v % 256) as u8]
}

fn write_32(v: u32) -> (r: Vec<u8>)
    ensures
        r@ == be_bytes(v),
{
    let mut split = Vec::new();
    assert(((0xff000000 & v) >> 24) == v / 0x1000000) by (bit_vector);
    assert(((0x00ff0000 & v) >> 16) == (v / 0x10000) % 256) by (bit_vector);
    assert(((0x0000ff00 & v) >> 8) == (v / 0x100) % 256) by (bit_vector);
    assert((0x000000ff & v) == v % 256) by (bit_vector);
    split.push(((0xff000000 & v) >> 24) as u8);
    split.push(((0x00ff0000 & v) >> 16) as u8);
    split.push(((0x0000ff00 & v) >> 8) as u8);
    split.push((0x000000ff & v) as u8);
    split
}


/// The big-endian 32-bit value of the four bytes of `b` from `at` on.
fn read_32(b: &Vec<u8>, at: usize) -> (r: u32)
    requires
        at + 4 <= b@.len(),
    ensures
        r == be_value(b@, at as int),
{
    // the length bounds `at + 3`, so no index below overflows
    let len = b.len();
    assert(at + 3 < len);
    (b[at] as u32) * 0x1000000 + (b[at + 1] as u32) * 0x10000 + (b[at + 2] as u32) * 0x100 + (b[
        at + 3] as u32)
}

// ---------------------------------------------------------------------------
// The header.

/// The four magic bytes, `"qoif"`.
pub open spec fn magic() -> Seq<u8> {
    seq![113u8, 111u8, 105u8, 102u8]
}

/// The eight bytes that close every stream.
pub open spec fn end_marker() -> Seq<u8> {
    Seq::new(8, |k: int| if k == 7 { 1u8 } else { 0u8 })
}

pub open spec fn channels_byte(c: QoiChannels) -> u8 {
    match c {
        QoiChannels::RGB => 3,
        QoiChannels::RGBA => 4,
        QoiChannels::UNK => 1,
    }
}

pub open spec fn colorspace_byte(c: QoiColorspace) -> u8 {
    match c {
        QoiColorspace::SRGB => 0,
        QoiColorspace::LINEAR => 1,
        QoiColorspace::UNK => 2,
    }
}

pub open spec fn channels_of(b: u8) -> QoiChannels {
    if b == 3 {
        QoiChannels::RGB
    } else if b == 4 {
        QoiChannels::RGBA
    } else {
        QoiChannels::UNK
    }
}

pub open spec fn colorspace_of(b: u8) -> QoiColorspace {
    if b == 0 {
        QoiColorspace::SRGB
    } else if b == 1 {
        QoiColorspace::LINEAR
    } else {
        QoiColorspace::UNK
    }
}

/// The big-endian value of the four bytes of `s` from `at` on.
pub open spec fn be_value(s: Seq<u8>, at: int) -> u32 {
    (s[at] * 0x1000000 + s[at + 1] * 0x10000 + s[at + 2] * 0x100 + s[at + 3]) as u32
}

pub open spec fn header_bytes(w: u32, h: u32, c: QoiChannels, cs: QoiColorspace) -> Seq<u8> {
    magic() + be_bytes(w) + be_bytes(h) + seq![channels_byte(c), colorspace_byte(cs)]
}

// ---------------------------------------------------------------------------
// The encoder, as a function of the pixels still to come and of its state:
// the cache, the previous pixel and the length of the pending run.

/// The byte of a run operation of length `n`, for `1 <= n <= 62`.
pub open spec fn run_byte(n: int) -> u8 {
    QOI_OP_RUN | ((n - 1) as u8)
}

/// What a pending run of length `run` is flushed as.
pub open spec fn flush(run: nat) -> Seq<u8> {
    if run > 0 {
        seq![run_byte(run as int)]
    } else {
        seq![]
    }
}

pub open spec fn delta(a: u8, b: u8) -> int {
    a - b
}

/// DIFF applies: alpha is kept and each colour delta lies in [-2, 1].
pub open spec fn diff_fits(prev: QoiPixel, p: QoiPixel) -> bool {
    &&& p.alpha == prev.alpha
    &&& -2 <= delta(p.red, prev.red) <= 1
    &&& -2 <= delta(p.green, prev.green) <= 1
    &&& -2 <= delta(p.blue, prev.blue) <= 1
}

/// LUMA applies: alpha is kept, the green delta lies in [-32, 31] and the red
/// and blue deltas differ from it by a value in [-8, 7].
pub open spec fn luma_fits(prev: QoiPixel, p: QoiPixel) -> bool {
    let dg = delta(p.green, prev.green);
    &&& p.alpha == prev.alpha
    &&& -32 <= dg <= 31
    &&& -8 <= delta(p.red, prev.red) - dg <= 7
    &&& -8 <= delta(p.blue, prev.blue) - dg <= 7
}

/// The operation that spells out `p` after `prev`, when neither a run nor
/// the cache applies.
pub open spec fn pixel_op(prev: QoiPixel, p: QoiPixel) -> Seq<u8> {
    let dr = delta(p.red, prev.red);
    let dg = delta(p.green, prev.green);
    let db = delta(p.blue, prev.blue);
    if p.alpha != prev.alpha {
        seq![QOI_OP_RGBA, p.red, p.green, p.blue, p.alpha]
    } else if diff_fits(prev, p) {
        seq![QOI_OP_DIFF | (((dr + 2) as u8) << 4u8) | (((dg + 2) as u8) << 2u8) | ((db + 2) as u8)]
    } else if luma_fits(prev, p) {
        seq![
            QOI_OP_LUMA | ((dg + 32) as u8),
            (((dr - dg + 8) as u8) << 4u8) | ((db - dg + 8) as u8),
        ]
    } else {
        seq![QOI_OP_RGB, p.red, p.green, p.blue]
    }
}

/// The bytes emitted on reading pixel `p`.
pub open spec fn enc_emit(cache: Seq<QoiPixel>, prev: QoiPixel, run: nat, p: QoiPixel) -> Seq<u8> {
    if p == prev {
        if run + 1 == MAX_RUN {
            seq![run_byte(MAX_RUN as int)]
        } else {
            seq![]
        }
    } else if cache[hash_of(p)] == p {
        flush(run).push(QOI_OP_INDEX | (hash_of(p) as u8))
    } else {
        flush(run) + pixel_op(prev, p)
    }
}

/// The cache after reading pixel `p`.
pub open spec fn enc_cache(cache: Seq<QoiPixel>, prev: QoiPixel, p: QoiPixel) -> Seq<QoiPixel> {
    if p != prev && cache[hash_of(p)] != p {
        cache.update(hash_of(p), p)
    } else {
        cache
    }
}

/// The pending run after reading pixel `p`.
pub open spec fn enc_run(prev: QoiPixel, run: nat, p: QoiPixel) -> nat {
    if p == prev && run + 1 < MAX_RUN {
        (run + 1) as nat
    } else {
        0
    }
}

/// The operations that encode `px` from position `k` on, from the given
/// state, the last pending run included.
pub open spec fn encode_ops(
    px: Seq<QoiPixel>,
    k: int,
    cache: Seq<QoiPixel>,
    prev: QoiPixel,
    run: nat,
) -> Seq<u8>
    decreases px.len() - k,
{
    if k >= px.len() || k < 0 {
        flush(run)
    } else {
        let p = px[k];
        enc_emit(cache, prev, run, p) + encode_ops(
            px,
            k + 1,
            enc_cache(cache, prev, p),
            p,
            enc_run(prev, run, p),
        )
    }
}

/// The whole encoded form of an image.
pub open spec fn encode_spec(
    px: Seq<QoiPixel>,
    w: u32,
    h: u32,
    c: QoiChannels,
    cs: QoiColorspace,
) -> Seq<u8> {
    header_bytes(w, h, c, cs) + encode_ops(px, 0, initial_cache(), opaque_black(), 0) + end_marker()
}

// ---------------------------------------------------------------------------
// The decoder, as a function of the bytes still to come and of its state.

pub open spec fn wrap(x: int) -> u8 {
    (x % 256) as u8
}

pub open spec fn is_run_byte(b: u8) -> bool {
    192 <= b < 254
}

/// How many bytes the operation that starts with `b` takes.
pub open spec fn op_len(b: u8) -> int {
    if b == QOI_OP_RGB {
        4
    } else if b == QOI_OP_RGBA {
        5
    } else if 128 <= b < 192 {
        2
    } else {
        1
    }
}

/// How many pixels the operation that starts with `b` yields.
pub open spec fn op_count(b: u8) -> nat {
    if is_run_byte(b) {
        ((b & 63u8) + 1) as nat
    } else {
        1
    }
}

/// The pixel that the operation at the front of `s` yields.
pub open spec fn op_pixel(s: Seq<u8>, cache: Seq<QoiPixel>, prev: QoiPixel) -> QoiPixel {
    let b = s[0];
    if b == QOI_OP_RGB {
        QoiPixel { red: s[1], green: s[2], blue: s[3], alpha: prev.alpha }
    } else if b == QOI_OP_RGBA {
        QoiPixel { red: s[1], green: s[2], blue: s[3], alpha: s[4] }
    } else if b < 64 {
        cache[b as int]
    } else if b < 128 {
        QoiPixel {
            red: wrap(prev.red + ((b & 48u8) >> 4u8) - 2),
            green: wrap(prev.green + ((b & 12u8) >> 2u8) - 2),
            blue: wrap(prev.blue + (b & 3u8) - 2),
            alpha: prev.alpha,
        }
    } else if b < 192 {
        let dg = (b & 63u8) - 32;
        QoiPixel {
            red: wrap(prev.red + ((s[1] >> 4u8) & 15u8) - 8 + dg),
            green: wrap(prev.green + dg),
            blue: wrap(prev.blue + (s[1] & 15u8) - 8 + dg),
            alpha: prev.alpha,
        }
    } else {
        prev
    }
}

/// The cache after the operation at the front of `s` yielded `p`.
pub open spec fn dec_cache(b: u8, cache: Seq<QoiPixel>, p: QoiPixel) -> Seq<QoiPixel> {
    if is_run_byte(b) {
        cache
    } else {
        cache.update(hash_of(p), p)
    }
}

/// `k` copies of `p`.
pub open spec fn repeat(p: QoiPixel, k: nat) -> Seq<QoiPixel> {
    Seq::new(k, |i: int| p)
}

proof fn lemma_append_repeat(front: Seq<QoiPixel>, p: QoiPixel, k: nat)
    ensures
        front + repeat(p, k + 1) =~= (front + repeat(p, k)).push(p),
{
    assert(repeat(p, k + 1) =~= repeat(p, k).push(p));
}

pub open spec fn prepend(
    front: Seq<QoiPixel>,
    r: Option<(Seq<QoiPixel>, Seq<u8>)>,
) -> Option<(Seq<QoiPixel>, Seq<u8>)> {
    match r {
        Some((px, t)) => Some((front + px, t)),
        None => None,
    }
}

/// Decodes operations from the front of `s` while more than eight bytes are
/// left: the pixels, and the bytes left over; `None` where an operation runs
/// past the end of `s`.
#[verifier::opaque]
pub open spec fn decode_ops(s: Seq<u8>, cache: Seq<QoiPixel>, prev: QoiPixel) -> Option<
    (Seq<QoiPixel>, Seq<u8>),
>
    decreases s.len(),
{
    if s.len() <= 8 {
        Some((seq![], s))
    } else if s.len() < op_len(s[0]) {
        None
    } else {
        let p = op_pixel(s, cache, prev);
        prepend(
            repeat(p, op_count(s[0])),
            decode_ops(s.subrange(op_len(s[0]), s.len() as int), dec_cache(s[0], cache, p), p),
        )
    }
}

/// One step of `decode_ops`.
pub proof fn lemma_decode_ops_unfold(s: Seq<u8>, cache: Seq<QoiPixel>, prev: QoiPixel)
    ensures
        decode_ops(s, cache, prev) == (if s.len() <= 8 {
            Some((seq![], s))
        } else if s.len() < op_len(s[0]) {
            None
        } else {
            let p = op_pixel(s, cache, prev);
            prepend(
                repeat(p, op_count(s[0])),
                decode_ops(
                    s.subrange(op_len(s[0]), s.len() as int),
                    dec_cache(s[0], cache, p),
                    p,
                ),
            )
        }),
{
    reveal(decode_ops);
}

/// What a byte buffer decodes to: width, height, channels, colorspace and
/// exactly width times height pixels, or the error.
pub open spec fn decode_spec(bytes: Seq<u8>) -> Result<
    (u32, u32, QoiChannels, QoiColorspace, Seq<QoiPixel>),
    QoiError,
> {
    if bytes.len() < 14 {
        Err(QoiError::HeaderTooShort)
    } else if bytes.subrange(0, 4) != magic() {
        Err(QoiError::InvalidMagic)
    } else {
        match decode_ops(bytes.subrange(14, bytes.len() as int), initial_cache(), opaque_black()) {
            None => Err(QoiError::TruncatedStream),
            Some((px, t)) => if t != end_marker() {
                Err(QoiError::PaddingMismatch)
            } else if px.len() < be_value(bytes, 4) * be_value(bytes, 8) {
                Err(QoiError::TruncatedStream)
            } else if px.len() > be_value(bytes, 4) * be_value(bytes, 8) {
                Err(QoiError::ExcessPixels)
            } else {
                Ok(
                    (
                        be_value(bytes, 4),
                        be_value(bytes, 8),
                        channels_of(bytes[12]),
                        colorspace_of(bytes[13]),
                        px,
                    ),
                )
            },
        }
    }
}


// ---------------------------------------------------------------------------
// The image container.

/// An image in its encoded form, its decoded form, or both. Converting one
/// form into the other is an explicit step that replaces the other field.
#[derive(Debug, Clone)]
pub struct QoiFile {
    pub encoded: Vec<u8>,
    pub decoded: Vec<QoiPixel>,
    pub width: u32,
    pub height: u32,
    pub channels: QoiChannels,
    pub colorspace: QoiColorspace,
}

/// Row-major position of `(x, y)` in an image `width` pixels wide.
pub open spec fn pixel_index(width: u32, x: usize, y: usize) -> int {
    y * width + x
}

/// The header fields and pixels that a file holds.
pub open spec fn file_contents(f: QoiFile) -> (u32, u32, QoiChannels, QoiColorspace, Seq<QoiPixel>) {
    (f.width, f.height, f.channels, f.colorspace, f.decoded@)
}

fn new_cache() -> (r: Vec<QoiPixel>)
    ensures
        r@ == initial_cache(),
{
    let mut cache: Vec<QoiPixel> = Vec::new();
    let mut i: usize = 0;
    while i < 64
        invariant
            i <= 64,
            cache@ == Seq::new(i as nat, |j: int| transparent_black()),
        decreases 64 - i,
    {
        cache.push(QoiPixel::clear());
        i = i + 1;
        assert(cache@ =~= Seq::new(i as nat, |j: int| transparent_black()));
    }
    cache
}

/// The outcome of a decode, as header fields and pixels.
pub open spec fn decode_outcome(r: Result<QoiFile, QoiError>) -> Result<
    (u32, u32, QoiChannels, QoiColorspace, Seq<QoiPixel>),
    QoiError,
> {
    match r {
        Ok(f) => Ok(file_contents(f)),
        Err(e) => Err(e),
    }
}

/// Appends the operation that spells out `pixel` after `prev`.
fn push_pixel_op(out: &mut Vec<u8>, prev: QoiPixel, pixel: QoiPixel)
    ensures
        final(out)@ == old(out)@ + pixel_op(prev, pixel),
{
    if pixel.alpha == prev.alpha {
        let vr: i32 = crate::qoi::sub(pixel.red, prev.red);
        let vg: i32 = crate::qoi::sub(pixel.green, prev.green);
        let vb: i32 = crate::qoi::sub(pixel.blue, prev.blue);

        let vg_r: i32 = vr - vg;
        let vg_b: i32 = vb - vg;

        if vr > -3 && vr < 2 && vg > -3 && vg < 2 && vb > -3 && vb < 2 {
            out.push(
                QOI_OP_DIFF | (((vr + 2) as u8) << 4u8) | (((vg + 2) as u8) << 2u8) | (vb + 2) as u8,
            );
        } else if vg_r > -9 && vg_r < 8 && vg > -33 && vg < 32 && vg_b > -9 && vg_b < 8 {
            out.push(QOI_OP_LUMA | (vg + 32) as u8);
            out.push((((vg_r + 8) as u8) << 4u8) | (vg_b + 8) as u8);
        } else {
            out.push(QOI_OP_RGB);
            out.push(pixel.red);
            out.push(pixel.green);
            out.push(pixel.blue);
        }
    } else {
        out.push(QOI_OP_RGBA);
        out.push(pixel.red);
        out.push(pixel.green);
        out.push(pixel.blue);
        out.push(pixel.alpha);
    }
    assert(final(out)@ =~= old(out)@ + pixel_op(prev, pixel));
}

impl QoiFile {
    /// The pixel at column `x` of row `y`, or opaque black where that position
    /// lies outside the image or past the decoded pixels.
    pub fn get(&self, x: usize, y: usize) -> (r: QoiPixel)
        ensures
            x < self.width && y < self.height && pixel_index(self.width, x, y)
                < self.decoded@.len() ==> r == self.decoded@[pixel_index(self.width, x, y)],
            !(x < self.width && y < self.height && pixel_index(self.width, x, y)
                < self.decoded@.len()) ==> r == opaque_black(),
    {
        if x as u64 >= self.width as u64 || y as u64 >= self.height as u64 {
            return QoiPixel::empty();
        }
        let row = y.checked_mul(self.width as usize);
        match row {
            None => {
                let n = self.decoded.len();
                assert(pixel_index(self.width, x, y) >= n);
                QoiPixel::empty()
            },
            Some(row) => match row.checked_add(x) {
                None => {
                    let n = self.decoded.len();
                    assert(pixel_index(self.width, x, y) >= n);
                    QoiPixel::empty()
                },
                Some(idx) => {
                    if self.decoded.len() <= idx {
                        return QoiPixel::empty();
                    }
                    self.decoded[idx]
                },
            },
        }
    }

    /// Replaces the encoded form by the encoding of the decoded pixels and
    /// the header fields.
    pub fn encode(self) -> (r: QoiFile)
        ensures
            r.encoded@ == encode_spec(
                self.decoded@,
                self.width,
                self.height,
                self.channels,
                self.colorspace,
            ),
            r.decoded@ == self.decoded@,
            r.width == self.width,
            r.height == self.height,
            r.channels == self.channels,
            r.colorspace == self.colorspace,
    {
        let mut out: Vec<u8> = Vec::new();
        out.push(0x71);  // 'q'
        out.push(0x6f);  // 'o'
        out.push(0x69);  // 'i'
        out.push(0x66);  // 'f'
        let mut w = write_32(self.width);
        out.append(&mut w);
        let mut h = write_32(self.height);
        out.append(&mut h);
        out.push(
            match self.channels {
                QoiChannels::RGB => 3,
                QoiChannels::RGBA => 4,
                QoiChannels::UNK => 1,
            },
        );
        out.push(
            match self.colorspace {
                QoiColorspace::SRGB => 0,
                QoiColorspace::LINEAR => 1,
                QoiColorspace::UNK => 2,
            },
        );
        let ghost hd = header_bytes(self.width, self.height, self.channels, self.colorspace);
        assert(out@ =~= hd);

        let ghost px = self.decoded@;
        let ghost whole = encode_ops(px, 0, initial_cache(), opaque_black(), 0);
        let mut running_array = new_cache();
        let mut previous_pixel = QoiPixel::empty();
        let mut run_length: u8 = 0;
        let mut i: usize = 0;
        assert(out@ + encode_ops(px, 0, running_array@, previous_pixel, run_length as nat) == hd
            + whole);
        while i < self.decoded.len()
            invariant
                px == self.decoded@,
                i <= px.len(),
                running_array@.len() == 64,
                run_length < MAX_RUN,
                out@ + encode_ops(px, i as int, running_array@, previous_pixel, run_length as nat)
                    == hd + whole,
            decreases px.len() - i,
        {
            let pixel = self.decoded[i];
            let ghost out0 = out@;
            let ghost cache0 = running_array@;
            let ghost run0 = run_length as nat;
            let ghost rest = encode_ops(
                px,
                i + 1,
                enc_cache(cache0, previous_pixel, pixel),
                pixel,
                enc_run(previous_pixel, run0, pixel),
            );
            if pixel == previous_pixel {
                run_length += 1;
                if run_length == MAX_RUN {
                    proof {
                        assert(QOI_OP_RUN | (run_length - 1) as u8 == run_byte(MAX_RUN as int));
                    }
                    out.push(QOI_OP_RUN | (run_length - 1));
                    run_length = 0;
                }
            } else {
                if run_length > 0 {
                    out.push(QOI_OP_RUN | (run_length - 1));
                }
                run_length = 0;
                let h = pixel.hash();
                if running_array[h] == pixel {
                    out.push(QOI_OP_INDEX | h as u8);
                } else {
                    running_array.set(h, pixel);
                    push_pixel_op(&mut out, previous_pixel, pixel);
                }
            }
            assert(out@ =~= out0 + enc_emit(cache0, previous_pixel, run0, pixel));
            assert(running_array@ =~= enc_cache(cache0, previous_pixel, pixel));
            assert(out0 + (enc_emit(cache0, previous_pixel, run0, pixel) + rest) =~= out@ + rest);
            previous_pixel = pixel;
            i = i + 1;
        }
        if run_length > 0 {
            out.push(QOI_OP_RUN | (run_length - 1));
        }
        out.push(0);
        out.push(0);
        out.push(0);
        out.push(0);
        out.push(0);
        out.push(0);
        out.push(0);
        out.push(1);
        assert(out@ =~= hd + whole + end_marker());
        QoiFile {
            encoded: out,
            decoded: self.decoded,
            width: self.width,
            height: self.height,
            channels: self.channels,
            colorspace: self.colorspace,
        }
    }

    /// Decodes the encoded form: the header fields and the pixels, or the
    /// first error met. The encoded form is kept.
    pub fn decode(self) -> (r: Result<QoiFile, QoiError>)
        ensures
            decode_outcome(r) == decode_spec(self.encoded@),
            r is Ok ==> r->Ok_0.encoded@ == self.encoded@,
    {
        let len = self.encoded.len();
        if len < HEADER_LEN {
            return Err(QoiError::HeaderTooShort);
        }
        let ghost bytes = self.encoded@;
        assert(bytes.subrange(0, 4)[0] == bytes[0] && bytes.subrange(0, 4)[1] == bytes[1]
            && bytes.subrange(0, 4)[2] == bytes[2] && bytes.subrange(0, 4)[3] == bytes[3]);
        if !(self.encoded[0] == 0x71 && self.encoded[1] == 0x6f && self.encoded[2] == 0x69
            && self.encoded[3] == 0x66) {
            return Err(QoiError::InvalidMagic);
        }
        assert(bytes.subrange(0, 4) =~= magic());

        let width = read_32(&self.encoded, 4);
        let height = read_32(&self.encoded, 8);
        let channels = match self.encoded[12] {
            3 => QoiChannels::RGB,
            4 => QoiChannels::RGBA,
            _ => QoiChannels::UNK,
        };
        let colorspace = match self.encoded[13] {
            0 => QoiColorspace::SRGB,
            1 => QoiColorspace::LINEAR,
            _ => QoiColorspace::UNK,
        };

        let mut decoded: Vec<QoiPixel> = Vec::new();
        let mut running_array = new_cache();
        let mut previous_pixel = QoiPixel::empty();
        let ghost whole = decode_ops(bytes.subrange(14, len as int), initial_cache(), opaque_black());
        let mut i: usize = HEADER_LEN;
        assert(decoded@ + Seq::<QoiPixel>::empty() =~= decoded@);
        assert(whole == prepend(decoded@, whole));
        while i < len - 8
            invariant
                bytes == self.encoded@,
                len == bytes.len(),
                14 <= i <= len,
                running_array@.len() == 64,
                whole == prepend(
                    decoded@,
                    decode_ops(bytes.subrange(i as int, len as int), running_array@, previous_pixel),
                ),
            decreases len - i,
        {
            let ghost s = bytes.subrange(i as int, len as int);
            let ghost cache0 = running_array@;
            let ghost out0 = decoded@;
            proof {
                lemma_decode_ops_unfold(s, cache0, previous_pixel);
            }
            let b = self.encoded[i];
            assert(s[0] == b);
            let current_pixel: QoiPixel;
            let mut run_length: u8 = 1;
            let mut run_op = false;
            let step: usize;
            if is_op_rgb(b) {
                if len - i < 4 {
                    return Err(QoiError::TruncatedStream);
                }
                assert(s[1] == bytes[i + 1] && s[2] == bytes[i + 2] && s[3] == bytes[i + 3]);
                current_pixel = QoiPixel::new(
                    self.encoded[i + 1],
                    self.encoded[i + 2],
                    self.encoded[i + 3],
                    previous_pixel.alpha,
                );
                step = 4;
            } else if is_op_rgba(b) {
                if len - i < 5 {
                    return Err(QoiError::TruncatedStream);
                }
                assert(s[1] == bytes[i + 1] && s[2] == bytes[i + 2] && s[3] == bytes[i + 3] && s[4]
                    == bytes[i + 4]);
                current_pixel = QoiPixel::new(
                    self.encoded[i + 1],
                    self.encoded[i + 2],
                    self.encoded[i + 3],
                    self.encoded[i + 4],
                );
                step = 5;
            } else if is_op_index(b) {
                current_pixel = running_array[b as usize];
                step = 1;
            } else if is_op_diff(b) {
                let fr = (b & 48) >> 4;
                let fg = (b & 12) >> 2;
                let fb = b & 3;
                assert(fr < 4 && fg < 4 && fb < 4) by (bit_vector)
                    requires
                        fr == (b & 48) >> 4,
                        fg == (b & 12) >> 2,
                        fb == b & 3,
                ;
                // adding 254 takes 2 away, modulo 256
                proof {
                    lemma_mod_add_multiples_vanish(previous_pixel.red + fr - 2, 256);
                    lemma_mod_add_multiples_vanish(previous_pixel.green + fg - 2, 256);
                    lemma_mod_add_multiples_vanish(previous_pixel.blue + fb - 2, 256);
                }
                current_pixel = QoiPixel::new(
                    add3(previous_pixel.red, fr, 254),
                    add3(previous_pixel.green, fg, 254),
                    add3(previous_pixel.blue, fb, 254),
                    previous_pixel.alpha,
                );
                step = 1;
            } else if is_op_luma(b) {
                if len - i < 2 {
                    return Err(QoiError::TruncatedStream);
                }
                let g = b & 63;
                let next_byte = self.encoded[i + 1];
                assert(s[1] == next_byte);
                let drdg = (next_byte >> 4) & 15;
                let dbdg = next_byte & 15;
                assert(g < 64 && drdg < 16 && dbdg < 16) by (bit_vector)
                    requires
                        g == b & 63,
                        drdg == (next_byte >> 4) & 15,
                        dbdg == next_byte & 15,
                ;
                // adding 224 takes 32 away, and 216 takes 40 away, modulo 256
                proof {
                    lemma_mod_add_multiples_vanish(previous_pixel.red + drdg - 8 + (g - 32), 256);
                    lemma_mod_add_multiples_vanish(previous_pixel.green + (g - 32), 256);
                    lemma_mod_add_multiples_vanish(previous_pixel.blue + dbdg - 8 + (g - 32), 256);
                }
                current_pixel = QoiPixel::new(
                    add3(previous_pixel.red, drdg + g, 216),
                    add3(previous_pixel.green, g, 224),
                    add3(previous_pixel.blue, dbdg + g, 216),
                    previous_pixel.alpha,
                );
                step = 2;
            } else if is_op_run(b) {
                assert(b & 63 < 64) by (bit_vector);
                current_pixel = previous_pixel;
                run_length = (b & 63) + 1;
                run_op = true;
                step = 1;
            } else {
                return Err(QoiError::UnrecognizedOpcode);
            }
            assert(current_pixel == op_pixel(s, cache0, previous_pixel));
            assert(step == op_len(b));
            assert(run_length == op_count(b));

            assert(run_op == is_run_byte(b));
            if !run_op {
                running_array.set(current_pixel.hash(), current_pixel);
            }
            assert(running_array@ == dec_cache(b, cache0, current_pixel));

            let mut k: u8 = 0;
            while k < run_length
                invariant
                    k <= run_length,
                    decoded@ == out0 + repeat(current_pixel, k as nat),
                decreases run_length - k,
            {
                proof {
                    lemma_append_repeat(out0, current_pixel, k as nat);
                }
                decoded.push(current_pixel);
                k = k + 1;
            }

            assert(s.subrange(step as int, s.len() as int) =~= bytes.subrange(
                (i + step) as int,
                len as int,
            ));
            proof {
                lemma_prepend_assoc(
                    out0,
                    repeat(current_pixel, run_length as nat),
                    decode_ops(
                        bytes.subrange((i + step) as int, len as int),
                        running_array@,
                        current_pixel,
                    ),
                );
            }
            previous_pixel = current_pixel;
            i = i + step;
        }
        proof {
            lemma_decode_ops_unfold(
                bytes.subrange(i as int, len as int),
                running_array@,
                previous_pixel,
            );
        }
        if len - i != 8 {
            assert(bytes.subrange(i as int, len as int).len() != end_marker().len());
            return Err(QoiError::PaddingMismatch);
        }
        assert(whole == Some((decoded@, bytes.subrange(i as int, len as int))));
        let mut j: usize = 0;
        while j < 8
            invariant
                bytes == self.encoded@,
                whole == decode_ops(bytes.subrange(14, len as int), initial_cache(), opaque_black()),
                whole == Some((decoded@, bytes.subrange(i as int, len as int))),
                bytes.subrange(0, 4) == magic(),
                len == bytes.len(),
                14 <= i,
                i + 8 == len,
                j <= 8,
                forall|k: int| 0 <= k < j ==> bytes[i + k] == end_marker()[k],
            decreases 8 - j,
        {
            let expected: u8 = if j == 7 { 1 } else { 0 };
            if self.encoded[i + j] != expected {
                assert(bytes.subrange(i as int, len as int)[j as int] != end_marker()[j as int]);
                return Err(QoiError::PaddingMismatch);
            }
            j = j + 1;
        }
        assert(bytes.subrange(i as int, len as int) =~= end_marker());
        assert(width * height <= 0xffff_ffff * 0xffff_ffff) by (nonlinear_arith)
            requires
                width <= 0xffff_ffff,
                height <= 0xffff_ffff,
        ;
        let expected = width as u64 * height as u64;
        let count = decoded.len() as u64;
        if count < expected {
            return Err(QoiError::TruncatedStream);
        }
        if count > expected {
            return Err(QoiError::ExcessPixels);
        }
        Ok(
            QoiFile {
                encoded: self.encoded,
                decoded,
                width,
                height,
                channels,
                colorspace,
            },
        )
    }
}

} // verus!
