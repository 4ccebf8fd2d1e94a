//! Pictures on their way to the encoder: the width cap and the even dimensions
//! that 4:2:0 chroma wants.

use std::borrow::Cow;

use vstd::arithmetic::div_mod::{
    lemma_div_basics, lemma_div_denominator, lemma_fundamental_div_mod, lemma_fundamental_div_mod_converse,
};
use vstd::arithmetic::power2::{lemma2_to64, lemma_pow2_pos, lemma_pow2_unfold, pow2};
use vstd::prelude::*;

use crate::bytes::copy_bytes;

verus! {

/// Wider frames are halved before they are encoded.
pub const MAX_WIDTH: u32 = 1280;

/// One captured picture, tightly packed 8-bit BGRA.
#[derive(Debug, Clone, PartialEq, Eq)]
pub struct CapturedFrame {
    pub width: u32,
    pub height: u32,
    pub bgra: Vec<u8>,
}

#[verifier::ext_equal]
pub ghost struct PictureView {
    pub width: int,
    pub height: int,
    pub bgra: Seq<u8>,
}

impl View for CapturedFrame {
    type V = PictureView;

    open spec fn view(&self) -> PictureView {
        PictureView { width: self.width as int, height: self.height as int, bgra: self.bgra@ }
    }
}

impl CapturedFrame {
    pub fn copied(&self) -> (r: Self)
        ensures
            r@ == self@,
    {
        CapturedFrame { width: self.width, height: self.height, bgra: copy_bytes(&self.bgra) }
    }
}

/// The largest even number that is not above `n`.
pub open spec fn evened(n: int) -> int {
    n - n % 2
}

/// The first `len` bytes of each of the first `rows` rows.
pub open spec fn row_starts(s: Seq<u8>, stride: int, len: int, rows: nat) -> Seq<u8>
    decreases rows,
{
    if rows == 0 {
        seq![]
    } else {
        row_starts(s, stride, len, (rows - 1) as nat) + s.subrange(
            (rows - 1) * stride,
            (rows - 1) * stride + len,
        )
    }
}

pub open spec fn min_int(a: int, b: int) -> int {
    if a <= b {
        a
    } else {
        b
    }
}

impl PictureView {
    pub open spec fn is_even(self) -> bool {
        self.width % 2 == 0 && self.height % 2 == 0
    }

    /// As many bytes as the dimensions say.
    pub open spec fn is_whole(self) -> bool {
        self.bgra.len() == self.width * self.height * 4
    }

    /// The rows that are there in full.
    pub open spec fn whole_rows(self) -> int {
        self.bgra.len() as int / (self.width * 4)
    }

    /// The picture without an odd last column and row.
    pub open spec fn cropped(self) -> PictureView {
        if self.is_even() {
            self
        } else {
            PictureView {
                width: evened(self.width),
                height: evened(self.height),
                bgra: row_starts(
                    self.bgra,
                    self.width * 4,
                    evened(self.width) * 4,
                    min_int(evened(self.height), self.whole_rows()) as nat,
                ),
            }
        }
    }

    /// One channel of one pixel.
    pub open spec fn sample(self, x: int, y: int, channel: int) -> int {
        self.bgra[y * (self.width * 4) + x * 4 + channel] as int
    }

    /// The rounded mean of a two by two block.
    pub open spec fn block_mean(self, x: int, y: int, channel: int) -> u8 {
        ((self.sample(2 * x, 2 * y, channel) + self.sample(2 * x + 1, 2 * y, channel)
            + self.sample(2 * x, 2 * y + 1, channel) + self.sample(2 * x + 1, 2 * y + 1, channel)
            + 2) / 4) as u8
    }

    /// What byte `k` of the halved picture is: a channel of a pixel of a row.
    pub open spec fn halved_byte(self, k: int) -> u8 {
        let row = (self.width / 2) * 4;
        self.block_mean((k % row) / 4, k / row, (k % row) % 4)
    }

    /// The picture at half the width and half the height.
    pub open spec fn halved(self) -> PictureView {
        PictureView {
            width: self.width / 2,
            height: self.height / 2,
            bgra: Seq::new(
                ((self.height / 2) * ((self.width / 2) * 4)) as nat,
                |k: int| self.halved_byte(k),
            ),
        }
    }

    /// Wider than asked, and wide enough to be halved.
    pub open spec fn too_wide(self, max_width: int) -> bool {
        self.width > max_width && self.width >= 2
    }

    /// The picture halved until it fits.
    pub open spec fn narrowed(self, max_width: int) -> PictureView
        decreases self.width,
    {
        if self.too_wide(max_width) {
            self.halved().narrowed(max_width)
        } else {
            self
        }
    }

    /// Every block of two by two pixels is there.
    pub open spec fn covers_blocks(self) -> bool {
        self.bgra.len() >= (2 * (self.height / 2) - 1) * (self.width * 4) + (self.width / 2) * 8
    }

    /// Cropping reads rows of a length that can be counted, and not none.
    pub open spec fn croppable(self) -> bool {
        self.is_even() || 0 < self.width < 0x4000_0000
    }
}

proof fn lemma_row_starts_len(s: Seq<u8>, stride: int, len: int, rows: nat)
    requires
        0 <= len <= stride,
        rows * stride <= s.len(),
    ensures
        row_starts(s, stride, len, rows).len() == rows * len,
    decreases rows,
{
    if rows > 0 {
        let m = (rows - 1) as nat;
        assert(rows * stride == m * stride + stride) by (nonlinear_arith)
            requires
                rows == m + 1,
        ;
        assert(rows * len == m * len + len) by (nonlinear_arith)
            requires
                rows == m + 1,
        ;
        assert(m * stride >= 0) by (nonlinear_arith)
            requires
                stride >= 0,
                m >= 0,
        ;
        lemma_row_starts_len(s, stride, len, m);
    } else {
        assert(rows * len == 0) by (nonlinear_arith)
            requires
                rows == 0,
        ;
    }
}

/// Cropping a whole picture leaves a whole picture with even dimensions.
pub proof fn law_cropping_keeps_pictures_whole(v: PictureView)
    requires
        v.is_whole(),
        v.width > 0,
        v.height >= 0,
    ensures
        v.cropped().is_whole(),
        v.cropped().is_even(),
{
    if !v.is_even() {
        let stride = v.width * 4;
        assert(v.bgra.len() == v.height * stride) by (nonlinear_arith)
            requires
                v.bgra.len() == v.width * v.height * 4,
                stride == v.width * 4,
        ;
        lemma_fundamental_div_mod_converse(v.bgra.len() as int, stride, v.height, 0);
        let h = evened(v.height);
        let len = evened(v.width) * 4;
        assert(h * stride <= v.bgra.len()) by (nonlinear_arith)
            requires
                h <= v.height,
                stride >= 0,
                v.bgra.len() == v.height * stride,
        ;
        lemma_row_starts_len(v.bgra, stride, len, h as nat);
        assert(h * len == evened(v.width) * h * 4) by (nonlinear_arith)
            requires
                len == evened(v.width) * 4,
        ;
    }
}

/// How often a width is halved until it is no more than `max_width`.
pub open spec fn halvings(width: int, max_width: int) -> nat
    decreases width,
{
    if width > max_width && width >= 2 {
        halvings(width / 2, max_width) + 1
    } else {
        0
    }
}

/// A narrowed picture is no wider than asked, and whole if the picture was.
pub proof fn law_narrowed_pictures_fit(v: PictureView, max_width: int)
    requires
        v.width >= 0,
        v.height >= 0,
        max_width >= 1,
    ensures
        v.narrowed(max_width).width <= max_width,
        v.width > 0 ==> v.narrowed(max_width).width > 0,
        0 <= v.narrowed(max_width).width <= v.width,
        0 <= v.narrowed(max_width).height <= v.height,
        v.is_whole() ==> v.narrowed(max_width).is_whole(),
        v.width <= max_width ==> v.narrowed(max_width) == v,
    decreases v.width,
{
    if v.too_wide(max_width) {
        lemma_halved_is_whole(v);
        law_narrowed_pictures_fit(v.halved(), max_width);
    }
}

/// Both sides of a picture are halved equally often, and no oftener than the
/// width asks for.
pub proof fn law_narrowing_keeps_the_shape(v: PictureView, max_width: int)
    requires
        v.width >= 0,
        v.height >= 0,
        max_width >= 1,
    ensures
        ({
            let k = halvings(v.width, max_width);
            &&& v.narrowed(max_width).width == v.width / (pow2(k) as int)
            &&& v.narrowed(max_width).height == v.height / (pow2(k) as int)
            &&& k > 0 ==> v.width / (pow2((k - 1) as nat) as int) > max_width
        }),
    decreases v.width,
{
    let k = halvings(v.width, max_width);
    lemma2_to64();
    assert(pow2(0) as int == 1);
    lemma_div_basics(v.width);
    lemma_div_basics(v.height);
    if v.too_wide(max_width) {
        let half = v.halved();
        let m = halvings(half.width, max_width);
        law_narrowing_keeps_the_shape(half, max_width);
        lemma_pow2_unfold(k);
        lemma_pow2_pos(m);
        lemma_div_denominator(v.width, 2, pow2(m) as int);
        lemma_div_denominator(v.height, 2, pow2(m) as int);
        assert(k == m + 1);
        assert(v.narrowed(max_width) == half.narrowed(max_width));
        assert(v.width / (pow2(k) as int) == half.width / (pow2(m) as int));
        assert(v.height / (pow2(k) as int) == half.height / (pow2(m) as int));
        if m > 0 {
            let n = (m - 1) as nat;
            lemma_pow2_unfold(m);
            lemma_pow2_pos(n);
            lemma_div_denominator(v.width, 2, pow2(n) as int);
            assert(v.width / (pow2(m) as int) == half.width / (pow2(n) as int));
        }
    }
}

/// A picture of one value all over stays so, however often it is halved.
pub proof fn law_narrowing_keeps_an_even_tone(v: PictureView, max_width: int, tone: u8)
    requires
        v.width >= 0,
        v.height >= 0,
        v.is_whole(),
        forall|i: int| 0 <= i < v.bgra.len() ==> v.bgra[i] == tone,
    ensures
        forall|i: int|
            0 <= i < v.narrowed(max_width).bgra.len() ==> v.narrowed(max_width).bgra[i] == tone,
    decreases v.width,
{
    if v.too_wide(max_width) {
        let half = v.halved();
        lemma_halved_is_whole(v);
        let row = half.width * 4;
        assert forall|k: int| 0 <= k < half.bgra.len() implies half.bgra[k] == tone by {
            let (x, y, channel) = ((k % row) / 4, k / row, (k % row) % 4);
            lemma_fundamental_div_mod(k, row);
            assert(0 <= y < half.height) by (nonlinear_arith)
                requires
                    0 <= k < half.height * row,
                    k == row * y + k % row,
                    0 <= k % row < row,
                    y == k / row,
            ;
            lemma_whole_covers_blocks(v);
            lemma_sample_index(v, 2 * x, 2 * y, channel);
            lemma_sample_index(v, 2 * x + 1, 2 * y, channel);
            lemma_sample_index(v, 2 * x, 2 * y + 1, channel);
            lemma_sample_index(v, 2 * x + 1, 2 * y + 1, channel);
        }
        law_narrowing_keeps_an_even_tone(half, max_width, tone);
        assert(v.narrowed(max_width) == half.narrowed(max_width));
    }
}

proof fn lemma_halved_is_whole(v: PictureView)
    requires
        v.width >= 0,
        v.height >= 0,
    ensures
        v.halved().is_whole(),
{
    let w = v.width / 2;
    let h = v.height / 2;
    assert(h * (w * 4) == w * h * 4) by (nonlinear_arith);
    assert(h * (w * 4) >= 0) by (nonlinear_arith)
        requires
            w >= 0,
            h >= 0,
    ;
}

proof fn lemma_whole_covers_blocks(v: PictureView)
    requires
        v.is_whole(),
        v.width >= 0,
        v.height >= 0,
    ensures
        v.covers_blocks(),
{
    let stride = v.width * 4;
    let h = v.height / 2;
    assert(v.width * v.height * 4 == v.height * stride) by (nonlinear_arith)
        requires
            stride == v.width * 4,
    ;
    assert((2 * h - 1) * stride + stride <= v.height * stride) by (nonlinear_arith)
        requires
            2 * h <= v.height,
            stride >= 0,
    ;
}

/// Drops an odd last column and row rather than stretch. A frame with even
/// dimensions is returned untouched.
pub fn crop_to_even(frame: CapturedFrame) -> (r: CapturedFrame)
    requires
        frame@.croppable(),
    ensures
        r@ == frame@.cropped(),
{
    let width: u32 = frame.width - frame.width % 2;
    let height: u32 = frame.height - frame.height % 2;
    if width == frame.width && height == frame.height {
        return frame;
    }
    let src_stride: usize = (frame.width * 4) as usize;
    let dst_stride: usize = (width * 4) as usize;
    let total: usize = frame.bgra.len();
    let whole: usize = total / src_stride;
    let rows: usize = if (height as u64) <= whole as u64 { height as usize } else { whole };
    let mut bgra: Vec<u8> = Vec::new();
    let mut row: usize = 0;
    let ghost s = frame.bgra@;
    proof {
        lemma_fundamental_div_mod(
            s.len() as int,
            src_stride as int,
        );
    }
    while row < rows
        invariant
            row <= rows <= whole,
            s == frame.bgra@,
            total == s.len(),
            dst_stride <= src_stride,
            src_stride * whole <= s.len(),
            bgra@ == row_starts(s, src_stride as int, dst_stride as int, row as nat),
        decreases rows - row,
    {
        assert(row * src_stride + src_stride <= src_stride * whole) by (nonlinear_arith)
            requires
                row + 1 <= whole,
        ;
        assert(row * src_stride >= 0) by (nonlinear_arith);
        let from: usize = row * src_stride;
        push_between(&mut bgra, &frame.bgra, from, from + dst_stride);
        row = row + 1;
    }
    CapturedFrame { width, height, bgra }
}

fn push_between(out: &mut Vec<u8>, bytes: &Vec<u8>, from: usize, to: usize)
    requires
        from <= to <= bytes@.len(),
    ensures
        final(out)@ == old(out)@ + bytes@.subrange(from as int, to as int),
{
    let mut i: usize = from;
    assert(out@ =~= old(out)@ + bytes@.subrange(from as int, from as int));
    while i < to
        invariant
            from <= i <= to <= bytes@.len(),
            out@ == old(out)@ + bytes@.subrange(from as int, i as int),
        decreases to - i,
    {
        out.push(bytes[i]);
        assert(out@ =~= old(out)@ + bytes@.subrange(from as int, i + 1));
        i = i + 1;
    }
}

/// Where a channel of a pixel stands, inside the picture.
proof fn lemma_sample_index(v: PictureView, x: int, y: int, channel: int)
    requires
        v.covers_blocks(),
        0 <= x < 2 * (v.width / 2),
        0 <= y < 2 * (v.height / 2),
        0 <= channel < 4,
    ensures
        0 <= y * (v.width * 4),
        y * (v.width * 4) + x * 4 + channel < v.bgra.len(),
{
    let stride = v.width * 4;
    let h = v.height / 2;
    assert(0 <= y * stride <= (2 * h - 1) * stride) by (nonlinear_arith)
        requires
            0 <= y <= 2 * h - 1,
            stride >= 0,
    ;
}

fn channel_of(frame: &CapturedFrame, x: usize, y: usize, channel: usize) -> (r: u16)
    requires
        frame@.covers_blocks(),
        x < 2 * (frame@.width / 2),
        y < 2 * (frame@.height / 2),
        channel < 4,
    ensures
        r == frame@.sample(x as int, y as int, channel as int),
        r <= 255,
{
    let total: usize = frame.bgra.len();
    proof {
        lemma_sample_index(frame@, 0, y as int, 0);
        lemma_sample_index(frame@, x as int, y as int, channel as int);
        let h = frame@.height / 2;
        let stride = frame@.width * 4;
        assert((2 * h - 1) * stride >= stride) by (nonlinear_arith)
            requires
                2 * h - 1 >= 1,
                stride >= 0,
        ;
        assert(stride <= total);
    }
    let stride: usize = frame.width as usize * 4;
    frame.bgra[y * stride + x * 4 + channel] as u16
}

/// One halving.
fn halve(frame: &CapturedFrame) -> (r: CapturedFrame)
    requires
        frame@.covers_blocks(),
        frame.width >= 2,
    ensures
        r@ == frame@.halved(),
{
    let dw: usize = (frame.width / 2) as usize;
    let dh: usize = (frame.height / 2) as usize;
    let mut out: Vec<u8> = Vec::new();
    let ghost row = (frame@.width / 2) * 4;
    let mut y: usize = 0;
    assert(0 * row == 0) by (nonlinear_arith);
    while y < dh
        invariant
            y <= dh,
            dw == frame@.width / 2,
            dh == frame@.height / 2,
            dw >= 1,
            row == dw * 4,
            frame@.covers_blocks(),
            out@.len() == y * row,
            forall|k: int| 0 <= k < out@.len() ==> out@[k] == frame@.halved_byte(k),
        decreases dh - y,
    {
        let mut x: usize = 0;
        while x < dw
            invariant
                y < dh,
                x <= dw,
                dw == frame@.width / 2,
                dh == frame@.height / 2,
                row == dw * 4,
                frame@.covers_blocks(),
                out@.len() == y * row + x * 4,
                forall|k: int| 0 <= k < out@.len() ==> out@[k] == frame@.halved_byte(k),
            decreases dw - x,
        {
            let mut channel: usize = 0;
            while channel < 4
                invariant
                    y < dh,
                    x < dw,
                    channel <= 4,
                    dw == frame@.width / 2,
                    dh == frame@.height / 2,
                    row == dw * 4,
                    frame@.covers_blocks(),
                    out@.len() == y * row + x * 4 + channel,
                    forall|k: int| 0 <= k < out@.len() ==> out@[k] == frame@.halved_byte(k),
                decreases 4 - channel,
            {
                let a: u16 = channel_of(frame, 2 * x, 2 * y, channel);
                let b: u16 = channel_of(frame, 2 * x + 1, 2 * y, channel);
                let c: u16 = channel_of(frame, 2 * x, 2 * y + 1, channel);
                let d: u16 = channel_of(frame, 2 * x + 1, 2 * y + 1, channel);
                proof {
                    let k = out@.len() as int;
                    let rest = x * 4 + channel;
                    assert(k == y * row + rest);
                    assert(y * row == row * y) by (nonlinear_arith);
                    lemma_fundamental_div_mod_converse(k, row, y as int, rest);
                    assert(rest / 4 == x && rest % 4 == channel);
                }
                out.push(((a + b + c + d + 2) / 4) as u8);
                channel = channel + 1;
            }
            x = x + 1;
        }
        assert(y * row + row == (y + 1) * row) by (nonlinear_arith);
        y = y + 1;
    }
    let r = CapturedFrame { width: frame.width / 2, height: frame.height / 2, bgra: out };
    assert(r@.bgra =~= frame@.halved().bgra);
    r
}

/// Halves the picture with a two by two box filter until it fits `max_width`. A
/// picture of one row has no block to average: its halves have no pixels.
pub fn downscale_to_max_width(frame: CapturedFrame, max_width: u32) -> (r: CapturedFrame)
    requires
        frame@.too_wide(max_width as int) ==> frame@.covers_blocks(),
    ensures
        r@ == frame@.narrowed(max_width as int),
        max_width >= 1 ==> r.width <= max_width,
{
    let mut frame = frame;
    let ghost start = frame@;
    while frame.width > max_width && frame.width >= 2
        invariant
            frame@.too_wide(max_width as int) ==> frame@.covers_blocks(),
            frame@.narrowed(max_width as int) == start.narrowed(max_width as int),
        decreases frame.width,
    {
        let half = halve(&frame);
        proof {
            lemma_halved_is_whole(frame@);
            if half@.too_wide(max_width as int) {
                lemma_whole_covers_blocks(half@);
            }
        }
        frame = half;
    }
    frame
}

/// Shapes a captured frame for an encoder: the width cap, then even dimensions.
/// The frame is copied only where something changes.
pub fn shape_for_encode(frame: &CapturedFrame, max_width: u32) -> (r: Cow<'_, CapturedFrame>)
    requires
        frame@.too_wide(max_width as int) ==> frame@.covers_blocks(),
        frame@.narrowed(max_width as int).croppable(),
    ensures
        r@ == frame@.narrowed(max_width as int).cropped(),
        r is Borrowed <==> frame.width <= max_width && frame@.is_even(),
{
    if frame.width <= max_width && frame.width % 2 == 0 && frame.height % 2 == 0 {
        return Cow::Borrowed(frame);
    }
    Cow::Owned(crop_to_even(downscale_to_max_width(frame.copied(), max_width)))
}

/// Halving averages: each channel of each pixel of the halved picture is the mean of the
/// four pixels it stands for, rounded to the nearest.
pub proof fn law_halving_averages(v: PictureView, x: int, y: int, channel: int)
    requires
        0 <= x < v.width / 2,
        0 <= y < v.height / 2,
        0 <= channel < 4,
    ensures
        ({
            let at = |px: int, py: int| v.bgra[py * (v.width * 4) + px * 4 + channel] as int;
            let sum = at(2 * x, 2 * y) + at(2 * x + 1, 2 * y) + at(2 * x, 2 * y + 1) + at(
                2 * x + 1,
                2 * y + 1,
            );
            let mean = v.halved().bgra[y * ((v.width / 2) * 4) + x * 4 + channel];
            4 * mean <= sum + 2 < 4 * mean + 4
        }),
        v.halved().width == v.width / 2,
        v.halved().height == v.height / 2,
{
    let row = (v.width / 2) * 4;
    let t = x * 4 + channel;
    let k = y * row + t;
    assert(0 <= t < row);
    vstd::arithmetic::div_mod::lemma_fundamental_div_mod_converse(k, row, y, t);
    assert(0 <= k < (v.height / 2) * row) by (nonlinear_arith)
        requires
            0 <= y < v.height / 2,
            0 <= t < row,
            k == y * row + t,
    ;
    assert(t / 4 == x && t % 4 == channel);
    assert(v.halved().bgra[k] == v.halved_byte(k));
}

proof fn lemma_row_starts_at(s: Seq<u8>, stride: int, len: int, rows: nat, y: int, t: int)
    requires
        0 <= len <= stride,
        rows * stride <= s.len(),
        0 <= y < rows,
        0 <= t < len,
    ensures
        0 <= y * len + t < row_starts(s, stride, len, rows).len(),
        row_starts(s, stride, len, rows)[y * len + t] == s[y * stride + t],
    decreases rows,
{
    let m = (rows - 1) as nat;
    assert(rows * stride == m * stride + stride) by (nonlinear_arith)
        requires
            rows == m + 1,
    ;
    assert(m * stride >= 0) by (nonlinear_arith)
        requires
            m >= 0,
            stride >= 0,
    ;
    lemma_row_starts_len(s, stride, len, m);
    lemma_row_starts_len(s, stride, len, rows);
    assert(rows * len == m * len + len) by (nonlinear_arith)
        requires
            rows == m + 1,
    ;
    if y < m {
        lemma_row_starts_at(s, stride, len, m, y, t);
        assert(y * len + len <= m * len) by (nonlinear_arith)
            requires
                y + 1 <= m,
                len >= 0,
        ;
    } else {
        assert(y == m);
        assert(y * len >= 0) by (nonlinear_arith)
            requires
                y >= 0,
                len >= 0,
        ;
    }
}

/// Cropping keeps every pixel that it leaves, at its place, and takes at most one column
/// and one row.
pub proof fn law_cropping_keeps_the_pixels(v: PictureView, x: int, y: int, channel: int)
    requires
        v.is_whole(),
        v.width > 0,
        v.height > 0,
        0 <= x < v.cropped().width,
        0 <= y < v.cropped().height,
        0 <= channel < 4,
    ensures
        v.cropped().bgra[y * (v.cropped().width * 4) + x * 4 + channel] == v.bgra[y * (v.width * 4)
            + x * 4 + channel],
        v.width - 1 <= v.cropped().width <= v.width,
        v.height - 1 <= v.cropped().height <= v.height,
{
    if !v.is_even() {
        let stride = v.width * 4;
        let len = evened(v.width) * 4;
        assert(v.bgra.len() == v.height * stride) by (nonlinear_arith)
            requires
                v.bgra.len() == v.width * v.height * 4,
                stride == v.width * 4,
        ;
        vstd::arithmetic::div_mod::lemma_div_by_multiple(v.height, stride);
        let rows = evened(v.height) as nat;
        assert(rows * stride <= v.height * stride) by (nonlinear_arith)
            requires
                rows <= v.height,
                stride >= 0,
        ;
        lemma_row_starts_at(v.bgra, stride, len, rows, y, x * 4 + channel);
    }
}

} // verus!
