//! Frames of interleaved 8-bit pixels and their conversion into the planar,
//! channel-first layout of the model input.

use crate::resize::{resize_rgb_triangle, triangle_resized};
use vstd::arithmetic::div_mod::*;
use vstd::arithmetic::mul::*;
use vstd::prelude::*;

verus! {

/// Side length, in pixels, of the square image that the landmark model takes.
pub const INPUT_SIZE: u32 = 224;

/// The number of values in one plane of the model input.
pub const INPUT_PLANE_LEN: usize = 50176;

/// An image of `width` x `height` pixels, three 8-bit channels per pixel,
/// stored row by row and, within a pixel, channel by channel.
pub struct Frame {
    width: u32,
    height: u32,
    pixels: Vec<u8>,
}

impl Frame {
    #[verifier::type_invariant]
    spec fn well_formed(&self) -> bool {
        self.pixels@.len() == self.width as nat * self.height as nat * 3
    }

    /// Width in pixels.
    pub closed spec fn w(&self) -> u32 {
        self.width
    }

    /// Height in pixels.
    pub closed spec fn h(&self) -> u32 {
        self.height
    }

    /// Number of pixels.
    pub open spec fn area(&self) -> nat {
        self.w() as nat * self.h() as nat
    }

    /// The interleaved channel values, `3 * w * h` of them.
    pub closed spec fn data(&self) -> Seq<u8> {
        self.pixels@
    }

    /// Builds a frame from interleaved pixels; `None` when `pixels` does not hold
    /// exactly `3 * width * height` values.
    pub fn new(width: u32, height: u32, pixels: Vec<u8>) -> (r: Option<Frame>)
        ensures
            r is Some <==> pixels@.len() == width as nat * height as nat * 3,
            r matches Some(f) ==> f.w() == width && f.h() == height && f.data() == pixels@,
    {
        let plen = pixels.len();
        let wh = (width as usize).checked_mul(height as usize);
        let ghost area = width as nat * height as nat;
        match wh {
            Some(n) => match n.checked_mul(3) {
                Some(len) => {
                    assert(len == area * 3);
                    if plen == len {
                        Some(Frame { width, height, pixels })
                    } else {
                        None
                    }
                },
                None => {
                    assert(area * 3 > usize::MAX);
                    None
                },
            },
            None => {
                assert(area > usize::MAX);
                assert(area * 3 > usize::MAX);
                None
            },
        }
    }

    /// Width in pixels.
    pub fn width(&self) -> (r: u32)
        ensures
            r == self.w(),
    {
        self.width
    }

    /// Height in pixels.
    pub fn height(&self) -> (r: u32)
        ensures
            r == self.h(),
    {
        self.height
    }

    /// The interleaved channel values.
    pub fn pixels(&self) -> (r: &Vec<u8>)
        ensures
            r@ == self.data(),
            r@.len() == self.area() * 3,
    {
        proof {
            use_type_invariant(self);
        }
        &self.pixels
    }
}

/// Source channel for each output plane when the pixels are already R, G, B.
pub open spec fn rgb_order() -> Seq<usize> {
    seq![0usize, 1usize, 2usize]
}

/// Source channel for each output plane when the pixels are B, G, R: the
/// planes come out R, G, B.
pub open spec fn bgr_order() -> Seq<usize> {
    seq![2usize, 1usize, 0usize]
}

/// The value at flat position `k` of a planar tensor: plane `k / plane_len`,
/// pixel `k % plane_len`, taken from channel `order[plane]` of that pixel.
pub open spec fn planar_value(pixels: Seq<u8>, plane_len: int, order: Seq<usize>, k: int) -> u8 {
    pixels[(k % plane_len) * 3 + order[k / plane_len] as int]
}

/// The three planes, one after the other, of an interleaved three-channel buffer.
pub open spec fn planar(pixels: Seq<u8>, plane_len: nat, order: Seq<usize>) -> Seq<u8> {
    Seq::new(3 * plane_len, |k: int| planar_value(pixels, plane_len as int, order, k))
}

/// Position `c * w * h + y * w + x` of the planar tensor of a `w` x `h` image holds
/// channel `order[c]` of the pixel in row `y`, column `x`.
pub proof fn lemma_planar_at(
    pixels: Seq<u8>,
    w: nat,
    h: nat,
    order: Seq<usize>,
    c: int,
    y: int,
    x: int,
)
    requires
        0 <= c < 3,
        0 <= y < h,
        0 <= x < w,
    ensures
        0 <= c * (w * h) + y * w + x < 3 * (w * h),
        planar(pixels, w * h, order)[c * (w * h) + y * w + x] == pixels[(y * w + x) * 3
            + order[c] as int],
{
    let plane = (w * h) as int;
    let p = y * w + x;
    assert(p < plane) by {
        lemma_mul_inequality(y + 1, h as int, w as int);
        lemma_mul_is_distributive_add_other_way(w as int, y, 1);
        lemma_mul_is_commutative(h as int, w as int);
    }
    assert(0 <= p) by {
        lemma_mul_nonnegative(y, w as int);
    }
    let k = c * plane + p;
    assert(0 <= k < 3 * plane) by {
        lemma_mul_nonnegative(c, plane);
        lemma_mul_inequality(c + 1, 3, plane);
        lemma_mul_is_distributive_add_other_way(plane, c, 1);
    }
    lemma_fundamental_div_mod_converse(k, plane, c, p);
    lemma_mul_is_commutative(c, plane);
}

/// A B, G, R buffer and the R, G, B buffer of the same picture give the same model
/// input: the camera path and the still-image path agree on channel order.
pub proof fn lemma_bgr_rgb_agree(bgr: Seq<u8>, rgb: Seq<u8>, plane_len: nat)
    requires
        bgr.len() == 3 * plane_len,
        rgb.len() == 3 * plane_len,
        forall|p: int, ch: int|
            0 <= p < plane_len && 0 <= ch < 3 ==> #[trigger] rgb[3 * p + ch] == bgr[3 * p + 2 - ch],
    ensures
        planar(bgr, plane_len, bgr_order()) == planar(rgb, plane_len, rgb_order()),
{
    let a = planar(bgr, plane_len, bgr_order());
    let b = planar(rgb, plane_len, rgb_order());
    assert forall|k: int| 0 <= k < a.len() implies a[k] == b[k] by {
        let plane = plane_len as int;
        lemma_fundamental_div_mod(k, plane);
        lemma_mod_bound(k, plane);
        lemma_div_pos_is_pos(k, plane);
        lemma_div_is_ordered(k, 3 * plane, plane);
        lemma_div_by_multiple(3, plane);
        let p = k % plane;
        let c = k / plane;
        assert(c < 3) by {
            if c >= 3 {
                lemma_mul_inequality(3, c, plane);
                lemma_mul_is_commutative(c, plane);
            }
        }
        assert(rgb[3 * p + c] == bgr[3 * p + 2 - c]);
        assert(p * 3 == 3 * p);
    }
    assert(a =~= b);
}

/// Packs an interleaved three-channel buffer of `plane_len` pixels into three planes,
/// plane `c` taking channel `order[c]` of every pixel.
fn pack_planes(pixels: &Vec<u8>, plane_len: usize, order: [usize; 3]) -> (out: Vec<u8>)
    requires
        pixels@.len() == 3 * plane_len,
        forall|i: int| 0 <= i < 3 ==> #[trigger] order@[i] < 3,
    ensures
        out@ == planar(pixels@, plane_len as nat, order@),
{
    let ghost target = planar(pixels@, plane_len as nat, order@);
    let total = pixels.len();
    let mut out: Vec<u8> = Vec::with_capacity(total);
    let mut c: usize = 0;
    while c < 3
        invariant
            c <= 3,
            pixels@.len() == 3 * plane_len,
            total == pixels@.len(),
            forall|i: int| 0 <= i < 3 ==> #[trigger] order@[i] < 3,
            target == planar(pixels@, plane_len as nat, order@),
            out@.len() == c * plane_len,
            forall|k: int| 0 <= k < out@.len() ==> out@[k] == #[trigger] target[k],
        decreases 3 - c,
    {
        let mut p: usize = 0;
        while p < plane_len
            invariant
                c < 3,
                p <= plane_len,
                pixels@.len() == 3 * plane_len,
                total == pixels@.len(),
                forall|i: int| 0 <= i < 3 ==> #[trigger] order@[i] < 3,
                target == planar(pixels@, plane_len as nat, order@),
                out@.len() == c * plane_len + p,
                forall|k: int| 0 <= k < out@.len() ==> out@[k] == #[trigger] target[k],
            decreases plane_len - p,
        {
            let ch = order[c];
            let v = pixels[p * 3 + ch];
            proof {
                let k = c * plane_len + p;
                assert(k < 3 * plane_len) by {
                    lemma_mul_inequality(c as int + 1, 3, plane_len as int);
                    lemma_mul_is_distributive_add_other_way(plane_len as int, c as int, 1);
                }
                lemma_fundamental_div_mod_converse(k, plane_len as int, c as int, p as int);
                lemma_mul_is_commutative(c as int, plane_len as int);
                assert(target[k] == v);
            }
            out.push(v);
            p = p + 1;
        }
        proof {
            lemma_mul_is_distributive_add_other_way(plane_len as int, c as int, 1);
        }
        c = c + 1;
    }
    assert(out@ =~= target);
    out
}

/// The model input for an R, G, B frame: planes R, G, B, each row by row.
pub fn rgb_frame_to_input(frame: &Frame) -> (out: Vec<u8>)
    ensures
        out@ == planar(frame.data(), frame.area(), rgb_order()),
        out@.len() == 3 * frame.area(),
        forall|c: int, y: int, x: int|
            0 <= c < 3 && 0 <= y < frame.h() && 0 <= x < frame.w() ==> #[trigger] out@[c * frame.area()
            + y * frame.w() + x] == frame.data()[(y * frame.w() + x) * 3
                + c],
{
    frame_to_input(frame, [0, 1, 2])
}

/// The model input for a B, G, R frame: channels reordered to planes R, G, B,
/// each row by row.
pub fn bgr_frame_to_input(frame: &Frame) -> (out: Vec<u8>)
    ensures
        out@ == planar(frame.data(), frame.area(), bgr_order()),
        out@.len() == 3 * frame.area(),
        forall|c: int, y: int, x: int|
            0 <= c < 3 && 0 <= y < frame.h() && 0 <= x < frame.w() ==> #[trigger] out@[c * frame.area()
            + y * frame.w() + x] == frame.data()[(y * frame.w() + x) * 3
                + (2 - c)],
{
    frame_to_input(frame, [2, 1, 0])
}

/// The model input for an R, G, B frame of any size: the frame resized to
/// `INPUT_SIZE` x `INPUT_SIZE` with a triangle filter, then laid out as planes
/// R, G, B, each row by row.
///
/// The resampler works through a buffer of `4 * width * INPUT_SIZE` values, which
/// must be addressable.
pub fn preprocess(frame: &Frame) -> (out: Vec<u8>)
    requires
        frame.w() as nat * INPUT_SIZE as nat * 4 <= usize::MAX,
    ensures
        out@ == planar(
            triangle_resized(frame.data(), frame.w(), frame.h(), INPUT_SIZE, INPUT_SIZE),
            INPUT_PLANE_LEN as nat,
            rgb_order(),
        ),
        out@.len() == 3 * INPUT_PLANE_LEN,
        frame.w() == INPUT_SIZE && frame.h() == INPUT_SIZE ==> out@ == planar(
            frame.data(),
            INPUT_PLANE_LEN as nat,
            rgb_order(),
        ),
        frame.w() == 0 || frame.h() == 0 ==> forall|k: int| 0 <= k < out@.len() ==> #[trigger] out@[k] == 0,
        frame.w() > 0 && frame.h() == 1 ==> forall|c: int, y: int, x: int|
            0 <= c < 3 && 0 <= y < INPUT_SIZE && 0 <= x < INPUT_SIZE ==> #[trigger] out@[c
                * INPUT_PLANE_LEN + y * INPUT_SIZE + x] == out@[c * INPUT_PLANE_LEN + x],
        frame.w() == 1 && frame.h() > 0 ==> forall|c: int, y: int, x: int|
            0 <= c < 3 && 0 <= y < INPUT_SIZE && 0 <= x < INPUT_SIZE ==> #[trigger] out@[c
                * INPUT_PLANE_LEN + y * INPUT_SIZE + x] == out@[c * INPUT_PLANE_LEN + y * INPUT_SIZE],
{
    let source = frame.pixels();
    let resized = resize_rgb_triangle(source.as_slice(), frame.width(), frame.height(), INPUT_SIZE, INPUT_SIZE);
    let square = Frame { width: INPUT_SIZE, height: INPUT_SIZE, pixels: resized };
    let out = rgb_frame_to_input(&square);
    proof {
        assert(square.area() == INPUT_PLANE_LEN);
    }
    out
}

fn frame_to_input(frame: &Frame, order: [usize; 3]) -> (out: Vec<u8>)
    requires
        forall|i: int| 0 <= i < 3 ==> #[trigger] order@[i] < 3,
    ensures
        out@ == planar(frame.data(), frame.area(), order@),
        out@.len() == 3 * frame.area(),
        forall|c: int, y: int, x: int|
            0 <= c < 3 && 0 <= y < frame.h() && 0 <= x < frame.w() ==> #[trigger] out@[c * frame.area()
            + y * frame.w() + x] == frame.data()[(y * frame.w() + x) * 3
                + order@[c] as int],
{
    let pixels = frame.pixels();
    let plane_len = pixels.len() / 3;
    let out = pack_planes(pixels, plane_len, order);
    assert forall|c: int, y: int, x: int|
        0 <= c < 3 && 0 <= y < frame.h() && 0 <= x < frame.w() implies #[trigger] out@[c * frame.area()
        + y * frame.w() + x] == frame.data()[(y * frame.w() + x) * 3
            + order@[c] as int] by {
        lemma_planar_at(frame.data(), frame.w() as nat, frame.h() as nat, order@, c, y, x);
    }
    out
}

} // verus!
