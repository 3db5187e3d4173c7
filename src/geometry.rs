//! Camera rays through pixels and their intersection with the scene's sphere.
//!
//! All geometry is exact integer arithmetic. Lengths are measured in half
//! units, so the camera at `(0, 0, 2)` sits at `(0, 0, 4)` and the sphere of
//! radius `0.5` around the origin has radius `1`. Scaling the whole scene
//! uniformly changes no intersection.
use vstd::prelude::*;

use crate::settings::MissColor;

verus! {

/// Dot product of two integer vectors.
pub open spec fn dot(a: (int, int, int), b: (int, int, int)) -> int {
    a.0 * b.0 + a.1 * b.1 + a.2 * b.2
}

/// Origin of every camera ray, in half units.
pub open spec fn camera_origin() -> (int, int, int) {
    (0, 0, 4)
}

/// Radius of the sphere centred at the world origin, in half units.
pub open spec fn sphere_radius() -> int {
    1
}

/// Direction of the camera ray through pixel `(x, y)` of a `width` x `height`
/// image.
///
/// The pixel's device coordinates are `ndc_x = (2x / width - 1) * width / height`
/// and `ndc_y = 2y / height - 1`, and the ray looks along `(ndc_x, ndc_y, -1)`.
/// That vector is given here multiplied by `height`, which makes every
/// component an integer. A positive factor changes neither the ray nor the
/// sign of its discriminant, so normalising the direction is not needed.
pub open spec fn ray_direction(x: int, y: int, width: int, height: int) -> (int, int, int) {
    (2 * x - width, 2 * y - height, -height)
}

/// Discriminant of `a t^2 + b t + c = 0`, whose roots are the distances along
/// the ray through pixel `(x, y)` at which it meets the sphere.
pub open spec fn discriminant(x: int, y: int, width: int, height: int) -> int {
    let d = ray_direction(x, y, width, height);
    let o = camera_origin();
    let a = dot(d, d);
    let b = 2 * dot(o, d);
    let c = dot(o, o) - sphere_radius() * sphere_radius();
    b * b - 4 * a * c
}

/// The ray through pixel `(x, y)` touches or passes through the sphere.
pub open spec fn hits_sphere(x: int, y: int, width: int, height: int) -> bool {
    discriminant(x, y, width, height) >= 0
}

/// The discriminant in closed form: `4 (height^2 - 15 (dx^2 + dy^2))`, where
/// `(dx, dy)` are the first two components of the ray direction.
pub proof fn lemma_discriminant_closed_form(x: int, y: int, width: int, height: int)
    ensures
        discriminant(x, y, width, height) == 4 * (height * height - 15 * ((2 * x - width) * (2
            * x - width) + (2 * y - height) * (2 * y - height))),
{
    let dx = 2 * x - width;
    let dy = 2 * y - height;
    let d = ray_direction(x, y, width, height);
    let o = camera_origin();
    assert(dot(d, d) == dx * dx + dy * dy + height * height) by (nonlinear_arith)
        requires
            d == (dx, dy, -height),
    ;
    assert(2 * dot(o, d) == -8 * height);
    assert(dot(o, o) - sphere_radius() * sphere_radius() == 15);
    assert((-8 * height) * (-8 * height) - 4 * (dx * dx + dy * dy + height * height) * 15 == 4 * (
    height * height - 15 * (dx * dx + dy * dy))) by (nonlinear_arith);
}

/// The pixels whose rays hit the sphere form a disc centred on the image
/// centre `(width / 2, height / 2)`: in doubled pixel coordinates, those within
/// distance `height / sqrt(15)` of it.
pub proof fn lemma_hits_form_centred_disc(x: int, y: int, width: int, height: int)
    ensures
        hits_sphere(x, y, width, height) <==> 15 * ((2 * x - width) * (2 * x - width) + (2 * y
            - height) * (2 * y - height)) <= height * height,
{
    lemma_discriminant_closed_form(x, y, width, height);
}

/// On a square image of side `n` the hit pattern is unchanged by a quarter
/// turn about the image centre, which takes pixel `(x, y)` to `(n - y, x)`.
/// Pixels of row `0` are left out: their image, column `n`, lies outside the
/// image.
pub proof fn lemma_square_quarter_turn(n: int, x: int, y: int)
    requires
        0 <= x < n,
        0 < y < n,
    ensures
        hits_sphere(n - y, x, n, n) == hits_sphere(x, y, n, n),
{
    lemma_hits_form_centred_disc(x, y, n, n);
    lemma_hits_form_centred_disc(n - y, x, n, n);
    assert((2 * (n - y) - n) * (2 * (n - y) - n) == (2 * y - n) * (2 * y - n)) by (nonlinear_arith);
}

/// On a square image of side `n`, swapping a pixel's coordinates keeps its
/// hit or miss.
pub proof fn lemma_square_swap(n: int, x: int, y: int)
    ensures
        hits_sphere(y, x, n, n) == hits_sphere(x, y, n, n),
{
    lemma_hits_form_centred_disc(x, y, n, n);
    lemma_hits_form_centred_disc(y, x, n, n);
}

/// Mirroring a pixel about the image centre's column, `x` to `width - x`,
/// or about its row, `y` to `height - y`, keeps its hit or miss.
pub proof fn lemma_mirror(x: int, y: int, width: int, height: int)
    ensures
        hits_sphere(width - x, y, width, height) == hits_sphere(x, y, width, height),
        hits_sphere(x, height - y, width, height) == hits_sphere(x, y, width, height),
{
    lemma_hits_form_centred_disc(x, y, width, height);
    lemma_hits_form_centred_disc(width - x, y, width, height);
    lemma_hits_form_centred_disc(x, height - y, width, height);
    assert((2 * (width - x) - width) * (2 * (width - x) - width) == (2 * x - width) * (2 * x
        - width)) by (nonlinear_arith);
    assert((2 * (height - y) - height) * (2 * (height - y) - height) == (2 * y - height) * (2 * y
        - height)) by (nonlinear_arith);
}

/// A pixel at least as near the image centre as one whose ray hits the
/// sphere hits it too.
pub proof fn lemma_nearer_hits(x: int, y: int, x2: int, y2: int, width: int, height: int)
    requires
        hits_sphere(x, y, width, height),
        (2 * x2 - width) * (2 * x2 - width) + (2 * y2 - height) * (2 * y2 - height) <= (2 * x
            - width) * (2 * x - width) + (2 * y - height) * (2 * y - height),
    ensures
        hits_sphere(x2, y2, width, height),
{
    lemma_hits_form_centred_disc(x, y, width, height);
    lemma_hits_form_centred_disc(x2, y2, width, height);
}

/// Tests whether the ray through pixel `(x, y)` of a `width` x `height` image
/// meets the sphere.
pub fn ray_hits_sphere(x: u32, y: u32, width: u32, height: u32) -> (r: bool)
    requires
        x < width,
        y < height,
    ensures
        r == hits_sphere(x as int, y as int, width as int, height as int),
{
    let dx: i128 = 2 * (x as i128) - (width as i128);
    let dy: i128 = 2 * (y as i128) - (height as i128);
    let dz: i128 = -(height as i128);
    assert(0 <= dx * dx <= 0x1_0000_0000_0000_0000_0000 && 0 <= dy * dy
        <= 0x1_0000_0000_0000_0000_0000 && 0 <= dz * dz <= 0x1_0000_0000_0000_0000_0000)
        by (nonlinear_arith)
        requires
            -0x1_0000_0000 <= dx <= 0x1_0000_0000,
            -0x1_0000_0000 <= dy <= 0x1_0000_0000,
            -0x1_0000_0000 <= dz <= 0,
    ;
    let a: i128 = dx * dx + dy * dy + dz * dz;
    let b: i128 = 2 * (4 * dz);
    let c: i128 = 4 * 4 - 1;
    assert(0 <= b * b <= 0x1_0000_0000_0000_0000_0000_0000) by (nonlinear_arith)
        requires
            -0x10_0000_0000 <= b <= 0,
    ;
    assert(4 * a * c == 60 * a) by (nonlinear_arith)
        requires
            c == 15,
    ;
    let disc: i128 = b * b - 4 * a * c;
    assert(disc == discriminant(x as int, y as int, width as int, height as int)) by (nonlinear_arith)
        requires
            dx == 2 * x - width,
            dy == 2 * y - height,
            dz == -height,
            a == dx * dx + dy * dy + dz * dz,
            b == 2 * (4 * dz),
            c == 15,
            disc == b * b - 4 * a * c,
    ;
    disc >= 0
}

/// `k` is at most `255 * n / len`, where `len_sq` is `len` squared; for `k`
/// and `n` not negative.
pub open spec fn channel_fits(k: int, n: int, len_sq: int) -> bool {
    k * k * len_sq <= 255 * 255 * (n * n)
}

/// The largest `j <= k` that `channel_fits`, or `0`.
pub open spec fn largest_fitting(n: int, len_sq: int, k: nat) -> nat
    decreases k,
{
    if k == 0 {
        0
    } else if channel_fits(k as int, n, len_sq) {
        k
    } else {
        largest_fitting(n, len_sq, (k - 1) as nat)
    }
}

/// The component `n / len` of a unit vector, where `len_sq` is `len` squared,
/// as a colour channel: `255 * n / len` truncated and clamped to `[0, 255]`.
pub open spec fn direction_channel(n: int, len_sq: int) -> int {
    if n <= 0 {
        0
    } else {
        largest_fitting(n, len_sq, 255) as int
    }
}

/// Where `r` fits and `r + 1` does not (or `r` is `255`), the downward search
/// from any `k` in `r..=255` stops at `r`.
proof fn lemma_largest_fitting(n: int, len_sq: int, r: int, k: nat)
    requires
        len_sq > 0,
        0 <= r <= k <= 255,
        channel_fits(r, n, len_sq),
        r == 255 || !channel_fits(r + 1, n, len_sq),
    ensures
        largest_fitting(n, len_sq, k) == r,
    decreases k,
{
    if k > r {
        assert(!channel_fits(k as int, n, len_sq)) by (nonlinear_arith)
            requires
                len_sq > 0,
                0 <= r < k <= 255,
                r == 255 || !channel_fits(r + 1, n, len_sq),
        ;
        lemma_largest_fitting(n, len_sq, r, (k - 1) as nat);
    }
}

/// Colour channel of a direction component `n` of a vector whose squared
/// length is `len_sq`, by binary search over `0..=255`.
fn direction_channel_of(n: i128, len_sq: i128) -> (r: u8)
    requires
        0 < len_sq <= 0x10_0000_0000_0000_0000,
        n * n <= len_sq,
    ensures
        r == direction_channel(n as int, len_sq as int),
{
    if n <= 0 {
        return 0;
    }
    assert(0 <= n * n <= 0x10_0000_0000_0000_0000) by (nonlinear_arith)
        requires
            n * n <= 0x10_0000_0000_0000_0000,
    ;
    let target: i128 = 255 * 255 * (n * n);
    let mut lo: i128 = 0;
    let mut hi: i128 = 256;
    assert(channel_fits(0, n as int, len_sq as int)) by (nonlinear_arith)
        requires
            0 <= n * n,
    ;
    while hi - lo > 1
        invariant
            0 < len_sq <= 0x10_0000_0000_0000_0000,
            target == 255 * 255 * (n * n),
            0 <= lo < hi <= 256,
            channel_fits(lo as int, n as int, len_sq as int),
            hi == 256 || !channel_fits(hi as int, n as int, len_sq as int),
        decreases hi - lo,
    {
        let mid: i128 = lo + (hi - lo) / 2;
        assert(0 <= mid * mid <= 0x1_0000 && 0 <= mid * mid * len_sq <= 0x1_0000_0000_0000_0000_0000_0000)
            by (nonlinear_arith)
            requires
                0 <= mid < 256,
                0 < len_sq <= 0x10_0000_0000_0000_0000,
        ;
        if mid * mid * len_sq <= target {
            lo = mid;
        } else {
            hi = mid;
        }
    }
    proof {
        lemma_largest_fitting(n as int, len_sq as int, lo as int, 255);
    }
    lo as u8
}

/// Colour of pixel `(x, y)`: opaque white where its ray meets the sphere;
/// where it misses, opaque black, or under `MissColor::DirectionTint` the
/// unit ray direction's x and y components as red and green.
pub open spec fn pixel_color(x: int, y: int, width: int, height: int, miss: MissColor) -> Seq<
    u8,
> {
    let d = ray_direction(x, y, width, height);
    if hits_sphere(x, y, width, height) {
        seq![255u8, 255u8, 255u8, 255u8]
    } else if miss == MissColor::DirectionTint {
        seq![
            direction_channel(d.0, dot(d, d)) as u8,
            direction_channel(d.1, dot(d, d)) as u8,
            0u8,
            255u8,
        ]
    } else {
        seq![0u8, 0u8, 0u8, 255u8]
    }
}

/// RGBA colour of pixel `(x, y)` of a `width` x `height` image.
pub fn pixel(x: u32, y: u32, width: u32, height: u32, miss: MissColor) -> (r: [u8; 4])
    requires
        x < width,
        y < height,
    ensures
        r@ == pixel_color(x as int, y as int, width as int, height as int, miss),
{
    if ray_hits_sphere(x, y, width, height) {
        let r = [255u8, 255u8, 255u8, 255u8];
        assert(r@ =~= seq![255u8, 255u8, 255u8, 255u8]);
        r
    } else {
        match miss {
            MissColor::Black => {
                let r = [0u8, 0u8, 0u8, 255u8];
                assert(r@ =~= seq![0u8, 0u8, 0u8, 255u8]);
                r
            },
            MissColor::DirectionTint => {
                let dx: i128 = 2 * (x as i128) - (width as i128);
                let dy: i128 = 2 * (y as i128) - (height as i128);
                let dz: i128 = -(height as i128);
                assert(0 <= dx * dx <= 0x1_0000_0000_0000_0000 && 0 <= dy * dy
                    <= 0x1_0000_0000_0000_0000 && 0 < dz * dz <= 0x1_0000_0000_0000_0000)
                    by (nonlinear_arith)
                    requires
                        -0x1_0000_0000 <= dx <= 0x1_0000_0000,
                        -0x1_0000_0000 <= dy <= 0x1_0000_0000,
                        -0x1_0000_0000 <= dz < 0,
                ;
                let len_sq: i128 = dx * dx + dy * dy + dz * dz;
                let red = direction_channel_of(dx, len_sq);
                let green = direction_channel_of(dy, len_sq);
                let r = [red, green, 0u8, 255u8];
                proof {
                    let d = ray_direction(x as int, y as int, width as int, height as int);
                    assert(dot(d, d) == len_sq);
                }
                assert(r@ =~= pixel_color(x as int, y as int, width as int, height as int, miss));
                r
            },
        }
    }
}

} // verus!
