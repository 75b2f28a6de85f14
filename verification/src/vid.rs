//! The 320x200 palettised frame buffer and the drawing operations on it.

use crate::bytes::{read_i16_le, read_u16_le, read_u32_le};
use crate::patch::{column_offset, patch_height, patch_left, patch_top, patch_width};
use crate::wad::Wad;
use crate::{SCREEN_HEIGHT, SCREEN_WIDTH};
use vstd::prelude::*;

verus! {

/// Number of pixels in the frame buffer.
pub open spec fn screen_pixels() -> int {
    64000int
}

/// `fb` once `src` has been copied down screen column `x`, from row `y` on:
/// pixel `(y + i) * 320 + x` gets `src[i]`.
pub open spec fn column_blitted(fb: Seq<u8>, src: Seq<u8>, x: int, y: int) -> Seq<u8> {
    Seq::new(
        fb.len(),
        |p: int|
            {
                let k = p - x - 320 * y;
                if 0 <= k && k % 320 == 0 && k / 320 < src.len() {
                    src[k / 320]
                } else {
                    fb[p]
                }
            },
    )
}

/// Copying `n` pixels down column `x` from row `y` stays inside the frame buffer.
pub open spec fn column_fits(n: int, x: int, y: int) -> bool {
    n == 0 || (y + n - 1) * 320 + x < screen_pixels()
}

/// The posts of a patch column, starting at byte `ofs` of `img`, can be drawn
/// into screen column `x` with the patch's top at row `y`: every post lies
/// inside `img` and on the screen, and the list ends with a 255 marker.
pub open spec fn posts_ok(img: Seq<u8>, x: int, y: int, ofs: int) -> bool
    decreases img.len() - ofs,
{
    &&& 0 <= ofs < img.len()
    &&& img[ofs] != 255 ==> {
        let n = img[ofs + 1] as int;
        let next = ofs + n + 4;
        &&& ofs + 3 + n <= img.len()
        &&& column_fits(n, x, img[ofs] + y)
        &&& next < img.len()
        &&& posts_ok(img, x, y, next)
    }
}

/// `fb` once the posts of a patch column, starting at byte `ofs` of `img`,
/// have been drawn into screen column `x` with the patch's top at row `y`.
pub open spec fn posts_drawn(fb: Seq<u8>, img: Seq<u8>, x: int, y: int, ofs: int) -> Seq<u8>
    decreases img.len() - ofs,
{
    if 0 <= ofs < img.len() && img[ofs] != 255 {
        let n = img[ofs + 1] as int;
        let next = ofs + n + 4;
        let fb1 = column_blitted(fb, img.subrange(ofs + 3, ofs + 3 + n), x, img[ofs] + y);
        if next < img.len() {
            posts_drawn(fb1, img, x, y, next)
        } else {
            fb1
        }
    } else {
        fb
    }
}

/// Screen coordinate of a patch's first column (or row) when it is drawn at
/// `at` with offset `offset`, computed as the engine does, in `isize`.
pub open spec fn patch_origin(at: usize, offset: int) -> int {
    (at as isize) as int - offset
}

/// `fb` once the first `c` columns of the patch `img` have been drawn with
/// their top-left corner at screen column `x0`, row `y0`.
pub open spec fn columns_drawn(fb: Seq<u8>, img: Seq<u8>, x0: int, y0: int, c: nat) -> Seq<u8>
    decreases c,
{
    if c == 0 {
        fb
    } else {
        let prev = columns_drawn(fb, img, x0, y0, (c - 1) as nat);
        posts_drawn(prev, img, x0 + c - 1, y0, column_offset(img, c - 1))
    }
}

/// The patch `img` can be drawn at `(x, y)` without leaving the screen or
/// reading outside `img`.
pub open spec fn patch_drawable(img: Seq<u8>, x: usize, y: usize) -> bool {
    let x0 = patch_origin(x, patch_left(img));
    let y0 = patch_origin(y, patch_top(img));
    &&& img.len() >= 8
    &&& 0 <= x0 && x0 + patch_width(img) <= 320
    &&& 0 <= y0 && y0 + patch_height(img) <= 200
    &&& 8 + 4 * patch_width(img) <= img.len()
    &&& forall|c: int|
        0 <= c < patch_width(img) ==> posts_ok(img, x0 + c, y0, #[trigger] column_offset(img, c))
}

/// `fb` once the patch `img` has been drawn at `(x, y)`.
pub open spec fn patch_drawn(fb: Seq<u8>, img: Seq<u8>, x: usize, y: usize) -> Seq<u8> {
    columns_drawn(
        fb,
        img,
        patch_origin(x, patch_left(img)),
        patch_origin(y, patch_top(img)),
        patch_width(img) as nat,
    )
}

/// `fb` once a raw `w` by `h` picture `data` (stored row by row) has been
/// copied to the top-left corner of the screen.
pub open spec fn raw_blitted(fb: Seq<u8>, data: Seq<u8>, w: int, h: int) -> Seq<u8> {
    Seq::new(
        fb.len(),
        |p: int|
            if p / 320 < h && p % 320 < w {
                data[(p / 320) * w + p % 320]
            } else {
                fb[p]
            },
    )
}

/// The number of rows of a `h` rows high picture that land on the screen.
pub open spec fn rows_on_screen(h: int) -> int {
    if h < 200 { h } else { 200 }
}

/// A raw `w` by `h` picture can be copied from `len` bytes of data.
pub open spec fn raw_fits(len: int, w: int, h: int) -> bool {
    rows_on_screen(h) == 0 || (w <= 320 && rows_on_screen(h) * w <= len)
}

/// The palette that a `PLAYPAL`-style lump describes: one RGB triple per
/// colour, each made opaque.
pub open spec fn palette_from(d: Seq<u8>) -> Seq<Seq<u8>> {
    Seq::new(d.len() / 3, |i: int| seq![d[3 * i], d[3 * i + 1], d[3 * i + 2], 0xffu8])
}

/// The RGBA image of `fb` through `pal`: four bytes per pixel.
pub open spec fn rgba_image(fb: Seq<u8>, pal: Seq<Seq<u8>>) -> Seq<u8> {
    Seq::new(4 * fb.len(), |i: int| pal[fb[i / 4] as int][i % 4])
}

/// Copying down screen column `col` leaves every other screen column as it was.
proof fn lemma_column_blit_local(fb: Seq<u8>, src: Seq<u8>, col: int, y: int, p: int)
    requires
        0 <= col < 320,
        0 <= p < fb.len(),
        p % 320 != col,
    ensures
        column_blitted(fb, src, col, y).len() == fb.len(),
        column_blitted(fb, src, col, y)[p] == fb[p],
{
    let k = p - col - 320 * y;
    if 0 <= k && k % 320 == 0 {
        assert(p == col + 320 * (y + k / 320));
        assert((col + 320 * (y + k / 320)) % 320 == col) by (nonlinear_arith)
            requires
                0 <= col < 320,
                y + k / 320 >= 0,
        ;
    }
}

/// Drawing the posts of a column leaves every other screen column as it was.
proof fn lemma_posts_local(fb: Seq<u8>, img: Seq<u8>, col: int, y: int, ofs: int, p: int)
    requires
        0 <= col < 320,
        0 <= p < fb.len(),
        p % 320 != col,
    ensures
        posts_drawn(fb, img, col, y, ofs).len() == fb.len(),
        posts_drawn(fb, img, col, y, ofs)[p] == fb[p],
    decreases img.len() - ofs,
{
    if 0 <= ofs < img.len() && img[ofs] != 255 {
        let n = img[ofs + 1] as int;
        let next = ofs + n + 4;
        let fb1 = column_blitted(fb, img.subrange(ofs + 3, ofs + 3 + n), col, img[ofs] + y);
        lemma_column_blit_local(fb, img.subrange(ofs + 3, ofs + 3 + n), col, img[ofs] + y, p);
        if next < img.len() {
            lemma_posts_local(fb1, img, col, y, next, p);
        }
    }
}

/// Drawing the first `c` columns of a patch from screen column `x0` on leaves
/// every screen column outside `x0 .. x0 + c` as it was.
proof fn lemma_columns_local(fb: Seq<u8>, img: Seq<u8>, x0: int, y0: int, c: nat, p: int)
    requires
        0 <= x0,
        x0 + c <= 320,
        0 <= p < fb.len(),
        p % 320 < x0 || p % 320 >= x0 + c,
    ensures
        columns_drawn(fb, img, x0, y0, c).len() == fb.len(),
        columns_drawn(fb, img, x0, y0, c)[p] == fb[p],
    decreases c,
{
    if c > 0 {
        let prev = columns_drawn(fb, img, x0, y0, (c - 1) as nat);
        lemma_columns_local(fb, img, x0, y0, (c - 1) as nat, p);
        lemma_posts_local(prev, img, x0 + c - 1, y0, column_offset(img, c - 1), p);
    }
}

/// Drawing a patch changes only the screen columns that the patch covers:
/// every pixel left or right of them stays as it was.
pub proof fn lemma_patch_stays_in_its_columns(fb: Seq<u8>, img: Seq<u8>, x: usize, y: usize, p: int)
    requires
        patch_drawable(img, x, y),
        0 <= p < fb.len(),
        p % 320 < patch_origin(x, patch_left(img)) || p % 320 >= patch_origin(x, patch_left(img))
            + patch_width(img),
    ensures
        patch_drawn(fb, img, x, y).len() == fb.len(),
        patch_drawn(fb, img, x, y)[p] == fb[p],
{
    lemma_columns_local(
        fb,
        img,
        patch_origin(x, patch_left(img)),
        patch_origin(y, patch_top(img)),
        patch_width(img) as nat,
        p,
    );
}

/// `fa` and `fb` come from drawing the same thing over `a` and over `b`
/// (of the same length), and each pixel was either left alone in both or
/// ended with the same value in both.
spec fn same_overwrite(fa: Seq<u8>, a: Seq<u8>, fb: Seq<u8>, b: Seq<u8>) -> bool {
    &&& fa.len() == a.len()
    &&& fb.len() == b.len()
    &&& forall|p: int|
        0 <= p < a.len() ==> (#[trigger] fa[p] == a[p] && fb[p] == b[p]) || fa[p] == fb[p]
}

/// Drawing `f` after `g` overwrites as each of them does.
proof fn lemma_same_overwrite_compose(
    a: Seq<u8>,
    b: Seq<u8>,
    ga: Seq<u8>,
    gb: Seq<u8>,
    fa: Seq<u8>,
    fb: Seq<u8>,
)
    requires
        a.len() == b.len(),
        same_overwrite(ga, a, gb, b),
        same_overwrite(fa, ga, fb, gb),
    ensures
        same_overwrite(fa, a, fb, b),
{
    assert forall|p: int| 0 <= p < a.len() implies (#[trigger] fa[p] == a[p] && fb[p] == b[p])
        || fa[p] == fb[p] by {
        assert(fa[p] == ga[p] && fb[p] == gb[p] || fa[p] == fb[p]);
        assert(ga[p] == a[p] && gb[p] == b[p] || ga[p] == gb[p]);
    }
}

/// The posts of a column overwrite the same pixels with the same values,
/// whatever the frame they are drawn over.
proof fn lemma_posts_overwrite(a: Seq<u8>, b: Seq<u8>, img: Seq<u8>, col: int, y: int, ofs: int)
    requires
        a.len() == b.len(),
    ensures
        same_overwrite(posts_drawn(a, img, col, y, ofs), a, posts_drawn(b, img, col, y, ofs), b),
    decreases img.len() - ofs,
{
    if 0 <= ofs < img.len() && img[ofs] != 255 {
        let n = img[ofs + 1] as int;
        let next = ofs + n + 4;
        let src = img.subrange(ofs + 3, ofs + 3 + n);
        let ca = column_blitted(a, src, col, img[ofs] + y);
        let cb = column_blitted(b, src, col, img[ofs] + y);
        assert(same_overwrite(ca, a, cb, b));
        if next < img.len() {
            lemma_posts_overwrite(ca, cb, img, col, y, next);
            lemma_same_overwrite_compose(
                a,
                b,
                ca,
                cb,
                posts_drawn(ca, img, col, y, next),
                posts_drawn(cb, img, col, y, next),
            );
        }
    }
}

/// The first `c` columns of a patch overwrite the same pixels with the same
/// values, whatever the frame they are drawn over.
proof fn lemma_columns_overwrite(a: Seq<u8>, b: Seq<u8>, img: Seq<u8>, x0: int, y0: int, c: nat)
    requires
        a.len() == b.len(),
    ensures
        same_overwrite(columns_drawn(a, img, x0, y0, c), a, columns_drawn(b, img, x0, y0, c), b),
    decreases c,
{
    if c > 0 {
        let pa = columns_drawn(a, img, x0, y0, (c - 1) as nat);
        let pb = columns_drawn(b, img, x0, y0, (c - 1) as nat);
        lemma_columns_overwrite(a, b, img, x0, y0, (c - 1) as nat);
        let ofs = column_offset(img, c - 1);
        lemma_posts_overwrite(pa, pb, img, x0 + c - 1, y0, ofs);
        lemma_same_overwrite_compose(
            a,
            b,
            pa,
            pb,
            posts_drawn(pa, img, x0 + c - 1, y0, ofs),
            posts_drawn(pb, img, x0 + c - 1, y0, ofs),
        );
    }
}

/// Drawing the same patch twice at the same place is drawing it once.
pub proof fn lemma_patch_drawn_twice(fb: Seq<u8>, img: Seq<u8>, x: usize, y: usize)
    ensures
        patch_drawn(patch_drawn(fb, img, x, y), img, x, y) == patch_drawn(fb, img, x, y),
{
    let once = patch_drawn(fb, img, x, y);
    lemma_columns_overwrite(
        fb,
        fb,
        img,
        patch_origin(x, patch_left(img)),
        patch_origin(y, patch_top(img)),
        patch_width(img) as nat,
    );
        lemma_columns_overwrite(
        once,
        fb,
        img,
        patch_origin(x, patch_left(img)),
        patch_origin(y, patch_top(img)),
        patch_width(img) as nat,
    );
assert(patch_drawn(once, img, x, y) =~= once);
}

/// A full-screen raw picture replaces the whole frame with its first
/// 320 x 200 bytes.
pub proof fn lemma_full_screen_copy(fb: Seq<u8>, d: Seq<u8>)
    requires
        fb.len() == screen_pixels(),
        d.len() >= screen_pixels(),
    ensures
        raw_blitted(fb, d, 320, 200) == d.subrange(0, screen_pixels()),
{
    assert(raw_blitted(fb, d, 320, 200) =~= d.subrange(0, screen_pixels()));
}

/// Copying `src` down a column puts its `i`-th byte, whatever its value
/// (black included), on pixel `(y + i) * 320 + x`: the `i`-th row below `y`
/// in screen column `x`.
pub proof fn lemma_column_copies_every_byte(fb: Seq<u8>, src: Seq<u8>, x: int, y: int, i: int)
    requires
        0 <= x < 320,
        0 <= y,
        0 <= i < src.len(),
        (y + i) * 320 + x < fb.len(),
    ensures
        column_blitted(fb, src, x, y).len() == fb.len(),
        column_blitted(fb, src, x, y)[(y + i) * 320 + x] == src[i],
{
    let p = (y + i) * 320 + x;
    assert(p - x - 320 * y == 320 * i);
}

/// Drawing a column whose first post is its only one puts every byte of
/// that post, whatever its value, on the rows below the post's top row: the
/// post at byte `ofs` of `img` starts at row `img[ofs]` below `y`, holds
/// `img[ofs + 1]` pixels from byte `ofs + 3` on, and is followed by the
/// end marker 255.
pub proof fn lemma_single_post_column(fb: Seq<u8>, img: Seq<u8>, x: int, y: int, ofs: int, i: int)
    requires
        0 <= x < 320,
        0 <= y,
        0 <= ofs,
        ofs + img[ofs + 1] + 4 < img.len(),
        img[ofs] != 255,
        img[ofs + img[ofs + 1] + 4] == 255,
        0 <= i < img[ofs + 1],
        (img[ofs] + y + i) * 320 + x < fb.len(),
    ensures
        posts_drawn(fb, img, x, y, ofs).len() == fb.len(),
        posts_drawn(fb, img, x, y, ofs)[(img[ofs] + y + i) * 320 + x] == img[ofs + 3 + i],
{
    let n = img[ofs + 1] as int;
    let src = img.subrange(ofs + 3, ofs + 3 + n);
    lemma_column_copies_every_byte(fb, src, x, img[ofs] + y, i);
    let fb1 = column_blitted(fb, src, x, img[ofs] + y);
    let next = ofs + n + 4;
    assert(next < img.len() && img[next] == 255);
    assert(posts_drawn(fb1, img, x, y, next) == fb1);
}

/// Columns drawn after column `c` leave screen column `x0 + c` as it was.
proof fn lemma_later_columns_keep(fb: Seq<u8>, img: Seq<u8>, x0: int, y0: int, c: int, k: nat, p: int)
    requires
        0 <= x0,
        0 <= c < k,
        x0 + k <= 320,
        0 <= p < fb.len(),
        p % 320 == x0 + c,
    ensures
        columns_drawn(fb, img, x0, y0, k)[p] == columns_drawn(fb, img, x0, y0, (c + 1) as nat)[p],
    decreases k,
{
    if k > c + 1 {
        let prev = columns_drawn(fb, img, x0, y0, (k - 1) as nat);
        lemma_later_columns_keep(fb, img, x0, y0, c, (k - 1) as nat, p);
        lemma_columns_overwrite(fb, fb, img, x0, y0, (k - 1) as nat);
        lemma_posts_local(prev, img, x0 + k - 1, y0, column_offset(img, k - 1), p);
    }
}

/// Drawing a patch at `(x, y)` shows, for each column `c` that holds a
/// single post, every byte of that post (black included) on screen column
/// `x - left + c`, from row `y - top` plus the post's top row on down.
pub proof fn lemma_patch_shows_single_post(
    fb: Seq<u8>,
    img: Seq<u8>,
    x: usize,
    y: usize,
    c: int,
    i: int,
)
    requires
        fb.len() == screen_pixels(),
        patch_drawable(img, x, y),
        0 <= c < patch_width(img),
        img[column_offset(img, c)] != 255,
        img[column_offset(img, c) + img[column_offset(img, c) + 1] + 4] == 255,
        0 <= i < img[column_offset(img, c) + 1],
    ensures
        patch_drawn(fb, img, x, y)[(img[column_offset(img, c)] + ((y as isize) - patch_top(img)) + i) * 320
            + ((x as isize) - patch_left(img)) + c] == img[column_offset(img, c) + 3 + i],
{
    let x0 = patch_origin(x, patch_left(img));
    let y0 = patch_origin(y, patch_top(img));
    let w = patch_width(img);
    let ofs = column_offset(img, c);
    assert(posts_ok(img, x0 + c, y0, ofs));
    let n = img[ofs + 1] as int;
    let p = (img[ofs] + y0 + i) * 320 + x0 + c;
    assert(column_fits(n, x0 + c, img[ofs] + y0));
    assert(p < screen_pixels()) by (nonlinear_arith)
        requires
            p == (img[ofs] + y0 + i) * 320 + x0 + c,
            (img[ofs] + y0 + n - 1) * 320 + x0 + c < screen_pixels(),
            i < n,
    ;
    assert(p % 320 == x0 + c) by (nonlinear_arith)
        requires
            p == (img[ofs] + y0 + i) * 320 + x0 + c,
            0 <= x0 + c < 320,
            img[ofs] + y0 + i >= 0,
    ;
    let prev = columns_drawn(fb, img, x0, y0, c as nat);
    lemma_columns_local(fb, img, x0, y0, c as nat, p);
    lemma_single_post_column(prev, img, x0 + c, y0, ofs, i);
    lemma_later_columns_keep(fb, img, x0, y0, c, w as nat, p);
}

/// Through a palette read from a lump, every pixel of the rendered image is
/// opaque and shows the lump's RGB triple for the pixel's colour index.
pub proof fn lemma_rendered_pixel(fb: Seq<u8>, d: Seq<u8>, p: int)
    requires
        0 <= p < fb.len(),
        fb[p] < d.len() / 3,
    ensures
        rgba_image(fb, palette_from(d))[4 * p] == d[3 * fb[p]],
        rgba_image(fb, palette_from(d))[4 * p + 1] == d[3 * fb[p] + 1],
        rgba_image(fb, palette_from(d))[4 * p + 2] == d[3 * fb[p] + 2],
        rgba_image(fb, palette_from(d))[4 * p + 3] == 0xff,
{
    assert((4 * p) / 4 == p && (4 * p + 1) / 4 == p && (4 * p + 2) / 4 == p && (4 * p + 3) / 4 == p);
    assert((4 * p) % 4 == 0 && (4 * p + 1) % 4 == 1 && (4 * p + 2) % 4 == 2 && (4 * p + 3) % 4 == 3);
}

/// Whether the posts of a patch column, starting at byte `ofs` of `img`, can
/// be drawn into screen column `x` with the patch's top at row `y`.
fn posts_fit(img: &[u8], x: usize, y: usize, ofs: usize) -> (r: bool)
    requires
        x < 320,
        y <= 200,
    ensures
        r == posts_ok(img@, x as int, y as int, ofs as int),
{
    let len = img.len();
    let mut o = ofs;
    loop
        invariant
            len == img@.len(),
            x < 320,
            y <= 200,
            posts_ok(img@, x as int, y as int, ofs as int) == posts_ok(
                img@,
                x as int,
                y as int,
                o as int,
            ),
        decreases len - o,
    {
        if o >= len {
            return false;
        }
        let top = img[o] as usize;
        if top == 255 {
            return true;
        }
        if o + 1 >= len {
            return false;
        }
        let n = img[o + 1] as usize;
        if len - o < 3 || n > len - o - 3 {
            return false;
        }
        if n > 0 && (top + y + n - 1) * SCREEN_WIDTH + x >= SCREEN_WIDTH * SCREEN_HEIGHT {
            return false;
        }
        if len - (o + 3 + n) <= 1 {
            return false;
        }
        o = o + n + 4;
    }
}

/// Whether the patch `img` can be drawn at `(x, y)` (see [`patch_drawable`]).
pub fn patch_fits(img: &[u8], x: usize, y: usize) -> (r: bool)
    ensures
        r == patch_drawable(img@, x, y),
{
    if img.len() < 8 {
        return false;
    }
    let w = read_u16_le(img, 0) as i128;
    let h = read_u16_le(img, 2) as i128;
    let left = read_i16_le(img, 4) as i128;
    let top = read_i16_le(img, 6) as i128;
    let x0 = (x as isize) as i128 - left;
    let y0 = (y as isize) as i128 - top;
    if x0 < 0 || x0 + w > 320 || y0 < 0 || y0 + h > 200 {
        return false;
    }
    if 8 + 4 * w > img.len() as i128 {
        return false;
    }
    let ghost wi = patch_width(img@);
    let mut c: usize = 0;
    while (c as i128) < w
        invariant
            w == patch_width(img@),
            0 <= x0 && x0 + w <= 320,
            0 <= y0 && y0 + h <= 200,
            0 <= h,
            x0 == patch_origin(x, patch_left(img@)),
            y0 == patch_origin(y, patch_top(img@)),
            8 + 4 * w <= img@.len(),
            c <= w,
            forall|j: int|
                0 <= j < c ==> posts_ok(
                    img@,
                    x0 + j,
                    y0 as int,
                    #[trigger] column_offset(img@, j),
                ),
        decreases w - c,
    {
        let ofs = read_u32_le(img, 8 + 4 * c) as usize;
        assert(ofs == column_offset(img@, c as int));
        if !posts_fit(img, (x0 as usize) + c, y0 as usize, ofs) {
            return false;
        }
        c = c + 1;
    }
    true
}

/// The frame buffer and the current palette.
pub struct Vid {
    fb: Vec<u8>,
    palette: Option<Vec<[u8; 4]>>,
}

impl Vid {
    #[verifier::type_invariant]
    spec fn full_screen(self) -> bool {
        self.fb@.len() == screen_pixels()
    }

    /// The pixels of the frame buffer, row by row.
    pub closed spec fn frame(&self) -> Seq<u8> {
        self.fb@
    }

    /// The current palette, as RGBA colours, if one has been set.
    pub closed spec fn colors(&self) -> Option<Seq<Seq<u8>>> {
        match self.palette {
            Some(p) => Some(p@.map_values(|c: [u8; 4]| c@)),
            None => None,
        }
    }

    /// A black frame buffer without a palette.
    pub fn new() -> (v: Vid)
        ensures
            v.frame() == Seq::new(screen_pixels() as nat, |i: int| 0u8),
            v.colors() is None,
    {
        let fb = vec![0u8; SCREEN_WIDTH * SCREEN_HEIGHT];
        assert(fb@ =~= Seq::new(screen_pixels() as nat, |i: int| 0u8));
        Vid { fb, palette: None }
    }

    /// Copies `data` down screen column `x`, from row `y` on.
    fn blit_column(&mut self, data: &[u8], x: usize, y: usize)
        requires
            column_fits(data@.len() as int, x as int, y as int),
        ensures
            final(self).frame() == column_blitted(old(self).frame(), data@, x as int, y as int),
            final(self).colors() == old(self).colors(),
    {
        proof {
            use_type_invariant(&*self);
        }
        let ghost fb0 = self.fb@;
        let ghost pal0 = self.palette;
        let mut i: usize = 0;
        while i < data.len()
            invariant
                i <= data@.len(),
                column_fits(data@.len() as int, x as int, y as int),
                self.fb@.len() == screen_pixels(),
                self.palette == pal0,
                fb0.len() == screen_pixels(),
                self.fb@ == column_blitted(fb0, data@.subrange(0, i as int), x as int, y as int),
            decreases data@.len() - i,
        {
            let idx = (y + i) * SCREEN_WIDTH + x;
            self.fb[idx] = data[i];
            proof {
                let src = data@.subrange(0, i + 1);
                assert forall|p: int| 0 <= p < screen_pixels() implies self.fb@[p]
                    == column_blitted(fb0, src, x as int, y as int)[p] by {
                    let k = p - x - 320 * y;
                    if p == idx {
                        assert(k == 320 * i);
                    } else {
                        if 0 <= k && k % 320 == 0 && k / 320 < src.len() {
                            assert(k / 320 != i);
                        }
                    }
                }
                assert(self.fb@ =~= column_blitted(fb0, src, x as int, y as int));
            }
            i = i + 1;
        }
        assert(data@.subrange(0, data@.len() as int) =~= data@);
    }

    /// Draws the patch `data` with its origin at screen position `(x, y)`.
    pub fn draw_patch_raw(&mut self, data: &[u8], x: usize, y: usize)
        requires
            patch_drawable(data@, x, y),
        ensures
            final(self).frame() == patch_drawn(old(self).frame(), data@, x, y),
            final(self).colors() == old(self).colors(),
    {
        let w = read_u16_le(data, 0) as usize;
        let left = read_i16_le(data, 4) as isize;
        let top = read_i16_le(data, 6) as isize;
        let x0 = (x as isize - left) as usize;
        let y0 = (y as isize - top) as usize;
        let ghost fb0 = self.frame();
        let mut x_ofs: usize = 0;
        while x_ofs < w
            invariant
                patch_drawable(data@, x, y),
                w == patch_width(data@),
                x0 == patch_origin(x, patch_left(data@)),
                y0 == patch_origin(y, patch_top(data@)),
                x_ofs <= w,
                self.frame() == columns_drawn(fb0, data@, x0 as int, y0 as int, x_ofs as nat),
                self.colors() == old(self).colors(),
            decreases w - x_ofs,
        {
            let mut col_ofs = read_u32_le(data, 8 + 4 * x_ofs) as usize;
            let dest_x = x0 + x_ofs;
            let ghost fb_col = self.frame();
            let ghost start = col_ofs as int;
            assert(start == column_offset(data@, x_ofs as int));
            assert(posts_ok(data@, dest_x as int, y0 as int, column_offset(data@, x_ofs as int)));
            loop
                invariant
                    posts_ok(data@, dest_x as int, y0 as int, col_ofs as int),
                    posts_drawn(self.frame(), data@, dest_x as int, y0 as int, col_ofs as int)
                        == posts_drawn(fb_col, data@, dest_x as int, y0 as int, start),
                    self.colors() == old(self).colors(),
                    y0 <= 200,
                ensures
                    self.frame() == posts_drawn(fb_col, data@, dest_x as int, y0 as int, start),
                    self.colors() == old(self).colors(),
                decreases data@.len() - col_ofs,
            {
                let topdelta = data[col_ofs] as usize;
                if topdelta == 255 {
                    break;
                }
                let length = data[col_ofs + 1] as usize;
                let source0 = col_ofs + 3;
                let source1 = source0 + length;
                let dest_y = topdelta + y0;
                self.blit_column(&data[source0..source1], dest_x, dest_y);
                col_ofs = col_ofs + length + 4;
            }
            x_ofs = x_ofs + 1;
        }
    }

    /// Copies the raw `w` by `h` picture `data` to the top-left corner of the screen.
    fn blit_raw(&mut self, data: &[u8], w: usize, h: usize)
        requires
            raw_fits(data@.len() as int, w as int, h as int),
        ensures
            final(self).frame() == raw_blitted(old(self).frame(), data@, w as int, h as int),
            final(self).colors() == old(self).colors(),
    {
        proof {
            use_type_invariant(&*self);
        }
        let ghost fb0 = self.fb@;
        let ghost pal0 = self.palette;
        let data_len = data.len();
        if w == SCREEN_WIDTH && h == SCREEN_HEIGHT {
            // A full-screen picture: one straight copy.
            let n = SCREEN_WIDTH * SCREEN_HEIGHT;
            let mut p: usize = 0;
            while p < n
                invariant
                    n == screen_pixels(),
                    n <= data@.len(),
                    p <= n,
                    self.fb@.len() == screen_pixels(),
                    self.palette == pal0,
                    forall|q: int|
                        0 <= q < screen_pixels() ==> #[trigger] self.fb@[q] == if q < p {
                            data@[q]
                        } else {
                            fb0[q]
                        },
                decreases n - p,
            {
                self.fb[p] = data[p];
                p = p + 1;
            }
            assert(self.fb@ =~= raw_blitted(fb0, data@, w as int, h as int));
            return;
        }
        let rows = if h < SCREEN_HEIGHT { h } else { SCREEN_HEIGHT };
        if rows > 0 {
            assert(w * rows <= data@.len()) by (nonlinear_arith)
                requires rows * w <= data@.len();
        }
        let mut yy: usize = 0;
        let mut start: usize = 0;
        while yy < rows
            invariant
                rows == rows_on_screen(h as int),
                data@.len() <= usize::MAX,
                raw_fits(data@.len() as int, w as int, h as int),
                yy <= rows,
                rows > 0 ==> start == yy * w && w <= 320 && w * rows <= data@.len(),
                self.fb@.len() == screen_pixels(),
                fb0.len() == screen_pixels(),
                self.palette == pal0,
                forall|p: int|
                    0 <= p < screen_pixels() ==> #[trigger] self.fb@[p] == if p / 320 < yy && p
                        % 320 < w {
                        data@[(p / 320) * w + p % 320]
                    } else {
                        fb0[p]
                    },
            decreases rows - yy,
        {
            assert(start + w <= data@.len()) by (nonlinear_arith)
                requires
                    start == yy * w,
                    yy < rows,
                    w * rows <= data@.len(),
            ;
            let mut xx: usize = 0;
            while xx < w
                invariant
                    yy < rows <= 200,
                    data@.len() <= usize::MAX,
                    w <= 320,
                    start == yy * w,
                    start + w <= data@.len(),
                    xx <= w,
                    self.fb@.len() == screen_pixels(),
                    self.palette == pal0,
                    forall|p: int|
                        0 <= p < screen_pixels() ==> #[trigger] self.fb@[p] == if (p / 320 < yy
                            && p % 320 < w) || (p / 320 == yy && p % 320 < xx) {
                            data@[(p / 320) * w + p % 320]
                        } else {
                            fb0[p]
                        },
                decreases w - xx,
            {
                let idx = yy * SCREEN_WIDTH + xx;
                self.fb[idx] = data[start + xx];
                proof {
                    assert(idx / 320 == yy && idx % 320 == xx);
                    assert((idx / 320) * w == start);
                }
                xx = xx + 1;
            }
            start = start + w;
            yy = yy + 1;
            proof {
                assert(start == yy * w) by (nonlinear_arith)
                    requires
                        start == (yy - 1) * w + w,
                ;
            }
        }
        assert(self.fb@ =~= raw_blitted(fb0, data@, w as int, h as int));
    }

    /// Copies the full-screen raw picture named `lump` to the screen, if the
    /// archive has one.
    pub fn draw_raw_screen(&mut self, wad: &Wad, lump: &str)
        requires
            wad.lump_by_name(lump@) matches Some(d) ==> d.len() >= screen_pixels(),
        ensures
            final(self).frame() == match wad.lump_by_name(lump@) {
                Some(d) => raw_blitted(old(self).frame(), d, 320, 200),
                None => old(self).frame(),
            },
            final(self).colors() == old(self).colors(),
    {
        if let Some(lump) = wad.cache_lump_name(lump) {
            self.blit_raw(lump, SCREEN_WIDTH, SCREEN_HEIGHT);
        }
    }

    /// Draws the patch named `lump` at `(x, y)`, if the archive has one.
    pub fn draw_patch(&mut self, wad: &Wad, x: usize, y: usize, lump: &str)
        requires
            wad.lump_by_name(lump@) matches Some(d) ==> patch_drawable(d, x, y),
        ensures
            final(self).frame() == match wad.lump_by_name(lump@) {
                Some(d) => patch_drawn(old(self).frame(), d, x, y),
                None => old(self).frame(),
            },
            final(self).colors() == old(self).colors(),
    {
        if let Some(lump) = wad.cache_lump_name(lump) {
            self.draw_patch_raw(lump, x, y);
        }
    }

    /// Makes the lump named `lump`, if the archive has one, the palette.
    pub fn set_palette(&mut self, wad: &Wad, lump: &str)
        requires
            wad.lump_by_name(lump@) matches Some(d) ==> d.len() % 3 == 0,
        ensures
            final(self).frame() == old(self).frame(),
            final(self).colors() == match wad.lump_by_name(lump@) {
                Some(d) => Some(palette_from(d)),
                None => old(self).colors(),
            },
    {
        proof {
            use_type_invariant(&*self);
        }
        if let Some(lump) = wad.cache_lump_name(lump) {
            let n = lump.len() / 3;
            let mut pal: Vec<[u8; 4]> = Vec::new();
            let mut i: usize = 0;
            while i < n
                invariant
                    n == lump@.len() / 3,
                    lump@.len() <= usize::MAX,
                    i <= n,
                    pal@.len() == i,
                    forall|j: int|
                        0 <= j < i ==> (#[trigger] pal@[j])@ == palette_from(lump@)[j],
                decreases n - i,
            {
                let c = [lump[3 * i], lump[3 * i + 1], lump[3 * i + 2], 0xff];
                assert(c@ =~= palette_from(lump@)[i as int]);
                pal.push(c);
                i = i + 1;
            }
            self.palette = Some(pal);
            assert(self.colors()->0 =~= palette_from(lump@));
        }
    }

    /// The pixels of the frame buffer, row by row.
    pub fn frame_buffer(&self) -> (r: &[u8])
        ensures
            r@ == self.frame(),
            r@.len() == screen_pixels(),
    {
        proof {
            use_type_invariant(self);
        }
        self.fb.as_slice()
    }

    /// Whether every pixel of the frame has a colour in the palette (or no
    /// palette is set), so that the frame can be rendered.
    pub fn can_render(&self) -> (r: bool)
        ensures
            r == (self.colors() matches Some(pal) ==> forall|p: int|
                0 <= p < self.frame().len() ==> #[trigger] self.frame()[p] < pal.len()),
    {
        match &self.palette {
            None => true,
            Some(pal) => {
                let mut p: usize = 0;
                while p < self.fb.len()
                    invariant
                        self.palette == Some(*pal),
                        p <= self.fb@.len(),
                        forall|q: int| 0 <= q < p ==> #[trigger] self.fb@[q] < pal@.len(),
                    decreases self.fb@.len() - p,
                {
                    if self.fb[p] as usize >= pal.len() {
                        assert(self.frame()[p as int] >= self.colors()->0.len());
                        return false;
                    }
                    p = p + 1;
                }
                true
            },
        }
    }
}

/// The frame as RGBA bytes through the current palette, or `None` while no
/// palette has been set (the picture on screen then stays as it was).
pub fn render(vid: &Vid) -> (r: Option<Vec<u8>>)
    requires
        vid.colors() matches Some(pal) ==> forall|p: int|
            0 <= p < vid.frame().len() ==> #[trigger] vid.frame()[p] < pal.len(),
    ensures
        match vid.colors() {
            Some(pal) => r matches Some(img) && img@ == rgba_image(vid.frame(), pal),
            None => r is None,
        },
{
    match &vid.palette {
        None => None,
        Some(pal) => {
            let mut out: Vec<u8> = Vec::new();
            let mut p: usize = 0;
            proof {
                assert forall|q: int| 0 <= q < vid.fb@.len() implies #[trigger] vid.fb@[q]
                    < pal@.len() by {
                    assert(vid.frame()[q] < vid.colors()->0.len());
                }
            }
            while p < vid.fb.len()
                invariant
                    vid.palette == Some(*pal),
                    p <= vid.fb@.len(),
                    out@.len() == 4 * p,
                    forall|q: int|
                        0 <= q < vid.fb@.len() ==> #[trigger] vid.fb@[q] < pal@.len(),
                    forall|i: int|
                        0 <= i < 4 * p ==> #[trigger] out@[i] == pal@[vid.fb@[i / 4] as int]@[i
                            % 4],
                decreases vid.fb@.len() - p,
            {
                let c = pal[vid.fb[p] as usize];
                let ghost before = out@;
                out.push(c[0]);
                out.push(c[1]);
                out.push(c[2]);
                out.push(c[3]);
                proof {
                    assert forall|i: int| 0 <= i < 4 * (p + 1) implies #[trigger] out@[i]
                        == pal@[vid.fb@[i / 4] as int]@[i % 4] by {
                        if i >= 4 * p {
                            assert(i / 4 == p);
                        } else {
                            assert(out@[i] == before[i]);
                        }
                    }
                }
                p = p + 1;
            }
            assert(out@ =~= rgba_image(vid.frame(), vid.colors()->0));
            Some(out)
        },
    }
}

} // verus!