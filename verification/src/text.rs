//! Text drawn with a patch font: glyph `c` of a font is the lump that comes
//! `c - 33` lumps after the lump following the font's name lump; characters
//! below 33 are blanks five pixels wide.

use crate::patch::{patch_width, Patch};
use crate::bytes::{le_u16, read_u16_le};
use crate::vid::{patch_drawable, patch_drawn, patch_fits, Vid};
use crate::wad::Wad;
use vstd::prelude::*;
use vstd::string::StrSliceExecFns;

verus! {

/// The code of character `c`.
pub open spec fn code(c: char) -> int {
    (c as u32) as int
}

/// Index of the glyph lump of `c` in a font whose first glyph is lump `base`.
pub open spec fn glyph_index(base: int, c: char) -> int {
    base + code(c) - 33
}

/// The glyph lump of `c`.
pub open spec fn glyph(wad: &Wad, base: int, c: char) -> Seq<u8> {
    wad.lumps@[glyph_index(base, c)].data@
}

/// How far the pen moves for `c`: 5 for a blank, else the glyph's width less one.
pub open spec fn advance(wad: &Wad, base: int, c: char) -> int {
    if code(c) < 33 {
        5
    } else {
        patch_width(glyph(wad, base, c)) - 1
    }
}

/// The glyph of `c` (if it is not a blank) exists and has a header and a width.
pub open spec fn glyph_ok(wad: &Wad, base: int, c: char) -> bool {
    code(c) >= 33 ==> {
        &&& base + code(c) <= usize::MAX
        &&& 0 <= glyph_index(base, c) < wad.lumps@.len()
        &&& glyph(wad, base, c).len() >= 8
        &&& patch_width(glyph(wad, base, c)) >= 1
    }
}

/// How far the pen moves over `text`.
pub open spec fn text_advance(wad: &Wad, base: int, text: Seq<char>) -> int
    decreases text.len(),
{
    if text.len() == 0 {
        0
    } else {
        advance(wad, base, text[0]) + text_advance(wad, base, text.drop_first())
    }
}

/// `text` can be measured from pen position `x`: each glyph exists and the
/// pen never passes `usize::MAX`.
pub open spec fn text_measurable(wad: &Wad, base: int, text: Seq<char>, x: int) -> bool
    decreases text.len(),
{
    text.len() == 0 || {
        &&& glyph_ok(wad, base, text[0])
        &&& x + advance(wad, base, text[0]) <= usize::MAX
        &&& text_measurable(wad, base, text.drop_first(), x + advance(wad, base, text[0]))
    }
}

/// `text` can be drawn with the pen starting at `(x, y)`: it can be measured,
/// and every glyph can be drawn where the pen is.
pub open spec fn text_drawable(wad: &Wad, base: int, text: Seq<char>, x: int, y: usize) -> bool
    decreases text.len(),
{
    text.len() == 0 || {
        &&& glyph_ok(wad, base, text[0])
        &&& code(text[0]) >= 33 ==> patch_drawable(glyph(wad, base, text[0]), x as usize, y)
        &&& x + advance(wad, base, text[0]) <= usize::MAX
        &&& text_drawable(wad, base, text.drop_first(), x + advance(wad, base, text[0]), y)
    }
}

/// `fb` once `text` has been drawn with the pen starting at `(x, y)`.
pub open spec fn text_drawn(
    fb: Seq<u8>,
    wad: &Wad,
    base: int,
    text: Seq<char>,
    x: int,
    y: usize,
) -> Seq<u8>
    decreases text.len(),
{
    if text.len() == 0 {
        fb
    } else {
        let c = text[0];
        let fb1 = if code(c) >= 33 {
            patch_drawn(fb, glyph(wad, base, c), x as usize, y)
        } else {
            fb
        };
        text_drawn(fb1, wad, base, text.drop_first(), x + advance(wad, base, c), y)
    }
}

/// The pen moves over two texts one after the other as far as over each in turn.
pub proof fn lemma_advance_concat(wad: &Wad, base: int, t1: Seq<char>, t2: Seq<char>)
    ensures
        text_advance(wad, base, t1 + t2) == text_advance(wad, base, t1) + text_advance(
            wad,
            base,
            t2,
        ),
    decreases t1.len(),
{
    if t1.len() > 0 {
        assert((t1 + t2).drop_first() =~= t1.drop_first() + t2);
        assert((t1 + t2)[0] == t1[0]);
        lemma_advance_concat(wad, base, t1.drop_first(), t2);
    } else {
        assert(t1 + t2 =~= t2);
    }
}

/// Drawing two texts one after the other is drawing the first, then the
/// second where the pen stopped: `text_width` of the first further right.
pub proof fn lemma_drawn_concat(
    fb: Seq<u8>,
    wad: &Wad,
    base: int,
    t1: Seq<char>,
    t2: Seq<char>,
    x: int,
    y: usize,
)
    ensures
        text_drawn(fb, wad, base, t1 + t2, x, y) == text_drawn(
            text_drawn(fb, wad, base, t1, x, y),
            wad,
            base,
            t2,
            x + text_advance(wad, base, t1),
            y,
        ),
    decreases t1.len(),
{
    if t1.len() > 0 {
        let c = t1[0];
        assert((t1 + t2).drop_first() =~= t1.drop_first() + t2);
        assert((t1 + t2)[0] == c);
        let fb1 = if code(c) >= 33 {
            patch_drawn(fb, glyph(wad, base, c), x as usize, y)
        } else {
            fb
        };
        lemma_drawn_concat(fb1, wad, base, t1.drop_first(), t2, x + advance(wad, base, c), y);
    } else {
        assert(t1 + t2 =~= t2);
    }
}

/// One character: a character whose code is below 33 is a blank that moves
/// the pen 5 pixels and draws nothing; any other character `c` is drawn at
/// the pen with the lump `base + code(c) - 33` and moves the pen by that
/// lump's width less one.
pub proof fn lemma_one_character(fb: Seq<u8>, wad: &Wad, base: int, c: char, x: int, y: usize)
    ensures
        (c as u32) < 33 ==> {
            &&& text_advance(wad, base, seq![c]) == 5
            &&& text_drawn(fb, wad, base, seq![c], x, y) == fb
        },
        (c as u32) >= 33 ==> {
            let lump = wad.lumps@[base + (c as u32) - 33].data@;
            &&& text_advance(wad, base, seq![c]) == le_u16(lump, 0) - 1
            &&& text_drawn(fb, wad, base, seq![c], x, y) == patch_drawn(fb, lump, x as usize, y)
        },
{
    reveal_with_fuel(text_advance, 2);
    reveal_with_fuel(text_drawn, 2);
    assert(seq![c].drop_first() =~= Seq::<char>::empty());
    assert(seq![c][0] == c);
}

/// Text that can be measured never moves the pen back.
proof fn lemma_advance_nonneg(wad: &Wad, base: int, text: Seq<char>, x: int)
    requires
        text_measurable(wad, base, text, x),
    ensures
        text_advance(wad, base, text) >= 0,
    decreases text.len(),
{
    if text.len() > 0 {
        lemma_advance_nonneg(wad, base, text.drop_first(), x + advance(wad, base, text[0]));
    }
}

/// Text that can be measured from `x0` can be measured from any later pen
/// position `x`, as long as it ends by `usize::MAX`.
proof fn lemma_measurable_shift(wad: &Wad, base: int, text: Seq<char>, x0: int, x: int)
    requires
        text_measurable(wad, base, text, x0),
        x0 <= x,
        x + text_advance(wad, base, text) <= usize::MAX,
    ensures
        text_measurable(wad, base, text, x),
    decreases text.len(),
{
    if text.len() > 0 {
        let a = advance(wad, base, text[0]);
        lemma_advance_nonneg(wad, base, text.drop_first(), x0 + a);
        lemma_measurable_shift(wad, base, text.drop_first(), x0 + a, x + a);
    }
}

/// `t1` measured from `x` followed by `t2` measured from 0 is `t1 + t2`
/// measured from `x`, as long as the whole ends by `usize::MAX`.
proof fn lemma_measurable_concat(wad: &Wad, base: int, t1: Seq<char>, t2: Seq<char>, x: int)
    requires
        0 <= x,
        text_measurable(wad, base, t1, x),
        text_measurable(wad, base, t2, 0),
        x + text_advance(wad, base, t1) + text_advance(wad, base, t2) <= usize::MAX,
    ensures
        text_measurable(wad, base, t1 + t2, x),
    decreases t1.len(),
{
    if t1.len() == 0 {
        assert(t1 + t2 =~= t2);
        lemma_measurable_shift(wad, base, t2, 0, x);
    } else {
        let a = advance(wad, base, t1[0]);
        assert((t1 + t2).drop_first() =~= t1.drop_first() + t2);
        assert((t1 + t2)[0] == t1[0]);
        lemma_advance_nonneg(wad, base, t1.drop_first(), x + a);
        lemma_measurable_concat(wad, base, t1.drop_first(), t2, x + a);
    }
}

/// `text_width` of two texts joined is the sum of their widths: whenever
/// both can be measured and the sum fits in a `usize`, the joined text can
/// be measured too, and its width is that sum. The empty text is 0 wide.
pub proof fn lemma_width_of_joined_texts(wad: &Wad, base: int, t1: Seq<char>, t2: Seq<char>)
    requires
        text_measurable(wad, base, t1, 0),
        text_measurable(wad, base, t2, 0),
        text_advance(wad, base, t1) + text_advance(wad, base, t2) <= usize::MAX,
    ensures
        text_measurable(wad, base, t1 + t2, 0),
        text_advance(wad, base, t1 + t2) == text_advance(wad, base, t1) + text_advance(
            wad,
            base,
            t2,
        ),
        text_advance(wad, base, Seq::<char>::empty()) == 0,
{
    lemma_measurable_concat(wad, base, t1, t2, 0);
    lemma_advance_concat(wad, base, t1, t2);
}

/// Text that can be drawn from `x` can be measured from `x`.
pub proof fn lemma_drawable_is_measurable(wad: &Wad, base: int, text: Seq<char>, x: int, y: usize)
    requires
        text_drawable(wad, base, text, x, y),
    ensures
        text_measurable(wad, base, text, x),
    decreases text.len(),
{
    if text.len() > 0 {
        lemma_drawable_is_measurable(
            wad,
            base,
            text.drop_first(),
            x + advance(wad, base, text[0]),
            y,
        );
    }
}

/// Index of the first glyph of the font named `font`.
pub open spec fn font_base(wad: &Wad, font: Seq<char>) -> int {
    wad.first_named(font)->0 + 1
}

/// Draws `text` in the font named `font`, with the pen starting at `(x, y)`.
pub fn render_text(wad: &Wad, vid: &mut Vid, font: &str, text: &str, x: usize, y: usize)
    requires
        wad.first_named(font@) is Some,
        text_drawable(wad, font_base(wad, font@), text@, x as int, y),
    ensures
        final(vid).frame() == text_drawn(
            old(vid).frame(),
            wad,
            font_base(wad, font@),
            text@,
            x as int,
            y,
        ),
        final(vid).colors() == old(vid).colors(),
{
    let mut x = x;
    proof {
        assert(wad.lumps.len() == wad.lumps@.len());
    }
    let base = match wad.get_num_for_name(font) {
        Some(i) => i + 1,
        None => {
            assert(false);
            0
        },
    };
    let ghost fb0 = vid.frame();
    let ghost x0 = x as int;
    let n = text.unicode_len();
    let mut i: usize = 0;
    assert(text@.subrange(0, n as int) =~= text@);
    while i < n
        invariant
            n == text@.len(),
            i <= n,
            base == font_base(wad, font@),
            base <= wad.lumps@.len(),
            text_drawable(wad, base as int, text@.subrange(i as int, n as int), x as int, y),
            text_drawn(fb0, wad, base as int, text@, x0, y) == text_drawn(
                vid.frame(),
                wad,
                base as int,
                text@.subrange(i as int, n as int),
                x as int,
                y,
            ),
            vid.colors() == old(vid).colors(),
        decreases n - i,
    {
        let ghost rest = text@.subrange(i as int, n as int);
        assert(rest.drop_first() =~= text@.subrange(i + 1, n as int));
        let c = text.get_char(i);
        assert(c == rest[0]);
        let cp = c as u32;
        if cp < 33 {
            x = x + 5;
        } else {
            let lump = match wad.cache_lump_num(base + (cp as usize) - 33) {
                Some(l) => l,
                None => {
                    assert(false);
                    return;
                },
            };
            vid.draw_patch_raw(lump, x, y);
            let patch = Patch::from_lump(lump);
            x = x + (patch.w - 1);
        }
        i = i + 1;
    }
    assert(text@.subrange(0, n as int) =~= text@);
}

/// How many pixels `text` takes in the font named `font`.
pub fn text_width(wad: &Wad, font: &str, text: &str) -> (w: usize)
    requires
        wad.first_named(font@) is Some,
        text_measurable(wad, font_base(wad, font@), text@, 0),
    ensures
        w == text_advance(wad, font_base(wad, font@), text@),
{
    let mut w: usize = 0;
    proof {
        assert(wad.lumps.len() == wad.lumps@.len());
    }
    let base = match wad.get_num_for_name(font) {
        Some(i) => i + 1,
        None => {
            assert(false);
            0
        },
    };
    let n = text.unicode_len();
    let mut i: usize = 0;
    assert(text@.subrange(0, n as int) =~= text@);
    while i < n
        invariant
            n == text@.len(),
            i <= n,
            base == font_base(wad, font@),
            base <= wad.lumps@.len(),
            text_measurable(wad, base as int, text@.subrange(i as int, n as int), w as int),
            text_advance(wad, base as int, text@) == w + text_advance(
                wad,
                base as int,
                text@.subrange(i as int, n as int),
            ),
        decreases n - i,
    {
        let ghost rest = text@.subrange(i as int, n as int);
        assert(rest.drop_first() =~= text@.subrange(i + 1, n as int));
        let c = text.get_char(i);
        assert(c == rest[0]);
        let cp = c as u32;
        if cp < 33 {
            w = w + 5;
        } else {
            let lump = match wad.cache_lump_num(base + (cp as usize) - 33) {
                Some(l) => l,
                None => {
                    assert(false);
                    return 0;
                },
            };
            let patch = Patch::from_lump(lump);
            w = w + (patch.w - 1);
        }
        i = i + 1;
    }
    assert(text@.subrange(0, n as int) =~= text@);
    w
}

/// Whether `text` can be drawn in the font whose first glyph is lump
/// `base`, with the pen starting at `(x, y)` (see [`text_drawable`]).
pub fn text_fits(wad: &Wad, base: usize, text: &str, start_x: usize, y: usize) -> (r: bool)
    ensures
        r == text_drawable(wad, base as int, text@, start_x as int, y),
{
    let lump_total = wad.lumps.len();
    let n = text.unicode_len();
    let mut i: usize = 0;
    let mut x = start_x;
    let ghost x0 = start_x as int;
    assert(text@.subrange(0, n as int) =~= text@);
    while i < n
        invariant
            n == text@.len(),
            i <= n,
            lump_total == wad.lumps@.len(),
            x0 == start_x,
            text_drawable(wad, base as int, text@, x0, y) == text_drawable(
                wad,
                base as int,
                text@.subrange(i as int, n as int),
                x as int,
                y,
            ),
        decreases n - i,
    {
        let ghost rest = text@.subrange(i as int, n as int);
        assert(rest.drop_first() =~= text@.subrange(i + 1, n as int));
        let c = text.get_char(i);
        assert(c == rest[0]);
        let cp = c as u32 as usize;
        assert(cp == code(rest[0]));
        assert(rest.len() > 0);
        if cp < 33 {
            if x > usize::MAX - 5 {
                assert(advance(wad, base as int, rest[0]) == 5);
                return false;
            }
            x = x + 5;
        } else {
            if base > usize::MAX - cp {
                assert(!glyph_ok(wad, base as int, rest[0]));
                return false;
            }
            let g = base + cp - 33;
            if g >= lump_total {
                return false;
            }
            let lump = wad.lumps[g].data.as_slice();
            if lump.len() < 8 {
                return false;
            }
            let w = read_u16_le(lump, 0) as usize;
            if w < 1 {
                return false;
            }
            if !patch_fits(lump, x, y) {
                return false;
            }
            if x > usize::MAX - (w - 1) {
                return false;
            }
            x = x + (w - 1);
        }
        i = i + 1;
    }
    true
}

} // verus!
