//! Drawing the menus: the background, the animated skulls of the main menu,
//! the lines of the current menu and the selector beside the highlighted line.

use crate::menu::{menu_labels, Menu, MenuItem, MenuOffset, MenuState};
use crate::text::{font_base, render_text, text_drawable, text_drawn, text_fits};
use crate::vid::{palette_from, patch_drawable, patch_drawn, patch_fits, raw_blitted, screen_pixels, Vid};
use crate::wad::Wad;
use vstd::prelude::*;

verus! {

/// Which of the 18 skull pictures the main menu shows at tick `time`.
pub open spec fn skull_frame(time: u32) -> int {
    (time / 3) as int % 18
}

/// The main menu's skulls and title can be drawn at tick `time`.
pub open spec fn specific_ok(wad: &Wad, menu: Menu, time: u32) -> bool {
    menu == Menu::Main ==> {
        let b = wad.first_named("M_SKL00"@);
        let f = skull_frame(time);
        &&& b is Some
        &&& b->0 + 17 - f < wad.lumps@.len()
        &&& b->0 + f < wad.lumps@.len()
        &&& wad.lump_by_name("M_HTIC"@) matches Some(d) ==> patch_drawable(d, 88, 0)
        &&& patch_drawable(wad.lumps@[b->0 + 17 - f].data@, 40, 10)
        &&& patch_drawable(wad.lumps@[b->0 + f].data@, 232, 10)
    }
}

/// `fb` once the pictures particular to `menu` have been drawn at tick `time`:
/// for the main menu the title and two skulls turning opposite ways.
pub open spec fn specific_drawn(fb: Seq<u8>, wad: &Wad, menu: Menu, time: u32) -> Seq<u8> {
    if menu == Menu::Main {
        let b = wad.first_named("M_SKL00"@)->0;
        let f = skull_frame(time);
        let fb1 = match wad.lump_by_name("M_HTIC"@) {
            Some(d) => patch_drawn(fb, d, 88, 0),
            None => fb,
        };
        let fb2 = patch_drawn(fb1, wad.lumps@[b + 17 - f].data@, 40, 10);
        patch_drawn(fb2, wad.lumps@[b + f].data@, 232, 10)
    } else {
        fb
    }
}

/// The skulls of the main menu turn opposite ways: at tick `t`, with
/// `f = (t / 3) % 18`, the title is drawn at (88, 0), then the skull on the
/// left at (40, 10) is the lump `17 - f` after `M_SKL00` and the skull on
/// the right at (232, 10) the lump `f` after it. Other menus draw nothing of
/// their own.
pub proof fn lemma_skulls_turn_opposite_ways(fb: Seq<u8>, wad: &Wad, menu: Menu, t: u32)
    ensures
        menu != Menu::Main ==> specific_drawn(fb, wad, menu, t) == fb,
        menu == Menu::Main ==> {
            let skull0 = wad.first_named("M_SKL00"@)->0;
            let title = match wad.lump_by_name("M_HTIC"@) {
                Some(d) => patch_drawn(fb, d, 88, 0),
                None => fb,
            };
            specific_drawn(fb, wad, menu, t) == patch_drawn(
                patch_drawn(title, wad.lumps@[skull0 + 17 - (t / 3) % 18].data@, 40, 10),
                wad.lumps@[skull0 + (t / 3) % 18].data@,
                232,
                10,
            )
        },
{
}

/// Draws the pictures particular to `menu` at tick `time`.
pub fn render_specific_menus(wad: &Wad, vid: &mut Vid, menu: &Menu, time: u32)
    requires
        specific_ok(wad, *menu, time),
    ensures
        final(vid).frame() == specific_drawn(old(vid).frame(), wad, *menu, time),
        final(vid).colors() == old(vid).colors(),
{
    match *menu {
        Menu::Main => {
            let base = match wad.get_num_for_name("M_SKL00") {
                Some(b) => b,
                None => {
                    assert(false);
                    return;
                },
            };
            let frame = ((time / 3) % 18) as usize;
            proof {
                assert(wad.lumps.len() == wad.lumps@.len());
            }
            assert(frame == skull_frame(time) && frame < 18);
            vid.draw_patch(wad, 88, 0, "M_HTIC");
            let left = match wad.cache_lump_num(base + (17 - frame)) {
                Some(l) => l,
                None => {
                    assert(false);
                    return;
                },
            };
            vid.draw_patch_raw(left, 40, 10);
            let right = match wad.cache_lump_num(base + frame) {
                Some(l) => l,
                None => {
                    assert(false);
                    return;
                },
            };
            vid.draw_patch_raw(right, 232, 10);
        },
        _ => {},
    }
}

/// Where menu `m` is drawn: the first offset given for it, or `(0, 0)`.
pub open spec fn offset_of(menus: Seq<(Menu, MenuOffset)>, m: Menu) -> (int, int)
    decreases menus.len(),
{
    if menus.len() == 0 {
        (0, 0)
    } else if menus[0].0 == m {
        (menus[0].1.0 as int, menus[0].1.1 as int)
    } else {
        offset_of(menus.drop_first(), m)
    }
}

/// The lines of menu `cur` among `items` can be drawn from `(x, y0)` on,
/// one every 20 rows, in the font `FONTB_S`.
pub open spec fn lines_ok(wad: &Wad, items: Seq<(Menu, MenuItem)>, cur: Menu, x: int, y0: int) -> bool
    decreases items.len(),
{
    items.len() == 0 || {
        let n = menu_labels(items.drop_last(), cur).len();
        let t = items.last().1.text@;
        &&& lines_ok(wad, items.drop_last(), cur, x, y0)
        &&& items.last().0 == cur ==> {
            &&& y0 + 20 * (n + 1) <= usize::MAX
            &&& t.len() > 0 ==> {
                &&& wad.first_named("FONTB_S"@) is Some
                &&& text_drawable(wad, font_base(wad, "FONTB_S"@), t, x, (y0 + 20 * n) as usize)
            }
        }
    }
}

/// `fb` once the lines of menu `cur` among `items` have been drawn from
/// `(x, y0)` on, one every 20 rows (blank lines are skipped).
pub open spec fn lines_drawn(
    fb: Seq<u8>,
    wad: &Wad,
    items: Seq<(Menu, MenuItem)>,
    cur: Menu,
    x: int,
    y0: int,
) -> Seq<u8>
    decreases items.len(),
{
    if items.len() == 0 {
        fb
    } else {
        let before = lines_drawn(fb, wad, items.drop_last(), cur, x, y0);
        let n = menu_labels(items.drop_last(), cur).len();
        let t = items.last().1.text@;
        if items.last().0 == cur && t.len() > 0 {
            text_drawn(before, wad, font_base(wad, "FONTB_S"@), t, x, (y0 + 20 * n) as usize)
        } else {
            before
        }
    }
}

/// What is drawable for all items is drawable for the first `k` of them.
pub proof fn lemma_lines_ok_prefix(wad: &Wad, items: Seq<(Menu, MenuItem)>, cur: Menu, x: int, y0: int, k: int)
    requires
        0 <= k <= items.len(),
        lines_ok(wad, items, cur, x, y0),
    ensures
        lines_ok(wad, items.subrange(0, k), cur, x, y0),
    decreases items.len(),
{
    if k == items.len() {
        assert(items.subrange(0, k) =~= items);
    } else {
        assert(items.drop_last().subrange(0, k) =~= items.subrange(0, k));
        lemma_lines_ok_prefix(wad, items.drop_last(), cur, x, y0, k);
    }
}

/// How many entries of `items` belong to menu `cur`, blank lines included.
pub open spec fn entries_of(items: Seq<(Menu, MenuItem)>, cur: Menu) -> int {
    items.filter(in_menu(cur)).len() as int
}

/// The entry belongs to menu `cur`.
pub open spec fn in_menu(cur: Menu) -> spec_fn((Menu, MenuItem)) -> bool {
    |e: (Menu, MenuItem)| e.0 == cur
}

/// Menu `cur` has as many lines as it has entries, blank ones included.
proof fn lemma_labels_count_entries(items: Seq<(Menu, MenuItem)>, cur: Menu)
    ensures
        menu_labels(items, cur).len() == entries_of(items, cur),
    decreases items.len(),
{
    if items.len() == 0 {
        reveal(Seq::filter);
    } else {
        let pre = items.drop_last();
        lemma_labels_count_entries(pre, cur);
        assert(pre.push(items.last()) =~= items);
        pre.lemma_filter_push(items.last(), in_menu(cur));
    }
}

/// Each line of the current menu is drawn 20 rows below the one before it,
/// blank lines included: the line after `k` entries of menu `cur` is drawn,
/// unless it is blank, at row `y0 + 20 * k` in the font `FONTB_S`; an entry
/// of another menu, or a blank line, draws nothing.
pub proof fn lemma_line_rows(
    fb: Seq<u8>,
    wad: &Wad,
    items: Seq<(Menu, MenuItem)>,
    e: (Menu, MenuItem),
    cur: Menu,
    x: int,
    y0: int,
)
    ensures
        lines_drawn(fb, wad, items.push(e), cur, x, y0) == if e.0 == cur && e.1.text@.len() > 0 {
            text_drawn(
                lines_drawn(fb, wad, items, cur, x, y0),
                wad,
                wad.first_named("FONTB_S"@)->0 + 1,
                e.1.text@,
                x,
                (y0 + 20 * entries_of(items, cur)) as usize,
            )
        } else {
            lines_drawn(fb, wad, items, cur, x, y0)
        },
{
    assert(items.push(e).drop_last() =~= items);
    lemma_labels_count_entries(items, cur);
}

/// The selector picture shown at tick `time`; it blinks every 16 ticks.
pub open spec fn selector_name(time: u32) -> Seq<char> {
    if (time & 16) != 0 { "M_SLCTR1"@ } else { "M_SLCTR2"@ }
}

/// The line beside which the selector stands.
pub open spec fn selector_line(items: Seq<(Menu, MenuItem)>, state: &MenuState) -> int {
    let count = menu_labels(items, state.cur).len() as int;
    if count < state.selection { count } else { state.selection as int }
}

/// The menu screen can be drawn without failing.
pub open spec fn menu_screen_ok(
    wad: &Wad,
    state: &MenuState,
    menus: Seq<(Menu, MenuOffset)>,
    items: Seq<(Menu, MenuItem)>,
) -> bool {
    let (x, y0) = offset_of(menus, state.cur);
    let sy = y0 + selector_line(items, state) * 20 - 1;
    &&& wad.lump_by_name("PLAYPAL"@) matches Some(d) ==> d.len() % 3 == 0
    &&& state.background matches Some(bg) ==> (wad.lump_by_name(bg@) matches Some(d) ==> d.len()
        >= screen_pixels())
    &&& state.cur != Menu::Closed ==> {
        &&& specific_ok(wad, state.cur, state.time)
        &&& lines_ok(wad, items, state.cur, x, y0)
        &&& y0 + selector_line(items, state) * 20 <= usize::MAX
        &&& sy >= 0
        &&& x >= 28
        &&& wad.lump_by_name(selector_name(state.time)) matches Some(d) ==> patch_drawable(
            d,
            (x - 28) as usize,
            sy as usize,
        )
    }
}

/// The frame once the menu screen has been drawn over `fb`.
pub open spec fn menu_screen(
    fb: Seq<u8>,
    wad: &Wad,
    state: &MenuState,
    menus: Seq<(Menu, MenuOffset)>,
    items: Seq<(Menu, MenuItem)>,
) -> Seq<u8> {
    let fb1 = match state.background {
        Some(bg) => match wad.lump_by_name(bg@) {
            Some(d) => raw_blitted(fb, d, 320, 200),
            None => fb,
        },
        None => fb,
    };
    if state.cur == Menu::Closed {
        fb1
    } else {
        let (x, y0) = offset_of(menus, state.cur);
        let fb2 = specific_drawn(fb1, wad, state.cur, state.time);
        let fb3 = lines_drawn(fb2, wad, items, state.cur, x, y0);
        let sy = y0 + selector_line(items, state) * 20 - 1;
        match wad.lump_by_name(selector_name(state.time)) {
            Some(d) => patch_drawn(fb3, d, (x - 28) as usize, sy as usize),
            None => fb3,
        }
    }
}

/// Draws the menu screen: sets the palette, draws the background and, while
/// a menu is shown, its pictures, its lines and the blinking selector.
pub fn render(
    wad: &Wad,
    vid: &mut Vid,
    state: &MenuState,
    menus: &[(Menu, MenuOffset)],
    items: &[(Menu, MenuItem)],
)
    requires
        menu_screen_ok(wad, state, menus@, items@),
    ensures
        final(vid).colors() == match wad.lump_by_name("PLAYPAL"@) {
            Some(d) => Some(palette_from(d)),
            None => old(vid).colors(),
        },
        final(vid).frame() == menu_screen(old(vid).frame(), wad, state, menus@, items@),
{
    vid.set_palette(wad, "PLAYPAL");
    if let Some(patch) = state.background {
        vid.draw_raw_screen(wad, patch);
    }
    if state.cur == Menu::Closed {
        return;
    }
    let mut x: usize = 0;
    let mut orig_y: usize = 0;
    let mut k: usize = 0;
    assert(menus@.subrange(0, menus@.len() as int) =~= menus@);
    while k < menus.len()
        invariant_except_break
            k <= menus@.len(),
            x == 0 && orig_y == 0,
            offset_of(menus@, state.cur) == offset_of(menus@.subrange(k as int, menus@.len() as int), state.cur),
        ensures
            (x as int, orig_y as int) == offset_of(menus@, state.cur),
        decreases menus@.len() - k,
    {
        let ghost rest = menus@.subrange(k as int, menus@.len() as int);
        assert(rest.drop_first() =~= menus@.subrange(k + 1, menus@.len() as int));
        if state.cur == menus[k].0 {
            x = menus[k].1.0;
            orig_y = menus[k].1.1;
            break;
        }
        k = k + 1;
    }
    render_specific_menus(wad, vid, &state.cur, state.time);
    let ghost fb2 = vid.frame();
    let mut y = orig_y;
    let mut item_count: usize = 0;
    let mut k: usize = 0;
    while k < items.len()
        invariant
            k <= items@.len(),
            state.cur != Menu::Closed,
            menu_screen_ok(wad, state, menus@, items@),
            (x as int, orig_y as int) == offset_of(menus@, state.cur),
            item_count == menu_labels(items@.subrange(0, k as int), state.cur).len(),
            item_count <= k,
            y == orig_y + 20 * item_count,
            vid.frame() == lines_drawn(fb2, wad, items@.subrange(0, k as int), state.cur, x as int, orig_y as int),
            vid.colors() == match wad.lump_by_name("PLAYPAL"@) {
                Some(d) => Some(palette_from(d)),
                None => old(vid).colors(),
            },
        decreases items@.len() - k,
    {
        proof {
            let pre = items@.subrange(0, k + 1);
            assert(pre.drop_last() =~= items@.subrange(0, k as int));
            assert(pre.last() == items@[k as int]);
            lemma_lines_ok_prefix(wad, items@, state.cur, x as int, orig_y as int, k + 1);
            crate::menu::lemma_labels_len(items@.subrange(0, k as int), state.cur);
            crate::menu::lemma_actions_len(items@.subrange(0, k as int), state.cur);
        }
        if items[k].0 == state.cur {
            item_count = item_count + 1;
            if !items[k].1.text.is_empty() {
                render_text(wad, vid, "FONTB_S", items[k].1.text, x, y);
            }
            y = y + 20;
        }
        k = k + 1;
    }
    assert(items@.subrange(0, items@.len() as int) =~= items@);
    let item_num = if item_count < state.selection { item_count } else { state.selection };
    let y = orig_y + item_num * 20 - 1;
    if (state.time & 16) != 0 {
        vid.draw_patch(wad, x - 28, y, "M_SLCTR1");
    } else {
        vid.draw_patch(wad, x - 28, y, "M_SLCTR2");
    }
}

/// Whether the main menu's pictures can be drawn at tick `time` (see [`specific_ok`]).
pub fn specific_fits(wad: &Wad, menu: Menu, time: u32) -> (r: bool)
    ensures
        r == specific_ok(wad, menu, time),
{
    if menu != Menu::Main {
        return true;
    }
    let base = match wad.get_num_for_name("M_SKL00") {
        Some(b) => b,
        None => return false,
    };
    let frame = ((time / 3) % 18) as usize;
    let lump_total = wad.lumps.len();
    assert(frame == skull_frame(time) && frame < 18);
    if 17 - frame >= lump_total - base || frame >= lump_total - base {
        return false;
    }
    if let Some(d) = wad.cache_lump_name("M_HTIC") {
        if !patch_fits(d, 88, 0) {
            return false;
        }
    }
    patch_fits(wad.lumps[base + (17 - frame)].data.as_slice(), 40, 10) && patch_fits(
        wad.lumps[base + frame].data.as_slice(),
        232,
        10,
    )
}

/// Where menu `m` is drawn (see [`offset_of`]).
pub fn offset_for(menus: &[(Menu, MenuOffset)], m: Menu) -> (r: (usize, usize))
    ensures
        (r.0 as int, r.1 as int) == offset_of(menus@, m),
{
    let mut k: usize = 0;
    assert(menus@.subrange(0, menus@.len() as int) =~= menus@);
    while k < menus.len()
        invariant
            k <= menus@.len(),
            offset_of(menus@, m) == offset_of(menus@.subrange(k as int, menus@.len() as int), m),
        decreases menus@.len() - k,
    {
        let ghost rest = menus@.subrange(k as int, menus@.len() as int);
        assert(rest.drop_first() =~= menus@.subrange(k + 1, menus@.len() as int));
        if menus[k].0 == m {
            return (menus[k].1.0, menus[k].1.1);
        }
        k = k + 1;
    }
    (0, 0)
}

/// Whether the lines of menu `cur` can be drawn from `(x, y0)` on (see [`lines_ok`]).
pub fn lines_fit(wad: &Wad, items: &[(Menu, MenuItem)], cur: Menu, x: usize, y0: usize) -> (r:
    bool)
    ensures
        r == lines_ok(wad, items@, cur, x as int, y0 as int),
{
    let font = wad.get_num_for_name("FONTB_S");
    let lump_total = wad.lumps.len();
    let mut count: usize = 0;
    let mut k: usize = 0;
    while k < items.len()
        invariant
            k <= items@.len(),
            lump_total == wad.lumps@.len(),
            font matches Some(i) ==> wad.first_named("FONTB_S"@) == Some(i as int) && i < lump_total,
            font is None ==> wad.first_named("FONTB_S"@) is None,
            count == menu_labels(items@.subrange(0, k as int), cur).len(),
            count <= k,
            lines_ok(wad, items@.subrange(0, k as int), cur, x as int, y0 as int),
        decreases items@.len() - k,
    {
        proof {
            let pre = items@.subrange(0, k + 1);
            assert(pre.drop_last() =~= items@.subrange(0, k as int));
            assert(pre.last() == items@[k as int]);
            crate::menu::lemma_labels_len(items@.subrange(0, k as int), cur);
            crate::menu::lemma_actions_len(items@.subrange(0, k as int), cur);
            if !lines_ok(wad, items@, cur, x as int, y0 as int) {
            } else {
                lemma_lines_ok_prefix(wad, items@, cur, x as int, y0 as int, k + 1);
            }
        }
        if items[k].0 == cur {
            if count > (usize::MAX - 20) / 20 || y0 > usize::MAX - 20 * (count + 1) {
                return false;
            }
            let text = items[k].1.text;
            if !text.is_empty() {
                let base = match font {
                    Some(i) => i + 1,
                    None => return false,
                };
                if !text_fits(wad, base, text, x, y0 + 20 * count) {
                    return false;
                }
            }
            count = count + 1;
        }
        k = k + 1;
    }
    assert(items@.subrange(0, items@.len() as int) =~= items@);
    true
}

/// Whether the menu screen can be drawn (see [`menu_screen_ok`]).
pub fn screen_fits(
    wad: &Wad,
    state: &MenuState,
    menus: &[(Menu, MenuOffset)],
    items: &[(Menu, MenuItem)],
) -> (r: bool)
    ensures
        r == menu_screen_ok(wad, state, menus@, items@),
{
    if let Some(d) = wad.cache_lump_name("PLAYPAL") {
        if d.len() % 3 != 0 {
            return false;
        }
    }
    if let Some(bg) = state.background {
        if let Some(d) = wad.cache_lump_name(bg) {
            if d.len() < 64000 {
                return false;
            }
        }
    }
    if state.cur == Menu::Closed {
        return true;
    }
    if !specific_fits(wad, state.cur, state.time) {
        return false;
    }
    let (x, y0) = offset_for(menus, state.cur);
    if !lines_fit(wad, items, state.cur, x, y0) {
        return false;
    }
    let count = crate::menu::labels_of(items, state.cur).len();
    let line = if count < state.selection { count } else { state.selection };
    if line > (usize::MAX - y0) / 20 {
        return false;
    }
    let bottom = y0 + line * 20;
    if bottom < 1 || x < 28 {
        return false;
    }
    let name = if (state.time & 16) != 0 { "M_SLCTR1" } else { "M_SLCTR2" };
    if let Some(d) = wad.cache_lump_name(name) {
        if !patch_fits(d, x - 28, bottom - 1) {
            return false;
        }
    }
    true
}

} // verus!
