use heretic::menu::{
    can_update, chosen, labels_of, select_down, select_up, setup, update, Menu, MenuAction,
    MenuItem, MenuKeys, MenuState,
};
use heretic::screen::{offset_for, render, screen_fits};
use heretic::text::{render_text, text_fits, text_width};
use heretic::vid::Vid;
use heretic::wad::{Lump, Wad};

const NONE: MenuKeys = MenuKeys { escape: false, enter: false, up: false, down: false };
const ESCAPE: MenuKeys = MenuKeys { escape: true, enter: false, up: false, down: false };
const ENTER: MenuKeys = MenuKeys { escape: false, enter: true, up: false, down: false };
const UP: MenuKeys = MenuKeys { escape: false, enter: false, up: true, down: false };
const DOWN: MenuKeys = MenuKeys { escape: false, enter: false, up: false, down: true };

fn state(cur: Menu) -> MenuState {
    MenuState { cur, stack: Vec::new(), background: Some("TITLE"), time: 0, selection: 0 }
}

fn items() -> Vec<(Menu, MenuItem)> {
    setup().1
}

fn patch(w: u16, h: u16, color: u8) -> Vec<u8> {
    let mut out = Vec::new();
    out.extend_from_slice(&w.to_le_bytes());
    out.extend_from_slice(&h.to_le_bytes());
    out.extend_from_slice(&[0, 0, 0, 0]);
    let table = out.len();
    out.resize(table + 4 * w as usize, 0);
    for c in 0..w as usize {
        let ofs = out.len() as u32;
        out[table + 4 * c..table + 4 * c + 4].copy_from_slice(&ofs.to_le_bytes());
        out.extend_from_slice(&[0, h as u8, 0]);
        out.extend(std::iter::repeat(color).take(h as usize));
        out.extend_from_slice(&[0, 255]);
    }
    out
}

fn lump(name: &str, data: Vec<u8>) -> Lump {
    Lump { name: name.to_string(), len: data.len(), pos: 0, data }
}

/// An archive with everything the menu screens draw; glyph `c` of the font
/// is `(c % 4) + 2` pixels wide and painted in colour `c`.
fn game_wad() -> Wad {
    let mut lumps = vec![lump("PLAYPAL", vec![0; 768]), lump("TITLE", vec![1; 64000])];
    lumps.push(lump("M_HTIC", patch(4, 4, 2)));
    for i in 0..18 {
        lumps.push(lump(&format!("M_SKL{:02}", i), patch(3, 3, 100 + i as u8)));
    }
    lumps.push(lump("FONTB_S", vec![]));
    for c in 33u32..=126 {
        lumps.push(lump("GLYPH", patch((c % 4) as u16 + 2, 5, c as u8)));
    }
    lumps.push(lump("M_SLCTR1", patch(2, 2, 201)));
    lumps.push(lump("M_SLCTR2", patch(2, 2, 202)));
    Wad { lumps }
}

#[test]
fn setup_makes_every_menu() {
    let (offsets, items) = setup();
    assert_eq!(offsets.len(), 6);
    assert_eq!(offsets[0].0, Menu::Main);
    assert_eq!((offsets[0].1 .0, offsets[0].1 .1), (110, 56));
    assert_eq!(offset_for(&offsets, Menu::Skill), (38, 30));
    assert_eq!(offset_for(&offsets, Menu::Save), (0, 0));
    assert_eq!(items.len(), 27);
    assert_eq!(items[0].1.text, "NEW GAME");
    assert_eq!(items[0].1.action, MenuAction::NetCheck(1, Menu::Episode));
    assert_eq!(items[4].1.action, MenuAction::QuitGame);
    assert_eq!(items[6].1.text, "HELL's MAW");
    let options = labels_of(&items, Menu::Options);
    assert_eq!(options, vec!["END GAME", "MESSAGES : ", "MOUSE SENSITIVITY", "", "MORE..."]);
    assert_eq!(labels_of(&items, Menu::Files), vec!["LOAD GAME", "SAVE GAME"]);
    assert!(labels_of(&items, Menu::Save).is_empty());
}

#[test]
fn escape_opens_and_closes_the_menus() {
    let items = items();
    let mut s = state(Menu::Closed);
    let r = update(&mut s, &items, NONE);
    assert_eq!(s.cur, Menu::Closed);
    assert!(r.cleared.escape && !r.cleared.enter && !r.quit);
    assert_eq!(s.time, 0);
    update(&mut s, &items, ESCAPE);
    assert_eq!(s.cur, Menu::Main);
    assert_eq!(s.time, 0);
    let r = update(&mut s, &items, ESCAPE);
    assert_eq!(s.cur, Menu::Closed);
    assert_eq!(s.time, 1);
    assert!(r.cleared.escape && !r.cleared.enter);
}

#[test]
fn enter_then_escape_comes_back() {
    let items = items();
    let mut s = state(Menu::Main);
    s.selection = 1; // OPTIONS
    let r = update(&mut s, &items, ENTER);
    assert_eq!(s.cur, Menu::Options);
    assert_eq!(s.stack, vec![Menu::Main]);
    assert_eq!(s.selection, 0);
    assert!(r.cleared.enter && !r.cleared.up && !r.quit);
    update(&mut s, &items, ESCAPE);
    assert_eq!(s.cur, Menu::Main);
    assert!(s.stack.is_empty());
    assert_eq!(s.time, 2);
}

#[test]
fn escape_keeps_the_highlight() {
    let items = items();
    let mut s = state(Menu::Options);
    s.stack = vec![Menu::Main];
    s.selection = 4;
    update(&mut s, &items, ESCAPE);
    assert_eq!((s.cur, s.selection), (Menu::Main, 4));
}

#[test]
fn quit_game_asks_to_quit() {
    let items = items();
    let mut s = state(Menu::Main);
    s.selection = 4;
    assert_eq!(chosen(&items, Menu::Main, 4), Some(MenuAction::QuitGame));
    let r = update(&mut s, &items, ENTER);
    assert!(r.quit);
    assert_eq!(s.cur, Menu::Main);
}

#[test]
fn other_actions_fall_through_to_navigation() {
    let items = items();
    let mut s = state(Menu::Main);
    let r = update(&mut s, &items, MenuKeys { escape: false, enter: true, up: false, down: true });
    assert_eq!(s.cur, Menu::Main);
    assert_eq!(s.selection, 1);
    assert!(!r.quit && r.cleared.up && r.cleared.down);
    // a blank line stops the search for the item
    let mut s = state(Menu::Options);
    s.selection = 3;
    update(&mut s, &items, ENTER);
    assert_eq!((s.cur, s.selection), (Menu::Options, 3));
    // past the last line nothing is chosen
    assert_eq!(chosen(&items, Menu::Files, 2), None);
}

#[test]
fn navigation_skips_blank_lines_and_wraps() {
    let labels = ["END GAME", "MESSAGES : ", "MOUSE SENSITIVITY", "", "MORE..."];
    assert_eq!(select_down(&labels, 2), 4);
    assert_eq!(select_up(&labels, 4), 2);
    assert_eq!(select_up(&labels, 0), 4);
    assert_eq!(select_down(&labels, 4), 0);
    assert_eq!(select_up(&labels, 5), 4);
    let two_blanks = ["SCREEN SIZE", "", "SFX VOLUME", "", "MUSIC VOLUME"];
    assert_eq!(select_down(&two_blanks, 0), 2);
    assert_eq!(select_down(&two_blanks, 2), 4);
    let single = ["", "ONLY", ""];
    assert_eq!(select_down(&single, 1), 1);
    assert_eq!(select_up(&single, 1), 1);
}

#[test]
fn down_then_up_comes_back() {
    let labels = ["A", "", "", "B", "C", ""];
    for s in [0usize, 3, 4] {
        assert_eq!(select_up(&labels, select_down(&labels, s)), s);
        assert_eq!(select_down(&labels, select_up(&labels, s)), s);
    }
}

#[test]
fn up_and_down_in_one_tick() {
    let items = items();
    let mut s = state(Menu::Options2);
    s.selection = 2;
    update(&mut s, &items, MenuKeys { escape: false, enter: false, up: true, down: true });
    assert_eq!(s.selection, 2);
    update(&mut s, &items, UP);
    assert_eq!(s.selection, 0);
    update(&mut s, &items, UP);
    assert_eq!(s.selection, 4);
    update(&mut s, &items, DOWN);
    assert_eq!(s.selection, 0);
}

#[test]
fn ticks_that_would_fail_are_recognised() {
    let items = items();
    let mut s = state(Menu::Save);
    assert!(!can_update(&s, &items, UP));
    assert!(!can_update(&s, &items, DOWN));
    assert!(can_update(&s, &items, ESCAPE));
    assert!(can_update(&s, &items, NONE));
    s.cur = Menu::Main;
    assert!(can_update(&s, &items, UP));
    s.selection = 5;
    assert!(can_update(&s, &items, UP));
    assert!(!can_update(&s, &items, DOWN));
    s.time = u32::MAX;
    assert!(!can_update(&s, &items, NONE));
    s.cur = Menu::Closed;
    assert!(can_update(&s, &items, UP));
}

#[test]
fn text_width_adds_up_the_glyphs() {
    let wad = game_wad();
    // 'A' is 65: 3 wide, advance 2; ' ' advances 5; 'B' is 66: 4 wide, advance 3.
    assert_eq!(text_width(&wad, "FONTB_S", "A B"), 2 + 5 + 3);
    assert_eq!(text_width(&wad, "FONTB_S", ""), 0);
    assert_eq!(text_width(&wad, "FONTB_S", "AB"), text_width(&wad, "FONTB_S", "A") + text_width(&wad, "FONTB_S", "B"));
}

#[test]
fn text_is_drawn_glyph_after_glyph() {
    let wad = game_wad();
    let base = wad.get_num_for_name("FONTB_S").unwrap() + 1;
    assert!(text_fits(&wad, base, "AB", 10, 10));
    let mut vid = Vid::new();
    render_text(&wad, &mut vid, "FONTB_S", "AB", 10, 10);
    let fb = vid.frame_buffer();
    assert_eq!(fb[10 * 320 + 10], 65);
    assert_eq!(fb[10 * 320 + 12], 66); // 'B' starts where 'A' moved the pen
    assert_eq!(fb[10 * 320 + 15], 66);
    assert_eq!(fb[10 * 320 + 16], 0);
    assert!(!text_fits(&wad, base, "AB", 316, 10));
    assert!(!text_fits(&wad, base, "\u{1F600}", 0, 0));
}

#[test]
fn main_menu_screen_draws_title_skulls_lines_and_selector() {
    let wad = game_wad();
    let (offsets, items) = setup();
    let mut s = state(Menu::Main);
    s.selection = 2;
    assert!(screen_fits(&wad, &s, &offsets, &items));
    let mut vid = Vid::new();
    render(&wad, &mut vid, &s, &offsets, &items);
    let fb = vid.frame_buffer();
    assert_eq!(fb[319], 1); // background
    assert_eq!(fb[88], 2); // title
    assert_eq!(fb[10 * 320 + 40], 100 + 17); // skull turning one way
    assert_eq!(fb[10 * 320 + 232], 100); // and the other
    assert_eq!(fb[56 * 320 + 110], b'N'); // "NEW GAME"
    assert_eq!(fb[76 * 320 + 110], b'O'); // "OPTIONS"
    // time 0: bit 16 clear, second selector picture, beside line 2
    assert_eq!(fb[(56 + 2 * 20 - 1) * 320 + 110 - 28], 202);
    s.time = 16;
    let mut vid = Vid::new();
    render(&wad, &mut vid, &s, &offsets, &items);
    assert_eq!(vid.frame_buffer()[(56 + 2 * 20 - 1) * 320 + 82], 201);
    assert!(heretic::vid::render(&vid).is_some());
}

#[test]
fn closed_menus_draw_only_the_background() {
    let wad = game_wad();
    let (offsets, items) = setup();
    let s = state(Menu::Closed);
    assert!(screen_fits(&wad, &s, &offsets, &items));
    let mut vid = Vid::new();
    render(&wad, &mut vid, &s, &offsets, &items);
    assert!(vid.frame_buffer().iter().all(|p| *p == 1));
}

#[test]
fn screens_that_would_fail_are_recognised() {
    let wad = game_wad();
    let (offsets, items) = setup();
    // The save menu has no lines and no offset: the selector would go above the screen.
    let s = state(Menu::Save);
    assert!(!screen_fits(&wad, &s, &offsets, &items));
    let mut short = game_wad();
    short.lumps.retain(|l| l.name != "FONTB_S");
    assert!(!screen_fits(&short, &state(Menu::Main), &offsets, &items));
    let mut bad_palette = game_wad();
    bad_palette.lumps[0].data.push(0);
    assert!(!screen_fits(&bad_palette, &state(Menu::Closed), &offsets, &items));
}

#[test]
fn width_of_joined_texts_is_the_sum() {
    let wad = game_wad();
    for (a, b) in [("NEW", " GAME"), ("", "X"), ("A~", "!"), ("", "")] {
        let joined = format!("{}{}", a, b);
        assert_eq!(
            text_width(&wad, "FONTB_S", &joined),
            text_width(&wad, "FONTB_S", a) + text_width(&wad, "FONTB_S", b)
        );
    }
}
