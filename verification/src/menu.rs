//! The main menus: which menu is shown, what each item does, and how the
//! keyboard moves between items and menus.

use vstd::prelude::*;

verus! {

/// The menus of the game (`Closed`: no menu is shown).
#[derive(Debug, Clone, Copy, PartialEq, Eq, Structural)]
pub enum Menu {
    Closed,
    Main,
    Episode,
    Skill,
    Options,
    Options2,
    Files,
    Load,
    Save,
}

/// What choosing a menu item does.
#[derive(Debug, Clone, Copy, PartialEq, Eq, Structural)]
pub enum MenuAction {
    /// A blank line: choosing it does nothing.
    Nothing,
    SetMenu(Menu),
    NetCheck(u32, Menu),
    Info,
    QuitGame,
    Episode(u32),
    LoadGame(u32),
    SaveGame(u32),
    Skill(u32),
    EndGame,
    Messages,
    MouseSensitivity,
    ScreenSize,
    SfxVolume,
    MusicVolume,
}

/// One line of a menu.
#[derive(Clone, Copy)]
pub struct MenuItem {
    pub text: &'static str,
    pub action: MenuAction,
}

/// Where a menu's first line is drawn.
#[derive(Debug, Clone, Copy, PartialEq, Eq, Structural)]
pub struct MenuOffset(pub usize, pub usize);

/// The state of the menus.
pub struct MenuState {
    /// The menu on screen.
    pub cur: Menu,
    /// The menus to go back to, innermost last.
    pub stack: Vec<Menu>,
    /// Full-screen picture drawn behind the menus.
    pub background: Option<&'static str>,
    /// Ticks spent with a menu on screen.
    pub time: u32,
    /// Index of the highlighted line of the current menu.
    pub selection: usize,
}

/// The keys that were just pressed.
#[derive(Debug, Clone, Copy, PartialEq, Eq, Structural)]
pub struct MenuKeys {
    pub escape: bool,
    pub enter: bool,
    pub up: bool,
    pub down: bool,
}

/// What one menu tick asks of the caller.
#[derive(Debug, Clone, Copy, PartialEq, Eq, Structural)]
pub struct MenuResponse {
    /// The game is to quit.
    pub quit: bool,
    /// The keys whose "just pressed" state the tick took (and so cleared).
    pub cleared: MenuKeys,
}

/// The actions of the items of menu `m`, in order.
pub open spec fn menu_actions(items: Seq<(Menu, MenuItem)>, m: Menu) -> Seq<MenuAction>
    decreases items.len(),
{
    if items.len() == 0 {
        seq![]
    } else {
        let rest = menu_actions(items.drop_last(), m);
        if items.last().0 == m {
            rest.push(items.last().1.action)
        } else {
            rest
        }
    }
}

/// The texts of the items of menu `m`, in order.
pub open spec fn menu_labels(items: Seq<(Menu, MenuItem)>, m: Menu) -> Seq<Seq<char>>
    decreases items.len(),
{
    if items.len() == 0 {
        seq![]
    } else {
        let rest = menu_labels(items.drop_last(), m);
        if items.last().0 == m {
            rest.push(items.last().1.text@)
        } else {
            rest
        }
    }
}

/// The items of one menu have as many texts as actions.
pub proof fn lemma_labels_len(items: Seq<(Menu, MenuItem)>, m: Menu)
    ensures
        menu_labels(items, m).len() == menu_actions(items, m).len(),
    decreases items.len(),
{
    if items.len() > 0 {
        lemma_labels_len(items.drop_last(), m);
    }
}

/// The highest index below `b` whose label is not empty, or -1.
pub open spec fn last_filled_below(labels: Seq<Seq<char>>, b: int) -> int
    decreases b,
{
    if b <= 0 {
        -1
    } else if labels[b - 1].len() > 0 {
        b - 1
    } else {
        last_filled_below(labels, b - 1)
    }
}

/// The lowest index from `b` on whose label is not empty, or -1.
pub open spec fn first_filled_from(labels: Seq<Seq<char>>, b: int) -> int
    decreases labels.len() - b,
{
    if b < 0 || b >= labels.len() {
        -1
    } else if labels[b].len() > 0 {
        b
    } else {
        first_filled_from(labels, b + 1)
    }
}

/// Some label is not empty.
pub open spec fn has_filled(labels: Seq<Seq<char>>) -> bool {
    exists|j: int| 0 <= j < labels.len() && #[trigger] labels[j].len() > 0
}

/// The line that "up" moves to from line `s`: the nearest non-empty line
/// above, wrapping round from the top to the bottom.
pub open spec fn line_above(labels: Seq<Seq<char>>, s: int) -> int {
    if last_filled_below(labels, s) >= 0 {
        last_filled_below(labels, s)
    } else {
        last_filled_below(labels, labels.len() as int)
    }
}

/// The line that "down" moves to from line `s`: the nearest non-empty line
/// below, wrapping round from the bottom to the top.
pub open spec fn line_below(labels: Seq<Seq<char>>, s: int) -> int {
    if first_filled_from(labels, s + 1) >= 0 {
        first_filled_from(labels, s + 1)
    } else {
        first_filled_from(labels, 0)
    }
}

/// The result of `last_filled_below` is a filled label below `b`, above
/// which up to `b` all labels are empty; it is -1 only when none is filled.
pub proof fn lemma_last_filled_below(labels: Seq<Seq<char>>, b: int)
    requires
        0 <= b <= labels.len(),
    ensures
        -1 <= last_filled_below(labels, b) < b,
        last_filled_below(labels, b) >= 0 ==> labels[last_filled_below(labels, b)].len() > 0,
        forall|j: int| last_filled_below(labels, b) < j < b ==> #[trigger] labels[j].len() == 0,
        last_filled_below(labels, b) == -1 ==> forall|j: int| 0 <= j < b ==> #[trigger] labels[j].len() == 0,
    decreases b,
{
    if b > 0 {
        lemma_last_filled_below(labels, b - 1);
    }
}

/// The result of `first_filled_from` is a filled label from `b` on, below
/// which down to `b` all labels are empty; it is -1 only when none is filled.
pub proof fn lemma_first_filled_from(labels: Seq<Seq<char>>, b: int)
    requires
        0 <= b,
    ensures
        first_filled_from(labels, b) == -1 || b <= first_filled_from(labels, b) < labels.len(),
        first_filled_from(labels, b) >= 0 ==> labels[first_filled_from(labels, b)].len() > 0,
        first_filled_from(labels, b) >= 0 ==> forall|j: int|
            b <= j < first_filled_from(labels, b) ==> #[trigger] labels[j].len() == 0,
        first_filled_from(labels, b) == -1 ==> forall|j: int|
            b <= j < labels.len() ==> #[trigger] labels[j].len() == 0,
    decreases labels.len() - b,
{
    if b < labels.len() {
        lemma_first_filled_from(labels, b + 1);
    }
}

/// The texts of the items of menu `m`.
pub fn labels_of(items: &[(Menu, MenuItem)], m: Menu) -> (r: Vec<&'static str>)
    ensures
        r@.len() == menu_labels(items@, m).len(),
        forall|i: int| 0 <= i < r@.len() ==> (#[trigger] r@[i])@ == menu_labels(items@, m)[i],
{
    let mut r: Vec<&'static str> = Vec::new();
    let mut k: usize = 0;
    while k < items.len()
        invariant
            k <= items@.len(),
            r@.len() == menu_labels(items@.subrange(0, k as int), m).len(),
            forall|i: int|
                0 <= i < r@.len() ==> (#[trigger] r@[i])@ == menu_labels(
                    items@.subrange(0, k as int),
                    m,
                )[i],
        decreases items@.len() - k,
    {
        assert(items@.subrange(0, k + 1).drop_last() =~= items@.subrange(0, k as int));
        if items[k].0 == m {
            r.push(items[k].1.text);
        }
        k = k + 1;
    }
    assert(items@.subrange(0, items@.len() as int) =~= items@);
    r
}

/// The texts of a list of labels.
pub open spec fn texts(labels: Seq<&str>) -> Seq<Seq<char>> {
    Seq::new(labels.len(), |i: int| labels[i]@)
}

/// Moves the highlight from line `s` to the nearest non-empty line above,
/// wrapping round from the top to the bottom.
pub fn select_up(labels: &[&str], s: usize) -> (r: usize)
    requires
        0 < labels@.len(),
        s <= labels@.len(),
        has_filled(texts(labels@)),
    ensures
        r == line_above(texts(labels@), s as int),
        r < labels@.len(),
{
    let ghost l = texts(labels@);
    let len = labels.len();
    let mut sel = s;
    let ghost mut wrapped = false;
    loop
        invariant_except_break
            len == labels@.len(),
            l == texts(labels@),
            0 < len,
            s <= len,
            has_filled(l),
            sel <= len,
            !wrapped ==> sel <= s && forall|j: int| sel <= j < s ==> #[trigger] l[j].len() == 0,
            wrapped ==> last_filled_below(l, s as int) == -1 && sel >= 1 && forall|j: int|
                sel <= j < len ==> #[trigger] l[j].len() == 0,
        ensures
            sel == line_above(l, s as int),
            sel < len,
        decreases (if wrapped { 0int } else { len as int }) + sel,
    {
        if sel == 0 {
            proof {
                if wrapped {
                    let j = choose|j: int| 0 <= j < l.len() && #[trigger] l[j].len() > 0;
                    assert(l[j].len() == 0);
                }
                lemma_last_filled_below(l, s as int);
            }
            sel = len - 1;
            proof {
                wrapped = true;
            }
        } else {
            sel = sel - 1;
        }
        if !labels[sel].is_empty() {
            proof {
                assert(l[sel as int].len() > 0);
                if !wrapped {
                    lemma_last_filled_below(l, s as int);
                    let t = last_filled_below(l, s as int);
                    if t < sel {
                        assert(l[sel as int].len() == 0);
                    }
                } else {
                    lemma_last_filled_below(l, len as int);
                    let t = last_filled_below(l, len as int);
                    if t < sel {
                        assert(l[sel as int].len() == 0);
                    }
                }
            }
            break;
        }
    }
    sel
}

/// Moves the highlight from line `s` to the nearest non-empty line below,
/// wrapping round from the bottom to the top.
pub fn select_down(labels: &[&str], s: usize) -> (r: usize)
    requires
        s < labels@.len(),
        has_filled(texts(labels@)),
    ensures
        r == line_below(texts(labels@), s as int),
{
    let ghost l = texts(labels@);
    let len = labels.len();
    let mut sel = s;
    let ghost mut wrapped = false;
    loop
        invariant_except_break
            len == labels@.len(),
            l == texts(labels@),
            has_filled(l),
            sel < len,
            s < len,
            !wrapped ==> s <= sel && forall|j: int| s < j <= sel ==> #[trigger] l[j].len() == 0,
            wrapped ==> first_filled_from(l, s + 1) == -1 && forall|j: int|
                0 <= j <= sel ==> #[trigger] l[j].len() == 0,
        ensures
            sel == line_below(l, s as int),
        decreases (if wrapped { 0int } else { len as int }) + (len - sel),
    {
        if sel + 1 == len {
            proof {
                if wrapped {
                    let j = choose|j: int| 0 <= j < l.len() && #[trigger] l[j].len() > 0;
                    assert(l[j].len() == 0);
                }
                lemma_first_filled_from(l, s + 1);
            }
            sel = 0;
            proof {
                wrapped = true;
            }
        } else {
            sel = sel + 1;
        }
        if !labels[sel].is_empty() {
            proof {
                assert(l[sel as int].len() > 0);
                if !wrapped {
                    lemma_first_filled_from(l, s + 1);
                    let t = first_filled_from(l, s + 1);
                    if t == -1 || t > sel {
                        assert(l[sel as int].len() == 0);
                    }
                } else {
                    lemma_first_filled_from(l, 0);
                    let t = first_filled_from(l, 0);
                    if t == -1 || t > sel {
                        assert(l[sel as int].len() == 0);
                    }
                }
            }
            break;
        }
    }
    sel
}

/// The actions of the items of menu `m` in the first `k` entities are the
/// first actions of the items of menu `m` among all of them.
pub proof fn lemma_actions_prefix(items: Seq<(Menu, MenuItem)>, m: Menu, k: int)
    requires
        0 <= k <= items.len(),
    ensures
        menu_actions(items.subrange(0, k), m).len() <= menu_actions(items, m).len(),
        forall|i: int|
            0 <= i < menu_actions(items.subrange(0, k), m).len() ==> #[trigger] menu_actions(
                items.subrange(0, k),
                m,
            )[i] == menu_actions(items, m)[i],
    decreases items.len(),
{
    if k == items.len() {
        assert(items.subrange(0, k) =~= items);
    } else {
        assert(items.drop_last().subrange(0, k) =~= items.subrange(0, k));
        lemma_actions_prefix(items.drop_last(), m, k);
    }
}

/// A menu has at most as many items as there are entities.
pub proof fn lemma_actions_len(items: Seq<(Menu, MenuItem)>, m: Menu)
    ensures
        menu_actions(items, m).len() <= items.len(),
    decreases items.len(),
{
    if items.len() > 0 {
        lemma_actions_len(items.drop_last(), m);
    }
}

/// Choosing an item with this action leaves the menu tick at once.
pub open spec fn leaves_tick(a: MenuAction) -> bool {
    a is SetMenu || a is QuitGame
}

/// The action of the highlighted line `sel` of menu `cur`, if there is such a line.
pub open spec fn chosen_action(items: Seq<(Menu, MenuItem)>, cur: Menu, sel: int) -> Option<
    MenuAction,
> {
    if 0 <= sel < menu_actions(items, cur).len() {
        Some(menu_actions(items, cur)[sel])
    } else {
        None
    }
}

/// A tick of an open menu that neither closes it, nor leaves through "enter",
/// reaches the up and down keys.
pub open spec fn reaches_navigation(
    cur: Menu,
    sel: int,
    items: Seq<(Menu, MenuItem)>,
    keys: MenuKeys,
) -> bool {
    &&& cur != Menu::Closed
    &&& !keys.escape
    &&& !(keys.enter && (chosen_action(items, cur, sel) matches Some(a) && leaves_tick(a)))
}

/// The highlighted line after the up and down keys of one tick.
pub open spec fn navigated(labels: Seq<Seq<char>>, sel: int, keys: MenuKeys) -> int {
    let after_up = if keys.up { line_above(labels, sel) } else { sel };
    if keys.down { line_below(labels, after_up) } else { after_up }
}

/// The up and down keys of one tick can be handled: the menu has a
/// non-empty line, and the highlight is on a line of the menu (for "up",
/// possibly just past the last one).
pub open spec fn navigation_defined(labels: Seq<Seq<char>>, sel: int, keys: MenuKeys) -> bool {
    (keys.up || keys.down) ==> {
        &&& labels.len() > 0
        &&& has_filled(labels)
        &&& keys.up ==> sel <= labels.len()
        &&& (keys.down && !keys.up) ==> sel < labels.len()
    }
}

/// The menu shown after one tick.
pub open spec fn next_cur(
    cur: Menu,
    stack: Seq<Menu>,
    sel: int,
    items: Seq<(Menu, MenuItem)>,
    keys: MenuKeys,
) -> Menu {
    if cur == Menu::Closed {
        if keys.escape { Menu::Main } else { Menu::Closed }
    } else if keys.escape {
        if stack.len() > 0 { stack.last() } else { Menu::Closed }
    } else if keys.enter {
        match chosen_action(items, cur, sel) {
            Some(MenuAction::SetMenu(m)) => m,
            _ => cur,
        }
    } else {
        cur
    }
}

/// The menus to go back to after one tick.
pub open spec fn next_stack(
    cur: Menu,
    stack: Seq<Menu>,
    sel: int,
    items: Seq<(Menu, MenuItem)>,
    keys: MenuKeys,
) -> Seq<Menu> {
    if cur == Menu::Closed {
        stack
    } else if keys.escape {
        if stack.len() > 0 { stack.drop_last() } else { stack }
    } else if keys.enter {
        match chosen_action(items, cur, sel) {
            Some(MenuAction::SetMenu(m)) => stack.push(cur),
            _ => stack,
        }
    } else {
        stack
    }
}

/// The highlighted line after one tick.
pub open spec fn next_selection(
    cur: Menu,
    sel: int,
    items: Seq<(Menu, MenuItem)>,
    keys: MenuKeys,
) -> int {
    if cur == Menu::Closed || keys.escape {
        sel
    } else if keys.enter && (chosen_action(items, cur, sel) matches Some(a) && leaves_tick(a)) {
        if chosen_action(items, cur, sel)->0 is SetMenu { 0 } else { sel }
    } else {
        navigated(menu_labels(items, cur), sel, keys)
    }
}

/// The tick counter after one tick: it counts the ticks with a menu shown.
pub open spec fn next_time(cur: Menu, time: int) -> int {
    if cur == Menu::Closed { time } else { time + 1 }
}

/// What one tick asks of the caller.
pub open spec fn tick_response(
    cur: Menu,
    sel: int,
    items: Seq<(Menu, MenuItem)>,
    keys: MenuKeys,
) -> MenuResponse {
    if cur == Menu::Closed || keys.escape {
        MenuResponse {
            quit: false,
            cleared: MenuKeys { escape: true, enter: false, up: false, down: false },
        }
    } else if keys.enter && (chosen_action(items, cur, sel) matches Some(a) && leaves_tick(a)) {
        MenuResponse {
            quit: chosen_action(items, cur, sel)->0 is QuitGame,
            cleared: MenuKeys { escape: true, enter: true, up: false, down: false },
        }
    } else {
        MenuResponse {
            quit: false,
            cleared: MenuKeys { escape: true, enter: true, up: true, down: true },
        }
    }
}

/// One tick can be taken without failing: the tick counter has room, and
/// the up and down keys, if they are reached, can be handled.
pub open spec fn tick_defined(
    cur: Menu,
    time: int,
    sel: int,
    items: Seq<(Menu, MenuItem)>,
    keys: MenuKeys,
) -> bool {
    &&& cur != Menu::Closed ==> time < u32::MAX
    &&& reaches_navigation(cur, sel, items, keys) ==> navigation_defined(
        menu_labels(items, cur),
        sel,
        keys,
    )
}

/// One menu tick, from the state `state` and the keys `keys` just pressed,
/// with `items` the menu items of all menus (in the order in which they are
/// enumerated).
///
/// With no menu shown only "escape" counts: it opens the main menu. Else the
/// tick counter advances, "escape" goes back to the previous menu (or closes
/// the menus), "enter" follows the highlighted item (into a submenu, or out
/// of the game), and "up"/"down" move the highlight to the next non-empty
/// line, wrapping round.
pub fn update(state: &mut MenuState, items: &[(Menu, MenuItem)], keys: MenuKeys) -> (r:
    MenuResponse)
    requires
        tick_defined(
            old(state).cur,
            old(state).time as int,
            old(state).selection as int,
            items@,
            keys,
        ),
    ensures
        final(state).cur == next_cur(
            old(state).cur,
            old(state).stack@,
            old(state).selection as int,
            items@,
            keys,
        ),
        final(state).stack@ == next_stack(
            old(state).cur,
            old(state).stack@,
            old(state).selection as int,
            items@,
            keys,
        ),
        final(state).selection == next_selection(
            old(state).cur,
            old(state).selection as int,
            items@,
            keys,
        ),
        final(state).time == next_time(old(state).cur, old(state).time as int),
        final(state).background == old(state).background,
        r == tick_response(old(state).cur, old(state).selection as int, items@, keys),
{
    if state.cur == Menu::Closed {
        if keys.escape {
            state.cur = Menu::Main;
        }
        return MenuResponse {
            quit: false,
            cleared: MenuKeys { escape: true, enter: false, up: false, down: false },
        };
    }
    state.time = state.time + 1;
    if keys.escape {
        if let Some(m) = state.stack.pop() {
            state.cur = m;
        } else {
            state.cur = Menu::Closed;
        }
        return MenuResponse {
            quit: false,
            cleared: MenuKeys { escape: true, enter: false, up: false, down: false },
        };
    }
    if keys.enter {
        let ghost acts = menu_actions(items@, state.cur);
        let mut item_count: usize = 0;
        let mut k: usize = 0;
        assert(items@.subrange(0, items@.len() as int) =~= items@);
        while k < items.len()
            invariant_except_break
                k <= items@.len(),
                item_count <= k,
                acts == menu_actions(items@, state.cur),
                item_count == menu_actions(items@.subrange(0, k as int), state.cur).len(),
                state.selection < item_count ==> !leaves_tick(acts[state.selection as int]),
            invariant
                state.cur == old(state).cur,
                state.stack@ == old(state).stack@,
                state.selection == old(state).selection,
                state.time == old(state).time + 1,
                state.background == old(state).background,
                state.cur != Menu::Closed,
                !keys.escape,
                keys.enter,
                items@.subrange(0, items@.len() as int) == items@,
            ensures
                state.selection < acts.len() ==> !leaves_tick(acts[state.selection as int]),
            decreases items@.len() - k,
        {
            proof {
                let pre = items@.subrange(0, k + 1);
                assert(pre.drop_last() =~= items@.subrange(0, k as int));
                assert(pre.last() == items@[k as int]);
                lemma_actions_prefix(items@, state.cur, k + 1);
                lemma_actions_len(items@.subrange(0, k as int), state.cur);
            }
            if items[k].0 == state.cur {
                if state.selection == item_count {
                    proof {
                        let pre = items@.subrange(0, k + 1);
                        let before = menu_actions(items@.subrange(0, k as int), state.cur);
                        assert(menu_actions(pre, state.cur) == before.push(items@[k as int].1.action));
                        assert(menu_actions(pre, state.cur)[item_count as int] == items@[k as int].1.action);
                    }
                    assert(acts[state.selection as int] == items@[k as int].1.action);
                    match items[k].1.action {
                        MenuAction::Nothing => break,
                        MenuAction::SetMenu(m) => {
                            state.selection = 0;
                            let last = state.cur;
                            state.stack.push(last);
                            state.cur = m;
                            return MenuResponse {
                                quit: false,
                                cleared: MenuKeys { escape: true, enter: true, up: false, down: false },
                            };
                        },
                        MenuAction::QuitGame => {
                            return MenuResponse {
                                quit: true,
                                cleared: MenuKeys { escape: true, enter: true, up: false, down: false },
                            };
                        },
                        _ => {},
                    }
                }
                item_count = item_count + 1;
            }
            k = k + 1;
        }
    }
    let labels = labels_of(items, state.cur);
    proof {
        lemma_labels_len(items@, state.cur);
        assert(texts(labels@) =~= menu_labels(items@, state.cur));
    }
    if keys.up {
        state.selection = select_up(labels.as_slice(), state.selection);
    }
    if keys.down {
        state.selection = select_down(labels.as_slice(), state.selection);
    }
    MenuResponse {
        quit: false,
        cleared: MenuKeys { escape: true, enter: true, up: true, down: true },
    }
}

/// Where each menu is drawn, in the order in which the menus are made.
pub open spec fn menu_offsets() -> Seq<(Menu, MenuOffset)> {
    seq![
        (Menu::Main, MenuOffset(110, 56)),
        (Menu::Episode, MenuOffset(80, 50)),
        (Menu::Files, MenuOffset(110, 60)),
        (Menu::Skill, MenuOffset(38, 30)),
        (Menu::Options, MenuOffset(88, 30)),
        (Menu::Options2, MenuOffset(88, 30)),
    ]
}

/// The items of all menus (menu, text, action), in the order in which they are made.
pub open spec fn menu_item_table() -> Seq<(Menu, Seq<char>, MenuAction)> {
    seq![
        (Menu::Main, "NEW GAME"@, MenuAction::NetCheck(1, Menu::Episode)),
        (Menu::Main, "OPTIONS"@, MenuAction::SetMenu(Menu::Options)),
        (Menu::Main, "GAME FILES"@, MenuAction::SetMenu(Menu::Files)),
        (Menu::Main, "INFO"@, MenuAction::Info),
        (Menu::Main, "QUIT GAME"@, MenuAction::QuitGame),
        (Menu::Episode, "CITY OF THE DAMNED"@, MenuAction::Episode(1)),
        (Menu::Episode, "HELL's MAW"@, MenuAction::Episode(2)),
        (Menu::Episode, "THE DOME OF D'SPARIL"@, MenuAction::Episode(3)),
        (Menu::Episode, "THE OSSUARY"@, MenuAction::Episode(4)),
        (Menu::Episode, "THE STAGNANT DEMESNE"@, MenuAction::Episode(5)),
        (Menu::Files, "LOAD GAME"@, MenuAction::NetCheck(2, Menu::Load)),
        (Menu::Files, "SAVE GAME"@, MenuAction::SetMenu(Menu::Save)),
        (Menu::Skill, "THOU NEEDETH A WET-NURSE"@, MenuAction::Skill(0)),
        (Menu::Skill, "YELLOWBELLIES-R-US"@, MenuAction::Skill(1)),
        (Menu::Skill, "BRINGEST THEM ONETH"@, MenuAction::Skill(2)),
        (Menu::Skill, "THOU ART A SMITE-MEISTER"@, MenuAction::Skill(3)),
        (Menu::Skill, "BLACK PLAGUE POSSESSES THEE"@, MenuAction::Skill(4)),
        (Menu::Options, "END GAME"@, MenuAction::EndGame),
        (Menu::Options, "MESSAGES : "@, MenuAction::Messages),
        (Menu::Options, "MOUSE SENSITIVITY"@, MenuAction::MouseSensitivity),
        (Menu::Options, ""@, MenuAction::Nothing),
        (Menu::Options, "MORE..."@, MenuAction::SetMenu(Menu::Options2)),
        (Menu::Options2, "SCREEN SIZE"@, MenuAction::ScreenSize),
        (Menu::Options2, ""@, MenuAction::Nothing),
        (Menu::Options2, "SFX VOLUME"@, MenuAction::SfxVolume),
        (Menu::Options2, ""@, MenuAction::Nothing),
        (Menu::Options2, "MUSIC VOLUME"@, MenuAction::MusicVolume),
    ]
}

/// The menus: where each is drawn, and the items of all of them, in the
/// order in which they are made.
pub fn setup() -> (r: (Vec<(Menu, MenuOffset)>, Vec<(Menu, MenuItem)>))
    ensures
        r.0@ == menu_offsets(),
        r.1@.len() == menu_item_table().len(),
        forall|i: int|
            0 <= i < r.1@.len() ==> ((#[trigger] r.1@[i]).0, r.1@[i].1.text@, r.1@[i].1.action)
                == menu_item_table()[i],
{
    let mut offsets: Vec<(Menu, MenuOffset)> = Vec::new();
    let mut items: Vec<(Menu, MenuItem)> = Vec::new();
    offsets.push((Menu::Main, MenuOffset(110, 56)));
    items.push((Menu::Main, MenuItem { text: "NEW GAME", action: MenuAction::NetCheck(1, Menu::Episode) }));
    items.push((Menu::Main, MenuItem { text: "OPTIONS", action: MenuAction::SetMenu(Menu::Options) }));
    items.push((Menu::Main, MenuItem { text: "GAME FILES", action: MenuAction::SetMenu(Menu::Files) }));
    items.push((Menu::Main, MenuItem { text: "INFO", action: MenuAction::Info }));
    items.push((Menu::Main, MenuItem { text: "QUIT GAME", action: MenuAction::QuitGame }));
    offsets.push((Menu::Episode, MenuOffset(80, 50)));
    items.push((Menu::Episode, MenuItem { text: "CITY OF THE DAMNED", action: MenuAction::Episode(1) }));
    items.push((Menu::Episode, MenuItem { text: "HELL's MAW", action: MenuAction::Episode(2) }));
    items.push((Menu::Episode, MenuItem { text: "THE DOME OF D'SPARIL", action: MenuAction::Episode(3) }));
    items.push((Menu::Episode, MenuItem { text: "THE OSSUARY", action: MenuAction::Episode(4) }));
    items.push((Menu::Episode, MenuItem { text: "THE STAGNANT DEMESNE", action: MenuAction::Episode(5) }));
    offsets.push((Menu::Files, MenuOffset(110, 60)));
    items.push((Menu::Files, MenuItem { text: "LOAD GAME", action: MenuAction::NetCheck(2, Menu::Load) }));
    items.push((Menu::Files, MenuItem { text: "SAVE GAME", action: MenuAction::SetMenu(Menu::Save) }));
    offsets.push((Menu::Skill, MenuOffset(38, 30)));
    items.push((Menu::Skill, MenuItem { text: "THOU NEEDETH A WET-NURSE", action: MenuAction::Skill(0) }));
    items.push((Menu::Skill, MenuItem { text: "YELLOWBELLIES-R-US", action: MenuAction::Skill(1) }));
    items.push((Menu::Skill, MenuItem { text: "BRINGEST THEM ONETH", action: MenuAction::Skill(2) }));
    items.push((Menu::Skill, MenuItem { text: "THOU ART A SMITE-MEISTER", action: MenuAction::Skill(3) }));
    items.push((Menu::Skill, MenuItem { text: "BLACK PLAGUE POSSESSES THEE", action: MenuAction::Skill(4) }));
    offsets.push((Menu::Options, MenuOffset(88, 30)));
    items.push((Menu::Options, MenuItem { text: "END GAME", action: MenuAction::EndGame }));
    items.push((Menu::Options, MenuItem { text: "MESSAGES : ", action: MenuAction::Messages }));
    items.push((Menu::Options, MenuItem { text: "MOUSE SENSITIVITY", action: MenuAction::MouseSensitivity }));
    items.push((Menu::Options, MenuItem { text: "", action: MenuAction::Nothing }));
    items.push((Menu::Options, MenuItem { text: "MORE...", action: MenuAction::SetMenu(Menu::Options2) }));
    offsets.push((Menu::Options2, MenuOffset(88, 30)));
    items.push((Menu::Options2, MenuItem { text: "SCREEN SIZE", action: MenuAction::ScreenSize }));
    items.push((Menu::Options2, MenuItem { text: "", action: MenuAction::Nothing }));
    items.push((Menu::Options2, MenuItem { text: "SFX VOLUME", action: MenuAction::SfxVolume }));
    items.push((Menu::Options2, MenuItem { text: "", action: MenuAction::Nothing }));
    items.push((Menu::Options2, MenuItem { text: "MUSIC VOLUME", action: MenuAction::MusicVolume }));
    assert(offsets@ =~= menu_offsets());
    (offsets, items)
}

/// The action of the highlighted line `sel` of menu `cur`, if there is such a line.
pub fn chosen(items: &[(Menu, MenuItem)], cur: Menu, sel: usize) -> (r: Option<MenuAction>)
    ensures
        r == chosen_action(items@, cur, sel as int),
{
    let mut count: usize = 0;
    let mut k: usize = 0;
    while k < items.len()
        invariant
            k <= items@.len(),
            count <= k,
            count == menu_actions(items@.subrange(0, k as int), cur).len(),
            count <= sel,
        decreases items@.len() - k,
    {
        proof {
            let pre = items@.subrange(0, k + 1);
            assert(pre.drop_last() =~= items@.subrange(0, k as int));
            assert(pre.last() == items@[k as int]);
            lemma_actions_prefix(items@, cur, k + 1);
            lemma_actions_prefix(items@, cur, k as int);
        }
        if items[k].0 == cur {
            if count == sel {
                proof {
                    let pre = items@.subrange(0, k + 1);
                    let before = menu_actions(items@.subrange(0, k as int), cur);
                    assert(menu_actions(pre, cur) == before.push(items@[k as int].1.action));
                    assert(menu_actions(pre, cur)[count as int] == items@[k as int].1.action);
                }
                return Some(items[k].1.action);
            }
            count = count + 1;
        }
        k = k + 1;
    }
    assert(items@.subrange(0, items@.len() as int) =~= items@);
    None
}

/// Whether some label is not empty.
fn any_filled(labels: &[&str]) -> (r: bool)
    ensures
        r == has_filled(texts(labels@)),
{
    let mut k: usize = 0;
    while k < labels.len()
        invariant
            k <= labels@.len(),
            forall|j: int| 0 <= j < k ==> #[trigger] texts(labels@)[j].len() == 0,
        decreases labels@.len() - k,
    {
        if !labels[k].is_empty() {
            assert(texts(labels@)[k as int].len() > 0);
            return true;
        }
        k = k + 1;
    }
    false
}

/// Whether `update` can take this tick without failing: `false` when the
/// tick counter would overflow, or when "up" or "down" has no line to stop at.
pub fn can_update(state: &MenuState, items: &[(Menu, MenuItem)], keys: MenuKeys) -> (r: bool)
    ensures
        r == tick_defined(state.cur, state.time as int, state.selection as int, items@, keys),
{
    if state.cur == Menu::Closed {
        return true;
    }
    if state.time == u32::MAX {
        return false;
    }
    if keys.escape {
        return true;
    }
    if keys.enter {
        match chosen(items, state.cur, state.selection) {
            Some(MenuAction::SetMenu(_)) => return true,
            Some(MenuAction::QuitGame) => return true,
            _ => {},
        }
    }
    if !keys.up && !keys.down {
        return true;
    }
    let labels = labels_of(items, state.cur);
    proof {
        assert(texts(labels@) =~= menu_labels(items@, state.cur));
    }
    if labels.len() == 0 || !any_filled(labels.as_slice()) {
        return false;
    }
    if keys.up {
        state.selection <= labels.len()
    } else {
        state.selection < labels.len()
    }
}

/// Entering a submenu with "enter" and leaving it with "escape" comes back
/// to the same menu, with the same menus to go back to.
pub proof fn lemma_enter_then_escape(
    cur: Menu,
    stack: Seq<Menu>,
    sel: int,
    items: Seq<(Menu, MenuItem)>,
    m: Menu,
)
    requires
        cur != Menu::Closed,
        m != Menu::Closed,
        chosen_action(items, cur, sel) == Some(MenuAction::SetMenu(m)),
    ensures
        ({
            let enter = MenuKeys { escape: false, enter: true, up: false, down: false };
            let escape = MenuKeys { escape: true, enter: false, up: false, down: false };
            let cur1 = next_cur(cur, stack, sel, items, enter);
            let stack1 = next_stack(cur, stack, sel, items, enter);
            let sel1 = next_selection(cur, sel, items, enter);
            &&& cur1 == m
            &&& sel1 == 0
            &&& next_cur(cur1, stack1, sel1, items, escape) == cur
            &&& next_stack(cur1, stack1, sel1, items, escape) == stack
        }),
{
    let enter = MenuKeys { escape: false, enter: true, up: false, down: false };
    let stack1 = next_stack(cur, stack, sel, items, enter);
    assert(stack1 == stack.push(cur));
    assert(stack1.drop_last() =~= stack);
}

/// Wherever "up" and "down" leave the highlight, it is on a non-empty line
/// of the menu.
pub proof fn lemma_navigation_lands_on_filled_line(labels: Seq<Seq<char>>, sel: int, keys: MenuKeys)
    requires
        keys.up || keys.down,
        navigation_defined(labels, sel, keys),
        0 <= sel,
    ensures
        0 <= navigated(labels, sel, keys) < labels.len(),
        labels[navigated(labels, sel, keys)].len() > 0,
{
    let j = choose|j: int| 0 <= j < labels.len() && #[trigger] labels[j].len() > 0;
    lemma_last_filled_below(labels, labels.len() as int);
    lemma_first_filled_from(labels, 0);
    if keys.up {
        lemma_last_filled_below(labels, sel);
        if last_filled_below(labels, labels.len() as int) == -1 {
            assert(labels[j].len() == 0);
        }
    }
    let after_up = if keys.up { line_above(labels, sel) } else { sel };
    if keys.down {
        lemma_first_filled_from(labels, after_up + 1);
        if first_filled_from(labels, 0) == -1 {
            assert(labels[j].len() == 0);
        }
    }
}

/// From a non-empty line, "down" then "up" comes back to it.
pub proof fn lemma_down_then_up(labels: Seq<Seq<char>>, s: int)
    requires
        0 <= s < labels.len(),
        labels[s].len() > 0,
    ensures
        line_above(labels, line_below(labels, s)) == s,
{
    lemma_first_filled_from(labels, s + 1);
    lemma_first_filled_from(labels, 0);
    let t = line_below(labels, s);
    if first_filled_from(labels, s + 1) >= 0 {
        // t is the first filled line after s: s is the last filled line before t.
        lemma_last_filled_below(labels, t);
        let a = last_filled_below(labels, t);
        if a > s {
            assert(labels[a].len() == 0);
        }
        if a < s {
            assert(labels[s].len() == 0);
        }
    } else {
        // No filled line after s: t is the first filled line overall, and
        // going up from it wraps round to the last filled line, which is s.
        lemma_last_filled_below(labels, t);
        if last_filled_below(labels, t) >= 0 {
            let a = last_filled_below(labels, t);
            assert(a < t);
            assert(labels[a].len() == 0);
        }
        lemma_last_filled_below(labels, labels.len() as int);
        let b = last_filled_below(labels, labels.len() as int);
        if b > s {
            assert(labels[b].len() == 0);
        }
        if b < s {
            assert(labels[s].len() == 0);
        }
    }
}

/// From a non-empty line, "up" then "down" comes back to it.
pub proof fn lemma_up_then_down(labels: Seq<Seq<char>>, s: int)
    requires
        0 <= s < labels.len(),
        labels[s].len() > 0,
    ensures
        line_below(labels, line_above(labels, s)) == s,
{
    lemma_last_filled_below(labels, s);
    lemma_last_filled_below(labels, labels.len() as int);
    let t = line_above(labels, s);
    if last_filled_below(labels, s) >= 0 {
        lemma_first_filled_from(labels, t + 1);
        let a = first_filled_from(labels, t + 1);
        if a == -1 || a > s {
            assert(labels[s].len() == 0);
        }
        if 0 <= a < s {
            assert(labels[a].len() == 0);
        }
    } else {
        let b = last_filled_below(labels, labels.len() as int);
        if b < s {
            assert(labels[s].len() == 0);
        }
        lemma_first_filled_from(labels, t + 1);
        if first_filled_from(labels, t + 1) >= 0 {
            assert(labels[first_filled_from(labels, t + 1)].len() == 0);
        }
        lemma_first_filled_from(labels, 0);
        let a = first_filled_from(labels, 0);
        if a == -1 || a > s {
            assert(labels[s].len() == 0);
        }
        if 0 <= a < s {
            assert(labels[a].len() == 0);
        }
    }
}

/// Choosing an item with action `a` is a way into menu `m`: directly, or
/// after the check for a network game.
pub open spec fn opens(a: MenuAction, m: Menu) -> bool {
    match a {
        MenuAction::SetMenu(t) => t == m,
        MenuAction::NetCheck(_, t) => t == m,
        _ => false,
    }
}

/// Some item of another menu opens menu `m`.
pub open spec fn opened_elsewhere(m: Menu) -> bool {
    exists|i: int|
        0 <= i < menu_item_table().len() && (#[trigger] menu_item_table()[i]).0 != m && opens(
            menu_item_table()[i].2,
            m,
        )
}

/// The links between the menus: "MORE..." in the options menu opens the
/// second options page; the episode, files, load, save, options and second
/// options menus can each be opened from another menu; and no item opens
/// the menu it is in.
pub proof fn lemma_menu_links()
    ensures
        exists|i: int|
            0 <= i < menu_item_table().len() && #[trigger] menu_item_table()[i] == (
                Menu::Options,
                "MORE..."@,
                MenuAction::SetMenu(Menu::Options2),
            ),
        opened_elsewhere(Menu::Episode),
        opened_elsewhere(Menu::Files),
        opened_elsewhere(Menu::Load),
        opened_elsewhere(Menu::Save),
        opened_elsewhere(Menu::Options),
        opened_elsewhere(Menu::Options2),
        forall|i: int|
            0 <= i < menu_item_table().len() ==> !opens(
                (#[trigger] menu_item_table()[i]).2,
                menu_item_table()[i].0,
            ),
{
    let t = menu_item_table();
    assert(t[21] == (Menu::Options, "MORE..."@, MenuAction::SetMenu(Menu::Options2)));
    assert(opens(t[0].2, Menu::Episode));
    assert(opens(t[2].2, Menu::Files));
    assert(opens(t[10].2, Menu::Load));
    assert(opens(t[11].2, Menu::Save));
    assert(opens(t[1].2, Menu::Options));
    assert(opens(t[21].2, Menu::Options2));
    assert forall|i: int| 0 <= i < t.len() implies !opens((#[trigger] t[i]).2, t[i].0) by {
        if i == 0 {
        } else if i == 1 {
        } else if i == 2 {
        } else if i == 3 {
        } else if i == 4 {
        } else if i == 5 {
        } else if i == 6 {
        } else if i == 7 {
        } else if i == 8 {
        } else if i == 9 {
        } else if i == 10 {
        } else if i == 11 {
        } else if i == 12 {
        } else if i == 13 {
        } else if i == 14 {
        } else if i == 15 {
        } else if i == 16 {
        } else if i == 17 {
        } else if i == 18 {
        } else if i == 19 {
        } else if i == 20 {
        } else if i == 21 {
        } else if i == 22 {
        } else if i == 23 {
        } else if i == 24 {
        } else if i == 25 {
        } else {
        }
    }
}

} // verus!
