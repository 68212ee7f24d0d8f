//! Key routing, drafts, the panes popup, tab navigation and paste targets.

use laura::input::{
    draft_key, footer_hint, nav_key, wheel_target, panel_key, paste_into_draft, paste_target, pick_key, rename_to, route,
    DraftStep, Hint, InputState, NavStep, PanelKey, PasteTo, PickStep, Route, Wheel,
};
use laura::keys::KeyCode;
use laura::mouse::KeyModifiers;
use laura::ui::Draft;

fn idle() -> InputState {
    InputState {
        locked: false,
        confirm_quit: false,
        help: false,
        drafting: false,
        picking: false,
        tab_nav: false,
    }
}

fn none() -> KeyModifiers {
    KeyModifiers { shift: false, alt: false, control: false }
}

fn ctrl() -> KeyModifiers {
    KeyModifiers { shift: false, alt: false, control: true }
}

#[test]
fn f12_toggles_lock_even_when_locked() {
    let mut s = idle();
    s.locked = true;
    assert_eq!(route(KeyCode::F(12), none(), &s, false), Route::ToggleLock);
    assert_eq!(route(KeyCode::Char('p'), ctrl(), &s, false), Route::LockedShell);
    assert_eq!(route(KeyCode::F(12), none(), &idle(), true), Route::ToggleLock);
}

#[test]
fn quit_needs_y_to_confirm() {
    let mut s = idle();
    assert_eq!(route(KeyCode::Char('q'), ctrl(), &s, false), Route::ArmQuit);
    s.confirm_quit = true;
    assert_eq!(route(KeyCode::Char('y'), none(), &s, false), Route::Quit);
    assert_eq!(route(KeyCode::Char('n'), none(), &s, false), Route::CancelQuit);
}

#[test]
fn help_closes_on_any_key_and_outranks_a_draft() {
    let mut s = idle();
    s.help = true;
    s.drafting = true;
    assert_eq!(route(KeyCode::Char('x'), none(), &s, true), Route::CloseHelp);
    let mut d = idle();
    d.drafting = true;
    assert_eq!(route(KeyCode::Char('h'), ctrl(), &d, true), Route::OpenHelp);
    assert_eq!(route(KeyCode::Char('x'), none(), &d, true), Route::Draft);
}

#[test]
fn popups_then_panel_then_paging_then_shell() {
    let mut s = idle();
    s.picking = true;
    assert_eq!(route(KeyCode::Char('3'), none(), &s, false), Route::Panes);
    let mut t = idle();
    t.tab_nav = true;
    assert_eq!(route(KeyCode::Right, none(), &t, false), Route::TabNav);
    assert_eq!(route(KeyCode::Char('p'), ctrl(), &idle(), true), Route::OpenPanes);
    assert_eq!(route(KeyCode::Char('t'), ctrl(), &idle(), true), Route::OpenTabNav);
    assert_eq!(route(KeyCode::Up, none(), &idle(), true), Route::Panel);
    assert_eq!(route(KeyCode::PageUp, none(), &idle(), true), Route::Panel);
    assert_eq!(route(KeyCode::PageDown, none(), &idle(), false), Route::Page);
    assert_eq!(route(KeyCode::Char('a'), none(), &idle(), false), Route::Shell);
}

#[test]
fn draft_typing_backspace_and_escape() {
    let mut d = Draft::Comment(String::new());
    assert_eq!(draft_key(&mut d, KeyCode::Char('o')), DraftStep::Keep);
    assert_eq!(draft_key(&mut d, KeyCode::Char('k')), DraftStep::Keep);
    assert_eq!(d.body(), "ok");
    assert_eq!(draft_key(&mut d, KeyCode::Backspace), DraftStep::Keep);
    assert_eq!(d.body(), "o");
    assert_eq!(draft_key(&mut d, KeyCode::Backspace), DraftStep::Keep);
    assert_eq!(draft_key(&mut d, KeyCode::Backspace), DraftStep::Keep);
    assert_eq!(d.body(), "");
    assert_eq!(draft_key(&mut d, KeyCode::Up), DraftStep::Keep);
    assert_eq!(draft_key(&mut d, KeyCode::Esc), DraftStep::Cancel);
    assert!(matches!(d, Draft::Comment(_)));
}

#[test]
fn backslash_enter_is_a_newline_except_in_a_rename() {
    let mut d = Draft::Review("one\\".to_string());
    assert_eq!(draft_key(&mut d, KeyCode::Enter), DraftStep::Keep);
    assert_eq!(d.body(), "one\n");
    assert_eq!(draft_key(&mut d, KeyCode::Enter), DraftStep::Submit);
    assert_eq!(d.body(), "one\n");
    let mut r = Draft::Rename("tab\\".to_string());
    assert_eq!(draft_key(&mut r, KeyCode::Enter), DraftStep::Submit);
    assert_eq!(r.body(), "tab\\");
}

#[test]
fn pane_popup_commits_when_unambiguous() {
    let ids = [0u64, 1, 2, 10];
    let mut buf = String::new();
    assert_eq!(pick_key(&mut buf, KeyCode::Char('1'), &ids), PickStep::Keep);
    assert_eq!(pick_key(&mut buf, KeyCode::Char('0'), &ids), PickStep::Done(Some(10)));
    let mut b2 = String::new();
    assert_eq!(pick_key(&mut b2, KeyCode::Char('2'), &ids), PickStep::Done(Some(2)));
    let mut b3 = String::new();
    assert_eq!(pick_key(&mut b3, KeyCode::Char('1'), &ids), PickStep::Keep);
    assert_eq!(pick_key(&mut b3, KeyCode::Enter, &ids), PickStep::Done(Some(1)));
    let mut b4 = String::new();
    assert_eq!(pick_key(&mut b4, KeyCode::Char('7'), &ids), PickStep::Done(None));
    let mut b5 = "1".to_string();
    assert_eq!(pick_key(&mut b5, KeyCode::Backspace, &ids), PickStep::Keep);
    assert_eq!(b5, "");
    assert_eq!(pick_key(&mut b5, KeyCode::Char('x'), &ids), PickStep::Done(None));
    assert_eq!(pick_key(&mut b5, KeyCode::Esc, &ids), PickStep::Done(None));
}

#[test]
fn tab_navigation_wraps_round() {
    assert_eq!(nav_key(KeyCode::Right, 2, 3), NavStep::Switch(0));
    assert_eq!(nav_key(KeyCode::Right, 0, 3), NavStep::Switch(1));
    assert_eq!(nav_key(KeyCode::Left, 0, 3), NavStep::Switch(2));
    assert_eq!(nav_key(KeyCode::Left, 2, 3), NavStep::Switch(1));
    assert_eq!(nav_key(KeyCode::Char('n'), 0, 1), NavStep::NewTab);
    assert_eq!(nav_key(KeyCode::Char('x'), 0, 1), NavStep::CloseTab);
    assert_eq!(nav_key(KeyCode::Char('r'), 0, 1), NavStep::Rename);
    assert_eq!(nav_key(KeyCode::Esc, 0, 1), NavStep::Dismiss);
}

#[test]
fn panel_keys_depend_on_the_agent() {
    assert_eq!(panel_key(KeyCode::Up, false, false), PanelKey::Move(-1));
    assert_eq!(panel_key(KeyCode::Down, false, false), PanelKey::Move(1));
    assert_eq!(panel_key(KeyCode::Left, false, false), PanelKey::ScrollH(-1));
    assert_eq!(panel_key(KeyCode::Right, false, false), PanelKey::ScrollH(1));
    assert_eq!(panel_key(KeyCode::Char('c'), false, false), PanelKey::Ignore);
    assert_eq!(panel_key(KeyCode::Char('c'), true, false), PanelKey::Comment);
    assert_eq!(panel_key(KeyCode::Char('S'), true, false), PanelKey::Ignore);
    assert_eq!(panel_key(KeyCode::Char('S'), true, true), PanelKey::Review);
    assert_eq!(panel_key(KeyCode::Esc, true, true), PanelKey::Leave);
}

#[test]
fn paste_goes_to_draft_shell_or_nowhere() {
    let mut d = idle();
    d.drafting = true;
    d.picking = true;
    assert_eq!(paste_target(&d, false), PasteTo::Draft);
    assert_eq!(paste_target(&idle(), true), PasteTo::Shell);
    assert_eq!(paste_target(&idle(), false), PasteTo::Drop);
    let mut l = idle();
    l.locked = true;
    assert_eq!(paste_target(&l, false), PasteTo::Shell);
    let mut h = idle();
    h.help = true;
    assert_eq!(paste_target(&h, true), PasteTo::Drop);
}

#[test]
fn paste_into_rename_flattens_newlines() {
    let mut r = Draft::Rename("a".to_string());
    paste_into_draft(&mut r, "b\nc");
    assert_eq!(r.body(), "ab c");
    let mut c = Draft::Comment("a".to_string());
    paste_into_draft(&mut c, "b\nc");
    assert_eq!(c.body(), "ab\nc");
}

#[test]
fn rename_trims_and_clears_on_blank() {
    assert_eq!(rename_to("  work \t"), Some("work".to_string()));
    assert_eq!(rename_to("   "), None);
    assert_eq!(rename_to(""), None);
}

#[test]
fn footer_hint_follows_the_most_pressing_mode() {
    let s = idle();
    assert_eq!(footer_hint(s, &None, false, false, false, 0), Hint::Shell);
    assert_eq!(footer_hint(s, &None, false, false, true, 0), Hint::GitMissing);
    assert_eq!(footer_hint(s, &None, true, false, true, 0), Hint::PanelNoReview);
    assert_eq!(footer_hint(s, &None, true, true, false, 0), Hint::PanelReview);
    let comment = Some(Draft::Comment(String::new()));
    assert_eq!(footer_hint(InputState { drafting: true, ..s }, &comment, true, true, false, 4), Hint::Comment(4));
    assert_eq!(footer_hint(InputState { locked: true, ..s }, &comment, true, true, false, 4), Hint::Locked);
    assert_eq!(footer_hint(InputState { confirm_quit: true, ..s }, &None, true, true, false, 4), Hint::ConfirmQuit);
    assert_eq!(footer_hint(InputState { picking: true, ..s }, &None, false, false, false, 0), Hint::Panes);
    assert_eq!(footer_hint(InputState { tab_nav: true, ..s }, &None, false, false, false, 0), Hint::TabNav);
}

#[test]
fn wheel_moves_a_panel_cursor_or_scrolls_the_shell() {
    assert_eq!(wheel_target(true, Some(2)), Wheel::Panel(2, -3));
    assert_eq!(wheel_target(false, Some(2)), Wheel::Panel(2, 3));
    assert_eq!(wheel_target(true, Some(0)), Wheel::Shell(3));
    assert_eq!(wheel_target(false, None), Wheel::Shell(-3));
}
