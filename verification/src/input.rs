//! How the front-end routes a key press: which mode takes it, and what each mode does with it.
//! The front-end performs the outcome (writing to the shell, focusing, submitting).

use vstd::prelude::*;

use crate::keys::KeyCode;
use crate::mouse::KeyModifiers;
use crate::protocol::PaneId;
use crate::text::trim;
use crate::ui::{pane_id_ambiguous, pane_id_exact, spec_id_ambiguous, spec_id_exact, Draft};

verus! {

/// The front-end's input modes.
#[derive(Clone, Copy)]
pub struct InputState {
    /// Every key but `F12` goes to the shell.
    pub locked: bool,
    /// `^q` was pressed; the next key confirms with `y`.
    pub confirm_quit: bool,
    /// The help popup is up.
    pub help: bool,
    /// A draft is being typed.
    pub drafting: bool,
    /// The panes popup is up.
    pub picking: bool,
    /// Tab navigation is up.
    pub tab_nav: bool,
}

/// Which mode a key press goes to.
#[derive(Debug, Clone, Copy, PartialEq, Eq, Structural)]
pub enum Route {
    /// `F12`: lock or unlock input.
    ToggleLock,
    /// Locked: the key goes to the shell as is.
    LockedShell,
    /// `y` confirms the quit.
    Quit,
    /// Any other key cancels the quit.
    CancelQuit,
    /// Any key closes help.
    CloseHelp,
    /// `^h` opens help.
    OpenHelp,
    /// The draft takes the key.
    Draft,
    /// The panes popup takes the key.
    Panes,
    /// Tab navigation takes the key.
    TabNav,
    /// `^p` opens the panes popup.
    OpenPanes,
    /// `^t` opens tab navigation.
    OpenTabNav,
    /// `^q` arms the quit.
    ArmQuit,
    /// A focused panel takes the key.
    Panel,
    /// Page up or down scrolls the shell.
    Page,
    /// The key goes to the shell.
    Shell,
}

/// The mode a key press goes to, in priority order: the lock key, the lock, a pending quit,
/// help, the help key, a draft, the panes popup, tab navigation, the popup keys, a focused
/// panel, paging, else the shell.
pub open spec fn spec_route(key: KeyCode, mods: KeyModifiers, s: InputState, panel_focused: bool) -> Route {
    let ctrl = mods.control;
    if key == KeyCode::F(12) {
        Route::ToggleLock
    } else if s.locked {
        Route::LockedShell
    } else if s.confirm_quit {
        if key == KeyCode::Char('y') { Route::Quit } else { Route::CancelQuit }
    } else if s.help {
        Route::CloseHelp
    } else if ctrl && key == KeyCode::Char('h') {
        Route::OpenHelp
    } else if s.drafting {
        Route::Draft
    } else if s.picking {
        Route::Panes
    } else if s.tab_nav {
        Route::TabNav
    } else if ctrl && key == KeyCode::Char('p') {
        Route::OpenPanes
    } else if ctrl && key == KeyCode::Char('t') {
        Route::OpenTabNav
    } else if ctrl && key == KeyCode::Char('q') {
        Route::ArmQuit
    } else if panel_focused {
        Route::Panel
    } else if key == KeyCode::PageUp || key == KeyCode::PageDown {
        Route::Page
    } else {
        Route::Shell
    }
}

/// Route a key press (see `spec_route`).
pub fn route(key: KeyCode, mods: KeyModifiers, s: &InputState, panel_focused: bool) -> (r: Route)
    ensures
        r == spec_route(key, mods, *s, panel_focused),
{
    let ctrl = mods.control;
    if key == KeyCode::F(12) {
        Route::ToggleLock
    } else if s.locked {
        Route::LockedShell
    } else if s.confirm_quit {
        if key == KeyCode::Char('y') { Route::Quit } else { Route::CancelQuit }
    } else if s.help {
        Route::CloseHelp
    } else if ctrl && key == KeyCode::Char('h') {
        Route::OpenHelp
    } else if s.drafting {
        Route::Draft
    } else if s.picking {
        Route::Panes
    } else if s.tab_nav {
        Route::TabNav
    } else if ctrl && key == KeyCode::Char('p') {
        Route::OpenPanes
    } else if ctrl && key == KeyCode::Char('t') {
        Route::OpenTabNav
    } else if ctrl && key == KeyCode::Char('q') {
        Route::ArmQuit
    } else if panel_focused {
        Route::Panel
    } else if key == KeyCode::PageUp || key == KeyCode::PageDown {
        Route::Page
    } else {
        Route::Shell
    }
}

/// What a key does to a draft.
#[derive(Debug, Clone, Copy, PartialEq, Eq, Structural)]
pub enum DraftStep {
    /// The draft goes on.
    Keep,
    /// Enter: commit the draft.
    Submit,
    /// Esc: drop the draft.
    Cancel,
}

/// The draft's kind is unchanged and its text is `t`.
pub open spec fn draft_with(before: Draft, after: Draft, t: Seq<char>) -> bool {
    &&& after.text() == t
    &&& (before is Comment <==> after is Comment)
    &&& (before is Review <==> after is Review)
    &&& (before is Rename <==> after is Rename)
}

/// A comment or review draft, where `\`+Enter makes a newline.
pub open spec fn spec_multiline(d: Draft) -> bool {
    !(d is Rename)
}

/// Typing into a draft: a character is appended, backspace drops the last one, `\` then Enter
/// becomes a newline in a multi-line draft, Enter commits, Esc drops it, any other key does
/// nothing.
pub fn draft_key(d: &mut Draft, key: KeyCode) -> (step: DraftStep)
    ensures
        match key {
            KeyCode::Char(c) => step == DraftStep::Keep && draft_with(*old(d), *final(d), old(d).text().push(c)),
            KeyCode::Backspace => step == DraftStep::Keep && draft_with(
                *old(d),
                *final(d),
                if old(d).text().len() > 0 { old(d).text().drop_last() } else { old(d).text() },
            ),
            KeyCode::Enter => if spec_multiline(*old(d)) && old(d).text().len() > 0 && old(d).text().last() == '\\' {
                step == DraftStep::Keep && draft_with(*old(d), *final(d), old(d).text().drop_last().push('\n'))
            } else {
                step == DraftStep::Submit && *final(d) == *old(d)
            },
            KeyCode::Esc => step == DraftStep::Cancel && *final(d) == *old(d),
            _ => step == DraftStep::Keep && *final(d) == *old(d),
        },
{
    match key {
        KeyCode::Char(c) => {
            let b = d.body_mut();
            crate::text::push_char(b, c);
            DraftStep::Keep
        },
        KeyCode::Backspace => {
            let b = d.body_mut();
            crate::text::pop_char(b);
            DraftStep::Keep
        },
        KeyCode::Enter => {
            let multiline = d.multiline();
            let ends = {
                let v = crate::text::chars_of(d.body());
                v.len() > 0 && v[v.len() - 1] == '\\'
            };
            if multiline && ends {
                let b = d.body_mut();
                let mut v = crate::text::chars_of(b.as_str());
                v.pop();
                v.push('\n');
                *b = crate::text::string_of(v.as_slice());
                DraftStep::Keep
            } else {
                DraftStep::Submit
            }
        },
        KeyCode::Esc => DraftStep::Cancel,
        _ => DraftStep::Keep,
    }
}

/// Pasted text as a draft takes it: whole in a multi-line draft; in a rename, each newline
/// becomes a space, so the tab name stays on one line.
pub open spec fn pasted(multiline: bool, s: Seq<char>) -> Seq<char> {
    if multiline {
        s
    } else {
        s.map_values(|c: char| if c == '\n' { ' ' } else { c })
    }
}

/// Append pasted text to a draft (see `pasted`); the draft's kind stays.
pub fn paste_into_draft(d: &mut Draft, s: &str)
    ensures
        draft_with(*old(d), *final(d), old(d).text() + pasted(spec_multiline(*old(d)), s@)),
{
    let multiline = d.multiline();
    let b = d.body_mut();
    let mut v = crate::text::chars_of(b.as_str());
    let ghost start = v@;
    let add = crate::text::chars_of(s);
    let mut i: usize = 0;
    while i < add.len()
        invariant
            i <= add@.len(),
            add@ == s@,
            v@ == start + pasted(multiline, add@).subrange(0, i as int),
        decreases add@.len() - i,
    {
        let c = add[i];
        if !multiline && c == '\n' {
            v.push(' ');
        } else {
            v.push(c);
        }
        i = i + 1;
        assert(v@ =~= start + pasted(multiline, add@).subrange(0, i as int));
    }
    assert(pasted(multiline, add@).subrange(0, i as int) =~= pasted(multiline, add@));
    *b = crate::text::string_of(v.as_slice());
}

/// What committing a rename gives the tab: the text trimmed, or no name when that is empty.
pub fn rename_to(text: &str) -> (name: Option<String>)
    ensures
        match name {
            Some(n) => n@ == trim(text@) && trim(text@).len() > 0,
            None => trim(text@).len() == 0,
        },
{
    let v = crate::text::chars_of(text);
    let t = crate::text::trim_chars(v.as_slice());
    if t.len() == 0 {
        None
    } else {
        Some(crate::text::string_of(t.as_slice()))
    }
}

/// What a key does in the panes popup.
#[derive(Debug, Clone, Copy, PartialEq, Eq, Structural)]
pub enum PickStep {
    /// Keep waiting for digits.
    Keep,
    /// Close the popup, focusing the pane when one was picked.
    Done(Option<PaneId>),
}

/// Typing a pane id: a digit extends the id and commits as soon as no longer live id could
/// still be meant; backspace drops a digit; Enter commits what was typed; any other key closes
/// the popup.
pub fn pick_key(buf: &mut String, key: KeyCode, ids: &[PaneId]) -> (step: PickStep)
    ensures
        match key {
            KeyCode::Char(c) if '0' <= c <= '9' => final(buf)@ == old(buf)@.push(c) && (if spec_id_ambiguous(
                ids@,
                old(buf)@.push(c),
            ) {
                step == PickStep::Keep
            } else {
                step == PickStep::Done(spec_id_exact(ids@, old(buf)@.push(c)))
            }),
            KeyCode::Backspace => step == PickStep::Keep && final(buf)@ == (if old(buf)@.len() > 0 {
                old(buf)@.drop_last()
            } else {
                old(buf)@
            }),
            KeyCode::Enter => step == PickStep::Done(spec_id_exact(ids@, old(buf)@)) && final(buf)@ == old(buf)@,
            _ => step == PickStep::Done(None) && final(buf)@ == old(buf)@,
        },
{
    match key {
        KeyCode::Char(c) => {
            if '0' <= c && c <= '9' {
                crate::text::push_char(buf, c);
                if pane_id_ambiguous(ids, buf.as_str()) {
                    PickStep::Keep
                } else {
                    PickStep::Done(pane_id_exact(ids, buf.as_str()))
                }
            } else {
                PickStep::Done(None)
            }
        },
        KeyCode::Backspace => {
            crate::text::pop_char(buf);
            PickStep::Keep
        },
        KeyCode::Enter => PickStep::Done(pane_id_exact(ids, buf.as_str())),
        _ => PickStep::Done(None),
    }
}

/// What a key does in tab navigation.
#[derive(Debug, Clone, Copy, PartialEq, Eq, Structural)]
pub enum NavStep {
    /// Switch to tab `i` and keep navigating.
    Switch(usize),
    /// Open a new tab.
    NewTab,
    /// Close the active tab.
    CloseTab,
    /// Start renaming the active tab.
    Rename,
    /// Leave tab navigation.
    Dismiss,
}

/// Tab navigation over `n` tabs from `active`: arrows step round the ring, `n` opens, `x`
/// closes, `r` renames, anything else leaves.
pub fn nav_key(key: KeyCode, active: usize, n: usize) -> (step: NavStep)
    requires
        active < n,
    ensures
        match key {
            KeyCode::Right => step == NavStep::Switch(((active + 1) % (n as int)) as usize),
            KeyCode::Left => step == NavStep::Switch(((active + n - 1) % (n as int)) as usize),
            KeyCode::Char('n') => step == NavStep::NewTab,
            KeyCode::Char('x') => step == NavStep::CloseTab,
            KeyCode::Char('r') => step == NavStep::Rename,
            _ => step == NavStep::Dismiss,
        },
{
    match key {
        KeyCode::Right => {
            proof {
                if active + 1 < n {
                    vstd::arithmetic::div_mod::lemma_small_mod((active + 1) as nat, n as nat);
                } else {
                    vstd::arithmetic::div_mod::lemma_mod_self_0(n as int);
                }
            }
            NavStep::Switch(if active + 1 < n { active + 1 } else { 0 })
        },
        KeyCode::Left => {
            proof {
                if active > 0 {
                    vstd::arithmetic::div_mod::lemma_mod_add_multiples_vanish(active - 1, n as int);
                    vstd::arithmetic::div_mod::lemma_small_mod((active - 1) as nat, n as nat);
                } else {
                    vstd::arithmetic::div_mod::lemma_small_mod((n - 1) as nat, n as nat);
                }
            }
            NavStep::Switch(if active > 0 { active - 1 } else { n - 1 })
        },
        KeyCode::Char('n') => NavStep::NewTab,
        KeyCode::Char('x') => NavStep::CloseTab,
        KeyCode::Char('r') => NavStep::Rename,
        _ => NavStep::Dismiss,
    }
}

/// What a key does to a focused panel.
#[derive(Debug, Clone, Copy, PartialEq, Eq, Structural)]
pub enum PanelKey {
    /// Move the line cursor.
    Move(isize),
    /// Scroll pre-formatted lines sideways.
    ScrollH(isize),
    /// Start a comment on the cursor line.
    Comment,
    /// Start the review's overall note.
    Review,
    /// Give focus back to the shell.
    Leave,
    /// Nothing.
    Ignore,
}

/// A focused panel's keys: arrows move and scroll; with an agent declared, `c` comments and `S`
/// (with notes pending) starts the review; Esc leaves.
pub fn panel_key(key: KeyCode, agent: bool, has_threads: bool) -> (k: PanelKey)
    ensures
        k == match key {
            KeyCode::Up => PanelKey::Move(-1isize),
            KeyCode::Down => PanelKey::Move(1isize),
            KeyCode::Left => PanelKey::ScrollH(-1isize),
            KeyCode::Right => PanelKey::ScrollH(1isize),
            KeyCode::Char('c') => if agent { PanelKey::Comment } else { PanelKey::Ignore },
            KeyCode::Char('S') => if agent && has_threads { PanelKey::Review } else { PanelKey::Ignore },
            KeyCode::Esc => PanelKey::Leave,
            _ => PanelKey::Ignore,
        },
{
    match key {
        KeyCode::Up => PanelKey::Move(-1),
        KeyCode::Down => PanelKey::Move(1),
        KeyCode::Left => PanelKey::ScrollH(-1),
        KeyCode::Right => PanelKey::ScrollH(1),
        KeyCode::Char('c') => if agent { PanelKey::Comment } else { PanelKey::Ignore },
        KeyCode::Char('S') => if agent && has_threads { PanelKey::Review } else { PanelKey::Ignore },
        KeyCode::Esc => PanelKey::Leave,
        _ => PanelKey::Ignore,
    }
}

/// Where pasted text goes.
#[derive(Debug, Clone, Copy, PartialEq, Eq, Structural)]
pub enum PasteTo {
    /// Into the draft.
    Draft,
    /// To the shell, bracketed.
    Shell,
    /// Nowhere.
    Drop,
}

/// A paste goes into a draft; else to the shell when locked or when the shell has focus with no
/// popup or prompt up; else nowhere.
pub fn paste_target(s: &InputState, shell_focused: bool) -> (t: PasteTo)
    ensures
        t == (if s.drafting {
            PasteTo::Draft
        } else if s.locked || (shell_focused && !s.picking && !s.tab_nav && !s.help && !s.confirm_quit) {
            PasteTo::Shell
        } else {
            PasteTo::Drop
        }),
{
    if s.drafting {
        PasteTo::Draft
    } else if s.locked || (shell_focused && !s.picking && !s.tab_nav && !s.help && !s.confirm_quit) {
        PasteTo::Shell
    } else {
        PasteTo::Drop
    }
}

/// Backspace takes back the character just typed into a draft.
pub proof fn lemma_backspace_undoes_typing(d: Draft, c: char)
    ensures
        d.text().push(c).drop_last() == d.text(),
        d.text().push(c).len() > 0,
{
    assert(d.text().push(c).drop_last() =~= d.text());
}

/// In tab navigation, a step right then a step left comes back to the same tab.
pub proof fn lemma_nav_right_then_left(active: int, n: int)
    requires
        0 <= active < n,
    ensures
        ({
            let r = (active + 1) % n;
            (r + n - 1) % n == active
        }),
{
    if active + 1 < n {
        vstd::arithmetic::div_mod::lemma_small_mod((active + 1) as nat, n as nat);
        vstd::arithmetic::div_mod::lemma_mod_add_multiples_vanish(active, n);
        vstd::arithmetic::div_mod::lemma_small_mod(active as nat, n as nat);
    } else {
        vstd::arithmetic::div_mod::lemma_mod_self_0(n);
        vstd::arithmetic::div_mod::lemma_small_mod((n - 1) as nat, n as nat);
    }
}

/// What the footer line tells the user, from the most pressing mode down.
#[derive(Debug, Clone, Copy, PartialEq, Eq)]
pub enum Hint {
    /// Input is locked to the shell.
    Locked,
    /// A quit waits for `y`.
    ConfirmQuit,
    /// A comment is being typed for the cursor line (0-based).
    Comment(usize),
    /// The overall review comment is being typed.
    Review,
    /// A tab name is being typed.
    Rename,
    /// The panes popup is up.
    Panes,
    /// Tab navigation is up.
    TabNav,
    /// A panel has focus and review is on.
    PanelReview,
    /// A panel has focus and no agent has declared itself yet.
    PanelNoReview,
    /// The shell has focus and `git` is missing.
    GitMissing,
    /// The shell has focus.
    Shell,
}

/// The footer hint for input state `s` with `draft` open, `cursor` the focused panel's cursor.
pub open spec fn spec_hint(
    s: InputState,
    draft: Option<Draft>,
    panel_focused: bool,
    agent: bool,
    git_missing: bool,
    cursor: usize,
) -> Hint {
    if s.locked {
        Hint::Locked
    } else if s.confirm_quit {
        Hint::ConfirmQuit
    } else if draft is Some {
        match draft->0 {
            Draft::Comment(_) => Hint::Comment(cursor),
            Draft::Review(_) => Hint::Review,
            Draft::Rename(_) => Hint::Rename,
        }
    } else if s.picking {
        Hint::Panes
    } else if s.tab_nav {
        Hint::TabNav
    } else if panel_focused {
        if agent { Hint::PanelReview } else { Hint::PanelNoReview }
    } else if git_missing {
        Hint::GitMissing
    } else {
        Hint::Shell
    }
}

/// Choose the footer hint (see `spec_hint`).
pub fn footer_hint(
    s: InputState,
    draft: &Option<Draft>,
    panel_focused: bool,
    agent: bool,
    git_missing: bool,
    cursor: usize,
) -> (h: Hint)
    ensures
        h == spec_hint(s, *draft, panel_focused, agent, git_missing, cursor),
{
    if s.locked {
        Hint::Locked
    } else if s.confirm_quit {
        Hint::ConfirmQuit
    } else if let Some(d) = draft {
        match d {
            Draft::Comment(_) => Hint::Comment(cursor),
            Draft::Review(_) => Hint::Review,
            Draft::Rename(_) => Hint::Rename,
        }
    } else if s.picking {
        Hint::Panes
    } else if s.tab_nav {
        Hint::TabNav
    } else if panel_focused {
        if agent { Hint::PanelReview } else { Hint::PanelNoReview }
    } else if git_missing {
        Hint::GitMissing
    } else {
        Hint::Shell
    }
}

/// Where a wheel notch goes, and by how much.
#[derive(Debug, Clone, Copy, PartialEq, Eq)]
pub enum Wheel {
    /// Scroll the shell's view by this many lines (negative: further back into history).
    Shell(isize),
    /// Move that panel's cursor by this many lines.
    Panel(PaneId, isize),
}

/// A wheel notch (`up` or down) over pane `over` (`None`: outside every pane): three lines at a
/// time; over a panel it moves the cursor, elsewhere it scrolls the shell the opposite way.
pub fn wheel_target(up: bool, over: Option<PaneId>) -> (w: Wheel)
    ensures
        w == (match over {
            Some(id) if id != crate::protocol::PTY_PANE => Wheel::Panel(id, if up { -3isize } else { 3isize }),
            _ => Wheel::Shell(if up { 3isize } else { -3isize }),
        }),
{
    let step: isize = if up { -3 } else { 3 };
    match over {
        Some(id) => {
            if id != crate::protocol::PTY_PANE {
                Wheel::Panel(id, step)
            } else {
                Wheel::Shell(-step)
            }
        },
        None => Wheel::Shell(-step),
    }
}

} // verus!
