//! One workspace tab's state: the split tree, its file panels, focus, and the requests an agent
//! sends it. The PTY, the socket and the journal file are the front-end's; it renders a file
//! before handing an `open` here.

use std::collections::HashMap;
use vstd::prelude::*;
use vstd::std_specs::hash::obeys_key_model;

use crate::journal::{sanitized, spec_session_path, Journal};
use crate::text::string_of;
use crate::layout::{shell_close_message, no_pane_message, no_pane_string, rect_map, rects, Layout, Rect};
use crate::panel::{agent_note_ok, highlight_rows, Panel};
use crate::protocol::{Dir, Side, LayoutReport, Message, PaneId, PaneKind, PaneReport, RectDto, Response, PTY_PANE};

verus! {

broadcast use vstd::std_specs::hash::group_hash_axioms;

/// `a - b`, floored at 0.
pub open spec fn sat_sub(a: int, b: int) -> int {
    if a > b { a - b } else { 0 }
}

/// A rectangle as its wire mirror.
pub open spec fn dto(r: Rect) -> RectDto {
    RectDto { x: r.x, y: r.y, width: r.width, height: r.height }
}

/// The panel a report measures for pane `id`: the extra one when it names `id`, else the tab's.
pub open spec fn panel_for(panels: Map<PaneId, Panel>, extra: Option<(PaneId, Panel)>, id: PaneId) -> Option<
    Panel,
> {
    match extra {
        Some((e, p)) if e == id => Some(p),
        _ => if panels.contains_key(id) {
            Some(panels[id])
        } else {
            None
        },
    }
}

/// One pane's report at `rect`: the rows inside its border, whether its content overflows them,
/// and whether the rectangle is too small to be usable.
pub open spec fn pane_report_ok(r: PaneReport, id: PaneId, rect: Rect, p: Option<Panel>) -> bool {
    let visible = sat_sub(rect.height as int, 2);
    let inner = sat_sub(rect.width as int, 2);
    let inner_w: nat = if inner >= 1 { inner as nat } else { 1 };
    let too_small = rect.width < 3 || rect.height < 3;
    &&& r.id == id
    &&& r.rect == dto(rect)
    &&& r.visible_rows == visible
    &&& if id == PTY_PANE {
        r.kind == PaneKind::Pty && r.path is None && r.content_rows is None
    } else {
        &&& r.kind == PaneKind::Panel
        &&& match p {
            Some(p) => (r.path matches Some(s) && s@ == p.path@) && (r.content_rows matches Some(c)
                && c as int == p.spec_layout_rows(inner_w).len()),
            None => r.path is None && r.content_rows is None,
        }
    }
    &&& r.overflow_rows == match r.content_rows {
        Some(c) => sat_sub(c as int, visible),
        None => 0,
    }
    &&& r.clipped == (r.overflow_rows > 0 || too_small)
}

/// A layout report: the area, and one pane report per pane of the tree, ordered by id.
pub open spec fn report_ok(
    r: LayoutReport,
    layout: Layout,
    panels: Map<PaneId, Panel>,
    extra: Option<(PaneId, Panel)>,
    area: Rect,
) -> bool {
    let ps = r.panes@;
    &&& r.area == dto(area)
    &&& forall|i: int, j: int| 0 <= i < j < ps.len() ==> ps[i].id < ps[j].id
    &&& forall|i: int| 0 <= i < ps.len() ==> layout.leaves().contains(#[trigger] ps[i].id)
    &&& forall|x: PaneId|
        #[trigger] layout.leaves().contains(x) ==> exists|i: int| 0 <= i < ps.len() && #[trigger] ps[i].id == x
    &&& forall|i: int|
        0 <= i < ps.len() ==> pane_report_ok(
            #[trigger] ps[i],
            ps[i].id,
            rect_map(layout, area)[ps[i].id],
            panel_for(panels, extra, ps[i].id),
        )
}

/// Strictly increasing.
pub open spec fn increasing(s: Seq<u64>) -> bool {
    forall|i: int, j: int| 0 <= i < j < s.len() ==> s[i] < s[j]
}

/// The distinct values of `v`, in increasing order.
fn sorted_distinct(v: &Vec<u64>) -> (out: Vec<u64>)
    ensures
        increasing(out@),
        out@.to_set() == v@.to_set(),
{
    let mut out: Vec<u64> = Vec::new();
    let mut k: usize = 0;
    while k < v.len()
        invariant
            k <= v@.len(),
            increasing(out@),
            out@.to_set() == v@.subrange(0, k as int).to_set(),
        decreases v@.len() - k,
    {
        let x = v[k];
        let mut p: usize = 0;
        while p < out.len() && out[p] < x
            invariant
                p <= out@.len(),
                forall|j: int| 0 <= j < p ==> out@[j] < x,
            decreases out@.len() - p,
        {
            p = p + 1;
        }
        let ghost before = out@;
        proof {
            assert(v@.subrange(0, k + 1) =~= v@.subrange(0, k as int).push(x));
            broadcast use vstd::seq_lib::group_seq_properties;
        }
        if p < out.len() && out[p] == x {
            proof {
                assert(before.to_set().contains(x));
                assert(v@.subrange(0, k + 1).to_set() =~= v@.subrange(0, k as int).to_set().insert(x));
            }
        } else {
            out.insert(p, x);
            proof {
                assert(out@ =~= before.subrange(0, p as int).push(x) + before.subrange(p as int, before.len() as int));
                assert forall|i: int, j: int| 0 <= i < j < out@.len() implies out@[i] < out@[j] by {
                    if j < p {
                        assert(out@[i] == before[i] && out@[j] == before[j]);
                    } else if j == p {
                        assert(out@[i] == before[i]);
                    } else if i < p {
                        assert(out@[i] == before[i] && out@[j] == before[j - 1]);
                    } else if i == p {
                        assert(out@[j] == before[j - 1]);
                    } else {
                        assert(out@[i] == before[i - 1] && out@[j] == before[j - 1]);
                    }
                }
                assert(out@.to_set() =~= before.to_set().insert(x)) by {
                    assert forall|y: u64| out@.to_set().contains(y) implies before.to_set().insert(x).contains(y) by {
                        let i = choose|i: int| 0 <= i < out@.len() && out@[i] == y;
                        if i < p {
                            assert(before[i] == y);
                        } else if i > p {
                            assert(before[i - 1] == y);
                        }
                    }
                    assert forall|y: u64| before.to_set().insert(x).contains(y) implies out@.to_set().contains(y) by {
                        if y == x {
                            assert(out@[p as int] == x);
                        } else {
                            let i = choose|i: int| 0 <= i < before.len() && before[i] == y;
                            if i < p {
                                assert(out@[i] == y);
                            } else {
                                assert(out@[i + 1] == y);
                            }
                        }
                    }
                }
                assert(v@.subrange(0, k + 1).to_set() =~= v@.subrange(0, k as int).to_set().insert(x));
            }
        }
        k = k + 1;
    }
    assert(v@.subrange(0, v@.len() as int) =~= v@);
    out
}

/// One pane's report (see `pane_report_ok`).
fn pane_report(id: PaneId, rect: Rect, p: Option<&Panel>) -> (r: PaneReport)
    requires
        p matches Some(p) ==> p.wf(),
    ensures
        pane_report_ok(
            r,
            id,
            rect,
            match p {
                Some(p) => Some(*p),
                None => None,
            },
        ),
{
    let visible: usize = if rect.height > 2 { (rect.height - 2) as usize } else { 0 };
    let inner_w: usize = if rect.width > 3 { (rect.width - 2) as usize } else { 1 };
    let too_small = rect.width < 3 || rect.height < 3;
    let (kind, path, content_rows) = if id == PTY_PANE {
        (PaneKind::Pty, None, None)
    } else {
        match p {
            Some(p) => {
                let l = p.layout(inner_w);
                (PaneKind::Panel, Some(p.path.clone()), Some(l.rows.len()))
            },
            None => (PaneKind::Panel, None, None),
        }
    };
    let overflow_rows: usize = match content_rows {
        Some(c) => if c > visible { c - visible } else { 0 },
        None => 0,
    };
    PaneReport {
        id,
        kind,
        path,
        rect: RectDto { x: rect.x, y: rect.y, width: rect.width, height: rect.height },
        content_rows,
        visible_rows: visible,
        overflow_rows,
        clipped: overflow_rows > 0 || too_small,
    }
}

/// The geometry and overflow of every pane of `layout` drawn at `area`, measuring `extra` in
/// place of the tab's panel of that id when given.
pub fn build_report(
    layout: &Layout,
    panels: &HashMap<PaneId, Panel>,
    extra: Option<(PaneId, &Panel)>,
    area: Rect,
) -> (r: LayoutReport)
    requires
        area.valid(),
        forall|id: PaneId| panels@.contains_key(id) ==> (#[trigger] panels@[id]).wf(),
        extra matches Some((_, p)) ==> p.wf(),
    ensures
        report_ok(
            r,
            *layout,
            panels@,
            match extra {
                Some((e, p)) => Some((e, *p)),
                None => None,
            },
            area,
        ),
{
    let ghost ex: Option<(PaneId, Panel)> = match extra {
        Some((e, p)) => Some((e, *p)),
        None => None,
    };
    proof {
        assert(obeys_key_model::<PaneId>());
        crate::layout::lemma_rects_cover_leaves(*layout, area);
    }
    let order = layout.order();
    let ids = sorted_distinct(&order);
    let map = rects(layout, area);
    let mut panes: Vec<PaneReport> = Vec::new();
    let mut k: usize = 0;
    while k < ids.len()
        invariant
            k <= ids@.len(),
            area.valid(),
            increasing(ids@),
            ids@.to_set() == layout.leaves().to_set(),
            map@ == rect_map(*layout, area),
            map@.dom() == layout.leaves().to_set(),
            forall|id: PaneId| panels@.contains_key(id) ==> (#[trigger] panels@[id]).wf(),
            ex == (match extra {
                Some((e, p)) => Some((e, *p)),
                None => None,
            }),
            ex matches Some((_, p)) ==> p.wf(),
            panes@.len() == k,
            forall|i: int| 0 <= i < k ==> (#[trigger] panes@[i]).id == ids@[i],
            forall|i: int|
                0 <= i < k ==> pane_report_ok(
                    #[trigger] panes@[i],
                    panes@[i].id,
                    rect_map(*layout, area)[panes@[i].id],
                    panel_for(panels@, ex, panes@[i].id),
                ),
        decreases ids@.len() - k,
    {
        let id = ids[k];
        proof {
            assert(ids@.to_set().contains(id));
        }
        let rect = match map.get(&id) {
            Some(r) => *r,
            None => area,
        };
        let p: Option<&Panel> = match extra {
            Some((e, p)) if e == id => Some(p),
            _ => panels.get(&id),
        };
        let rep = pane_report(id, rect, p);
        proof {
            assert(map@.contains_key(id));
            assert(rect == rect_map(*layout, area)[id]);
            assert(match p {
                Some(p) => Some(*p),
                None => None,
            } == panel_for(panels@, ex, id));
        }
        panes.push(rep);
        k = k + 1;
    }
    let r = LayoutReport { area: RectDto { x: area.x, y: area.y, width: area.width, height: area.height }, panes };
    proof {
        let ps = r.panes@;
        assert forall|i: int| 0 <= i < ps.len() implies layout.leaves().contains(#[trigger] ps[i].id) by {
            assert(ids@.to_set().contains(ids@[i]));
        }
        assert forall|x: PaneId| #[trigger] layout.leaves().contains(x) implies exists|i: int| 0 <= i < ps.len() && #[trigger] ps[i].id == x by {
            assert(layout.leaves().to_set().contains(x));
            assert(ids@.to_set().contains(x));
            let i = choose|i: int| 0 <= i < ids@.len() && ids@[i] == x;
            assert(ps[i].id == x);
        }
    }
    r
}


/// The nudge an `open` carries while no agent has declared itself.
pub open spec fn ready_warning() -> Seq<char> {
    "panel shown, but run `laura ready` to enable review submission"@
}

/// The error for closing with nothing focused.
pub open spec fn nothing_to_close() -> Seq<char> {
    "no panel focused to close"@
}

/// The error for a panel request with no pane named and none focused.
pub open spec fn no_focused_panel() -> Seq<char> {
    "no panel focused"@
}

/// The journal session a tab names by default: its socket name without the `.sock` suffix.
pub open spec fn default_session(name: Seq<char>) -> Seq<char> {
    let n = name.len() as int;
    if n >= 5 && name.subrange(n - 5, n) == seq!['.', 's', 'o', 'c', 'k'] {
        name.subrange(0, n - 5)
    } else {
        name
    }
}

/// One workspace tab: the split tree, the file panels by pane id, focus, whether an agent has
/// declared itself, and the journal it named.
pub struct Tab {
    /// The pane arrangement; starts as the bare shell.
    pub layout: Layout,
    /// File panels by id; the shell is no panel.
    pub panels: HashMap<PaneId, Panel>,
    /// Focused pane; the shell pane means the shell has focus.
    pub focus: PaneId,
    /// The tab's socket name.
    pub name: String,
    /// Set by an `open` that asks for focus; the front-end consumes it once.
    pub pending_focus: Option<PaneId>,
    /// An agent declared itself with `ready`; gates review submission.
    pub agent: bool,
    /// The id the next panel gets.
    pub next_pane: PaneId,
    /// The data directory journals live under.
    pub data_dir: String,
    /// The journal `ready` named.
    pub journal: Option<Journal>,
}

impl Tab {
    /// The tree's panes are distinct and include the shell; every other pane has a well-formed
    /// panel and every panel a pane; ids stay below the next one; focus is the shell or a panel.
    pub open spec fn wf(&self) -> bool {
        let leaves = self.layout.leaves();
        &&& leaves.no_duplicates()
        &&& leaves.contains(PTY_PANE)
        &&& self.layout.ratios_ok()
        &&& forall|id: PaneId|
            #[trigger] self.panels@.contains_key(id) ==> id != PTY_PANE && leaves.contains(id)
                && self.panels@[id].wf()
        &&& forall|id: PaneId| #[trigger] leaves.contains(id) && id != PTY_PANE ==> self.panels@.contains_key(id)
        &&& forall|id: PaneId| #[trigger] leaves.contains(id) ==> id < self.next_pane
        &&& self.focus == PTY_PANE || self.panels@.contains_key(self.focus)
    }

    /// A fresh tab named `name`: just the shell, focused, no agent, panel ids from 1.
    pub fn new(name: String, data_dir: String) -> (t: Tab)
        ensures
            t.wf(),
            t.layout == Layout::Pane(PTY_PANE),
            t.panels@ == Map::<PaneId, Panel>::empty(),
            t.focus == PTY_PANE,
            t.name == name,
            t.pending_focus is None,
            !t.agent,
            t.next_pane == 1,
            t.data_dir == data_dir,
            t.journal is None,
    {
        let t = Tab {
            layout: Layout::Pane(PTY_PANE),
            panels: HashMap::new(),
            focus: PTY_PANE,
            name,
            pending_focus: None,
            agent: false,
            next_pane: 1,
            data_dir,
            journal: None,
        };
        assert(t.layout.leaves() =~= seq![PTY_PANE]);
        assert(t.layout.leaves().no_duplicates());
        assert(t.layout.leaves().contains(PTY_PANE)) by {
            assert(t.layout.leaves()[0] == PTY_PANE);
        }
        assert(t.panels@ =~= Map::<PaneId, Panel>::empty());
        t
    }

    /// Take in the focus an `open` asked for: the pending pane gets focus when it is still the
    /// shell or a panel, else the shell does; with nothing pending, focus stays. Nothing else
    /// changes.
    pub fn settle_focus(&mut self)
        requires
            old(self).wf(),
        ensures
            final(self).wf(),
            *final(self) == (Tab {
                focus: match old(self).pending_focus {
                    Some(id) => if id == PTY_PANE || old(self).panels@.contains_key(id) {
                        id
                    } else {
                        PTY_PANE
                    },
                    None => old(self).focus,
                },
                pending_focus: None,
                ..*old(self)
            }),
    {
        proof {
            assert(obeys_key_model::<PaneId>());
        }
        match self.pending_focus {
            Some(id) => {
                self.focus = if id == PTY_PANE || self.panels.contains_key(&id) {
                    id
                } else {
                    PTY_PANE
                };
                self.pending_focus = None;
            },
            None => {},
        }
    }

    /// The focused panel, if a panel (not the shell) has focus.
    pub fn focused_panel(&self) -> (p: Option<&Panel>)
        requires
            self.wf(),
        ensures
            self.focus != PTY_PANE ==> p == Some(&self.panels@[self.focus]),
            self.focus == PTY_PANE ==> p is None,
    {
        proof {
            assert(obeys_key_model::<PaneId>());
        }
        if self.focus == PTY_PANE {
            None
        } else {
            self.panels.get(&self.focus)
        }
    }

    /// Current geometry and overflow at draw area `area`.
    pub fn report(&self, area: Rect) -> (r: LayoutReport)
        requires
            self.wf(),
            area.valid(),
        ensures
            report_ok(r, self.layout, self.panels@, None, area),
    {
        build_report(&self.layout, &self.panels, None, area)
    }

    /// The panel a request names: `pane` when given, else the focused panel.
    fn panel_target(&self, pane: Option<PaneId>) -> (r: Result<PaneId, String>)
        requires
            self.wf(),
        ensures
            match pane {
                Some(id) => if self.panels@.contains_key(id) {
                    r == Ok::<PaneId, String>(id)
                } else {
                    r is Err && r->Err_0@ == no_pane_message(id)
                },
                None => if self.focus != PTY_PANE {
                    r == Ok::<PaneId, String>(self.focus)
                } else {
                    r is Err && r->Err_0@ == no_focused_panel()
                },
            },
    {
        proof {
            assert(obeys_key_model::<PaneId>());
        }
        match pane {
            Some(id) => if self.panels.contains_key(&id) {
                Ok(id)
            } else {
                Err(no_pane_string(id))
            },
            None => if self.focus != PTY_PANE {
                Ok(self.focus)
            } else {
                Err(String::from_str("no panel focused"))
            },
        }
    }
}


/// What `close` does: with `all`, back to the bare shell; else the named (or focused) panel's
/// pane leaves the tree, its panel goes, and focus falls back to the shell if it was there; a
/// request naming nothing, the shell or an unknown pane changes nothing and says why.
pub open spec fn close_ok(old: Tab, new: Tab, r: Response, pane: Option<PaneId>, all: bool) -> bool {
    let target = old.close_target(pane);
    let t = target->0;
    &&& new.same_frame(&old)
    &&& all ==> r is Done && new.layout == Layout::Pane(PTY_PANE) && new.panels@ == Map::<PaneId, Panel>::empty()
        && new.focus == PTY_PANE
    &&& !all && target is None ==> r is Error && r->message@ == nothing_to_close() && new == old
    &&& !all && target == Some(PTY_PANE) ==> r is Error && r->message@ == shell_close_message() && new == old
    &&& !all && target is Some && t != PTY_PANE && !old.layout.leaves().contains(t) ==> r is Error
        && r->message@ == no_pane_message(t) && new == old
    &&& !all && target is Some && t != PTY_PANE && old.layout.leaves().contains(t) ==> {
        &&& r is Done
        &&& new.layout == old.layout.collapsed(t)
        &&& new.layout.leaves() == old.layout.leaves().remove(old.layout.leaves().index_of(t))
        &&& new.panels@ == old.panels@.remove(t)
        &&& new.focus == (if old.focus == t { PTY_PANE } else { old.focus })
    }
}

/// What `focus` does: the shell or a panel takes focus; an unknown id changes nothing.
pub open spec fn focus_ok(old: Tab, new: Tab, r: Response, pane: PaneId) -> bool {
    &&& new.same_frame(&old)
    &&& new.layout == old.layout
    &&& new.panels@ == old.panels@
    &&& pane == PTY_PANE || old.panels@.contains_key(pane) ==> r is Done && new.focus == pane
    &&& !(pane == PTY_PANE || old.panels@.contains_key(pane)) ==> r is Error && r->message@ == no_pane_message(pane)
        && new.focus == old.focus
}

impl Tab {
    /// Everything but the layout, the panels and focus is as in `other`.
    pub open spec fn same_frame(&self, other: &Tab) -> bool {
        &&& self.name == other.name
        &&& self.pending_focus == other.pending_focus
        &&& self.agent == other.agent
        &&& self.next_pane == other.next_pane
        &&& self.data_dir == other.data_dir
        &&& self.journal == other.journal
    }

    /// The pane a `close` names: `pane`, else the focused panel.
    pub open spec fn close_target(&self, pane: Option<PaneId>) -> Option<PaneId> {
        match pane {
            Some(id) => Some(id),
            None => if self.focus != PTY_PANE { Some(self.focus) } else { None },
        }
    }

    /// Close one pane, or every panel with `all`.
    pub fn close(&mut self, pane: Option<PaneId>, all: bool) -> (r: Response)
        requires
            old(self).wf(),
        ensures
            final(self).wf(),
            close_ok(*old(self), *final(self), r, pane, all),
    {
        proof {
            assert(obeys_key_model::<PaneId>());
        }
        if all {
            self.layout = Layout::Pane(PTY_PANE);
            self.panels.clear();
            self.focus = PTY_PANE;
            proof {
                assert(self.layout.leaves() =~= seq![PTY_PANE]);
                assert(self.layout.leaves().contains(PTY_PANE)) by {
                    assert(self.layout.leaves()[0] == PTY_PANE);
                }
                assert(self.layout.leaves().no_duplicates());
            }
            return Response::Done;
        }
        let target = match pane {
            Some(id) => id,
            None => {
                if self.focus == PTY_PANE {
                    return Response::Error { message: String::from_str("no panel focused to close") };
                }
                self.focus
            },
        };
        let ghost old_leaves = self.layout.leaves();
        match self.layout.remove(target) {
            Ok(()) => {
                proof {
                    let i = old_leaves.index_of(target);
                    assert(old_leaves.contains(PTY_PANE));
                    let j = old_leaves.index_of(PTY_PANE);
                    assert(i != j);
                    assert(old_leaves.len() >= 2);
                    crate::layout::lemma_remove_drops_leaf(old(self).layout, target, i);
                }
                self.panels.remove(&target);
                if self.focus == target {
                    self.focus = PTY_PANE;
                }
                proof {
                    let i = old_leaves.index_of(target);
                    let nl = self.layout.leaves();
                    assert(nl == old_leaves.remove(i));
                    assert forall|x: PaneId| nl.contains(x) <==> old_leaves.contains(x) && x != target by {
                        if nl.contains(x) {
                            let k = choose|k: int| 0 <= k < nl.len() && nl[k] == x;
                            if k < i {
                                assert(old_leaves[k] == x);
                            } else {
                                assert(old_leaves[k + 1] == x);
                                assert(k + 1 != i);
                            }
                        }
                        if old_leaves.contains(x) && x != target {
                            let k = choose|k: int| 0 <= k < old_leaves.len() && old_leaves[k] == x;
                            assert(k != i);
                            if k < i {
                                assert(nl[k] == x);
                            } else {
                                assert(nl[k - 1] == x);
                            }
                        }
                    }
                    assert(nl.no_duplicates()) by {
                        assert forall|a: int, b: int| 0 <= a < nl.len() && 0 <= b < nl.len() && a != b implies nl[a] != nl[b] by {
                            let a1 = if a < i { a } else { a + 1 };
                            let b1 = if b < i { b } else { b + 1 };
                            assert(nl[a] == old_leaves[a1]);
                            assert(nl[b] == old_leaves[b1]);
                        }
                    }
                    crate::layout::lemma_collapse_keeps_ratios(old(self).layout, target);
                }
                Response::Done
            },
            Err(message) => Response::Error { message },
        }
    }

    /// Focus a pane by id: the shell or a panel.
    pub fn focus_pane(&mut self, pane: PaneId) -> (r: Response)
        requires
            old(self).wf(),
        ensures
            final(self).wf(),
            focus_ok(*old(self), *final(self), r, pane),
    {
        proof {
            assert(obeys_key_model::<PaneId>());
        }
        if pane == PTY_PANE || self.panels.contains_key(&pane) {
            self.focus = pane;
            Response::Done
        } else {
            Response::Error { message: no_pane_string(pane) }
        }
    }
}


/// What an `open` makes of the rendered panel: the diff view when asked and possible (else the
/// refusal as a warning), autoscroll when asked, then the highlight, whose cursor wins.
pub open spec fn prepared(p: Panel, q: Panel, follow: bool, highlight: Option<(u32, u32)>, diff: bool, warn: Option<
    Seq<char>,
>) -> bool {
    &&& q.wf()
    &&& q.path == p.path
    &&& q.follow == (follow || p.follow)
    &&& !diff ==> warn is None && q.diff_view == p.diff_view
    &&& diff && p.git_missing ==> warn == Some("diff view unavailable — install `git`"@) && q.diff_view
        == p.diff_view
    &&& diff && !p.git_missing && !p.has_diff() ==> warn == Some("no changes vs HEAD — nothing to diff"@)
        && q.diff_view == p.diff_view
    &&& diff && !p.git_missing && p.has_diff() ==> warn is None && q.diff_view
    &&& match highlight {
        Some((s, e)) => q.highlight == Some(
            (highlight_rows(p.source@, s, e).0 as usize, highlight_rows(p.source@, s, e).1 as usize),
        ) && q.cursor == highlight_rows(p.source@, s, e).1,
        None => q.highlight == p.highlight,
    }
}

/// An `open`'s warnings: the `ready` nudge while no agent has declared itself, then a refused
/// diff view.
pub open spec fn open_warnings(agent: bool, warn: Option<Seq<char>>) -> Seq<Seq<char>> {
    (if agent { seq![] } else { seq![ready_warning()] }) + match warn {
        Some(w) => seq![w],
        None => seq![],
    }
}

fn prepare(panel: Panel, follow: bool, highlight: Option<(u32, u32)>, diff: bool) -> (r: (Panel, Option<String>))
    requires
        panel.wf(),
    ensures
        prepared(
            panel,
            r.0,
            follow,
            highlight,
            diff,
            match r.1 {
                Some(w) => Some(w@),
                None => None,
            },
        ),
{
    let mut p = panel;
    let mut warn: Option<String> = None;
    if diff {
        match p.set_diff_view(true) {
            Ok(()) => {},
            Err(m) => {
                warn = Some(m);
            },
        }
    }
    if follow {
        p.set_follow(true);
    }
    match highlight {
        Some((s, e)) => {
            p.set_highlight(s, e);
        },
        None => {},
    }
    (p, warn)
}

/// What `open` does. An unknown target pane changes nothing and says so; a dry run changes
/// nothing and reports the layout the split would give, measuring the new panel; otherwise the
/// target splits with the next id on the chosen side, the prepared panel goes in under it, ids
/// move on, focus is queued when asked, and the warnings say what still needs doing.
pub open spec fn open_ok(
    old: Tab,
    new: Tab,
    r: Response,
    panel: Panel,
    split: Option<PaneId>,
    dir: Dir,
    ratio: u16,
    side: Side,
    focus: bool,
    follow: bool,
    dry_run: bool,
    highlight: Option<(u32, u32)>,
    diff: bool,
    area: Rect,
) -> bool {
    let target = old.open_target(split);
    let id = old.next_pane;
    let grown = old.layout.split_first(target, dir, ratio, side, id);
    &&& !old.layout.leaves().contains(target) ==> r is Error && r->message@ == no_pane_message(target) && new == old
    &&& old.layout.leaves().contains(target) && dry_run ==> new == old && (r matches Response::Report(rep)
        && report_ok(rep, grown->0, old.panels@, Some((id, panel)), area))
    &&& old.layout.leaves().contains(target) && !dry_run ==> {
        &&& (r matches Response::Opened { pane, warnings } && pane == id)
        &&& grown is Some && new.layout == grown->0
        &&& new.next_pane == id + 1
        &&& new.panels@.dom() == old.panels@.dom().insert(id)
        &&& forall|k: PaneId| #[trigger] old.panels@.contains_key(k) ==> new.panels@[k] == old.panels@[k]
        &&& exists|warn: Option<Seq<char>>|
            prepared(panel, new.panels@[id], follow, highlight, diff, warn) && r->warnings@.map_values(
                |w: String| w@,
            ) == open_warnings(old.agent, warn)
        &&& new.focus == old.focus
        &&& new.pending_focus == (if focus { Some(id) } else { old.pending_focus })
        &&& new.agent == old.agent
        &&& new.name == old.name
        &&& new.journal == old.journal
        &&& new.data_dir == old.data_dir
    }
}

impl Tab {
    /// The pane an `open` splits: `split`, else the focused pane.
    pub open spec fn open_target(&self, split: Option<PaneId>) -> PaneId {
        match split {
            Some(t) => t,
            None => self.focus,
        }
    }

    /// Open the rendered `panel` in a new pane split off `split` (else the focused pane), or
    /// with `dry_run` report the layout that would result without changing anything.
    pub fn open(
        &mut self,
        panel: Panel,
        split: Option<PaneId>,
        dir: Dir,
        ratio: u16,
        side: Side,
        focus: bool,
        follow: bool,
        dry_run: bool,
        highlight: Option<(u32, u32)>,
        diff: bool,
        area: Rect,
    ) -> (r: Response)
        requires
            old(self).wf(),
            panel.wf(),
            area.valid(),
            old(self).next_pane < u64::MAX,
            side == Side::Second ==> ratio <= 100,
        ensures
            final(self).wf(),
            open_ok(*old(self), *final(self), r, panel, split, dir, ratio, side, focus, follow, dry_run, highlight, diff, area),
    {
        proof {
            assert(obeys_key_model::<PaneId>());
            crate::layout::lemma_split_first_some_iff(self.layout, self.open_target(split), dir, ratio, side, self.next_pane);
        }
        let target = match split {
            Some(t) => t,
            None => self.focus,
        };
        let new = self.next_pane;
        if dry_run {
            let mut grown = self.layout.copy();
            match grown.split(target, dir, ratio, side, new) {
                Ok(()) => {},
                Err(message) => {
                    return Response::Error { message };
                },
            }
            let rep = build_report(&grown, &self.panels, Some((new, &panel)), area);
            return Response::Report(rep);
        }
        let ghost old_leaves = self.layout.leaves();
        match self.layout.split(target, dir, ratio, side, new) {
            Ok(()) => {},
            Err(message) => {
                return Response::Error { message };
            },
        }
        proof {
            crate::layout::lemma_split_adds_fresh_leaf(old(self).layout, target, dir, ratio, side, new);
            crate::layout::lemma_split_keeps_ratios(old(self).layout, target, dir, ratio, side, new);
        }
        let (p, warn) = prepare(panel, follow, highlight, diff);
        self.panels.insert(new, p);
        self.next_pane = new + 1;
        if focus {
            self.pending_focus = Some(new);
        }
        let mut warnings: Vec<String> = Vec::new();
        if !self.agent {
            warnings.push(String::from_str("panel shown, but run `laura ready` to enable review submission"));
        }
        let ghost wv: Option<Seq<char>> = match &warn {
            Some(w) => Some(w@),
            None => None,
        };
        match warn {
            Some(w) => {
                warnings.push(w);
            },
            None => {},
        }
        proof {
            assert(warnings@.map_values(|w: String| w@) =~= open_warnings(self.agent, wv));
            assert(self.panels@.dom() =~= old(self).panels@.dom().insert(new));
        }
        Response::Opened { pane: new, warnings }
    }
}


/// The panel a request addresses: `pane` when it is a panel, else the focused panel.
pub open spec fn addressed(t: Tab, pane: Option<PaneId>) -> Option<PaneId> {
    match pane {
        Some(id) => if t.panels@.contains_key(id) { Some(id) } else { None },
        None => if t.focus != PTY_PANE { Some(t.focus) } else { None },
    }
}

/// Why a request addresses no panel.
pub open spec fn unaddressed_message(pane: Option<PaneId>) -> Seq<char> {
    match pane {
        Some(id) => no_pane_message(id),
        None => no_focused_panel(),
    }
}

/// Only panel `id` may differ between the two tabs.
pub open spec fn only_panel_changed(old: Tab, new: Tab, id: PaneId) -> bool {
    &&& new.same_frame(&old)
    &&& new.layout == old.layout
    &&& new.focus == old.focus
    &&& new.panels@.dom() == old.panels@.dom()
    &&& forall|k: PaneId| #[trigger] old.panels@.contains_key(k) && k != id ==> new.panels@[k] == old.panels@[k]
}

/// What `highlight` does: the addressed panel spotlights file lines `start..=end` (`end`
/// defaulting to `start`) and parks its cursor on the last; with no panel addressed nothing
/// changes.
pub open spec fn highlight_ok(old: Tab, new: Tab, r: Response, pane: Option<PaneId>, start: u32, end: Option<u32>) -> bool {
    let e = match end {
        Some(e) => e,
        None => start,
    };
    match addressed(old, pane) {
        None => r is Error && r->message@ == unaddressed_message(pane) && new == old,
        Some(id) => {
            let rows = highlight_rows(old.panels@[id].source@, start, e);
            &&& r is Done
            &&& only_panel_changed(old, new, id)
            &&& new.panels@[id].highlight == Some((rows.0 as usize, rows.1 as usize))
            &&& new.panels@[id].cursor == rows.1
            &&& new.panels@[id].threads == old.panels@[id].threads
            &&& new.panels@[id].path == old.panels@[id].path
        },
    }
}

/// What `diff_view` does: the addressed panel's inline diff view is set, or toggled without
/// `on`; turning it on without `git` or without changes is refused and leaves it as it was.
pub open spec fn diff_view_ok(old: Tab, new: Tab, r: Response, pane: Option<PaneId>, on: Option<bool>) -> bool {
    match addressed(old, pane) {
        None => r is Error && r->message@ == unaddressed_message(pane) && new == old,
        Some(id) => {
            let p = old.panels@[id];
            let q = new.panels@[id];
            let want = match on {
                Some(b) => b,
                None => !p.diff_view,
            };
            &&& only_panel_changed(old, new, id)
            &&& q.threads == p.threads
            &&& q.path == p.path
            &&& !want ==> r is Done && !q.diff_view
            &&& want && p.git_missing ==> r is Error && r->message@ == "diff view unavailable — install `git`"@
                && q.diff_view == p.diff_view
            &&& want && !p.git_missing && !p.has_diff() ==> r is Error && r->message@
                == "no changes vs HEAD — nothing to diff"@ && q.diff_view == p.diff_view
            &&& want && !p.git_missing && p.has_diff() ==> r is Done && q.diff_view
        },
    }
}

/// The agent name a comment defaults to: the one `ready` named.
pub open spec fn session_agent(t: Tab) -> Option<String> {
    match t.journal {
        Some(j) => j.agent,
        None => None,
    }
}

/// What `comment` does: the agent's note goes on the addressed panel (see `agent_note_ok`),
/// attributed to `author`, else the agent `ready` named.
pub open spec fn comment_ok(
    old: Tab,
    new: Tab,
    r: Response,
    pane: Option<PaneId>,
    line: u32,
    body: Option<String>,
    author: Option<String>,
) -> bool {
    match addressed(old, pane) {
        None => r is Error && r->message@ == unaddressed_message(pane) && new == old,
        Some(id) => {
            &&& only_panel_changed(old, new, id)
            &&& exists|a: Option<String>, res: Result<(), String>|
                {
                    &&& match author {
                        Some(x) => a == Some(x),
                        None => match session_agent(old) {
                            Some(x) => a matches Some(y) && y@ == x@,
                            None => a is None,
                        },
                    }
                    &&& #[trigger] agent_note_ok(old.panels@[id], new.panels@[id], res, line, body, a)
                    &&& match res {
                        Ok(()) => r is Done,
                        Err(m) => r is Error && r->message@ == m@,
                    }
                }
        },
    }
}

/// What `ready` does: the tab hosts an agent, and the journal for `session` (else the tab's
/// default session) under the data directory is named, attributed to `agent`; the reply carries
/// its path.
pub open spec fn ready_ok(old: Tab, new: Tab, r: Response, session: Option<String>, agent: Option<String>) -> bool {
    let s = match session {
        Some(s) => s@,
        None => default_session(old.name@),
    };
    &&& new.agent
    &&& new.layout == old.layout
    &&& new.panels@ == old.panels@
    &&& new.focus == old.focus
    &&& new.name == old.name
    &&& new.pending_focus == old.pending_focus
    &&& new.next_pane == old.next_pane
    &&& new.data_dir == old.data_dir
    &&& new.journal matches Some(j) && j.path@ == spec_session_path(old.data_dir@, s) && j.session@ == sanitized(s)
        && j.agent == agent
    &&& r matches Response::Ready { journal } && journal@ == spec_session_path(old.data_dir@, s)
}

/// The default session of a tab named `name` (see `default_session`).
fn default_session_of(name: &str) -> (s: String)
    ensures
        s@ == default_session(name@),
{
    let c = crate::text::chars_of(name);
    let n = c.len();
    if n >= 5 && c[n - 5] == '.' && c[n - 4] == 's' && c[n - 3] == 'o' && c[n - 2] == 'c' && c[n - 1] == 'k' {
        let stem = crate::text::slice_chars(c.as_slice(), 0, n - 5);
        proof {
            assert(name@.subrange(n - 5, n as int) =~= seq!['.', 's', 'o', 'c', 'k']);
        }
        string_of(stem.as_slice())
    } else {
        proof {
            if n >= 5 {
                assert(name@.subrange(n - 5, n as int)[0] == c@[n - 5]);
                assert(name@.subrange(n - 5, n as int)[1] == c@[n - 4]);
                assert(name@.subrange(n - 5, n as int)[2] == c@[n - 3]);
                assert(name@.subrange(n - 5, n as int)[3] == c@[n - 2]);
                assert(name@.subrange(n - 5, n as int)[4] == c@[n - 1]);
            }
        }
        string_of(c.as_slice())
    }
}

impl Tab {
    /// Spotlight file lines `start..=end` in the addressed panel (see `highlight_ok`).
    pub fn highlight(&mut self, pane: Option<PaneId>, start: u32, end: Option<u32>) -> (r: Response)
        requires
            old(self).wf(),
        ensures
            final(self).wf(),
            highlight_ok(*old(self), *final(self), r, pane, start, end),
    {
        proof {
            assert(obeys_key_model::<PaneId>());
        }
        let id = match self.panel_target(pane) {
            Ok(id) => id,
            Err(message) => {
                return Response::Error { message };
            },
        };
        let e = match end {
            Some(e) => e,
            None => start,
        };
        let mut p = match self.panels.remove(&id) {
            Some(p) => p,
            None => {
                proof {
                    assert(false);
                }
                return Response::Done;
            },
        };
        p.set_highlight(start, e);
        self.panels.insert(id, p);
        proof {
            assert(self.panels@.dom() =~= old(self).panels@.dom());
        }
        Response::Done
    }

    /// Set or toggle the addressed panel's inline diff view (see `diff_view_ok`).
    pub fn diff_view(&mut self, pane: Option<PaneId>, on: Option<bool>) -> (r: Response)
        requires
            old(self).wf(),
        ensures
            final(self).wf(),
            diff_view_ok(*old(self), *final(self), r, pane, on),
    {
        proof {
            assert(obeys_key_model::<PaneId>());
        }
        let id = match self.panel_target(pane) {
            Ok(id) => id,
            Err(message) => {
                return Response::Error { message };
            },
        };
        let mut p = match self.panels.remove(&id) {
            Some(p) => p,
            None => {
                proof {
                    assert(false);
                }
                return Response::Done;
            },
        };
        let want = match on {
            Some(b) => b,
            None => !p.diff_view,
        };
        let res = p.set_diff_view(want);
        self.panels.insert(id, p);
        proof {
            assert(self.panels@.dom() =~= old(self).panels@.dom());
        }
        match res {
            Ok(()) => Response::Done,
            Err(message) => Response::Error { message },
        }
    }

    /// Pin an agent note to 1-based file `line` of the addressed panel (see `comment_ok`).
    pub fn comment(&mut self, pane: Option<PaneId>, line: u32, body: Option<String>, author: Option<String>) -> (r:
        Response)
        requires
            old(self).wf(),
        ensures
            final(self).wf(),
            comment_ok(*old(self), *final(self), r, pane, line, body, author),
    {
        proof {
            assert(obeys_key_model::<PaneId>());
        }
        let id = match self.panel_target(pane) {
            Ok(id) => id,
            Err(message) => {
                return Response::Error { message };
            },
        };
        let a: Option<String> = match author {
            Some(x) => Some(x),
            None => match &self.journal {
                Some(j) => match &j.agent {
                    Some(x) => Some(x.clone()),
                    None => None,
                },
                None => None,
            },
        };
        let mut p = match self.panels.remove(&id) {
            Some(p) => p,
            None => {
                proof {
                    assert(false);
                }
                return Response::Done;
            },
        };
        let ghost before = p;
        let res = p.agent_note(line, body, a);
        self.panels.insert(id, p);
        let ghost rv = res;
        let out = match res {
            Ok(()) => Response::Done,
            Err(message) => Response::Error { message },
        };
        proof {
            assert(self.panels@.dom() =~= old(self).panels@.dom());
            assert(only_panel_changed(*old(self), *self, id));
            assert(agent_note_ok(old(self).panels@[id], self.panels@[id], rv, line, body, a));
            assert(match author {
                Some(x) => a == Some(x),
                None => match session_agent(*old(self)) {
                    Some(x) => a matches Some(y) && y@ == x@,
                    None => a is None,
                },
            });
            assert(match rv {
                Ok(()) => out is Done,
                Err(m) => out is Error && out->message@ == m@,
            });
            assert(addressed(*old(self), pane) == Some(id));
            assert(exists|aa: Option<String>, res: Result<(), String>|
                {
                    &&& match author {
                        Some(x) => aa == Some(x),
                        None => match session_agent(*old(self)) {
                            Some(x) => aa matches Some(y) && y@ == x@,
                            None => aa is None,
                        },
                    }
                    &&& #[trigger] agent_note_ok(old(self).panels@[id], self.panels@[id], res, line, body, aa)
                    &&& match res {
                        Ok(()) => out is Done,
                        Err(m) => out is Error && out->message@ == m@,
                    }
                });
            assert(comment_ok(*old(self), *self, out, pane, line, body, author));
        }
        out
    }

    /// Mark the tab as hosting an agent and name its journal (see `ready_ok`).
    pub fn ready(&mut self, session: Option<String>, agent: Option<String>) -> (r: Response)
        requires
            old(self).wf(),
        ensures
            final(self).wf(),
            ready_ok(*old(self), *final(self), r, session, agent),
    {
        let s = match session {
            Some(s) => s,
            None => default_session_of(self.name.as_str()),
        };
        let j = Journal::open(self.data_dir.as_str(), s.as_str(), agent);
        let journal = j.path.clone();
        self.agent = true;
        self.journal = Some(j);
        Response::Ready { journal }
    }

    /// Apply one request to the tab and answer it. `opened` is the panel the front-end rendered
    /// for an `open`.
    pub fn apply(&mut self, msg: Message, area: Rect, opened: Option<Panel>) -> (r: Response)
        requires
            old(self).wf(),
            area.valid(),
            msg is Open ==> opened is Some && opened->0.wf() && old(self).next_pane < u64::MAX && (msg->Open_side
                == Side::Second ==> msg->Open_ratio <= 100),
        ensures
            final(self).wf(),
            match msg {
                Message::Open { path, split, dir, ratio, side, focus, follow, dry_run, highlight, diff } => open_ok(
                    *old(self),
                    *final(self),
                    r,
                    opened->0,
                    split,
                    dir,
                    ratio,
                    side,
                    focus,
                    follow,
                    dry_run,
                    highlight,
                    diff,
                    area,
                ),
                Message::Close { pane, all } => close_ok(*old(self), *final(self), r, pane, all),
                Message::Focus { pane } => focus_ok(*old(self), *final(self), r, pane),
                Message::Highlight { pane, start, end } => highlight_ok(*old(self), *final(self), r, pane, start, end),
                Message::DiffView { pane, on } => diff_view_ok(*old(self), *final(self), r, pane, on),
                Message::Comment { pane, line, body, author } => comment_ok(
                    *old(self),
                    *final(self),
                    r,
                    pane,
                    line,
                    body,
                    author,
                ),
                Message::Layout => *final(self) == *old(self) && (r matches Response::Report(rep) && report_ok(
                    rep,
                    old(self).layout,
                    old(self).panels@,
                    None,
                    area,
                )),
                Message::Ready { session, agent } => ready_ok(*old(self), *final(self), r, session, agent),
                Message::Feedback { .. } => *final(self) == *old(self) && r is Done,
                Message::Update { .. } => *final(self) == *old(self) && r is Done,
            },
    {
        match msg {
            Message::Open { path, split, dir, ratio, side, focus, follow, dry_run, highlight, diff } => {
                match opened {
                    Some(panel) => self.open(panel, split, dir, ratio, side, focus, follow, dry_run, highlight, diff, area),
                    None => Response::Done,
                }
            },
            Message::Close { pane, all } => self.close(pane, all),
            Message::Focus { pane } => self.focus_pane(pane),
            Message::Highlight { pane, start, end } => self.highlight(pane, start, end),
            Message::DiffView { pane, on } => self.diff_view(pane, on),
            Message::Comment { pane, line, body, author } => self.comment(pane, line, body, author),
            Message::Layout => Response::Report(self.report(area)),
            Message::Ready { session, agent } => self.ready(session, agent),
            Message::Feedback { .. } => Response::Done,
            Message::Update { .. } => Response::Done,
        }
    }
}


/// Closing the panel an `open` just added gives back the tab's tree and panels as they were.
pub proof fn lemma_close_undoes_open(
    t0: Tab,
    t1: Tab,
    t2: Tab,
    r1: Response,
    r2: Response,
    panel: Panel,
    split: Option<PaneId>,
    dir: Dir,
    ratio: u16,
    side: Side,
    focus: bool,
    follow: bool,
    highlight: Option<(u32, u32)>,
    diff: bool,
    area: Rect,
)
    requires
        t0.wf(),
        open_ok(t0, t1, r1, panel, split, dir, ratio, side, focus, follow, false, highlight, diff, area),
        r1 is Opened,
        close_ok(t1, t2, r2, Some(r1->pane), false),
    ensures
        t2.layout == t0.layout,
        t2.panels@ == t0.panels@,
{
    let target = t0.open_target(split);
    let id = t0.next_pane;
    assert(t0.layout.leaves().contains(target));
    assert(!t0.layout.leaves().contains(id)) by {
        if t0.layout.leaves().contains(id) {
            assert(id < t0.next_pane);
        }
    }
    crate::layout::lemma_close_undoes_open(t0.layout, target, dir, ratio, side, id);
    crate::layout::lemma_split_adds_fresh_leaf(t0.layout, target, dir, ratio, side, id);
    assert(t1.layout.leaves().contains(id));
    assert(id != PTY_PANE) by {
        assert(t0.layout.leaves().contains(PTY_PANE));
    }
    assert(t2.panels@ =~= t0.panels@) by {
        assert forall|k: PaneId| t0.panels@.contains_key(k) implies t1.panels@.contains_key(k) by {}
        assert(!t0.panels@.contains_key(id));
    }
}

} // verus!
