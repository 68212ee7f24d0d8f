//! Pure split-tree ops: `split` nests, `rects` geometry is exact for nested splits, `remove`
//! collapses to the sibling, `remove(PTY)` errors.

use laura::protocol::{Dir, Side};
use laura::{rects, Layout, Rect, PTY_PANE};

#[test]
fn split_nests_and_orders() {
    let mut l = Layout::Pane(PTY_PANE);
    l.split(PTY_PANE, Dir::Horizontal, 40, Side::Second, 1).unwrap();
    l.split(1, Dir::Vertical, 30, Side::Second, 2).unwrap();

    assert_eq!(l.order(), vec![0, 1, 2]);
    assert!(l.contains(0) && l.contains(1) && l.contains(2));

    // Splitting an absent pane errors.
    assert!(l.split(99, Dir::Horizontal, 50, Side::Second, 3).is_err());
}

#[test]
fn rects_geometry_is_exact() {
    let mut l = Layout::Pane(PTY_PANE);
    l.split(PTY_PANE, Dir::Horizontal, 40, Side::Second, 1).unwrap();
    let area = Rect::new(0, 0, 100, 40);
    let map = rects(&l, area);

    // `--ratio 40` sizes the new pane (1, on `second`); existing pane 0 keeps the rest.
    assert_eq!(map[&0], Rect::new(0, 0, 60, 40), "existing = remainder");
    assert_eq!(map[&1], Rect::new(60, 0, 40, 40), "new pane = 40%");

    // Nest a vertical split into pane 1; new pane 2 gets 25% of pane 1's rect.
    l.split(1, Dir::Vertical, 25, Side::Second, 2).unwrap();
    let map = rects(&l, area);
    assert_eq!(map[&0], Rect::new(0, 0, 60, 40));
    assert_eq!(map[&1], Rect::new(60, 0, 40, 30), "pane 1 keeps 75%");
    assert_eq!(map[&2], Rect::new(60, 30, 40, 10), "new pane = bottom 25%");
}

#[test]
fn remove_collapses_to_sibling() {
    let mut l = Layout::Pane(PTY_PANE);
    l.split(PTY_PANE, Dir::Horizontal, 50, Side::Second, 1).unwrap();
    l.split(1, Dir::Horizontal, 50, Side::Second, 2).unwrap();
    assert_eq!(l.order(), vec![0, 1, 2]);

    l.remove(1).unwrap();
    assert_eq!(l.order(), vec![0, 2], "sibling subtree replaces the split");
    assert!(!l.contains(1));

    // The PTY can't be closed.
    assert!(l.remove(PTY_PANE).is_err());
    // Removing an absent pane errors.
    assert!(l.remove(99).is_err());
}

#[test]
fn split_errors_name_the_pane_and_leave_the_tree_alone() {
    let mut l = Layout::Pane(PTY_PANE);
    assert_eq!(l.split(7, Dir::Vertical, 50, Side::First, 1), Err("no pane #7".to_string()));
    assert_eq!(l.order(), vec![0]);
    assert_eq!(l.remove(0), Err("the shell pane can't be closed".to_string()));
    assert_eq!(l.remove(12), Err("no pane #12".to_string()));
}

#[test]
fn split_on_the_first_side_puts_the_new_pane_first_and_clamps_the_ratio() {
    let mut l = Layout::Pane(PTY_PANE);
    l.split(PTY_PANE, Dir::Horizontal, 0, Side::First, 5).unwrap();
    assert_eq!(l.order(), vec![5, 0]);
    match &l {
        Layout::Split { ratio, .. } => assert_eq!(*ratio, 1),
        _ => panic!("expected a split"),
    }
    let map = rects(&l, Rect::new(0, 0, 100, 10));
    assert_eq!(map[&5], Rect::new(0, 0, 1, 10));
    assert_eq!(map[&0], Rect::new(1, 0, 99, 10));
}

#[test]
fn removing_keeps_the_order_of_the_other_panes() {
    let mut l = Layout::Pane(PTY_PANE);
    for id in 1..=4u64 {
        l.split(id - 1, Dir::Vertical, 50, Side::Second, id).unwrap();
    }
    l.remove(2).unwrap();
    assert_eq!(l.order(), vec![0, 1, 3, 4]);
}

#[test]
fn rect_new_clips_to_the_coordinate_space() {
    let r = Rect::new(65530, 65535, 10, 3);
    assert_eq!(r.width, 5);
    assert_eq!(r.height, 0);
    assert_eq!(Rect::new(1, 2, 3, 4).right(), 4);
    assert_eq!(Rect::new(1, 2, 3, 4).bottom(), 6);
}

#[test]
fn every_cell_of_the_area_hits_exactly_one_pane() {
    let mut l = Layout::Pane(PTY_PANE);
    l.split(PTY_PANE, Dir::Horizontal, 40, Side::Second, 1).unwrap();
    l.split(1, Dir::Vertical, 30, Side::Second, 2).unwrap();
    let area = Rect::new(0, 0, 100, 40);
    let map = rects(&l, area);
    for (id, r) in &map {
        assert_eq!(laura::layout::pane_at_point(&l, area, &map, r.x, r.y), Some(*id));
        let (rx, ry) = (r.x + r.width - 1, r.y + r.height - 1);
        assert_eq!(laura::layout::pane_at_point(&l, area, &map, rx, ry), Some(*id));
    }
    assert_eq!(laura::layout::pane_at_point(&l, area, &map, 100, 0), None);
    assert_eq!(laura::layout::pane_at_point(&l, area, &map, 0, 40), None);
    for x in 0..100u16 {
        for y in 0..40u16 {
            let hits = map
                .values()
                .filter(|r| x >= r.x && x < r.x + r.width && y >= r.y && y < r.y + r.height)
                .count();
            assert_eq!(hits, 1, "cell ({x}, {y})");
        }
    }
}
