use qframe::geometry::{Cells, Rect};
use qframe::selection::{CopyKind, Press, Selection, MULTI_PRESS};

/// The cells of `rows`, one character a cell, at the top left of the screen.
fn cells(rows: &[&str]) -> Cells {
    let width = rows.iter().map(|row| row.chars().count()).max().unwrap_or(0);
    let mut symbols = Vec::new();
    for row in rows {
        let mut chars: Vec<String> = row.chars().map(|c| c.to_string()).collect();
        chars.resize(width, " ".to_owned());
        symbols.extend(chars);
    }
    Cells::new(Rect::new(0, 0, width as u16, rows.len() as u16), symbols)
}

fn press(at: (i32, i32), count: u8) -> Press {
    Press { at, time: 0, count }
}

#[test]
fn presses_close_together_count_up_to_three_and_start_over() {
    let first = Press::next(None, (3, 1), 0);
    assert_eq!(first.count, 1);
    let second = Press::next(Some(first), (3, 1), MULTI_PRESS - 1);
    assert_eq!(second.count, 2);
    let third = Press::next(Some(second), (3, 1), MULTI_PRESS);
    assert_eq!(third.count, 3);
    let fourth = Press::next(Some(third), (3, 1), MULTI_PRESS + 10);
    assert_eq!(fourth.count, 1);
    assert_eq!(Press::next(Some(first), (4, 1), 10).count, 1, "another cell");
    assert_eq!(Press::next(Some(first), (3, 1), MULTI_PRESS).count, 1, "too late");
}

#[test]
fn an_empty_region_selects_nothing() {
    assert!(Selection::start(Rect::new(0, 0, 0, 3), 1, None, None, press((0, 0), 1)).is_none());
    assert!(Selection::start(Rect::new(0, 0, 3, 0), 1, None, None, press((0, 0), 1)).is_none());
}

#[test]
fn a_plain_press_selects_nothing_until_it_moves() {
    let screen = cells(&["hello world"]);
    let mut selection = Selection::start(Rect::new(0, 0, 11, 1), 1, None, None, press((2, 0), 1)).expect("a region");
    selection.drag_to(2, 0);
    assert!(!selection.release(), "nothing was selected");
    let mut selection = Selection::start(Rect::new(0, 0, 11, 1), 1, None, None, press((2, 0), 1)).expect("a region");
    selection.drag_to(7, 0);
    assert!(selection.release());
    assert_eq!(selection.text(&screen, &Vec::new(), CopyKind::Raw), "llo wo");
}

#[test]
fn dragging_stays_inside_the_region() {
    let screen = cells(&["abcdef", "ghijkl", "mnopqr"]);
    let region = Rect::new(1, 0, 4, 2);
    let mut selection = Selection::start(region, 1, None, None, press((2, 0), 1)).expect("a region");
    selection.drag_to(40, 40);
    assert_eq!(selection.text(&screen, &Vec::new(), CopyKind::Raw), "cde\nhijk");
    selection.drag_to(-5, -5);
    assert_eq!(selection.text(&screen, &Vec::new(), CopyKind::Raw), "bc");
}

#[test]
fn a_double_press_selects_a_word_and_a_triple_press_a_line() {
    let screen = cells(&["run ./deploy.sh --now", "second line"]);
    let region = Rect::new(0, 0, 21, 2);
    let word = Selection::start(region, 1, None, None, press((8, 0), 2)).expect("a region");
    assert_eq!(word.text(&screen, &Vec::new(), CopyKind::Raw), "./deploy.sh");
    let line = Selection::start(region, 1, None, None, press((8, 1), 3)).expect("a region");
    assert_eq!(line.text(&screen, &Vec::new(), CopyKind::Clean), "second line");
    assert_eq!(line.text(&screen, &Vec::new(), CopyKind::Raw), "second line          ");
}

#[test]
fn a_clean_copy_leaves_out_decorations_and_padding() {
    let screen = cells(&["│ alpha   ", "│ beta    ", "│         "]);
    let region = Rect::new(0, 0, 10, 3);
    let mut selection = Selection::start(region, 1, None, None, press((0, 0), 1)).expect("a region");
    selection.drag_to(9, 2);
    let pillar = vec![Rect::new(0, 0, 1, 3)];
    assert_eq!(selection.text(&screen, &pillar, CopyKind::Clean), " alpha\n beta\n");
    assert_eq!(selection.text(&screen, &pillar, CopyKind::Raw), "│ alpha   \n│ beta    \n│         ");
    let whole = vec![Rect::new(0, 2, 10, 1), Rect::new(0, 0, 1, 2)];
    assert_eq!(selection.text(&screen, &whole, CopyKind::Clean), " alpha\n beta", "a row made only of decoration is left out");
}

#[test]
fn the_selection_follows_its_widget() {
    let region = Rect::new(0, 0, 20, 10);
    let mut selection =
        Selection::start(region, 1, None, Some((2, Rect::new(0, 0, 20, 30))), press((3, 4), 1)).expect("a region");
    selection.drag_to(6, 5);
    assert!(selection.follow(Some(region), Some(Rect::new(0, -2, 20, 30))), "the content scrolled by two rows");
    let screen = cells(&["aaaaaaaaaa", "bbbbbbbbbb", "cccccccccc", "dddddddddd"]);
    assert_eq!(selection.text(&screen, &Vec::new(), CopyKind::Raw), "ccccccc\nddddddd", "the same text, two rows up");
    assert!(!selection.follow(Some(region), None), "the widget is gone");
    assert!(!selection.follow(None, Some(Rect::new(0, 0, 20, 30))), "the region is gone");
}

#[test]
fn painted_rows_are_what_contains_reads() {
    let screen = cells(&["abcdef", "ghijkl"]);
    let mut selection = Selection::start(Rect::new(0, 0, 6, 2), 1, None, None, press((4, 0), 1)).expect("a region");
    assert_eq!(selection.paint_rows(&screen), Vec::new(), "nothing selected yet");
    selection.drag_to(1, 1);
    let rows = selection.paint_rows(&screen);
    assert_eq!(rows, vec![Rect::new(4, 0, 2, 1), Rect::new(0, 1, 2, 1)]);
    assert!(selection.contains(5, 0));
    assert!(selection.contains(1, 1));
    assert!(!selection.contains(2, 1));
}

#[test]
fn a_copy_flashes_for_a_while() {
    let mut selection = Selection::start(Rect::new(0, 0, 6, 2), 1, None, None, press((4, 0), 2)).expect("a region");
    assert_eq!(selection.flash(5, 100), (false, None));
    selection.copied(1000);
    assert_eq!(selection.flash(1040, 100), (true, Some(60)));
    assert_eq!(selection.flash(1100, 100), (false, None));
}
