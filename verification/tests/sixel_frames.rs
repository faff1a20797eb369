use qframe::kitty::PlaceKey;
use qframe::sixel_frames::{move_to, SixelPictures};

fn place(cells: (u16, u16, u16, u16)) -> PlaceKey {
    PlaceKey {
        id: 7,
        number: 1,
        column: cells.0,
        row: cells.1,
        columns: cells.2,
        rows: cells.3,
        x: 0,
        y: 0,
        width: 4,
        height: 4,
    }
}

fn moved(column: u16, row: u16) -> String {
    let mut out = Vec::new();
    move_to(&mut out, column, row);
    String::from_utf8(out).expect("ASCII")
}

#[test]
fn a_screen_of_another_size_gets_its_pictures_again_and_nothing_to_repaint() {
    let placement = place((1, 1, 2, 1));
    let (small, large) = ((0, 0, 6, 3), (0, 0, 8, 4));
    let mut sixels = SixelPictures::new();
    let first = sixels.frame(std::slice::from_ref(&placement), None, small);
    assert_eq!(first.write, [0]);
    assert_eq!(moved(placement.column, placement.row), "\x1b[2;2H");
    let same = vec![true; 18];
    let idle = sixels.frame(std::slice::from_ref(&placement), Some(&same), small);
    assert!(idle.write.is_empty() && idle.repaint.is_empty());
    // A screen of another size was cleared, so its cells are not known.
    let resized = sixels.frame(std::slice::from_ref(&placement), None, large);
    assert_eq!(resized.write, first.write, "the terminal was cleared for the new size");
    let gone = sixels.frame(&[], None, large);
    assert!(gone.repaint.is_empty() && gone.write.is_empty(), "a cleared screen keeps no pixels to cover");
}

#[test]
fn a_place_no_longer_shown_repaints_the_cells_the_frame_left_alone() {
    let placement = place((1, 1, 2, 2));
    let area = (0, 0, 6, 4);
    let mut same = vec![true; 24];
    same[2 * 6 + 2] = false;
    let mut sixels = SixelPictures::new();
    sixels.frame(std::slice::from_ref(&placement), None, area);
    let gone = sixels.frame(&[], Some(&same), area);
    assert_eq!(gone.repaint, [(1, 1), (2, 1), (1, 2)], "the changed cell is written anyway");
    assert!(gone.write.is_empty());
}

#[test]
fn a_place_whose_cells_were_written_is_written_again() {
    let (kept, hit) = (place((0, 0, 2, 1)), place((3, 2, 2, 2)));
    let area = (0, 0, 6, 4);
    let mut sixels = SixelPictures::new();
    let first = sixels.frame(&[kept, hit], None, area);
    assert_eq!(first.write, [0, 1]);
    let mut same = vec![true; 24];
    same[3 * 6 + 4] = false;
    let next = sixels.frame(&[kept, hit], Some(&same), area);
    assert_eq!(next.write, [1]);
    assert!(next.repaint.is_empty());
}

#[test]
fn a_moved_place_is_written_and_its_old_cells_repainted_once() {
    let (old, new) = (place((0, 0, 2, 1)), place((1, 0, 2, 1)));
    let area = (0, 0, 4, 2);
    let mut sixels = SixelPictures::new();
    sixels.frame(&[old, old], None, area);
    let same = vec![true; 8];
    let next = sixels.frame(&[new], Some(&same), area);
    assert_eq!(next.write, [0]);
    assert_eq!(next.repaint, [(0, 0), (1, 0)], "each cell once, though two places covered it");
}

#[test]
fn a_place_too_small_for_a_band_is_not_written() {
    let mut sixels = SixelPictures::new();
    sixels.set_cell((7, 5));
    let frame = sixels.frame(&[place((0, 0, 3, 1))], None, (0, 0, 6, 4));
    assert!(frame.write.is_empty(), "five pixels make no band of six");
    sixels.set_cell((0, 9));
    let frame = sixels.frame(&[place((0, 0, 3, 2))], None, (0, 0, 6, 4));
    assert_eq!(frame.write, [0], "a size with no pixel is ignored: two rows of five make a band");
}

#[test]
fn a_released_screen_gets_every_place_again() {
    let placement = place((1, 1, 2, 1));
    let area = (0, 0, 6, 3);
    let same = vec![true; 18];
    let mut sixels = SixelPictures::new();
    sixels.frame(std::slice::from_ref(&placement), None, area);
    sixels.release();
    let again = sixels.frame(std::slice::from_ref(&placement), Some(&same), area);
    assert_eq!(again.write, [0]);
    assert!(again.repaint.is_empty());
}

#[test]
fn the_cursor_goes_to_the_first_cell_counted_from_one() {
    assert_eq!(moved(0, 0), "\x1b[1;1H");
    assert_eq!(moved(11, 204), "\x1b[205;12H");
}
