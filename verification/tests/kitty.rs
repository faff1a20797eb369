use qframe::kitty::{number, KittyPictures, Picture, Placement};
use qframe::sixel::Rgb;

fn picture(id: u64) -> Picture {
    Picture { id, width: 2, height: 1, pixels: vec![Rgb::new(1, 2, 3), Rgb::new(4, 5, 6)] }
}

fn placed(id: u64, number: u32, column: u16) -> Placement {
    Placement { data: picture(id), number, cells: (column, 1, 2, 1), crop: (0, 0, 2, 1) }
}

fn text(bytes: &[u8]) -> String {
    String::from_utf8(bytes.to_vec()).expect("ASCII")
}

#[test]
fn a_new_picture_is_sent_once_and_placed() {
    let mut pictures = KittyPictures::new();
    let first = text(&pictures.commands(&[placed(7, 1, 0), placed(7, 2, 4)], &[]));
    assert_eq!(first.matches("a=t,").count(), 1, "the pixels cross the wire once: {first}");
    assert!(first.contains("\x1b_Ga=t,f=24,o=z,s=2,v=1,i=7,q=2,m=0;"), "{first}");
    assert_eq!(first.matches("a=p,").count(), 2);
    assert!(first.ends_with("\x1b[2;5H\x1b_Ga=p,i=7,p=2,x=0,y=0,w=2,h=1,c=2,r=1,z=-1,C=1,q=2\x1b\\"), "{first}");
}

#[test]
fn the_same_places_again_write_nothing() {
    let mut pictures = KittyPictures::new();
    pictures.commands(&[placed(7, 1, 0)], &[]);
    assert!(pictures.commands(&[placed(7, 1, 0)], &[]).is_empty());
}

#[test]
fn a_moved_picture_is_placed_again_without_its_pixels() {
    let mut pictures = KittyPictures::new();
    pictures.commands(&[placed(7, 1, 0)], &[]);
    let moved = text(&pictures.commands(&[placed(7, 1, 3)], &[]));
    assert_eq!(moved, "\x1b[2;4H\x1b_Ga=p,i=7,p=1,x=0,y=0,w=2,h=1,c=2,r=1,z=-1,C=1,q=2\x1b\\");
}

#[test]
fn a_picture_no_longer_shown_is_freed_and_one_painted_keeps_its_pixels() {
    let mut pictures = KittyPictures::new();
    pictures.commands(&[placed(7, 1, 0), placed(8, 1, 4)], &[]);
    let next = text(&pictures.commands(&[], &[8]));
    assert_eq!(next, "\x1b_Ga=d,d=I,i=7,q=2\x1b\\\x1b_Ga=d,d=i,i=8,p=1,q=2\x1b\\");
    let back = text(&pictures.commands(&[placed(8, 1, 4)], &[]));
    assert!(!back.contains("a=t,"), "painted pixels stayed in the terminal: {back}");
}

#[test]
fn release_frees_every_picture_and_forget_sends_them_again() {
    let mut pictures = KittyPictures::new();
    pictures.commands(&[placed(7, 1, 0), placed(9, 1, 4)], &[]);
    assert_eq!(text(&pictures.release()), "\x1b_Ga=d,d=I,i=7,q=2\x1b\\\x1b_Ga=d,d=I,i=9,q=2\x1b\\");
    assert!(pictures.release().is_empty());
    let mut pictures = KittyPictures::new();
    pictures.commands(&[placed(7, 1, 0)], &[]);
    pictures.forget();
    let again = text(&pictures.commands(&[placed(7, 1, 0)], &[]));
    assert_eq!((again.matches("a=t,").count(), again.matches("a=p,").count()), (1, 1));
    pictures.resized();
    let placed_again = text(&pictures.commands(&[placed(7, 1, 0)], &[]));
    assert_eq!((placed_again.matches("a=t,").count(), placed_again.matches("a=p,").count()), (0, 1));
}

#[test]
fn picture_numbers_stay_in_range_and_are_never_zero() {
    assert_eq!(number(0), 1);
    assert_eq!(number(1), 1);
    assert_eq!(number(42), 42);
    assert_eq!(number(u64::from(u32::MAX)), u32::MAX);
    assert_eq!(number(u64::from(u32::MAX) + 1), 1);
}
