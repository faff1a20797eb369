use qframe::lines::{Lines, Piece, MAX_LINE};

/// Feeds `bytes` in one go and ends the stream, returning the lines and the overwritten frames.
fn split_keeping_frames(bytes: &[u8]) -> (Vec<String>, Vec<String>) {
    let mut lines = Lines::default();
    let mut out = Vec::new();
    lines.feed_keeping(bytes, true, &mut out);
    lines.finish_keeping(true, &mut out);
    split(out)
}

fn split(out: Vec<Piece>) -> (Vec<String>, Vec<String>) {
    let (mut seen, mut frames) = (Vec::new(), Vec::new());
    for piece in out {
        match piece {
            Piece::Line(line) => seen.push(line),
            Piece::Overwritten(frame) => frames.push(frame),
        }
    }
    (seen, frames)
}

#[test]
fn a_line_ended_twice_by_a_return_is_kept() {
    let mut lines = Lines::default();
    let mut seen = Vec::new();
    lines.feed(b"hazir\r\r\nbitti\r\r\r\n", &mut seen);
    assert_eq!(seen, vec!["hazir".to_owned(), "bitti".to_owned()]);
}

#[test]
fn a_long_line_is_never_cut_inside_a_character() {
    let mut lines = Lines::default();
    let mut seen: Vec<String> = Vec::new();
    // One byte of padding, so the two-byte `ç` straddles every piece boundary.
    let mut text = vec![b'a'];
    for _ in 0..MAX_LINE {
        text.extend_from_slice("ç".as_bytes());
    }
    lines.feed(&text, &mut seen);
    lines.finish(&mut seen);
    assert!(seen.len() > 1, "the line was split");
    assert!(seen.iter().all(|line| !line.contains('\u{fffd}')), "no character was cut in two");
    assert_eq!(seen.concat().as_bytes(), text.as_slice());
}

#[test]
fn a_line_split_across_reads_stays_one_line() {
    let mut lines = Lines::default();
    let mut seen = Vec::new();
    lines.feed(b"ilk par", &mut seen);
    lines.feed(b"\xc3", &mut seen);
    lines.feed(b"\xa7a\r\nson", &mut seen);
    lines.finish(&mut seen);
    assert_eq!(seen, vec!["ilk parça".to_owned(), "son".to_owned()]);
}

#[test]
fn frames_overwritten_by_a_return_are_kept_only_when_asked_for() {
    let (seen, frames) = split_keeping_frames(b"bir\riki\ruc\rbitti\r\n");
    assert_eq!(seen, vec!["bitti".to_owned()]);
    assert_eq!(frames, vec!["bir".to_owned(), "iki".to_owned(), "uc".to_owned()]);
    let mut lines = Lines::default();
    let mut seen = Vec::new();
    lines.feed(b"bir\riki\ruc\rbitti\r\n", &mut seen);
    lines.finish(&mut seen);
    assert_eq!(seen, vec!["bitti".to_owned()]);
}

#[test]
fn a_line_ended_by_returns_and_a_newline_is_no_frame() {
    let (seen, frames) = split_keeping_frames(b"hazir\r\r\nbitti\r\n\rbos\r\r\r\n");
    assert_eq!(seen, vec!["hazir".to_owned(), "bitti".to_owned(), "bos".to_owned()]);
    assert!(frames.is_empty(), "{frames:?}");
}

#[test]
fn a_stream_ending_in_a_return_delivers_its_last_frame() {
    let (seen, frames) = split_keeping_frames(b"once\r10%\r20%\r");
    assert!(seen.is_empty(), "{seen:?}");
    assert_eq!(frames, vec!["once".to_owned(), "10%".to_owned(), "20%".to_owned()]);
    // A return split from what follows it by a read still waits for that byte.
    let mut lines = Lines::default();
    let mut out = Vec::new();
    lines.feed_keeping(b"30%\r", true, &mut out);
    assert!(out.is_empty(), "a return before a newline is not yet known to overwrite");
    lines.feed_keeping(b"\n", true, &mut out);
    assert_eq!(split(out), (vec!["30%".to_owned()], Vec::new()));
}

#[test]
fn frames_keep_their_colour_and_erase_codes() {
    let (seen, frames) = split_keeping_frames(b"\x1b[1mFetch\x1b[0m 1\r\x1b[K\x1b[92mDone\x1b[0m\r\n");
    assert_eq!(frames, vec!["\x1b[1mFetch\x1b[0m 1".to_owned()]);
    assert_eq!(seen, vec!["\x1b[K\x1b[92mDone\x1b[0m".to_owned()]);
}

#[test]
fn carriage_returns_collapse_into_one_line() {
    let mut lines = Lines::default();
    let mut seen = Vec::new();
    lines.feed(b"a\rbb\rccc\n", &mut seen);
    assert_eq!(seen, vec!["ccc".to_owned()]);
}

#[test]
fn invalid_utf8_becomes_the_replacement_character() {
    let mut lines = Lines::default();
    let mut seen = Vec::new();
    lines.feed(b"a\xffb\n", &mut seen);
    assert_eq!(seen, vec!["a\u{fffd}b".to_owned()]);
}

#[test]
fn delivers_the_last_line_without_a_newline() {
    let mut lines = Lines::default();
    let mut seen = Vec::new();
    lines.feed(b"son satir", &mut seen);
    assert!(seen.is_empty());
    lines.finish(&mut seen);
    assert_eq!(seen, vec!["son satir".to_owned()]);
}

#[test]
fn a_line_without_an_end_is_delivered_in_pieces_of_bounded_size() {
    let mut lines = Lines::default();
    let mut seen: Vec<String> = Vec::new();
    let text = vec![b'a'; 300_000];
    for chunk in text.chunks(4096) {
        lines.feed(chunk, &mut seen);
    }
    lines.finish(&mut seen);
    assert!(seen.iter().all(|line| line.len() <= MAX_LINE && line.bytes().all(|byte| byte == b'a')));
    assert_eq!(seen.iter().map(String::len).sum::<usize>(), 300_000, "nothing is lost between the pieces");
}

#[test]
fn a_long_line_of_wide_characters_is_cut_between_them() {
    let text = "é".repeat(40_000) + "€€";
    let mut lines = Lines::default();
    let mut emit = Vec::new();
    lines.feed(text.as_bytes(), &mut emit);
    lines.finish(&mut emit);
    assert!(emit.len() >= 2);
    assert!(emit.iter().all(|piece| piece.len() <= MAX_LINE && !piece.contains('\u{FFFD}')));
    assert_eq!(emit.concat(), text, "nothing lost");
}

#[test]
fn a_short_line_is_one_piece_however_it_is_read() {
    let mut lines = Lines::default();
    let mut emit = Vec::new();
    for chunk in "ünïcode line".as_bytes().chunks(3) {
        lines.feed(chunk, &mut emit);
    }
    assert!(emit.is_empty());
    lines.finish(&mut emit);
    assert_eq!(emit, ["ünïcode line"]);
}
