use qframe::sixel::{encode, entry, percentages, pixel_size, runs, Rgb};

fn text(bytes: &[u8]) -> String {
    String::from_utf8(bytes.to_vec()).expect("sixel is ASCII")
}

#[test]
fn two_colours_give_the_exact_sequence() {
    let (red, blue) = (Rgb::new(255, 0, 0), Rgb::new(0, 0, 255));
    let pixels: Vec<Rgb> = (0..6).flat_map(|_| [red, blue]).collect();
    assert_eq!(
        text(&encode(&pixels, 2, 6)),
        "\x1bP0;1;0q\"1;1;2;6#5;2;0;0;100#210;2;100;0;0#5?~$#210~\x1b\\",
        "blue in the right column, red in the left, its empty end left out"
    );
}

#[test]
fn a_run_of_four_or_more_is_counted() {
    let white = Rgb::new(255, 255, 255);
    assert_eq!(text(&encode(&[white; 60], 10, 6)), "\x1bP0;1;0q\"1;1;10;6#251;2;100;100;100#251!10~\x1b\\");
    let pixels: Vec<Rgb> = (0..6).flat_map(|_| [white, white, white, Rgb::new(0, 0, 0)]).collect();
    assert!(
        text(&encode(&pixels, 4, 6)).ends_with("#0???~$#251~~~\x1b\\"),
        "three are shorter written out: {}",
        text(&encode(&pixels, 4, 6))
    );
}

#[test]
fn a_band_under_six_rows_sets_only_its_rows_and_bands_are_separated() {
    let grey = Rgb::new(128, 128, 128);
    let encoded = text(&encode(&[grey; 7], 1, 7));
    let index = entry(grey);
    assert!(encoded.ends_with(&format!("#{index}~-#{index}@\x1b\\")), "{encoded}");
}

#[test]
fn many_colours_share_at_most_256_palette_entries() {
    let (width, height) = (64u32, 48u32);
    let pixels: Vec<Rgb> = (0..width * height)
        .map(|at| {
            let byte = |shift: u32| u8::try_from((at.wrapping_mul(2_654_435_761) >> shift) & 255).expect("a byte");
            Rgb::new(byte(0), byte(8), byte(16))
        })
        .collect();
    let mut distinct = pixels.clone();
    distinct.sort_by_key(|pixel| (pixel.r, pixel.g, pixel.b));
    distinct.dedup();
    assert!(distinct.len() > 1000, "{} colours in", distinct.len());
    let encoded = text(&encode(&pixels, width, height));
    let entries = encoded.matches(";2;").count();
    assert!(entries <= 256 && entries > 100, "{entries} palette entries");
    for (index, _) in encoded.match_indices('#') {
        let number: String = encoded[index + 1..].chars().take_while(char::is_ascii_digit).collect();
        assert!(number.parse::<u32>().expect("an entry") < 256);
    }
}

#[test]
fn the_palette_spans_black_to_white_in_every_channel() {
    assert_eq!(percentages(entry(Rgb::new(0, 0, 0))), (0, 0, 0));
    assert_eq!(percentages(entry(Rgb::new(255, 255, 255))), (100, 100, 100));
    assert_eq!(percentages(entry(Rgb::new(0, 128, 0))), (0, 50, 0), "green has a middle level");
    assert_eq!(percentages(entry(Rgb::new(102, 0, 0))), (40, 0, 0));
}

#[test]
fn the_height_is_whole_bands_within_the_cells() {
    for cell in [(10, 20), (9, 17), (8, 16), (12, 25), (7, 5)] {
        for rows in 1..=12u16 {
            let (width, height) = pixel_size((3, rows), cell);
            let room = u32::from(rows) * u32::from(cell.1);
            assert_eq!(width, 3 * u32::from(cell.0));
            assert_eq!(height % 6, 0, "{cell:?} {rows}");
            assert!(height <= room && height + 6 > room, "{height} in {room}");
            if height == 0 {
                continue;
            }
            let pixels = vec![Rgb::new(10, 20, 30); usize::try_from(width * height).expect("small")];
            let encoded = text(&encode(&pixels, width, height));
            assert!(encoded.contains(&format!("\"1;1;{width};{height}#")));
            let bands = u32::try_from(encoded.matches('-').count()).expect("few") + 1;
            assert_eq!(bands * 6, height, "{bands} bands for {height} pixels");
        }
    }
}

#[test]
fn an_empty_picture_is_its_header_and_end() {
    assert_eq!(text(&encode(&[], 0, 0)), "\x1bP0;1;0q\"1;1;0;0\x1b\\");
}

#[test]
fn runs_count_repeats_and_leave_out_the_empty_end() {
    let mut out = Vec::new();
    runs(&mut out, &[1, 1, 1, 1, 2, 0, 0]);
    assert_eq!(out, b"!4@A");
    let mut wide = Vec::new();
    runs(&mut wide, &[100, 100, 100, 100]);
    assert_eq!(wide, [33, 52, 163], "any value that fits a byte once raised by 63");
}
