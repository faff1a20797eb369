//! Pictures for a terminal that speaks sixel: the pixels written over the cells, reduced to a
//! fixed palette of 252 colours — six levels of red and blue, seven of green, to which the eye is
//! most sensitive — and painted six rows at a time, colour by colour.

use vstd::prelude::*;

use crate::decimal::{decimal, push_decimal, put};

verus! {

/// A colour of a pixel.
#[derive(Debug, Clone, Copy, PartialEq, Eq)]
pub struct Rgb {
    pub r: u8,
    pub g: u8,
    pub b: u8,
}

impl Rgb {
    pub fn new(r: u8, g: u8, b: u8) -> (rgb: Self)
        ensures
            rgb == (Rgb { r, g, b }),
    {
        Rgb { r, g, b }
    }
}

/// The size of a cell in pixels when the terminal does not say: a common one at ordinary sizes.
pub const CELL: (u16, u16) = (10, 20);

/// Levels of red in the palette.
pub const RED_LEVELS: u32 = 6;
/// Levels of green in the palette.
pub const GREEN_LEVELS: u32 = 7;
/// Levels of blue in the palette.
pub const BLUE_LEVELS: u32 = 6;
/// Entries in the palette.
pub const ENTRIES: usize = 252;

/// The level out of `levels` nearest to the channel value `value`.
pub open spec fn level(value: u8, levels: u32) -> int {
    (value * (levels - 1) + 127) / 255
}

/// The palette entry closest to `pixel`: each channel to its nearest level.
pub open spec fn entry_of(pixel: Rgb) -> int {
    (level(pixel.r, RED_LEVELS) * GREEN_LEVELS + level(pixel.g, GREEN_LEVELS)) * BLUE_LEVELS + level(
        pixel.b,
        BLUE_LEVELS,
    )
}

/// The percentage sixel takes for `level` out of `levels`, rounded half up.
pub open spec fn percent(level: int, levels: int) -> int {
    (level * 200 + (levels - 1)) / (2 * (levels - 1))
}

/// The colour of palette entry `index`, in the percentages sixel takes.
pub open spec fn percentages_of(index: int) -> (int, int, int) {
    (
        percent(index / (GREEN_LEVELS * BLUE_LEVELS) as int, RED_LEVELS as int),
        percent(index / BLUE_LEVELS as int % GREEN_LEVELS as int, GREEN_LEVELS as int),
        percent(index % BLUE_LEVELS as int, BLUE_LEVELS as int),
    )
}

/// The nearest level of a channel, computed.
fn nearest(value: u8, levels: u32) -> (l: u32)
    requires
        2 <= levels <= 7,
    ensures
        l == level(value, levels),
        l < levels,
{
    assert(value as u32 * (levels - 1) <= 255 * 6) by (nonlinear_arith)
        requires value <= 255, levels <= 7, levels >= 2;
    let l = (value as u32 * (levels - 1) + 127) / 255;
    assert(l < levels) by (nonlinear_arith)
        requires l == (value as u32 * (levels - 1) + 127) / 255, value <= 255, levels >= 2;
    l
}

/// The palette entry closest to `pixel`.
pub fn entry(pixel: Rgb) -> (index: usize)
    ensures
        index == entry_of(pixel),
        index < ENTRIES,
{
    let (r, g, b) = (nearest(pixel.r, RED_LEVELS), nearest(pixel.g, GREEN_LEVELS), nearest(pixel.b, BLUE_LEVELS));
    ((r * GREEN_LEVELS + g) * BLUE_LEVELS + b) as usize
}

/// The percentage of one level.
fn percent_of(level: u32, levels: u32) -> (p: u32)
    requires
        2 <= levels <= 7,
        level * 200 + 6 <= u32::MAX,
    ensures
        p == percent(level as int, levels as int),
{
    (level * 200 + (levels - 1)) / (2 * (levels - 1))
}

/// The colour of palette entry `index`, in the percentages sixel takes. An index beyond the
/// range of `u32` is taken as entry 0.
pub fn percentages(index: usize) -> (p: (u32, u32, u32))
    requires
        index > u32::MAX || index / 42 <= 21_474_836,
    ensures
        index <= u32::MAX ==> p == ((percentages_of(index as int).0) as u32, (percentages_of(index as int).1) as u32, (
        percentages_of(index as int).2) as u32),
        index > u32::MAX ==> p == (0u32, 0u32, 0u32),
        index < ENTRIES ==> p.0 <= 100 && p.1 <= 100 && p.2 <= 100,
{
    let index: u32 = if index <= u32::MAX as usize { index as u32 } else { 0 };
    let (r, g, b) = (index / (GREEN_LEVELS * BLUE_LEVELS), index / BLUE_LEVELS % GREEN_LEVELS, index % BLUE_LEVELS);
    let p = (percent_of(r, RED_LEVELS), percent_of(g, GREEN_LEVELS), percent_of(b, BLUE_LEVELS));
    proof {
        if index < 252 {
            assert(r <= 5 && g <= 6 && b <= 5);
            assert(percent(r as int, 6) <= 100) by (nonlinear_arith) requires r <= 5;
            assert(percent(g as int, 7) <= 100) by (nonlinear_arith) requires g <= 6;
            assert(percent(b as int, 6) <= 100) by (nonlinear_arith) requires b <= 5;
        }
        if index == 0 {
            assert(r == 0 && g == 0 && b == 0);
            assert((0int * 200 + 5) / 10 == 0) by (nonlinear_arith);
            assert((0int * 200 + 6) / 12 == 0) by (nonlinear_arith);
        }
    }
    p
}

/// The pixels a picture over `cells` (columns, rows) is shrunk to, for cells of `cell` pixels:
/// every pixel across, and down to the last whole band of six, so the picture never reaches
/// past its last row.
pub fn pixel_size(cells: (u16, u16), cell: (u16, u16)) -> (size: (u32, u32))
    ensures
        size.0 == cells.0 * cell.0,
        size.1 == (cells.1 * cell.1) / 6 * 6,
        size.1 % 6 == 0,
        size.1 <= cells.1 * cell.1 < size.1 + 6,
{
    assert(cells.0 as u32 * cell.0 as u32 <= 65535 * 65535) by (nonlinear_arith)
        requires cells.0 <= 65535, cell.0 <= 65535;
    assert(cells.1 as u32 * cell.1 as u32 <= 65535 * 65535) by (nonlinear_arith)
        requires cells.1 <= 65535, cell.1 <= 65535;
    let width = cells.0 as u32 * cell.0 as u32;
    let height = cells.1 as u32 * cell.1 as u32;
    (width, height / 6 * 6)
}

/// How many bits from `at` on, before `end`, equal the one at `at`.
pub open spec fn run_len(bits: Seq<u8>, at: int, end: int) -> int
    decreases end - at,
{
    if at + 1 < end && bits[at + 1] == bits[at] {
        1 + run_len(bits, at + 1, end)
    } else {
        1
    }
}

/// `count` copies of `byte`.
pub open spec fn repeated(byte: u8, count: nat) -> Seq<u8> {
    Seq::new(count, |i: int| byte)
}

/// The sixels of `bits` from `at` to `end`: a run of four or more is written as `!`, its count
/// and the sixel; a shorter one written out.
pub open spec fn runs_from(bits: Seq<u8>, at: int, end: int) -> Seq<u8>
    decreases end - at,
{
    if at >= end {
        Seq::empty()
    } else {
        let length = run_len(bits, at, end);
        let sixel = (63 + bits[at]) as u8;
        let written = if length >= 4 {
            seq![33u8] + decimal(length as nat) + seq![sixel]
        } else {
            repeated(sixel, length as nat)
        };
        if length <= 0 || at + length > end { Seq::empty() } else { written + runs_from(bits, at + length, end) }
    }
}

/// Where the sixels of `bits` end: after the last one that is not empty.
pub open spec fn trimmed_end(bits: Seq<u8>) -> int
    decreases bits.len(),
{
    if bits.len() == 0 {
        0
    } else if bits.last() != 0 {
        bits.len() as int
    } else {
        trimmed_end(bits.drop_last())
    }
}

/// One colour's sixels for a band, the empty ones at the end left out.
pub open spec fn runs_spec(bits: Seq<u8>) -> Seq<u8> {
    runs_from(bits, 0, trimmed_end(bits))
}

proof fn lemma_run_len_bounds(bits: Seq<u8>, at: int, end: int)
    requires
        at < end,
    ensures
        1 <= run_len(bits, at, end) <= end - at,
    decreases end - at,
{
    if at + 1 < end && bits[at + 1] == bits[at] {
        lemma_run_len_bounds(bits, at + 1, end);
    }
}

/// A run found by counting is the run of the spec: `length` equal bits from `at`, ended by
/// `end` or by a different bit.
proof fn lemma_run_len_is(bits: Seq<u8>, at: int, end: int, length: int)
    requires
        0 <= at,
        1 <= length,
        at + length <= end <= bits.len(),
        forall|j: int| at <= j < at + length ==> bits[j] == bits[at],
        at + length == end || bits[at + length] != bits[at],
    ensures
        run_len(bits, at, end) == length,
    decreases length,
{
    if length > 1 {
        lemma_run_len_is(bits, at + 1, end, length - 1);
    }
}

proof fn lemma_trimmed_end(bits: Seq<u8>)
    ensures
        0 <= trimmed_end(bits) <= bits.len(),
        forall|j: int| trimmed_end(bits) <= j < bits.len() ==> bits[j] == 0,
        trimmed_end(bits) > 0 ==> bits[trimmed_end(bits) - 1] != 0,
    decreases bits.len(),
{
    if bits.len() > 0 && bits.last() == 0 {
        lemma_trimmed_end(bits.drop_last());
        assert forall|j: int| trimmed_end(bits) <= j < bits.len() implies bits[j] == 0 by {
            if j < bits.len() - 1 {
                assert(bits.drop_last()[j] == bits[j]);
            }
        }
        if trimmed_end(bits) > 0 {
            assert(bits.drop_last()[trimmed_end(bits) - 1] == bits[trimmed_end(bits) - 1]);
        }
    }
}

/// Writes one colour's sixels for a band, `bits` a column each, with repeats of four or more
/// written as `!` and a count; the empty sixels at the end are left out. A sixel is `63` plus
/// its bits, so a value above 192 does not fit a byte; a band's bits never reach 64.
pub fn runs(out: &mut Vec<u8>, bits: &[u8])
    requires
        forall|i: int| 0 <= i < bits@.len() ==> #[trigger] bits@[i] <= 192,
    ensures
        final(out)@ == old(out)@ + runs_spec(bits@),
{
    let mut end = bits.len();
    assert(bits@.take(end as int) =~= bits@);
    while end > 0 && bits[end - 1] == 0
        invariant
            end <= bits@.len(),
            trimmed_end(bits@) == trimmed_end(bits@.take(end as int)),
        decreases end,
    {
        proof {
            assert(bits@.take(end as int).drop_last() =~= bits@.take(end - 1));
        }
        end = end - 1;
    }
    proof {
        if end > 0 {
            assert(bits@.take(end as int).last() == bits@[end - 1]);
        } else {
            assert(bits@.take(0) =~= Seq::<u8>::empty());
        }
    }
    let ghost start = out@;
    let mut at: usize = 0;
    while at < end
        invariant
            end == trimmed_end(bits@),
            end <= bits@.len(),
            at <= end,
            forall|i: int| 0 <= i < bits@.len() ==> #[trigger] bits@[i] <= 192,
            start + runs_spec(bits@) == out@ + runs_from(bits@, at as int, end as int),
        decreases end - at,
    {
        let bits_here = bits[at];
        let mut length: usize = 1;
        while at + length < end && bits[at + length] == bits_here
            invariant
                at < end <= bits@.len(),
                1 <= length <= end - at,
                bits_here == bits@[at as int],
                forall|j: int| at <= j < at + length ==> bits@[j] == bits_here,
            decreases end - at - length,
        {
            length = length + 1;
        }
        proof {
            lemma_run_len_is(bits@, at as int, end as int, length as int);
        }
        let sixel = 63 + bits_here;
        let ghost before = out@;
        if length >= 4 {
            out.push(33);
            push_decimal(out, length as u64);
            out.push(sixel);
            assert(out@ =~= before + (seq![33u8] + decimal(length as nat) + seq![sixel]));
        } else {
            let mut k: usize = 0;
            while k < length
                invariant
                    k <= length,
                    out@ == before + repeated(sixel, k as nat),
                decreases length - k,
            {
                out.push(sixel);
                assert(repeated(sixel, (k + 1) as nat) =~= repeated(sixel, k as nat).push(sixel));
                k = k + 1;
            }
        }
        proof {
            let written = if length >= 4 {
                seq![33u8] + decimal(length as nat) + seq![sixel]
            } else {
                repeated(sixel, length as nat)
            };
            assert(runs_from(bits@, at as int, end as int) == written + runs_from(bits@, at + length, end as int));
            assert(out@ == before + written);
            assert(before + runs_from(bits@, at as int, end as int) =~= before + written + runs_from(bits@, at + length, end as int));
        }
        at = at + length;
    }
    assert(runs_from(bits@, at as int, end as int) =~= Seq::<u8>::empty());
    assert(out@ + Seq::<u8>::empty() =~= out@);
}


/// The bit of a band's sixel for its row `offset`.
pub open spec fn bit(offset: int) -> int {
    if offset == 0 { 1 } else if offset == 1 { 2 } else if offset == 2 { 4 } else if offset == 3 { 8 } else if offset
        == 4 { 16 } else { 32 }
}

/// The palette entry of the pixel at row `top + offset`, column `column`.
pub open spec fn band_cell(pixels: Seq<Rgb>, columns: int, top: int, offset: int, column: int) -> int {
    entry_of(pixels[(top + offset) * columns + column])
}

/// The sixel of `column` for palette entry `e` in the band starting at row `top`, over its first
/// `offset` rows: a bit for every row whose pixel there is of that entry.
pub open spec fn band_value(pixels: Seq<Rgb>, columns: int, rows: int, top: int, e: int, column: int, offset: int) -> int
    decreases offset,
{
    if offset <= 0 {
        0
    } else {
        band_value(pixels, columns, rows, top, e, column, offset - 1) + if top + offset - 1 < rows
            && band_cell(pixels, columns, top, offset - 1, column) == e {
            bit(offset - 1)
        } else {
            0
        }
    }
}

/// The sixels of palette entry `e`, a column each, in the band starting at row `top`.
pub open spec fn band_bits(pixels: Seq<Rgb>, columns: int, rows: int, top: int, e: int) -> Seq<u8> {
    Seq::new(columns as nat, |c: int| band_value(pixels, columns, rows, top, e, c, 6) as u8)
}

/// Whether palette entry `e` is painted in the band starting at row `top`.
pub open spec fn in_band(pixels: Seq<Rgb>, columns: int, rows: int, top: int, e: int) -> bool {
    exists|o: int, c: int|
        0 <= o < 6 && top + o < rows && 0 <= c < columns && #[trigger] band_cell(pixels, columns, top, o, c) == e
}

/// The band starting at row `top`, for the palette entries below `k` painted in it: each
/// selects its colour and writes its sixels, separated by `$`.
pub open spec fn band_out(pixels: Seq<Rgb>, columns: int, rows: int, top: int, k: int) -> Seq<u8>
    decreases k,
{
    if k <= 0 {
        Seq::empty()
    } else {
        let before = band_out(pixels, columns, rows, top, k - 1);
        if in_band(pixels, columns, rows, top, k - 1) {
            before + (if before.len() > 0 { seq![36u8] } else { Seq::empty() }) + seq![35u8] + decimal(
                (k - 1) as nat,
            ) + runs_spec(band_bits(pixels, columns, rows, top, k - 1))
        } else {
            before
        }
    }
}

/// The first `t` bands, separated by `-`.
pub open spec fn bands(pixels: Seq<Rgb>, columns: int, rows: int, t: int) -> Seq<u8>
    decreases t,
{
    if t <= 0 {
        Seq::empty()
    } else {
        bands(pixels, columns, rows, t - 1) + (if t > 1 { seq![45u8] } else { Seq::empty() }) + band_out(
            pixels,
            columns,
            rows,
            6 * (t - 1),
            ENTRIES as int,
        )
    }
}

/// Whether a pixel among the first `count` is of palette entry `e`.
pub open spec fn used(pixels: Seq<Rgb>, count: int, e: int) -> bool {
    exists|i: int| 0 <= i < count && #[trigger] entry_of(pixels[i]) == e
}

/// The definition of palette entry `e`: its number and its colour in percentages.
pub open spec fn palette_entry(e: int) -> Seq<u8> {
    let (r, g, b) = percentages_of(e);
    seq![35u8] + decimal(e as nat) + seq![59u8, 50u8, 59u8] + decimal(r as nat) + seq![59u8] + decimal(g as nat)
        + seq![59u8] + decimal(b as nat)
}

/// The definitions of the palette entries below `k` that the first `count` pixels use.
pub open spec fn palette(pixels: Seq<Rgb>, count: int, k: int) -> Seq<u8>
    decreases k,
{
    if k <= 0 {
        Seq::empty()
    } else {
        palette(pixels, count, k - 1) + if used(pixels, count, k - 1) {
            palette_entry(k - 1)
        } else {
            Seq::empty()
        }
    }
}

/// The start of an image: a device control string that keeps what is under pixels of no
/// colour, then the size at square pixels.
pub open spec fn header(width: u32, height: u32) -> Seq<u8> {
    seq![27u8, 80u8, 48u8, 59u8, 49u8, 59u8, 48u8, 113u8, 34u8, 49u8, 59u8, 49u8, 59u8] + decimal(width as nat)
        + seq![59u8] + decimal(height as nat)
}

/// `pixels`, `width` × `height` row after row, as one sixel image: the header, the palette
/// entries used, the bands of six rows, and the string terminator.
pub open spec fn sixel_image(pixels: Seq<Rgb>, width: u32, height: u32) -> Seq<u8> {
    header(width, height) + palette(pixels, width * height, ENTRIES as int) + bands(
        pixels,
        width as int,
        height as int,
        (height + 5) / 6,
    ) + seq![27u8, 92u8]
}

proof fn lemma_cell_index(top: int, o: int, c: int, columns: int, rows: int)
    requires
        0 <= top,
        0 <= o,
        top + o < rows,
        0 <= c < columns,
    ensures
        0 <= (top + o) * columns + c < rows * columns,
        0 <= (top + o) * columns + c < columns * rows,
{
    assert(0 <= (top + o) * columns + c < rows * columns) by (nonlinear_arith)
        requires 0 <= top, 0 <= o, top + o < rows, 0 <= c < columns;
    assert(rows * columns == columns * rows) by (nonlinear_arith);
}

proof fn lemma_band_value_bounds(pixels: Seq<Rgb>, columns: int, rows: int, top: int, e: int, c: int, o: int)
    requires
        0 <= o <= 6,
    ensures
        0 <= band_value(pixels, columns, rows, top, e, c, o) < (if o == 0 { 1 } else { bit(o - 1) * 2 }),
    decreases o,
{
    if o > 0 {
        lemma_band_value_bounds(pixels, columns, rows, top, e, c, o - 1);
    }
}

/// The sixels of palette entry `e` for the band starting at row `top`.
fn band_bits_of(indices: &Vec<u8>, pixels: Ghost<Seq<Rgb>>, columns: usize, rows: usize, top: usize, e: u8) -> (bits: Vec<u8>)
    requires
        top < rows,
        columns * rows <= indices@.len(),
        columns * rows <= pixels@.len(),
        forall|i: int| 0 <= i < indices@.len() ==> #[trigger] indices@[i] == entry_of(pixels@[i]),
    ensures
        bits@ == band_bits(pixels@, columns as int, rows as int, top as int, e as int),
        forall|i: int| 0 <= i < bits@.len() ==> #[trigger] bits@[i] < 64,
{
    let mut bits: Vec<u8> = Vec::new();
    let n = indices.len();
    let mut c: usize = 0;
    while c < columns
        invariant
            n == indices@.len(),
            c <= columns,
            top < rows,
            columns * rows <= indices@.len(),
            columns * rows <= pixels@.len(),
            forall|i: int| 0 <= i < indices@.len() ==> #[trigger] indices@[i] == entry_of(pixels@[i]),
            bits@.len() == c,
            forall|i: int| 0 <= i < c ==> #[trigger] bits@[i] == band_value(pixels@, columns as int, rows as int, top as int, e as int, i, 6) as u8,
            forall|i: int| 0 <= i < c ==> #[trigger] bits@[i] < 64,
        decreases columns - c,
    {
        let mut value: u8 = 0;
        let mut o: usize = 0;
        let mut power: u8 = 1;
        while o < 6
            invariant
                n == indices@.len(),
                o <= 6,
                c < columns,
                top < rows,
                columns * rows <= indices@.len(),
                forall|i: int| 0 <= i < indices@.len() ==> #[trigger] indices@[i] == entry_of(pixels@[i]),
                power as int == (if o == 6 { 64 } else { bit(o as int) }),
                value as int == band_value(pixels@, columns as int, rows as int, top as int, e as int, c as int, o as int),
            decreases 6 - o,
        {
            proof {
                lemma_band_value_bounds(pixels@, columns as int, rows as int, top as int, e as int, c as int, o as int);
            }
            if o < rows - top {
                proof {
                    lemma_cell_index(top as int, o as int, c as int, columns as int, rows as int);
                }
                let at = (top + o) * columns + c;
                if indices[at] == e {
                    value = value + power;
                }
            }
            power = if o == 5 { 64 } else { power * 2 };
            o = o + 1;
        }
        proof {
            lemma_band_value_bounds(pixels@, columns as int, rows as int, top as int, e as int, c as int, 6);
        }
        bits.push(value);
        c = c + 1;
    }
    assert(bits@ =~= band_bits(pixels@, columns as int, rows as int, top as int, e as int));
    bits
}

/// `pixels`, `width` × `height` row after row, as one sixel image: a device control string that
/// keeps what is under pixels of no colour, declares the size at square pixels, defines the
/// palette entries used and paints six rows at a time, colour by colour.
pub fn encode(pixels: &[Rgb], width: u32, height: u32) -> (out: Vec<u8>)
    requires
        width * height <= pixels@.len(),
    ensures
        out@ == sixel_image(pixels@, width, height),
{
    let columns = width as usize;
    let rows = height as usize;
    let length = pixels.len();
    assert(columns * rows == width * height);
    assert(columns * rows <= length);
    let count = columns * rows;
    // Every pixel's palette entry.
    let mut indices: Vec<u8> = Vec::new();
    let mut i: usize = 0;
    while i < count
        invariant
            count <= pixels@.len(),
            i <= count,
            indices@.len() == i,
            forall|j: int| 0 <= j < i ==> #[trigger] indices@[j] == entry_of(pixels@[j]),
        decreases count - i,
    {
        indices.push(entry(pixels[i]) as u8);
        i = i + 1;
    }
    // The palette entries used.
    let mut used_entries: Vec<bool> = Vec::new();
    let mut e: usize = 0;
    while e < ENTRIES
        invariant
            e <= ENTRIES,
            used_entries@.len() == e,
            forall|k: int| 0 <= k < e ==> !#[trigger] used_entries@[k],
        decreases ENTRIES - e,
    {
        used_entries.push(false);
        e = e + 1;
    }
    let mut i: usize = 0;
    while i < count
        invariant
            i <= count,
            count == indices@.len(),
            count <= pixels@.len(),
            forall|j: int| 0 <= j < indices@.len() ==> #[trigger] indices@[j] == entry_of(pixels@[j]),
            used_entries@.len() == ENTRIES,
            forall|k: int| 0 <= k < ENTRIES ==> #[trigger] used_entries@[k] == used(pixels@, i as int, k),
        decreases count - i,
    {
        let index = indices[i] as usize;
        proof {
            assert(indices@[i as int] == entry_of(pixels@[i as int]));
            assert forall|k: int| 0 <= k < ENTRIES implies used(pixels@, i + 1, k) == (used(pixels@, i as int, k) || k == index) by {
                if used(pixels@, i + 1, k) {
                    let j = choose|j: int| 0 <= j < i + 1 && #[trigger] entry_of(pixels@[j]) == k;
                    if j < i {
                        assert(used(pixels@, i as int, k));
                    }
                }
                if used(pixels@, i as int, k) {
                    let j = choose|j: int| 0 <= j < i && #[trigger] entry_of(pixels@[j]) == k;
                    assert(0 <= j < i + 1 && entry_of(pixels@[j]) == k);
                }
                if k == index {
                    assert(entry_of(pixels@[i as int]) == k);
                }
            }
        }
        used_entries.set(index, true);
        i = i + 1;
    }
    // The header and the palette.
    let mut out: Vec<u8> = Vec::new();
    put(&mut out, &[27u8, 80u8, 48u8, 59u8, 49u8, 59u8, 48u8, 113u8, 34u8, 49u8, 59u8, 49u8, 59u8]);
    push_decimal(&mut out, width as u64);
    out.push(59);
    push_decimal(&mut out, height as u64);
    proof {
        assert(out@ =~= header(width, height));
    }
    let mut e: usize = 0;
    while e < ENTRIES
        invariant
            e <= ENTRIES,
            used_entries@.len() == ENTRIES,
            forall|k: int| 0 <= k < ENTRIES ==> #[trigger] used_entries@[k] == used(pixels@, count as int, k),
            out@ == header(width, height) + palette(pixels@, count as int, e as int),
        decreases ENTRIES - e,
    {
        let ghost before = out@;
        if used_entries[e] {
            let (r, g, b) = percentages(e);
            out.push(35);
            push_decimal(&mut out, e as u64);
            put(&mut out, &[59u8, 50u8, 59u8]);
            push_decimal(&mut out, r as u64);
            out.push(59);
            push_decimal(&mut out, g as u64);
            out.push(59);
            push_decimal(&mut out, b as u64);
            assert(out@ =~= before + palette_entry(e as int));
        }
        assert(out@ =~= header(width, height) + palette(pixels@, count as int, e + 1));
        e = e + 1;
    }
    let ghost head = out@;
    // The bands.
    let band_count = rows / 6 + if rows % 6 > 0 { 1 } else { 0 };
    assert(band_count == (height + 5) / 6);
    let mut t: usize = 0;
    while t < band_count
        invariant
            band_count == (rows + 5) / 6,
            t <= band_count,
            count == columns * rows,
            count == indices@.len(),
            count <= pixels@.len(),
            forall|j: int| 0 <= j < indices@.len() ==> #[trigger] indices@[j] == entry_of(pixels@[j]),
            out@ == head + bands(pixels@, columns as int, rows as int, t as int),
        decreases band_count - t,
    {
        let top = 6 * t;
        let ghost before = out@;
        if t > 0 {
            out.push(45);
        }
        let ghost start = out@;
        // The palette entries painted in this band.
        let mut present: Vec<bool> = Vec::new();
        let mut k: usize = 0;
        while k < ENTRIES
            invariant
                k <= ENTRIES,
                present@.len() == k,
                forall|j: int| 0 <= j < k ==> !#[trigger] present@[j],
            decreases ENTRIES - k,
        {
            present.push(false);
            k = k + 1;
        }
        let mut o: usize = 0;
        while o < 6 && o < rows - top
            invariant
                o <= 6,
                top < rows,
                count == columns * rows,
                count == indices@.len(),
                count <= pixels@.len(),
                forall|j: int| 0 <= j < indices@.len() ==> #[trigger] indices@[j] == entry_of(pixels@[j]),
                present@.len() == ENTRIES,
                forall|x: int| 0 <= x < ENTRIES ==> #[trigger] present@[x] == exists|oo: int, cc: int|
                    0 <= oo < o && top + oo < rows && 0 <= cc < columns && #[trigger] band_cell(pixels@, columns as int, top as int, oo, cc) == x,
            decreases 6 - o,
        {
            let mut c: usize = 0;
            while c < columns
                invariant
                    o < 6,
                    top + o < rows,
                    c <= columns,
                    count == columns * rows,
                    count == indices@.len(),
                    count <= pixels@.len(),
                    forall|j: int| 0 <= j < indices@.len() ==> #[trigger] indices@[j] == entry_of(pixels@[j]),
                    present@.len() == ENTRIES,
                    forall|x: int| 0 <= x < ENTRIES ==> #[trigger] present@[x] == ((exists|oo: int, cc: int|
                        0 <= oo < o && top + oo < rows && 0 <= cc < columns && #[trigger] band_cell(pixels@, columns as int, top as int, oo, cc) == x)
                        || (exists|cc: int| 0 <= cc < c && #[trigger] band_cell(pixels@, columns as int, top as int, o as int, cc) == x)),
                decreases columns - c,
            {
                proof {
                    lemma_cell_index(top as int, o as int, c as int, columns as int, rows as int);
                }
                let at = (top + o) * columns + c;
                let index = indices[at] as usize;
                proof {
                    assert(index == band_cell(pixels@, columns as int, top as int, o as int, c as int));
                    assert(index < ENTRIES);
                    assert forall|x: int| 0 <= x < ENTRIES implies (x == index || #[trigger] present@[x]) == ((exists|oo: int, cc: int|
                        0 <= oo < o && top + oo < rows && 0 <= cc < columns && #[trigger] band_cell(pixels@, columns as int, top as int, oo, cc) == x)
                        || (exists|cc: int| 0 <= cc < c + 1 && #[trigger] band_cell(pixels@, columns as int, top as int, o as int, cc) == x)) by {
                        if x == index {
                            assert(0 <= c < c + 1 && band_cell(pixels@, columns as int, top as int, o as int, c as int) == x);
                        }
                        if exists|cc: int| 0 <= cc < c + 1 && #[trigger] band_cell(pixels@, columns as int, top as int, o as int, cc) == x {
                            let cc = choose|cc: int| 0 <= cc < c + 1 && #[trigger] band_cell(pixels@, columns as int, top as int, o as int, cc) == x;
                            if cc < c {
                                assert(exists|cc: int| 0 <= cc < c && #[trigger] band_cell(pixels@, columns as int, top as int, o as int, cc) == x);
                            }
                        }
                    }
                }
                present.set(index, true);
                c = c + 1;
            }
            proof {
                assert forall|x: int| 0 <= x < ENTRIES implies #[trigger] present@[x] == exists|oo: int, cc: int|
                    0 <= oo < o + 1 && top + oo < rows && 0 <= cc < columns && #[trigger] band_cell(pixels@, columns as int, top as int, oo, cc) == x by {
                    if exists|oo: int, cc: int| 0 <= oo < o + 1 && top + oo < rows && 0 <= cc < columns && #[trigger] band_cell(pixels@, columns as int, top as int, oo, cc) == x {
                        let (oo, cc) = choose|oo: int, cc: int| 0 <= oo < o + 1 && top + oo < rows && 0 <= cc < columns && #[trigger] band_cell(pixels@, columns as int, top as int, oo, cc) == x;
                        if oo == o {
                            assert(exists|cc: int| 0 <= cc < columns && #[trigger] band_cell(pixels@, columns as int, top as int, o as int, cc) == x);
                        } else {
                            assert(exists|oo: int, cc: int| 0 <= oo < o && top + oo < rows && 0 <= cc < columns && #[trigger] band_cell(pixels@, columns as int, top as int, oo, cc) == x);
                        }
                    }
                    if exists|cc: int| 0 <= cc < columns && #[trigger] band_cell(pixels@, columns as int, top as int, o as int, cc) == x {
                        let cc = choose|cc: int| 0 <= cc < columns && #[trigger] band_cell(pixels@, columns as int, top as int, o as int, cc) == x;
                        assert(0 <= o < o + 1 && top + o < rows && 0 <= cc < columns && band_cell(pixels@, columns as int, top as int, o as int, cc) == x);
                    }
                    if exists|oo: int, cc: int| 0 <= oo < o && top + oo < rows && 0 <= cc < columns && #[trigger] band_cell(pixels@, columns as int, top as int, oo, cc) == x {
                        let (oo, cc) = choose|oo: int, cc: int| 0 <= oo < o && top + oo < rows && 0 <= cc < columns && #[trigger] band_cell(pixels@, columns as int, top as int, oo, cc) == x;
                        assert(0 <= oo < o + 1 && top + oo < rows && 0 <= cc < columns && band_cell(pixels@, columns as int, top as int, oo, cc) == x);
                    }
                }
            }
            o = o + 1;
        }
        proof {
            assert forall|x: int| 0 <= x < ENTRIES implies #[trigger] present@[x] == in_band(pixels@, columns as int, rows as int, top as int, x) by {
                if in_band(pixels@, columns as int, rows as int, top as int, x) {
                    let (oo, cc) = choose|oo: int, cc: int| 0 <= oo < 6 && top + oo < rows && 0 <= cc < columns && #[trigger] band_cell(pixels@, columns as int, top as int, oo, cc) == x;
                    assert(oo < o);
                }
            }
        }
        // Each palette entry painted here, in order.
        let mut first = true;
        let mut e: usize = 0;
        while e < ENTRIES
            invariant
                e <= ENTRIES,
                top < rows,
                count == columns * rows,
                count == indices@.len(),
                count <= pixels@.len(),
                forall|j: int| 0 <= j < indices@.len() ==> #[trigger] indices@[j] == entry_of(pixels@[j]),
                present@.len() == ENTRIES,
                forall|x: int| 0 <= x < ENTRIES ==> #[trigger] present@[x] == in_band(pixels@, columns as int, rows as int, top as int, x),
                out@ == start + band_out(pixels@, columns as int, rows as int, top as int, e as int),
                first == (band_out(pixels@, columns as int, rows as int, top as int, e as int).len() == 0),
            decreases ENTRIES - e,
        {
            let ghost here = out@;
            let ghost earlier = band_out(pixels@, columns as int, rows as int, top as int, e as int);
            if present[e] {
                let bits = band_bits_of(&indices, Ghost(pixels@), columns, rows, top, e as u8);
                if !first {
                    out.push(36);
                }
                first = false;
                out.push(35);
                push_decimal(&mut out, e as u64);
                runs(&mut out, bits.as_slice());
                assert(out@ =~= start + band_out(pixels@, columns as int, rows as int, top as int, e + 1));
            }
            e = e + 1;
        }
        proof {
            assert(out@ =~= head + bands(pixels@, columns as int, rows as int, t + 1));
        }
        t = t + 1;
    }
    put(&mut out, &[27u8, 92u8]);
    out
}

/// How many times `byte` occurs in `bytes`.
pub open spec fn occurrences(bytes: Seq<u8>, byte: u8) -> nat
    decreases bytes.len(),
{
    if bytes.len() == 0 {
        0
    } else {
        occurrences(bytes.drop_last(), byte) + if bytes.last() == byte { 1nat } else { 0nat }
    }
}

proof fn lemma_occurrences_join(a: Seq<u8>, b: Seq<u8>, byte: u8)
    ensures
        occurrences(a + b, byte) == occurrences(a, byte) + occurrences(b, byte),
    decreases b.len(),
{
    if b.len() == 0 {
        assert(a + b =~= a);
    } else {
        lemma_occurrences_join(a, b.drop_last(), byte);
        assert((a + b).drop_last() =~= a + b.drop_last());
    }
}

/// Whether `bytes` hold no `-`.
pub open spec fn no_dash(bytes: Seq<u8>) -> bool {
    forall|i: int| 0 <= i < bytes.len() ==> #[trigger] bytes[i] != 45
}

proof fn lemma_no_dash_none(bytes: Seq<u8>)
    requires
        no_dash(bytes),
    ensures
        occurrences(bytes, 45) == 0,
    decreases bytes.len(),
{
    if bytes.len() > 0 {
        assert forall|i: int| 0 <= i < bytes.drop_last().len() implies #[trigger] bytes.drop_last()[i] != 45 by {
            assert(bytes.drop_last()[i] == bytes[i]);
        }
        lemma_no_dash_none(bytes.drop_last());
        assert(bytes[bytes.len() - 1] != 45);
    }
}

proof fn lemma_no_dash_join(a: Seq<u8>, b: Seq<u8>)
    requires
        no_dash(a),
        no_dash(b),
    ensures
        no_dash(a + b),
{
    assert forall|i: int| 0 <= i < (a + b).len() implies #[trigger] (a + b)[i] != 45 by {
        if i < a.len() {
            assert((a + b)[i] == a[i]);
        } else {
            assert((a + b)[i] == b[i - a.len()]);
        }
    }
}

proof fn lemma_decimal_no_dash(n: nat)
    ensures
        no_dash(decimal(n)),
    decreases n,
{
    if n >= 10 {
        lemma_decimal_no_dash(n / 10);
        assert forall|i: int| 0 <= i < decimal(n).len() implies #[trigger] decimal(n)[i] != 45 by {
            if i < decimal(n / 10).len() {
                assert(decimal(n)[i] == decimal(n / 10)[i]);
            }
        }
    }
}

proof fn lemma_runs_no_dash(bits: Seq<u8>, at: int, end: int)
    requires
        forall|i: int| 0 <= i < bits.len() ==> #[trigger] bits[i] < 64,
        0 <= at,
        end <= bits.len(),
    ensures
        no_dash(runs_from(bits, at, end)),
    decreases end - at,
{
    if at < end {
        let length = run_len(bits, at, end);
        lemma_run_len_bounds(bits, at, end);
        let sixel = (63 + bits[at]) as u8;
        assert(sixel != 45);
        lemma_runs_no_dash(bits, at + length, end);
        lemma_decimal_no_dash(length as nat);
        let written = if length >= 4 {
            seq![33u8] + decimal(length as nat) + seq![sixel]
        } else {
            repeated(sixel, length as nat)
        };
        assert(no_dash(seq![33u8]));
        assert(no_dash(seq![sixel]));
        lemma_no_dash_join(seq![33u8], decimal(length as nat));
        lemma_no_dash_join(seq![33u8] + decimal(length as nat), seq![sixel]);
        assert(no_dash(repeated(sixel, length as nat)));
        lemma_no_dash_join(written, runs_from(bits, at + length, end));
    }
}

proof fn lemma_band_out_no_dash(pixels: Seq<Rgb>, columns: int, rows: int, top: int, k: int)
    requires
        columns >= 0,
    ensures
        no_dash(band_out(pixels, columns, rows, top, k)),
    decreases k,
{
    if k > 0 {
        lemma_band_out_no_dash(pixels, columns, rows, top, k - 1);
        if in_band(pixels, columns, rows, top, k - 1) {
            let bits = band_bits(pixels, columns, rows, top, k - 1);
            assert forall|i: int| 0 <= i < bits.len() implies #[trigger] bits[i] < 64 by {
                lemma_band_value_bounds(pixels, columns, rows, top, k - 1, i, 6);
            }
            lemma_trimmed_end(bits);
            lemma_runs_no_dash(bits, 0, trimmed_end(bits));
            lemma_decimal_no_dash((k - 1) as nat);
            let before = band_out(pixels, columns, rows, top, k - 1);
            let gap = if before.len() > 0 { seq![36u8] } else { Seq::<u8>::empty() };
            assert(no_dash(gap));
            assert(no_dash(seq![35u8]));
            lemma_no_dash_join(before, gap);
            lemma_no_dash_join(before + gap, seq![35u8]);
            lemma_no_dash_join(before + gap + seq![35u8], decimal((k - 1) as nat));
            lemma_no_dash_join(before + gap + seq![35u8] + decimal((k - 1) as nat), runs_spec(bits));
        }
    }
}

proof fn lemma_bands_dashes(pixels: Seq<Rgb>, columns: int, rows: int, t: int)
    requires
        columns >= 0,
    ensures
        occurrences(bands(pixels, columns, rows, t), 45) == if t > 1 { t - 1 } else { 0 },
    decreases t,
{
    if t > 0 {
        lemma_bands_dashes(pixels, columns, rows, t - 1);
        let sep = if t > 1 { seq![45u8] } else { Seq::<u8>::empty() };
        let out = band_out(pixels, columns, rows, 6 * (t - 1), ENTRIES as int);
        lemma_band_out_no_dash(pixels, columns, rows, 6 * (t - 1), ENTRIES as int);
        lemma_no_dash_none(out);
        let before = bands(pixels, columns, rows, t - 1);
        lemma_occurrences_join(before, sep, 45);
        lemma_occurrences_join(before + sep, out, 45);
        reveal_with_fuel(occurrences, 2);
        if t == 1 {
            assert(occurrences(Seq::<u8>::empty(), 45) == 0);
        }
    }
}

proof fn lemma_palette_no_dash(pixels: Seq<Rgb>, count: int, k: int)
    ensures
        no_dash(palette(pixels, count, k)),
    decreases k,
{
    if k > 0 {
        lemma_palette_no_dash(pixels, count, k - 1);
        let e = k - 1;
        let (r, g, b) = percentages_of(e);
        lemma_decimal_no_dash(e as nat);
        lemma_decimal_no_dash(r as nat);
        lemma_decimal_no_dash(g as nat);
        lemma_decimal_no_dash(b as nat);
        assert(no_dash(seq![35u8]));
        assert(no_dash(seq![59u8, 50u8, 59u8]));
        assert(no_dash(seq![59u8]));
        lemma_no_dash_join(seq![35u8], decimal(e as nat));
        lemma_no_dash_join(seq![35u8] + decimal(e as nat), seq![59u8, 50u8, 59u8]);
        lemma_no_dash_join(seq![35u8] + decimal(e as nat) + seq![59u8, 50u8, 59u8], decimal(r as nat));
        lemma_no_dash_join(seq![35u8] + decimal(e as nat) + seq![59u8, 50u8, 59u8] + decimal(r as nat), seq![59u8]);
        lemma_no_dash_join(
            seq![35u8] + decimal(e as nat) + seq![59u8, 50u8, 59u8] + decimal(r as nat) + seq![59u8],
            decimal(g as nat),
        );
        lemma_no_dash_join(
            seq![35u8] + decimal(e as nat) + seq![59u8, 50u8, 59u8] + decimal(r as nat) + seq![59u8] + decimal(g as nat),
            seq![59u8],
        );
        lemma_no_dash_join(
            seq![35u8] + decimal(e as nat) + seq![59u8, 50u8, 59u8] + decimal(r as nat) + seq![59u8] + decimal(g as nat)
                + seq![59u8],
            decimal(b as nat),
        );
        assert(no_dash(Seq::<u8>::empty()));
        let entry = if used(pixels, count, e) { palette_entry(e) } else { Seq::<u8>::empty() };
        lemma_no_dash_join(palette(pixels, count, k - 1), entry);
    }
}

/// A sixel image starts with its header, which gives its size, and ends with the string
/// terminator; its bands of six rows are separated by one `-` each: an image of `height` rows
/// holds exactly `ceil(height / 6) - 1` of them, and no other `-`.
pub proof fn lemma_the_shape_of_a_sixel_image(pixels: Seq<Rgb>, width: u32, height: u32)
    requires
        height > 0,
    ensures
        sixel_image(pixels, width, height).take(header(width, height).len() as int) == header(width, height),
        sixel_image(pixels, width, height).skip(sixel_image(pixels, width, height).len() - 2) == seq![27u8, 92u8],
        occurrences(sixel_image(pixels, width, height), 45) == (height + 5) / 6 - 1,
{
    let h = header(width, height);
    let p = palette(pixels, width * height, ENTRIES as int);
    let t = (height + 5) / 6;
    let b = bands(pixels, width as int, height as int, t);
    let image = sixel_image(pixels, width, height);
    assert(image.take(h.len() as int) =~= h);
    assert(image.skip(image.len() - 2) =~= seq![27u8, 92u8]);
    lemma_decimal_no_dash(width as nat);
    lemma_decimal_no_dash(height as nat);
    let lit = seq![27u8, 80u8, 48u8, 59u8, 49u8, 59u8, 48u8, 113u8, 34u8, 49u8, 59u8, 49u8, 59u8];
    assert(no_dash(lit));
    assert(no_dash(seq![59u8]));
    lemma_no_dash_join(lit, decimal(width as nat));
    lemma_no_dash_join(lit + decimal(width as nat), seq![59u8]);
    lemma_no_dash_join(lit + decimal(width as nat) + seq![59u8], decimal(height as nat));
    lemma_palette_no_dash(pixels, width * height, ENTRIES as int);
    assert(no_dash(seq![27u8, 92u8]));
    lemma_no_dash_none(h);
    lemma_no_dash_none(p);
    lemma_no_dash_none(seq![27u8, 92u8]);
    lemma_bands_dashes(pixels, width as int, height as int, t);
    lemma_occurrences_join(h, p, 45);
    lemma_occurrences_join(h + p, b, 45);
    lemma_occurrences_join(h + p + b, seq![27u8, 92u8], 45);
    assert(t >= 1);
}

} // verus!
