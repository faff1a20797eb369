//! Telling a terminal that speaks the kitty graphics protocol which pictures to show, and where.
//!
//! A picture's pixels cross the wire once: the terminal keeps them under a number and every later
//! frame only says where to show them. What a frame writes is the difference from the one before:
//! a new picture is sent, a picture that moved or was cut differently is placed again, a place no
//! longer used is deleted, and a picture no longer shown anywhere is freed so the terminal's
//! memory does not grow. A frame with the same places as the one before writes nothing at all.
//!
//! Every command carries `q=2`, so the terminal answers none of them: an answer would arrive as
//! input and read as keys.

use std::io::Write;

use vstd::prelude::*;
use vstd::utf8::encode_utf8;

use crate::base64::{ascii_chars, base64, base64_encoded, lemma_encoded_text_bytes};
use crate::decimal::{decimal, push_decimal, put};
use crate::sixel::Rgb;

verus! {

/// The most base64 bytes one command carries; the protocol's limit.
pub const CHUNK: usize = 4096;

/// A picture: its identity, its size in pixels and its pixels row after row.
#[derive(Debug)]
pub struct Picture {
    pub id: u64,
    pub width: u32,
    pub height: u32,
    pub pixels: Vec<Rgb>,
}

/// A picture shown over cells: its place number, the cells (column, row, columns, rows) and the
/// part of the picture stretched over them (x, y, width, height).
#[derive(Debug)]
pub struct Placement {
    pub data: Picture,
    pub number: u32,
    pub cells: (u16, u16, u16, u16),
    pub crop: (u32, u32, u32, u32),
}

/// What tells two places apart: the picture's identity, the place number, the cells and the crop.
#[derive(Debug, Clone, Copy, PartialEq, Eq, Structural)]
pub struct PlaceKey {
    pub id: u64,
    pub number: u32,
    pub column: u16,
    pub row: u16,
    pub columns: u16,
    pub rows: u16,
    pub x: u32,
    pub y: u32,
    pub width: u32,
    pub height: u32,
}

/// One thing a frame tells the terminal.
#[derive(Debug, Clone, Copy, PartialEq, Eq, Structural)]
pub enum KittyCommand {
    /// Free the pixels kept under this number, with all its places.
    Free(u32),
    /// Delete one place of the picture under this number.
    Unplace(u32, u32),
    /// Send the pixels of the picture of the placement at this index, under this number.
    Transmit(usize, u32),
    /// Show the placement at this index.
    Place(usize),
}

/// The number the terminal keeps the picture with identity `id` under: within the protocol's
/// range, never 0.
pub open spec fn number_of(id: u64) -> u32 {
    (((if id == 0 { 0 } else { id - 1 }) as int % (u32::MAX as int)) + 1) as u32
}

/// The key of a placement.
pub open spec fn key_of(p: Placement) -> PlaceKey {
    PlaceKey {
        id: p.data.id,
        number: p.number,
        column: p.cells.0,
        row: p.cells.1,
        columns: p.cells.2,
        rows: p.cells.3,
        x: p.crop.0,
        y: p.crop.1,
        width: p.crop.2,
        height: p.crop.3,
    }
}

/// The keys of placements.
pub open spec fn keys_of(placements: Seq<Placement>) -> Seq<PlaceKey> {
    placements.map_values(|p: Placement| key_of(p))
}

/// The numbers of the pictures kept this frame: those placed, and those painted another way.
pub open spec fn kept_of(keys: Seq<PlaceKey>, painted: Seq<u64>) -> Seq<u32> {
    keys.map_values(|k: PlaceKey| number_of(k.id)) + painted.map_values(|id: u64| number_of(id))
}

/// The frees of the pictures the terminal holds that are not kept, in the order they were sent.
pub open spec fn frees(sent: Seq<u32>, kept: Seq<u32>) -> Seq<KittyCommand>
    decreases sent.len(),
{
    if sent.len() == 0 {
        Seq::empty()
    } else {
        let rest = frees(sent.drop_last(), kept);
        if kept.contains(sent.last()) { rest } else { rest.push(KittyCommand::Free(sent.last())) }
    }
}

/// The pictures the terminal holds that are kept, in the order they were sent.
pub open spec fn retained(sent: Seq<u32>, kept: Seq<u32>) -> Seq<u32>
    decreases sent.len(),
{
    if sent.len() == 0 {
        Seq::empty()
    } else {
        let rest = retained(sent.drop_last(), kept);
        if kept.contains(sent.last()) { rest.push(sent.last()) } else { rest }
    }
}

/// Whether a place of picture `image` numbered `number` is among `keys`.
pub open spec fn still(keys: Seq<PlaceKey>, image: u32, number: u32) -> bool {
    exists|i: int| 0 <= i < keys.len() && number_of(#[trigger] keys[i].id) == image && keys[i].number == number
}

/// The deletes of the places shown that are no longer used, of pictures that are kept; freeing a
/// picture deletes its places by itself.
pub open spec fn unplaces(shown: Seq<PlaceKey>, keys: Seq<PlaceKey>, kept: Seq<u32>) -> Seq<KittyCommand>
    decreases shown.len(),
{
    if shown.len() == 0 {
        Seq::empty()
    } else {
        let rest = unplaces(shown.drop_last(), keys, kept);
        let old = shown.last();
        let image = number_of(old.id);
        if kept.contains(image) && !still(keys, image, old.number) {
            rest.push(KittyCommand::Unplace(image, old.number))
        } else {
            rest
        }
    }
}

/// The pictures of `keys` the terminal does not hold yet, each sent once, in order: what the
/// terminal holds after, the pictures sent now, and the commands.
pub open spec fn transmits(keys: Seq<PlaceKey>, sent: Seq<u32>) -> (Seq<u32>, Seq<u32>, Seq<KittyCommand>)
    decreases keys.len(),
{
    if keys.len() == 0 {
        (sent, Seq::empty(), Seq::empty())
    } else {
        let (s, now, cmds) = transmits(keys.drop_last(), sent);
        let image = number_of(keys.last().id);
        if s.contains(image) {
            (s, now, cmds)
        } else {
            (s.push(image), now.push(image), cmds.push(KittyCommand::Transmit((keys.len() - 1) as usize, image)))
        }
    }
}

/// The places of the first `n` keys written: those not shown before, those of a picture sent
/// now (sending replaces a picture along with its places), and all of them after a clear.
pub open spec fn places(keys: Seq<PlaceKey>, shown: Seq<PlaceKey>, place_all: bool, now: Seq<u32>, n: int) -> Seq<KittyCommand>
    decreases n,
{
    if n <= 0 {
        Seq::empty()
    } else {
        let rest = places(keys, shown, place_all, now, n - 1);
        let key = keys[n - 1];
        if place_all || now.contains(number_of(key.id)) || !shown.contains(key) {
            rest.push(KittyCommand::Place((n - 1) as usize))
        } else {
            rest
        }
    }
}

/// What the terminal holds of the kitty pictures, as plain values.
pub struct KittyView {
    pub sent: Seq<u32>,
    pub shown: Seq<PlaceKey>,
    pub place_all: bool,
    pub send_all: bool,
}

/// The commands that take the terminal from the places shown to `keys`, and the state after.
pub open spec fn plan(s: KittyView, keys: Seq<PlaceKey>, painted: Seq<u64>) -> (KittyView, Seq<KittyCommand>) {
    let kept = kept_of(keys, painted);
    let kept_sent = retained(s.sent, kept);
    let holding = if s.send_all { Seq::empty() } else { kept_sent };
    let (sent, now, sends) = transmits(keys, holding);
    (
        KittyView { sent, shown: keys, place_all: false, send_all: false },
        frees(s.sent, kept) + unplaces(s.shown, keys, kept) + sends + places(keys, s.shown, s.place_all, now, keys.len() as int),
    )
}

/// The bytes of a picture's pixels, red, green and blue of each in turn.
pub open spec fn rgb_bytes(pixels: Seq<Rgb>) -> Seq<u8>
    decreases pixels.len(),
{
    if pixels.len() == 0 {
        Seq::empty()
    } else {
        rgb_bytes(pixels.drop_last()) + seq![pixels.last().r, pixels.last().g, pixels.last().b]
    }
}

/// The bytes `flate2`'s zlib encoder at its fast level writes for `bytes`, or `None` when it
/// fails.
pub uninterp spec fn zlib_fast(bytes: Seq<u8>) -> Option<Seq<u8>>;

/// `bytes` compressed with zlib at the fast level; `None` should compressing fail.
///
/// Calls `flate2::write::ZlibEncoder` over a `Vec`. The contract claims only that the outcome is
/// the function [`zlib_fast`] of the bytes: the same bytes always give the same outcome.
#[verifier::external_body]
fn compress(bytes: &[u8]) -> (zipped: Option<Vec<u8>>)
    ensures
        zipped is None <==> zlib_fast(bytes@) is None,
        zipped matches Some(z) ==> zlib_fast(bytes@) == Some(z@),
{
    let mut encoder = flate2::write::ZlibEncoder::new(Vec::new(), flate2::Compression::fast());
    encoder.write_all(bytes).ok()?;
    encoder.finish().ok()
}

/// `\x1b_Ga=d,d=I,i=`
pub open spec fn free_head() -> Seq<u8> {
    seq![27u8, 95u8, 71u8, 97u8, 61u8, 100u8, 44u8, 100u8, 61u8, 73u8, 44u8, 105u8, 61u8]
}

/// `\x1b_Ga=d,d=i,i=`
pub open spec fn unplace_head() -> Seq<u8> {
    seq![27u8, 95u8, 71u8, 97u8, 61u8, 100u8, 44u8, 100u8, 61u8, 105u8, 44u8, 105u8, 61u8]
}

/// `,q=2\x1b\\`: no answer, and the end of the command.
pub open spec fn quiet_end() -> Seq<u8> {
    seq![44u8, 113u8, 61u8, 50u8, 27u8, 92u8]
}

/// The command freeing picture `image`.
pub open spec fn free_bytes(image: u32) -> Seq<u8> {
    free_head() + decimal(image as nat) + quiet_end()
}

/// The command deleting place `number` of picture `image`.
pub open spec fn unplace_bytes(image: u32, number: u32) -> Seq<u8> {
    unplace_head() + decimal(image as nat) + seq![44u8, 112u8, 61u8] + decimal(number as nat) + quiet_end()
}

/// A field of a place: its tag, then its value in decimal.
pub open spec fn field(tag: Seq<u8>, value: nat) -> Seq<u8> {
    tag + decimal(value)
}

/// The cursor moved to the first cell of `key`, and the picture and place numbers.
pub open spec fn place_head(key: PlaceKey) -> Seq<u8> {
    field(seq![27u8, 91u8], (key.row + 1) as nat) + field(seq![59u8], (key.column + 1) as nat) + field(
        seq![72u8, 27u8, 95u8, 71u8, 97u8, 61u8, 112u8, 44u8, 105u8, 61u8],
        number_of(key.id) as nat,
    ) + field(seq![44u8, 112u8, 61u8], key.number as nat)
}

/// The part of the picture shown: `x`, `y`, width and height.
pub open spec fn place_crop(key: PlaceKey) -> Seq<u8> {
    field(seq![44u8, 120u8, 61u8], key.x as nat) + field(seq![44u8, 121u8, 61u8], key.y as nat) + field(
        seq![44u8, 119u8, 61u8],
        key.width as nat,
    ) + field(seq![44u8, 104u8, 61u8], key.height as nat)
}

/// The cells it is stretched over, then under text (`z=-1`), the cursor left where it is
/// (`C=1`), no answer, and the end.
pub open spec fn place_tail(key: PlaceKey) -> Seq<u8> {
    field(seq![44u8, 99u8, 61u8], key.columns as nat) + field(seq![44u8, 114u8, 61u8], key.rows as nat) + seq![
        44u8,
        122u8,
        61u8,
        45u8,
        49u8,
        44u8,
        67u8,
        61u8,
        49u8,
        44u8,
        113u8,
        61u8,
        50u8,
        27u8,
        92u8,
    ]
}

/// The command showing `key`: the cursor moved to its first cell, then the part of the picture
/// stretched over its cells.
pub open spec fn place_bytes(key: PlaceKey) -> Seq<u8> {
    place_head(key) + place_crop(key) + place_tail(key)
}

/// How many chunks `length` bytes of base64 make.
pub open spec fn chunk_count(length: int) -> int {
    length / (CHUNK as int) + if length % (CHUNK as int) > 0 { 1int } else { 0int }
}

/// The start of chunk `index`: the first carries the format, the compression, the size and the
/// number; each says whether more follow.
pub open spec fn chunk_head(index: int, more: nat, width: u32, height: u32, image: u32, zipped: bool) -> Seq<u8> {
    if index == 0 {
        seq![27u8, 95u8, 71u8, 97u8, 61u8, 116u8, 44u8, 102u8, 61u8, 50u8, 52u8] + (if zipped {
            seq![44u8, 111u8, 61u8, 122u8]
        } else {
            Seq::empty()
        }) + seq![44u8, 115u8, 61u8] + decimal(width as nat) + seq![44u8, 118u8, 61u8] + decimal(height as nat) + seq![
            44u8,
            105u8,
            61u8,
        ] + decimal(image as nat) + seq![44u8, 113u8, 61u8, 50u8, 44u8, 109u8, 61u8] + decimal(more) + seq![59u8]
    } else {
        seq![27u8, 95u8, 71u8, 109u8, 61u8] + decimal(more) + seq![44u8, 113u8, 61u8, 50u8, 59u8]
    }
}

/// Chunk `index` of `total` of a transmission of `encoded`.
pub open spec fn chunk_bytes(encoded: Seq<u8>, index: int, total: int, width: u32, height: u32, image: u32, zipped: bool) -> Seq<u8> {
    let more: nat = if index + 1 < total { 1 } else { 0 };
    let end = if (index + 1) * (CHUNK as int) <= encoded.len() { (index + 1) * (CHUNK as int) } else { encoded.len() as int };
    chunk_head(index, more, width, height, image, zipped) + encoded.subrange(index * (CHUNK as int), end) + seq![27u8, 92u8]
}

/// The first `k` chunks of a transmission.
pub open spec fn chunks(encoded: Seq<u8>, k: int, total: int, width: u32, height: u32, image: u32, zipped: bool) -> Seq<u8>
    decreases k,
{
    if k <= 0 {
        Seq::empty()
    } else {
        chunks(encoded, k - 1, total, width, height, image, zipped) + chunk_bytes(encoded, k - 1, total, width, height, image, zipped)
    }
}

/// The base64 a chunk `index` carries.
pub open spec fn chunk_payload(encoded: Seq<u8>, index: int) -> Seq<u8> {
    let end = if (index + 1) * (CHUNK as int) <= encoded.len() { (index + 1) * (CHUNK as int) } else { encoded.len() as int };
    encoded.subrange(index * (CHUNK as int), end)
}

/// The base64 the first `k` chunks carry, one after another.
pub open spec fn payloads(encoded: Seq<u8>, k: int) -> Seq<u8>
    decreases k,
{
    if k <= 0 {
        Seq::empty()
    } else {
        payloads(encoded, k - 1) + chunk_payload(encoded, k - 1)
    }
}

proof fn lemma_payloads_prefix(encoded: Seq<u8>, k: int)
    requires
        0 <= k,
        (k - 1) * (CHUNK as int) < encoded.len() || k == 0,
    ensures
        payloads(encoded, k) == encoded.take(if k * (CHUNK as int) <= encoded.len() { k * (CHUNK as int) } else { encoded.len() as int }),
    decreases k,
{
    if k > 0 {
        if k - 1 > 0 {
            assert((k - 2) * (CHUNK as int) < encoded.len());
        }
        lemma_payloads_prefix(encoded, k - 1);
        let end = if k * (CHUNK as int) <= encoded.len() { k * (CHUNK as int) } else { encoded.len() as int };
        assert(encoded.take((k - 1) * (CHUNK as int)) + encoded.subrange((k - 1) * (CHUNK as int), end) =~= encoded.take(end));
    } else {
        assert(encoded.take(0) =~= Seq::<u8>::empty());
    }
}

/// A transmission's base64 is cut into chunks of at most [`CHUNK`] bytes, all but the last of
/// exactly that many, that together are the whole of it, in order; each chunk says more follow
/// exactly when it is not the last.
pub proof fn lemma_chunks_carry_the_whole_payload(encoded: Seq<u8>, width: u32, height: u32, image: u32, zipped: bool)
    ensures
        forall|i: int| 0 <= i < chunk_count(encoded.len() as int) ==> #[trigger] chunk_bytes(encoded, i, chunk_count(encoded.len() as int), width, height, image, zipped)
            == chunk_head(i, if i + 1 < chunk_count(encoded.len() as int) { 1nat } else { 0nat }, width, height, image, zipped)
            + chunk_payload(encoded, i) + seq![27u8, 92u8],
        payloads(encoded, chunk_count(encoded.len() as int)) == encoded,
        forall|i: int| 0 <= i < chunk_count(encoded.len() as int) ==> (#[trigger] chunk_payload(encoded, i)).len()
            <= CHUNK && (i + 1 < chunk_count(encoded.len() as int) ==> chunk_payload(encoded, i).len() == CHUNK),
{
    let n = encoded.len() as int;
    let c = CHUNK as int;
    let total = chunk_count(n);
    assert(total * c >= n && (total - 1) * c < n || total == 0) by (nonlinear_arith)
        requires
            total == n / c + if n % c > 0 { 1int } else { 0int },
            c == 4096,
            n >= 0,
    ;
    lemma_payloads_prefix(encoded, total);
    assert(encoded.take(n) =~= encoded);
    assert forall|i: int| 0 <= i < total implies (#[trigger] chunk_payload(encoded, i)).len() <= CHUNK && (i + 1 < total
        ==> chunk_payload(encoded, i).len() == CHUNK) by {
        assert((i + 1) * c <= (total - 1) * c || i + 1 == total) by (nonlinear_arith)
            requires
                0 <= i < total,
                c > 0,
        ;
        assert(i * c < n) by (nonlinear_arith)
            requires
                0 <= i < total,
                (total - 1) * c < n,
                c > 0,
        ;
    }
}

/// How many times the key `q=` starts in `bytes`.
pub open spec fn quiet_keys(bytes: Seq<u8>) -> nat
    decreases bytes.len(),
{
    if bytes.len() < 2 {
        0
    } else {
        (if bytes[0] == 113 && bytes[1] == 61 { 1nat } else { 0nat }) + quiet_keys(bytes.drop_first())
    }
}

/// Whether `bytes` hold no `q`, no `;` and no escape: no quiet key, and nothing that ends a
/// command's keys.
pub open spec fn plain(bytes: Seq<u8>) -> bool {
    forall|i: int| 0 <= i < bytes.len() ==> #[trigger] bytes[i] != 113 && bytes[i] != 59 && bytes[i] != 27
}

/// `,q=2`: the key asking for no answer.
pub open spec fn quiet_key() -> Seq<u8> {
    seq![44u8, 113u8, 61u8, 50u8]
}

/// Whether `keys` are the keys of a command that asks for no answer: made of plain bytes around
/// one `,q=2`, so `q=` starts once in them and says `2`, and nothing in them ends the keys.
pub open spec fn quiet(keys: Seq<u8>) -> bool {
    exists|before: Seq<u8>, after: Seq<u8>| plain(before) && plain(after) && keys == before + quiet_key() + after
}

/// Whether `bytes` are one command with the keys `keys`: something before `\x1b_G`, the keys,
/// then the payload's `;` or the command's end.
pub open spec fn command_with(bytes: Seq<u8>, keys: Seq<u8>) -> bool {
    exists|lead: Seq<u8>, rest: Seq<u8>| bytes == lead + seq![27u8, 95u8, 71u8] + keys + rest && rest.len() > 0 && (rest[0]
        == 59 || rest[0] == 27)
}

proof fn lemma_decimal_plain(n: nat)
    ensures
        plain(decimal(n)),
    decreases n,
{
    if n >= 10 {
        lemma_decimal_plain(n / 10);
        let d = decimal(n / 10);
        assert forall|i: int| 0 <= i < decimal(n).len() implies #[trigger] decimal(n)[i] != 113 && decimal(n)[i] != 59
            && decimal(n)[i] != 27 by {
            if i < d.len() {
                assert(decimal(n)[i] == d[i]);
            }
        }
    }
}

proof fn lemma_plain_join(a: Seq<u8>, b: Seq<u8>)
    requires
        plain(a),
        plain(b),
    ensures
        plain(a + b),
{
    assert forall|i: int| 0 <= i < (a + b).len() implies #[trigger] (a + b)[i] != 113 && (a + b)[i] != 59 && (a + b)[i]
        != 27 by {
        if i < a.len() {
            assert((a + b)[i] == a[i]);
        } else {
            assert((a + b)[i] == b[i - a.len()]);
        }
    }
}

proof fn lemma_plain_has_no_quiet_key(a: Seq<u8>)
    requires
        plain(a),
    ensures
        quiet_keys(a) == 0,
    decreases a.len(),
{
    if a.len() >= 2 {
        assert(a[0] != 113);
        assert forall|i: int| 0 <= i < a.drop_first().len() implies #[trigger] a.drop_first()[i] != 113 && a.drop_first()[i]
            != 59 && a.drop_first()[i] != 27 by {
            assert(a.drop_first()[i] == a[i + 1]);
        }
        lemma_plain_has_no_quiet_key(a.drop_first());
    }
}

proof fn lemma_quiet_keys_join(a: Seq<u8>, b: Seq<u8>)
    ensures
        quiet_keys(a + b) == quiet_keys(a) + quiet_keys(b) + (if a.len() > 0 && b.len() > 0 && a.last() == 113 && b[0] == 61 {
            1nat
        } else {
            0nat
        }),
    decreases a.len(),
{
    if a.len() == 0 {
        assert(a + b =~= b);
    } else {
        lemma_quiet_keys_join(a.drop_first(), b);
        assert((a + b).drop_first() =~= a.drop_first() + b);
        if a.len() == 1 {
            assert(a.drop_first() =~= Seq::<u8>::empty());
            assert(Seq::<u8>::empty() + b =~= b);
        }
    }
}

/// The keys of a command that asks for no answer hold the key `q=` exactly once, and it says `2`.
pub proof fn lemma_a_quiet_command_has_one_quiet_key(keys: Seq<u8>)
    requires
        quiet(keys),
    ensures
        quiet_keys(keys) == 1,
        forall|i: int| 0 <= i < keys.len() ==> #[trigger] keys[i] != 59 && keys[i] != 27,
{
    let (before, after) = choose|before: Seq<u8>, after: Seq<u8>| plain(before) && plain(after) && keys == before
        + quiet_key() + after;
    lemma_plain_has_no_quiet_key(before);
    lemma_plain_has_no_quiet_key(after);
    reveal_with_fuel(quiet_keys, 5);
    assert(quiet_keys(quiet_key()) == 1);
    lemma_quiet_keys_join(before, quiet_key());
    lemma_quiet_keys_join(before + quiet_key(), after);
    assert((before + quiet_key()).last() == 50);
    assert forall|i: int| 0 <= i < keys.len() implies #[trigger] keys[i] != 59 && keys[i] != 27 by {
        if i < before.len() {
            assert(keys[i] == before[i]);
        } else if i < before.len() + 4 {
            assert(keys[i] == quiet_key()[i - before.len()]);
        } else {
            assert(keys[i] == after[i - before.len() - 4]);
        }
    }
}

/// Keys made of plain bytes around one `,q=2` are quiet.
proof fn lemma_quiet_around(before: Seq<u8>, after: Seq<u8>) -> (keys: Seq<u8>)
    requires
        plain(before),
        plain(after),
    ensures
        keys == before + quiet_key() + after,
        quiet(keys),
{
    before + quiet_key() + after
}

/// A command made of `lead`, `\x1b_G`, `keys` and `rest` starting with `;` or an escape.
proof fn lemma_command_of(bytes: Seq<u8>, lead: Seq<u8>, keys: Seq<u8>, rest: Seq<u8>)
    requires
        bytes == lead + seq![27u8, 95u8, 71u8] + keys + rest,
        rest.len() > 0,
        rest[0] == 59 || rest[0] == 27,
    ensures
        command_with(bytes, keys),
{
}

proof fn lemma_free_is_quiet(image: u32) -> (keys: Seq<u8>)
    ensures
        command_with(free_bytes(image), keys),
        quiet(keys),
{
    let di = decimal(image as nat);
    lemma_decimal_plain(image as nat);
    let head = seq![97u8, 61u8, 100u8, 44u8, 100u8, 61u8, 73u8, 44u8, 105u8, 61u8];
    lemma_plain_join(head, di);
    assert(plain(Seq::<u8>::empty()));
    let keys = lemma_quiet_around(head + di, Seq::<u8>::empty());
    assert(free_bytes(image) =~= Seq::<u8>::empty() + seq![27u8, 95u8, 71u8] + keys + seq![27u8, 92u8]);
    lemma_command_of(free_bytes(image), Seq::<u8>::empty(), keys, seq![27u8, 92u8]);
    keys
}

proof fn lemma_unplace_is_quiet(image: u32, number: u32) -> (keys: Seq<u8>)
    ensures
        command_with(unplace_bytes(image, number), keys),
        quiet(keys),
{
    let di = decimal(image as nat);
    let dn = decimal(number as nat);
    lemma_decimal_plain(image as nat);
    lemma_decimal_plain(number as nat);
    let head = seq![97u8, 61u8, 100u8, 44u8, 100u8, 61u8, 105u8, 44u8, 105u8, 61u8];
    let p = seq![44u8, 112u8, 61u8];
    lemma_plain_join(head, di);
    lemma_plain_join(head + di, p);
    lemma_plain_join(head + di + p, dn);
    assert(plain(Seq::<u8>::empty()));
    let keys = lemma_quiet_around(head + di + p + dn, Seq::<u8>::empty());
    assert(unplace_bytes(image, number) =~= Seq::<u8>::empty() + seq![27u8, 95u8, 71u8] + keys + seq![27u8, 92u8]);
    lemma_command_of(unplace_bytes(image, number), Seq::<u8>::empty(), keys, seq![27u8, 92u8]);
    keys
}

/// A field with a plain tag is plain.
proof fn lemma_field_plain(tag: Seq<u8>, value: nat)
    requires
        plain(tag),
    ensures
        plain(field(tag, value)),
{
    lemma_decimal_plain(value);
    lemma_plain_join(tag, decimal(value));
}

proof fn lemma_place_is_quiet(key: PlaceKey) -> (keys: Seq<u8>)
    ensures
        command_with(place_bytes(key), keys),
        quiet(keys),
{
    let head = field(seq![97u8, 61u8, 112u8, 44u8, 105u8, 61u8], number_of(key.id) as nat) + field(
        seq![44u8, 112u8, 61u8],
        key.number as nat,
    );
    let crop = place_crop(key);
    let cells = field(seq![44u8, 99u8, 61u8], key.columns as nat) + field(seq![44u8, 114u8, 61u8], key.rows as nat);
    let flags = seq![44u8, 122u8, 61u8, 45u8, 49u8, 44u8, 67u8, 61u8, 49u8];
    assert(plain(seq![97u8, 61u8, 112u8, 44u8, 105u8, 61u8]));
    assert(plain(seq![44u8, 112u8, 61u8]));
    assert(plain(seq![44u8, 120u8, 61u8]));
    assert(plain(seq![44u8, 121u8, 61u8]));
    assert(plain(seq![44u8, 119u8, 61u8]));
    assert(plain(seq![44u8, 104u8, 61u8]));
    assert(plain(seq![44u8, 99u8, 61u8]));
    assert(plain(seq![44u8, 114u8, 61u8]));
    assert(plain(flags));
    lemma_field_plain(seq![97u8, 61u8, 112u8, 44u8, 105u8, 61u8], number_of(key.id) as nat);
    lemma_field_plain(seq![44u8, 112u8, 61u8], key.number as nat);
    lemma_plain_join(
        field(seq![97u8, 61u8, 112u8, 44u8, 105u8, 61u8], number_of(key.id) as nat),
        field(seq![44u8, 112u8, 61u8], key.number as nat),
    );
    let fx = field(seq![44u8, 120u8, 61u8], key.x as nat);
    let fy = field(seq![44u8, 121u8, 61u8], key.y as nat);
    let fw = field(seq![44u8, 119u8, 61u8], key.width as nat);
    let fh = field(seq![44u8, 104u8, 61u8], key.height as nat);
    lemma_field_plain(seq![44u8, 120u8, 61u8], key.x as nat);
    lemma_field_plain(seq![44u8, 121u8, 61u8], key.y as nat);
    lemma_field_plain(seq![44u8, 119u8, 61u8], key.width as nat);
    lemma_field_plain(seq![44u8, 104u8, 61u8], key.height as nat);
    lemma_plain_join(fx, fy);
    lemma_plain_join(fx + fy, fw);
    lemma_plain_join(fx + fy + fw, fh);
    lemma_field_plain(seq![44u8, 99u8, 61u8], key.columns as nat);
    lemma_field_plain(seq![44u8, 114u8, 61u8], key.rows as nat);
    lemma_plain_join(field(seq![44u8, 99u8, 61u8], key.columns as nat), field(seq![44u8, 114u8, 61u8], key.rows as nat));
    lemma_plain_join(cells, flags);
    lemma_plain_join(head, crop);
    lemma_plain_join(head + crop, cells + flags);
    assert(plain(Seq::<u8>::empty()));
    let keys = lemma_quiet_around(head + crop + (cells + flags), Seq::<u8>::empty());
    let lead = field(seq![27u8, 91u8], (key.row + 1) as nat) + field(seq![59u8], (key.column + 1) as nat) + seq![72u8];
    lemma_place_layout(key, head + crop + (cells + flags));
    lemma_command_of(place_bytes(key), lead, keys, seq![27u8, 92u8]);
    keys
}

proof fn lemma_place_layout(key: PlaceKey, before: Seq<u8>)
    requires
        before == field(seq![97u8, 61u8, 112u8, 44u8, 105u8, 61u8], number_of(key.id) as nat) + field(
            seq![44u8, 112u8, 61u8],
            key.number as nat,
        ) + place_crop(key) + (field(seq![44u8, 99u8, 61u8], key.columns as nat) + field(seq![44u8, 114u8, 61u8], key.rows as nat)
            + seq![44u8, 122u8, 61u8, 45u8, 49u8, 44u8, 67u8, 61u8, 49u8]),
    ensures
        place_bytes(key) == field(seq![27u8, 91u8], (key.row + 1) as nat) + field(seq![59u8], (key.column + 1) as nat) + seq![72u8]
            + seq![27u8, 95u8, 71u8] + (before + quiet_key() + Seq::<u8>::empty()) + seq![27u8, 92u8],
{
    assert(field(seq![27u8, 91u8], (key.row + 1) as nat) + field(seq![59u8], (key.column + 1) as nat) + field(
        seq![72u8, 27u8, 95u8, 71u8, 97u8, 61u8, 112u8, 44u8, 105u8, 61u8],
        number_of(key.id) as nat,
    ) =~= field(seq![27u8, 91u8], (key.row + 1) as nat) + field(seq![59u8], (key.column + 1) as nat) + seq![72u8]
        + seq![27u8, 95u8, 71u8] + field(seq![97u8, 61u8, 112u8, 44u8, 105u8, 61u8], number_of(key.id) as nat));
    assert(place_bytes(key) =~= field(seq![27u8, 91u8], (key.row + 1) as nat) + field(seq![59u8], (key.column + 1) as nat)
        + seq![72u8] + seq![27u8, 95u8, 71u8] + (before + quiet_key() + Seq::<u8>::empty()) + seq![27u8, 92u8]);
}

proof fn lemma_chunk_is_quiet(encoded: Seq<u8>, index: int, total: int, width: u32, height: u32, image: u32, zipped: bool) -> (keys: Seq<u8>)
    requires
        0 <= index,
    ensures
        command_with(chunk_bytes(encoded, index, total, width, height, image, zipped), keys),
        quiet(keys),
{
    let more: nat = if index + 1 < total { 1 } else { 0 };
    let stop = if (index + 1) * (CHUNK as int) <= encoded.len() { (index + 1) * (CHUNK as int) } else { encoded.len() as int };
    let rest = seq![59u8] + encoded.subrange(index * (CHUNK as int), stop) + seq![27u8, 92u8];
    assert(rest[0] == 59);
    let m = seq![44u8, 109u8, 61u8];
    assert(plain(m));
    assert(plain(seq![109u8, 61u8]));
    lemma_field_plain(m, more);
    lemma_field_plain(seq![109u8, 61u8], more);
    assert(plain(Seq::<u8>::empty()));
    if index == 0 {
        let zip = if zipped { seq![44u8, 111u8, 61u8, 122u8] } else { Seq::<u8>::empty() };
        let f = seq![97u8, 61u8, 116u8, 44u8, 102u8, 61u8, 50u8, 52u8];
        assert(plain(f));
        assert(plain(zip));
        assert(plain(seq![44u8, 115u8, 61u8]));
        assert(plain(seq![44u8, 118u8, 61u8]));
        assert(plain(seq![44u8, 105u8, 61u8]));
        lemma_field_plain(seq![44u8, 115u8, 61u8], width as nat);
        lemma_field_plain(seq![44u8, 118u8, 61u8], height as nat);
        lemma_field_plain(seq![44u8, 105u8, 61u8], image as nat);
        let fs = field(seq![44u8, 115u8, 61u8], width as nat);
        let fv = field(seq![44u8, 118u8, 61u8], height as nat);
        let fi = field(seq![44u8, 105u8, 61u8], image as nat);
        lemma_plain_join(f, zip);
        lemma_plain_join(f + zip, fs);
        lemma_plain_join(f + zip + fs, fv);
        lemma_plain_join(f + zip + fs + fv, fi);
        let keys = lemma_quiet_around(f + zip + fs + fv + fi, field(m, more));
        lemma_chunk_layout(encoded, index, total, width, height, image, zipped, keys, rest);
        lemma_command_of(chunk_bytes(encoded, index, total, width, height, image, zipped), Seq::<u8>::empty(), keys, rest);
        keys
    } else {
        let keys = lemma_quiet_around(field(seq![109u8, 61u8], more), Seq::<u8>::empty());
        lemma_chunk_layout(encoded, index, total, width, height, image, zipped, keys, rest);
        lemma_command_of(chunk_bytes(encoded, index, total, width, height, image, zipped), Seq::<u8>::empty(), keys, rest);
        keys
    }
}

proof fn lemma_chunk_layout(encoded: Seq<u8>, index: int, total: int, width: u32, height: u32, image: u32, zipped: bool, keys: Seq<u8>, rest: Seq<u8>)
    requires
        0 <= index,
        rest == seq![59u8] + encoded.subrange(
            index * (CHUNK as int),
            if (index + 1) * (CHUNK as int) <= encoded.len() { (index + 1) * (CHUNK as int) } else { encoded.len() as int },
        ) + seq![27u8, 92u8],
        index == 0 ==> keys == seq![97u8, 61u8, 116u8, 44u8, 102u8, 61u8, 50u8, 52u8] + (if zipped {
            seq![44u8, 111u8, 61u8, 122u8]
        } else {
            Seq::<u8>::empty()
        }) + field(seq![44u8, 115u8, 61u8], width as nat) + field(seq![44u8, 118u8, 61u8], height as nat) + field(
            seq![44u8, 105u8, 61u8],
            image as nat,
        ) + quiet_key() + field(seq![44u8, 109u8, 61u8], if index + 1 < total { 1nat } else { 0nat }),
        index != 0 ==> keys == field(seq![109u8, 61u8], if index + 1 < total { 1nat } else { 0nat }) + quiet_key()
            + Seq::<u8>::empty(),
    ensures
        chunk_bytes(encoded, index, total, width, height, image, zipped) == Seq::<u8>::empty() + seq![27u8, 95u8, 71u8] + keys
            + rest,
{
    let more: nat = if index + 1 < total { 1nat } else { 0nat };
    let stop = if (index + 1) * (CHUNK as int) <= encoded.len() { (index + 1) * (CHUNK as int) } else { encoded.len() as int };
    let payload = encoded.subrange(index * (CHUNK as int), stop);
    lemma_chunk_head_layout(index, more, width, height, image, zipped, keys);
    assert(chunk_bytes(encoded, index, total, width, height, image, zipped) == chunk_head(index, more, width, height, image, zipped)
        + payload + seq![27u8, 92u8]);
    assert(chunk_head(index, more, width, height, image, zipped) + payload + seq![27u8, 92u8] =~= Seq::<u8>::empty() + seq![
        27u8,
        95u8,
        71u8,
    ] + keys + rest);
}

#[verifier::rlimit(40)]
proof fn lemma_chunk_head_layout(index: int, more: nat, width: u32, height: u32, image: u32, zipped: bool, keys: Seq<u8>)
    requires
        index == 0 ==> keys == seq![97u8, 61u8, 116u8, 44u8, 102u8, 61u8, 50u8, 52u8] + (if zipped {
            seq![44u8, 111u8, 61u8, 122u8]
        } else {
            Seq::<u8>::empty()
        }) + field(seq![44u8, 115u8, 61u8], width as nat) + field(seq![44u8, 118u8, 61u8], height as nat) + field(
            seq![44u8, 105u8, 61u8],
            image as nat,
        ) + quiet_key() + field(seq![44u8, 109u8, 61u8], more),
        index != 0 ==> keys == field(seq![109u8, 61u8], more) + quiet_key() + Seq::<u8>::empty(),
    ensures
        chunk_head(index, more, width, height, image, zipped) == seq![27u8, 95u8, 71u8] + keys + seq![59u8],
{
    assert(chunk_head(index, more, width, height, image, zipped) =~= seq![27u8, 95u8, 71u8] + keys + seq![59u8]);
}

/// Every command asks the terminal for no answer: freeing a picture, deleting a place, placing
/// one and every chunk of a transmission is one command whose keys are quiet, so they hold the
/// key `q=` exactly once, as `q=2` ([`lemma_a_quiet_command_has_one_quiet_key`]), and end at the
/// payload's `;` or at the command's end.
pub proof fn lemma_every_command_is_quiet(image: u32, number: u32, key: PlaceKey, encoded: Seq<u8>, index: int, total: int, width: u32, height: u32, zipped: bool)
    requires
        0 <= index,
    ensures
        exists|keys: Seq<u8>| command_with(free_bytes(image), keys) && quiet(keys),
        exists|keys: Seq<u8>| command_with(unplace_bytes(image, number), keys) && quiet(keys),
        exists|keys: Seq<u8>| command_with(place_bytes(key), keys) && quiet(keys),
        exists|keys: Seq<u8>| command_with(chunk_bytes(encoded, index, total, width, height, image, zipped), keys) && quiet(keys),
{
    let a = lemma_free_is_quiet(image);
    let b = lemma_unplace_is_quiet(image, number);
    let c = lemma_place_is_quiet(key);
    let d = lemma_chunk_is_quiet(encoded, index, total, width, height, image, zipped);
}

/// The commands that send `data`'s pixels under `image`: RGB, compressed with zlib when that
/// works, in base64 split into chunks the protocol allows.
pub open spec fn transmit_bytes(data: Picture, image: u32) -> Seq<u8> {
    let rgb = rgb_bytes(data.pixels@);
    let (payload, zipped) = match zlib_fast(rgb) {
        Some(z) => (z, true),
        None => (rgb, false),
    };
    let encoded = base64_encoded(payload);
    let total = chunk_count(encoded.len() as int);
    chunks(encoded, total, total, data.width, data.height, image, zipped)
}

/// The bytes of one command.
pub open spec fn command_bytes(placements: Seq<Placement>, command: KittyCommand) -> Seq<u8> {
    match command {
        KittyCommand::Free(image) => free_bytes(image),
        KittyCommand::Unplace(image, number) => unplace_bytes(image, number),
        KittyCommand::Transmit(index, image) => transmit_bytes(placements[index as int].data, image),
        KittyCommand::Place(index) => place_bytes(key_of(placements[index as int])),
    }
}

/// The bytes of `commands`, one after another.
pub open spec fn commands_bytes(placements: Seq<Placement>, commands: Seq<KittyCommand>) -> Seq<u8>
    decreases commands.len(),
{
    if commands.len() == 0 {
        Seq::empty()
    } else {
        commands_bytes(placements, commands.drop_last()) + command_bytes(placements, commands.last())
    }
}

/// The kitty pictures a screen has shown, and what the terminal holds of them.
#[derive(Debug)]
pub struct KittyPictures {
    /// The numbers of the pictures whose pixels the terminal holds.
    sent: Vec<u32>,
    /// The places shown now.
    shown: Vec<PlaceKey>,
    /// Whether every place must be written again, as after the terminal was cleared.
    place_all: bool,
    /// Whether every picture must be sent again, since the terminal may have lost them.
    send_all: bool,
}

impl View for KittyPictures {
    type V = KittyView;

    closed spec fn view(&self) -> KittyView {
        KittyView { sent: self.sent@, shown: self.shown@, place_all: self.place_all, send_all: self.send_all }
    }
}

/// The number the terminal keeps the picture with identity `id` under.
pub fn number(id: u64) -> (n: u32)
    ensures
        n == number_of(id),
        n >= 1,
{
    let wrapped = (id.saturating_sub(1) % (u32::MAX as u64)) + 1;
    wrapped as u32
}

/// Whether `items` holds `item`.
fn holds(items: &Vec<u32>, item: u32) -> (found: bool)
    ensures
        found == items@.contains(item),
{
    let mut i: usize = 0;
    while i < items.len()
        invariant
            i <= items@.len(),
            forall|j: int| 0 <= j < i ==> items@[j] != item,
        decreases items@.len() - i,
    {
        if items[i] == item {
            return true;
        }
        i = i + 1;
    }
    false
}

/// Whether `keys` holds `key`.
fn holds_key(keys: &Vec<PlaceKey>, key: PlaceKey) -> (found: bool)
    ensures
        found == keys@.contains(key),
{
    let mut i: usize = 0;
    while i < keys.len()
        invariant
            i <= keys@.len(),
            forall|j: int| 0 <= j < i ==> keys@[j] != key,
        decreases keys@.len() - i,
    {
        if keys[i] == key {
            return true;
        }
        i = i + 1;
    }
    false
}

/// The key of a placement.
fn key(p: &Placement) -> (k: PlaceKey)
    ensures
        k == key_of(*p),
{
    PlaceKey {
        id: p.data.id,
        number: p.number,
        column: p.cells.0,
        row: p.cells.1,
        columns: p.cells.2,
        rows: p.cells.3,
        x: p.crop.0,
        y: p.crop.1,
        width: p.crop.2,
        height: p.crop.3,
    }
}

impl KittyPictures {
    /// Nothing shown and nothing held.
    pub fn new() -> (pictures: Self)
        ensures
            pictures@.sent.len() == 0,
            pictures@.shown.len() == 0,
            !pictures@.place_all,
            !pictures@.send_all,
    {
        KittyPictures { sent: Vec::new(), shown: Vec::new(), place_all: false, send_all: false }
    }

    /// The commands that take the terminal from the places shown to `placements`, and notes them
    /// as shown. The pictures in `painted` (their identities) are still on screen, drawn another
    /// way this frame: their pixels stay in the terminal, only their places are deleted.
    pub fn plan(&mut self, placements: &[Placement], painted: &[u64]) -> (commands: Vec<KittyCommand>)
        ensures
            (final(self)@, commands@) == plan(old(self)@, keys_of(placements@), painted@),
    {
        let ghost keys = keys_of(placements@);
        let ghost s0 = self@;
        // The numbers of the pictures kept.
        let mut kept: Vec<u32> = Vec::new();
        let mut i: usize = 0;
        while i < placements.len()
            invariant
                i <= placements@.len(),
                keys == keys_of(placements@),
                kept@ == keys.take(i as int).map_values(|k: PlaceKey| number_of(k.id)),
            decreases placements@.len() - i,
        {
            kept.push(number(placements[i].data.id));
            assert(keys.take(i + 1).map_values(|k: PlaceKey| number_of(k.id)) =~= keys.take(i as int).map_values(
                |k: PlaceKey| number_of(k.id),
            ).push(number_of(placements@[i as int].data.id)));
            i = i + 1;
        }
        assert(keys.take(i as int) =~= keys);
        let ghost placed = kept@;
        let mut i: usize = 0;
        while i < painted.len()
            invariant
                i <= painted@.len(),
                kept@ == placed + painted@.take(i as int).map_values(|id: u64| number_of(id)),
            decreases painted@.len() - i,
        {
            kept.push(number(painted[i]));
            assert(placed + painted@.take(i + 1).map_values(|id: u64| number_of(id)) =~= (placed + painted@.take(
                i as int,
            ).map_values(|id: u64| number_of(id))).push(number_of(painted@[i as int])));
            i = i + 1;
        }
        assert(painted@.take(i as int) =~= painted@);
        assert(kept@ =~= kept_of(keys, painted@));
        // Free what is no longer kept; freeing a picture also deletes its places.
        let mut commands: Vec<KittyCommand> = Vec::new();
        let mut holding: Vec<u32> = Vec::new();
        let mut j: usize = 0;
        while j < self.sent.len()
            invariant
                j <= s0.sent.len(),
                self@ == s0,
                kept@ == kept_of(keys, painted@),
                commands@ == frees(s0.sent.take(j as int), kept@),
                holding@ == retained(s0.sent.take(j as int), kept@),
            decreases s0.sent.len() - j,
        {
            let sent = self.sent[j];
            proof {
                assert(s0.sent.take(j + 1).drop_last() =~= s0.sent.take(j as int));
                assert(s0.sent.take(j + 1).last() == sent);
            }
            if holds(&kept, sent) {
                holding.push(sent);
            } else {
                commands.push(KittyCommand::Free(sent));
            }
            j = j + 1;
        }
        assert(s0.sent.take(j as int) =~= s0.sent);
        let ghost freed = commands@;
        // Delete the places no longer used of the pictures kept.
        let mut j: usize = 0;
        while j < self.shown.len()
            invariant
                j <= s0.shown.len(),
                self@ == s0,
                keys == keys_of(placements@),
                kept@ == kept_of(keys, painted@),
                commands@ == freed + unplaces(s0.shown.take(j as int), keys, kept@),
            decreases s0.shown.len() - j,
        {
            let old = self.shown[j];
            let image = number(old.id);
            let mut still_placed = false;
            let mut k: usize = 0;
            while k < placements.len()
                invariant
                    k <= placements@.len(),
                    keys == keys_of(placements@),
                    still_placed == exists|q: int| 0 <= q < k && number_of(#[trigger] keys[q].id) == image && keys[q].number == old.number,
                decreases placements@.len() - k,
            {
                proof {
                    assert(keys[k as int] == key_of(placements@[k as int]));
                }
                let here = number(placements[k].data.id) == image && placements[k].number == old.number;
                let ghost was = still_placed;
                if here {
                    still_placed = true;
                }
                proof {
                    if here {
                        assert(0 <= k < k + 1 && number_of(keys[k as int].id) == image && keys[k as int].number == old.number);
                    }
                    if exists|q: int| 0 <= q < k + 1 && number_of(#[trigger] keys[q].id) == image && keys[q].number == old.number {
                        let q = choose|q: int| 0 <= q < k + 1 && number_of(#[trigger] keys[q].id) == image && keys[q].number == old.number;
                        if q < k {
                            assert(was);
                        } else {
                            assert(here);
                        }
                    }
                    if was {
                        let q = choose|q: int| 0 <= q < k && number_of(#[trigger] keys[q].id) == image && keys[q].number == old.number;
                        assert(0 <= q < k + 1);
                    }
                }
                k = k + 1;
            }
            proof {
                assert(s0.shown.take(j + 1).drop_last() =~= s0.shown.take(j as int));
                assert(s0.shown.take(j + 1).last() == old);
                assert(still_placed == still(keys, image, old.number));
            }
            if holds(&kept, image) && !still_placed {
                commands.push(KittyCommand::Unplace(image, old.number));
            }
            proof {
                assert(commands@ =~= freed + unplaces(s0.shown.take(j + 1), keys, kept@));
            }
            j = j + 1;
        }
        assert(s0.shown.take(j as int) =~= s0.shown);
        let ghost unplaced = commands@;
        if self.send_all {
            holding = Vec::new();
        }
        let ghost held = holding@;
        // Send the pictures the terminal does not hold.
        let mut now: Vec<u32> = Vec::new();
        let mut i: usize = 0;
        while i < placements.len()
            invariant
                i <= placements@.len(),
                keys == keys_of(placements@),
                (holding@, now@, commands@.skip(unplaced.len() as int)) == transmits(keys.take(i as int), held),
                commands@.len() >= unplaced.len(),
                commands@.take(unplaced.len() as int) == unplaced,
            decreases placements@.len() - i,
        {
            let image = number(placements[i].data.id);
            proof {
                assert(keys.take(i + 1).drop_last() =~= keys.take(i as int));
                assert(keys.take(i + 1).last() == key_of(placements@[i as int]));
            }
            let ghost before = commands@;
            if !holds(&holding, image) {
                commands.push(KittyCommand::Transmit(i, image));
                holding.push(image);
                now.push(image);
                assert(commands@.skip(unplaced.len() as int) =~= before.skip(unplaced.len() as int).push(
                    KittyCommand::Transmit(i, image),
                ));
                assert(commands@.take(unplaced.len() as int) =~= before.take(unplaced.len() as int));
            }
            i = i + 1;
        }
        assert(keys.take(i as int) =~= keys);
        let ghost sent_now = now@;
        let ghost transmitted = commands@;
        assert(transmitted =~= unplaced + transmitted.skip(unplaced.len() as int));
        // Place what is new, moved, or sent again.
        let mut i: usize = 0;
        while i < placements.len()
            invariant
                i <= placements@.len(),
                self@ == s0,
                keys == keys_of(placements@),
                now@ == sent_now,
                commands@ == transmitted + places(keys, s0.shown, s0.place_all, sent_now, i as int),
            decreases placements@.len() - i,
        {
            let k = key(&placements[i]);
            let again = self.place_all || holds(&now, number(k.id));
            proof {
                assert(keys[i as int] == k);
            }
            if again || !holds_key(&self.shown, k) {
                commands.push(KittyCommand::Place(i));
            }
            proof {
                assert(commands@ =~= transmitted + places(keys, s0.shown, s0.place_all, sent_now, i + 1));
            }
            i = i + 1;
        }
        // What is shown now.
        let mut shown: Vec<PlaceKey> = Vec::new();
        let mut i: usize = 0;
        while i < placements.len()
            invariant
                i <= placements@.len(),
                keys == keys_of(placements@),
                shown@ == keys.take(i as int),
            decreases placements@.len() - i,
        {
            shown.push(key(&placements[i]));
            assert(keys.take(i + 1) =~= keys.take(i as int).push(keys[i as int]));
            i = i + 1;
        }
        assert(keys.take(i as int) =~= keys);
        self.sent = holding;
        self.shown = shown;
        self.place_all = false;
        self.send_all = false;
        proof {
            let (v, c) = plan(s0, keys, painted@);
            assert(self@.sent == v.sent);
            assert(commands@ =~= c);
        }
        commands
    }
}

/// The bytes of a picture's pixels.
fn rgb_of(pixels: &Vec<Rgb>) -> (rgb: Vec<u8>)
    ensures
        rgb@ == rgb_bytes(pixels@),
{
    let mut rgb: Vec<u8> = Vec::new();
    let mut i: usize = 0;
    while i < pixels.len()
        invariant
            i <= pixels@.len(),
            rgb@ == rgb_bytes(pixels@.take(i as int)),
        decreases pixels@.len() - i,
    {
        let pixel = pixels[i];
        rgb.push(pixel.r);
        rgb.push(pixel.g);
        rgb.push(pixel.b);
        proof {
            assert(pixels@.take(i + 1).drop_last() =~= pixels@.take(i as int));
            assert(rgb@ =~= rgb_bytes(pixels@.take(i + 1)));
        }
        i = i + 1;
    }
    assert(pixels@.take(i as int) =~= pixels@);
    rgb
}

proof fn lemma_chunk_bounds(index: int, total: int, length: int)
    requires
        0 <= index < total,
        total == chunk_count(length),
        length >= 0,
    ensures
        index * (CHUNK as int) <= length,
        index * (CHUNK as int) < length,
{
    assert(length == (length / 4096) * 4096 + length % 4096);
    assert(index * 4096 < length);
}

/// Writes the start of chunk `index`.
#[verifier::spinoff_prover]
#[verifier::rlimit(40)]
fn write_chunk_head(out: &mut Vec<u8>, index: usize, more: u64, width: u32, height: u32, image: u32, zipped: bool)
    ensures
        final(out)@ == old(out)@ + chunk_head(index as int, more as nat, width, height, image, zipped),
{
    if index == 0 {
        put(out, &[27u8, 95u8, 71u8, 97u8, 61u8, 116u8, 44u8, 102u8, 61u8, 50u8, 52u8]);
        if zipped {
            put(out, &[44u8, 111u8, 61u8, 122u8]);
        }
        let ghost a = out@;
        put(out, &[44u8, 115u8, 61u8]);
        push_decimal(out, width as u64);
        put(out, &[44u8, 118u8, 61u8]);
        push_decimal(out, height as u64);
        let ghost b = out@;
        assert(b =~= a + (seq![44u8, 115u8, 61u8] + decimal(width as nat) + seq![44u8, 118u8, 61u8] + decimal(height as nat)));
        put(out, &[44u8, 105u8, 61u8]);
        push_decimal(out, image as u64);
        put(out, &[44u8, 113u8, 61u8, 50u8, 44u8, 109u8, 61u8]);
        push_decimal(out, more);
        out.push(59);
        assert(out@ =~= b + (seq![44u8, 105u8, 61u8] + decimal(image as nat) + seq![44u8, 113u8, 61u8, 50u8, 44u8, 109u8, 61u8] + decimal(more as nat) + seq![59u8]));
        assert(out@ =~= old(out)@ + chunk_head(index as int, more as nat, width, height, image, zipped));
    } else {
        put(out, &[27u8, 95u8, 71u8, 109u8, 61u8]);
        push_decimal(out, more);
        put(out, &[44u8, 113u8, 61u8, 50u8, 59u8]);
        assert(out@ =~= old(out)@ + chunk_head(index as int, more as nat, width, height, image, zipped));
    }
}

/// Writes chunk `index` of `total` of a transmission of `encoded`.
fn write_chunk(out: &mut Vec<u8>, encoded: &[u8], index: usize, total: usize, width: u32, height: u32, image: u32, zipped: bool)
    requires
        index < total,
        total == chunk_count(encoded@.len() as int),
        index * (CHUNK as int) < encoded@.len(),
    ensures
        final(out)@ == old(out)@ + chunk_bytes(encoded@, index as int, total as int, width, height, image, zipped),
{
    let more: u64 = if index + 1 < total { 1 } else { 0 };
    write_chunk_head(out, index, more, width, height, image, zipped);
    let ghost a = out@;
    let length = encoded.len();
    let from = index * CHUNK;
    let to = if length - from >= CHUNK { from + CHUNK } else { length };
    put(out, &encoded[from..to]);
    put(out, &[27u8, 92u8]);
    assert(out@ =~= a + (encoded@.subrange(from as int, to as int) + seq![27u8, 92u8]));
    assert(out@ =~= old(out)@ + chunk_bytes(encoded@, index as int, total as int, width, height, image, zipped));
}

/// Writes the commands that send `data`'s pixels under `image`.
fn transmit(out: &mut Vec<u8>, data: &Picture, image: u32)
    ensures
        final(out)@ == old(out)@ + transmit_bytes(*data, image),
{
    let rgb = rgb_of(&data.pixels);
    let ghost raw = rgb@;
    let (payload, zipped) = match compress(rgb.as_slice()) {
        Some(zipped) => (zipped, true),
        None => (rgb, false),
    };
    let text = base64(payload.as_slice());
    let encoded = text.as_str().as_bytes();
    let ghost e = base64_encoded(payload@);
    proof {
        lemma_encoded_text_bytes(payload@);
        assert(encoded@ == e);
    }
    let length = encoded.len();
    let total = length / CHUNK + if length % CHUNK > 0 { 1 } else { 0 };
    let ghost start = out@;
    let mut index: usize = 0;
    while index < total
        invariant
            encoded@ == e,
            length == e.len(),
            total == chunk_count(length as int),
            index <= total,
            out@ == start + chunks(e, index as int, total as int, data.width, data.height, image, zipped),
        decreases total - index,
    {
        proof {
            lemma_chunk_bounds(index as int, total as int, length as int);
        }
        write_chunk(out, encoded, index, total, data.width, data.height, image, zipped);
        index = index + 1;
    }
}

/// Writes the command that frees picture `image`.
fn write_free(out: &mut Vec<u8>, image: u32)
    ensures
        final(out)@ == old(out)@ + free_bytes(image),
{
    put(out, &[27u8, 95u8, 71u8, 97u8, 61u8, 100u8, 44u8, 100u8, 61u8, 73u8, 44u8, 105u8, 61u8]);
    push_decimal(out, image as u64);
    put(out, &[44u8, 113u8, 61u8, 50u8, 27u8, 92u8]);
    assert(final(out)@ =~= old(out)@ + free_bytes(image));
}

/// Writes the command that deletes place `number` of picture `image`.
fn write_unplace(out: &mut Vec<u8>, image: u32, number: u32)
    ensures
        final(out)@ == old(out)@ + unplace_bytes(image, number),
{
    put(out, &[27u8, 95u8, 71u8, 97u8, 61u8, 100u8, 44u8, 100u8, 61u8, 105u8, 44u8, 105u8, 61u8]);
    push_decimal(out, image as u64);
    put(out, &[44u8, 112u8, 61u8]);
    push_decimal(out, number as u64);
    put(out, &[44u8, 113u8, 61u8, 50u8, 27u8, 92u8]);
    assert(final(out)@ =~= old(out)@ + unplace_bytes(image, number));
}

/// Writes a field.
fn write_field(out: &mut Vec<u8>, tag: &[u8], value: u64)
    ensures
        final(out)@ == old(out)@ + field(tag@, value as nat),
{
    put(out, tag);
    push_decimal(out, value);
    assert(final(out)@ =~= old(out)@ + field(tag@, value as nat));
}

/// Writes the command that shows `placement`.
fn write_place(out: &mut Vec<u8>, placement: &Placement)
    ensures
        final(out)@ == old(out)@ + place_bytes(key_of(*placement)),
{
    let (column, row, columns, rows) = placement.cells;
    let (x, y, width, height) = placement.crop;
    let ghost k = key_of(*placement);
    let ghost o = out@;
    write_field(out, &[27u8, 91u8], row as u64 + 1);
    let ghost f1 = out@;
    write_field(out, &[59u8], column as u64 + 1);
    let ghost f2 = out@;
    write_field(out, &[72u8, 27u8, 95u8, 71u8, 97u8, 61u8, 112u8, 44u8, 105u8, 61u8], number(placement.data.id) as u64);
    let ghost f3 = out@;
    write_field(out, &[44u8, 112u8, 61u8], placement.number as u64);
    let ghost a = out@;
    proof {
        assert(a =~= o + place_head(k));
    }
    write_field(out, &[44u8, 120u8, 61u8], x as u64);
    write_field(out, &[44u8, 121u8, 61u8], y as u64);
    write_field(out, &[44u8, 119u8, 61u8], width as u64);
    write_field(out, &[44u8, 104u8, 61u8], height as u64);
    let ghost b = out@;
    proof {
        assert(b =~= a + place_crop(k));
    }
    write_field(out, &[44u8, 99u8, 61u8], columns as u64);
    write_field(out, &[44u8, 114u8, 61u8], rows as u64);
    put(out, &[44u8, 122u8, 61u8, 45u8, 49u8, 44u8, 67u8, 61u8, 49u8, 44u8, 113u8, 61u8, 50u8, 27u8, 92u8]);
    proof {
        assert(out@ =~= b + place_tail(k));
        assert(out@ =~= o + place_bytes(k));
    }
}

/// Whether every placement a command names is among `count` placements.
pub open spec fn within(commands: Seq<KittyCommand>, count: int) -> bool {
    forall|j: int| 0 <= j < commands.len() ==> match #[trigger] commands[j] {
        KittyCommand::Transmit(index, _) => index < count,
        KittyCommand::Place(index) => index < count,
        _ => true,
    }
}

proof fn lemma_frees_within(sent: Seq<u32>, kept: Seq<u32>, count: int)
    ensures
        within(frees(sent, kept), count),
    decreases sent.len(),
{
    if sent.len() > 0 {
        lemma_frees_within(sent.drop_last(), kept, count);
    }
}

proof fn lemma_unplaces_within(shown: Seq<PlaceKey>, keys: Seq<PlaceKey>, kept: Seq<u32>, count: int)
    ensures
        within(unplaces(shown, keys, kept), count),
    decreases shown.len(),
{
    if shown.len() > 0 {
        lemma_unplaces_within(shown.drop_last(), keys, kept, count);
    }
}

proof fn lemma_transmits_within(keys: Seq<PlaceKey>, sent: Seq<u32>)
    ensures
        within(transmits(keys, sent).2, keys.len() as int),
    decreases keys.len(),
{
    if keys.len() > 0 {
        lemma_transmits_within(keys.drop_last(), sent);
    }
}

proof fn lemma_places_within(keys: Seq<PlaceKey>, shown: Seq<PlaceKey>, place_all: bool, now: Seq<u32>, n: int)
    requires
        n <= keys.len(),
    ensures
        within(places(keys, shown, place_all, now, n), keys.len() as int),
    decreases n,
{
    if n > 0 {
        lemma_places_within(keys, shown, place_all, now, n - 1);
    }
}

proof fn lemma_within_append(a: Seq<KittyCommand>, b: Seq<KittyCommand>, count: int)
    requires
        within(a, count),
        within(b, count),
    ensures
        within(a + b, count),
{
    assert forall|j: int| 0 <= j < (a + b).len() implies match #[trigger] (a + b)[j] {
        KittyCommand::Transmit(index, _) => index < count,
        KittyCommand::Place(index) => index < count,
        _ => true,
    } by {
        if j < a.len() {
            assert((a + b)[j] == a[j]);
        } else {
            assert((a + b)[j] == b[j - a.len()]);
        }
    }
}

/// Every placement the commands of a plan name is one of the placements given.
proof fn lemma_plan_within(s: KittyView, keys: Seq<PlaceKey>, painted: Seq<u64>)
    ensures
        within(plan(s, keys, painted).1, keys.len() as int),
{
    let kept = kept_of(keys, painted);
    let holding = if s.send_all { Seq::empty() } else { retained(s.sent, kept) };
    let (sent, now, sends) = transmits(keys, holding);
    lemma_frees_within(s.sent, kept, keys.len() as int);
    lemma_unplaces_within(s.shown, keys, kept, keys.len() as int);
    lemma_transmits_within(keys, holding);
    lemma_places_within(keys, s.shown, s.place_all, now, keys.len() as int);
    lemma_within_append(frees(s.sent, kept), unplaces(s.shown, keys, kept), keys.len() as int);
    lemma_within_append(frees(s.sent, kept) + unplaces(s.shown, keys, kept), sends, keys.len() as int);
    lemma_within_append(frees(s.sent, kept) + unplaces(s.shown, keys, kept) + sends, places(keys, s.shown, s.place_all, now, keys.len() as int), keys.len() as int);
}

/// Writes `commands`.
fn write_commands(out: &mut Vec<u8>, placements: &[Placement], commands: &Vec<KittyCommand>)
    requires
        within(commands@, placements@.len() as int),
    ensures
        final(out)@ == old(out)@ + commands_bytes(placements@, commands@),
{
    let ghost start = out@;
    let mut j: usize = 0;
    while j < commands.len()
        invariant
            j <= commands@.len(),
            within(commands@, placements@.len() as int),
            out@ == start + commands_bytes(placements@, commands@.take(j as int)),
        decreases commands@.len() - j,
    {
        let command = commands[j];
        let ghost before = out@;
        match command {
            KittyCommand::Free(image) => write_free(out, image),
            KittyCommand::Unplace(image, number) => write_unplace(out, image, number),
            KittyCommand::Transmit(index, image) => transmit(out, &placements[index].data, image),
            KittyCommand::Place(index) => write_place(out, &placements[index]),
        }
        proof {
            assert(commands@.take(j + 1).drop_last() =~= commands@.take(j as int));
            assert(commands@.take(j + 1).last() == command);
            assert(out@ =~= start + commands_bytes(placements@, commands@.take(j + 1)));
        }
        j = j + 1;
    }
    assert(commands@.take(j as int) =~= commands@);
}

/// The frees of every picture in `sent`.
pub open spec fn free_all(sent: Seq<u32>) -> Seq<u8>
    decreases sent.len(),
{
    if sent.len() == 0 { Seq::empty() } else { free_all(sent.drop_last()) + free_bytes(sent.last()) }
}

impl KittyPictures {
    /// The commands that take the terminal from the places shown to `placements`, and notes them
    /// as shown. Empty when they are the same.
    pub fn commands(&mut self, placements: &[Placement], painted: &[u64]) -> (out: Vec<u8>)
        ensures
            final(self)@ == plan(old(self)@, keys_of(placements@), painted@).0,
            out@ == commands_bytes(placements@, plan(old(self)@, keys_of(placements@), painted@).1),
    {
        let commands = self.plan(placements, painted);
        proof {
            lemma_plan_within(old(self)@, keys_of(placements@), painted@);
        }
        let mut out: Vec<u8> = Vec::new();
        write_commands(&mut out, placements, &commands);
        out
    }

    /// Frees every picture the terminal holds, for before the terminal is handed to a program
    /// or left. The next frame sends what it shows again.
    pub fn release(&mut self) -> (out: Vec<u8>)
        ensures
            out@ == free_all(old(self)@.sent),
            final(self)@.sent.len() == 0,
            final(self)@.shown.len() == 0,
            final(self)@.place_all == old(self)@.place_all,
            final(self)@.send_all == old(self)@.send_all,
    {
        let mut out: Vec<u8> = Vec::new();
        let mut j: usize = 0;
        while j < self.sent.len()
            invariant
                j <= self.sent@.len(),
                out@ == free_all(self.sent@.take(j as int)),
            decreases self.sent@.len() - j,
        {
            write_free(&mut out, self.sent[j]);
            proof {
                assert(self.sent@.take(j + 1).drop_last() =~= self.sent@.take(j as int));
            }
            j = j + 1;
        }
        assert(self.sent@.take(j as int) =~= self.sent@);
        self.sent = Vec::new();
        self.shown = Vec::new();
        out
    }

    /// Forgets what the terminal holds, after a program wrote over it: the next frame sends every
    /// picture it shows and places it again.
    pub fn forget(&mut self)
        ensures
            final(self)@.sent == old(self)@.sent,
            final(self)@.shown == old(self)@.shown,
            final(self)@.place_all,
            final(self)@.send_all,
    {
        self.place_all = true;
        self.send_all = true;
    }

    /// Notes that the terminal was cleared for a new size: the next frame places every picture
    /// again.
    pub fn resized(&mut self)
        ensures
            final(self)@.sent == old(self)@.sent,
            final(self)@.shown == old(self)@.shown,
            final(self)@.place_all,
            final(self)@.send_all == old(self)@.send_all,
    {
        self.place_all = true;
    }
}

proof fn lemma_kept_holds_keys(keys: Seq<PlaceKey>, painted: Seq<u64>, i: int)
    requires
        0 <= i < keys.len(),
    ensures
        kept_of(keys, painted).contains(number_of(keys[i].id)),
{
    let kept = kept_of(keys, painted);
    assert(kept[i] == number_of(keys[i].id));
}

proof fn lemma_retained(sent: Seq<u32>, kept: Seq<u32>)
    ensures
        forall|x: u32| retained(sent, kept).contains(x) ==> sent.contains(x) && kept.contains(x),
        (forall|x: u32| sent.contains(x) ==> kept.contains(x)) ==> retained(sent, kept) == sent && frees(sent, kept).len() == 0,
    decreases sent.len(),
{
    if sent.len() > 0 {
        lemma_retained(sent.drop_last(), kept);
        let r = retained(sent.drop_last(), kept);
        assert forall|x: u32| retained(sent, kept).contains(x) implies sent.contains(x) && kept.contains(x) by {
            if r.contains(x) {
                let k = choose|k: int| 0 <= k < r.len() && r[k] == x;
                assert(sent.drop_last().contains(x));
                let m = choose|m: int| 0 <= m < sent.drop_last().len() && sent.drop_last()[m] == x;
                assert(sent[m] == x);
            } else {
                assert(x == sent.last());
                assert(sent[sent.len() - 1] == x);
            }
        }
        if forall|x: u32| sent.contains(x) ==> kept.contains(x) {
            assert forall|x: u32| sent.drop_last().contains(x) implies kept.contains(x) by {
                let m = choose|m: int| 0 <= m < sent.drop_last().len() && sent.drop_last()[m] == x;
                assert(sent[m] == x);
            }
            assert(sent[sent.len() - 1] == sent.last());
            assert(sent.drop_last().push(sent.last()) =~= sent);
        }
    }
}

proof fn lemma_transmits(keys: Seq<PlaceKey>, sent: Seq<u32>)
    ensures
        forall|x: u32| sent.contains(x) ==> transmits(keys, sent).0.contains(x),
        forall|i: int| 0 <= i < keys.len() ==> transmits(keys, sent).0.contains(number_of(#[trigger] keys[i].id)),
        forall|x: u32| transmits(keys, sent).0.contains(x) ==> sent.contains(x) || exists|i: int| 0 <= i < keys.len() && number_of(#[trigger] keys[i].id) == x,
        (forall|i: int| 0 <= i < keys.len() ==> sent.contains(number_of(#[trigger] keys[i].id))) ==> transmits(keys, sent) == (sent, Seq::<u32>::empty(), Seq::<KittyCommand>::empty()),
    decreases keys.len(),
{
    if keys.len() > 0 {
        let front = keys.drop_last();
        lemma_transmits(front, sent);
        let (s, now, cmds) = transmits(front, sent);
        let image = number_of(keys.last().id);
        let t = transmits(keys, sent).0;
        assert forall|x: u32| sent.contains(x) implies t.contains(x) by {
            assert(s.contains(x));
            let k = choose|k: int| 0 <= k < s.len() && s[k] == x;
            if !s.contains(image) {
                assert(s.push(image)[k] == x);
            }
        }
        assert forall|i: int| 0 <= i < keys.len() implies t.contains(number_of(#[trigger] keys[i].id)) by {
            if i < front.len() {
                assert(front[i] == keys[i]);
                assert(s.contains(number_of(front[i].id)));
                let k = choose|k: int| 0 <= k < s.len() && s[k] == number_of(front[i].id);
                if !s.contains(image) {
                    assert(s.push(image)[k] == s[k]);
                }
            } else {
                assert(keys[i] == keys.last());
                if !s.contains(image) {
                    assert(s.push(image)[s.len() as int] == image);
                }
            }
        }
        assert forall|x: u32| t.contains(x) implies sent.contains(x) || exists|i: int| 0 <= i < keys.len() && number_of(#[trigger] keys[i].id) == x by {
            let k = choose|k: int| 0 <= k < t.len() && t[k] == x;
            if k < s.len() {
                assert(s.contains(x));
                if !sent.contains(x) {
                    let i = choose|i: int| 0 <= i < front.len() && number_of(#[trigger] front[i].id) == x;
                    assert(keys[i] == front[i]);
                }
            } else {
                assert(x == image);
                assert(number_of(keys[keys.len() - 1].id) == x);
            }
        }
        if forall|i: int| 0 <= i < keys.len() ==> sent.contains(number_of(#[trigger] keys[i].id)) {
            assert forall|i: int| 0 <= i < front.len() implies sent.contains(number_of(#[trigger] front[i].id)) by {
                assert(front[i] == keys[i]);
            }
            assert(keys[keys.len() - 1] == keys.last());
        }
    }
}

proof fn lemma_unplaces_of_own(keys: Seq<PlaceKey>, kept: Seq<u32>, n: int)
    requires
        0 <= n <= keys.len(),
    ensures
        unplaces(keys.take(n), keys, kept).len() == 0,
    decreases n,
{
    if n > 0 {
        lemma_unplaces_of_own(keys, kept, n - 1);
        assert(keys.take(n).drop_last() =~= keys.take(n - 1));
        let old = keys.take(n).last();
        assert(old == keys[n - 1]);
        assert(still(keys, number_of(old.id), old.number));
    }
}

proof fn lemma_places_of_shown(keys: Seq<PlaceKey>, n: int)
    requires
        0 <= n <= keys.len(),
    ensures
        places(keys, keys, false, Seq::empty(), n).len() == 0,
    decreases n,
{
    if n > 0 {
        lemma_places_of_shown(keys, n - 1);
        assert(keys.contains(keys[n - 1]));
    }
}

proof fn lemma_transmits_all(keys: Seq<PlaceKey>)
    ensures
        transmits(keys, Seq::empty()).0 == transmits(keys, Seq::empty()).1,
        forall|i: int| 0 <= i < keys.len() ==> transmits(keys, Seq::empty()).1.contains(number_of(#[trigger] keys[i].id)),
        forall|x: u32| #[trigger] transmits(keys, Seq::empty()).1.contains(x) ==> exists|j: usize|
            transmits(keys, Seq::empty()).2.contains(KittyCommand::Transmit(j, x)),
    decreases keys.len(),
{
    if keys.len() > 0 {
        let rest = keys.drop_last();
        lemma_transmits_all(rest);
        let before = transmits(rest, Seq::empty());
        let after = transmits(keys, Seq::empty());
        let image = number_of(keys.last().id);
        let fresh = !before.0.contains(image);
        if fresh {
            assert(after.1 == before.1.push(image));
            assert(after.2 == before.2.push(KittyCommand::Transmit((keys.len() - 1) as usize, image)));
        } else {
            assert(after.1 == before.1);
            assert(after.2 == before.2);
        }
        assert forall|i: int| 0 <= i < keys.len() implies after.1.contains(number_of(#[trigger] keys[i].id)) by {
            if i < keys.len() - 1 {
                assert(rest[i] == keys[i]);
                assert(before.1.contains(number_of(rest[i].id)));
                let j = choose|j: int| 0 <= j < before.1.len() && before.1[j] == number_of(keys[i].id);
                assert(after.1[j] == number_of(keys[i].id));
            } else if fresh {
                assert(after.1[before.1.len() as int] == image);
            } else {
                assert(before.1.contains(image));
            }
        }
        assert forall|x: u32| #[trigger] after.1.contains(x) implies exists|j: usize|
            after.2.contains(KittyCommand::Transmit(j, x)) by {
            if before.1.contains(x) {
                let j = choose|j: usize| before.2.contains(KittyCommand::Transmit(j, x));
                let m = choose|m: int| 0 <= m < before.2.len() && before.2[m] == KittyCommand::Transmit(j, x);
                assert(after.2[m] == KittyCommand::Transmit(j, x));
                assert(after.2.contains(KittyCommand::Transmit(j, x)));
            } else {
                let k = choose|k: int| 0 <= k < after.1.len() && after.1[k] == x;
                assert(k == before.1.len());
                let j = (keys.len() - 1) as usize;
                assert(after.2[before.2.len() as int] == KittyCommand::Transmit(j, x));
                assert(after.2.contains(KittyCommand::Transmit(j, x)));
            }
        }
    }
}

proof fn lemma_places_all(keys: Seq<PlaceKey>, shown: Seq<PlaceKey>, place_all: bool, now: Seq<u32>, n: int)
    requires
        0 <= n <= keys.len(),
        place_all || shown.len() == 0,
    ensures
        places(keys, shown, place_all, now, n).len() == n,
        forall|i: int| 0 <= i < n ==> #[trigger] places(keys, shown, place_all, now, n)[i] == KittyCommand::Place(i as usize),
    decreases n,
{
    if n > 0 {
        lemma_places_all(keys, shown, place_all, now, n - 1);
        let before = places(keys, shown, place_all, now, n - 1);
        let all = places(keys, shown, place_all, now, n);
        assert(!shown.contains(keys[n - 1]) || place_all);
        assert forall|i: int| 0 <= i < n implies #[trigger] all[i] == KittyCommand::Place(i as usize) by {
            if i < n - 1 {
                assert(all[i] == before[i]);
            }
        }
    }
}

/// Every picture `keys` show is sent, and every place placed, when the terminal holds nothing of
/// them.
proof fn lemma_everything_is_sent(s: KittyView, keys: Seq<PlaceKey>, painted: Seq<u64>, i: int)
    requires
        s.send_all || s.sent.len() == 0,
        s.place_all || s.shown.len() == 0,
        0 <= i < keys.len(),
    ensures
        exists|j: usize| plan(s, keys, painted).1.contains(KittyCommand::Transmit(j, number_of(keys[i].id))),
        plan(s, keys, painted).1.contains(KittyCommand::Place(i as usize)),
{
    let kept = kept_of(keys, painted);
    if !s.send_all {
        lemma_retained(s.sent, kept);
        assert(retained(s.sent, kept) =~= Seq::<u32>::empty());
    }
    lemma_transmits_all(keys);
    lemma_places_all(keys, s.shown, s.place_all, transmits(keys, Seq::empty()).1, keys.len() as int);
    let front = frees(s.sent, kept) + unplaces(s.shown, keys, kept) + transmits(keys, Seq::empty()).2;
    let all_places = places(keys, s.shown, s.place_all, transmits(keys, Seq::empty()).1, keys.len() as int);
    assert(plan(s, keys, painted).1 == front + all_places);
    assert((front + all_places)[front.len() + i] == KittyCommand::Place(i as usize));
    let number = number_of(keys[i].id);
    assert(transmits(keys, Seq::empty()).1.contains(number));
    let j = choose|j: usize| transmits(keys, Seq::empty()).2.contains(KittyCommand::Transmit(j, number));
    let sends = transmits(keys, Seq::empty()).2;
    let m = choose|m: int| 0 <= m < sends.len() && sends[m] == KittyCommand::Transmit(j, number);
    let head = frees(s.sent, kept) + unplaces(s.shown, keys, kept);
    assert(front[head.len() + m] == KittyCommand::Transmit(j, number));
    assert((front + all_places)[head.len() + m] == KittyCommand::Transmit(j, number));
}

/// After the terminal was written over, the next frame sends every picture it shows again and
/// places every place again, whatever the terminal held before.
pub proof fn lemma_after_a_handoff_everything_is_sent_again(s: KittyView, keys: Seq<PlaceKey>, painted: Seq<u64>, i: int)
    requires
        s.place_all,
        s.send_all,
        0 <= i < keys.len(),
    ensures
        exists|j: usize| plan(s, keys, painted).1.contains(KittyCommand::Transmit(j, number_of(keys[i].id))),
        plan(s, keys, painted).1.contains(KittyCommand::Place(i as usize)),
{
    lemma_everything_is_sent(s, keys, painted, i);
}

/// After every picture was freed, the next frame sends every picture it shows again and places
/// every place again.
pub proof fn lemma_after_a_release_everything_is_sent_again(s: KittyView, keys: Seq<PlaceKey>, painted: Seq<u64>, i: int)
    requires
        s.sent.len() == 0,
        s.shown.len() == 0,
        0 <= i < keys.len(),
    ensures
        exists|j: usize| plan(s, keys, painted).1.contains(KittyCommand::Transmit(j, number_of(keys[i].id))),
        plan(s, keys, painted).1.contains(KittyCommand::Place(i as usize)),
{
    lemma_everything_is_sent(s, keys, painted, i);
}

/// A frame with the same places as the one before writes nothing at all, and changes nothing:
/// whatever the terminal held before, after one frame the same frame again has no command.
pub proof fn lemma_the_same_frame_writes_nothing(s: KittyView, keys: Seq<PlaceKey>, painted: Seq<u64>)
    ensures
        plan(plan(s, keys, painted).0, keys, painted) == (plan(s, keys, painted).0, Seq::<KittyCommand>::empty()),
{
    let kept = kept_of(keys, painted);
    let holding = if s.send_all { Seq::empty() } else { retained(s.sent, kept) };
    lemma_retained(s.sent, kept);
    lemma_transmits(keys, holding);
    let s1 = plan(s, keys, painted).0;
    assert forall|x: u32| s1.sent.contains(x) implies kept.contains(x) by {
        if holding.contains(x) {
            if !s.send_all {
                assert(retained(s.sent, kept).contains(x));
            }
        } else {
            let i = choose|i: int| 0 <= i < keys.len() && number_of(#[trigger] keys[i].id) == x;
            lemma_kept_holds_keys(keys, painted, i);
        }
    }
    lemma_retained(s1.sent, kept);
    lemma_transmits(keys, s1.sent);
    lemma_unplaces_of_own(keys, kept, keys.len() as int);
    assert(keys.take(keys.len() as int) =~= keys);
    lemma_places_of_shown(keys, keys.len() as int);
    let (s2, c2) = plan(s1, keys, painted);
    assert(c2 =~= Seq::<KittyCommand>::empty());
}

/// Whether `commands` sends no pixels.
pub open spec fn sends_nothing(commands: Seq<KittyCommand>) -> bool {
    forall|j: int| 0 <= j < commands.len() ==> !(#[trigger] commands[j] is Transmit)
}

proof fn lemma_only_transmits_send(s: KittyView, keys: Seq<PlaceKey>, kept: Seq<u32>, now: Seq<u32>)
    ensures
        sends_nothing(frees(s.sent, kept)),
        sends_nothing(unplaces(s.shown, keys, kept)),
        sends_nothing(places(keys, s.shown, s.place_all, now, keys.len() as int)),
{
    lemma_frees_send_nothing(s.sent, kept);
    lemma_unplaces_send_nothing(s.shown, keys, kept);
    lemma_places_send_nothing(keys, s.shown, s.place_all, now, keys.len() as int);
}

proof fn lemma_frees_send_nothing(sent: Seq<u32>, kept: Seq<u32>)
    ensures
        sends_nothing(frees(sent, kept)),
    decreases sent.len(),
{
    if sent.len() > 0 {
        lemma_frees_send_nothing(sent.drop_last(), kept);
    }
}

proof fn lemma_unplaces_send_nothing(shown: Seq<PlaceKey>, keys: Seq<PlaceKey>, kept: Seq<u32>)
    ensures
        sends_nothing(unplaces(shown, keys, kept)),
    decreases shown.len(),
{
    if shown.len() > 0 {
        lemma_unplaces_send_nothing(shown.drop_last(), keys, kept);
    }
}

proof fn lemma_places_send_nothing(keys: Seq<PlaceKey>, shown: Seq<PlaceKey>, place_all: bool, now: Seq<u32>, n: int)
    ensures
        sends_nothing(places(keys, shown, place_all, now, n)),
    decreases n,
{
    if n > 0 {
        lemma_places_send_nothing(keys, shown, place_all, now, n - 1);
    }
}

/// The number of the picture a command sends; 0 for the others.
pub open spec fn sent_image(command: KittyCommand) -> u32 {
    match command {
        KittyCommand::Transmit(_, image) => image,
        _ => 0,
    }
}

proof fn lemma_transmits_fresh(keys: Seq<PlaceKey>, sent: Seq<u32>)
    ensures
        forall|j: int| 0 <= j < transmits(keys, sent).2.len() ==> (#[trigger] transmits(keys, sent).2[j]) is Transmit
            && !sent.contains(sent_image(transmits(keys, sent).2[j]))
            && transmits(keys, sent).0.contains(sent_image(transmits(keys, sent).2[j])),
        forall|j: int, k: int| 0 <= j < k < transmits(keys, sent).2.len() ==> sent_image(#[trigger] transmits(keys, sent).2[j])
            != sent_image(#[trigger] transmits(keys, sent).2[k]),
    decreases keys.len(),
{
    if keys.len() > 0 {
        let front = keys.drop_last();
        lemma_transmits_fresh(front, sent);
        let (s, now, cmds) = transmits(front, sent);
        let image = number_of(keys.last().id);
        if !s.contains(image) {
            let t = transmits(keys, sent);
            assert(t.0 == s.push(image));
            assert forall|x: u32| s.contains(x) implies s.push(image).contains(x) by {
                let k = choose|k: int| 0 <= k < s.len() && s[k] == x;
                assert(s.push(image)[k] == x);
            }
            assert(s.push(image)[s.len() as int] == image);
            assert forall|j: int| 0 <= j < t.2.len() implies (#[trigger] t.2[j]) is Transmit && !sent.contains(sent_image(t.2[j]))
                && t.0.contains(sent_image(t.2[j])) by {
                if j < cmds.len() {
                    assert(t.2[j] == cmds[j]);
                } else {
                    let (s0, _, _) = transmits(front, sent);
                    lemma_transmits(front, sent);
                }
            }
            assert forall|j: int, k: int| 0 <= j < k < t.2.len() implies sent_image(#[trigger] t.2[j]) != sent_image(#[trigger] t.2[k]) by {
                if k < cmds.len() {
                    assert(t.2[j] == cmds[j] && t.2[k] == cmds[k]);
                } else {
                    assert(t.2[j] == cmds[j]);
                    assert(s.contains(sent_image(cmds[j])));
                }
            }
        }
    }
}

/// A picture's pixels cross the wire once: a frame sends each picture at most once, and never
/// one the terminal holds and still needs, unless it may have lost them.
pub proof fn lemma_pixels_cross_once(s: KittyView, keys: Seq<PlaceKey>, painted: Seq<u64>)
    ensures
        forall|j: int| 0 <= j < plan(s, keys, painted).1.len() && (#[trigger] plan(s, keys, painted).1[j]) is Transmit && !s.send_all
            ==> !(s.sent.contains(sent_image(plan(s, keys, painted).1[j])) && kept_of(keys, painted).contains(sent_image(plan(s, keys, painted).1[j]))),
        forall|j: int, k: int| 0 <= j < k < plan(s, keys, painted).1.len() && (#[trigger] plan(s, keys, painted).1[j]) is Transmit
            && (#[trigger] plan(s, keys, painted).1[k]) is Transmit ==> sent_image(plan(s, keys, painted).1[j]) != sent_image(plan(s, keys, painted).1[k]),
{
    let kept = kept_of(keys, painted);
    let holding = if s.send_all { Seq::empty() } else { retained(s.sent, kept) };
    let (sent, now, sends) = transmits(keys, holding);
    let a = frees(s.sent, kept) + unplaces(s.shown, keys, kept);
    let p = places(keys, s.shown, s.place_all, now, keys.len() as int);
    let c = plan(s, keys, painted).1;
    assert(c == a + sends + p);
    lemma_only_transmits_send(s, keys, kept, now);
    lemma_transmits_fresh(keys, holding);
    lemma_retained(s.sent, kept);
    assert forall|j: int| 0 <= j < c.len() && #[trigger] c[j] is Transmit implies a.len() <= j < a.len() + sends.len() && c[j] == sends[j - a.len()] by {
        if j < a.len() {
            if j < frees(s.sent, kept).len() {
                assert(a[j] == frees(s.sent, kept)[j]);
            } else {
                assert(a[j] == unplaces(s.shown, keys, kept)[j - frees(s.sent, kept).len()]);
            }
            assert(c[j] == a[j]);
        } else if j >= a.len() + sends.len() {
            assert(c[j] == p[j - a.len() - sends.len()]);
        } else {
            assert(c[j] == sends[j - a.len()]);
        }
    }
    assert forall|j: int| 0 <= j < c.len() && (#[trigger] c[j]) is Transmit && !s.send_all
        implies !(s.sent.contains(sent_image(c[j])) && kept.contains(sent_image(c[j]))) by {
        let x = sent_image(c[j]);
        if s.sent.contains(x) && kept.contains(x) {
            lemma_retained_holds(s.sent, kept, x);
        }
    }
}

proof fn lemma_retained_holds(sent: Seq<u32>, kept: Seq<u32>, x: u32)
    requires
        sent.contains(x),
        kept.contains(x),
    ensures
        retained(sent, kept).contains(x),
    decreases sent.len(),
{
    let r = retained(sent.drop_last(), kept);
    if sent.last() == x {
        assert(r.push(x)[r.len() as int] == x);
    } else {
        let k = choose|k: int| 0 <= k < sent.len() && sent[k] == x;
        assert(sent.drop_last()[k] == x);
        lemma_retained_holds(sent.drop_last(), kept, x);
        let m = choose|m: int| 0 <= m < r.len() && r[m] == x;
        if kept.contains(sent.last()) {
            assert(r.push(sent.last())[m] == x);
        }
    }
}

} // verus!
