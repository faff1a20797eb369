//! Splitting a child's output into lines, letting `\r` overwrite the line being built.
//!
//! Lines arrive without their newline. A `\r` overwrites the line being built rather than
//! starting a new one, which is how progress bars are written; what it overwrites is dropped, or
//! handed on as a frame when frames are asked for. A `\r` right before a newline ends the line,
//! and a second `\r` changes nothing, as on a screen: a program's own `\r\n` arrives as `\r\r\n`
//! from a pseudo-terminal. A line longer than [`MAX_LINE`] bytes is delivered in pieces, cut
//! between characters, so a program that never writes a newline cannot make the reader hold all
//! of its output. Bytes that are not UTF-8 become the replacement character.

use vstd::prelude::*;
use vstd::utf8::{
    is_char_boundary, is_char_boundary_iff_not_is_continuation_byte, is_char_boundary_start_end_of_seq,
    length_of_first_scalar, pop_first_scalar, valid_utf8, valid_utf8_split,
};

use crate::text::{bytes_text, lossy};

verus! {

/// The longest line held at once, in bytes.
pub const MAX_LINE: usize = 65536;

/// A carriage return.
pub const CR: u8 = 13;

/// A newline.
pub const LF: u8 = 10;

/// What the splitter hands on: a line, or a frame a `\r` overwrote.
#[derive(Debug, PartialEq, Eq)]
pub enum Piece {
    /// A finished line, or a piece of one too long to hold.
    Line(String),
    /// Text a `\r` overwrote, such as one frame of a progress bar.
    Overwritten(String),
}

impl View for Piece {
    /// Whether it is an overwritten frame, and its text.
    type V = (bool, Seq<char>);

    open spec fn view(&self) -> (bool, Seq<char>) {
        match self {
            Piece::Line(text) => (false, text@),
            Piece::Overwritten(text) => (true, text@),
        }
    }
}

/// The state of a splitter as bytes: the line built so far, and whether a `\r` was read that
/// may still turn out to end the line.
#[verifier::ext_equal]
pub struct LinesView {
    pub buffer: Seq<u8>,
    pub pending_return: bool,
}

/// A piece as bytes: whether it is an overwritten frame, and its bytes.
pub type RawPiece = (bool, Seq<u8>);

/// Whether `byte` continues a character rather than starting one.
pub open spec fn is_continuation(byte: u8) -> bool {
    0x80 <= byte < 0xc0
}

/// How many bytes the character a leading `byte` starts takes; 1 for anything else.
pub open spec fn char_width(byte: u8) -> int {
    if 0xc0 <= byte <= 0xdf {
        2
    } else if 0xe0 <= byte <= 0xef {
        3
    } else if 0xf0 <= byte <= 0xf7 {
        4
    } else {
        1
    }
}

/// Where a full buffer is cut: before the start of a character among its last three bytes that
/// is not complete yet, or at its end. A character is at most four bytes, so only the last
/// three can start one that is not complete.
pub open spec fn piece_cut(buffer: Seq<u8>) -> int {
    let n = buffer.len() as int;
    if n >= 1 && !is_continuation(buffer[n - 1]) {
        if char_width(buffer[n - 1]) > 1 { n - 1 } else { n }
    } else if n >= 2 && !is_continuation(buffer[n - 2]) {
        if char_width(buffer[n - 2]) > 2 { n - 2 } else { n }
    } else if n >= 3 && !is_continuation(buffer[n - 3]) {
        if char_width(buffer[n - 3]) > 3 { n - 3 } else { n }
    } else {
        n
    }
}

/// Adds `byte` to the line being built; a line that reaches [`MAX_LINE`] is delivered up to
/// its cut, and the start of a character after the cut is kept.
pub open spec fn push_byte(buffer: Seq<u8>, byte: u8) -> (Seq<u8>, Seq<RawPiece>) {
    let grown = buffer.push(byte);
    if grown.len() >= MAX_LINE {
        let cut = piece_cut(grown);
        (grown.skip(cut), seq![(false, grown.take(cut))])
    } else {
        (grown, Seq::empty())
    }
}

/// What is handed on of a line a `\r` overwrites: the frame, when frames are kept and it is not
/// empty; nothing otherwise.
pub open spec fn overwritten(buffer: Seq<u8>, keep: bool) -> Seq<RawPiece> {
    if keep && buffer.len() > 0 { seq![(true, buffer)] } else { Seq::empty() }
}

/// One byte read: the state after it and the pieces it hands on.
pub open spec fn step(s: LinesView, byte: u8, keep: bool) -> (LinesView, Seq<RawPiece>) {
    if s.pending_return {
        if byte == CR {
            (s, Seq::empty())
        } else if byte == LF {
            (LinesView { buffer: Seq::empty(), pending_return: false }, seq![(false, s.buffer)])
        } else {
            let (buffer, more) = push_byte(Seq::empty(), byte);
            (LinesView { buffer, pending_return: false }, overwritten(s.buffer, keep) + more)
        }
    } else if byte == CR {
        (LinesView { buffer: s.buffer, pending_return: true }, Seq::empty())
    } else if byte == LF {
        (LinesView { buffer: Seq::empty(), pending_return: false }, seq![(false, s.buffer)])
    } else {
        let (buffer, more) = push_byte(s.buffer, byte);
        (LinesView { buffer, pending_return: false }, more)
    }
}

/// `bytes` read one after another from `s`: the state after them and the pieces they hand on,
/// in order.
pub open spec fn feed_spec(s: LinesView, bytes: Seq<u8>, keep: bool) -> (LinesView, Seq<RawPiece>)
    decreases bytes.len(),
{
    if bytes.len() == 0 {
        (s, Seq::empty())
    } else {
        let (middle, first) = feed_spec(s, bytes.drop_last(), keep);
        let (end, last) = step(middle, bytes.last(), keep);
        (end, first + last)
    }
}

/// The end of the stream from `s`: a line left overwritten by a last `\r` goes out as a frame
/// when frames are kept, and a last line without a newline is delivered.
pub open spec fn finish_spec(s: LinesView, keep: bool) -> (LinesView, Seq<RawPiece>) {
    let empty = LinesView { buffer: Seq::empty(), pending_return: false };
    if s.pending_return {
        (empty, overwritten(s.buffer, keep))
    } else if s.buffer.len() > 0 {
        (empty, seq![(false, s.buffer)])
    } else {
        (empty, Seq::empty())
    }
}

/// The pieces as they are handed on: their bytes made text, decoded when they are UTF-8.
pub open spec fn decoded(pieces: Seq<RawPiece>) -> Seq<(bool, Seq<char>)> {
    pieces.map_values(|p: RawPiece| (p.0, bytes_text(p.1)))
}

/// The pieces of `out` as text.
pub open spec fn texts(out: Seq<Piece>) -> Seq<(bool, Seq<char>)> {
    out.map_values(|p: Piece| p@)
}

/// The lines among `pieces`, as bytes.
pub open spec fn lines_of(pieces: Seq<RawPiece>) -> Seq<Seq<u8>>
    decreases pieces.len(),
{
    if pieces.len() == 0 {
        Seq::empty()
    } else {
        let rest = lines_of(pieces.drop_last());
        if pieces.last().0 { rest } else { rest.push(pieces.last().1) }
    }
}

/// Splits a byte stream into lines; see the module's notes.
#[derive(Debug)]
pub struct Lines {
    buffer: Vec<u8>,
    /// A `\r` was read and it is not yet known whether a `\n` follows it.
    pending_return: bool,
}

impl View for Lines {
    type V = LinesView;

    closed spec fn view(&self) -> LinesView {
        LinesView { buffer: self.buffer@, pending_return: self.pending_return }
    }
}

impl Lines {
    /// The line being built never reaches [`MAX_LINE`] bytes.
    pub closed spec fn wf(&self) -> bool {
        self.buffer@.len() < MAX_LINE
    }

    /// A splitter at the start of a stream.
    pub fn new() -> (lines: Self)
        ensures
            lines.wf(),
            lines@.buffer.len() == 0,
            !lines@.pending_return,
    {
        Lines { buffer: Vec::new(), pending_return: false }
    }

    /// The line built so far as text, and an empty buffer.
    fn take(&mut self) -> (line: String)
        ensures
            line@ == bytes_text(old(self)@.buffer),
            final(self)@.buffer.len() == 0,
            final(self)@.pending_return == old(self)@.pending_return,
    {
        let line = lossy(self.buffer.as_slice());
        self.buffer.clear();
        line
    }

    /// Hands on what a `\r` overwrote, when frames are kept, and empties the buffer.
    fn overwrite(&mut self, keep: bool, out: &mut Vec<Piece>)
        ensures
            final(self)@.buffer.len() == 0,
            final(self)@.pending_return == old(self)@.pending_return,
            texts(final(out)@) == texts(old(out)@) + decoded(overwritten(old(self)@.buffer, keep)),
    {
        let ghost before = self@.buffer;
        if keep && self.buffer.len() > 0 {
            let frame = self.take();
            out.push(Piece::Overwritten(frame));
            proof {
                assert(texts(out@) =~= texts(old(out)@) + decoded(overwritten(before, keep)));
            }
        } else {
            self.buffer.clear();
            assert(texts(out@) =~= texts(old(out)@) + decoded(overwritten(before, keep)));
        }
    }

    /// Delivers the full buffer up to its cut as a line of its own, keeping back the start of a
    /// character that is not complete yet, so no character is cut in two.
    fn emit_piece(&mut self, out: &mut Vec<Piece>)
        requires
            old(self)@.buffer.len() == MAX_LINE,
        ensures
            final(self)@.buffer == old(self)@.buffer.skip(piece_cut(old(self)@.buffer)),
            final(self)@.pending_return == old(self)@.pending_return,
            texts(final(out)@) == texts(old(out)@)
                + decoded(seq![(false, old(self)@.buffer.take(piece_cut(old(self)@.buffer)))]),
    {
        let ghost before = self@.buffer;
        let len = self.buffer.len();
        let last = self.buffer[len - 1];
        let second = self.buffer[len - 2];
        let third = self.buffer[len - 3];
        let cut = if !continues(last) {
            if width(last) > 1 { len - 1 } else { len }
        } else if !continues(second) {
            if width(second) > 2 { len - 2 } else { len }
        } else if !continues(third) {
            if width(third) > 3 { len - 3 } else { len }
        } else {
            len
        };
        assert(cut == piece_cut(before));
        let rest = self.buffer.split_off(cut);
        let line = self.take();
        self.buffer = rest;
        out.push(Piece::Line(line));
        proof {
            assert(before.subrange(0, cut as int) =~= before.take(cut as int));
            assert(self@.buffer =~= before.skip(cut as int));
            assert(texts(out@) =~= texts(old(out)@) + decoded(seq![(false, before.take(cut as int))]));
        }
    }

    /// Reads one byte.
    fn step(&mut self, byte: u8, keep: bool, out: &mut Vec<Piece>)
        requires
            old(self).wf(),
        ensures
            final(self).wf(),
            final(self)@ == step(old(self)@, byte, keep).0,
            texts(final(out)@) == texts(old(out)@) + decoded(step(old(self)@, byte, keep).1),
    {
        let ghost s = self@;
        let ghost start = out@;
        if self.pending_return {
            if byte == CR {
                assert(texts(out@) =~= texts(start) + decoded(step(s, byte, keep).1));
                return;
            } else if byte == LF {
                self.pending_return = false;
                let line = self.take();
                out.push(Piece::Line(line));
                assert(texts(out@) =~= texts(start) + decoded(step(s, byte, keep).1));
                assert(self@ =~= step(s, byte, keep).0);
                return;
            } else {
                self.pending_return = false;
                self.overwrite(keep, out);
            }
        }
        let ghost middle = out@;
        let ghost buffer = self@.buffer;
        if byte == CR {
            self.pending_return = true;
            assert(texts(out@) =~= texts(start) + decoded(step(s, byte, keep).1));
        } else if byte == LF {
            let line = self.take();
            out.push(Piece::Line(line));
            assert(texts(out@) =~= texts(start) + decoded(step(s, byte, keep).1));
        } else {
            self.buffer.push(byte);
            if self.buffer.len() >= MAX_LINE {
                self.emit_piece(out);
            }
            proof {
                let grown = buffer.push(byte);
                if s.pending_return {
                    assert(buffer =~= Seq::<u8>::empty());
                    assert(overwritten(s.buffer, keep) + push_byte(Seq::empty(), byte).1
                        =~= step(s, byte, keep).1);
                } else {
                    assert(buffer == s.buffer);
                }
                assert(decoded(overwritten(s.buffer, keep) + push_byte(buffer, byte).1)
                    =~= decoded(overwritten(s.buffer, keep)) + decoded(push_byte(buffer, byte).1));
                if grown.len() >= MAX_LINE {
                    assert(piece_cut(grown) >= grown.len() - 3);
                }
                assert(texts(out@) =~= texts(start) + decoded(step(s, byte, keep).1));
            }
        }
        assert(self@ =~= step(s, byte, keep).0);
    }

    /// Feeds `bytes`, handing every finished line, and with `keep` every non-empty frame a `\r`
    /// overwrites, to `out` in the order they were written.
    pub fn feed_keeping(&mut self, bytes: &[u8], keep: bool, out: &mut Vec<Piece>)
        requires
            old(self).wf(),
        ensures
            final(self).wf(),
            final(self)@ == feed_spec(old(self)@, bytes@, keep).0,
            texts(final(out)@) == texts(old(out)@) + decoded(feed_spec(old(self)@, bytes@, keep).1),
    {
        let ghost s0 = self@;
        let ghost out0 = out@;
        let mut i: usize = 0;
        while i < bytes.len()
            invariant
                i <= bytes@.len(),
                self.wf(),
                self@ == feed_spec(s0, bytes@.take(i as int), keep).0,
                texts(out@) == texts(out0) + decoded(feed_spec(s0, bytes@.take(i as int), keep).1),
            decreases bytes@.len() - i,
        {
            let ghost before = out@;
            self.step(bytes[i], keep, out);
            proof {
                let next = bytes@.take(i + 1);
                assert(next.drop_last() =~= bytes@.take(i as int));
                assert(next.last() == bytes@[i as int]);
                let (m, first) = feed_spec(s0, bytes@.take(i as int), keep);
                let (e, last) = step(m, bytes@[i as int], keep);
                assert(decoded(first + last) =~= decoded(first) + decoded(last));
                assert(texts(out@) =~= texts(out0) + decoded(feed_spec(s0, next, keep).1));
            }
            i = i + 1;
        }
        assert(bytes@.take(i as int) =~= bytes@);
    }

    /// Ends the stream: a line a last `\r` overwrote goes out as a frame with `keep`, and a last
    /// line without a newline is delivered.
    pub fn finish_keeping(&mut self, keep: bool, out: &mut Vec<Piece>)
        requires
            old(self).wf(),
        ensures
            final(self).wf(),
            final(self)@ == finish_spec(old(self)@, keep).0,
            texts(final(out)@) == texts(old(out)@) + decoded(finish_spec(old(self)@, keep).1),
    {
        let ghost s = self@;
        let ghost start = out@;
        if self.pending_return {
            self.overwrite(keep, out);
            self.pending_return = false;
        } else if self.buffer.len() > 0 {
            let line = self.take();
            out.push(Piece::Line(line));
        }
        assert(self@.buffer =~= Seq::<u8>::empty());
        assert(texts(out@) =~= texts(start) + decoded(finish_spec(s, keep).1));
    }
}


impl Lines {
    /// Feeds `bytes`, adding every finished line to `emit`.
    pub fn feed(&mut self, bytes: &[u8], emit: &mut Vec<String>)
        requires
            old(self).wf(),
        ensures
            final(self).wf(),
            final(self)@ == feed_spec(old(self)@, bytes@, false).0,
            strings(final(emit)@) == strings(old(emit)@) + line_texts(feed_spec(old(self)@, bytes@, false).1),
    {
        let ghost s = self@;
        let mut pieces: Vec<Piece> = Vec::new();
        self.feed_keeping(bytes, false, &mut pieces);
        proof {
            assert(texts(pieces@) =~= decoded(feed_spec(s, bytes@, false).1));
            lemma_text_lines_of_decoded(feed_spec(s, bytes@, false).1);
        }
        keep_lines(&pieces, emit);
    }

    /// Ends the stream, delivering a last line without a newline to `emit`.
    pub fn finish(&mut self, emit: &mut Vec<String>)
        requires
            old(self).wf(),
        ensures
            final(self).wf(),
            final(self)@ == finish_spec(old(self)@, false).0,
            strings(final(emit)@) == strings(old(emit)@) + line_texts(finish_spec(old(self)@, false).1),
    {
        let ghost s = self@;
        let mut pieces: Vec<Piece> = Vec::new();
        self.finish_keeping(false, &mut pieces);
        proof {
            assert(texts(pieces@) =~= decoded(finish_spec(s, false).1));
            lemma_text_lines_of_decoded(finish_spec(s, false).1);
        }
        keep_lines(&pieces, emit);
    }
}

impl Default for Lines {
    fn default() -> (lines: Self)
        ensures
            lines.wf(),
            lines@.buffer.len() == 0,
            !lines@.pending_return,
    {
        Lines::new()
    }
}

/// The texts of `strings`.
pub open spec fn strings(strings: Seq<String>) -> Seq<Seq<char>> {
    strings.map_values(|s: String| s@)
}

/// The lines among `pieces` as they are handed on: their bytes made text.
pub open spec fn line_texts(pieces: Seq<RawPiece>) -> Seq<Seq<char>> {
    lines_of(pieces).map_values(|b: Seq<u8>| bytes_text(b))
}

/// The texts of the lines among texts of pieces.
pub open spec fn text_lines(t: Seq<(bool, Seq<char>)>) -> Seq<Seq<char>>
    decreases t.len(),
{
    if t.len() == 0 {
        Seq::empty()
    } else {
        let rest = text_lines(t.drop_last());
        if t.last().0 { rest } else { rest.push(t.last().1) }
    }
}

proof fn lemma_text_lines_of_decoded(pieces: Seq<RawPiece>)
    ensures
        text_lines(decoded(pieces)) == line_texts(pieces),
    decreases pieces.len(),
{
    if pieces.len() > 0 {
        lemma_text_lines_of_decoded(pieces.drop_last());
        assert(decoded(pieces).drop_last() =~= decoded(pieces.drop_last()));
        assert(line_texts(pieces) =~= (if pieces.last().0 { line_texts(pieces.drop_last()) } else {
            line_texts(pieces.drop_last()).push(bytes_text(pieces.last().1))
        }));
    } else {
        assert(line_texts(pieces) =~= Seq::empty());
    }
}

/// Adds the text of every line among `pieces` to `emit`, in order.
fn keep_lines(pieces: &Vec<Piece>, emit: &mut Vec<String>)
    ensures
        strings(final(emit)@) == strings(old(emit)@) + text_lines(texts(pieces@)),
{
    let ghost e0 = emit@;
    let mut i: usize = 0;
    while i < pieces.len()
        invariant
            i <= pieces@.len(),
            strings(emit@) == strings(e0) + text_lines(texts(pieces@).take(i as int)),
        decreases pieces@.len() - i,
    {
        let ghost t = texts(pieces@);
        proof {
            assert(t.take(i + 1).drop_last() =~= t.take(i as int));
        }
        match &pieces[i] {
            Piece::Line(text) => {
                let copy = text.clone();
                let ghost eb = emit@;
                emit.push(copy);
                assert(strings(emit@) =~= strings(eb).push(text@));
                assert(t[i as int] == (false, text@));
                assert(t.take(i + 1).last() == t[i as int]);
                assert(text_lines(t.take(i + 1)) == text_lines(t.take(i as int)).push(text@));
                assert(strings(emit@) =~= strings(e0) + text_lines(t.take(i + 1)));
            },
            Piece::Overwritten(text) => {
                assert(t[i as int] == (true, text@));
                assert(t.take(i + 1).last() == t[i as int]);
            },
        }
        i = i + 1;
    }
    assert(texts(pieces@).take(i as int) =~= texts(pieces@));
}

/// The bytes of `pieces`, one after another.
pub open spec fn flatten(pieces: Seq<RawPiece>) -> Seq<u8>
    decreases pieces.len(),
{
    if pieces.len() == 0 { Seq::empty() } else { flatten(pieces.drop_last()) + pieces.last().1 }
}

/// `bytes` without their carriage returns and newlines.
pub open spec fn without_line_ends(bytes: Seq<u8>) -> Seq<u8>
    decreases bytes.len(),
{
    if bytes.len() == 0 {
        Seq::empty()
    } else {
        let rest = without_line_ends(bytes.drop_last());
        if bytes.last() == CR || bytes.last() == LF { rest } else { rest.push(bytes.last()) }
    }
}

proof fn lemma_lines_of_append(a: Seq<RawPiece>, b: Seq<RawPiece>)
    ensures
        lines_of(a + b) == lines_of(a) + lines_of(b),
    decreases b.len(),
{
    if b.len() == 0 {
        assert(a + b =~= a);
        assert(lines_of(a) + lines_of(b) =~= lines_of(a));
    } else {
        lemma_lines_of_append(a, b.drop_last());
        assert((a + b).drop_last() =~= a + b.drop_last());
        assert((a + b).last() == b.last());
        if b.last().0 {
        } else {
            assert(lines_of(a) + lines_of(b) =~= (lines_of(a) + lines_of(b.drop_last())).push(b.last().1));
        }
    }
}

proof fn lemma_flatten_append(a: Seq<RawPiece>, b: Seq<RawPiece>)
    ensures
        flatten(a + b) == flatten(a) + flatten(b),
    decreases b.len(),
{
    if b.len() == 0 {
        assert(a + b =~= a);
        assert(flatten(a) + flatten(b) =~= flatten(a));
    } else {
        lemma_flatten_append(a, b.drop_last());
        assert((a + b).drop_last() =~= a + b.drop_last());
        assert((a + b).last() == b.last());
        assert(flatten(a) + flatten(b) =~= flatten(a) + flatten(b.drop_last()) + b.last().1);
    }
}

proof fn lemma_flatten_one(p: RawPiece)
    ensures
        flatten(seq![p]) == p.1,
{
    assert(seq![p].drop_last() =~= Seq::<RawPiece>::empty());
    assert(flatten(Seq::<RawPiece>::empty()) + p.1 =~= p.1);
}

proof fn lemma_push_byte_bounded(buffer: Seq<u8>, byte: u8)
    requires
        buffer.len() < MAX_LINE,
    ensures
        push_byte(buffer, byte).0.len() < MAX_LINE,
        push_byte(buffer, byte).0.len() <= 3 || push_byte(buffer, byte).1.len() == 0,
        forall|i: int| 0 <= i < push_byte(buffer, byte).1.len() ==> (#[trigger] push_byte(buffer, byte).1[i]).1.len() <= MAX_LINE && !push_byte(buffer, byte).1[i].0,
{
    let grown = buffer.push(byte);
    if grown.len() >= MAX_LINE {
        assert(grown.len() - 3 <= piece_cut(grown) <= grown.len());
    }
}

proof fn lemma_step_keeps(s: LinesView, byte: u8)
    requires
        s.buffer.len() < MAX_LINE,
    ensures
        step(s, byte, true).0 == step(s, byte, false).0,
        lines_of(step(s, byte, true).1) == lines_of(step(s, byte, false).1),
        forall|i: int| 0 <= i < step(s, byte, false).1.len() ==> !(#[trigger] step(s, byte, false).1[i]).0,
        step(s, byte, true).0.buffer.len() < MAX_LINE,
        forall|i: int| 0 <= i < step(s, byte, true).1.len() ==> (#[trigger] step(s, byte, true).1[i]).1.len() <= MAX_LINE,
        flatten(step(s, byte, true).1) + step(s, byte, true).0.buffer
            == s.buffer + (if byte == CR || byte == LF { Seq::<u8>::empty() } else { seq![byte] }),
{
    lemma_push_byte_bounded(s.buffer, byte);
    lemma_push_byte_bounded(Seq::empty(), byte);
    let t = step(s, byte, true);
    let f = step(s, byte, false);
    if s.pending_return && byte != CR && byte != LF {
        let (buffer, more) = push_byte(Seq::empty(), byte);
        assert(more =~= Seq::<RawPiece>::empty());
        assert(buffer =~= seq![byte]);
        assert(f.1 =~= Seq::<RawPiece>::empty());
        if s.buffer.len() > 0 {
            assert(t.1 =~= seq![(true, s.buffer)]);
            assert(lines_of(t.1) =~= lines_of(seq![(true, s.buffer)]));
            assert(seq![(true, s.buffer)].drop_last() =~= Seq::<RawPiece>::empty());
            lemma_flatten_one((true, s.buffer));
        } else {
            assert(t.1 =~= Seq::<RawPiece>::empty());
            assert(s.buffer =~= Seq::<u8>::empty());
        }
        assert(flatten(t.1) + t.0.buffer =~= s.buffer + seq![byte]);
    } else if !s.pending_return && byte != CR && byte != LF {
        let grown = s.buffer.push(byte);
        if grown.len() >= MAX_LINE {
            let cut = piece_cut(grown);
            lemma_flatten_one((false, grown.take(cut)));
            assert(grown.take(cut) + grown.skip(cut) =~= grown);
        } else {
            assert(t.1 =~= Seq::<RawPiece>::empty());
        }
        assert(flatten(t.1) + t.0.buffer =~= s.buffer + seq![byte]);
    } else if byte == LF {
        lemma_flatten_one((false, s.buffer));
        assert(flatten(t.1) + t.0.buffer =~= s.buffer + Seq::<u8>::empty());
    } else {
        assert(t.1 =~= Seq::<RawPiece>::empty());
        assert(flatten(t.1) + t.0.buffer =~= s.buffer + Seq::<u8>::empty());
    }
}

/// A long line is cut between characters: at its end, or right before a character whose
/// leading byte is among the last three and whose bytes are not all there yet, with only its
/// continuation bytes after it; and when it is cut at its end, no character among its last three
/// bytes is left incomplete.
pub proof fn lemma_a_cut_falls_between_characters(buffer: Seq<u8>)
    ensures
        ({
            let n = buffer.len() as int;
            let cut = piece_cut(buffer);
            &&& n - 3 <= cut <= n
            &&& 0 <= cut
            &&& cut < n ==> !is_continuation(buffer[cut]) && char_width(buffer[cut]) > n - cut
                && forall|j: int| cut < j < n ==> is_continuation(#[trigger] buffer[j])
            &&& cut == n ==> forall|j: int| n - 3 <= j < n && 0 <= j && !is_continuation(#[trigger] buffer[j])
                && (forall|k: int| j < k < n ==> is_continuation(buffer[k])) ==> char_width(buffer[j]) <= n - j
        }),
{
}

/// A line shorter than [`MAX_LINE`] bytes, without line ends, read from a fresh splitter in any
/// number of reads and then finished, goes out as exactly one line holding all its bytes.
pub proof fn lemma_a_short_line_is_one_piece(bytes: Seq<u8>, keep: bool)
    requires
        0 < bytes.len() < MAX_LINE,
        forall|i: int| 0 <= i < bytes.len() ==> (#[trigger] bytes[i]) != CR && bytes[i] != LF,
    ensures
        ({
            let fresh = LinesView { buffer: Seq::empty(), pending_return: false };
            let (state, early) = feed_spec(fresh, bytes, keep);
            early.len() == 0 && finish_spec(state, keep).1 == seq![(false, bytes)]
        }),
{
    lemma_short_feed(bytes, keep);
}

proof fn lemma_short_feed(bytes: Seq<u8>, keep: bool)
    requires
        bytes.len() < MAX_LINE,
        forall|i: int| 0 <= i < bytes.len() ==> (#[trigger] bytes[i]) != CR && bytes[i] != LF,
    ensures
        feed_spec(LinesView { buffer: Seq::empty(), pending_return: false }, bytes, keep) == (
            LinesView { buffer: bytes, pending_return: false },
            Seq::<RawPiece>::empty(),
        ),
    decreases bytes.len(),
{
    if bytes.len() > 0 {
        let rest = bytes.drop_last();
        assert forall|i: int| 0 <= i < rest.len() implies (#[trigger] rest[i]) != CR && rest[i] != LF by {
            assert(rest[i] == bytes[i]);
        }
        lemma_short_feed(rest, keep);
        assert(bytes[bytes.len() - 1] != CR && bytes[bytes.len() - 1] != LF);
        assert(rest.push(bytes.last()) =~= bytes);
        assert(Seq::<RawPiece>::empty() + Seq::<RawPiece>::empty() =~= Seq::<RawPiece>::empty());
    } else {
        assert(bytes =~= Seq::<u8>::empty());
    }
}

/// In valid UTF-8, the character starting at a boundary `j` takes [`char_width`] of its first
/// byte, all of it continuation bytes after the first, and the next boundary follows it.
proof fn lemma_character_at(bytes: Seq<u8>, j: int)
    requires
        valid_utf8(bytes),
        is_char_boundary(bytes, j),
        0 <= j < bytes.len(),
    ensures
        j + char_width(bytes[j]) <= bytes.len(),
        is_char_boundary(bytes, j + char_width(bytes[j])),
        forall|k: int| j < k < j + char_width(bytes[j]) ==> is_continuation(#[trigger] bytes[k]),
    decreases bytes.len(),
{
    let l = length_of_first_scalar(bytes);
    let tail = pop_first_scalar(bytes);
    assert(tail.len() == bytes.len() - l);
    if j == 0 {
        assert(char_width(bytes[0]) == l);
        assert(is_char_boundary(bytes, l) == is_char_boundary(tail, 0));
    } else {
        assert(is_char_boundary(bytes, j) == is_char_boundary(tail, j - l));
        assert(j >= l) by {
            reveal_with_fuel(is_char_boundary, 2);
        }
        lemma_character_at(tail, j - l);
        assert(tail[j - l] == bytes[j]);
        let w = char_width(bytes[j]);
        assert(is_char_boundary(bytes, j + w) == is_char_boundary(tail, j + w - l));
        assert forall|k: int| j < k < j + w implies is_continuation(#[trigger] bytes[k]) by {
            assert(tail[k - l] == bytes[k]);
        }
    }
}

/// In valid UTF-8, every byte belongs to a character that starts at a boundary at most three
/// bytes before it.
proof fn lemma_character_containing(bytes: Seq<u8>, k: int)
    requires
        valid_utf8(bytes),
        0 <= k < bytes.len(),
    ensures
        exists|j: int| 0 <= j <= k && k < j + char_width(bytes[j]) && #[trigger] is_char_boundary(bytes, j),
    decreases bytes.len(),
{
    let l = length_of_first_scalar(bytes);
    let tail = pop_first_scalar(bytes);
    is_char_boundary_start_end_of_seq(bytes);
    if k < l {
        assert(char_width(bytes[0]) == l);
        assert(is_char_boundary(bytes, 0));
    } else {
        lemma_character_containing(tail, k - l);
        let j = choose|j: int| 0 <= j <= k - l && k - l < j + char_width(tail[j]) && #[trigger] is_char_boundary(tail, j);
        assert(tail[j] == bytes[j + l]);
        assert(is_char_boundary(bytes, j + l) == is_char_boundary(tail, j));
    }
}

/// A long line is cut on a character boundary: when the bytes read since the last cut begin a
/// valid UTF-8 text, the piece handed on is valid UTF-8 and what is kept still begins one, so no
/// character is split and none turns into U+FFFD.
pub proof fn lemma_a_cut_keeps_text_whole(text: Seq<u8>, k: int)
    requires
        valid_utf8(text),
        0 < k <= text.len(),
    ensures
        valid_utf8(text.take(k).take(piece_cut(text.take(k)))),
        valid_utf8(text.skip(piece_cut(text.take(k)))),
{
    let grown = text.take(k);
    let cut = piece_cut(grown);
    lemma_a_cut_falls_between_characters(grown);
    is_char_boundary_start_end_of_seq(text);
    if cut < k {
        is_char_boundary_iff_not_is_continuation_byte(text, cut);
        assert(!is_continuation(grown[cut]));
    } else if k < text.len() {
        lemma_character_containing(text, k);
        let j = choose|j: int| 0 <= j <= k && k < j + char_width(text[j]) && #[trigger] is_char_boundary(text, j);
        if j < k {
            lemma_character_at(text, j);
            is_char_boundary_iff_not_is_continuation_byte(text, j);
            assert(grown[j] == text[j]);
            assert forall|m: int| j < m < k implies is_continuation(#[trigger] grown[m]) by {
                assert(grown[m] == text[m]);
            }
            assert(false);
        }
    }
    valid_utf8_split(text, cut);
    assert(text.take(k).take(cut) =~= text.subrange(0, cut));
    assert(text.skip(cut) =~= text.subrange(cut, text.len() as int));
}

/// A line split across reads stays one line: feeding `first` and then `second` hands on the
/// same pieces, in the same order, and leaves the same state as feeding them in one read.
pub proof fn lemma_reads_split_anywhere(s: LinesView, first: Seq<u8>, second: Seq<u8>, keep: bool)
    ensures
        ({
            let (middle, early) = feed_spec(s, first, keep);
            let (end, late) = feed_spec(middle, second, keep);
            feed_spec(s, first + second, keep) == (end, early + late)
        }),
    decreases second.len(),
{
    let (middle, early) = feed_spec(s, first, keep);
    if second.len() == 0 {
        assert(first + second =~= first);
        assert(early + Seq::<RawPiece>::empty() =~= early);
    } else {
        lemma_reads_split_anywhere(s, first, second.drop_last(), keep);
        assert((first + second).drop_last() =~= first + second.drop_last());
        assert((first + second).last() == second.last());
        let (m2, late1) = feed_spec(middle, second.drop_last(), keep);
        let (end, last) = step(m2, second.last(), keep);
        assert(early + late1 + last =~= early + (late1 + last));
    }
}

/// Frames are handed on only when asked for, and asking for them changes nothing else: the
/// lines and the state are what a read without frames gives, and a read without frames gives
/// lines alone. Every piece is at most [`MAX_LINE`] bytes, and with frames kept no byte is lost:
/// the pieces and the line still being built hold every byte read but the line ends.
pub proof fn lemma_frames_change_no_line(s: LinesView, bytes: Seq<u8>)
    requires
        s.buffer.len() < MAX_LINE,
    ensures
        feed_spec(s, bytes, true).0 == feed_spec(s, bytes, false).0,
        lines_of(feed_spec(s, bytes, true).1) == lines_of(feed_spec(s, bytes, false).1),
        forall|i: int| 0 <= i < feed_spec(s, bytes, false).1.len() ==> !(#[trigger] feed_spec(s, bytes, false).1[i]).0,
        feed_spec(s, bytes, true).0.buffer.len() < MAX_LINE,
        forall|i: int| 0 <= i < feed_spec(s, bytes, true).1.len() ==> (#[trigger] feed_spec(s, bytes, true).1[i]).1.len() <= MAX_LINE,
        flatten(feed_spec(s, bytes, true).1) + feed_spec(s, bytes, true).0.buffer == s.buffer + without_line_ends(bytes),
    decreases bytes.len(),
{
    if bytes.len() == 0 {
        assert(flatten(Seq::<RawPiece>::empty()) =~= Seq::<u8>::empty());
        assert(s.buffer + without_line_ends(bytes) =~= s.buffer);
    } else {
        let rest = bytes.drop_last();
        lemma_frames_change_no_line(s, rest);
        let (m, a) = feed_spec(s, rest, true);
        let (_, af) = feed_spec(s, rest, false);
        lemma_step_keeps(m, bytes.last());
        let (e, b) = step(m, bytes.last(), true);
        let (_, bf) = step(m, bytes.last(), false);
        lemma_lines_of_append(a, b);
        lemma_lines_of_append(af, bf);
        lemma_flatten_append(a, b);
        assert forall|i: int| 0 <= i < (af + bf).len() implies !(#[trigger] (af + bf)[i]).0 by {
            if i >= af.len() {
                assert((af + bf)[i] == bf[i - af.len()]);
            }
        }
        assert forall|i: int| 0 <= i < (a + b).len() implies (#[trigger] (a + b)[i]).1.len() <= MAX_LINE by {
            if i >= a.len() {
                assert((a + b)[i] == b[i - a.len()]);
            }
        }
        let tail: Seq<u8> = if bytes.last() == CR || bytes.last() == LF { Seq::empty() } else { seq![bytes.last()] };
        assert(without_line_ends(bytes) =~= without_line_ends(rest) + tail);
        assert(flatten(a) + flatten(b) + e.buffer =~= flatten(a) + (flatten(b) + e.buffer));
        assert(s.buffer + without_line_ends(rest) + tail =~= s.buffer + (without_line_ends(rest) + tail));
    }
}

/// Whether `byte` continues a character.
fn continues(byte: u8) -> (yes: bool)
    ensures
        yes == is_continuation(byte),
{
    0x80 <= byte && byte < 0xc0
}

/// The width of the character a leading `byte` starts.
fn width(byte: u8) -> (width: usize)
    ensures
        width == char_width(byte),
{
    if 0xc0 <= byte && byte <= 0xdf {
        2
    } else if 0xe0 <= byte && byte <= 0xef {
        3
    } else if 0xf0 <= byte && byte <= 0xf7 {
        4
    } else {
        1
    }
}

/// Asking for the frames never changes the lines, up to the end of the stream: reading `bytes`
/// from a fresh splitter and finishing hands on the same lines with frames kept as without.
pub proof fn lemma_frames_change_no_line_to_the_end(bytes: Seq<u8>)
    ensures
        ({
            let fresh = LinesView { buffer: Seq::empty(), pending_return: false };
            let (kept, with_frames) = feed_spec(fresh, bytes, true);
            let (plain, without) = feed_spec(fresh, bytes, false);
            lines_of(with_frames + finish_spec(kept, true).1) == lines_of(without + finish_spec(plain, false).1)
        }),
{
    let fresh = LinesView { buffer: Seq::empty(), pending_return: false };
    lemma_frames_change_no_line(fresh, bytes);
    let (kept, with_frames) = feed_spec(fresh, bytes, true);
    let (plain, without) = feed_spec(fresh, bytes, false);
    lemma_lines_of_append(with_frames, finish_spec(kept, true).1);
    lemma_lines_of_append(without, finish_spec(plain, false).1);
    let k = finish_spec(kept, true).1;
    let n = finish_spec(plain, false).1;
    if kept.pending_return {
        if kept.buffer.len() > 0 {
            assert(k.drop_last() =~= Seq::<RawPiece>::empty());
        }
        assert(lines_of(k) =~= Seq::<Seq<u8>>::empty());
        assert(lines_of(n) =~= Seq::<Seq<u8>>::empty());
    }
}

/// How many newlines `bytes` hold.
pub open spec fn newlines(bytes: Seq<u8>) -> nat
    decreases bytes.len(),
{
    if bytes.len() == 0 {
        0
    } else {
        newlines(bytes.drop_last()) + if bytes.last() == LF { 1nat } else { 0nat }
    }
}

proof fn lemma_lines_of_one(p: RawPiece)
    ensures
        lines_of(seq![p]) == (if p.0 { Seq::<Seq<u8>>::empty() } else { seq![p.1] }),
{
    assert(seq![p].drop_last() =~= Seq::<RawPiece>::empty());
    assert(seq![p].last() == p);
    assert(lines_of(Seq::<RawPiece>::empty()) == Seq::<Seq<u8>>::empty());
    assert(Seq::<Seq<u8>>::empty().push(p.1) =~= seq![p.1]);
}

/// Every newline ends exactly one line, and nothing else ends one while no line grows long
/// enough to be cut: reading `bytes` hands on as many lines as `bytes` hold newlines, so a
/// newline right after another, or after a `\r\n`, hands on an empty line of its own.
pub proof fn lemma_every_newline_ends_one_line(s: LinesView, bytes: Seq<u8>, keep: bool)
    requires
        s.buffer.len() + bytes.len() < MAX_LINE,
    ensures
        lines_of(feed_spec(s, bytes, keep).1).len() == newlines(bytes),
        feed_spec(s, bytes, keep).0.buffer.len() <= s.buffer.len() + bytes.len(),
    decreases bytes.len(),
{
    if bytes.len() > 0 {
        let rest = bytes.drop_last();
        let byte = bytes.last();
        lemma_every_newline_ends_one_line(s, rest, keep);
        let (m, a) = feed_spec(s, rest, keep);
        let (e, b) = step(m, byte, keep);
        lemma_lines_of_append(a, b);
        if byte == LF {
            lemma_lines_of_one((false, m.buffer));
        } else if byte == CR {
            assert(lines_of(b) =~= Seq::<Seq<u8>>::empty());
        } else if m.pending_return {
            let (buffer, more) = push_byte(Seq::empty(), byte);
            assert(more =~= Seq::<RawPiece>::empty());
            assert(buffer =~= seq![byte]);
            if keep && m.buffer.len() > 0 {
                assert(b =~= seq![(true, m.buffer)]);
                lemma_lines_of_one((true, m.buffer));
            } else {
                assert(b =~= Seq::<RawPiece>::empty());
            }
        } else {
            assert(b =~= Seq::<RawPiece>::empty());
        }
    }
}

} // verus!
