//! Standard base64: decoding the terminal's clipboard answers and encoding picture data.
//!
//! Decoding ignores anything outside the alphabet, such as line breaks, and stops at the first
//! `=`. Encoding writes standard, padded base64. What one encodes the other decodes back.

use vstd::prelude::*;
use vstd::utf8::{decode_utf8, encode_utf8, is_ascii_chars, is_ascii_chars_encode_utf8, valid_utf8};

use crate::text::{push_char, utf8};

verus! {

/// The pad byte, `=`.
pub const PAD: u8 = 61;

/// The six bits a byte of the alphabet stands for; `None` for a byte outside it.
pub open spec fn sextet_value(c: u8) -> Option<u8> {
    if 65 <= c <= 90 {
        Some((c - 65) as u8)
    } else if 97 <= c <= 122 {
        Some((c - 97 + 26) as u8)
    } else if 48 <= c <= 57 {
        Some((c - 48 + 52) as u8)
    } else if c == 43 {
        Some(62u8)
    } else if c == 47 {
        Some(63u8)
    } else {
        None
    }
}

/// The byte of the alphabet that stands for the six bits `value`.
pub open spec fn alphabet_byte(value: u8) -> u8 {
    if value < 26 {
        (65 + value) as u8
    } else if value < 52 {
        (97 + value - 26) as u8
    } else if value < 62 {
        (48 + value - 52) as u8
    } else if value == 62 {
        43u8
    } else {
        47u8
    }
}

/// The sextets of `text` before its first `=`, anything outside the alphabet left out, and
/// whether an `=` was read.
pub open spec fn sextets(text: Seq<u8>) -> (Seq<u8>, bool)
    decreases text.len(),
{
    if text.len() == 0 {
        (Seq::empty(), false)
    } else {
        let (values, padded) = sextets(text.drop_last());
        if padded {
            (values, true)
        } else if text.last() == PAD {
            (values, true)
        } else {
            match sextet_value(text.last()) {
                Some(v) => (values.push(v), false),
                None => (values, false),
            }
        }
    }
}

/// The first byte of a group of four sextets, from its first two.
pub open spec fn first_byte(a: u8, b: u8) -> u8 {
    (a * 4 + b / 16) as u8
}

/// The second byte of a group, from its second and third sextets.
pub open spec fn second_byte(b: u8, c: u8) -> u8 {
    ((b % 16) * 16 + c / 4) as u8
}

/// The third byte of a group, from its third and fourth sextets.
pub open spec fn third_byte(c: u8, d: u8) -> u8 {
    ((c % 4) * 64 + d) as u8
}

/// The bytes `values` (six bits each) stand for: every eight bits in order, a last incomplete
/// byte dropped. Each sextet after the first of its group of four completes one byte.
pub open spec fn decode_sextets(values: Seq<u8>) -> Seq<u8>
    decreases values.len(),
{
    if values.len() == 0 {
        Seq::empty()
    } else {
        let n = values.len() as int;
        let rest = decode_sextets(values.drop_last());
        if n % 4 == 1 {
            rest
        } else if n % 4 == 2 {
            rest.push(first_byte(values[n - 2], values[n - 1]))
        } else if n % 4 == 3 {
            rest.push(second_byte(values[n - 2], values[n - 1]))
        } else {
            rest.push(third_byte(values[n - 2], values[n - 1]))
        }
    }
}

/// The bytes the base64 `text` stands for.
pub open spec fn base64_decoded(text: Seq<u8>) -> Seq<u8> {
    decode_sextets(sextets(text).0)
}

/// `bytes` in standard base64, padded, as bytes of the alphabet: every three bytes become four.
pub open spec fn base64_encoded(bytes: Seq<u8>) -> Seq<u8>
    decreases bytes.len(),
{
    if bytes.len() == 0 {
        Seq::empty()
    } else if bytes.len() == 1 {
        let a = bytes[0];
        seq![alphabet_byte(a / 4), alphabet_byte(((a % 4) * 16) as u8), PAD, PAD]
    } else if bytes.len() == 2 {
        let (a, b) = (bytes[0], bytes[1]);
        seq![
            alphabet_byte(a / 4),
            alphabet_byte(((a % 4) * 16 + b / 16) as u8),
            alphabet_byte(((b % 16) * 4) as u8),
            PAD,
        ]
    } else {
        let (a, b, c) = (bytes[0], bytes[1], bytes[2]);
        seq![
            alphabet_byte(a / 4),
            alphabet_byte(((a % 4) * 16 + b / 16) as u8),
            alphabet_byte(((b % 16) * 4 + c / 64) as u8),
            alphabet_byte(c % 64),
        ] + base64_encoded(bytes.skip(3))
    }
}

/// The characters of bytes that are ASCII.
pub open spec fn ascii_chars(bytes: Seq<u8>) -> Seq<char> {
    bytes.map_values(|b: u8| b as char)
}

/// The six bits a byte of the alphabet stands for.
fn value(c: u8) -> (v: Option<u8>)
    ensures
        v == sextet_value(c),
{
    if 65 <= c && c <= 90 {
        Some(c - 65)
    } else if 97 <= c && c <= 122 {
        Some(c - 97 + 26)
    } else if 48 <= c && c <= 57 {
        Some(c - 48 + 52)
    } else if c == 43 {
        Some(62)
    } else if c == 47 {
        Some(63)
    } else {
        None
    }
}

/// Decodes standard base64, ignoring anything outside the alphabet such as line breaks and
/// stopping at the first `=`. Returns `None` for text that is not valid UTF-8 once decoded.
pub fn decode_base64(encoded: &str) -> (text: Option<String>)
    ensures
        text is Some <==> valid_utf8(base64_decoded(encode_utf8(encoded@))),
        text matches Some(t) ==> t@ == decode_utf8(base64_decoded(encode_utf8(encoded@))),
{
    let bytes = encoded.as_bytes();
    let mut out: Vec<u8> = Vec::new();
    let mut padded = false;
    let mut position: u8 = 0;
    let mut previous: u8 = 0;
    let mut i: usize = 0;
    while i < bytes.len()
        invariant
            i <= bytes@.len(),
            padded == sextets(bytes@.take(i as int)).1,
            out@ == decode_sextets(sextets(bytes@.take(i as int)).0),
            position as int == sextets(bytes@.take(i as int)).0.len() % 4,
            sextets(bytes@.take(i as int)).0.len() > 0 ==> previous == sextets(bytes@.take(i as int)).0.last(),
            forall|k: int| 0 <= k < sextets(bytes@.take(i as int)).0.len() ==> #[trigger] sextets(bytes@.take(i as int)).0[k] < 64,
        decreases bytes@.len() - i,
    {
        let c = bytes[i];
        let ghost before = bytes@.take(i as int);
        proof {
            assert(bytes@.take(i + 1).drop_last() =~= before);
            assert(bytes@.take(i + 1).last() == c);
        }
        if !padded {
            if c == PAD {
                padded = true;
            } else {
                match value(c) {
                    Some(v) => {
                        let ghost values = sextets(before).0;
                        if position == 1 {
                            out.push(previous * 4 + v / 16);
                        } else if position == 2 {
                            out.push((previous % 16) * 16 + v / 4);
                        } else if position == 3 {
                            out.push((previous % 4) * 64 + v);
                        }
                        proof {
                            let grown = values.push(v);
                            assert(grown.drop_last() =~= values);
                            assert(grown.len() > 1 ==> grown[grown.len() - 2] == previous);
                        }
                        previous = v;
                        position = if position == 3 { 0 } else { position + 1 };
                        proof {
                            let grown = values.push(v);
                            assert forall|k: int| 0 <= k < grown.len() implies #[trigger] grown[k] < 64 by {
                                if k < values.len() {
                                    assert(grown[k] == values[k]);
                                }
                            }
                        }
                    },
                    None => {},
                }
            }
        }
        i = i + 1;
    }
    assert(bytes@.take(i as int) =~= bytes@);
    utf8(out)
}

/// The byte of the alphabet for the six bits `value`.
fn alphabet(value: u8) -> (c: u8)
    requires
        value < 64,
    ensures
        c == alphabet_byte(value),
{
    if value < 26 {
        65 + value
    } else if value < 52 {
        97 + value - 26
    } else if value < 62 {
        48 + value - 52
    } else if value == 62 {
        43
    } else {
        47
    }
}

/// Appends the ASCII byte `b` to `text` as a character.
fn push_ascii(text: &mut String, b: u8)
    requires
        b < 128,
    ensures
        final(text)@ == old(text)@.push(b as char),
{
    push_char(text, b as char);
}

proof fn lemma_encoded_split(bytes: Seq<u8>, at: int)
    requires
        0 <= at <= bytes.len(),
        at % 3 == 0,
    ensures
        base64_encoded(bytes) == base64_encoded(bytes.take(at)) + base64_encoded(bytes.skip(at)),
    decreases at,
{
    if at == 0 {
        assert(bytes.take(0) =~= Seq::<u8>::empty());
        assert(bytes.skip(0) =~= bytes);
        assert(base64_encoded(Seq::<u8>::empty()) + base64_encoded(bytes) =~= base64_encoded(bytes));
    } else {
        lemma_encoded_split(bytes.skip(3), at - 3);
        assert(bytes.skip(3).skip(at - 3) =~= bytes.skip(at));
        assert(bytes.take(at).skip(3) =~= bytes.skip(3).take(at - 3));
        assert(bytes.take(at)[0] == bytes[0] && bytes.take(at)[1] == bytes[1] && bytes.take(at)[2] == bytes[2]);
        let head = base64_encoded(bytes).take(4);
        assert(base64_encoded(bytes) =~= base64_encoded(bytes).take(4) + base64_encoded(bytes.skip(3)));
        assert(base64_encoded(bytes.take(at)) =~= head + base64_encoded(bytes.take(at).skip(3)));
        assert(base64_encoded(bytes) =~= base64_encoded(bytes.take(at)) + base64_encoded(bytes.skip(at)));
    }
}

/// The four bytes of alphabet one group of three bytes becomes.
pub open spec fn group_encoded(a: u8, b: u8, c: u8) -> Seq<u8> {
    seq![
        alphabet_byte(a / 4),
        alphabet_byte(((a % 4) * 16 + b / 16) as u8),
        alphabet_byte(((b % 16) * 4 + c / 64) as u8),
        alphabet_byte(c % 64),
    ]
}

proof fn lemma_encoded_group(a: u8, b: u8, c: u8)
    ensures
        base64_encoded(seq![a, b, c]) == group_encoded(a, b, c),
{
    let group = seq![a, b, c];
    assert(group.skip(3) =~= Seq::<u8>::empty());
    assert(base64_encoded(Seq::<u8>::empty()) =~= Seq::<u8>::empty());
    assert(base64_encoded(group) =~= group_encoded(a, b, c) + Seq::<u8>::empty());
}

proof fn lemma_encode_step(bytes: Seq<u8>, i: int)
    requires
        0 <= i,
        i + 3 <= bytes.len(),
        i % 3 == 0,
    ensures
        base64_encoded(bytes.take(i + 3)) == base64_encoded(bytes.take(i))
            + group_encoded(bytes[i], bytes[i + 1], bytes[i + 2]),
{
    let next = bytes.take(i + 3);
    lemma_encoded_split(next, i);
    assert(next.take(i) =~= bytes.take(i));
    assert(next.skip(i) =~= seq![bytes[i], bytes[i + 1], bytes[i + 2]]);
    lemma_encoded_group(bytes[i], bytes[i + 1], bytes[i + 2]);
}

proof fn lemma_alphabet_is_ascii(value: u8)
    requires
        value < 64,
    ensures
        alphabet_byte(value) < 128,
        sextet_value(alphabet_byte(value)) == Some(value),
        alphabet_byte(value) != PAD,
{
}


proof fn lemma_sextets_append(x: Seq<u8>, y: Seq<u8>)
    requires
        !sextets(x).1,
    ensures
        sextets(x + y) == (sextets(x).0 + sextets(y).0, sextets(y).1),
    decreases y.len(),
{
    if y.len() == 0 {
        assert(x + y =~= x);
        assert(sextets(x).0 + sextets(y).0 =~= sextets(x).0);
    } else {
        lemma_sextets_append(x, y.drop_last());
        assert((x + y).drop_last() =~= x + y.drop_last());
        assert((x + y).last() == y.last());
        let (v, p) = sextets(y.drop_last());
        if !p && y.last() != PAD {
            if let Some(value) = sextet_value(y.last()) {
                assert(sextets(x).0 + v.push(value) =~= (sextets(x).0 + v).push(value));
            }
        }
    }
}

proof fn lemma_decode_append(u: Seq<u8>, w: Seq<u8>)
    requires
        u.len() % 4 == 0,
    ensures
        decode_sextets(u + w) == decode_sextets(u) + decode_sextets(w),
    decreases w.len(),
{
    if w.len() == 0 {
        assert(u + w =~= u);
        assert(decode_sextets(u) + decode_sextets(w) =~= decode_sextets(u));
    } else {
        lemma_decode_append(u, w.drop_last());
        let v = u + w;
        assert(v.drop_last() =~= u + w.drop_last());
        let n = v.len() as int;
        let m = w.len() as int;
        assert(n % 4 == m % 4);
        if m >= 2 {
            assert(v[n - 2] == w[m - 2] && v[n - 1] == w[m - 1]);
        }
        let d = decode_sextets(u);
        let r = decode_sextets(w.drop_last());
        if m % 4 == 2 {
            assert(d + r.push(first_byte(w[m - 2], w[m - 1])) =~= (d + r).push(first_byte(w[m - 2], w[m - 1])));
        } else if m % 4 == 3 {
            assert(d + r.push(second_byte(w[m - 2], w[m - 1])) =~= (d + r).push(second_byte(w[m - 2], w[m - 1])));
        } else if m % 4 == 0 {
            assert(d + r.push(third_byte(w[m - 2], w[m - 1])) =~= (d + r).push(third_byte(w[m - 2], w[m - 1])));
        }
    }
}

/// The first `k` bytes of `text` are the alphabet bytes of `values`: their sextets are
/// `values`, with no `=` among them.
proof fn lemma_prefix_sextets(text: Seq<u8>, values: Seq<u8>, k: int)
    requires
        0 <= k <= text.len(),
        k <= values.len(),
        forall|i: int| 0 <= i < values.len() ==> #[trigger] values[i] < 64,
        forall|i: int| 0 <= i < k ==> #[trigger] text[i] == alphabet_byte(values[i]),
    ensures
        sextets(text.take(k)) == (values.take(k), false),
    decreases k,
{
    if k == 0 {
        assert(text.take(0) =~= Seq::<u8>::empty());
        assert(values.take(0) =~= Seq::<u8>::empty());
    } else {
        lemma_prefix_sextets(text, values, k - 1);
        assert(text.take(k).drop_last() =~= text.take(k - 1));
        assert(text.take(k).last() == text[k - 1]);
        lemma_alphabet_is_ascii(values[k - 1]);
        assert(values.take(k - 1).push(values[k - 1]) =~= values.take(k));
    }
}

proof fn lemma_decode_short(v: Seq<u8>)
    requires
        1 <= v.len() <= 4,
    ensures
        v.len() == 1 ==> decode_sextets(v) == Seq::<u8>::empty(),
        v.len() == 2 ==> decode_sextets(v) == seq![first_byte(v[0], v[1])],
        v.len() == 3 ==> decode_sextets(v) == seq![first_byte(v[0], v[1]), second_byte(v[1], v[2])],
        v.len() == 4 ==> decode_sextets(v) == seq![
            first_byte(v[0], v[1]),
            second_byte(v[1], v[2]),
            third_byte(v[2], v[3]),
        ],
{
    let one = v.take(1);
    assert(one.drop_last() =~= Seq::<u8>::empty());
    assert(decode_sextets(Seq::<u8>::empty()) =~= Seq::<u8>::empty());
    assert(decode_sextets(one) =~= Seq::<u8>::empty());
    if v.len() >= 2 {
        let two = v.take(2);
        assert(two.drop_last() =~= one);
        assert(decode_sextets(two) =~= seq![first_byte(v[0], v[1])]);
        if v.len() >= 3 {
            let three = v.take(3);
            assert(three.drop_last() =~= two);
            assert(decode_sextets(three) =~= seq![first_byte(v[0], v[1]), second_byte(v[1], v[2])]);
            if v.len() == 4 {
                assert(v.drop_last() =~= three);
            } else {
                assert(three =~= v);
            }
        } else {
            assert(two =~= v);
        }
    } else {
        assert(one =~= v);
    }
}

proof fn lemma_group_decodes(a: u8, b: u8, c: u8)
    ensures
        sextets(group_encoded(a, b, c)).1 == false,
        decode_sextets(sextets(group_encoded(a, b, c)).0) == seq![a, b, c],
        sextets(group_encoded(a, b, c)).0.len() == 4,
{
    let (s0, s1, s2, s3) = ((a / 4) as u8, ((a % 4) * 16 + b / 16) as u8, ((b % 16) * 4 + c / 64) as u8, (c % 64) as u8);
    lemma_alphabet_is_ascii(s0);
    lemma_alphabet_is_ascii(s1);
    lemma_alphabet_is_ascii(s2);
    lemma_alphabet_is_ascii(s3);
    let g = group_encoded(a, b, c);
    let v = seq![s0, s1, s2, s3];
    lemma_prefix_sextets(g, v, 4);
    assert(g.take(4) =~= g);
    assert(v.take(4) =~= v);
    assert(first_byte(s0, s1) == a);
    assert(second_byte(s1, s2) == b);
    assert(third_byte(s2, s3) == c);
    lemma_decode_short(v);
    assert(decode_sextets(v) =~= seq![a, b, c]);
}

proof fn lemma_tail_decodes(bytes: Seq<u8>)
    requires
        1 <= bytes.len() <= 2,
    ensures
        base64_decoded(base64_encoded(bytes)) == bytes,
{
    let e = base64_encoded(bytes);
    let a = bytes[0];
    let (s0, s1) = ((a / 4) as u8, ((a % 4) * 16 + (if bytes.len() == 2 { bytes[1] / 16 } else { 0 })) as u8);
    lemma_alphabet_is_ascii(s0);
    lemma_alphabet_is_ascii(s1);
    lemma_prefix_sextets(e, seq![s0, s1], 2);
    assert(e.take(2) =~= e.drop_last().drop_last());
    let v2 = seq![s0, s1];
    assert(first_byte(s0, s1) == a);
    lemma_decode_short(v2);
    assert(decode_sextets(v2) =~= seq![a]);
    if bytes.len() == 1 {
        assert(sextets(e.drop_last()).0 =~= seq![s0, s1]);
        assert(sextets(e).0 =~= seq![s0, s1]);
        assert(bytes =~= seq![a]);
    } else {
        let b = bytes[1];
        let s2 = ((b % 16) * 4) as u8;
        lemma_alphabet_is_ascii(s2);
        lemma_prefix_sextets(e, seq![s0, s1, s2], 3);
        assert(e.take(3) =~= e.drop_last());
        assert(sextets(e.drop_last()).0 =~= seq![s0, s1, s2]);
        assert(sextets(e).0 =~= seq![s0, s1, s2]);
        let v3 = seq![s0, s1, s2];
        assert(second_byte(s1, s2) == b);
        lemma_decode_short(v3);
        assert(decode_sextets(v3) =~= seq![a, b]);
        assert(bytes =~= seq![a, b]);
    }
}

proof fn lemma_encoded_decodes(bytes: Seq<u8>)
    ensures
        base64_decoded(base64_encoded(bytes)) == bytes,
    decreases bytes.len(),
{
    if bytes.len() == 0 {
        assert(base64_decoded(Seq::<u8>::empty()) =~= Seq::<u8>::empty());
    } else if bytes.len() <= 2 {
        lemma_tail_decodes(bytes);
    } else {
        let (a, b, c) = (bytes[0], bytes[1], bytes[2]);
        let rest = bytes.skip(3);
        lemma_encoded_decodes(rest);
        let g = group_encoded(a, b, c);
        assert(base64_encoded(bytes) =~= g + base64_encoded(rest));
        lemma_group_decodes(a, b, c);
        lemma_sextets_append(g, base64_encoded(rest));
        lemma_decode_append(sextets(g).0, sextets(base64_encoded(rest)).0);
        assert(bytes =~= seq![a, b, c] + rest);
    }
}

proof fn lemma_encoded_is_ascii(bytes: Seq<u8>)
    ensures
        forall|i: int| 0 <= i < base64_encoded(bytes).len() ==> #[trigger] base64_encoded(bytes)[i] < 128,
    decreases bytes.len(),
{
    if bytes.len() >= 3 {
        lemma_encoded_is_ascii(bytes.skip(3));
        let (a, b, c) = (bytes[0], bytes[1], bytes[2]);
        lemma_alphabet_is_ascii((a / 4) as u8);
        lemma_alphabet_is_ascii(((a % 4) * 16 + b / 16) as u8);
        lemma_alphabet_is_ascii(((b % 16) * 4 + c / 64) as u8);
        lemma_alphabet_is_ascii((c % 64) as u8);
        let g = group_encoded(a, b, c);
        let r = base64_encoded(bytes.skip(3));
        assert(base64_encoded(bytes) =~= g + r);
        assert forall|i: int| 0 <= i < (g + r).len() implies #[trigger] (g + r)[i] < 128 by {
            if i >= 4 {
                assert((g + r)[i] == r[i - 4]);
            }
        }
    } else if bytes.len() >= 1 {
        let a = bytes[0];
        lemma_alphabet_is_ascii((a / 4) as u8);
        lemma_alphabet_is_ascii(((a % 4) * 16 + (if bytes.len() == 2 { bytes[1] / 16 } else { 0 })) as u8);
        if bytes.len() == 2 {
            lemma_alphabet_is_ascii(((bytes[1] % 16) * 4) as u8);
        }
    }
}

/// Bytes outside the alphabet, other than `=`, add no sextet.
proof fn lemma_junk_adds_nothing(junk: Seq<u8>)
    requires
        forall|i: int| 0 <= i < junk.len() ==> (#[trigger] sextet_value(junk[i])) is None && junk[i] != PAD,
    ensures
        sextets(junk) == (Seq::<u8>::empty(), false),
    decreases junk.len(),
{
    if junk.len() > 0 {
        assert forall|i: int| 0 <= i < junk.drop_last().len() implies (#[trigger] sextet_value(junk.drop_last()[i])) is None
            && junk.drop_last()[i] != PAD by {
            assert(junk.drop_last()[i] == junk[i]);
        }
        lemma_junk_adds_nothing(junk.drop_last());
        assert(sextet_value(junk[junk.len() - 1]) is None);
    }
}

/// Anything outside the alphabet, such as line breaks, spaces or other text, is ignored where it
/// stands before the first `=`: inserting it changes nothing that is decoded.
pub proof fn lemma_bytes_outside_the_alphabet_are_ignored(before: Seq<u8>, junk: Seq<u8>, after: Seq<u8>)
    requires
        !sextets(before).1,
        forall|i: int| 0 <= i < junk.len() ==> (#[trigger] sextet_value(junk[i])) is None && junk[i] != PAD,
    ensures
        base64_decoded(before + junk + after) == base64_decoded(before + after),
{
    lemma_junk_adds_nothing(junk);
    lemma_sextets_append(before, junk);
    assert(sextets(before).0 + Seq::<u8>::empty() =~= sextets(before).0);
    assert(!sextets(before + junk).1);
    lemma_sextets_append(before + junk, after);
    lemma_sextets_append(before, after);
}

/// The text [`base64`] writes is ASCII: its bytes are the bytes of the encoding.
pub proof fn lemma_encoded_text_bytes(bytes: Seq<u8>)
    ensures
        encode_utf8(ascii_chars(base64_encoded(bytes))) == base64_encoded(bytes),
{
    let e = base64_encoded(bytes);
    let chars = ascii_chars(e);
    lemma_encoded_is_ascii(bytes);
    assert(is_ascii_chars(chars)) by {
        assert forall|i: int| 0 <= i < chars.len() implies '\0' <= #[trigger] chars[i] <= '\u{7f}' by {
            assert(e[i] < 128);
        }
    }
    is_ascii_chars_encode_utf8(chars);
    assert forall|i: int| 0 <= i < e.len() implies #[trigger] encode_utf8(chars)[i] == e[i] by {
        assert(chars[i] as u8 == encode_utf8(chars)[i]);
        assert(e[i] < 128);
    }
    assert(encode_utf8(chars) =~= e);
}

/// What [`base64`] writes, [`decode_base64`] reads back: decoding the text of the encoding of
/// any bytes gives those bytes, so the text decoded is theirs exactly when they are UTF-8.
pub proof fn lemma_decode_undoes_encode(bytes: Seq<u8>)
    ensures
        base64_decoded(encode_utf8(ascii_chars(base64_encoded(bytes)))) == bytes,
{
    lemma_encoded_text_bytes(bytes);
    lemma_encoded_decodes(bytes);
}

/// `bytes` in standard base64, padded.
pub fn base64(bytes: &[u8]) -> (text: String)
    ensures
        text@ == ascii_chars(base64_encoded(bytes@)),
{
    let mut out = String::new();
    let len = bytes.len();
    let mut i: usize = 0;
    while len - i >= 3
        invariant
            len == bytes@.len(),
            i <= len,
            i % 3 == 0,
            out@ == ascii_chars(base64_encoded(bytes@.take(i as int))),
        decreases len - i,
    {
        let (a, b, c) = (bytes[i], bytes[i + 1], bytes[i + 2]);
        let ghost before = out@;
        proof {
            lemma_alphabet_is_ascii((a / 4) as u8);
            lemma_alphabet_is_ascii(((a % 4) * 16 + b / 16) as u8);
            lemma_alphabet_is_ascii(((b % 16) * 4 + c / 64) as u8);
            lemma_alphabet_is_ascii((c % 64) as u8);
        }
        push_ascii(&mut out, alphabet(a / 4));
        push_ascii(&mut out, alphabet((a % 4) * 16 + b / 16));
        push_ascii(&mut out, alphabet((b % 16) * 4 + c / 64));
        push_ascii(&mut out, alphabet(c % 64));
        proof {
            lemma_encode_step(bytes@, i as int);
            assert(out@ =~= ascii_chars(base64_encoded(bytes@.take(i + 3))));
        }
        i = i + 3;
    }
    let ghost done = out@;
    let rest = len - i;
    if rest == 1 {
        let a = bytes[i];
        proof {
            lemma_alphabet_is_ascii((a / 4) as u8);
            lemma_alphabet_is_ascii(((a % 4) * 16) as u8);
        }
        push_ascii(&mut out, alphabet(a / 4));
        push_ascii(&mut out, alphabet((a % 4) * 16));
        push_ascii(&mut out, PAD);
        push_ascii(&mut out, PAD);
    } else if rest == 2 {
        let (a, b) = (bytes[i], bytes[i + 1]);
        proof {
            lemma_alphabet_is_ascii((a / 4) as u8);
            lemma_alphabet_is_ascii(((a % 4) * 16 + b / 16) as u8);
            lemma_alphabet_is_ascii(((b % 16) * 4) as u8);
        }
        push_ascii(&mut out, alphabet(a / 4));
        push_ascii(&mut out, alphabet((a % 4) * 16 + b / 16));
        push_ascii(&mut out, alphabet((b % 16) * 4));
        push_ascii(&mut out, PAD);
    }
    proof {
        lemma_encoded_split(bytes@, i as int);
        let tail = bytes@.skip(i as int);
        assert(tail.len() == rest);
        if rest == 1 {
            assert(tail[0] == bytes@[i as int]);
        } else if rest == 2 {
            assert(tail[0] == bytes@[i as int] && tail[1] == bytes@[i + 1]);
        } else {
            assert(tail =~= Seq::<u8>::empty());
        }
        assert(out@ =~= ascii_chars(base64_encoded(bytes@)));
    }
    out
}

} // verus!
