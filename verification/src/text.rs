//! Turning bytes into text and text into bytes, with what std's functions promise of it.

use vstd::prelude::*;
use vstd::utf8::{decode_utf8, valid_utf8};

verus! {

/// The text `String::from_utf8_lossy` makes of `bytes`: every sequence that is not UTF-8
/// replaced by U+FFFD.
pub uninterp spec fn lossy_text(bytes: Seq<u8>) -> Seq<char>;

/// `bytes` as text: what they encode when they are UTF-8, [`lossy_text`] of them otherwise.
pub open spec fn bytes_text(bytes: Seq<u8>) -> Seq<char> {
    if valid_utf8(bytes) { decode_utf8(bytes) } else { lossy_text(bytes) }
}

/// `bytes` as text, with anything that is not UTF-8 replaced rather than dropped.
///
/// Calls `String::from_utf8_lossy`. Its contract claims that the result is the function
/// [`lossy_text`] of the bytes and nothing else, and, as std's documentation says, that valid
/// UTF-8 comes back decoded unchanged.
#[verifier::external_body]
pub(crate) fn lossy(bytes: &[u8]) -> (text: String)
    ensures
        text@ == lossy_text(bytes@),
        valid_utf8(bytes@) ==> text@ == decode_utf8(bytes@),
        text@ == bytes_text(bytes@),
{
    String::from_utf8_lossy(bytes).into_owned()
}

/// `bytes` as text when they are UTF-8, `None` otherwise.
///
/// Calls `String::from_utf8`. Its contract claims what std documents: the bytes are taken
/// exactly when they are valid UTF-8, and the text is what they encode.
#[verifier::external_body]
pub(crate) fn utf8(bytes: Vec<u8>) -> (text: Option<String>)
    ensures
        text is Some <==> valid_utf8(bytes@),
        text matches Some(s) ==> s@ == decode_utf8(bytes@),
{
    String::from_utf8(bytes).ok()
}

/// The characters of `text`.
pub(crate) fn chars_of(text: &str) -> (chars: Vec<char>)
    ensures
        chars@ == text@,
{
    broadcast use vstd::string::axiom_spec_iter;

    let mut chars: Vec<char> = Vec::new();
    for c in it: text.chars()
        invariant
            chars@.len() == it.index(),
            forall|i: int| 0 <= i < it.index() ==> chars@[i] == it.seq()[i],
    {
        chars.push(c);
    }
    assert(chars@ =~= text@);
    chars
}

/// Appends `c` to `text`.
///
/// Calls `String::push`, which std documents as appending the character to the end.
#[verifier::external_body]
pub(crate) fn push_char(text: &mut String, c: char)
    ensures
        final(text)@ == old(text)@.push(c),
{
    text.push(c);
}

/// Whether `c` has Unicode's White_Space property: the code points the Unicode Character
/// Database's PropList.txt lists for it.
pub open spec fn white_space(c: char) -> bool {
    let u = c as u32;
    (0x09 <= u <= 0x0d) || u == 0x20 || u == 0x85 || u == 0xa0 || u == 0x1680 || (0x2000 <= u <= 0x200a)
        || u == 0x2028 || u == 0x2029 || u == 0x202f || u == 0x205f || u == 0x3000
}

/// Whether `c` is white space, as `char::is_whitespace` tells: whether it has the White_Space
/// property.
pub(crate) fn is_whitespace(c: char) -> (white: bool)
    ensures
        white == white_space(c),
{
    let u = c as u32;
    (0x09 <= u && u <= 0x0d) || u == 0x20 || u == 0x85 || u == 0xa0 || u == 0x1680 || (0x2000 <= u && u <= 0x200a)
        || u == 0x2028 || u == 0x2029 || u == 0x202f || u == 0x205f || u == 0x3000
}

/// `s` without the white space it starts with.
pub open spec fn trim_start(s: Seq<char>) -> Seq<char>
    decreases s.len(),
{
    if s.len() > 0 && white_space(s[0]) {
        trim_start(s.drop_first())
    } else {
        s
    }
}

/// `s` without the white space it ends with.
pub open spec fn trim_end(s: Seq<char>) -> Seq<char>
    decreases s.len(),
{
    if s.len() > 0 && white_space(s.last()) {
        trim_end(s.drop_last())
    } else {
        s
    }
}

/// `s` without the white space around it, as `str::trim` gives it.
pub open spec fn trimmed(s: Seq<char>) -> Seq<char> {
    trim_end(trim_start(s))
}

/// Whether every character of `s` is white space.
pub open spec fn all_white(s: Seq<char>) -> bool {
    forall|i: int| 0 <= i < s.len() ==> white_space(#[trigger] s[i])
}

/// `chars` without the white space around them.
pub(crate) fn trim(chars: &Vec<char>) -> (inner: Vec<char>)
    ensures
        inner@ == trimmed(chars@),
{
    let ghost s = chars@;
    assert(s.subrange(0, s.len() as int) =~= s);
    let mut start: usize = 0;
    while start < chars.len() && is_whitespace(chars[start])
        invariant
            start <= chars.len(),
            s == chars@,
            trim_start(s) == trim_start(s.subrange(start as int, s.len() as int)),
        decreases chars.len() - start,
    {
        let ghost rest = s.subrange(start as int, s.len() as int);
        assert(rest.drop_first() =~= s.subrange(start + 1, s.len() as int));
        start = start + 1;
    }
    let ghost t = s.subrange(start as int, s.len() as int);
    assert(trim_start(s) == t);
    let mut end: usize = chars.len();
    while end > start && is_whitespace(chars[end - 1])
        invariant
            start <= end <= chars.len(),
            s == chars@,
            t == s.subrange(start as int, s.len() as int),
            trim_end(t) == trim_end(s.subrange(start as int, end as int)),
        decreases end,
    {
        let ghost part = s.subrange(start as int, end as int);
        assert(part.drop_last() =~= s.subrange(start as int, end - 1));
        end = end - 1;
    }
    let mut inner: Vec<char> = Vec::new();
    let mut i: usize = start;
    while i < end
        invariant
            start <= i <= end <= chars.len(),
            s == chars@,
            inner@ =~= s.subrange(start as int, i as int),
        decreases end - i,
    {
        inner.push(chars[i]);
        i = i + 1;
    }
    inner
}

pub(crate) proof fn lemma_trim_start_skips_white(a: Seq<char>, t: Seq<char>)
    requires
        all_white(a),
    ensures
        trim_start(a + t) == trim_start(t),
    decreases a.len(),
{
    if a.len() == 0 {
        assert(a + t =~= t);
    } else {
        assert((a + t)[0] == a[0]);
        assert((a + t).drop_first() =~= a.drop_first() + t);
        lemma_trim_start_skips_white(a.drop_first(), t);
    }
}

pub(crate) proof fn lemma_trim_end_skips_white(t: Seq<char>, b: Seq<char>)
    requires
        all_white(b),
    ensures
        trim_end(t + b) == trim_end(t),
    decreases b.len(),
{
    if b.len() == 0 {
        assert(t + b =~= t);
    } else {
        assert((t + b).last() == b.last());
        assert((t + b).drop_last() =~= t + b.drop_last());
        lemma_trim_end_skips_white(t, b.drop_last());
    }
}

pub(crate) proof fn lemma_trim_start_keeps_tail(s: Seq<char>, b: Seq<char>)
    requires
        !all_white(s),
    ensures
        trim_start(s + b) == trim_start(s) + b,
    decreases s.len(),
{
    assert((s + b)[0] == s[0]);
    if white_space(s[0]) {
        assert((s + b).drop_first() =~= s.drop_first() + b);
        assert(!all_white(s.drop_first())) by {
            let i = choose|i: int| 0 <= i < s.len() && !white_space(#[trigger] s[i]);
            assert(s.drop_first()[i - 1] == s[i]);
        }
        lemma_trim_start_keeps_tail(s.drop_first(), b);
    }
}

/// The lower case of `text`, as `str::to_lowercase` maps it.
pub uninterp spec fn lowered(text: Seq<char>) -> Seq<char>;

/// `text` in lower case.
///
/// Calls `str::to_lowercase`; its contract claims only that the result is [`lowered`] of the
/// text, a function of the text alone.
#[verifier::external_body]
pub(crate) fn to_lowercase(text: &str) -> (lower: String)
    ensures
        lower@ == lowered(text@),
{
    text.to_lowercase()
}

/// The text of `text` without the white space around it.
pub(crate) fn trim_str(text: &str) -> (inner: String)
    ensures
        inner@ == trimmed(text@),
{
    let chars = chars_of(text);
    let kept = trim(&chars);
    let mut inner = String::new();
    let mut i: usize = 0;
    while i < kept.len()
        invariant
            i <= kept@.len(),
            inner@ == kept@.take(i as int),
        decreases kept@.len() - i,
    {
        push_char(&mut inner, kept[i]);
        assert(kept@.take(i + 1) =~= kept@.take(i as int).push(kept@[i as int]));
        i = i + 1;
    }
    assert(kept@.take(i as int) =~= kept@);
    inner
}

} // verus!
