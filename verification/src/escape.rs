//! Octal escaping of payload bytes.
//!
//! A payload travels inside a text line, so the bytes that would break the
//! line structure are written as a backslash followed by three octal digits:
//! every byte below 0x20 and the backslash itself. All other bytes stand for
//! themselves. Each byte sequence has exactly one escaped form, so escaping
//! and unescaping are inverse to each other bit for bit.

use vstd::prelude::*;

verus! {

/// The byte that introduces an escape sequence.
pub const BACKSLASH: u8 = 0x5c;

/// Whether `b` may not appear literally inside a payload.
pub open spec fn needs_escape(b: u8) -> bool {
    b < 0x20 || b == BACKSLASH
}

/// The ASCII digit for the value `v`.
pub open spec fn digit_char(v: int) -> u8 {
    (0x30 + v) as u8
}

/// Whether `b` is one of the ASCII digits `0` to `7`.
pub open spec fn is_octal(b: u8) -> bool {
    0x30 <= b <= 0x37
}

/// The escaped form of a single byte.
pub open spec fn escaped_byte(b: u8) -> Seq<u8> {
    if needs_escape(b) {
        seq![BACKSLASH, digit_char(b as int / 64), digit_char((b as int / 8) % 8), digit_char(b as int % 8)]
    } else {
        seq![b]
    }
}

/// The escaped form of `data`: the escaped forms of its bytes, in order.
pub open spec fn escaped(data: Seq<u8>) -> Seq<u8>
    decreases data.len(),
{
    if data.len() == 0 {
        Seq::empty()
    } else {
        escaped_byte(data[0]) + escaped(data.skip(1))
    }
}

/// The byte that the escape sequence at the start of `text` stands for, when
/// `text` starts with a backslash, three octal digits, and the value they
/// spell is a byte that has to be escaped.
pub open spec fn escape_head(text: Seq<u8>) -> Option<u8> {
    if text.len() >= 4 && text[0] == BACKSLASH && is_octal(text[1]) && is_octal(text[2])
        && is_octal(text[3]) {
        let v = (text[1] - 0x30) * 64 + (text[2] - 0x30) * 8 + (text[3] - 0x30);
        if v < 256 && needs_escape(v as u8) {
            Some(v as u8)
        } else {
            None
        }
    } else {
        None
    }
}

/// The payload that `text` is the escaped form of, if there is one.
///
/// `None` when `text` holds a literal byte below 0x20, a backslash that does
/// not start a well-formed escape sequence, or an escape sequence for a byte
/// that is written literally.
pub open spec fn unescaped(text: Seq<u8>) -> Option<Seq<u8>>
    decreases text.len(),
{
    if text.len() == 0 {
        Some(Seq::empty())
    } else if text[0] == BACKSLASH {
        match escape_head(text) {
            Some(b) => match unescaped(text.skip(4)) {
                Some(rest) => Some(seq![b] + rest),
                None => None,
            },
            None => None,
        }
    } else if text[0] < 0x20 {
        None
    } else {
        match unescaped(text.skip(1)) {
            Some(rest) => Some(seq![text[0]] + rest),
            None => None,
        }
    }
}

/// Unescaping a byte's escaped form followed by `tail` gives that byte
/// followed by what `tail` unescapes to.
pub proof fn lemma_unescaped_after_byte(b: u8, tail: Seq<u8>)
    ensures
        unescaped(escaped_byte(b) + tail) == match unescaped(tail) {
            Some(rest) => Some(seq![b] + rest),
            None => None,
        },
{
    let text = escaped_byte(b) + tail;
    if needs_escape(b) {
        let d0 = b as int / 64;
        let d1 = (b as int / 8) % 8;
        let d2 = b as int % 8;
        assert(0 <= d0 < 4 && 0 <= d1 < 8 && 0 <= d2 < 8);
        assert(d0 * 64 + d1 * 8 + d2 == b);
        assert(text[0] == BACKSLASH);
        assert(text[1] == digit_char(d0));
        assert(text[2] == digit_char(d1));
        assert(text[3] == digit_char(d2));
        assert(escape_head(text) == Some(b));
        assert(text.skip(4) =~= tail);
    } else {
        assert(text[0] == b);
        assert(text.skip(1) =~= tail);
    }
}

/// Unescaping undoes escaping: every payload comes back from its escaped form.
pub proof fn lemma_unescape_escape(data: Seq<u8>)
    ensures
        unescaped(escaped(data)) == Some(data),
    decreases data.len(),
{
    if data.len() == 0 {
    } else {
        lemma_unescape_escape(data.skip(1));
        lemma_unescaped_after_byte(data[0], escaped(data.skip(1)));
        assert(seq![data[0]] + data.skip(1) =~= data);
    }
}

/// Escaping undoes unescaping: a text that unescapes to a payload is that
/// payload's escaped form, byte for byte.
pub proof fn lemma_escape_unescape(text: Seq<u8>)
    requires
        unescaped(text) is Some,
    ensures
        escaped(unescaped(text).unwrap()) == text,
    decreases text.len(),
{
    if text.len() == 0 {
    } else if text[0] == BACKSLASH {
        let b = escape_head(text).unwrap();
        let rest = unescaped(text.skip(4)).unwrap();
        lemma_escape_unescape(text.skip(4));
        let data = seq![b] + rest;
        assert(data[0] == b);
        assert(data.skip(1) =~= rest);
        let d0 = text[1] - 0x30;
        let d1 = text[2] - 0x30;
        let d2 = text[3] - 0x30;
        assert(b as int / 64 == d0 && (b as int / 8) % 8 == d1 && b as int % 8 == d2);
        assert(escaped_byte(b) =~= text.take(4));
        assert(text.take(4) + text.skip(4) =~= text);
    } else {
        let rest = unescaped(text.skip(1)).unwrap();
        lemma_escape_unescape(text.skip(1));
        let data = seq![text[0]] + rest;
        assert(data[0] == text[0]);
        assert(data.skip(1) =~= rest);
        assert(escaped_byte(text[0]) =~= text.take(1));
        assert(text.take(1) + text.skip(1) =~= text);
    }
}

/// An escaped payload holds no byte below 0x20, so it never breaks a line.
pub proof fn lemma_escaped_is_printable(data: Seq<u8>)
    ensures
        forall|i: int| 0 <= i < escaped(data).len() ==> escaped(data)[i] >= 0x20,
    decreases data.len(),
{
    if data.len() > 0 {
        lemma_escaped_is_printable(data.skip(1));
        let head = escaped_byte(data[0]);
        let tail = escaped(data.skip(1));
        assert forall|i: int| 0 <= i < escaped(data).len() implies escaped(data)[i] >= 0x20 by {
            if i < head.len() {
                assert(escaped(data)[i] == head[i]);
            } else {
                assert(escaped(data)[i] == tail[i - head.len()]);
            }
        }
    }
}

/// Escaping distributes over concatenation.
pub proof fn lemma_escaped_concat(a: Seq<u8>, b: Seq<u8>)
    ensures
        escaped(a + b) == escaped(a) + escaped(b),
    decreases a.len(),
{
    if a.len() == 0 {
        assert(a + b =~= b);
        assert(escaped(a) + escaped(b) =~= escaped(b));
    } else {
        lemma_escaped_concat(a.skip(1), b);
        assert((a + b).skip(1) =~= a.skip(1) + b);
        assert((a + b)[0] == a[0]);
        assert(escaped_byte(a[0]) + (escaped(a.skip(1)) + escaped(b)) =~= (escaped_byte(a[0])
            + escaped(a.skip(1))) + escaped(b));
    }
}

/// Appends the escaped form of `b` to `out`.
fn push_escaped(out: &mut Vec<u8>, b: u8)
    ensures
        final(out)@ == old(out)@ + escaped_byte(b),
{
    if b < 0x20 || b == BACKSLASH {
        out.push(BACKSLASH);
        out.push(0x30 + b / 64);
        out.push(0x30 + (b / 8) % 8);
        out.push(0x30 + b % 8);
        assert(out@ =~= old(out)@ + escaped_byte(b));
    } else {
        out.push(b);
        assert(out@ =~= old(out)@ + escaped_byte(b));
    }
}

/// Appends the escaped form of `data` to `out`.
pub fn escape_into(out: &mut Vec<u8>, data: &[u8])
    ensures
        final(out)@ == old(out)@ + escaped(data@),
{
    let mut i: usize = 0;
    assert(data@.take(0) =~= Seq::<u8>::empty());
    assert(out@ =~= old(out)@ + escaped(data@.take(0)));
    while i < data.len()
        invariant
            i <= data.len(),
            out@ == old(out)@ + escaped(data@.take(i as int)),
        decreases data.len() - i,
    {
        push_escaped(out, data[i]);
        proof {
            let done = data@.take(i as int);
            lemma_escaped_concat(done, seq![data@[i as int]]);
            let one = seq![data@[i as int]];
            assert(escaped(one.skip(1)) =~= Seq::<u8>::empty());
            assert(escaped(one) =~= escaped_byte(data@[i as int]));
            assert(done + seq![data@[i as int]] =~= data@.take(i + 1));
            assert(out@ =~= old(out)@ + escaped(data@.take(i + 1)));
        }
        i += 1;
    }
    assert(data@.take(data.len() as int) =~= data@);
}

/// The escaped form of `data`.
pub fn escape(data: &[u8]) -> (text: Vec<u8>)
    ensures
        text@ == escaped(data@),
{
    let mut out: Vec<u8> = Vec::new();
    escape_into(&mut out, data);
    assert(out@ =~= escaped(data@));
    out
}

/// Unescapes the part of `text` that starts at `from`.
pub fn unescape_from(text: &[u8], from: usize) -> (data: Option<Vec<u8>>)
    requires
        from <= text.len(),
    ensures
        match unescaped(text@.skip(from as int)) {
            Some(d) => data is Some && data.unwrap()@ == d,
            None => data is None,
        },
{
    let mut out: Vec<u8> = Vec::new();
    let mut i: usize = from;
    let ghost whole = unescaped(text@.skip(from as int));
    assert(whole == match unescaped(text@.skip(i as int)) {
        Some(t) => Some(out@ + t),
        None => None,
    }) by {
        if let Some(t) = unescaped(text@.skip(i as int)) {
            assert(out@ + t =~= t);
        }
    }
    while i < text.len()
        invariant
            from <= i <= text.len(),
            whole == unescaped(text@.skip(from as int)),
            whole == match unescaped(text@.skip(i as int)) {
                Some(t) => Some(out@ + t),
                None => None,
            },
        decreases text.len() - i,
    {
        let ghost here = text@.skip(i as int);
        let ghost before = out@;
        let b = text[i];
        assert(here.len() == text.len() - i && here[0] == b);
        if b == BACKSLASH {
            if text.len() - i < 4 {
                return None;
            }
            let c1 = text[i + 1];
            let c2 = text[i + 2];
            let c3 = text[i + 3];
            assert(here[1] == c1 && here[2] == c2 && here[3] == c3);
            if !(0x30 <= c1 && c1 <= 0x33 && 0x30 <= c2 && c2 <= 0x37 && 0x30 <= c3 && c3 <= 0x37) {
                return None;
            }
            let v: u8 = (c1 - 0x30) * 64 + (c2 - 0x30) * 8 + (c3 - 0x30);
            if !(v < 0x20 || v == BACKSLASH) {
                return None;
            }
            out.push(v);
            proof {
                assert(here.skip(4) =~= text@.skip(i + 4));
                if let Some(t) = unescaped(text@.skip(i + 4)) {
                    assert(before + (seq![v] + t) =~= out@ + t);
                }
            }
            i += 4;
        } else if b < 0x20 {
            return None;
        } else {
            out.push(b);
            proof {
                assert(here.skip(1) =~= text@.skip(i + 1));
                if let Some(t) = unescaped(text@.skip(i + 1)) {
                    assert(before + (seq![b] + t) =~= out@ + t);
                }
            }
            i += 1;
        }
    }
    assert(text@.skip(i as int) =~= Seq::<u8>::empty());
    assert(out@ + Seq::<u8>::empty() =~= out@);
    Some(out)
}

/// The payload that `text` is the escaped form of; `None` exactly when `text`
/// is no payload's escaped form.
pub fn unescape(text: &[u8]) -> (data: Option<Vec<u8>>)
    ensures
        match unescaped(text@) {
            Some(d) => data is Some && data.unwrap()@ == d,
            None => data is None,
        },
{
    assert(text@.skip(0) =~= text@);
    unescape_from(text, 0)
}

} // verus!
