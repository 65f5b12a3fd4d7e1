//! A comment that is written can be read back: unpacking undoes packing,
//! unescaping undoes escaping, and decoding UTF-16 undoes encoding it.

use crate::alphabet::{digits, holds_at, lemma_number_of_digits};
use crate::comment::{
    comment_digits, escape, escape_char, escape_unit, escaped_comment, group_count, group_value,
    hex_digit, hex_fold, hex_value, is_unreserved, lemma_escape_bytes, pack, packable, packed_byte,
    parse_comment, pow96, unescape_units, unpacked, utf16_lossy, utf16_units,
};
use crate::format::DecodeError;
use vstd::prelude::*;

verus! {

/// The characters with the values of ASCII bytes.
pub open spec fn as_chars(bytes: Seq<u8>) -> Seq<char> {
    Seq::new(bytes.len(), |i: int| bytes[i] as char)
}

/// The UTF-16 code units of a text: those of its characters in order.
pub open spec fn utf16_encode(s: Seq<char>) -> Seq<u16>
    decreases s.len(),
{
    if s.len() == 0 {
        Seq::empty()
    } else {
        utf16_units(s[0]) + utf16_encode(s.drop_first())
    }
}

/// A group of four packed bytes gives each of them back.
proof fn lemma_group_digit(b0: int, b1: int, b2: int, b3: int, k: int)
    requires
        0 <= b0 < 96,
        0 <= b1 < 96,
        0 <= b2 < 96,
        0 <= b3 < 96,
        0 <= k < 4,
    ensures
        0 <= b0 + 96 * b1 + 9216 * b2 + 884736 * b3 < 84934656,
        (b0 + 96 * b1 + 9216 * b2 + 884736 * b3) / pow96(k) % 96 == (if k == 0 {
            b0
        } else if k == 1 {
            b1
        } else if k == 2 {
            b2
        } else {
            b3
        }),
{
    let v = b0 + 96 * b1 + 9216 * b2 + 884736 * b3;
    assert(v / 96 == b1 + 96 * b2 + 9216 * b3);
    assert(v / 9216 == b2 + 96 * b3);
    assert(v / 884736 == b3);
}

/// Unpacking the packed form of bytes gives the bytes back.
pub proof fn lemma_unpack_pack(d: Seq<u8>, pos: int, bytes: Seq<u8>)
    requires
        packable(bytes),
        holds_at(d, pos, pack(bytes)),
    ensures
        unpacked(d, pos, bytes.len() as int) == as_chars(bytes),
{
    let len = bytes.len() as int;
    let a = unpacked(d, pos, len);
    let b = as_chars(bytes);
    assert forall|i: int| 0 <= i < len implies a[i] == b[i] by {
        let g = i / 4;
        let k = i % 4;
        let v = group_value(bytes, g);
        let b0 = packed_byte(bytes, 4 * g);
        let b1 = packed_byte(bytes, 4 * g + 1);
        let b2 = packed_byte(bytes, 4 * g + 2);
        let b3 = packed_byte(bytes, 4 * g + 3);
        assert(0 <= b0 < 96 && 0 <= b1 < 96 && 0 <= b2 < 96 && 0 <= b3 < 96);
        lemma_group_digit(b0, b1, b2, b3, k);
        assert(g < group_count(len));
        assert(holds_at(d, pos + 5 * g, digits(v, 5))) by {
            let part = d.subrange(pos + 5 * g, pos + 5 * g + 5);
            assert forall|j: int| 0 <= j < 5 implies part[j] == digits(v, 5)[j] by {
                assert(part[j] == d.subrange(pos, pos + pack(bytes).len())[5 * g + j]);
                assert((5 * g + j) / 5 == g);
                assert((5 * g + j) % 5 == j);
            }
            assert(part =~= digits(v, 5));
        }
        lemma_number_of_digits(d, pos + 5 * g, v, 5);
        assert(v / pow96(k) % 96 == bytes[i] - 32);
    }
    assert(a =~= b);
}

/// The escaped form of a text starts with the escaped form of its first
/// character.
pub proof fn lemma_escape_front(s: Seq<char>)
    requires
        s.len() > 0,
    ensures
        escape(s) == escape_char(s[0]) + escape(s.drop_first()),
    decreases s.len(),
{
    if s.len() == 1 {
        assert(s.drop_last() =~= Seq::<char>::empty());
        assert(s.drop_first() =~= Seq::<char>::empty());
        assert(escape(s) =~= escape_char(s[0]) + escape(s.drop_first()));
    } else {
        lemma_escape_front(s.drop_last());
        assert(s.drop_last().drop_first() =~= s.drop_first().drop_last());
        assert(s.drop_first().last() == s.last());
        assert(s.drop_last()[0] == s[0]);
        assert(escape(s) =~= escape_char(s[0]) + escape(s.drop_first()));
    }
}

/// The value of the hexadecimal digit for `v` is `v`, and the digit is not
/// the letter that marks a code unit.
proof fn lemma_hex_digit(v: int)
    requires
        0 <= v < 16,
    ensures
        hex_value(hex_digit(v) as char) == Some(v),
        hex_digit(v) as char != 'u',
        hex_digit(v) as char != '%',
{
}

/// Reading `%u` and four digits gives the code unit, and goes on after them.
proof fn lemma_unescape_unit(u: u16, rest: Seq<char>)
    ensures
        unescape_units(as_chars(escape_unit(u)) + rest) == seq![u] + unescape_units(rest),
{
    let s = as_chars(escape_unit(u)) + rest;
    let h3 = u as int / 4096;
    let h2 = u as int / 256 % 16;
    let h1 = u as int / 16 % 16;
    let h0 = u as int % 16;
    lemma_hex_digit(h3);
    lemma_hex_digit(h2);
    lemma_hex_digit(h1);
    lemma_hex_digit(h0);
    assert(s[0] == '%' && s[1] == 'u');
    assert(s[2] == hex_digit(h3) as char && s[3] == hex_digit(h2) as char && s[4] == hex_digit(
        h1,
    ) as char && s[5] == hex_digit(h0) as char);
    let four = s.subrange(2, 6);
    assert(four.drop_last() =~= seq![s[2], s[3], s[4]]);
    assert(four.drop_last().drop_last() =~= seq![s[2], s[3]]);
    assert(four.drop_last().drop_last().drop_last() =~= seq![s[2]]);
    assert(four.drop_last().drop_last().drop_last().drop_last() =~= Seq::<char>::empty());
    reveal_with_fuel(hex_fold, 5);
    assert(hex_fold(four) == 4096 * h3 + 256 * h2 + 16 * h1 + h0);
    assert(hex_fold(four) == u as int);
    assert(s.skip(6) =~= rest);
}

/// Reading the escaped form of a character gives its code units, and goes on
/// after it.
pub proof fn lemma_unescape_char(c: char, rest: Seq<char>)
    ensures
        unescape_units(as_chars(escape_char(c)) + rest) == utf16_units(c) + unescape_units(rest),
{
    let e = escape_char(c);
    let s = as_chars(e) + rest;
    let n = c as int;
    if is_unreserved(c) {
        assert(s[0] == c);
        assert(s.skip(1) =~= rest);
        assert(utf16_units(c) =~= seq![(n % 0x10000) as u16]);
    } else if n <= 0xFF {
        lemma_hex_digit(n / 16);
        lemma_hex_digit(n % 16);
        assert(s[0] == '%');
        assert(s[1] == hex_digit(n / 16) as char);
        assert(s[2] == hex_digit(n % 16) as char);
        let two = s.subrange(1, 3);
        assert(two.drop_last() =~= seq![s[1]]);
        assert(two.drop_last().drop_last() =~= Seq::<char>::empty());
        reveal_with_fuel(hex_fold, 3);
        assert(hex_fold(two) == n);
        assert(s.skip(3) =~= rest);
    } else if n <= 0xFFFF {
        lemma_unescape_unit(utf16_units(c)[0], rest);
        assert(utf16_units(c) =~= seq![utf16_units(c)[0]]);
    } else {
        let hi = utf16_units(c)[0];
        let lo = utf16_units(c)[1];
        let tail = as_chars(escape_unit(lo)) + rest;
        lemma_unescape_unit(lo, rest);
        lemma_unescape_unit(hi, tail);
        assert(s =~= as_chars(escape_unit(hi)) + tail);
        assert(utf16_units(c) + unescape_units(rest) =~= seq![hi] + (seq![lo] + unescape_units(
            rest,
        )));
    }
}

/// Unescaping the escaped form of a text gives its UTF-16 code units.
pub proof fn lemma_unescape_escape(s: Seq<char>)
    ensures
        unescape_units(as_chars(escape(s))) == utf16_encode(s),
    decreases s.len(),
{
    if s.len() == 0 {
        assert(as_chars(escape(s)) =~= Seq::<char>::empty());
    } else {
        lemma_escape_front(s);
        lemma_unescape_escape(s.drop_first());
        let rest = as_chars(escape(s.drop_first()));
        lemma_unescape_char(s[0], rest);
        assert(as_chars(escape(s)) =~= as_chars(escape_char(s[0])) + rest);
    }
}

/// Decoding the code units of a character gives the character, and goes on
/// after them.
pub proof fn lemma_utf16_lossy_char(c: char, rest: Seq<u16>)
    ensures
        utf16_lossy(utf16_units(c) + rest) == seq![c] + utf16_lossy(rest),
{
    let u = utf16_units(c) + rest;
    let n = c as int;
    if n < 0x10000 {
        assert(u[0] == n as u16);
        assert(u[0] as char == c);
        assert(u.skip(1) =~= rest);
    } else {
        let m = n - 0x10000;
        assert(u[0] == (0xD800 + m / 0x400) as u16);
        assert(u[1] == (0xDC00 + m % 0x400) as u16);
        assert((0x10000 + (u[0] - 0xD800) * 0x400 + (u[1] - 0xDC00)) == n);
        assert(u.skip(2) =~= rest);
    }
}

/// Decoding the UTF-16 code units of a text gives the text.
pub proof fn lemma_utf16_round_trip(s: Seq<char>)
    ensures
        utf16_lossy(utf16_encode(s)) == s,
    decreases s.len(),
{
    if s.len() > 0 {
        lemma_utf16_round_trip(s.drop_first());
        lemma_utf16_lossy_char(s[0], utf16_encode(s.drop_first()));
        assert(seq![s[0]] + s.drop_first() =~= s);
    }
}

/// Escaping a text and unescaping the result gives the text back.
pub proof fn lemma_escape_round_trip(s: Seq<char>)
    ensures
        utf16_lossy(unescape_units(as_chars(escape(s)))) == s,
{
    lemma_unescape_escape(s);
    lemma_utf16_round_trip(s);
}

/// A comment whose escaped form fits in 4095 bytes is read back as it was
/// written, and the reading ends where the writing did.
pub proof fn lemma_comment_round_trip(d: Seq<u8>, pos: int, text: Seq<char>, more: bool)
    requires
        escape(text).len() <= 4095,
        holds_at(d, pos, comment_digits(text)),
    ensures
        parse_comment(d, pos, more) == Ok::<(Seq<char>, int), DecodeError>(
            (text, pos + comment_digits(text).len()),
        ),
{
    let e = escape(text);
    let len = e.len() as int;
    assert(escaped_comment(text) == e);
    let all = comment_digits(text);
    lemma_escape_bytes(text);
    assert(all.len() == 2 + 5 * group_count(len));
    assert(holds_at(d, pos, digits(len, 2))) by {
        assert(d.subrange(pos, pos + 2) =~= all.subrange(0, 2));
        assert(all.subrange(0, 2) =~= digits(len, 2));
    }
    lemma_number_of_digits(d, pos, len, 2);
    assert(holds_at(d, pos + 2, pack(e))) by {
        assert(d.subrange(pos + 2, pos + 2 + pack(e).len()) =~= all.subrange(2, all.len() as int));
        assert(all.subrange(2, all.len() as int) =~= pack(e));
    }
    lemma_unpack_pack(d, pos + 2, e);
    lemma_escape_round_trip(text);
}

} // verus!
