//! The comment text of a page: percent-escaping of its characters, and the
//! packing of the escaped bytes into groups of five symbols.

use crate::alphabet::{digits, number, pow64, push_number, read_number, valid_digits};
use crate::format::{end_error, DecodeError};
use vstd::prelude::*;

verus! {

/// Whether a character is written as it is: an ASCII letter or digit, or one
/// of `@ * _ + - . /`.
pub open spec fn is_unreserved(c: char) -> bool {
    ('a' <= c <= 'z') || ('A' <= c <= 'Z') || ('0' <= c <= '9') || c == '@' || c == '*' || c
        == '_' || c == '+' || c == '-' || c == '.' || c == '/'
}

/// The upper-case hexadecimal digit for a value from 0 to 15, as an ASCII byte.
pub open spec fn hex_digit(v: int) -> u8 {
    if v < 10 {
        (48 + v) as u8
    } else {
        (55 + v) as u8
    }
}

/// The UTF-16 code units of a character: one unit, or a surrogate pair for a
/// character above U+FFFF.
pub open spec fn utf16_units(c: char) -> Seq<u16> {
    let n = c as int;
    if n < 0x10000 {
        seq![n as u16]
    } else {
        seq![(0xD800 + (n - 0x10000) / 0x400) as u16, (0xDC00 + (n - 0x10000) % 0x400) as u16]
    }
}

/// `%u` and the four hexadecimal digits of a code unit.
pub open spec fn escape_unit(u: u16) -> Seq<u8> {
    seq![
        37u8,
        117u8,
        hex_digit(u as int / 4096),
        hex_digit(u as int / 256 % 16),
        hex_digit(u as int / 16 % 16),
        hex_digit(u as int % 16),
    ]
}

/// The escaped form of one character: itself when unreserved, `%XX` up to
/// U+00FF, and `%uXXXX` for each of its UTF-16 code units above that.
pub open spec fn escape_char(c: char) -> Seq<u8> {
    if is_unreserved(c) {
        seq![c as u8]
    } else if c as int <= 0xFF {
        seq![37u8, hex_digit(c as int / 16), hex_digit(c as int % 16)]
    } else if c as int <= 0xFFFF {
        escape_unit(utf16_units(c)[0])
    } else {
        escape_unit(utf16_units(c)[0]) + escape_unit(utf16_units(c)[1])
    }
}

/// The escaped form of a text: the escaped forms of its characters in order.
pub open spec fn escape(s: Seq<char>) -> Seq<u8>
    decreases s.len(),
{
    if s.len() == 0 {
        Seq::empty()
    } else {
        escape(s.drop_last()) + escape_char(s.last())
    }
}

/// Whether every byte is a printable ASCII byte or DEL: the range that one
/// packed position can hold.
pub open spec fn packable(bytes: Seq<u8>) -> bool {
    forall|i: int| 0 <= i < bytes.len() ==> 32 <= #[trigger] bytes[i] < 128
}

/// The escaped form of a character is one to twelve bytes that can be packed.
pub proof fn lemma_escape_char_bytes(c: char)
    ensures
        1 <= escape_char(c).len() <= 12,
        packable(escape_char(c)),
{
    let e = escape_char(c);
    assert forall|i: int| 0 <= i < e.len() implies 32 <= #[trigger] e[i] < 128 by {
        let n = c as int;
        if is_unreserved(c) {
        } else if n <= 0xFF {
        } else if n <= 0xFFFF {
        } else {
            let a = escape_unit(utf16_units(c)[0]);
            let b = escape_unit(utf16_units(c)[1]);
            if i < 6 {
                assert(e[i] == a[i]);
            } else {
                assert(e[i] == b[i - 6]);
            }
        }
    }
}

/// The escaped form of a text can be packed.
pub proof fn lemma_escape_bytes(s: Seq<char>)
    ensures
        packable(escape(s)),
    decreases s.len(),
{
    if s.len() > 0 {
        lemma_escape_bytes(s.drop_last());
        lemma_escape_char_bytes(s.last());
    }
}

/// The upper-case hexadecimal digit for a value from 0 to 15.
fn hex_digit_of(v: u32) -> (b: u8)
    requires
        v < 16,
    ensures
        b == hex_digit(v as int),
{
    if v < 10 {
        (48 + v) as u8
    } else {
        (55 + v) as u8
    }
}

/// Appends `%u` and the four hexadecimal digits of a code unit.
fn push_unit(out: &mut Vec<u8>, u: u32)
    requires
        u <= 0xFFFF,
    ensures
        final(out)@ == old(out)@ + escape_unit(u as u16),
{
    out.push(37);
    out.push(117);
    out.push(hex_digit_of(u / 4096));
    out.push(hex_digit_of(u / 256 % 16));
    out.push(hex_digit_of(u / 16 % 16));
    out.push(hex_digit_of(u % 16));
    assert(out@ =~= old(out)@ + escape_unit(u as u16));
}

/// Whether a character is written as it is.
fn unreserved(c: char) -> (b: bool)
    ensures
        b == is_unreserved(c),
{
    ('a' <= c && c <= 'z') || ('A' <= c && c <= 'Z') || ('0' <= c && c <= '9') || c == '@' || c
        == '*' || c == '_' || c == '+' || c == '-' || c == '.' || c == '/'
}

/// Appends the escaped form of one character.
fn push_escaped(out: &mut Vec<u8>, c: char)
    ensures
        final(out)@ == old(out)@ + escape_char(c),
{
    let n: u32 = c as u32;
    if unreserved(c) {
        out.push(n as u8);
    } else if n <= 0xFF {
        out.push(37);
        out.push(hex_digit_of(n / 16));
        out.push(hex_digit_of(n % 16));
    } else if n <= 0xFFFF {
        push_unit(out, n);
    } else {
        let m: u32 = n - 0x10000;
        push_unit(out, 0xD800 + m / 0x400);
        push_unit(out, 0xDC00 + m % 0x400);
    }
    assert(out@ =~= old(out)@ + escape_char(c));
}

/// The escaped form of a text.
pub fn js_escape(s: &str) -> (escaped: Vec<u8>)
    ensures
        escaped@ == escape(s@),
        packable(escaped@),
{
    let mut result: Vec<u8> = Vec::new();
    for c in it: s.chars()
        invariant
            result@ == escape(it.seq().take(it.index() as int)),
    {
        proof {
            let next = it.seq().take(it.index() + 1);
            assert(next.drop_last() =~= it.seq().take(it.index() as int));
            assert(next.last() == c);
        }
        push_escaped(&mut result, c);
    }
    proof {
        assert(s@.take(s@.len() as int) =~= s@);
        lemma_escape_bytes(s@);
    }
    result
}

/// 96 to the power `k`, for `k` from 0 to 3.
pub open spec fn pow96(k: int) -> int {
    if k <= 0 {
        1
    } else if k == 1 {
        96
    } else if k == 2 {
        9216
    } else {
        884736
    }
}

/// What the byte at `i` contributes to its group: the byte less 32, and 0
/// past the end.
pub open spec fn packed_byte(bytes: Seq<u8>, i: int) -> int {
    if 0 <= i < bytes.len() {
        bytes[i] - 32
    } else {
        0
    }
}

/// The base-96 number that the `g`-th group of four bytes stands for, first
/// byte least significant.
pub open spec fn group_value(bytes: Seq<u8>, g: int) -> int {
    packed_byte(bytes, 4 * g) + 96 * packed_byte(bytes, 4 * g + 1) + 9216 * packed_byte(
        bytes,
        4 * g + 2,
    ) + 884736 * packed_byte(bytes, 4 * g + 3)
}

/// The number of groups of four that hold `len` bytes.
pub open spec fn group_count(len: int) -> int {
    (len + 3) / 4
}

/// The packed form of escaped bytes: five digits for each group of four
/// bytes.
pub open spec fn pack(bytes: Seq<u8>) -> Seq<u8> {
    Seq::new(
        (5 * group_count(bytes.len() as int)) as nat,
        |i: int| (group_value(bytes, i / 5) / pow64(i % 5) % 64) as u8,
    )
}

/// The escaped form of a text, cut to the 4095 bytes that the length field
/// can count.
pub open spec fn escaped_comment(text: Seq<char>) -> Seq<u8> {
    let e = escape(text);
    if e.len() > 4095 {
        e.subrange(0, 4095)
    } else {
        e
    }
}

/// The digits that stand for a comment: its escaped length in two digits,
/// then the escaped bytes, packed.
pub open spec fn comment_digits(text: Seq<char>) -> Seq<u8> {
    let e = escaped_comment(text);
    digits(e.len() as int, 2) + pack(e)
}

/// The `len` characters that are packed in the groups from `pos` on.
pub open spec fn unpacked(d: Seq<u8>, pos: int, len: int) -> Seq<char> {
    Seq::new(
        len as nat,
        |i: int| ((number(d, pos + 5 * (i / 4), 5) / pow96(i % 4) % 96 + 32) as u8) as char,
    )
}

/// The value of a hexadecimal digit, upper or lower case.
pub open spec fn hex_value(c: char) -> Option<int> {
    if '0' <= c <= '9' {
        Some(c as int - 48)
    } else if 'a' <= c <= 'f' {
        Some(c as int - 87)
    } else if 'A' <= c <= 'F' {
        Some(c as int - 55)
    } else {
        None
    }
}

/// The number that the hexadecimal digits among `s` stand for; characters
/// that are no such digit are passed over.
pub open spec fn hex_fold(s: Seq<char>) -> int
    decreases s.len(),
{
    if s.len() == 0 {
        0
    } else {
        match hex_value(s.last()) {
            Some(v) => 16 * hex_fold(s.drop_last()) + v,
            None => hex_fold(s.drop_last()),
        }
    }
}

/// The UTF-16 code units that an escaped text stands for: `%u` takes the
/// next four characters as hexadecimal digits, any other `%` the next two,
/// and every other character stands for itself.
pub open spec fn unescape_units(s: Seq<char>) -> Seq<u16>
    decreases s.len(),
{
    if s.len() == 0 {
        Seq::empty()
    } else if s[0] != '%' {
        seq![(s[0] as int % 0x10000) as u16] + unescape_units(s.skip(1))
    } else if s.len() >= 2 && s[1] == 'u' {
        let end = if s.len() < 6 {
            s.len() as int
        } else {
            6
        };
        seq![hex_fold(s.subrange(2, end)) as u16] + unescape_units(s.skip(end))
    } else {
        let end = if s.len() < 3 {
            s.len() as int
        } else {
            3
        };
        seq![hex_fold(s.subrange(1, end)) as u16] + unescape_units(s.skip(end))
    }
}

/// The text that UTF-16 code units stand for, with U+FFFD in place of each
/// surrogate that has no partner.
pub open spec fn utf16_lossy(u: Seq<u16>) -> Seq<char>
    decreases u.len(),
{
    if u.len() == 0 {
        Seq::empty()
    } else if u[0] < 0xD800 || u[0] > 0xDFFF {
        seq![u[0] as char] + utf16_lossy(u.skip(1))
    } else if u[0] < 0xDC00 && u.len() >= 2 && 0xDC00 <= u[1] <= 0xDFFF {
        seq![(0x10000 + (u[0] - 0xD800) * 0x400 + (u[1] - 0xDC00)) as char] + utf16_lossy(
            u.skip(2),
        )
    } else {
        seq!['\u{FFFD}'] + utf16_lossy(u.skip(1))
    }
}

/// The text of a comment that stands in the digits from `pos` on, and the
/// position after it; it is an error when the digits end before the comment
/// does.
pub open spec fn parse_comment(d: Seq<u8>, pos: int, more: bool) -> Result<
    (Seq<char>, int),
    DecodeError,
> {
    if pos + 2 > d.len() {
        Err(end_error(more))
    } else {
        let len = number(d, pos, 2);
        let end = pos + 2 + 5 * group_count(len);
        if end > d.len() {
            Err(end_error(more))
        } else {
            Ok((utf16_lossy(unescape_units(unpacked(d, pos + 2, len))), end))
        }
    }
}

/// A number of up to four hexadecimal digits fits in a code unit.
pub proof fn lemma_hex_fold_bound(s: Seq<char>)
    requires
        s.len() <= 4,
    ensures
        0 <= hex_fold(s) < (if s.len() == 0 {
            1int
        } else if s.len() == 1 {
            16
        } else if s.len() == 2 {
            256
        } else if s.len() == 3 {
            4096
        } else {
            65536
        }),
    decreases s.len(),
{
    if s.len() > 0 {
        lemma_hex_fold_bound(s.drop_last());
    }
}

/// What the byte at `i` contributes to its group.
fn packed_at(bytes: &Vec<u8>, i: usize) -> (v: u32)
    requires
        packable(bytes@),
    ensures
        v == packed_byte(bytes@, i as int),
        v < 96,
{
    if i < bytes.len() {
        (bytes[i] - 32) as u32
    } else {
        0
    }
}

/// Appends the packed form of escaped bytes.
pub fn push_packed(data: &mut Vec<u8>, bytes: &Vec<u8>)
    requires
        packable(bytes@),
        bytes.len() <= 4095,
    ensures
        final(data)@ == old(data)@ + pack(bytes@),
        valid_digits(old(data)@) ==> valid_digits(final(data)@),
{
    let groups: usize = (bytes.len() + 3) / 4;
    let mut g: usize = 0;
    while g < groups
        invariant
            0 <= g <= groups,
            groups == group_count(bytes.len() as int),
            bytes.len() <= 4095,
            packable(bytes@),
            data@ == old(data)@ + pack(bytes@).take(5 * g),
            valid_digits(old(data)@) ==> valid_digits(data@),
        decreases groups - g,
    {
        let v: u32 = packed_at(bytes, 4 * g) + 96 * packed_at(bytes, 4 * g + 1) + 9216 * packed_at(
            bytes,
            4 * g + 2,
        ) + 884736 * packed_at(bytes, 4 * g + 3);
        let ghost before = data@;
        push_number(data, v, 5);
        proof {
            let all = pack(bytes@);
            let part = digits(v as int, 5);
            assert forall|j: int| 0 <= j < 5 implies all[5 * g + j] == part[j] by {
                assert((5 * g + j) / 5 == g);
                assert((5 * g + j) % 5 == j);
            }
            assert(before + part =~= old(data)@ + all.take(5 * (g + 1)));
        }
        g += 1;
    }
    assert(pack(bytes@).take(5 * groups) =~= pack(bytes@));
}

/// Appends the digits that stand for a comment.
pub fn push_comment(data: &mut Vec<u8>, comment: &str)
    ensures
        final(data)@ == old(data)@ + comment_digits(comment@),
        valid_digits(old(data)@) ==> valid_digits(final(data)@),
{
    let mut escaped = js_escape(comment);
    escaped.truncate(4095);
    assert(escaped@ == escaped_comment(comment@));
    let ghost before = data@;
    push_number(data, escaped.len() as u32, 2);
    push_packed(data, &escaped);
    assert(data@ =~= before + comment_digits(comment@));
}

/// 96 to the power `k`.
fn pow96_of(k: usize) -> (p: u32)
    requires
        k < 4,
    ensures
        p == pow96(k as int),
{
    if k == 0 {
        1
    } else if k == 1 {
        96
    } else if k == 2 {
        9216
    } else {
        884736
    }
}

/// The `len` characters that are packed in the groups from `pos` on.
pub fn read_packed(d: &Vec<u8>, pos: usize, len: usize) -> (chars: Vec<char>)
    requires
        valid_digits(d@),
        len <= 4095,
        pos + 5 * group_count(len as int) <= d.len(),
    ensures
        chars@ == unpacked(d@, pos as int, len as int),
{
    let mut chars: Vec<char> = Vec::new();
    let mut i: usize = 0;
    while i < len
        invariant
            0 <= i <= len <= 4095,
            valid_digits(d@),
            pos + 5 * group_count(len as int) <= d.len(),
            chars@ == unpacked(d@, pos as int, i as int),
        decreases len - i,
    {
        let group: u32 = read_number(d, pos + 5 * (i / 4), 5);
        let byte: u32 = group / pow96_of(i % 4) % 96 + 32;
        chars.push((byte as u8) as char);
        assert(chars@ =~= unpacked(d@, pos as int, i + 1));
        i += 1;
    }
    chars
}

/// The value of a hexadecimal digit, upper or lower case.
fn hex_value_of(c: char) -> (v: Option<u16>)
    ensures
        v is Some <==> hex_value(c) is Some,
        v is Some ==> v.unwrap() == hex_value(c).unwrap() && v.unwrap() < 16,
{
    let n: u32 = c as u32;
    if '0' <= c && c <= '9' {
        Some((n - 48) as u16)
    } else if 'a' <= c && c <= 'f' {
        Some((n - 87) as u16)
    } else if 'A' <= c && c <= 'F' {
        Some((n - 55) as u16)
    } else {
        None
    }
}

/// The number that the hexadecimal digits among `chars[from..to]` stand for.
fn read_hex(chars: &Vec<char>, from: usize, to: usize) -> (v: u16)
    requires
        from <= to <= chars.len(),
        to - from <= 4,
    ensures
        v == hex_fold(chars@.subrange(from as int, to as int)),
{
    let mut v: u16 = 0;
    let mut i: usize = from;
    while i < to
        invariant
            from <= i <= to <= chars.len(),
            to - from <= 4,
            v == hex_fold(chars@.subrange(from as int, i as int)),
        decreases to - i,
    {
        proof {
            let next = chars@.subrange(from as int, i + 1);
            assert(next.drop_last() =~= chars@.subrange(from as int, i as int));
            assert(next.last() == chars@[i as int]);
            lemma_hex_fold_bound(chars@.subrange(from as int, i as int));
            lemma_hex_fold_bound(next);
        }
        match hex_value_of(chars[i]) {
            Some(h) => {
                v = 16 * v + h;
            },
            None => {},
        }
        i += 1;
    }
    v
}

/// The low sixteen bits of a character's code point.
fn low_unit(c: char) -> (u: u16)
    ensures
        u == (c as int % 0x10000) as u16,
{
    ((c as u32) % 0x10000) as u16
}

/// The UTF-16 code units that an escaped text stands for.
pub fn unescape_chars(chars: &Vec<char>) -> (units: Vec<u16>)
    ensures
        units@ == unescape_units(chars@),
{
    let mut units: Vec<u16> = Vec::new();
    let len: usize = chars.len();
    let mut i: usize = 0;
    proof {
        assert(chars@.skip(0) =~= chars@);
        assert(units@ + unescape_units(chars@) =~= unescape_units(chars@));
    }
    while i < len
        invariant
            0 <= i <= len == chars.len(),
            units@ + unescape_units(chars@.skip(i as int)) == unescape_units(chars@),
        decreases len - i,
    {
        let ghost rest = chars@.skip(i as int);
        let ghost before = units@;
        let c = chars[i];
        let end: usize;
        if c != '%' {
            units.push(low_unit(c));
            end = i + 1;
        } else if len - i >= 2 && chars[i + 1] == 'u' {
            end = if len - i < 6 {
                len
            } else {
                i + 6
            };
            assert(rest.subrange(2, end - i) =~= chars@.subrange(i + 2, end as int));
            units.push(read_hex(chars, i + 2, end));
        } else {
            end = if len - i < 3 {
                len
            } else {
                i + 3
            };
            assert(rest.subrange(1, end - i) =~= chars@.subrange(i + 1, end as int));
            units.push(read_hex(chars, i + 1, end));
        }
        proof {
            assert(rest.skip(end - i) =~= chars@.skip(end as int));
            assert(units@ + unescape_units(chars@.skip(end as int)) =~= before + unescape_units(
                rest,
            ));
        }
        i = end;
    }
    assert(units@ + Seq::<u16>::empty() =~= units@);
    units
}

/// The text that UTF-16 code units stand for, as `String::from_utf16_lossy`
/// gives it: well-formed units are decoded, and each surrogate that has no
/// partner becomes U+FFFD.
#[verifier::external_body]
fn string_from_utf16_lossy(units: &Vec<u16>) -> (s: String)
    ensures
        s@ == utf16_lossy(units@),
{
    String::from_utf16_lossy(units)
}

/// The characters of a text.
pub fn chars_of(s: &str) -> (chars: Vec<char>)
    ensures
        chars@ == s@,
{
    let mut chars: Vec<char> = Vec::new();
    for c in it: s.chars()
        invariant
            chars@ == it.seq().take(it.index() as int),
    {
        chars.push(c);
    }
    chars
}

/// The text that an escaped text stands for.
pub fn js_unescape(s: &str) -> (text: String)
    ensures
        text@ == utf16_lossy(unescape_units(s@)),
{
    let chars = chars_of(s);
    let units = unescape_chars(&chars);
    string_from_utf16_lossy(&units)
}

/// The comment that stands in the digits from `pos` on, and the position
/// after it; it is an error when the digits end before the comment does.
pub fn read_comment(d: &Vec<u8>, pos: usize, more: bool) -> (r: Result<(String, usize), DecodeError>)
    requires
        valid_digits(d@),
        pos <= d.len(),
    ensures
        match parse_comment(d@, pos as int, more) {
            Ok((text, end)) => r is Ok && r->Ok_0.0@ == text && r->Ok_0.1 == end,
            Err(e) => r == Err::<(String, usize), DecodeError>(e),
        },
{
    if d.len() - pos < 2 {
        return Err(end_error_of(more));
    }
    let len: usize = read_number(d, pos, 2) as usize;
    let groups: usize = (len + 3) / 4;
    if (d.len() - pos - 2) / 5 < groups {
        return Err(end_error_of(more));
    }
    let chars = read_packed(d, pos + 2, len);
    let units = unescape_chars(&chars);
    Ok((string_from_utf16_lossy(&units), pos + 2 + 5 * groups))
}

/// The error of reading past the last digit.
pub fn end_error_of(more: bool) -> (e: DecodeError)
    ensures
        e == end_error(more),
{
    if more {
        DecodeError::Alphabet
    } else {
        DecodeError::Truncated
    }
}

} // verus!
