//! The 64-symbol alphabet of the text stream and little-endian numbers over it.

use vstd::prelude::*;

verus! {

/// The symbols of the stream, indexed by the 6-bit value each one stands for.
pub open spec fn alphabet() -> Seq<char> {
    "ABCDEFGHIJKLMNOPQRSTUVWXYZabcdefghijklmnopqrstuvwxyz0123456789+/"@
}

/// The 6-bit value that `c` stands for, when `c` is a symbol of the alphabet.
pub open spec fn digit_value(c: char) -> Option<int> {
    if 'A' <= c <= 'Z' {
        Some(c as int - 'A' as int)
    } else if 'a' <= c <= 'z' {
        Some(c as int - 'a' as int + 26)
    } else if '0' <= c <= '9' {
        Some(c as int - '0' as int + 52)
    } else if c == '+' {
        Some(62)
    } else if c == '/' {
        Some(63)
    } else {
        None
    }
}

/// The alphabet has 64 symbols, and the value of each is its index.
pub proof fn lemma_alphabet_index(v: int)
    requires
        0 <= v < 64,
    ensures
        alphabet().len() == 64,
        digit_value(alphabet()[v]) == Some(v),
{
    reveal_strlit("ABCDEFGHIJKLMNOPQRSTUVWXYZabcdefghijklmnopqrstuvwxyz0123456789+/");
}

/// A character has a value exactly when it occurs in the alphabet, and the
/// value is its index there.
pub proof fn lemma_digit_value(c: char)
    ensures
        digit_value(c) is Some <==> alphabet().contains(c),
        digit_value(c) is Some ==> 0 <= digit_value(c).unwrap() < 64 && alphabet()[digit_value(
            c,
        ).unwrap()] == c,
{
    reveal_strlit("ABCDEFGHIJKLMNOPQRSTUVWXYZabcdefghijklmnopqrstuvwxyz0123456789+/");
    if alphabet().contains(c) {
        let i = choose|i: int| 0 <= i < 64 && alphabet()[i] == c;
        lemma_alphabet_index(i);
    }
    if digit_value(c) is Some {
        let v = digit_value(c).unwrap();
        assert(alphabet()[v] == c);
    }
}

/// The symbol for a 6-bit value, as an ASCII byte.
pub fn to_base64(v: u8) -> (b: u8)
    requires
        v < 64,
    ensures
        b < 128,
        b as char == alphabet()[v as int],
{
    proof {
        lemma_alphabet_index(v as int);
    }
    if v < 26 {
        65 + v
    } else if v < 52 {
        97 + (v - 26)
    } else if v < 62 {
        48 + (v - 52)
    } else if v == 62 {
        43
    } else {
        47
    }
}

/// The 6-bit value of a symbol; `None` for any character outside the alphabet.
pub fn from_base64(c: char) -> (v: Option<usize>)
    ensures
        v == match digit_value(c) {
            Some(d) => Some(d as usize),
            None => None,
        },
        v is Some ==> v.unwrap() < 64 && alphabet()[v.unwrap() as int] == c,
        v is None ==> !alphabet().contains(c),
{
    proof {
        lemma_digit_value(c);
    }
    let n: u32 = c as u32;
    if 'A' <= c && c <= 'Z' {
        Some((n - 65) as usize)
    } else if 'a' <= c && c <= 'z' {
        Some((n - 97 + 26) as usize)
    } else if '0' <= c && c <= '9' {
        Some((n - 48 + 52) as usize)
    } else if c == '+' {
        Some(62)
    } else if c == '/' {
        Some(63)
    } else {
        None
    }
}

/// 64 to the power `k`, for `k` from 0 to 5.
pub open spec fn pow64(k: int) -> int {
    if k <= 0 {
        1
    } else if k == 1 {
        64
    } else if k == 2 {
        4096
    } else if k == 3 {
        262144
    } else if k == 4 {
        16777216
    } else {
        1073741824
    }
}

/// The `n` lowest base-64 digits of `v`, least significant first, for `n` up
/// to 6.
pub open spec fn digits(v: int, n: nat) -> Seq<u8> {
    Seq::new(n, |j: int| (v / pow64(j) % 64) as u8)
}

/// The number that the `n` digits from `pos` on stand for, least significant
/// first.
pub open spec fn number(d: Seq<u8>, pos: int, n: nat) -> int
    decreases n,
{
    if n == 0 {
        0
    } else {
        d[pos] as int + 64 * number(d, pos + 1, (n - 1) as nat)
    }
}

/// Whether every element is a 6-bit value.
pub open spec fn valid_digits(d: Seq<u8>) -> bool {
    forall|i: int| 0 <= i < d.len() ==> #[trigger] d[i] < 64
}

/// Whether `part` stands in `d` from `pos` on.
pub open spec fn holds_at(d: Seq<u8>, pos: int, part: Seq<u8>) -> bool {
    0 <= pos && pos + part.len() <= d.len() && d.subrange(pos, pos + part.len()) == part
}

/// The digits of a number are 6-bit values.
pub proof fn lemma_digits_valid(v: int, n: nat)
    ensures
        valid_digits(digits(v, n)),
        digits(v, n).len() == n,
{
}

/// Reading back the digits of a number gives the number.
pub proof fn lemma_number_of_digits(d: Seq<u8>, pos: int, v: int, n: nat)
    requires
        n <= 5,
        0 <= v < pow64(n as int),
        holds_at(d, pos, digits(v, n)),
    ensures
        number(d, pos, n) == v,
    decreases n,
{
    if n > 0 {
        let part = digits(v, n);
        let rest = digits(v / 64, (n - 1) as nat);
        assert(d[pos] == d.subrange(pos, pos + n)[0]);
        assert(d[pos] == (v % 64) as u8);
        assert forall|j: int| 0 <= j < n - 1 implies d.subrange(pos + 1, pos + n)[j] == rest[j] by {
            assert(d.subrange(pos + 1, pos + n)[j] == d.subrange(pos, pos + n)[j + 1]);
            assert(v / 64 / pow64(j) == v / pow64(j + 1)) by {
                vstd::arithmetic::div_mod::lemma_div_denominator(v, 64, pow64(j));
            }
        }
        assert(d.subrange(pos + 1, pos + n) =~= rest);
        lemma_number_of_digits(d, pos + 1, v / 64, (n - 1) as nat);
    }
}

/// Appends the `n` lowest base-64 digits of `v`, least significant first.
pub fn push_number(data: &mut Vec<u8>, v: u32, n: usize)
    requires
        n <= 5,
    ensures
        final(data)@ == old(data)@ + digits(v as int, n as nat),
        valid_digits(old(data)@) ==> valid_digits(final(data)@),
{
    proof {
        lemma_digits_valid(v as int, n as nat);
    }
    let mut rest: u32 = v;
    let mut j: usize = 0;
    while j < n
        invariant
            0 <= j <= n <= 5,
            rest == v as int / pow64(j as int),
            data@ == old(data)@ + digits(v as int, j as nat),
        decreases n - j,
    {
        data.push((rest % 64) as u8);
        proof {
            vstd::arithmetic::div_mod::lemma_div_denominator(v as int, pow64(j as int), 64);
            assert(data@ =~= old(data)@ + digits(v as int, (j + 1) as nat));
        }
        rest = rest / 64;
        j += 1;
    }
}

/// The number that the `n` digits from `pos` on stand for.
pub fn read_number(d: &Vec<u8>, pos: usize, n: usize) -> (v: u32)
    requires
        pos + n <= d.len(),
        n <= 5,
        valid_digits(d@),
    ensures
        v == number(d@, pos as int, n as nat),
        v < pow64(n as int),
{
    let mut v: u32 = 0;
    let mut k: usize = n;
    while k > 0
        invariant
            0 <= k <= n <= 5,
            pos + n <= d.len(),
            valid_digits(d@),
            v == number(d@, pos + k, (n - k) as nat),
            v < pow64(n - k),
        decreases k,
    {
        k -= 1;
        v = v * 64 + d[pos + k] as u32;
    }
    v
}

} // verus!
