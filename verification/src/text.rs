//! Slicing and comparing string slices by their characters.
//!
//! A `&str` is stored as UTF-8, and std cuts it at byte offsets. The contracts of
//! this crate speak of characters, so this module relates the two.

use vstd::prelude::*;
use vstd::std_specs::iter::IteratorSpec;
use vstd::string::*;
use vstd::utf8::*;

use crate::chars::is_ascii_digit;

verus! {

/// The number of bytes that the UTF-8 encoding of `s` takes.
pub open spec fn utf8_len(s: Seq<char>) -> nat {
    encode_utf8(s).len()
}

/// Encoding distributes over concatenation.
pub proof fn lemma_encode_concat(a: Seq<char>, b: Seq<char>)
    ensures
        encode_utf8(a + b) == encode_utf8(a) + encode_utf8(b),
    decreases a.len(),
{
    if a.len() == 0 {
        assert(a + b =~= b);
        assert(encode_utf8(a) + encode_utf8(b) =~= encode_utf8(b));
    } else {
        assert((a + b).drop_first() =~= a.drop_first() + b);
        lemma_encode_concat(a.drop_first(), b);
        assert(encode_utf8(a + b) =~= encode_utf8(a) + encode_utf8(b));
    }
}

/// Every character takes between one and four bytes.
pub proof fn lemma_scalar_width(c: char)
    ensures
        1 <= encode_scalar(c as u32).len() <= 4,
        utf8_len(seq![c]) == encode_scalar(c as u32).len(),
{
    assert(seq![c].drop_first() =~= Seq::<char>::empty());
    reveal_with_fuel(encode_utf8, 2);
    assert(encode_utf8(seq![c]) =~= encode_scalar(c as u32));
}

/// An ASCII character takes one byte.
pub proof fn lemma_ascii_width(c: char)
    requires
        (c as u32) < 0x80,
    ensures
        utf8_len(seq![c]) == 1,
{
    lemma_scalar_width(c);
}

/// The encoding of a sequence is as long as those of its two parts together.
pub proof fn lemma_utf8_len_split(s: Seq<char>, k: int)
    requires
        0 <= k <= s.len(),
    ensures
        utf8_len(s) == utf8_len(s.take(k)) + utf8_len(s.skip(k)),
        encode_utf8(s) == encode_utf8(s.take(k)) + encode_utf8(s.skip(k)),
{
    assert(s =~= s.take(k) + s.skip(k));
    lemma_encode_concat(s.take(k), s.skip(k));
}

/// A non-empty sequence takes at least as many bytes as it has characters.
pub proof fn lemma_utf8_len_bounds(s: Seq<char>)
    ensures
        s.len() <= utf8_len(s),
    decreases s.len(),
{
    if s.len() > 0 {
        lemma_scalar_width(s[0]);
        lemma_utf8_len_bounds(s.drop_first());
    }
}

/// The encoding of the first `k` characters ends at a character boundary.
pub proof fn lemma_prefix_boundary(s: Seq<char>, k: int)
    requires
        0 <= k <= s.len(),
    ensures
        is_char_boundary(encode_utf8(s), utf8_len(s.take(k)) as int),
    decreases k,
{
    let bytes = encode_utf8(s);
    encode_utf8_valid_utf8(s);
    if k > 0 {
        let tail = s.drop_first();
        encode_utf8_first_scalar(s);
        assert(pop_first_scalar(bytes) =~= encode_utf8(tail));
        lemma_prefix_boundary(tail, k - 1);
        assert(s.take(k).drop_first() =~= tail.take(k - 1));
        lemma_scalar_width(s[0]);
        lemma_utf8_len_split(s, k);
        assert(utf8_len(s.take(k)) == encode_scalar(s[0] as u32).len() + utf8_len(
            tail.take(k - 1),
        ));
    } else {
        assert(s.take(0) =~= Seq::<char>::empty());
    }
}

/// Two sequences with the same encoding are the same.
pub proof fn lemma_encode_injective(a: Seq<char>, b: Seq<char>)
    requires
        encode_utf8(a) == encode_utf8(b),
    ensures
        a == b,
{
    encode_utf8_decode_utf8(a);
    encode_utf8_decode_utf8(b);
}

/// The number of bytes that `c` takes in UTF-8.
pub fn width(c: char) -> (n: usize)
    ensures
        n == utf8_len(seq![c]),
        1 <= n <= 4,
{
    proof {
        lemma_scalar_width(c);
    }
    let u: u32 = c as u32;
    if u < 0x80 {
        1
    } else if u < 0x800 {
        2
    } else if u < 0x10000 {
        3
    } else {
        4
    }
}

/// The first character of `s`, if it has one.
pub fn first_char(s: &str) -> (r: Option<char>)
    ensures
        r is None <==> s@.len() == 0,
        r matches Some(c) ==> c == s@[0],
{
    broadcast use vstd::string::group_string_axioms;

    let mut it = s.chars();
    it.next()
}

/// Cuts `s` after `n` bytes, which must be where its first `k` characters end.
pub fn split_chars<'a>(s: &'a str, n: usize, Ghost(k): Ghost<int>) -> (r: (&'a str, &'a str))
    requires
        0 <= k <= s@.len(),
        n == utf8_len(s@.take(k)),
    ensures
        r.0@ == s@.take(k),
        r.1@ == s@.skip(k),
{
    proof {
        lemma_prefix_boundary(s@, k);
        lemma_utf8_len_split(s@, k);
    }
    let r = s.split_at(n);
    proof {
        let bytes = encode_utf8(s@);
        assert(bytes.subrange(0, n as int) =~= encode_utf8(s@.take(k)));
        assert(bytes.subrange(n as int, bytes.len() as int) =~= encode_utf8(s@.skip(k)));
        lemma_encode_injective(r.0@, s@.take(k));
        lemma_encode_injective(r.1@, s@.skip(k));
    }
    r
}

/// Whether two string slices hold the same characters.
pub fn str_eq(a: &str, b: &str) -> (r: bool)
    ensures
        r == (a@ == b@),
{
    let x = a.as_bytes();
    let y = b.as_bytes();
    if x.len() != y.len() {
        return false;
    }
    let mut i: usize = 0;
    while i < x.len()
        invariant
            i <= x.len(),
            x.len() == y.len(),
            x@ == encode_utf8(a@),
            y@ == encode_utf8(b@),
            x@.take(i as int) =~= y@.take(i as int),
        decreases x.len() - i,
    {
        if x[i] != y[i] {
            proof {
                if a@ == b@ {
                    assert(x@[i as int] == y@[i as int]);
                }
            }
            return false;
        }
        i += 1;
        assert(x@.take(i as int) =~= x@.take(i - 1).push(x@[i - 1]));
        assert(y@.take(i as int) =~= y@.take(i - 1).push(y@[i - 1]));
    }
    proof {
        assert(x@ =~= x@.take(i as int));
        assert(y@ =~= y@.take(i as int));
        lemma_encode_injective(a@, b@);
    }
    true
}

/// The number that a sequence of ASCII digits spells in base ten.
pub open spec fn digits_value(s: Seq<char>) -> nat
    decreases s.len(),
{
    if s.len() == 0 {
        0
    } else {
        digits_value(s.drop_last()) * 10 + (s.last() as nat - '0' as nat) as nat
    }
}

/// Whether every character of `s` is an ASCII digit.
pub open spec fn all_digits(s: Seq<char>) -> bool {
    forall|i: int| 0 <= i < s.len() ==> is_ascii_digit(#[trigger] s[i])
}

/// The number below 256 that `s` spells: digits, with at most a `+` before them.
pub open spec fn u8_value(s: Seq<char>) -> Option<u8> {
    let d = if s.len() > 0 && s[0] == '+' {
        s.skip(1)
    } else {
        s
    };
    if d.len() > 0 && all_digits(d) && digits_value(d) <= 255 {
        Some(digits_value(d) as u8)
    } else {
        None
    }
}

/// A longer sequence of digits spells no smaller a number than a prefix of it.
pub proof fn lemma_digits_monotone(s: Seq<char>, k: int)
    requires
        0 <= k <= s.len(),
    ensures
        digits_value(s.take(k)) <= digits_value(s),
    decreases s.len() - k,
{
    if k < s.len() {
        lemma_digits_monotone(s, k + 1);
        assert(s.take(k + 1).drop_last() =~= s.take(k));
    } else {
        assert(s.take(k) =~= s);
    }
}

/// Reads `s` as a number below 256, as `str::parse::<u8>` does.
pub fn parse_u8(s: &str) -> (r: Option<u8>)
    ensures
        r == u8_value(s@),
{
    broadcast use vstd::string::group_string_axioms;

    let digits = match first_char(s) {
        Some('+') => {
            proof {
                assert(s@.take(1) =~= seq!['+']);
                lemma_ascii_width('+');
            }
            split_chars(s, 1, Ghost(1)).1
        },
        _ => s,
    };
    let ghost d = digits@;
    let mut it = digits.chars();
    let mut value: u32 = 0;
    let mut seen = false;
    let ghost mut k: int = 0;
    assert(d.take(0) =~= Seq::<char>::empty());
    assert(d.skip(0) =~= d);
    loop
        invariant_except_break
            it.remaining() == d.skip(k),
            0 <= k <= d.len(),
            all_digits(d.take(k)),
            value == digits_value(d.take(k)),
        invariant
            value <= 255,
            seen <==> k > 0,
            d == if s@.len() > 0 && s@[0] == '+' {
                s@.skip(1)
            } else {
                s@
            },
        ensures
            k == d.len(),
            all_digits(d),
            value == digits_value(d),
        decreases d.len() - k,
    {
        let ghost before = it.remaining();
        match it.next() {
            Some(c) => {
                assert(before.len() > 0);
                assert(c == d[k]);
                if !('0' <= c && c <= '9') {
                    assert(!all_digits(d));
                    return None;
                }
                let digit: u32 = c as u32 - '0' as u32;
                proof {
                    assert(d.take(k + 1).drop_last() =~= d.take(k));
                    assert(d.skip(k).drop_first() =~= d.skip(k + 1));
                    assert forall|i: int| 0 <= i < k + 1 implies is_ascii_digit(
                        #[trigger] d.take(k + 1)[i],
                    ) by {
                        if i < k {
                            assert(d.take(k)[i] == d.take(k + 1)[i]);
                        }
                    }
                }
                value = value * 10 + digit;
                seen = true;
                proof {
                    k = k + 1;
                }
                if value > 255 {
                    proof {
                        lemma_digits_monotone(d, k);
                    }
                    return None;
                }
            },
            None => {
                assert(before.len() == 0);
                assert(d.take(k) =~= d);
                break ;
            },
        }
    }
    if seen {
        Some(value as u8)
    } else {
        None
    }
}

} // verus!
