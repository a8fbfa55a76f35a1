//! Base62 encoding of `u64` values over the alphabet `0-9`, `A-Z`, `a-z`.

use vstd::prelude::*;

verus! {

/// The number of symbols in the alphabet.
pub const RADIX: u64 = 62;

/// Whether `c` is one of the 62 symbols of the alphabet.
pub open spec fn is_digit_char(c: char) -> bool {
    ('0' <= c && c <= '9') || ('A' <= c && c <= 'Z') || ('a' <= c && c <= 'z')
}

/// The value of an alphabet symbol: `0-9` are 0..9, `A-Z` are 10..35, `a-z` are 36..61.
pub open spec fn digit_value(c: char) -> nat {
    if c <= '9' {
        (c as u32 - 48) as nat
    } else if c <= 'Z' {
        (c as u32 - 55) as nat
    } else {
        (c as u32 - 61) as nat
    }
}

/// The symbol that stands for the digit `d`, for `d < 62`.
pub open spec fn digit_char(d: nat) -> char {
    if d < 10 {
        (d + 48) as u8 as char
    } else if d < 36 {
        (d + 55) as u8 as char
    } else {
        (d + 61) as u8 as char
    }
}

/// The Base62 digits of `n`, most significant first, without leading zeros.
pub open spec fn base62_of(n: nat) -> Seq<char>
    decreases n,
{
    if n < 62 {
        seq![digit_char(n)]
    } else {
        base62_of(n / 62).push(digit_char(n % 62))
    }
}

/// Whether every character of `s` is an alphabet symbol.
pub open spec fn all_digits(s: Seq<char>) -> bool {
    forall|i: int| 0 <= i < s.len() ==> is_digit_char(#[trigger] s[i])
}

/// The number that the digit string `s` denotes, most significant digit first.
pub open spec fn value_of(s: Seq<char>) -> nat
    decreases s.len(),
{
    if s.len() == 0 {
        0
    } else {
        value_of(s.drop_last()) * 62 + digit_value(s.last())
    }
}

/// The outcome of decoding the text `s`.
pub open spec fn decoded(s: Seq<char>) -> Result<u64, Base62Error> {
    if s.len() == 0 {
        Err(Base62Error::EmptyString)
    } else if !all_digits(s) {
        Err(Base62Error::InvalidChar)
    } else if value_of(s) > u64::MAX {
        Err(Base62Error::Overflow)
    } else {
        Ok(value_of(s) as u64)
    }
}

/// Extending a digit string by one digit multiplies its value by 62 and adds the digit.
proof fn lemma_value_take_step(s: Seq<char>, i: int)
    requires
        0 <= i < s.len(),
    ensures
        value_of(s.take(i + 1)) == value_of(s.take(i)) * 62 + digit_value(s[i]),
{
    assert(s.take(i + 1).drop_last() == s.take(i));
}

/// A prefix of a digit string denotes at most what the whole string denotes.
proof fn lemma_value_prefix_le(s: Seq<char>, i: int)
    requires
        0 <= i <= s.len(),
    ensures
        value_of(s.take(i)) <= value_of(s),
    decreases s.len() - i,
{
    if i < s.len() {
        lemma_value_take_step(s, i);
        lemma_value_prefix_le(s, i + 1);
    } else {
        assert(s.take(i) == s);
    }
}

/// The encoding of `n` is made of alphabet symbols and denotes `n`.
pub proof fn lemma_value_of_base62(n: nat)
    ensures
        all_digits(base62_of(n)),
        value_of(base62_of(n)) == n,
        base62_of(n).len() >= 1,
    decreases n,
{
    let s = base62_of(n);
    if n >= 62 {
        lemma_value_of_base62(n / 62);
        assert(s.drop_last() == base62_of(n / 62));
        assert(value_of(s) == (n / 62) * 62 + n % 62);
    } else {
        assert(s.drop_last() == Seq::<char>::empty());
        assert(value_of(s.drop_last()) == 0);
    }
}

/// An encoding longer than one symbol does not start with the zero symbol, and a `u64`
/// takes at most eleven symbols.
pub proof fn lemma_base62_canonical(n: nat)
    ensures
        base62_of(n).len() > 1 ==> base62_of(n)[0] != '0',
        n <= u64::MAX ==> base62_of(n).len() <= 11,
    decreases n,
{
    if n >= 62 {
        lemma_base62_canonical(n / 62);
        lemma_value_of_base62(n / 62);
        assert(base62_of(n)[0] == base62_of(n / 62)[0]);
        if n / 62 < 62 {
            assert(digit_value(digit_char(n / 62)) == n / 62);
            assert(digit_value('0') == 0);
        } else {
            lemma_value_of_base62(n / 62 / 62);
        }
    }
    if n <= u64::MAX {
        assert(pow62(11) == 52036560683837093888) by {
            reveal_with_fuel(pow62, 12);
        }
        lemma_base62_len(n, 11);
    }
}

/// Decoding the encoding of any `u64` gives that value back.
pub proof fn lemma_round_trip(v: u64)
    ensures
        decoded(base62_of(v as nat)) == Ok::<u64, Base62Error>(v),
{
    lemma_value_of_base62(v as nat);
}

/// The alphabet is a bijection between the digits `0..62` and the 62 symbols: each digit
/// has a symbol that decodes back to it and is its whole encoding, and each symbol is the
/// symbol of its value.
pub proof fn lemma_alphabet_bijection(d: nat, c: char)
    ensures
        d < 62 ==> is_digit_char(digit_char(d)) && digit_value(digit_char(d)) == d,
        d < 62 ==> base62_of(d) == seq![digit_char(d)],
        d < 62 ==> decoded(seq![digit_char(d)]) == Ok::<u64, Base62Error>(d as u64),
        is_digit_char(c) ==> digit_value(c) < 62 && digit_char(digit_value(c)) == c,
{
    if d < 62 {
        let s = seq![digit_char(d)];
        assert(s.drop_last() == Seq::<char>::empty());
        assert(value_of(s.drop_last()) == 0);
        assert(value_of(s) == d);
        assert(all_digits(s));
    }
}

/// `62` to the power `k`.
pub open spec fn pow62(k: nat) -> nat
    decreases k,
{
    if k == 0 {
        1
    } else {
        62 * pow62((k - 1) as nat)
    }
}

/// `k` zero symbols.
pub open spec fn zeros(k: nat) -> Seq<char> {
    Seq::new(k, |i: int| '0')
}

/// A digit string of `k` symbols denotes less than `62^k`.
pub proof fn lemma_value_bound(s: Seq<char>)
    requires
        all_digits(s),
    ensures
        value_of(s) < pow62(s.len()),
    decreases s.len(),
{
    if s.len() > 0 {
        let t = s.drop_last();
        assert(all_digits(t)) by {
            assert forall|i: int| 0 <= i < t.len() implies is_digit_char(#[trigger] t[i]) by {
                assert(t[i] == s[i]);
            }
        }
        lemma_value_bound(t);
        let v = value_of(t);
        let p = pow62(t.len());
        let d = digit_value(s.last());
        assert(is_digit_char(s[s.len() - 1]));
        assert(v * 62 + d < 62 * p) by (nonlinear_arith)
            requires
                v < p,
                d < 62,
        {}
    }
}

/// A number below `62^k` has at most `k` digits.
pub proof fn lemma_base62_len(n: nat, k: nat)
    requires
        k >= 1,
        n < pow62(k),
    ensures
        base62_of(n).len() <= k,
    decreases k,
{
    if n >= 62 {
        let p = pow62((k - 1) as nat);
        assert(k >= 2) by {
            if k == 1 {
                assert(pow62(0) == 1);
            }
        }
        assert(n / 62 < p) by (nonlinear_arith)
            requires
                n < 62 * p,
        {}
        lemma_base62_len(n / 62, (k - 1) as nat);
    }
}

/// The value of a concatenation: the digits of `b` come below those of `a`.
pub proof fn lemma_value_concat(a: Seq<char>, b: Seq<char>)
    ensures
        value_of(a + b) == value_of(a) * pow62(b.len()) + value_of(b),
    decreases b.len(),
{
    if b.len() == 0 {
        assert(a + b == a);
        assert(value_of(b) == 0 && pow62(0) == 1);
    } else {
        let b1 = b.drop_last();
        assert((a + b).drop_last() == a + b1);
        assert((a + b).last() == b.last());
        lemma_value_concat(a, b1);
        let va = value_of(a);
        let p = pow62(b1.len());
        let vb = value_of(b1);
        let d = digit_value(b.last());
        assert(pow62(b.len()) == 62 * p);
        assert(value_of(b) == vb * 62 + d);
        assert((va * p + vb) * 62 + d == va * (62 * p) + (vb * 62 + d)) by (nonlinear_arith);
    }
}

/// Zero symbols denote zero.
pub proof fn lemma_value_zeros(k: nat)
    ensures
        value_of(zeros(k)) == 0,
        all_digits(zeros(k)),
    decreases k,
{
    if k > 0 {
        lemma_value_zeros((k - 1) as nat);
        assert(zeros(k).drop_last() == zeros((k - 1) as nat));
    }
}

/// Leading zero symbols do not change what a digit string denotes.
pub proof fn lemma_value_leading_zeros(k: nat, s: Seq<char>)
    ensures
        value_of(zeros(k) + s) == value_of(s),
{
    lemma_value_concat(zeros(k), s);
    lemma_value_zeros(k);
}

/// Relies on `String::push`, which appends one character.
#[verifier::external_body]
pub(crate) fn push_char(s: &mut String, c: char)
    ensures
        final(s)@ == old(s)@.push(c),
{
    s.push(c)
}

/// The symbol of the digit `d`.
fn digit_symbol(d: u8) -> (c: char)
    requires
        d < 62,
    ensures
        c == digit_char(d as nat),
        is_digit_char(c),
        digit_value(c) == d,
{
    if d < 10 {
        (d + 48) as char
    } else if d < 36 {
        (d + 55) as char
    } else {
        (d + 61) as char
    }
}

/// Errors of [`Base62::decode`].
#[derive(Debug, PartialEq, Eq, Structural)]
pub enum Base62Error {
    /// The input holds no character.
    EmptyString,
    /// The input holds a character outside the alphabet.
    InvalidChar,
    /// The input denotes a number larger than `u64::MAX`.
    Overflow,
}

/// The Base62 codec.
#[derive(Debug)]
pub struct Base62 {}

impl Base62 {
    /// The Base62 representation of `number`, most significant digit first; zero is `"0"`.
    pub fn encode(number: u64) -> (r: String)
        ensures
            r@ == base62_of(number as nat),
            r@.len() <= 11,
            r@.len() > 1 ==> r@[0] != '0',
    {
        proof {
            lemma_base62_canonical(number as nat);
        }
        let mut n: u64 = number;
        let mut digits: Vec<char> = Vec::new();
        loop
            invariant_except_break
                base62_of(number as nat) == base62_of(n as nat) + digits@,
            ensures
                base62_of(number as nat) == digits@,
            decreases n,
        {
            let ghost before = digits@;
            let d: u64 = n % RADIX;
            digits.insert(0, digit_symbol(d as u8));
            assert(digits@ == seq![digit_char(d as nat)] + before);
            if n < RADIX {
                break;
            }
            n = n / RADIX;
            assert(base62_of(number as nat) == base62_of(n as nat) + digits@);
        }
        let mut r = String::new();
        let mut i: usize = 0;
        while i < digits.len()
            invariant
                i <= digits@.len(),
                r@ == digits@.take(i as int),
            decreases digits@.len() - i,
        {
            push_char(&mut r, digits[i]);
            i = i + 1;
        }
        assert(digits@.take(digits@.len() as int) == digits@);
        r
    }

    /// The number that the Base62 text `b62` denotes, most significant digit first.
    /// Fails with `EmptyString` on an empty text, with `InvalidChar` when a character is
    /// outside the alphabet, and with `Overflow` when the number exceeds `u64::MAX`.
    pub fn decode(b62: &str) -> (r: Result<u64, Base62Error>)
        ensures
            r == decoded(b62@),
    {
        if b62.is_empty() {
            return Err(Base62Error::EmptyString);
        }
        let len = b62.unicode_len();
        let mut digits: Vec<u8> = Vec::new();
        let mut i: usize = 0;
        while i < len
            invariant
                len == b62@.len(),
                i <= len,
                digits@.len() == i,
                forall|j: int|
                    0 <= j < i ==> is_digit_char(b62@[j]) && digits@[j] as nat == digit_value(
                        #[trigger] b62@[j],
                    ),
            decreases len - i,
        {
            let c = b62.get_char(i);
            let code = c as u32;
            if code >= 128 {
                assert(!all_digits(b62@) && !is_digit_char(b62@[i as int]));
                return Err(Base62Error::InvalidChar);
            }
            match Self::decode_digit(code as u8) {
                Ok(d) => digits.push(d),
                Err(e) => {
                    assert(!is_digit_char(b62@[i as int]));
                    return Err(e);
                },
            }
            i = i + 1;
        }
        assert(all_digits(b62@));
        let mut result: u64 = 0;
        let mut k: usize = 0;
        while k < len
            invariant
                len == b62@.len(),
                k <= len,
                digits@.len() == len,
                all_digits(b62@),
                forall|j: int|
                    0 <= j < len ==> digits@[j] as nat == digit_value(#[trigger] b62@[j]),
                result as nat == value_of(b62@.take(k as int)),
            decreases len - k,
        {
            proof {
                lemma_value_take_step(b62@, k as int);
            }
            let shifted = result.checked_mul(RADIX);
            let next = match shifted {
                Some(m) => m.checked_add(digits[k] as u64),
                None => None,
            };
            match next {
                Some(v) => {
                    result = v;
                },
                None => {
                    proof {
                        let d = digit_value(b62@[k as int]);
                        assert(result * 62 + d > u64::MAX) by (nonlinear_arith)
                            requires
                                shifted is None ==> result * 62 > u64::MAX,
                                shifted is Some ==> shifted->0 == result * 62 && shifted->0 + d > u64::MAX,
                        {}
                        lemma_value_prefix_le(b62@, k + 1);
                    }
                    return Err(Base62Error::Overflow);
                },
            }
            k = k + 1;
        }
        assert(b62@.take(len as int) == b62@);
        Ok(result)
    }

    /// The value of the ASCII byte `digit` as a Base62 symbol, or `InvalidChar` when the
    /// byte is not one of the 62 symbols.
    pub fn decode_digit(digit: u8) -> (r: Result<u8, Base62Error>)
        ensures
            is_digit_char(digit as char) ==> r == Ok::<u8, Base62Error>(
                digit_value(digit as char) as u8,
            ),
            !is_digit_char(digit as char) ==> r == Err::<u8, Base62Error>(
                Base62Error::InvalidChar,
            ),
    {
        if '0' as u8 <= digit && digit <= '9' as u8 {
            Ok(digit - '0' as u8)
        } else if 'A' as u8 <= digit && digit <= 'Z' as u8 {
            Ok(digit - 'A' as u8 + 10)
        } else if 'a' as u8 <= digit && digit <= 'z' as u8 {
            Ok(digit - 'a' as u8 + 36)
        } else {
            Err(Base62Error::InvalidChar)
        }
    }
}

} // verus!
