//! A ULID that needs no random source: a 48-bit millisecond timestamp and
//! 80 bits derived from a per-millisecond counter.

use vstd::prelude::*;
use vstd::string::*;
use vstd::arithmetic::power::pow;
use crate::ids::{be_bytes, be_value, crockford_digit, u128_be_bytes};
use crate::text::push_char;

verus! {

/// The value of a ULID in the standard 128-bit layout: the timestamp's low
/// 48 bits, then the 16 high and the 64 low bits of randomness.
pub open spec fn layout_value(timestamp: u64, high: u16, low: u64) -> int {
    (timestamp % 0x1_0000_0000_0000) * 0x1_0000_0000_0000_0000_0000 + high * 0x1_0000_0000_0000_0000 + low
}

/// A ULID: 48-bit timestamp (most significant) and 80 bits of randomness.
#[derive(Debug, Clone, Copy, PartialEq, Eq, Structural, Hash, PartialOrd, Ord)]
pub struct Ulid {
    timestamp: u64,
    randomness_high: u16,
    randomness_low: u64,
}

impl Ulid {
    /// The timestamp field.
    pub closed spec fn ts(&self) -> u64 {
        self.timestamp
    }

    /// The high 16 bits of randomness.
    pub closed spec fn high(&self) -> u16 {
        self.randomness_high
    }

    /// The low 64 bits of randomness.
    pub closed spec fn low(&self) -> u64 {
        self.randomness_low
    }

    /// The 128-bit value of the ULID.
    pub open spec fn value(&self) -> int {
        layout_value(self.ts(), self.high(), self.low())
    }

    /// The ULID whose 128-bit value is `v`.
    pub closed spec fn of_value(v: u128) -> Ulid {
        Ulid {
            timestamp: (v / 0x1_0000_0000_0000_0000_0000) as u64,
            randomness_high: ((v / 0x1_0000_0000_0000_0000) % 0x1_0000) as u16,
            randomness_low: (v % 0x1_0000_0000_0000_0000) as u64,
        }
    }

    /// The ULID with these fields.
    pub closed spec fn with_fields(timestamp: u64, high: u16, low: u64) -> Ulid {
        Ulid { timestamp, randomness_high: high, randomness_low: low }
    }

    /// Convert to the standard ULID `u128` binary format.
    pub fn to_u128(&self) -> (r: u128)
        ensures
            r == self.value(),
    {
        let t = (self.timestamp % 0x1_0000_0000_0000) as u128;
        let h = self.randomness_high as u128;
        let l = self.randomness_low as u128;
        proof {
            assert(t * 0x1_0000_0000_0000_0000_0000 <= 0xFFFF_FFFF_FFFF * 0x1_0000_0000_0000_0000_0000) by (nonlinear_arith)
                requires
                    t <= 0xFFFF_FFFF_FFFF,
            ;
            assert(h * 0x1_0000_0000_0000_0000 <= 0xFFFF * 0x1_0000_0000_0000_0000) by (nonlinear_arith)
                requires
                    h <= 0xFFFF,
            ;
        }
        t * 0x1_0000_0000_0000_0000_0000 + h * 0x1_0000_0000_0000_0000 + l
    }

    /// Create from the standard ULID `u128` binary format.
    pub fn from_u128(value: u128) -> (r: Ulid)
        ensures
            r == Ulid::of_value(value),
    {
        let t = (value / 0x1_0000_0000_0000_0000_0000) as u64;
        let h = ((value / 0x1_0000_0000_0000_0000) % 0x1_0000) as u16;
        let l = (value % 0x1_0000_0000_0000_0000) as u64;
        Ulid { timestamp: t, randomness_high: h, randomness_low: l }
    }

    /// Create from a `u128` value (same as `from_u128`).
    pub fn from(value: u128) -> (r: Ulid)
        ensures
            r == Ulid::of_value(value),
    {
        Ulid::from_u128(value)
    }

    /// The `u128` value (same as `to_u128`).
    pub fn as_u128(&self) -> (r: u128)
        ensures
            r == self.value(),
    {
        self.to_u128()
    }

    /// The big-endian bytes of the `u128` value.
    pub fn as_bytes(&self) -> (r: [u8; 16])
        ensures
            r@.len() == 16,
            r@ == be_bytes(self.value() as u128),
            be_value(r@) == self.value(),
    {
        u128_be_bytes(self.to_u128())
    }
}

// ------------------------------------------------------------ text

/// The `len` base32 digits of `v`, most significant first (digit `i` has
/// weight `32^(len - 1 - i)`; higher digits of `v` are dropped).
pub open spec fn base32_text(v: nat, len: nat) -> Seq<char> {
    Seq::new(len, |i: int| crockford_digit((v as int / pow(32, (len - 1 - i) as nat)) % 32))
}

/// The Crockford character of a digit.
fn crockford_char(d: u64) -> (c: char)
    requires
        d < 32,
    ensures
        c == crockford_digit(d as int),
{
    let alphabet = "0123456789ABCDEFGHJKMNPQRSTVWXYZ";
    proof {
        reveal_strlit("0123456789ABCDEFGHJKMNPQRSTVWXYZ");
        assert(alphabet@ =~= seq![
            '0', '1', '2', '3', '4', '5', '6', '7', '8', '9', 'A', 'B', 'C', 'D', 'E', 'F', 'G',
            'H', 'J', 'K', 'M', 'N', 'P', 'Q', 'R', 'S', 'T', 'V', 'W', 'X', 'Y', 'Z',
        ]);
    }
    alphabet.get_char(d as usize)
}

/// Appends the `len` low base32 digits of `value`, most significant first.
fn encode_base32(value: u64, out: &mut String, len: usize)
    ensures
        final(out)@ == old(out)@ + base32_text(value as nat, len as nat),
{
    // digits[k] is the digit of weight 32^k
    let mut digits: Vec<char> = Vec::new();
    let mut v: u64 = value;
    let mut k: usize = 0;
    proof {
        vstd::arithmetic::power::lemma_pow0(32);
    }
    while k < len
        invariant
            k <= len,
            digits@.len() == k,
            v as int == value as int / pow(32, k as nat),
            forall|j: int| 0 <= j < k ==> #[trigger] digits@[j] == crockford_digit((value as int / pow(32, j as nat)) % 32),
        decreases len - k,
    {
        proof {
            vstd::arithmetic::power::lemma_pow_positive(32, k as nat);
            vstd::arithmetic::div_mod::lemma_div_denominator(value as int, pow(32, k as nat), 32);
            assert(pow(32, (k + 1) as nat) == 32 * pow(32, k as nat)) by {
                reveal(pow);
            }
            assert(pow(32, k as nat) * 32 == 32 * pow(32, k as nat)) by (nonlinear_arith);
        }
        digits.push(crockford_char(v % 32));
        v = v / 32;
        k = k + 1;
    }
    let ghost start = out@;
    let mut i: usize = 0;
    while i < len
        invariant
            i <= len,
            digits@.len() == len,
            forall|j: int| 0 <= j < len ==> #[trigger] digits@[j] == crockford_digit((value as int / pow(32, j as nat)) % 32),
            out@ == start + base32_text(value as nat, len as nat).subrange(0, i as int),
        decreases len - i,
    {
        let c = digits[len - 1 - i];
        push_char(out, c);
        proof {
            assert(base32_text(value as nat, len as nat).subrange(0, i + 1)
                =~= base32_text(value as nat, len as nat).subrange(0, i as int).push(c));
        }
        i = i + 1;
    }
    proof {
        assert(base32_text(value as nat, len as nat).subrange(0, len as int) =~= base32_text(value as nat, len as nat));
    }
}

impl Ulid {
    /// The 26-character text: 10 digits of timestamp, 4 of the high and 12
    /// of the low randomness.
    pub open spec fn text(&self) -> Seq<char> {
        base32_text(self.ts() as nat, 10) + base32_text(self.high() as nat, 4) + base32_text(self.low() as nat, 12)
    }

    /// The 26-character Crockford base32 text.
    pub fn to_string(&self) -> (r: String)
        ensures
            r@ == self.text(),
            r@.len() == 26,
    {
        let mut s = String::new();
        encode_base32(self.timestamp, &mut s, 10);
        encode_base32(self.randomness_high as u64, &mut s, 4);
        encode_base32(self.randomness_low, &mut s, 12);
        proof {
            assert(s@ =~= self.text());
        }
        s
    }
}

// ------------------------------------------------------------ parsing

/// Why a text is not a ULID.
#[derive(Debug, Clone, Copy, PartialEq, Eq, Structural)]
pub enum UlidDecodeError {
    /// The text is not 26 bytes long.
    WrongLength,
    /// A byte is not an upper-case Crockford base32 digit.
    InvalidCharacter,
}

impl UlidDecodeError {
    /// The error message.
    pub fn message(&self) -> (r: &'static str)
        ensures
            r@ == match *self {
                UlidDecodeError::WrongLength => "ULID must be 26 characters"@,
                UlidDecodeError::InvalidCharacter => "Invalid ULID character"@,
            },
    {
        match self {
            UlidDecodeError::WrongLength => "ULID must be 26 characters",
            UlidDecodeError::InvalidCharacter => "Invalid ULID character",
        }
    }
}

/// The value of an upper-case Crockford base32 digit (`I`, `L`, `O`, `U`
/// are not digits).
pub open spec fn digit_value(c: u8) -> Option<nat> {
    if 48 <= c <= 57 {
        Some((c - 48) as nat)
    } else if 65 <= c <= 72 {
        Some((c - 65 + 10) as nat)
    } else if 74 <= c <= 75 {
        Some((c - 74 + 18) as nat)
    } else if 77 <= c <= 78 {
        Some((c - 77 + 20) as nat)
    } else if 80 <= c <= 84 {
        Some((c - 80 + 22) as nat)
    } else if 86 <= c <= 90 {
        Some((c - 86 + 27) as nat)
    } else {
        None
    }
}

/// Every byte is a digit.
pub open spec fn all_digits(b: Seq<u8>) -> bool {
    forall|i: int| 0 <= i < b.len() ==> (#[trigger] digit_value(b[i])) is Some
}

/// The number the digits spell, most significant first.
pub open spec fn digits_value(b: Seq<u8>) -> nat
    decreases b.len(),
{
    if b.len() == 0 {
        0
    } else {
        digits_value(b.drop_last()) * 32 + match digit_value(b.last()) {
            Some(d) => d,
            None => 0,
        }
    }
}

fn decode_digit(c: u8) -> (r: Option<u64>)
    ensures
        match r {
            Some(d) => digit_value(c) == Some(d as nat) && d < 32,
            None => digit_value(c) is None,
        },
{
    if 48 <= c && c <= 57 {
        Some((c - 48) as u64)
    } else if 65 <= c && c <= 72 {
        Some((c - 65 + 10) as u64)
    } else if 74 <= c && c <= 75 {
        Some((c - 74 + 18) as u64)
    } else if 77 <= c && c <= 78 {
        Some((c - 77 + 20) as u64)
    } else if 80 <= c && c <= 84 {
        Some((c - 80 + 22) as u64)
    } else if 86 <= c && c <= 90 {
        Some((c - 86 + 27) as u64)
    } else {
        None
    }
}

proof fn lemma_digits_bound(b: Seq<u8>)
    requires
        all_digits(b),
    ensures
        digits_value(b) < pow(32, b.len()),
    decreases b.len(),
{
    if b.len() == 0 {
        vstd::arithmetic::power::lemma_pow0(32);
    } else {
        assert(all_digits(b.drop_last())) by {
            assert forall|i: int| 0 <= i < b.drop_last().len() implies (#[trigger] digit_value(b.drop_last()[i])) is Some by {
                assert(b.drop_last()[i] == b[i]);
            }
        }
        lemma_digits_bound(b.drop_last());
        assert(digit_value(b[b.len() - 1]) is Some);
        assert(pow(32, b.len()) == 32 * pow(32, (b.len() - 1) as nat)) by {
            reveal(pow);
        }
        let p = pow(32, (b.len() - 1) as nat);
        let x = digits_value(b.drop_last());
        assert(x * 32 + 31 < 32 * p) by (nonlinear_arith)
            requires
                x < p,
        ;
    }
}

/// `u` is what `decode` reads from the bytes `b`: the first 10 digits give
/// the timestamp; the last 16 are read into 64 bits (higher bits drop), of
/// which the top 4 also become the high randomness.
pub open spec fn decoded_from(b: Seq<u8>, u: Ulid) -> bool {
    &&& u.ts() == digits_value(b.subrange(0, 10))
    &&& u.low() == digits_value(b.subrange(10, 26)) % 0x1_0000_0000_0000_0000
    &&& u.high() == u.low() / 0x1000_0000_0000_0000
}

impl Ulid {
    /// Parse the 26-character text form. The first 10 digits give the
    /// timestamp; the last 16 are read into 64 bits (higher bits drop), of
    /// which the top 4 also become the high randomness.
    pub fn decode(text: &str) -> (r: Result<Ulid, UlidDecodeError>)
        ensures
            text.spec_bytes().len() != 26 ==> r == Err::<Ulid, UlidDecodeError>(UlidDecodeError::WrongLength),
            text.spec_bytes().len() == 26 && !all_digits(text.spec_bytes()) ==> r == Err::<Ulid, UlidDecodeError>(UlidDecodeError::InvalidCharacter),
            text.spec_bytes().len() == 26 && all_digits(text.spec_bytes()) ==> r is Ok,
            r matches Ok(u) ==> decoded_from(text.spec_bytes(), u),
    {
        let bytes = text.as_bytes();
        let ghost b = text.spec_bytes();
        if bytes.len() != 26 {
            return Err(UlidDecodeError::WrongLength);
        }
        let mut timestamp: u64 = 0;
        let mut i: usize = 0;
        proof {
            vstd::arithmetic::power::lemma_pow0(32);
            assert(b.subrange(0, 0) =~= Seq::<u8>::empty());
        }
        while i < 10
            invariant
                b == text.spec_bytes(),
                bytes@ == b,
                b.len() == 26,
                i <= 10,
                all_digits(b.subrange(0, i as int)),
                timestamp == digits_value(b.subrange(0, i as int)),
                timestamp < pow(32, i as nat),
            decreases 10 - i,
        {
            let d = match decode_digit(bytes[i]) {
                Some(d) => d,
                None => {
                    proof {
                        assert(digit_value(b[i as int]) is None);
                    }
                    return Err(UlidDecodeError::InvalidCharacter);
                },
            };
            proof {
                let s1 = b.subrange(0, i + 1);
                assert(s1.drop_last() =~= b.subrange(0, i as int));
                assert(s1.last() == b[i as int]);
                assert(all_digits(s1)) by {
                    assert forall|k: int| 0 <= k < s1.len() implies (#[trigger] digit_value(s1[k])) is Some by {
                        if k < i {
                            assert(s1[k] == b.subrange(0, i as int)[k]);
                        }
                    }
                }
                lemma_digits_bound(s1);
                assert(pow(32, 10) == 0x4_0000_0000_0000) by {
                    reveal_with_fuel(pow, 11);
                }
                vstd::arithmetic::power::lemma_pow_increases(32, (i + 1) as nat, 10);
            }
            timestamp = timestamp * 32 + d;
            i = i + 1;
        }
        let mut randomness: u64 = 0;
        let mut i: usize = 10;
        proof {
            assert(b.subrange(10, 10) =~= Seq::<u8>::empty());
        }
        while i < 26
            invariant
                b == text.spec_bytes(),
                bytes@ == b,
                b.len() == 26,
                10 <= i <= 26,
                all_digits(b.subrange(0, i as int)),
                randomness == digits_value(b.subrange(10, i as int)) % 0x1_0000_0000_0000_0000,
            decreases 26 - i,
        {
            let d = match decode_digit(bytes[i]) {
                Some(d) => d,
                None => {
                    proof {
                        assert(digit_value(b[i as int]) is None);
                    }
                    return Err(UlidDecodeError::InvalidCharacter);
                },
            };
            proof {
                let s1 = b.subrange(10, i + 1);
                assert(s1.drop_last() =~= b.subrange(10, i as int));
                assert(s1.last() == b[i as int]);
                let a = b.subrange(0, i + 1);
                assert(all_digits(a)) by {
                    assert forall|k: int| 0 <= k < a.len() implies (#[trigger] digit_value(a[k])) is Some by {
                        if k < i {
                            assert(a[k] == b.subrange(0, i as int)[k]);
                        }
                    }
                }
                let x = digits_value(b.subrange(10, i as int)) as int;
                let m = 0x1_0000_0000_0000_0000int;
                vstd::arithmetic::div_mod::lemma_mul_mod_noop_left(x, 32, m);
                vstd::arithmetic::div_mod::lemma_add_mod_noop(x * 32, d as int, m);
                vstd::arithmetic::div_mod::lemma_add_mod_noop((x % m) * 32, d as int, m);
                vstd::arithmetic::div_mod::lemma_mod_twice(x * 32, m);
                vstd::arithmetic::div_mod::lemma_small_mod(d as nat, m as nat);
            }
            randomness = (((randomness as u128) * 32 + (d as u128)) % 0x1_0000_0000_0000_0000) as u64;
            i = i + 1;
        }
        proof {
            assert(b.subrange(0, 26) =~= b);
            assert forall|k: int| 0 <= k < b.len() implies (#[trigger] digit_value(b[k])) is Some by {
                assert(b[k] == b.subrange(0, 26)[k]);
            }
        }
        let high = (randomness / 0x1000_0000_0000_0000) as u16;
        Ok(Ulid { timestamp, randomness_high: high, randomness_low: randomness })
    }
}

/// The bytes of a text whose characters are all ASCII.
pub open spec fn ascii_bytes(t: Seq<char>) -> Seq<u8> {
    Seq::new(t.len(), |i: int| t[i] as u8)
}

/// Each Crockford character reads back as its digit.
proof fn lemma_digit_char(d: int)
    requires
        0 <= d < 32,
    ensures
        digit_value(crockford_digit(d) as u8) == Some(d as nat),
        '\0' <= crockford_digit(d) <= '\u{7f}',
{
    let a = seq![
        '0', '1', '2', '3', '4', '5', '6', '7', '8', '9', 'A', 'B', 'C', 'D', 'E', 'F', 'G',
        'H', 'J', 'K', 'M', 'N', 'P', 'Q', 'R', 'S', 'T', 'V', 'W', 'X', 'Y', 'Z',
    ];
    assert(crockford_digit(d) == a[d]);
}

/// The digits of `a + b` spell the number of `a` shifted past `b`'s digits,
/// plus the number of `b`.
proof fn lemma_digits_concat(a: Seq<u8>, b: Seq<u8>)
    ensures
        digits_value(a + b) == digits_value(a) * pow(32, b.len()) + digits_value(b),
    decreases b.len(),
{
    if b.len() == 0 {
        assert(a + b =~= a);
        vstd::arithmetic::power::lemma_pow0(32);
    } else {
        let ab = a + b;
        assert(ab.drop_last() =~= a + b.drop_last());
        assert(ab.last() == b.last());
        lemma_digits_concat(a, b.drop_last());
        assert(pow(32, b.len()) == 32 * pow(32, (b.len() - 1) as nat)) by {
            reveal(pow);
        }
        let p = pow(32, (b.len() - 1) as nat);
        let x = digits_value(a);
        assert((x * p) * 32 == x * (32 * p)) by (nonlinear_arith);
    }
}

/// The base32 text of `v` is ASCII, all digits, and spells `v` modulo
/// `32^len`.
proof fn lemma_base32_digits(v: nat, len: nat)
    ensures
        ascii_bytes(base32_text(v, len)).len() == len,
        all_digits(ascii_bytes(base32_text(v, len))),
        vstd::utf8::is_ascii_chars(base32_text(v, len)),
        digits_value(ascii_bytes(base32_text(v, len))) == (v as int) % pow(32, len),
    decreases len,
{
    let t = base32_text(v, len);
    let b = ascii_bytes(t);
    assert forall|i: int| 0 <= i < len implies '\0' <= #[trigger] t[i] <= '\u{7f}'
        && (#[trigger] digit_value(b[i])) is Some by {
        vstd::arithmetic::power::lemma_pow_positive(32, (len - 1 - i) as nat);
        lemma_digit_char((v as int / pow(32, (len - 1 - i) as nat)) % 32);
    }
    if len == 0 {
        vstd::arithmetic::power::lemma_pow0(32);
        assert(b =~= Seq::<u8>::empty());
    } else {
        let n = (len - 1) as nat;
        lemma_base32_digits(v / 32, n);
        assert forall|i: int| 0 <= i < n implies #[trigger] t[i] == base32_text(v / 32, n)[i] by {
            vstd::arithmetic::power::lemma_pow_positive(32, (n - 1 - i) as nat);
            assert(pow(32, (len - 1 - i) as nat) == 32 * pow(32, (n - 1 - i) as nat)) by {
                reveal(pow);
            }
            vstd::arithmetic::div_mod::lemma_div_denominator(v as int, 32, pow(32, (n - 1 - i) as nat));
        }
        assert(b.drop_last() =~= ascii_bytes(base32_text(v / 32, n)));
        vstd::arithmetic::power::lemma_pow0(32);
        lemma_digit_char((v as int) % 32);
        assert(digit_value(b.last()) == Some((v % 32) as nat));
        vstd::arithmetic::power::lemma_pow_positive(32, n);
        assert(pow(32, len) == 32 * pow(32, n)) by {
            reveal(pow);
        }
        vstd::arithmetic::div_mod::lemma_mod_breakdown(v as int, 32, pow(32, n));
        assert((v / 32) as int % pow(32, n) * 32 == 32 * ((v as int / 32) % pow(32, n))) by (nonlinear_arith);
    }
}

/// Reading back the text of a ULID gives the ULID, provided its timestamp
/// fits the ten timestamp digits and its high randomness is the top four
/// bits of its low randomness (the only bits of the high randomness that the
/// text keeps).
pub proof fn lemma_text_roundtrip(u: Ulid, s: &str)
    requires
        u.ts() < 0x4_0000_0000_0000,
        u.high() == u.low() / 0x1000_0000_0000_0000,
        s@ == u.text(),
    ensures
        s.spec_bytes().len() == 26,
        all_digits(s.spec_bytes()),
        forall|v: Ulid| #[trigger] decoded_from(s.spec_bytes(), v) ==> v == u,
{
    let t1 = base32_text(u.ts() as nat, 10);
    let t2 = base32_text(u.high() as nat, 4);
    let t3 = base32_text(u.low() as nat, 12);
    lemma_base32_digits(u.ts() as nat, 10);
    lemma_base32_digits(u.high() as nat, 4);
    lemma_base32_digits(u.low() as nat, 12);
    assert(u.text() == t1 + t2 + t3);
    assert(vstd::utf8::is_ascii_chars(s@)) by {
        assert forall|i: int| 0 <= i < s@.len() implies '\0' <= #[trigger] s@[i] <= '\u{7f}' by {
            if i < 10 {
                assert(s@[i] == t1[i]);
            } else if i < 14 {
                assert(s@[i] == t2[i - 10]);
            } else {
                assert(s@[i] == t3[i - 14]);
            }
        }
    }
    vstd::string::is_ascii_spec_bytes(s);
    let b = s.spec_bytes();
    assert(b =~= ascii_bytes(t1) + ascii_bytes(t2) + ascii_bytes(t3));
    assert(b.subrange(0, 10) =~= ascii_bytes(t1));
    assert(b.subrange(10, 26) =~= ascii_bytes(t2) + ascii_bytes(t3));
    assert forall|i: int| 0 <= i < b.len() implies (#[trigger] digit_value(b[i])) is Some by {
        if i < 10 {
            assert(b[i] == ascii_bytes(t1)[i]);
        } else if i < 14 {
            assert(b[i] == ascii_bytes(t2)[i - 10]);
        } else {
            assert(b[i] == ascii_bytes(t3)[i - 14]);
        }
    }
    lemma_digits_concat(ascii_bytes(t2), ascii_bytes(t3));
    assert(pow(32, 10) == 0x4_0000_0000_0000) by {
        reveal_with_fuel(pow, 11);
    }
    assert(pow(32, 4) == 0x10_0000) by {
        reveal_with_fuel(pow, 5);
    }
    assert(pow(32, 12) == 0x1000_0000_0000_0000) by {
        reveal_with_fuel(pow, 13);
    }
    let ts = u.ts();
    let h = u.high();
    let l = u.low();
    assert(digits_value(b.subrange(0, 10)) == ts) by {
        vstd::arithmetic::div_mod::lemma_small_mod(ts as nat, 0x4_0000_0000_0000);
    }
    assert(digits_value(b.subrange(10, 26)) % 0x1_0000_0000_0000_0000 == l) by {
        vstd::arithmetic::div_mod::lemma_small_mod(h as nat, 0x10_0000);
        assert(h < 16) by {
            vstd::arithmetic::div_mod::lemma_div_is_ordered(l as int, 0xFFFF_FFFF_FFFF_FFFF, 0x1000_0000_0000_0000);
        }
        vstd::arithmetic::div_mod::lemma_fundamental_div_mod(l as int, 0x1000_0000_0000_0000);
        let x = h * 0x1000_0000_0000_0000 + l % 0x1000_0000_0000_0000;
        assert(x == l);
        vstd::arithmetic::div_mod::lemma_small_mod(x as nat, 0x1_0000_0000_0000_0000);
    }
    assert forall|v: Ulid| #[trigger] decoded_from(b, v) implies v == u by {
        assert(v.ts() == u.ts());
        assert(v.low() == u.low());
        assert(v.high() == u.high());
    }
}

// ------------------------------------------------------------ generation

/// `std::time::SystemTime`, carried opaquely.
#[verifier::external_type_specification]
#[verifier::external_body]
pub struct ExSystemTime(std::time::SystemTime);

/// `std::time::SystemTime::now`: the current wall-clock time.
#[verifier::external_body]
fn system_now() -> std::time::SystemTime {
    std::time::SystemTime::now()
}

/// `SystemTime::duration_since(UNIX_EPOCH)`: the time since the Unix epoch,
/// `None` when the clock reads earlier than the epoch.
#[verifier::external_body]
fn since_unix_epoch(t: &std::time::SystemTime) -> Option<std::time::Duration> {
    t.duration_since(std::time::UNIX_EPOCH).ok()
}

/// `Duration::as_millis`: the whole milliseconds in the duration.
#[verifier::external_body]
fn whole_millis(d: &std::time::Duration) -> u128 {
    d.as_millis()
}

/// The current time in milliseconds since the Unix epoch, in 64 bits
/// (wrapping, as `as u64` does); `None` when the clock reads earlier than
/// the epoch.
pub fn current_timestamp_ms() -> Option<u64> {
    let now = system_now();
    match since_unix_epoch(&now) {
        Some(d) => {
            let ms = whole_millis(&d);
            Some(ms as u64)
        },
        None => None,
    }
}

/// The state behind ULID generation: the last timestamp used and the
/// counter for that millisecond.
#[derive(Debug)]
pub struct UlidClock {
    last_timestamp: u64,
    counter: u64,
}

/// The randomness for `timestamp`: the next counter value within the same
/// millisecond, else `timestamp ^ (timestamp << 32)`.
pub open spec fn next_counter(last: u64, counter: u64, timestamp: u64) -> u64 {
    if timestamp == last {
        (counter + 1) as u64
    } else {
        timestamp ^ (timestamp << 32u64)
    }
}

/// The ULID made from a timestamp and a randomness value.
pub open spec fn generated(timestamp: u64, randomness: u64) -> Ulid {
    Ulid::with_fields(
        (timestamp % 0x1_0000_0000_0000) as u64,
        (randomness / 0x1_0000_0000_0000) as u16,
        randomness,
    )
}

impl UlidClock {
    pub closed spec fn last(&self) -> u64 {
        self.last_timestamp
    }

    pub closed spec fn count(&self) -> u64 {
        self.counter
    }

    /// The counter value of the last ULID drawn in the current millisecond.
    pub fn counter(&self) -> (r: u64)
        ensures
            r == self.count(),
    {
        self.counter
    }

    /// A clock that has not produced anything yet.
    pub fn new() -> (r: UlidClock)
        ensures
            r.last() == 0,
            r.count() == 0,
    {
        UlidClock { last_timestamp: 0, counter: 0 }
    }

    /// The ULID for `timestamp`: within the millisecond of the last call
    /// the counter advances by one; in a new millisecond it restarts from
    /// `timestamp ^ (timestamp << 32)`.
    pub fn next(&mut self, timestamp: u64) -> (r: Ulid)
        requires
            !(timestamp == old(self).last() && old(self).count() == u64::MAX),
        ensures
            final(self).last() == timestamp,
            final(self).count() == next_counter(old(self).last(), old(self).count(), timestamp),
            r == generated(timestamp, next_counter(old(self).last(), old(self).count(), timestamp)),
    {
        let randomness = if timestamp == self.last_timestamp {
            self.counter = self.counter + 1;
            self.counter
        } else {
            self.last_timestamp = timestamp;
            let fresh = timestamp ^ (timestamp << 32u64);
            self.counter = fresh;
            fresh
        };
        Ulid {
            timestamp: timestamp % 0x1_0000_0000_0000,
            randomness_high: (randomness / 0x1_0000_0000_0000) as u16,
            randomness_low: randomness,
        }
    }
}

/// Why no ULID could be drawn.
#[derive(Debug, Clone, Copy, PartialEq, Eq, Structural)]
pub enum UlidGenError {
    /// The system clock reads earlier than the Unix epoch.
    ClockBeforeEpoch,
    /// The millisecond repeats and its counter has no value left.
    CounterExhausted,
}

/// What drawing from a clock in state `c` gives for the clock reading
/// `reading` (milliseconds since the Unix epoch, `None` before the epoch).
pub open spec fn draw_result(c: UlidClock, reading: Option<u64>) -> Result<Ulid, UlidGenError> {
    match reading {
        None => Err(UlidGenError::ClockBeforeEpoch),
        Some(t) => if t == c.last() && c.count() == u64::MAX {
            Err(UlidGenError::CounterExhausted)
        } else {
            Ok(generated(t, next_counter(c.last(), c.count(), t)))
        },
    }
}

/// A draw with reading `reading` took the clock from `before` to `after`
/// and gave `r`: the result `draw_result` fixes; a failed draw leaves the
/// clock as it was, a successful one moves it to the reading and its
/// counter.
pub open spec fn draw_outcome(before: UlidClock, after: UlidClock, reading: Option<u64>, r: Result<Ulid, UlidGenError>) -> bool {
    &&& r == draw_result(before, reading)
    &&& (r is Err ==> after == before)
    &&& (r is Ok ==> after.last() == reading->0
        && after.count() == next_counter(before.last(), before.count(), reading->0))
}

impl Ulid {
    /// Draw a ULID from `clock` for the clock reading `reading`: fails on a
    /// reading before the epoch, and when the reading repeats the clock's
    /// last millisecond with its counter exhausted; otherwise advances the
    /// clock (see `UlidClock::next`).
    pub fn draw(clock: &mut UlidClock, reading: Option<u64>) -> (r: Result<Ulid, UlidGenError>)
        ensures
            draw_outcome(*old(clock), *final(clock), reading, r),
    {
        match reading {
            Some(timestamp) => {
                if timestamp == clock.last_timestamp && clock.counter == u64::MAX {
                    Err(UlidGenError::CounterExhausted)
                } else {
                    Ok(clock.next(timestamp))
                }
            },
            None => Err(UlidGenError::ClockBeforeEpoch),
        }
    }

    /// A new ULID for the current time, drawn from `clock`: the draw for
    /// the reading of the system clock.
    pub fn new(clock: &mut UlidClock) -> (r: Result<Ulid, UlidGenError>)
        ensures
            exists|reading: Option<u64>| #[trigger] draw_outcome(*old(clock), *final(clock), reading, r),
    {
        let reading = current_timestamp_ms();
        Ulid::draw(clock, reading)
    }
}

/// Successive draws increase: after a draw at reading `t1` gave `u1`, a
/// draw at a 48-bit reading `t2 >= t1` that succeeds gives a ULID of larger
/// value.
pub proof fn lemma_draws_increase(
    c0: UlidClock,
    c1: UlidClock,
    c2: UlidClock,
    t1: u64,
    t2: u64,
    u1: Ulid,
    u2: Ulid,
)
    requires
        draw_outcome(c0, c1, Some(t1), Ok(u1)),
        draw_outcome(c1, c2, Some(t2), Ok(u2)),
        t1 <= t2 < 0x1_0000_0000_0000,
    ensures
        u1.value() < u2.value(),
{
    let n1 = next_counter(c0.last(), c0.count(), t1);
    assert(u1 == generated(t1, n1));
    assert(c1.last() == t1 && c1.count() == n1);
    assert(!(t2 == t1 && n1 == u64::MAX));
    lemma_next_increases(t1, n1, t2);
}

impl From<u128> for Ulid {
    fn from(value: u128) -> (r: Ulid) {
        Ulid::from_u128(value)
    }
}

impl vstd::std_specs::convert::FromSpecImpl<u128> for Ulid {
    open spec fn obeys_from_spec() -> bool {
        true
    }

    open spec fn from_spec(v: u128) -> Ulid {
        Ulid::of_value(v)
    }
}

impl From<Ulid> for u128 {
    fn from(ulid: Ulid) -> (r: u128) {
        ulid.to_u128()
    }
}

impl vstd::std_specs::convert::FromSpecImpl<Ulid> for u128 {
    open spec fn obeys_from_spec() -> bool {
        true
    }

    open spec fn from_spec(v: Ulid) -> u128 {
        v.value() as u128
    }
}

/// Every ULID a clock draws has a 48-bit timestamp, so its binary form reads
/// back to it.
pub proof fn lemma_generated_roundtrip(timestamp: u64, randomness: u64)
    ensures
        generated(timestamp, randomness).ts() < 0x1_0000_0000_0000,
        Ulid::of_value(generated(timestamp, randomness).value() as u128) == generated(timestamp, randomness),
{
    lemma_ulid_roundtrip(generated(timestamp, randomness));
}

/// Successive draws increase: after a clock drew `generated(t1, r1)` (its
/// state is then `t1`, `r1`), drawing at a 48-bit timestamp `t2 >= t1`
/// gives a ULID of larger value, unless the millisecond repeats with the
/// counter exhausted.
pub proof fn lemma_next_increases(t1: u64, r1: u64, t2: u64)
    requires
        t1 <= t2 < 0x1_0000_0000_0000,
        !(t2 == t1 && r1 == u64::MAX),
    ensures
        generated(t1, r1).value() < generated(t2, next_counter(t1, r1, t2)).value(),
{
    let p48 = 0x1_0000_0000_0000int;
    let p64 = 0x1_0000_0000_0000_0000int;
    let p80 = 0x1_0000_0000_0000_0000_0000int;
    let r2 = next_counter(t1, r1, t2);
    let u1 = generated(t1, r1);
    let u2 = generated(t2, r2);
    vstd::arithmetic::div_mod::lemma_small_mod(t1 as nat, p48 as nat);
    vstd::arithmetic::div_mod::lemma_small_mod(t2 as nat, p48 as nat);
    let h1 = (r1 as int) / p48;
    let h2 = (r2 as int) / p48;
    assert(0 <= h1 < 0x1_0000 && 0 <= h2 < 0x1_0000) by {
        vstd::arithmetic::div_mod::lemma_div_is_ordered(r1 as int, p64 - 1, p48);
        vstd::arithmetic::div_mod::lemma_div_is_ordered(r2 as int, p64 - 1, p48);
        vstd::arithmetic::div_mod::lemma_div_pos_is_pos(r1 as int, p48);
        vstd::arithmetic::div_mod::lemma_div_pos_is_pos(r2 as int, p48);
    }
    assert(u1.value() == t1 * p80 + h1 * p64 + r1);
    assert(u2.value() == t2 * p80 + h2 * p64 + r2);
    if t2 == t1 {
        assert(r2 == r1 + 1);
        vstd::arithmetic::div_mod::lemma_div_is_ordered(r1 as int, r2 as int, p48);
        assert(h1 * p64 <= h2 * p64) by (nonlinear_arith)
            requires
                h1 <= h2,
                p64 > 0,
        ;
    } else {
        assert(h1 * p64 + r1 < p80) by (nonlinear_arith)
            requires
                0 <= h1 < 0x1_0000,
                0 <= r1 < p64,
                p64 == 0x1_0000_0000_0000_0000int,
                p80 == 0x1_0000_0000_0000_0000_0000int,
        ;
        assert(t1 * p80 + p80 <= t2 * p80) by (nonlinear_arith)
            requires
                t1 + 1 <= t2,
                p80 > 0,
        ;
        assert(0 <= h2 * p64) by (nonlinear_arith)
            requires
                0 <= h2,
                p64 > 0,
        ;
    }
}

/// Reading a `u128` into a ULID and back gives the same value.
pub proof fn lemma_value_roundtrip(v: u128)
    ensures
        Ulid::of_value(v).value() == v,
{
    let x = v as int;
    let p64 = 0x1_0000_0000_0000_0000int;
    let p80 = 0x1_0000_0000_0000_0000_0000int;
    let q = x / p80;
    assert(q < 0x1_0000_0000_0000) by {
        vstd::arithmetic::div_mod::lemma_fundamental_div_mod(x, p80);
        vstd::arithmetic::div_mod::lemma_mod_bound(x, p80);
        assert(q < 0x1_0000_0000_0000) by (nonlinear_arith)
            requires
                x == p80 * q + x % p80,
                0 <= x % p80,
                x < 0x1_0000_0000_0000_0000_0000_0000_0000_0000int,
                p80 == 0x1_0000_0000_0000_0000_0000int,
        ;
    }
    vstd::arithmetic::div_mod::lemma_fundamental_div_mod(x, p80);
    vstd::arithmetic::div_mod::lemma_mod_breakdown(x, p64, 0x1_0000);
    assert(p64 * 0x1_0000 == p80);
    vstd::arithmetic::div_mod::lemma_mod_bound(x / p64, 0x1_0000);
    vstd::arithmetic::div_mod::lemma_mod_bound(x, p64);
    let u = Ulid::of_value(v);
    assert(u.ts() as int == q);
    assert(u.high() as int == (x / p64) % 0x1_0000);
    assert(u.low() as int == x % p64);
    assert(q % 0x1_0000_0000_0000 == q);
}

/// Writing a ULID as a `u128` and reading it back gives the same ULID
/// exactly when its timestamp fits in 48 bits (the layout keeps 48).
pub proof fn lemma_ulid_roundtrip(u: Ulid)
    ensures
        Ulid::of_value(u.value() as u128) == u <==> u.ts() < 0x1_0000_0000_0000,
{
    let p64 = 0x1_0000_0000_0000_0000int;
    let p80 = 0x1_0000_0000_0000_0000_0000int;
    let t = u.timestamp % 0x1_0000_0000_0000;
    let h = u.randomness_high as int;
    let l = u.randomness_low as int;
    let v = u.value();
    assert(h * p64 + l < p80) by (nonlinear_arith)
        requires
            0 <= h < 0x1_0000,
            0 <= l < p64,
            p64 == 0x1_0000_0000_0000_0000int,
            p80 == 0x1_0000_0000_0000_0000_0000int,
    ;
    assert(0 <= h * p64) by (nonlinear_arith)
        requires
            0 <= h,
            0 <= p64,
    ;
    assert(v == t * p80 + (h * p64 + l));
    vstd::arithmetic::div_mod::lemma_fundamental_div_mod_converse(v, p80, t as int, h * p64 + l);
    assert(v == (t * 0x1_0000 + h) * p64 + l) by (nonlinear_arith)
        requires
            v == t * p80 + (h * p64 + l),
            p80 == p64 * 0x1_0000,
    ;
    vstd::arithmetic::div_mod::lemma_fundamental_div_mod_converse(v, p64, t * 0x1_0000 + h, l);
    vstd::arithmetic::div_mod::lemma_fundamental_div_mod_converse(t * 0x1_0000 + h, 0x1_0000, t as int, h);
    assert(0 <= v < 0x1_0000_0000_0000_0000_0000_0000_0000_0000int) by (nonlinear_arith)
        requires
            v == t * p80 + (h * p64 + l),
            0 <= t < 0x1_0000_0000_0000,
            0 <= h * p64 + l < p80,
            p80 == 0x1_0000_0000_0000_0000_0000int,
    ;
    let w = Ulid::of_value(v as u128);
    assert(w.ts() as int == t);
    assert(w.high() as int == h);
    assert(w.low() as int == l);
}

/// The bytes of a ULID read back, big-endian, to its value, and from there
/// to the ULID itself when its timestamp fits in 48 bits, as the timestamp
/// of every ULID a clock draws does.
pub proof fn lemma_bytes_roundtrip(u: Ulid, b: Seq<u8>)
    requires
        u.ts() < 0x1_0000_0000_0000,
        be_value(b) == u.value(),
    ensures
        Ulid::of_value(be_value(b) as u128) == u,
{
    lemma_ulid_roundtrip(u);
}

} // verus!
