//! SHA-1 digests and their Base32 form.
use std::borrow::Cow;

use sha1::Digest as _;
use vstd::prelude::*;

use crate::numeral;
use crate::text::{borrow_str, chars_of, clone_cow, string_of};

verus! {

/// The number of characters in the Base32 form of a digest.
pub const DIGEST_LEN: usize = 32;

/// A SHA-1 digest, held as the 160-bit number that its twenty bytes spell with the first byte in
/// the highest place.
///
/// The order of these numbers is the order of the digest bytes.
#[derive(Clone, Copy, Debug, PartialEq, Eq, PartialOrd, Ord, Hash, Structural)]
pub struct Sha1Digest {
    /// The first sixteen bytes.
    pub high: u128,
    /// The last four bytes.
    pub low: u32,
}

/// The number of digests, two to the power of 160.
pub open spec fn digest_limit() -> nat {
    0x1_0000_0000_0000_0000_0000_0000_0000_0000_0000_0000nat
}

impl View for Sha1Digest {
    type V = nat;

    /// The digest as a number.
    open spec fn view(&self) -> nat {
        (self.high * 0x1_0000_0000 + self.low) as nat
    }
}

/// The SHA-1 digest of a byte sequence, as computed by the `sha1` crate.
pub uninterp spec fn sha1_of(data: Seq<u8>) -> Seq<u8>;

/// `Sha1::digest` of the `sha1` crate: the digest bytes are a function of the data alone.
#[verifier::external_body]
fn sha1_bytes(data: &[u8]) -> (bytes: [u8; 20])
    ensures
        bytes@ == sha1_of(data@),
{
    sha1::Sha1::digest(data).into()
}

/// The bytes of a sequence as numeral digits.
pub open spec fn byte_digits(bytes: Seq<u8>) -> Seq<nat> {
    bytes.map_values(|b: u8| b as nat)
}

/// The place of a character in the Base32 alphabet `A`-`Z`, `2`-`7`.
pub open spec fn base32_value(c: char) -> Option<nat> {
    if 'A' <= c && c <= 'Z' {
        Some((c as u32 - 'A' as u32) as nat)
    } else if '2' <= c && c <= '7' {
        Some((c as u32 - '2' as u32 + 26) as nat)
    } else {
        None
    }
}

/// The character at a place of the Base32 alphabet.
pub open spec fn base32_char(v: nat) -> char {
    if v < 26 {
        ('A' as u32 + v) as char
    } else {
        ('2' as u32 + (v - 26)) as char
    }
}

/// Whether a text is made of Base32 characters.
pub open spec fn is_base32(text: Seq<char>) -> bool {
    forall|i: int| 0 <= i < text.len() ==> base32_value(#[trigger] text[i]) is Some
}

/// The places of Base32 characters as numeral digits.
pub open spec fn base32_digits(text: Seq<char>) -> Seq<nat> {
    text.map_values(|c: char| base32_value(c).unwrap())
}

/// Whether a text is the Base32 form of a digest.
pub open spec fn is_digest_text(text: Seq<char>) -> bool {
    text.len() == DIGEST_LEN && is_base32(text)
}

/// The digest that a Base32 text stands for.
pub open spec fn digest_value(text: Seq<char>) -> nat {
    numeral::value(base32_digits(text), 32)
}

/// The Base32 characters at the given places.
pub open spec fn base32_chars(places: Seq<nat>) -> Seq<char> {
    places.map_values(|v: nat| base32_char(v))
}

/// The Base32 form of a digest.
pub open spec fn digest_text(n: nat) -> Seq<char> {
    base32_chars(numeral::digits(n, 32, 32))
}

/// The number of the SHA-1 digest of the given bytes.
pub open spec fn digest_of(data: Seq<u8>) -> nat {
    numeral::value(byte_digits(sha1_of(data)), 256)
}

/// The text is not the Base32 form of a digest.
#[derive(Clone, Copy, Debug, PartialEq, Eq, Structural)]
pub struct InvalidDigest;

proof fn lemma_powers()
    ensures
        numeral::power(32, 32) == digest_limit(),
        numeral::power(256, 20) == digest_limit(),
        numeral::power(256, 16) == 0x1_0000_0000_0000_0000_0000_0000_0000_0000,
        numeral::power(256, 4) == 0x1_0000_0000,
{
    assert(numeral::power(32, 32) == digest_limit()) by {
        reveal_with_fuel(numeral::power, 33);
    }
    assert(numeral::power(256, 20) == digest_limit()) by {
        reveal_with_fuel(numeral::power, 21);
    }
    assert(numeral::power(256, 16) == 0x1_0000_0000_0000_0000_0000_0000_0000_0000) by {
        reveal_with_fuel(numeral::power, 17);
    }
    assert(numeral::power(256, 4) == 0x1_0000_0000) by {
        reveal_with_fuel(numeral::power, 5);
    }
}

/// Decoding undoes encoding, character by character.
proof fn lemma_base32_inverse(v: nat, c: char)
    ensures
        v < 32 ==> base32_value(base32_char(v)) == Some(v),
        base32_value(c) matches Some(w) ==> w < 32 && base32_char(w) == c,
{
}

/// Every digest is below the limit, and a number below it is the number of one digest.
pub proof fn lemma_digest_unique(a: Sha1Digest, b: Sha1Digest)
    ensures
        a@ < digest_limit(),
        a@ == b@ ==> a == b,
{
}

/// One more numeral digit at the end of the digest number.
fn shift_in(digest: Sha1Digest, base: u32, digit: u32) -> (shifted: Sha1Digest)
    requires
        0 < base <= 256,
        digit < base,
        digest@ * base + digit < digest_limit(),
    ensures
        shifted@ == digest@ * base + digit,
{
    assert(0 <= digest.low * base <= 0xffff_ffff * 256) by (nonlinear_arith)
        requires
            0 <= digest.low <= 0xffff_ffff,
            0 < base <= 256,
    ;
    let low: u64 = digest.low as u64 * base as u64 + digit as u64;
    let carry: u64 = low / 0x1_0000_0000;
    proof {
        let h = digest.high as int;
        let l = digest.low as int;
        let b = base as int;
        assert((h * 0x1_0000_0000 + l) * b + digit == (h * b) * 0x1_0000_0000 + (l * b + digit)) by (nonlinear_arith);
        assert(h * b + carry < 0x1_0000_0000_0000_0000_0000_0000_0000_0000);
        assert(0 <= h * b) by (nonlinear_arith)
            requires
                0 <= h,
                0 <= b,
        ;
    }
    let high: u128 = digest.high * base as u128 + carry as u128;
    Sha1Digest { high, low: (low % 0x1_0000_0000) as u32 }
}

/// The last numeral digit of the digest number, and what is left before it.
fn shift_out(digest: Sha1Digest, base: u32) -> (out: (Sha1Digest, u32))
    requires
        0 < base <= 256,
    ensures
        out.0@ == digest@ / base as nat,
        out.1 == digest@ % base as nat,
        out.1 < base,
{
    let carry: u64 = (digest.high % base as u128) as u64;
    let low: u64 = carry * 0x1_0000_0000 + digest.low as u64;
    let front = Sha1Digest { high: digest.high / base as u128, low: (low / base as u64) as u32 };
    let digit: u32 = (low % base as u64) as u32;
    proof {
        let h = digest.high as int;
        let b = base as int;
        let l = low as int;
        assert(h == (h / b) * b + h % b) by (nonlinear_arith)
            requires
                b > 0,
        ;
        assert(l == (l / b) * b + l % b) by (nonlinear_arith)
            requires
                b > 0,
        ;
        assert(l / b < 0x1_0000_0000) by (nonlinear_arith)
            requires
                b > 0,
                l < b * 0x1_0000_0000,
        ;
        let q = (h / b) * 0x1_0000_0000 + l / b;
        assert(q * b == ((h / b) * b) * 0x1_0000_0000 + (l / b) * b) by (nonlinear_arith)
            requires
                q == (h / b) * 0x1_0000_0000 + l / b,
        ;
        vstd::arithmetic::div_mod::lemma_fundamental_div_mod_converse(
            digest@ as int,
            b,
            q,
            l % b,
        );
    }
    (front, digit)
}

impl Sha1Digest {
    /// The digest that the given bytes spell.
    pub fn from_bytes(bytes: &[u8; 20]) -> (digest: Sha1Digest)
        ensures
            digest@ == numeral::value(byte_digits(bytes@), 256),
            numeral::digits(digest@, 256, 20) == byte_digits(bytes@),
    {
        let mut digest = Sha1Digest { high: 0, low: 0 };
        let mut i: usize = 0;
        let ghost all = byte_digits(bytes@);
        assert(numeral::value(all.take(0), 256) == 0);
        while i < 20
            invariant
                i <= 20,
                all == byte_digits(bytes@),
                all.len() == 20,
                digest@ == numeral::value(all.take(i as int), 256),
            decreases 20 - i,
        {
            proof {
                let front = all.take(i as int);
                let next = all.take(i + 1);
                assert(next =~= front.push(all[i as int]));
                numeral::lemma_value_push(front, all[i as int], 256);
                assert(numeral::all_below(next, 256));
                numeral::lemma_digits_of_value(next, 256);
                numeral::lemma_power_monotonic(256, (i + 1) as nat, 20);
                lemma_powers();
            }
            digest = shift_in(digest, 256, bytes[i] as u32);
            i = i + 1;
        }
        proof {
            assert(all.take(20) =~= all);
            numeral::lemma_digits_of_value(all, 256);
        }
        digest
    }

    /// The twenty bytes of the digest.
    pub fn to_bytes(&self) -> (bytes: Vec<u8>)
        ensures
            bytes@.len() == 20,
            byte_digits(bytes@) == numeral::digits(self@, 256, 20),
            numeral::value(byte_digits(bytes@), 256) == self@,
    {
        proof {
            lemma_powers();
            numeral::lemma_digits_len(self@, 256, 20);
            numeral::lemma_value_of_digits(self@, 256, 20);
        }
        let mut reversed: Vec<u8> = Vec::new();
        let mut rest = *self;
        let mut i: usize = 0;
        while i < 20
            invariant
                i <= 20,
                reversed@.len() == i,
                numeral::digits(self@, 256, 20) == numeral::digits(rest@, 256, (20 - i) as nat)
                    + byte_digits(reversed@.reverse()),
            decreases 20 - i,
        {
            let ghost before = reversed@;
            let ghost front = rest@;
            let (next, digit) = shift_out(rest, 256);
            reversed.push(digit as u8);
            rest = next;
            proof {
                assert(reversed@.reverse() =~= seq![digit as u8] + before.reverse());
                let left = numeral::digits(rest@, 256, (19 - i) as nat);
                assert(numeral::digits(front, 256, (20 - i) as nat) == left.push(digit as nat));
                assert(left.push(digit as nat) + byte_digits(before.reverse()) =~= left
                    + byte_digits(reversed@.reverse()));
            }
            i = i + 1;
        }
        let mut bytes: Vec<u8> = Vec::new();
        let mut k: usize = 20;
        while k > 0
            invariant
                k <= 20,
                reversed@.len() == 20,
                bytes@ == reversed@.reverse().take(20 - k),
            decreases k,
        {
            k = k - 1;
            bytes.push(reversed[k]);
            assert(reversed@.reverse()[19 - k] == reversed@[k as int]);
            assert(reversed@.reverse().take(20 - k) =~= reversed@.reverse().take(19 - k).push(
                reversed@[k as int],
            ));
        }
        proof {
            assert(bytes@ =~= reversed@.reverse());
            assert(numeral::digits(rest@, 256, 0) + byte_digits(bytes@) =~= byte_digits(bytes@));
        }
        bytes
    }

    /// The SHA-1 digest of the given bytes.
    pub fn compute(data: &[u8]) -> (digest: Sha1Digest)
        ensures
            digest@ == digest_of(data@),
    {
        let bytes = sha1_bytes(data);
        Sha1Digest::from_bytes(&bytes)
    }

    /// Parses the Base32 form of a digest: 32 characters of the alphabet `A`-`Z`, `2`-`7`.
    pub fn parse_str(text: &str) -> (parsed: Result<Sha1Digest, InvalidDigest>)
        ensures
            match parsed {
                Ok(digest) => is_digest_text(text@) && digest@ == digest_value(text@),
                Err(_) => !is_digest_text(text@),
            },
    {
        let chars = chars_of(text);
        Sha1Digest::from_chars(&chars)
    }

    /// Parses the Base32 form of a digest.
    pub fn from_chars(chars: &[char]) -> (parsed: Result<Sha1Digest, InvalidDigest>)
        ensures
            match parsed {
                Ok(digest) => is_digest_text(chars@) && digest@ == digest_value(chars@),
                Err(_) => !is_digest_text(chars@),
            },
    {
        if chars.len() != DIGEST_LEN {
            return Err(InvalidDigest);
        }
        let mut digest = Sha1Digest { high: 0, low: 0 };
        let mut i: usize = 0;
        assert(numeral::value(base32_digits(chars@.take(0)), 32) == 0);
        while i < 32
            invariant
                i <= 32,
                chars@.len() == 32,
                is_base32(chars@.take(i as int)),
                digest@ == numeral::value(base32_digits(chars@.take(i as int)), 32),
            decreases 32 - i,
        {
            let c = chars[i];
            let digit: u32 = if 'A' <= c && c <= 'Z' {
                c as u32 - 'A' as u32
            } else if '2' <= c && c <= '7' {
                c as u32 - '2' as u32 + 26
            } else {
                assert(base32_value(chars@[i as int]) is None);
                return Err(InvalidDigest);
            };
            proof {
                let front = base32_digits(chars@.take(i as int));
                let next = base32_digits(chars@.take(i + 1));
                assert(next =~= front.push(digit as nat));
                numeral::lemma_value_push(front, digit as nat, 32);
                assert(is_base32(chars@.take(i + 1)));
                assert(numeral::all_below(next, 32)) by {
                    assert forall|k: int| 0 <= k < next.len() implies next[k] < 32 by {
                        assert(base32_value(chars@.take(i + 1)[k]) is Some);
                    }
                }
                numeral::lemma_digits_of_value(next, 32);
                numeral::lemma_power_monotonic(32, (i + 1) as nat, 32);
                lemma_powers();
            }
            digest = shift_in(digest, 32, digit);
            i = i + 1;
        }
        assert(chars@.take(32) =~= chars@);
        Ok(digest)
    }

    /// The characters of the Base32 form of the digest.
    pub fn to_chars(&self) -> (chars: Vec<char>)
        ensures
            chars@ == digest_text(self@),
    {
        let mut reversed: Vec<char> = Vec::new();
        let mut rest = *self;
        let mut i: usize = 0;
        while i < 32
            invariant
                i <= 32,
                reversed@.len() == i,
                digest_text(self@) == base32_chars(numeral::digits(rest@, 32, (32 - i) as nat))
                    + reversed@.reverse(),
            decreases 32 - i,
        {
            let ghost before = reversed@;
            let ghost front = rest@;
            let (next, digit) = shift_out(rest, 32);
            let c: char = if digit < 26 {
                ('A' as u8 + digit as u8) as char
            } else {
                ('2' as u8 + (digit as u8 - 26)) as char
            };
            reversed.push(c);
            rest = next;
            proof {
                assert(c == base32_char(digit as nat));
                assert(reversed@.reverse() =~= seq![c] + before.reverse());
                let left = numeral::digits(rest@, 32, (31 - i) as nat);
                assert(numeral::digits(front, 32, (32 - i) as nat) == left.push(digit as nat));
                assert(base32_chars(left.push(digit as nat)) =~= base32_chars(left).push(c));
                assert(base32_chars(left).push(c) + before.reverse() =~= base32_chars(left)
                    + reversed@.reverse());
            }
            i = i + 1;
        }
        let mut chars: Vec<char> = Vec::new();
        let mut k: usize = 32;
        while k > 0
            invariant
                k <= 32,
                reversed@.len() == 32,
                chars@ == reversed@.reverse().take(32 - k),
            decreases k,
        {
            k = k - 1;
            chars.push(reversed[k]);
            assert(reversed@.reverse()[31 - k] == reversed@[k as int]);
            assert(reversed@.reverse().take(32 - k) =~= reversed@.reverse().take(31 - k).push(
                reversed@[k as int],
            ));
        }
        proof {
            assert(chars@ =~= reversed@.reverse());
            assert(base32_chars(numeral::digits(rest@, 32, 0)) + chars@ =~= chars@);
        }
        chars
    }

    /// The Base32 form of the digest.
    pub fn to_string(&self) -> (text: String)
        ensures
            text@ == digest_text(self@),
    {
        let chars = self.to_chars();
        string_of(&chars)
    }

    /// Whether this digest sorts before the other one.
    pub fn is_before(&self, other: &Sha1Digest) -> (before: bool)
        ensures
            before == (self@ < other@),
    {
        self.high < other.high || (self.high == other.high && self.low < other.low)
    }
}

/// The Base32 form of a number below the limit reads as the number.
pub proof fn lemma_digest_text_reads(n: nat)
    requires
        n < digest_limit(),
    ensures
        is_digest_text(digest_text(n)),
        digest_value(digest_text(n)) == n,
{
    let d = numeral::digits(n, 32, 32);
    let text = digest_text(n);
    numeral::lemma_digits_len(n, 32, 32);
    lemma_powers();
    numeral::lemma_value_of_digits(n, 32, 32);
    assert forall|i: int| 0 <= i < 32 implies base32_value(#[trigger] text[i]) == Some(d[i]) by {
        lemma_base32_inverse(d[i], text[i]);
    }
    assert(base32_digits(text) =~= d);
}

/// Reading the Base32 form of a digest gives back the digest.
pub proof fn law_digest_text_parses_back(digest: Sha1Digest)
    ensures
        is_digest_text(digest_text(digest@)),
        digest_value(digest_text(digest@)) == digest@,
{
    lemma_digest_unique(digest, digest);
    lemma_digest_text_reads(digest@);
}

/// Writing the digest that a Base32 text stands for gives back the text.
pub proof fn law_digest_parse_writes_back(text: Seq<char>)
    requires
        is_digest_text(text),
    ensures
        digest_text(digest_value(text)) == text,
        digest_value(text) < digest_limit(),
{
    let d = base32_digits(text);
    assert forall|i: int| 0 <= i < d.len() implies d[i] < 32 && base32_char(d[i]) == text[i] by {
        assert(base32_value(text[i]) is Some);
        lemma_base32_inverse(d[i], text[i]);
    }
    numeral::lemma_digits_of_value(d, 32);
    lemma_powers();
    assert(base32_chars(d) =~= text);
}

/// A digest as the CDX index gives it: usually a SHA-1 digest, sometimes some other text.
#[derive(Debug, PartialEq, Eq)]
pub enum Digest<'a> {
    /// A SHA-1 digest.
    Valid(Sha1Digest),
    /// A text that is not the Base32 form of a SHA-1 digest.
    Invalid(Cow<'a, str>),
}

impl<'a> Clone for Digest<'a> {
    fn clone(&self) -> (copy: Self)
        ensures
            copy == *self,
    {
        match self {
            Digest::Valid(digest) => Digest::Valid(*digest),
            Digest::Invalid(text) => Digest::Invalid(clone_cow(text)),
        }
    }
}

impl<'a> Digest<'a> {
    /// The text of the digest.
    pub open spec fn text(&self) -> Seq<char> {
        match self {
            Digest::Valid(digest) => digest_text(digest@),
            Digest::Invalid(text) => text@,
        }
    }

    /// Reads a digest text, keeping one that is not a SHA-1 digest as it is.
    pub fn parse_str(text: &'a str) -> (digest: Digest<'a>)
        ensures
            digest.text() == text@,
            digest is Valid <==> is_digest_text(text@),
            digest matches Digest::Valid(valid) ==> valid@ == digest_value(text@),
    {
        match Sha1Digest::parse_str(text) {
            Ok(digest) => {
                proof {
                    law_digest_parse_writes_back(text@);
                }
                Digest::Valid(digest)
            },
            Err(_) => Digest::Invalid(Cow::Borrowed(text)),
        }
    }

    /// The SHA-1 digest, if this is one.
    pub fn valid(&self) -> (digest: Option<Sha1Digest>)
        ensures
            digest == (match self {
                Digest::Valid(valid) => Some(*valid),
                Digest::Invalid(_) => None,
            }),
    {
        match self {
            Digest::Valid(digest) => Some(*digest),
            Digest::Invalid(_) => None,
        }
    }

    /// The text of the digest.
    pub fn to_string(&self) -> (text: String)
        ensures
            text@ == self.text(),
    {
        match self {
            Digest::Valid(digest) => digest.to_string(),
            Digest::Invalid(text) => borrow_str(text).to_owned(),
        }
    }
}

/// A digest is written in base 32 with the letters from A to Z and then the digits from 2 to 7, the most
/// significant place first: 32 of them make a digest, and nothing else does.
pub proof fn law_digest_alphabet(text: Seq<char>, v: nat)
    ensures
        v < 26 ==> base32_char(v) as int == 0x41 + v,
        26 <= v < 32 ==> base32_char(v) as int == 0x32 + (v - 26),
        is_digest_text(text) <==> text.len() == 32 && forall|i: int|
            0 <= i < text.len() ==> ({
                let code = #[trigger] text[i] as int;
                0x41 <= code <= 0x5a || 0x32 <= code <= 0x37
            }),
{
    if forall|i: int|
        0 <= i < text.len() ==> ({
            let code = #[trigger] text[i] as int;
            0x41 <= code <= 0x5a || 0x32 <= code <= 0x37
        }) {
        assert forall|i: int| 0 <= i < text.len() implies base32_value(#[trigger] text[i]) is Some by {
            let code = text[i] as int;
            assert(0x41 <= code <= 0x5a || 0x32 <= code <= 0x37);
        }
    }
    if is_base32(text) {
        assert forall|i: int| 0 <= i < text.len() implies ({
            let code = #[trigger] text[i] as int;
            0x41 <= code <= 0x5a || 0x32 <= code <= 0x37
        }) by {
            assert(base32_value(text[i]) is Some);
        }
    }
}

/// A text that is no digest keeps its text, and one that is has its number, so that texts of digests in order
/// of their numbers differ: no two digests have the same text.
pub proof fn law_digest_texts_differ(a: Sha1Digest, b: Sha1Digest)
    requires
        digest_text(a@) == digest_text(b@),
    ensures
        a == b,
{
    law_digest_text_parses_back(a);
    law_digest_text_parses_back(b);
    lemma_digest_unique(a, b);
}

/// A text is a valid digest exactly if it is the text of one, and every other text is kept as it is.
pub proof fn law_digests_are_read(text: &str, parsed: Digest<'_>)
    requires
        call_ensures(Digest::<'_>::parse_str, (text,), parsed),
    ensures
        parsed is Valid <==> is_digest_text(text@),
        parsed matches Digest::Valid(digest) ==> digest_text(digest@) == text@,
        parsed matches Digest::Invalid(kept) ==> kept@ == text@,
{
}

/// The digest of data is its SHA-1, read as a number with the most significant byte first.
pub proof fn law_digests_are_sha1(data: &[u8], digest: Sha1Digest)
    requires
        call_ensures(Sha1Digest::compute, (data,), digest),
    ensures
        digest@ == numeral::value(sha1_of(data@).map_values(|b: u8| b as nat), 256),
{
    assert(byte_digits(sha1_of(data@)) =~= sha1_of(data@).map_values(|b: u8| b as nat));
}

/// Digests come in the order of their numbers.
pub proof fn law_digests_are_ordered(a: &Sha1Digest, b: &Sha1Digest, before: bool)
    requires
        call_ensures(Sha1Digest::is_before, (a, b), before),
    ensures
        before <==> a@ < b@,
        !before && a@ <= b@ ==> *a == *b,
{
    lemma_digest_unique(*a, *b);
}

} // verus!
