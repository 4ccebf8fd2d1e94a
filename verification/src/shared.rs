//! Cross-context primitive value objects.

use vstd::prelude::*;

use crate::order::{
    bytes_before, bytes_equal, lemma_lex_irreflexive, lemma_lex_total, lemma_lex_transitive,
    lex_before, Key,
};
use crate::text::{hex_of, hex_text};

verus! {

/// An identity is its Ed25519 public key. 32 opaque bytes at the domain level;
/// key material and signature checking live with the cryptography.
#[derive(Clone, Copy, PartialEq, Eq, PartialOrd, Ord, Hash, Debug)]
pub struct IdentityId([u8; 32]);

impl View for IdentityId {
    type V = Seq<u8>;

    closed spec fn view(&self) -> Seq<u8> {
        self.0@
    }
}

impl IdentityId {
    /// The bytes are all there is: equal bytes, equal values.
    pub proof fn lemma_view_injective(a: IdentityId, b: IdentityId)
        ensures
            a@.len() == 32,
            (a@ == b@) == (a == b),
    {
        if a@ == b@ {
            assert(a.0 =~= b.0);
        }
    }

    pub fn from_bytes(bytes: [u8; 32]) -> (r: IdentityId)
        ensures
            r@ == bytes@,
    {
        IdentityId(bytes)
    }

    pub fn as_bytes(&self) -> (r: &[u8; 32])
        ensures
            r@ == self@,
    {
        &self.0
    }

    /// Short hex prefix: enough to disambiguate in logs, not for security
    /// decisions.
    pub fn short_hex(&self) -> (r: String)
        ensures
            r@ == hex_text(self@.take(6)),
    {
        let head: [u8; 6] = [self.0[0], self.0[1], self.0[2], self.0[3], self.0[4], self.0[5]];
        assert(head@ =~= self@.take(6));
        hex_of(&head)
    }
}

impl Key for IdentityId {
    open spec fn before(self, other: Self) -> bool {
        lex_before(self@, other@)
    }

    proof fn lemma_irreflexive(a: Self) {
        lemma_lex_irreflexive(a@);
    }

    proof fn lemma_transitive(a: Self, b: Self, c: Self) {
        lemma_lex_transitive(a@, b@, c@);
    }

    proof fn lemma_total(a: Self, b: Self) {
        lemma_lex_total(a@, b@);
        IdentityId::lemma_view_injective(a, b);
    }

    fn is_before(&self, other: &Self) -> (r: bool) {
        bytes_before(&self.0, &other.0)
    }

    fn same(&self, other: &Self) -> (r: bool) {
        proof {
            IdentityId::lemma_view_injective(*self, *other);
        }
        bytes_equal(&self.0, &other.0)
    }
}

/// `32^n`.
pub open spec fn power_of_32(n: nat) -> int
    decreases n,
{
    if n == 0 {
        1
    } else {
        32 * power_of_32((n - 1) as nat)
    }
}

/// The big-endian value of five bytes: forty bits, eight base-32 digits.
pub open spec fn five_bytes(bytes: Seq<u8>, g: int) -> int {
    bytes[5 * g] * 0x1_0000_0000 + bytes[5 * g + 1] * 0x100_0000 + bytes[5 * g + 2] * 0x1_0000
        + bytes[5 * g + 3] * 0x100 + bytes[5 * g + 4]
}

/// Digit `k` of `bytes` written in base 32, most significant first.
pub open spec fn base32_digit(bytes: Seq<u8>, k: int) -> int {
    (five_bytes(bytes, k / 8) / power_of_32((7 - k % 8) as nat)) % 32
}

/// Where the text stands after `n` digits, with the dashes between groups of
/// four.
pub open spec fn rendered(n: int) -> int {
    if n == 0 {
        0
    } else {
        n + (n - 1) / 4
    }
}

/// Eight dash-separated groups of four Crockford base-32 digits.
pub open spec fn grouped_base32(bytes: Seq<u8>) -> Seq<char> {
    Seq::new(
        39,
        |i: int|
            if i % 5 == 4 {
                '-'
            } else {
                "0123456789abcdefghjkmnpqrstvwxyz"@[base32_digit(bytes, i - i / 5)]
            },
    )
}

/// A human-checkable digest of an identity key (BLAKE3 of the public key).
/// Rendered as eight groups of four Crockford-base32 characters for
/// out-of-band verification.
#[derive(Clone, Copy, PartialEq, Eq, PartialOrd, Ord, Hash, Debug)]
pub struct Fingerprint([u8; 32]);

impl View for Fingerprint {
    type V = Seq<u8>;

    closed spec fn view(&self) -> Seq<u8> {
        self.0@
    }
}

impl Fingerprint {
    /// The bytes are all there is: equal bytes, equal values.
    pub proof fn lemma_view_injective(a: Fingerprint, b: Fingerprint)
        ensures
            a@.len() == 32,
            (a@ == b@) == (a == b),
    {
        if a@ == b@ {
            assert(a.0 =~= b.0);
        }
    }

    pub fn from_bytes(bytes: [u8; 32]) -> (r: Fingerprint)
        ensures
            r@ == bytes@,
    {
        Fingerprint(bytes)
    }

    pub fn as_bytes(&self) -> (r: &[u8; 32])
        ensures
            r@ == self@,
    {
        &self.0
    }

    /// `xxxx-xxxx-xxxx-xxxx-xxxx-xxxx-xxxx-xxxx`: 32 base32 chars covering the
    /// first 160 bits of the digest.
    pub fn display_groups(&self) -> (r: String)
        ensures
            r@ == grouped_base32(self@),
    {
        let mut out = String::new();
        let mut emitted: usize = 0;
        while emitted < 32
            invariant
                emitted <= 32,
                out@ == grouped_base32(self@).take(rendered(emitted as int)),
            decreases 32 - emitted,
        {
            if emitted > 0 && emitted % 4 == 0 {
                out.push('-');
            }
            let digit: usize = self.digit(emitted);
            proof {
                reveal_strlit("0123456789abcdefghjkmnpqrstvwxyz");
                let g = grouped_base32(self@);
                let a = rendered(emitted as int);
                let b = rendered(emitted + 1);
                if emitted > 0 && emitted % 4 == 0 {
                    assert(g.take(b) =~= g.take(a).push(g[a]).push(g[a + 1]));
                } else {
                    assert(g.take(b) =~= g.take(a).push(g[a]));
                }
            }
            out.push("0123456789abcdefghjkmnpqrstvwxyz".get_char(digit));
            emitted = emitted + 1;
        }
        assert(grouped_base32(self@).take(rendered(32)) =~= grouped_base32(self@));
        out
    }

    /// The base-32 digit `k` of the digest's first 160 bits.
    fn digit(&self, k: usize) -> (d: usize)
        requires
            k < 32,
        ensures
            d == base32_digit(self@, k as int),
            d < 32,
    {
        let g: usize = 5 * (k / 8);
        let v: u64 = (self.0[g] as u64) * 0x1_0000_0000 + (self.0[g + 1] as u64) * 0x100_0000 + (
        self.0[g + 2] as u64) * 0x1_0000 + (self.0[g + 3] as u64) * 0x100 + (self.0[g + 4] as u64);
        let mut scale: u64 = 1;
        let mut left: usize = 7 - k % 8;
        let ghost n = 7 - k % 8;
        proof {
            reveal_with_fuel(power_of_32, 9);
        }
        while left > 0
            invariant
                left <= n <= 7,
                scale == power_of_32((n - left) as nat),
                scale <= power_of_32(7),
                power_of_32(7) == 0x8_0000_0000,
            decreases left,
        {
            proof {
                reveal_with_fuel(power_of_32, 9);
            }
            scale = scale * 32;
            left = left - 1;
        }
        assert(scale > 0);
        ((v / scale) % 32) as usize
    }
}

impl Key for Fingerprint {
    open spec fn before(self, other: Self) -> bool {
        lex_before(self@, other@)
    }

    proof fn lemma_irreflexive(a: Self) {
        lemma_lex_irreflexive(a@);
    }

    proof fn lemma_transitive(a: Self, b: Self, c: Self) {
        lemma_lex_transitive(a@, b@, c@);
    }

    proof fn lemma_total(a: Self, b: Self) {
        lemma_lex_total(a@, b@);
        Fingerprint::lemma_view_injective(a, b);
    }

    fn is_before(&self, other: &Self) -> (r: bool) {
        bytes_before(&self.0, &other.0)
    }

    fn same(&self, other: &Self) -> (r: bool) {
        proof {
            Fingerprint::lemma_view_injective(*self, *other);
        }
        bytes_equal(&self.0, &other.0)
    }
}

/// Lamport timestamp with a total order: `(counter, author)`.
/// Wall-clock hints are advisory only and never used for ordering.
#[derive(Debug, Clone, Copy, PartialEq, Eq, PartialOrd, Ord, Hash)]
pub struct LamportStamp {
    counter: u64,
    author: IdentityId,
}

impl LamportStamp {
    pub closed spec fn spec_counter(&self) -> u64 {
        self.counter
    }

    pub closed spec fn spec_author(&self) -> IdentityId {
        self.author
    }

    pub fn new(counter: u64, author: IdentityId) -> (r: LamportStamp)
        ensures
            r.spec_counter() == counter,
            r.spec_author() == author,
    {
        LamportStamp { counter, author }
    }

    pub fn counter(&self) -> (r: u64)
        ensures
            r == self.spec_counter(),
    {
        self.counter
    }

    pub fn author(&self) -> (r: IdentityId)
        ensures
            r == self.spec_author(),
    {
        self.author
    }

    /// The stamp a node assigns to its next event after having observed
    /// `observed_max`.
    pub fn next_after(observed_max: u64, author: IdentityId) -> (r: LamportStamp)
        ensures
            r.spec_counter() == if observed_max < u64::MAX {
                observed_max + 1
            } else {
                u64::MAX as int
            },
            r.spec_author() == author,
    {
        LamportStamp { counter: observed_max.saturating_add(1), author }
    }
}

impl Key for LamportStamp {
    /// By counter, then by author: a total order, so that concurrent events
    /// sort alike everywhere.
    open spec fn before(self, other: Self) -> bool {
        ||| self.spec_counter() < other.spec_counter()
        ||| (self.spec_counter() == other.spec_counter() && self.spec_author().before(
            other.spec_author(),
        ))
    }

    proof fn lemma_irreflexive(a: Self) {
        IdentityId::lemma_irreflexive(a.author);
    }

    proof fn lemma_transitive(a: Self, b: Self, c: Self) {
        if a.counter == b.counter && b.counter == c.counter {
            IdentityId::lemma_transitive(a.author, b.author, c.author);
        }
    }

    proof fn lemma_total(a: Self, b: Self) {
        IdentityId::lemma_total(a.author, b.author);
    }

    fn is_before(&self, other: &Self) -> (r: bool) {
        self.counter < other.counter || (self.counter == other.counter && self.author.is_before(
            &other.author,
        ))
    }

    fn same(&self, other: &Self) -> (r: bool) {
        self.counter == other.counter && self.author.same(&other.author)
    }
}

/// An Ed25519 signature over canonical wire bytes. Opaque to the domain.
#[derive(Clone, Copy, PartialEq, Eq, Debug)]
pub struct Signature([u8; 64]);

impl View for Signature {
    type V = Seq<u8>;

    closed spec fn view(&self) -> Seq<u8> {
        self.0@
    }
}

impl Signature {
    /// The bytes are all there is: equal bytes, equal values.
    pub proof fn lemma_view_injective(a: Signature, b: Signature)
        ensures
            a@.len() == 64,
            (a@ == b@) == (a == b),
    {
        if a@ == b@ {
            assert(a.0 =~= b.0);
        }
    }

    pub fn from_bytes(bytes: [u8; 64]) -> (r: Signature)
        ensures
            r@ == bytes@,
    {
        Signature(bytes)
    }

    pub fn as_bytes(&self) -> (r: &[u8; 64])
        ensures
            r@ == self@,
    {
        &self.0
    }
}

/// What a base-32 digit is worth.
pub open spec fn base32_worth(c: char) -> int {
    let n = c as int;
    if n <= '9' as int {
        n - '0' as int
    } else if n <= 'h' as int {
        n - 'a' as int + 10
    } else if n <= 'k' as int {
        n - 'j' as int + 18
    } else if n <= 'n' as int {
        n - 'm' as int + 20
    } else if n <= 't' as int {
        n - 'p' as int + 22
    } else {
        n - 'v' as int + 27
    }
}

/// Every base-32 digit has a character of its own.
proof fn lemma_base32_alphabet(p: int)
    requires
        0 <= p < 32,
    ensures
        base32_worth("0123456789abcdefghjkmnpqrstvwxyz"@[p]) == p,
{
    reveal_strlit("0123456789abcdefghjkmnpqrstvwxyz");
    if p < 8 {
        assert(p == 0 || p == 1 || p == 2 || p == 3 || p == 4 || p == 5 || p == 6 || p == 7);
    } else if p < 16 {
        assert(p == 8 || p == 9 || p == 10 || p == 11 || p == 12 || p == 13 || p == 14 || p == 15);
    } else if p < 24 {
        assert(p == 16 || p == 17 || p == 18 || p == 19 || p == 20 || p == 21 || p == 22 || p
            == 23);
    } else {
        assert(p == 24 || p == 25 || p == 26 || p == 27 || p == 28 || p == 29 || p == 30 || p
            == 31);
    }
}

/// Dividing by 32 once more.
proof fn lemma_base32_step(x: int, y: int, d: int)
    requires
        d > 0,
        (x / d) / 32 == (y / d) / 32,
        (x / d) % 32 == (y / d) % 32,
    ensures
        x / d == y / d,
{
}

/// Forty bits are known by their eight digits.
proof fn lemma_forty_bits(x: int, y: int)
    requires
        0 <= x < 0x100_0000_0000,
        0 <= y < 0x100_0000_0000,
        (x / 0x8_0000_0000) % 32 == (y / 0x8_0000_0000) % 32,
        (x / 0x4000_0000) % 32 == (y / 0x4000_0000) % 32,
        (x / 0x200_0000) % 32 == (y / 0x200_0000) % 32,
        (x / 0x10_0000) % 32 == (y / 0x10_0000) % 32,
        (x / 0x8000) % 32 == (y / 0x8000) % 32,
        (x / 0x400) % 32 == (y / 0x400) % 32,
        (x / 0x20) % 32 == (y / 0x20) % 32,
        x % 32 == y % 32,
    ensures
        x == y,
{
    assert(x / 0x8_0000_0000 == y / 0x8_0000_0000);
    assert((x / 0x4000_0000) / 32 == x / 0x8_0000_0000);
    assert((y / 0x4000_0000) / 32 == y / 0x8_0000_0000);
    lemma_base32_step(x, y, 0x4000_0000);
    assert((x / 0x200_0000) / 32 == x / 0x4000_0000);
    assert((y / 0x200_0000) / 32 == y / 0x4000_0000);
    lemma_base32_step(x, y, 0x200_0000);
    assert((x / 0x10_0000) / 32 == x / 0x200_0000);
    assert((y / 0x10_0000) / 32 == y / 0x200_0000);
    lemma_base32_step(x, y, 0x10_0000);
    assert((x / 0x8000) / 32 == x / 0x10_0000);
    assert((y / 0x8000) / 32 == y / 0x10_0000);
    lemma_base32_step(x, y, 0x8000);
    assert((x / 0x400) / 32 == x / 0x8000);
    assert((y / 0x400) / 32 == y / 0x8000);
    lemma_base32_step(x, y, 0x400);
    assert((x / 0x20) / 32 == x / 0x400);
    assert((y / 0x20) / 32 == y / 0x400);
    lemma_base32_step(x, y, 0x20);
}

/// Digit `n` of group `g`.
proof fn lemma_base32_digit(bytes: Seq<u8>, g: int, n: int)
    requires
        0 <= n < 8,
    ensures
        base32_digit(bytes, 8 * g + n) == (five_bytes(bytes, g) / power_of_32((7 - n) as nat)) % 32,
{
    assert((8 * g + n) / 8 == g);
    assert((8 * g + n) % 8 == n);
}

/// `32^n`, for one group.
proof fn lemma_powers_of_32()
    ensures
        power_of_32(0) == 1,
        power_of_32(1) == 0x20,
        power_of_32(2) == 0x400,
        power_of_32(3) == 0x8000,
        power_of_32(4) == 0x10_0000,
        power_of_32(5) == 0x200_0000,
        power_of_32(6) == 0x4000_0000,
        power_of_32(7) == 0x8_0000_0000,
{
    reveal_with_fuel(power_of_32, 8);
}

/// Five bytes are known by their eight digits.
proof fn lemma_base32_group(a: Seq<u8>, b: Seq<u8>, g: int)
    requires
        forall|n: int|
            0 <= n < 8 ==> base32_digit(a, 8 * g + n) == #[trigger] base32_digit(b, 8 * g + n),
    ensures
        five_bytes(a, g) == five_bytes(b, g),
{
    let x = five_bytes(a, g);
    let y = five_bytes(b, g);
    lemma_powers_of_32();
    assert forall|n: int| 0 <= n < 8 implies (x / #[trigger] power_of_32((7 - n) as nat)) % 32 == (y
        / power_of_32((7 - n) as nat)) % 32 by {
        lemma_base32_digit(a, g, n);
        lemma_base32_digit(b, g, n);
        assert(base32_digit(a, 8 * g + n) == base32_digit(b, 8 * g + n));
    }
    assert((x / power_of_32((7 - 0) as nat)) % 32 == (y / power_of_32((7 - 0) as nat)) % 32);
    assert((x / power_of_32((7 - 1) as nat)) % 32 == (y / power_of_32((7 - 1) as nat)) % 32);
    assert((x / power_of_32((7 - 2) as nat)) % 32 == (y / power_of_32((7 - 2) as nat)) % 32);
    assert((x / power_of_32((7 - 3) as nat)) % 32 == (y / power_of_32((7 - 3) as nat)) % 32);
    assert((x / power_of_32((7 - 4) as nat)) % 32 == (y / power_of_32((7 - 4) as nat)) % 32);
    assert((x / power_of_32((7 - 5) as nat)) % 32 == (y / power_of_32((7 - 5) as nat)) % 32);
    assert((x / power_of_32((7 - 6) as nat)) % 32 == (y / power_of_32((7 - 6) as nat)) % 32);
    assert((x / power_of_32((7 - 7) as nat)) % 32 == (y / power_of_32((7 - 7) as nat)) % 32);
    lemma_forty_bits(x, y);
}

/// Fingerprints that read alike are alike in the twenty bytes that are shown: somebody who
/// compares what they read compares the digests.
pub proof fn law_fingerprints_read_alike_only_if_alike(a: Seq<u8>, b: Seq<u8>, i: int)
    requires
        a.len() == 32,
        b.len() == 32,
        grouped_base32(a) == grouped_base32(b),
        0 <= i < 20,
    ensures
        a[i] == b[i],
{
    let g = i / 5;
    assert forall|n: int| 0 <= n < 8 implies base32_digit(a, 8 * g + n)
        == #[trigger] base32_digit(b, 8 * g + n) by {
        let k = 8 * g + n;
        let at = k + k / 4;
        assert(at % 5 != 4 && at - at / 5 == k);
        assert(0 <= at < 39);
        let alphabet = "0123456789abcdefghjkmnpqrstvwxyz"@;
        assert(grouped_base32(a)[at] == alphabet[base32_digit(a, k)]);
        assert(grouped_base32(b)[at] == alphabet[base32_digit(b, k)]);
        lemma_base32_alphabet(base32_digit(a, k));
        lemma_base32_alphabet(base32_digit(b, k));
    }
    lemma_base32_group(a, b, g);
    assert(i == 5 * g || i == 5 * g + 1 || i == 5 * g + 2 || i == 5 * g + 3 || i == 5 * g + 4);
}

/// A fingerprint reads as eight groups of four characters, with dashes between them.
pub proof fn law_fingerprints_are_grouped(bytes: Seq<u8>, i: int)
    requires
        bytes.len() == 32,
        0 <= i < 39,
    ensures
        grouped_base32(bytes).len() == 39,
        grouped_base32(bytes)[i] == '-' <==> i % 5 == 4,
{
    if i % 5 != 4 {
        lemma_base32_alphabet(base32_digit(bytes, i - i / 5));
    }
}

} // verus!
