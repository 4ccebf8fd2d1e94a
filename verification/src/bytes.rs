//! Numbers as bytes, in either order.

use vstd::prelude::*;

verus! {

pub open spec fn pow256(n: nat) -> nat
    decreases n,
{
    if n == 0 {
        1
    } else {
        256 * pow256((n - 1) as nat)
    }
}

/// The `n` lowest bytes of `x`, the lowest first.
pub open spec fn little_endian(x: nat, n: nat) -> Seq<u8>
    decreases n,
{
    if n == 0 {
        seq![]
    } else {
        seq![(x % 256) as u8] + little_endian(x / 256, (n - 1) as nat)
    }
}

/// The `n` lowest bytes of `x`, the lowest last.
pub open spec fn big_endian(x: nat, n: nat) -> Seq<u8>
    decreases n,
{
    if n == 0 {
        seq![]
    } else {
        big_endian(x / 256, (n - 1) as nat).push((x % 256) as u8)
    }
}

/// The number that bytes stand for, the lowest last.
pub open spec fn big_endian_value(s: Seq<u8>) -> nat
    decreases s.len(),
{
    if s.len() == 0 {
        0
    } else {
        256 * big_endian_value(s.drop_last()) + s.last() as nat
    }
}

pub proof fn lemma_lens(x: nat, n: nat)
    ensures
        little_endian(x, n).len() == n,
        big_endian(x, n).len() == n,
    decreases n,
{
    if n > 0 {
        lemma_lens(x / 256, (n - 1) as nat);
    }
}

/// Different numbers have different bytes.
pub proof fn lemma_little_endian_injective(x: nat, y: nat, n: nat)
    requires
        x < pow256(n),
        y < pow256(n),
        little_endian(x, n) == little_endian(y, n),
    ensures
        x == y,
    decreases n,
{
    if n > 0 {
        let m = (n - 1) as nat;
        lemma_lens(x / 256, m);
        lemma_lens(y / 256, m);
        let a = little_endian(x, n);
        let b = little_endian(y, n);
        assert(a[0] == b[0]);
        assert(a.drop_first() =~= little_endian(x / 256, m));
        assert(b.drop_first() =~= little_endian(y / 256, m));
        lemma_little_endian_injective(x / 256, y / 256, m);
    }
}

/// Reading the bytes of a number gives the number back.
pub proof fn lemma_big_endian_reads_back(x: nat, n: nat)
    requires
        x < pow256(n),
    ensures
        big_endian_value(big_endian(x, n)) == x,
    decreases n,
{
    if n > 0 {
        let m = (n - 1) as nat;
        lemma_big_endian_reads_back(x / 256, m);
        assert(big_endian(x, n).drop_last() =~= big_endian(x / 256, m));
    }
}

/// What `n` bytes stand for has those bytes.
pub proof fn lemma_big_endian_writes_back(s: Seq<u8>)
    ensures
        big_endian(big_endian_value(s), s.len()) == s,
        big_endian_value(s) < pow256(s.len()),
    decreases s.len(),
{
    if s.len() > 0 {
        lemma_big_endian_writes_back(s.drop_last());
        let v = big_endian_value(s);
        assert(v / 256 == big_endian_value(s.drop_last()));
        assert(v % 256 == s.last() as nat);
        assert(s.drop_last().push(s.last()) =~= s);
    }
}

pub proof fn lemma_pow256_monotone(m: nat, n: nat)
    requires
        m <= n,
    ensures
        pow256(m) <= pow256(n),
    decreases n,
{
    if m < n {
        lemma_pow256_monotone(m, (n - 1) as nat);
    }
}

pub proof fn lemma_pow256_values()
    ensures
        pow256(1) == 0x100,
        pow256(2) == 0x1_0000,
        pow256(4) == 0x1_0000_0000,
        pow256(8) == 0x1_0000_0000_0000_0000,
{
    reveal_with_fuel(pow256, 9);
}

/// Appends the `n` lowest bytes of `x`, the lowest first.
pub fn push_little_endian(out: &mut Vec<u8>, x: u64, n: usize)
    ensures
        final(out)@ == old(out)@ + little_endian(x as nat, n as nat),
    decreases n,
{
    if n > 0 {
        out.push((x % 256) as u8);
        let ghost before = out@;
        push_little_endian(out, x / 256, n - 1);
        assert(out@ =~= old(out)@ + little_endian(x as nat, n as nat));
    } else {
        assert(out@ =~= old(out)@ + Seq::<u8>::empty());
    }
}

/// Appends the `n` lowest bytes of `x`, the lowest last.
pub fn push_big_endian(out: &mut Vec<u8>, x: u64, n: usize)
    ensures
        final(out)@ == old(out)@ + big_endian(x as nat, n as nat),
    decreases n,
{
    if n > 0 {
        push_big_endian(out, x / 256, n - 1);
        out.push((x % 256) as u8);
        assert(out@ =~= old(out)@ + big_endian(x as nat, n as nat));
    } else {
        assert(out@ =~= old(out)@ + Seq::<u8>::empty());
    }
}

/// The number that `n` bytes from `from` on stand for, the lowest last.
pub fn read_big_endian(bytes: &[u8], from: usize, n: usize) -> (r: u64)
    requires
        n <= 8,
        from + n <= bytes@.len(),
    ensures
        r == big_endian_value(bytes@.subrange(from as int, from + n)),
        r < pow256(n as nat),
{
    let total: usize = bytes.len();
    let mut acc: u64 = 0;
    let mut i: usize = 0;
    let ghost all = bytes@;
    assert(all.subrange(from as int, from as int) =~= Seq::<u8>::empty());
    while i < n
        invariant
            i <= n <= 8,
            from + n <= total == bytes@.len(),
            all == bytes@,
            acc == big_endian_value(all.subrange(from as int, from + i)),
            acc < pow256(i as nat),
        decreases n - i,
    {
        let b: u8 = bytes[from + i];
        proof {
            lemma_pow256_monotone((i + 1) as nat, 8);
            lemma_pow256_values();
            assert(all.subrange(from as int, from + i + 1).drop_last() =~= all.subrange(
                from as int,
                from + i,
            ));
            assert(all.subrange(from as int, from + i + 1).last() == b);
        }
        acc = acc * 256 + b as u64;
        i = i + 1;
    }
    acc
}

/// Appends `more`.
pub fn append_bytes(out: &mut Vec<u8>, more: &[u8])
    ensures
        final(out)@ == old(out)@ + more@,
{
    let mut i: usize = 0;
    assert(old(out)@ + more@.take(0) =~= old(out)@);
    while i < more.len()
        invariant
            i <= more@.len(),
            out@ == old(out)@ + more@.take(i as int),
        decreases more@.len() - i,
    {
        out.push(more[i]);
        assert(out@ =~= old(out)@ + more@.take(i + 1));
        i = i + 1;
    }
    assert(more@.take(i as int) =~= more@);
}

/// A copy of the bytes.
pub fn copy_bytes(bytes: &[u8]) -> (r: Vec<u8>)
    ensures
        r@ == bytes@,
{
    let mut r: Vec<u8> = Vec::new();
    append_bytes(&mut r, bytes);
    assert(r@ =~= bytes@);
    r
}

/// The bytes from `from` up to `to`.
pub fn bytes_between(bytes: &[u8], from: usize, to: usize) -> (r: Vec<u8>)
    requires
        from <= to <= bytes@.len(),
    ensures
        r@ == bytes@.subrange(from as int, to as int),
{
    let mut r: Vec<u8> = Vec::new();
    let mut i: usize = from;
    while i < to
        invariant
            from <= i <= to <= bytes@.len(),
            r@ == bytes@.subrange(from as int, i as int),
        decreases to - i,
    {
        r.push(bytes[i]);
        assert(bytes@.subrange(from as int, i + 1) =~= bytes@.subrange(from as int, i as int).push(
            bytes@[i as int],
        ));
        i = i + 1;
    }
    r
}

/// The bytes as an array, if there are as many as it takes.
pub fn array_of<const N: usize>(bytes: &[u8]) -> (r: Option<[u8; N]>)
    ensures
        match r {
            Some(a) => bytes@.len() == N && a@ == bytes@,
            None => bytes@.len() != N,
        },
{
    if bytes.len() != N {
        return None;
    }
    let mut a: [u8; N] = [0;N];
    let mut i: usize = 0;
    while i < N
        invariant
            i <= N,
            bytes@.len() == N,
            forall|j: int| 0 <= j < i ==> #[trigger] a@[j] == bytes@[j],
        decreases N - i,
    {
        a[i] = bytes[i];
        i = i + 1;
    }
    assert(a@ =~= bytes@);
    Some(a)
}

} // verus!
