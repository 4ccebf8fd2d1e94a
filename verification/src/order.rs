//! Total orders on identifiers.
//!
//! Every identifier in the library is a number or a fixed block of bytes ordered
//! lexicographically, so that any two nodes walk the same collection in the
//! same order.

use vstd::prelude::*;

verus! {

/// `a` and `b` agree below `i`, and `i` is where `a` falls below `b`: either a
/// smaller byte, or `a` ends there and `b` goes on.
pub open spec fn falls_below_at(a: Seq<u8>, b: Seq<u8>, i: int) -> bool {
    &&& 0 <= i <= a.len()
    &&& i < b.len()
    &&& forall|j: int| 0 <= j < i ==> a[j] == b[j]
    &&& i < a.len() ==> a[i] < b[i]
}

/// The lexicographic order on byte strings.
pub open spec fn lex_before(a: Seq<u8>, b: Seq<u8>) -> bool {
    exists|i: int| falls_below_at(a, b, i)
}

pub proof fn lemma_lex_irreflexive(a: Seq<u8>)
    ensures
        !lex_before(a, a),
{
}

pub proof fn lemma_lex_transitive(a: Seq<u8>, b: Seq<u8>, c: Seq<u8>)
    requires
        lex_before(a, b),
        lex_before(b, c),
    ensures
        lex_before(a, c),
{
    let i = choose|i: int| falls_below_at(a, b, i);
    let j = choose|j: int| falls_below_at(b, c, j);
    if i <= j {
        assert(falls_below_at(a, c, i));
    } else {
        assert(falls_below_at(a, c, j));
    }
}

/// The length of the longest common prefix of `a` and `b`.
pub open spec fn common_prefix(a: Seq<u8>, b: Seq<u8>) -> nat
    decreases a.len(),
{
    if a.len() > 0 && b.len() > 0 && a[0] == b[0] {
        1 + common_prefix(a.drop_first(), b.drop_first())
    } else {
        0
    }
}

proof fn lemma_common_prefix(a: Seq<u8>, b: Seq<u8>)
    ensures
        common_prefix(a, b) <= a.len(),
        common_prefix(a, b) <= b.len(),
        forall|j: int| 0 <= j < common_prefix(a, b) ==> a[j] == b[j],
        common_prefix(a, b) < a.len() && common_prefix(a, b) < b.len()
            ==> a[common_prefix(a, b) as int] != b[common_prefix(a, b) as int],
    decreases a.len(),
{
    if a.len() > 0 && b.len() > 0 && a[0] == b[0] {
        lemma_common_prefix(a.drop_first(), b.drop_first());
        let n = common_prefix(a.drop_first(), b.drop_first());
        assert forall|j: int| 0 <= j < n + 1 implies a[j] == b[j] by {
            if j > 0 {
                assert(a.drop_first()[j - 1] == b.drop_first()[j - 1]);
            }
        }
    }
}

pub proof fn lemma_lex_total(a: Seq<u8>, b: Seq<u8>)
    ensures
        lex_before(a, b) || lex_before(b, a) || a == b,
{
    lemma_common_prefix(a, b);
    let n = common_prefix(a, b) as int;
    if n == a.len() && n == b.len() {
        assert(a =~= b);
    } else if n == a.len() || (n < b.len() && a[n] < b[n]) {
        assert(falls_below_at(a, b, n));
    } else {
        assert(falls_below_at(b, a, n));
    }
}

/// Whether `a` comes before `b` in the lexicographic order.
pub fn bytes_before(a: &[u8], b: &[u8]) -> (r: bool)
    ensures
        r == lex_before(a@, b@),
{
    let mut i: usize = 0;
    while i < a.len() && i < b.len()
        invariant
            0 <= i <= a@.len(),
            i <= b@.len(),
            forall|j: int| 0 <= j < i ==> a@[j] == b@[j],
        decreases a@.len() - i,
    {
        if a[i] < b[i] {
            assert(falls_below_at(a@, b@, i as int));
            return true;
        }
        if b[i] < a[i] {
            return false;
        }
        i = i + 1;
    }
    proof {
        if i < b@.len() {
            assert(falls_below_at(a@, b@, i as int));
        }
    }
    i < b.len()
}

/// Whether two byte strings are equal.
pub fn bytes_equal(a: &[u8], b: &[u8]) -> (r: bool)
    ensures
        r == (a@ == b@),
{
    if a.len() != b.len() {
        return false;
    }
    let mut i: usize = 0;
    while i < a.len()
        invariant
            0 <= i <= a@.len(),
            a@.len() == b@.len(),
            forall|j: int| 0 <= j < i ==> a@[j] == b@[j],
        decreases a@.len() - i,
    {
        if a[i] != b[i] {
            return false;
        }
        i = i + 1;
    }
    assert(a@ =~= b@);
    true
}

/// A value that collections can be sorted by: a strict total order whose
/// equality is that of the values themselves.
pub trait Key: Sized + Copy {
    /// Strictly before.
    spec fn before(self, other: Self) -> bool;

    proof fn lemma_irreflexive(a: Self)
        ensures
            !a.before(a),
    ;

    proof fn lemma_transitive(a: Self, b: Self, c: Self)
        requires
            a.before(b),
            b.before(c),
        ensures
            a.before(c),
    ;

    proof fn lemma_total(a: Self, b: Self)
        ensures
            a.before(b) || b.before(a) || a == b,
    ;

    fn is_before(&self, other: &Self) -> (r: bool)
        ensures
            r == self.before(*other),
    ;

    fn same(&self, other: &Self) -> (r: bool)
        ensures
            r == (*self == *other),
    ;
}

impl Key for u64 {
    open spec fn before(self, other: Self) -> bool {
        self < other
    }

    proof fn lemma_irreflexive(a: Self) {
    }

    proof fn lemma_transitive(a: Self, b: Self, c: Self) {
    }

    proof fn lemma_total(a: Self, b: Self) {
    }

    fn is_before(&self, other: &Self) -> (r: bool) {
        *self < *other
    }

    fn same(&self, other: &Self) -> (r: bool) {
        *self == *other
    }
}

impl Key for u32 {
    open spec fn before(self, other: Self) -> bool {
        self < other
    }

    proof fn lemma_irreflexive(a: Self) {
    }

    proof fn lemma_transitive(a: Self, b: Self, c: Self) {
    }

    proof fn lemma_total(a: Self, b: Self) {
    }

    fn is_before(&self, other: &Self) -> (r: bool) {
        *self < *other
    }

    fn same(&self, other: &Self) -> (r: bool) {
        *self == *other
    }
}

} // verus!
