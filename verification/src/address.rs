//! Fixed-width addresses and the canonical (lexicographic) total order the
//! compiler sorts them by.

use vstd::prelude::*;

verus! {

broadcast use vstd::array::group_array_axioms;

/// Fixed-width identifier of an account or a program.
#[derive(Clone, Copy, Debug, PartialEq, Eq, Hash)]
pub struct Address {
    pub bytes: [u8; 32],
}

impl Address {
    /// Wraps raw bytes as an address.
    pub fn new(bytes: [u8; 32]) -> (r: Address)
        ensures
            r.bytes == bytes,
    {
        Address { bytes }
    }
}

/// Strict lexicographic order on byte sequences.
pub open spec fn lex_lt_bytes(a: Seq<u8>, b: Seq<u8>) -> bool
    decreases a.len(),
{
    if a.len() == 0 {
        b.len() > 0
    } else if b.len() == 0 {
        false
    } else if a[0] < b[0] {
        true
    } else if b[0] < a[0] {
        false
    } else {
        lex_lt_bytes(a.drop_first(), b.drop_first())
    }
}

/// The canonical order on addresses: lexicographic on their raw bytes.
pub open spec fn addr_lt(a: Address, b: Address) -> bool {
    lex_lt_bytes(a.bytes@, b.bytes@)
}

/// Lexicographic order is irreflexive.
pub proof fn lemma_lex_irrefl(a: Seq<u8>)
    ensures
        !lex_lt_bytes(a, a),
    decreases a.len(),
{
    if a.len() > 0 {
        lemma_lex_irrefl(a.drop_first());
    }
}

/// Equal-length sequences compare equal, below, or above: exactly one holds.
pub proof fn lemma_lex_trichotomy(a: Seq<u8>, b: Seq<u8>)
    requires
        a.len() == b.len(),
    ensures
        lex_lt_bytes(a, b) || lex_lt_bytes(b, a) || a =~= b,
        lex_lt_bytes(a, b) ==> !lex_lt_bytes(b, a) && a != b,
        lex_lt_bytes(b, a) ==> !lex_lt_bytes(a, b) && a != b,
    decreases a.len(),
{
    if a.len() > 0 {
        lemma_lex_trichotomy(a.drop_first(), b.drop_first());
        if a[0] == b[0] && a.drop_first() =~= b.drop_first() {
            assert forall|i: int| 0 <= i < a.len() implies a[i] == b[i] by {
                if i > 0 {
                    assert(a[i] == a.drop_first()[i - 1]);
                    assert(b[i] == b.drop_first()[i - 1]);
                }
            }
            assert(a =~= b);
        }
        lemma_lex_irrefl(a);
    }
}

/// Lexicographic order is transitive on equal-length sequences.
pub proof fn lemma_lex_trans(a: Seq<u8>, b: Seq<u8>, c: Seq<u8>)
    requires
        a.len() == b.len(),
        b.len() == c.len(),
        lex_lt_bytes(a, b),
        lex_lt_bytes(b, c),
    ensures
        lex_lt_bytes(a, c),
    decreases a.len(),
{
    if a.len() > 0 && a[0] == b[0] && b[0] == c[0] {
        lemma_lex_trans(a.drop_first(), b.drop_first(), c.drop_first());
    }
}

/// A shared prefix followed by a smaller byte decides the lexicographic order.
pub proof fn lemma_lex_from_prefix(a: Seq<u8>, b: Seq<u8>, i: int)
    requires
        a.len() == b.len(),
        0 <= i < a.len(),
        forall|j: int| 0 <= j < i ==> a[j] == b[j],
        a[i] < b[i],
    ensures
        lex_lt_bytes(a, b),
    decreases i,
{
    if i > 0 {
        lemma_lex_from_prefix(a.drop_first(), b.drop_first(), i - 1);
    }
}

/// Canonical order on addresses, as a total order.
pub proof fn lemma_addr_order(a: Address, b: Address, c: Address)
    ensures
        addr_lt(a, b) || addr_lt(b, a) || a == b,
        addr_lt(a, b) ==> !addr_lt(b, a) && a != b,
        addr_lt(a, b) && addr_lt(b, c) ==> addr_lt(a, c),
        !addr_lt(a, a),
{
    lemma_lex_trichotomy(a.bytes@, b.bytes@);
    if a.bytes@ =~= b.bytes@ {
        assert(a.bytes =~= b.bytes);
    }
    if addr_lt(a, b) && addr_lt(b, c) {
        lemma_lex_trans(a.bytes@, b.bytes@, c.bytes@);
    }
    lemma_lex_irrefl(a.bytes@);
}

/// Three-way comparison of two addresses in the canonical order:
/// `-1` for below, `0` for equal, `1` for above.
pub fn addr_cmp(a: &Address, b: &Address) -> (r: i8)
    ensures
        r == -1i8 || r == 0i8 || r == 1i8,
        (r == -1i8) <==> addr_lt(*a, *b),
        (r == 0i8) <==> *a == *b,
        (r == 1i8) <==> addr_lt(*b, *a),
{
    for i in 0..32usize
        invariant
            forall|j: int| 0 <= j < i ==> a.bytes@[j] == b.bytes@[j],
    {
        if a.bytes[i] < b.bytes[i] {
            proof {
                lemma_lex_from_prefix(a.bytes@, b.bytes@, i as int);
                lemma_addr_order(*a, *b, *b);
            }
            return -1;
        }
        if b.bytes[i] < a.bytes[i] {
            proof {
                lemma_lex_from_prefix(b.bytes@, a.bytes@, i as int);
                lemma_addr_order(*a, *b, *b);
            }
            return 1;
        }
    }
    proof {
        assert(a.bytes =~= b.bytes);
        lemma_addr_order(*a, *b, *b);
    }
    0
}

/// Whether two addresses are equal.
pub fn addr_eq(a: &Address, b: &Address) -> (r: bool)
    ensures
        r <==> *a == *b,
{
    addr_cmp(a, b) == 0
}

/// Position of the first occurrence of `needle` in `haystack`, if any.
pub fn find_address(haystack: &Vec<Address>, needle: &Address) -> (r: Option<usize>)
    ensures
        r matches Some(k) ==> haystack@.index_of_first(*needle) == Some(k as int),
        r is None ==> haystack@.index_of_first(*needle) is None,
{
    for k in 0..haystack.len()
        invariant
            forall|j: int| 0 <= j < k ==> haystack@[j] != *needle,
    {
        if addr_eq(&haystack[k], needle) {
            proof {
                haystack@.index_of_first_ensures(*needle);
            }
            return Some(k);
        }
    }
    proof {
        haystack@.index_of_first_ensures(*needle);
        match haystack@.index_of_first(*needle) {
            Option::Some(idx) => {
                assert(haystack@[idx] == *needle);
            },
            Option::None => {},
        }
    }
    None
}

} // verus!
