//! Byte strings: prefixes and the lexicographic order on keys.
use vstd::prelude::*;

verus! {

/// `p` is a prefix of `s`.
pub open spec fn is_prefix_of(p: Seq<u8>, s: Seq<u8>) -> bool {
    p.len() <= s.len() && forall|i: int| 0 <= i < p.len() ==> p[i] == s[i]
}

/// `a` and `b` agree below `i`, and at `i` the byte of `a` is smaller.
pub open spec fn differs_below_at(a: Seq<u8>, b: Seq<u8>, i: int) -> bool {
    &&& 0 <= i < a.len()
    &&& i < b.len()
    &&& a[i] < b[i]
    &&& forall|j: int| 0 <= j < i ==> a[j] == b[j]
}

/// Strict lexicographic order on byte strings.
pub open spec fn lex_lt(a: Seq<u8>, b: Seq<u8>) -> bool {
    (is_prefix_of(a, b) && a.len() < b.len()) || exists|i: int| differs_below_at(a, b, i)
}

pub proof fn lemma_lex_irreflexive(a: Seq<u8>)
    ensures
        !lex_lt(a, a),
{
}

pub proof fn lemma_lex_transitive(a: Seq<u8>, b: Seq<u8>, c: Seq<u8>)
    requires
        lex_lt(a, b),
        lex_lt(b, c),
    ensures
        lex_lt(a, c),
{
    if is_prefix_of(a, b) && a.len() < b.len() {
        if is_prefix_of(b, c) && b.len() < c.len() {
            assert(is_prefix_of(a, c));
        } else {
            let j = choose|j: int| differs_below_at(b, c, j);
            if j < a.len() {
                assert(differs_below_at(a, c, j));
            } else {
                assert(is_prefix_of(a, c));
            }
        }
    } else {
        let i = choose|i: int| differs_below_at(a, b, i);
        if is_prefix_of(b, c) && b.len() < c.len() {
            assert(differs_below_at(a, c, i));
        } else {
            let j = choose|j: int| differs_below_at(b, c, j);
            if i < j {
                assert(differs_below_at(a, c, i));
            } else if j < i {
                assert(differs_below_at(a, c, j));
            } else {
                assert(differs_below_at(a, c, i));
            }
        }
    }
}

pub proof fn lemma_lex_asymmetric(a: Seq<u8>, b: Seq<u8>)
    requires
        lex_lt(a, b),
    ensures
        !lex_lt(b, a),
{
    if lex_lt(b, a) {
        lemma_lex_transitive(a, b, a);
        lemma_lex_irreflexive(a);
    }
}

/// Byte strings are totally ordered.
pub proof fn lemma_lex_total(a: Seq<u8>, b: Seq<u8>)
    ensures
        a == b || lex_lt(a, b) || lex_lt(b, a),
{
    if !lex_lt(a, b) && !lex_lt(b, a) {
        assert forall|i: int| 0 <= i < a.len() && i < b.len() implies a[i] == b[i] by {
            if exists|j: int| 0 <= j < a.len() && j < b.len() && a[j] != b[j] {
                lemma_first_difference(a, b);
            }
        }
        if a.len() < b.len() {
            assert(is_prefix_of(a, b));
        } else if b.len() < a.len() {
            assert(is_prefix_of(b, a));
        } else {
            assert(a =~= b);
        }
    }
}

proof fn lemma_first_difference(a: Seq<u8>, b: Seq<u8>)
    requires
        exists|j: int| 0 <= j < a.len() && j < b.len() && a[j] != b[j],
    ensures
        lex_lt(a, b) || lex_lt(b, a),
    decreases a.len(),
{
    let j = choose|j: int| 0 <= j < a.len() && j < b.len() && a[j] != b[j];
    if a[0] != b[0] {
        if a[0] < b[0] {
            assert(differs_below_at(a, b, 0));
        } else {
            assert(differs_below_at(b, a, 0));
        }
    } else {
        let a1 = a.drop_first();
        let b1 = b.drop_first();
        assert(a1[j - 1] != b1[j - 1]);
        lemma_first_difference(a1, b1);
        if exists|i: int| differs_below_at(a1, b1, i) {
            let i = choose|i: int| differs_below_at(a1, b1, i);
            assert forall|k: int| 0 <= k < i + 1 implies a[k] == b[k] by {
                if k > 0 {
                    assert(a1[k - 1] == b1[k - 1]);
                }
            }
            assert(differs_below_at(a, b, i + 1));
        } else if exists|i: int| differs_below_at(b1, a1, i) {
            let i = choose|i: int| differs_below_at(b1, a1, i);
            assert forall|k: int| 0 <= k < i + 1 implies b[k] == a[k] by {
                if k > 0 {
                    assert(b1[k - 1] == a1[k - 1]);
                }
            }
            assert(differs_below_at(b, a, i + 1));
        } else if is_prefix_of(a1, b1) && a1.len() < b1.len() {
            assert(false);
        } else {
            assert(false);
        }
    }
}

/// Result of comparing two byte strings.
#[derive(PartialEq, Eq, Structural, Clone, Copy, Debug)]
pub enum KeyOrder {
    Less,
    Equal,
    Greater,
}

/// Compares two byte strings lexicographically.
pub fn compare_bytes(a: &[u8], b: &[u8]) -> (r: KeyOrder)
    ensures
        (r == KeyOrder::Less) <==> lex_lt(a@, b@),
        (r == KeyOrder::Equal) <==> a@ == b@,
        (r == KeyOrder::Greater) <==> lex_lt(b@, a@),
{
    let mut i: usize = 0;
    while i < a.len() && i < b.len() && a[i] == b[i]
        invariant
            i <= a@.len(),
            i <= b@.len(),
            forall|j: int| 0 <= j < i ==> a@[j] == b@[j],
        decreases a@.len() - i,
    {
        i += 1;
    }
    if i < a.len() && i < b.len() {
        if a[i] < b[i] {
            assert(differs_below_at(a@, b@, i as int));
            proof { lemma_lex_asymmetric(a@, b@); }
            KeyOrder::Less
        } else {
            assert(differs_below_at(b@, a@, i as int));
            proof { lemma_lex_asymmetric(b@, a@); }
            KeyOrder::Greater
        }
    } else if a.len() < b.len() {
        assert(is_prefix_of(a@, b@));
        proof { lemma_lex_asymmetric(a@, b@); }
        KeyOrder::Less
    } else if b.len() < a.len() {
        assert(is_prefix_of(b@, a@));
        proof { lemma_lex_asymmetric(b@, a@); }
        KeyOrder::Greater
    } else {
        assert(a@ =~= b@);
        proof { lemma_lex_irreflexive(a@); }
        KeyOrder::Equal
    }
}

/// Whether `s` starts with `p`.
pub fn starts_with(s: &[u8], p: &[u8]) -> (r: bool)
    ensures
        r == is_prefix_of(p@, s@),
{
    if p.len() > s.len() {
        return false;
    }
    let mut i: usize = 0;
    while i < p.len()
        invariant
            p@.len() <= s@.len(),
            i <= p@.len(),
            forall|j: int| 0 <= j < i ==> p@[j] == s@[j],
        decreases p@.len() - i,
    {
        if p[i] != s[i] {
            return false;
        }
        i += 1;
    }
    true
}

/// A copy of a byte vector.
pub fn copy_bytes(v: &[u8]) -> (r: Vec<u8>)
    ensures
        r@ == v@,
{
    let mut r: Vec<u8> = Vec::with_capacity(v.len());
    let mut i: usize = 0;
    while i < v.len()
        invariant
            i <= v@.len(),
            r@ == v@.take(i as int),
        decreases v@.len() - i,
    {
        r.push(v[i]);
        i += 1;
        assert(r@ =~= v@.take(i as int));
    }
    assert(r@ =~= v@);
    r
}

/// Appends `b` to a copy of `a`.
pub fn concat_bytes(a: &[u8], b: &[u8]) -> (r: Vec<u8>)
    ensures
        r@ == a@ + b@,
{
    let mut r = copy_bytes(a);
    let mut i: usize = 0;
    while i < b.len()
        invariant
            i <= b@.len(),
            r@ == a@ + b@.take(i as int),
        decreases b@.len() - i,
    {
        r.push(b[i]);
        i += 1;
        assert(r@ =~= a@ + b@.take(i as int));
    }
    assert(b@.take(b@.len() as int) =~= b@);
    r
}

/// The bytes of `s` from index `from` on.
pub fn bytes_from(s: &[u8], from: usize) -> (r: Vec<u8>)
    requires
        from <= s@.len(),
    ensures
        r@ == s@.subrange(from as int, s@.len() as int),
{
    let mut r: Vec<u8> = Vec::new();
    let mut i: usize = from;
    while i < s.len()
        invariant
            from <= i <= s@.len(),
            r@ == s@.subrange(from as int, i as int),
        decreases s@.len() - i,
    {
        r.push(s[i]);
        i += 1;
        assert(r@ =~= s@.subrange(from as int, i as int));
    }
    r
}

} // verus!
