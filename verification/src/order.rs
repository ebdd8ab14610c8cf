use vstd::prelude::*;

verus! {

/// Strict byte-wise lexicographic order on byte strings: the order the
/// archive directory is sorted in and the lookups rely on.
pub open spec fn lex_lt(a: Seq<u8>, b: Seq<u8>) -> bool
    decreases a.len(),
{
    if b.len() == 0 {
        false
    } else if a.len() == 0 {
        true
    } else if a[0] < b[0] {
        true
    } else if a[0] > b[0] {
        false
    } else {
        lex_lt(a.skip(1), b.skip(1))
    }
}

/// Non-strict byte-wise lexicographic order.
pub open spec fn lex_le(a: Seq<u8>, b: Seq<u8>) -> bool {
    lex_lt(a, b) || a == b
}

/// `p` is an initial run of `a`.
pub open spec fn is_prefix(p: Seq<u8>, a: Seq<u8>) -> bool {
    p.len() <= a.len() && a.subrange(0, p.len() as int) == p
}

pub proof fn lemma_lex_irreflexive(a: Seq<u8>)
    ensures
        !lex_lt(a, a),
    decreases a.len(),
{
    if a.len() > 0 {
        lemma_lex_irreflexive(a.skip(1));
    }
}

pub proof fn lemma_lex_total(a: Seq<u8>, b: Seq<u8>)
    ensures
        lex_lt(a, b) || lex_lt(b, a) || a == b,
    decreases a.len(),
{
    if a.len() == 0 && b.len() == 0 {
        assert(a =~= b);
    } else if a.len() > 0 && b.len() > 0 && a[0] == b[0] {
        lemma_lex_total(a.skip(1), b.skip(1));
        if a.skip(1) == b.skip(1) {
            assert(a.skip(1).len() == a.len() - 1);
            assert(b.skip(1).len() == b.len() - 1);
            assert(a.len() == b.len());
            assert forall|i: int| 0 <= i < a.len() implies a[i] == b[i] by {
                if i >= 1 {
                    assert(a.skip(1)[i - 1] == b.skip(1)[i - 1]);
                }
            }
            assert(a =~= b);
        }
    }
}

pub proof fn lemma_lex_transitive(a: Seq<u8>, b: Seq<u8>, c: Seq<u8>)
    requires
        lex_lt(a, b),
        lex_lt(b, c),
    ensures
        lex_lt(a, c),
    decreases a.len(),
{
    if a.len() == 0 {
        // b is nonempty, hence c is nonempty, hence lex_lt(a, c)
    } else {
        // b nonempty (else !lex_lt(a, b)), c nonempty (else !lex_lt(b, c))
        if a[0] == b[0] && b[0] == c[0] {
            lemma_lex_transitive(a.skip(1), b.skip(1), c.skip(1));
        }
    }
}

pub proof fn lemma_lex_asymmetric(a: Seq<u8>, b: Seq<u8>)
    requires
        lex_lt(a, b),
    ensures
        !lex_lt(b, a),
{
    if lex_lt(b, a) {
        lemma_lex_transitive(a, b, a);
        lemma_lex_irreflexive(a);
    }
}

/// Dropping an equal prefix from both strings does not change their order.
pub proof fn lemma_lex_skip(a: Seq<u8>, b: Seq<u8>, i: int)
    requires
        0 <= i <= a.len(),
        i <= b.len(),
        a.subrange(0, i) == b.subrange(0, i),
    ensures
        lex_lt(a, b) == lex_lt(a.skip(i), b.skip(i)),
    decreases i,
{
    if i == 0 {
        assert(a.skip(0) =~= a);
        assert(b.skip(0) =~= b);
    } else {
        assert(a.len() > 0 && b.len() > 0);
        assert(a[0] == b[0]) by {
            assert(a.subrange(0, i)[0] == a[0]);
            assert(b.subrange(0, i)[0] == b[0]);
        }
        assert(a.skip(1).subrange(0, i - 1) == b.skip(1).subrange(0, i - 1)) by {
            assert(a.skip(1).subrange(0, i - 1) =~= a.subrange(0, i).skip(1));
            assert(b.skip(1).subrange(0, i - 1) =~= b.subrange(0, i).skip(1));
        }
        lemma_lex_skip(a.skip(1), b.skip(1), i - 1);
        assert(a.skip(1).skip(i - 1) =~= a.skip(i));
        assert(b.skip(1).skip(i - 1) =~= b.skip(i));
    }
}

/// Two strings that continue a common prefix order by their first byte
/// after it.
pub proof fn lemma_lex_at_byte(p: Seq<u8>, a: Seq<u8>, b: Seq<u8>)
    requires
        is_prefix(p, a),
        is_prefix(p, b),
        a.len() > p.len(),
        b.len() > p.len(),
        a[p.len() as int] < b[p.len() as int],
    ensures
        lex_lt(a, b),
{
    let i = p.len() as int;
    lemma_lex_skip(a, b, i);
    assert(a.skip(i)[0] == a[i]);
    assert(b.skip(i)[0] == b[i]);
}

/// A string that is exactly a prefix of another sorts strictly before it.
pub proof fn lemma_lex_proper_prefix(p: Seq<u8>, b: Seq<u8>)
    requires
        is_prefix(p, b),
        p.len() < b.len(),
    ensures
        lex_lt(p, b),
{
    assert(p.subrange(0, p.len() as int) =~= p);
    lemma_lex_skip(p, b, p.len() as int);
    assert(p.skip(p.len() as int).len() == 0);
    assert(b.skip(p.len() as int).len() > 0);
}

/// Three-way byte-wise lexicographic comparison of two byte strings.
/// Returns -1, 0 or 1 for less, equal, greater.
pub fn lex_cmp(a: &[u8], b: &[u8]) -> (r: i32)
    ensures
        r == -1 || r == 0 || r == 1,
        (r == -1) <==> lex_lt(a@, b@),
        (r == 0) <==> a@ == b@,
        (r == 1) <==> lex_lt(b@, a@),
{
    proof {
        lemma_lex_total(a@, b@);
        lemma_lex_irreflexive(a@);
        lemma_lex_asymmetric_both(a@, b@);
    }
    let n = if a.len() < b.len() { a.len() } else { b.len() };
    let mut i: usize = 0;
    while i < n
        invariant
            i <= n,
            n <= a@.len(),
            n <= b@.len(),
            n == if a@.len() < b@.len() { a@.len() } else { b@.len() },
            a@.subrange(0, i as int) == b@.subrange(0, i as int),
        decreases n - i,
    {
        let ca = a[i];
        let cb = b[i];
        if ca < cb {
            proof {
                lemma_lex_skip(a@, b@, i as int);
                assert(a@.skip(i as int)[0] == a@[i as int]);
                assert(b@.skip(i as int)[0] == b@[i as int]);
                lemma_lex_total(a@, b@);
                lemma_lex_asymmetric(a@, b@);
            }
            return -1;
        }
        if ca > cb {
            proof {
                lemma_lex_skip(b@, a@, i as int);
                assert(a@.skip(i as int)[0] == a@[i as int]);
                assert(b@.skip(i as int)[0] == b@[i as int]);
                lemma_lex_total(a@, b@);
                lemma_lex_asymmetric(b@, a@);
            }
            return 1;
        }
        proof {
            assert(a@.subrange(0, i as int + 1) =~= b@.subrange(0, i as int + 1));
        }
        i += 1;
    }
    if a.len() == b.len() {
        proof {
            assert forall|j: int| 0 <= j < a@.len() implies a@[j] == b@[j] by {
                assert(a@.subrange(0, n as int)[j] == b@.subrange(0, n as int)[j]);
            }
            assert(a@ =~= b@);
            lemma_lex_irreflexive(a@);
        }
        0
    } else if a.len() < b.len() {
        proof {
            lemma_lex_skip(a@, b@, n as int);
            assert(a@.skip(n as int).len() == 0);
            assert(b@.skip(n as int).len() > 0);
            lemma_lex_asymmetric(a@, b@);
        }
        -1
    } else {
        proof {
            lemma_lex_skip(b@, a@, n as int);
            assert(b@.skip(n as int).len() == 0);
            assert(a@.skip(n as int).len() > 0);
            lemma_lex_asymmetric(b@, a@);
        }
        1
    }
}

proof fn lemma_lex_asymmetric_both(a: Seq<u8>, b: Seq<u8>)
    ensures
        lex_lt(a, b) ==> !lex_lt(b, a),
        lex_lt(b, a) ==> !lex_lt(a, b),
        lex_lt(a, b) ==> a != b,
        lex_lt(b, a) ==> a != b,
{
    if lex_lt(a, b) {
        lemma_lex_asymmetric(a, b);
        lemma_lex_irreflexive(a);
    }
    if lex_lt(b, a) {
        lemma_lex_asymmetric(b, a);
        lemma_lex_irreflexive(b);
    }
}

} // verus!
