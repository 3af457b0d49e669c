//! Lexicographic order on byte strings, the order map keys are kept in.
use vstd::prelude::*;

verus! {

/// Strict lexicographic order on byte strings.
pub open spec fn lex_lt(a: Seq<u8>, b: Seq<u8>) -> bool
    decreases a.len(),
{
    if b.len() == 0 {
        false
    } else if a.len() == 0 {
        true
    } else if a[0] < b[0] {
        true
    } else if a[0] > b[0] {
        false
    } else {
        lex_lt(a.skip(1), b.skip(1))
    }
}

/// Of two byte strings, exactly one of: the first is smaller, they are
/// equal, the second is smaller.
pub proof fn lemma_lex_trichotomy(a: Seq<u8>, b: Seq<u8>)
    ensures
        lex_lt(a, b) || lex_lt(b, a) || a == b,
        lex_lt(a, b) ==> !lex_lt(b, a) && a != b,
        lex_lt(b, a) ==> !lex_lt(a, b) && a != b,
    decreases a.len(),
{
    if a.len() == 0 && b.len() == 0 {
        assert(a =~= b);
    } else if a.len() > 0 && b.len() > 0 && a[0] == b[0] {
        lemma_lex_trichotomy(a.skip(1), b.skip(1));
        if a.skip(1) == b.skip(1) {
            assert(a =~= b) by {
                assert forall|i: int| 0 <= i < a.len() implies a[i] == b[i] by {
                    if i > 0 {
                        assert(a.skip(1)[i - 1] == a[i]);
                        assert(b.skip(1)[i - 1] == b[i]);
                    }
                }
            }
        }
        if a == b {
            assert(a.skip(1) == b.skip(1));
        }
    }
}

/// Three-way comparison of two byte strings in lexicographic order.
pub fn lex_cmp(a: &[u8], b: &[u8]) -> (r: i8)
    ensures
        r == -1 || r == 0 || r == 1,
        r == -1 <==> lex_lt(a@, b@),
        r == 1 <==> lex_lt(b@, a@),
        r == 0 <==> a@ == b@,
{
    let na = a.len();
    let nb = b.len();
    let mut i: usize = 0;
    proof {
        assert(a@.skip(0) =~= a@);
        assert(b@.skip(0) =~= b@);
    }
    while i < na && i < nb
        invariant
            i <= na,
            i <= nb,
            na == a@.len(),
            nb == b@.len(),
            lex_lt(a@, b@) == lex_lt(a@.skip(i as int), b@.skip(i as int)),
            lex_lt(b@, a@) == lex_lt(b@.skip(i as int), a@.skip(i as int)),
            (a@ == b@) == (a@.skip(i as int) == b@.skip(i as int)),
        decreases na - i,
    {
        let x = a[i];
        let y = b[i];
        let ghost ai = a@.skip(i as int);
        let ghost bi = b@.skip(i as int);
        proof {
            assert(ai[0] == a@[i as int]);
            assert(bi[0] == b@[i as int]);
        }
        if x < y {
            return -1;
        }
        if x > y {
            return 1;
        }
        proof {
            assert(ai.skip(1) =~= a@.skip(i + 1));
            assert(bi.skip(1) =~= b@.skip(i + 1));
            if ai.skip(1) == bi.skip(1) {
                assert forall|k: int| 0 <= k < ai.len() implies ai[k] == bi[k] by {
                    if k > 0 {
                        assert(ai.skip(1)[k - 1] == ai[k]);
                        assert(bi.skip(1)[k - 1] == bi[k]);
                    }
                }
                assert(ai =~= bi);
            }
        }
        i = i + 1;
    }
    let ghost ai = a@.skip(i as int);
    let ghost bi = b@.skip(i as int);
    if na == nb {
        proof {
            assert(ai =~= bi);
        }
        0
    } else if na < nb {
        proof {
            assert(ai.len() == 0);
            assert(bi.len() > 0);
            assert(ai.len() != bi.len());
        }
        -1
    } else {
        proof {
            assert(bi.len() == 0);
            assert(ai.len() > 0);
            assert(ai.len() != bi.len());
        }
        1
    }
}

} // verus!
