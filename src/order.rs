//! Byte-lexicographic order on keys, the order in which a table is scanned.
use vstd::prelude::*;

verus! {

/// `a` sorts strictly before `b`, byte by byte, a proper prefix first.
pub open spec fn lex_lt(a: Seq<u8>, b: Seq<u8>) -> bool
    decreases a.len(),
{
    if b.len() == 0 {
        false
    } else if a.len() == 0 {
        true
    } else if a[0] != b[0] {
        a[0] < b[0]
    } else {
        lex_lt(a.drop_first(), b.drop_first())
    }
}

/// `p` is a prefix of `k`.
pub open spec fn is_prefix(p: Seq<u8>, k: Seq<u8>) -> bool {
    p.len() <= k.len() && k.take(p.len() as int) == p
}

pub proof fn lemma_lex_irreflexive(a: Seq<u8>)
    ensures
        !lex_lt(a, a),
    decreases a.len(),
{
    if a.len() > 0 {
        lemma_lex_irreflexive(a.drop_first());
    }
}

pub proof fn lemma_lex_trichotomy(a: Seq<u8>, b: Seq<u8>)
    ensures
        a == b || lex_lt(a, b) || lex_lt(b, a),
        !(lex_lt(a, b) && lex_lt(b, a)),
    decreases a.len(),
{
    if a.len() > 0 && b.len() > 0 && a[0] == b[0] {
        lemma_lex_trichotomy(a.drop_first(), b.drop_first());
        if a.drop_first() == b.drop_first() {
            assert(a == seq![a[0]] + a.drop_first());
            assert(b == seq![b[0]] + b.drop_first());
        }
    }
    if a.len() == 0 && b.len() == 0 {
        assert(a == b);
    }
}

pub proof fn lemma_lex_transitive(a: Seq<u8>, b: Seq<u8>, c: Seq<u8>)
    requires
        lex_lt(a, b),
        lex_lt(b, c),
    ensures
        lex_lt(a, c),
    decreases a.len(),
{
    if a.len() > 0 && b.len() > 0 && c.len() > 0 && a[0] == b[0] && b[0] == c[0] {
        lemma_lex_transitive(a.drop_first(), b.drop_first(), c.drop_first());
    }
}

/// A key never sorts before a prefix of it.
pub proof fn lemma_prefix_not_after(p: Seq<u8>, k: Seq<u8>)
    requires
        is_prefix(p, k),
    ensures
        !lex_lt(k, p),
    decreases p.len(),
{
    if p.len() > 0 {
        assert(k[0] == p[0]);
        assert(k.drop_first().take(p.len() - 1) == p.drop_first());
        lemma_prefix_not_after(p.drop_first(), k.drop_first());
    }
}

/// A key at or after `p` that does not start with `p` sorts after every key
/// that does.
pub proof fn lemma_past_prefix(p: Seq<u8>, k: Seq<u8>, q: Seq<u8>)
    requires
        !lex_lt(k, p),
        !is_prefix(p, k),
        is_prefix(p, q),
    ensures
        lex_lt(q, k),
    decreases p.len(),
{
    assert(p.len() > 0) by {
        if p.len() == 0 {
            assert(k.take(0) == p);
        }
    }
    if k.len() == 0 {
        assert(lex_lt(k, p));
    } else {
        assert(q[0] == p[0]);
        if k[0] == p[0] {
            let p_rest = p.drop_first();
            let k_rest = k.drop_first();
            let q_rest = q.drop_first();
            assert(q_rest.take(p_rest.len() as int) == p_rest);
            if is_prefix(p_rest, k_rest) {
                assert(k.take(p.len() as int) == seq![k[0]] + k_rest.take(p_rest.len() as int));
                assert(p == seq![p[0]] + p_rest);
            }
            lemma_past_prefix(p_rest, k_rest, q_rest);
        }
    }
}

} // verus!
