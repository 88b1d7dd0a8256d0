use vstd::prelude::*;
use crate::keys::starts_with;

verus! {

/// Byte-wise lexicographic order: `a` sorts no later than `b`.
pub open spec fn lex_le(a: Seq<u8>, b: Seq<u8>) -> bool
    decreases a.len(),
{
    if a.len() == 0 {
        true
    } else if b.len() == 0 {
        false
    } else if a[0] != b[0] {
        a[0] < b[0]
    } else {
        lex_le(a.drop_first(), b.drop_first())
    }
}

/// Any two names are ordered one way or the other.
pub proof fn lemma_lex_le_total(a: Seq<u8>, b: Seq<u8>)
    ensures
        lex_le(a, b) || lex_le(b, a),
    decreases a.len(),
{
    if a.len() > 0 && b.len() > 0 && a[0] == b[0] {
        lemma_lex_le_total(a.drop_first(), b.drop_first());
    }
}

/// The order is transitive.
pub proof fn lemma_lex_le_trans(a: Seq<u8>, b: Seq<u8>, c: Seq<u8>)
    requires
        lex_le(a, b),
        lex_le(b, c),
    ensures
        lex_le(a, c),
    decreases a.len(),
{
    if a.len() > 0 && b.len() > 0 && c.len() > 0 && a[0] == b[0] && b[0] == c[0] {
        lemma_lex_le_trans(a.drop_first(), b.drop_first(), c.drop_first());
    }
}

/// A name sorts no earlier than any of its prefixes.
pub proof fn lemma_prefix_le(p: Seq<u8>, x: Seq<u8>)
    requires
        starts_with(x, p),
    ensures
        lex_le(p, x),
    decreases p.len(),
{
    if p.len() > 0 {
        assert(x[0] == x.subrange(0, p.len() as int)[0]);
        assert(x.drop_first().subrange(0, p.len() - 1) =~= p.drop_first()) by {
            assert forall|i: int| 0 <= i < p.len() - 1 implies x.drop_first()[i] == p.drop_first()[i] by {
                assert(x.subrange(0, p.len() as int)[i + 1] == x[i + 1]);
            }
        }
        lemma_prefix_le(p.drop_first(), x.drop_first());
    }
}

/// A name that sorts between `p` and a name starting with `p` starts with
/// `p` too.
pub proof fn lemma_between_prefix(p: Seq<u8>, x: Seq<u8>, y: Seq<u8>)
    requires
        lex_le(p, x),
        lex_le(x, y),
        starts_with(y, p),
    ensures
        starts_with(x, p),
    decreases p.len(),
{
    if p.len() > 0 {
        assert(y[0] == y.subrange(0, p.len() as int)[0]);
        let yt = y.drop_first();
        assert(yt.subrange(0, p.len() - 1) =~= p.drop_first()) by {
            assert forall|i: int| 0 <= i < p.len() - 1 implies yt[i] == p.drop_first()[i] by {
                assert(y.subrange(0, p.len() as int)[i + 1] == y[i + 1]);
            }
        }
        lemma_between_prefix(p.drop_first(), x.drop_first(), yt);
        let xt = x.drop_first();
        assert forall|i: int| 0 <= i < p.len() implies x[i] == p[i] by {
            if i > 0 {
                assert(xt.subrange(0, p.len() - 1)[i - 1] == xt[i - 1]);
            }
        }
        assert(x.subrange(0, p.len() as int) =~= p);
    }
}

/// Whether name `a` sorts no later than name `b`, as `str` orders them.
pub fn name_le(a: &[u8], b: &[u8]) -> (r: bool)
    ensures
        r == lex_le(a@, b@),
{
    let mut i: usize = 0;
    proof {
        assert(a@.subrange(0, a.len() as int) =~= a@);
        assert(b@.subrange(0, b.len() as int) =~= b@);
    }
    while i < a.len() && i < b.len() && a[i] == b[i]
        invariant
            i <= a.len(),
            i <= b.len(),
            lex_le(a@, b@) == lex_le(
                a@.subrange(i as int, a.len() as int),
                b@.subrange(i as int, b.len() as int),
            ),
        decreases a.len() - i,
    {
        proof {
            let x = a@.subrange(i as int, a.len() as int);
            let y = b@.subrange(i as int, b.len() as int);
            assert(x.drop_first() =~= a@.subrange(i + 1, a.len() as int));
            assert(y.drop_first() =~= b@.subrange(i + 1, b.len() as int));
        }
        i += 1;
    }
    if i == a.len() {
        true
    } else if i == b.len() {
        false
    } else {
        a[i] < b[i]
    }
}

} // verus!
