//! Byte-wise lexicographic order on byte strings, with the prefix facts the
//! listing logic depends on.

use vstd::prelude::*;

verus! {

/// Strict byte-wise lexicographic order: `a` sorts before `b`.
pub open spec fn lex_lt(a: Seq<u8>, b: Seq<u8>) -> bool
    decreases a.len(),
{
    if b.len() == 0 {
        false
    } else if a.len() == 0 {
        true
    } else if a[0] < b[0] {
        true
    } else if a[0] > b[0] {
        false
    } else {
        lex_lt(a.drop_first(), b.drop_first())
    }
}

/// Non-strict byte-wise lexicographic order.
pub open spec fn lex_le(a: Seq<u8>, b: Seq<u8>) -> bool {
    lex_lt(a, b) || a == b
}

/// `p` is an initial segment of `s`.
pub open spec fn is_prefix(p: Seq<u8>, s: Seq<u8>) -> bool {
    p.len() <= s.len() && s.take(p.len() as int) == p
}

pub proof fn lemma_lex_irrefl(a: Seq<u8>)
    ensures
        !lex_lt(a, a),
    decreases a.len(),
{
    if a.len() > 0 {
        lemma_lex_irrefl(a.drop_first());
    }
}

pub proof fn lemma_lex_trichotomy(a: Seq<u8>, b: Seq<u8>)
    ensures
        lex_lt(a, b) || lex_lt(b, a) || a == b,
    decreases a.len(),
{
    if a.len() == 0 || b.len() == 0 {
        if a.len() == b.len() {
            assert(a =~= b);
        }
    } else if a[0] == b[0] {
        lemma_lex_trichotomy(a.drop_first(), b.drop_first());
        if a.drop_first() == b.drop_first() {
            assert(a.drop_first().len() == a.len() - 1);
            assert(b.drop_first().len() == b.len() - 1);
            assert(a.len() == b.len());
            assert forall|i: int| 1 <= i < a.len() implies a[i] == b[i] by {
                assert(a.drop_first()[i - 1] == a[i]);
                assert(b.drop_first()[i - 1] == b[i]);
            }
            assert(a =~= b);
        }
    }
}

pub proof fn lemma_lex_trans(a: Seq<u8>, b: Seq<u8>, c: Seq<u8>)
    requires
        lex_lt(a, b),
        lex_lt(b, c),
    ensures
        lex_lt(a, c),
    decreases a.len(),
{
    if a.len() > 0 && b.len() > 0 && c.len() > 0 && a[0] == b[0] && b[0] == c[0] {
        lemma_lex_trans(a.drop_first(), b.drop_first(), c.drop_first());
    }
}

/// `lex_le` chains with `lex_lt` on either side.
pub proof fn lemma_lex_le_lt_trans(a: Seq<u8>, b: Seq<u8>, c: Seq<u8>)
    requires
        lex_le(a, b),
        lex_lt(b, c),
    ensures
        lex_lt(a, c),
{
    if lex_lt(a, b) {
        lemma_lex_trans(a, b, c);
    }
}

pub proof fn lemma_lex_lt_le_trans(a: Seq<u8>, b: Seq<u8>, c: Seq<u8>)
    requires
        lex_lt(a, b),
        lex_le(b, c),
    ensures
        lex_lt(a, c),
{
    if lex_lt(b, c) {
        lemma_lex_trans(a, b, c);
    }
}

/// A proper initial segment sorts no later than the whole.
pub proof fn lemma_prefix_le(p: Seq<u8>, s: Seq<u8>)
    requires
        is_prefix(p, s),
    ensures
        lex_le(p, s),
    decreases p.len(),
{
    if p.len() == 0 {
        if s.len() == 0 {
            assert(p =~= s);
        }
    } else {
        assert(p[0] == s.take(p.len() as int)[0]);
        lemma_prefix_drop_first(p, s);
        lemma_prefix_le(p.drop_first(), s.drop_first());
        if p.drop_first() == s.drop_first() {
            assert(p =~= s);
        }
    }
}

/// Peeling the first byte preserves the prefix relation.
pub proof fn lemma_prefix_drop_first(p: Seq<u8>, s: Seq<u8>)
    requires
        is_prefix(p, s),
        p.len() > 0,
    ensures
        p[0] == s[0],
        is_prefix(p.drop_first(), s.drop_first()),
{
    assert(p[0] == s.take(p.len() as int)[0]);
    assert(s.drop_first().take(p.len() - 1) =~= p.drop_first()) by {
        assert forall|i: int| 0 <= i < p.len() - 1 implies s.drop_first()[i] == p.drop_first()[i] by {
            assert(p[i + 1] == s.take(p.len() as int)[i + 1]);
        }
    }
}

/// The strings extending a given prefix form an interval of the order: any
/// string between the prefix and one of its extensions is itself an
/// extension.
pub proof fn lemma_prefix_interval(c: Seq<u8>, x: Seq<u8>, y: Seq<u8>)
    requires
        is_prefix(c, y),
        lex_le(c, x),
        lex_le(x, y),
    ensures
        is_prefix(c, x),
    decreases c.len(),
{
    if c.len() == 0 {
        assert(x.take(0) =~= c);
    } else if x == y {
        // identical strings share the prefix
    } else if c == x {
        assert(x.take(c.len() as int) =~= c);
    } else {
        // c < x < y, all nonempty
        assert(lex_lt(c, x));
        assert(lex_lt(x, y));
        assert(x.len() > 0);
        lemma_prefix_drop_first(c, y);
        if c[0] == x[0] && x[0] == y[0] {
            lemma_prefix_interval(c.drop_first(), x.drop_first(), y.drop_first());
            assert(x.take(c.len() as int) =~= c) by {
                assert forall|i: int| 0 <= i < c.len() implies x.take(c.len() as int)[i] == c[i] by {
                    if i > 0 {
                        assert(x.drop_first().take(c.len() - 1)[i - 1] == c.drop_first()[i - 1]);
                    }
                }
            }
        }
    }
}

/// A common initial segment does not affect the comparison of the remainders.
pub proof fn lemma_lex_common(a: Seq<u8>, b: Seq<u8>, i: int)
    requires
        0 <= i <= a.len(),
        i <= b.len(),
        a.take(i) == b.take(i),
    ensures
        lex_lt(a, b) == lex_lt(a.skip(i), b.skip(i)),
    decreases i,
{
    if i > 0 {
        assert(a.len() > 0 && b.len() > 0);
        assert(a.take(i)[0] == a[0]);
        assert(b.take(i)[0] == b[0]);
        assert(a[0] == b[0]);
        assert(a.drop_first().take(i - 1) =~= b.drop_first().take(i - 1)) by {
            assert forall|j: int| 0 <= j < i - 1 implies #[trigger] a.drop_first().take(i - 1)[j] == b.drop_first().take(i - 1)[j] by {
                assert(a.drop_first().take(i - 1)[j] == a.drop_first()[j]);
                assert(a.drop_first()[j] == a[j + 1]);
                assert(a.take(i)[j + 1] == a[j + 1]);
                assert(b.drop_first().take(i - 1)[j] == b.drop_first()[j]);
                assert(b.drop_first()[j] == b[j + 1]);
                assert(b.take(i)[j + 1] == b[j + 1]);
                assert(a.take(i)[j + 1] == b.take(i)[j + 1]);
            }
        }
        lemma_lex_common(a.drop_first(), b.drop_first(), i - 1);
        assert(a.drop_first().skip(i - 1) =~= a.skip(i));
        assert(b.drop_first().skip(i - 1) =~= b.skip(i));
    } else {
        assert(a.skip(0) =~= a);
        assert(b.skip(0) =~= b);
    }
}

/// Compares two byte strings in byte-wise lexicographic order.
pub fn bytes_lt(a: &Vec<u8>, b: &Vec<u8>) -> (r: bool)
    ensures
        r == lex_lt(a@, b@),
{
    let mut i: usize = 0;
    while i < a.len() && i < b.len()
        invariant
            i <= a.len(),
            i <= b.len(),
            a@.take(i as int) == b@.take(i as int),
        decreases a.len() - i,
    {
        let x = a[i];
        let y = b[i];
        proof {
            lemma_lex_common(a@, b@, i as int);
            assert(a@.skip(i as int)[0] == x);
            assert(b@.skip(i as int)[0] == y);
        }
        if x < y {
            return true;
        }
        if x > y {
            return false;
        }
        proof {
            assert(a@.take(i + 1) =~= b@.take(i + 1)) by {
                assert forall|j: int| 0 <= j < i + 1 implies #[trigger] a@.take(i + 1)[j] == b@.take(i + 1)[j] by {
                    if j < i {
                        assert(a@.take(i as int)[j] == b@.take(i as int)[j]);
                    }
                }
            }
        }
        i = i + 1;
    }
    proof {
        lemma_lex_common(a@, b@, i as int);
    }
    a.len() < b.len()
}

/// Non-strict byte-wise comparison.
pub fn bytes_le(a: &Vec<u8>, b: &Vec<u8>) -> (r: bool)
    ensures
        r == lex_le(a@, b@),
{
    let lt = bytes_lt(b, a);
    proof {
        lemma_lex_trichotomy(a@, b@);
        lemma_lex_irrefl(a@);
        if lex_lt(a@, b@) && lex_lt(b@, a@) {
            lemma_lex_trans(a@, b@, a@);
        }
    }
    !lt
}

/// Equality of byte strings.
pub fn bytes_eq(a: &Vec<u8>, b: &Vec<u8>) -> (r: bool)
    ensures
        r == (a@ == b@),
{
    if a.len() != b.len() {
        return false;
    }
    let mut i: usize = 0;
    while i < a.len()
        invariant
            i <= a.len(),
            a@.len() == b@.len(),
            forall|j: int| 0 <= j < i ==> a@[j] == b@[j],
        decreases a.len() - i,
    {
        if a[i] != b[i] {
            return false;
        }
        i = i + 1;
    }
    proof {
        assert(a@ =~= b@);
    }
    true
}

/// Does `s` start with `p`?
pub fn bytes_has_prefix(p: &Vec<u8>, s: &Vec<u8>) -> (r: bool)
    ensures
        r == is_prefix(p@, s@),
{
    if s.len() < p.len() {
        return false;
    }
    let mut i: usize = 0;
    while i < p.len()
        invariant
            i <= p.len(),
            p@.len() <= s@.len(),
            forall|j: int| 0 <= j < i ==> s@[j] == p@[j],
        decreases p.len() - i,
    {
        if s[i] != p[i] {
            assert(s@.take(p@.len() as int)[i as int] != p@[i as int]);
            return false;
        }
        i = i + 1;
    }
    proof {
        assert(s@.take(p@.len() as int) =~= p@);
    }
    true
}

/// A fresh copy of a byte string.
pub fn bytes_clone(v: &Vec<u8>) -> (r: Vec<u8>)
    ensures
        r@ == v@,
{
    let mut out: Vec<u8> = Vec::new();
    let mut i: usize = 0;
    while i < v.len()
        invariant
            i <= v.len(),
            out@ == v@.take(i as int),
        decreases v.len() - i,
    {
        out.push(v[i]);
        proof {
            assert(v@.take(i as int).push(v@[i as int]) =~= v@.take(i + 1));
        }
        i = i + 1;
    }
    proof {
        assert(v@.take(v@.len() as int) =~= v@);
    }
    out
}

/// The bytes of `v` from `start` (inclusive) to `end` (exclusive).
pub fn bytes_slice(v: &Vec<u8>, start: usize, end: usize) -> (r: Vec<u8>)
    requires
        start <= end <= v@.len(),
    ensures
        r@ == v@.subrange(start as int, end as int),
{
    let mut out: Vec<u8> = Vec::new();
    let mut i: usize = start;
    while i < end
        invariant
            start <= i <= end <= v@.len(),
            out@ == v@.subrange(start as int, i as int),
        decreases end - i,
    {
        out.push(v[i]);
        proof {
            assert(v@.subrange(start as int, i as int).push(v@[i as int]) =~= v@.subrange(
                start as int,
                i + 1,
            ));
        }
        i = i + 1;
    }
    out
}

/// Appends all of `src` to `dst`.
pub fn bytes_extend(dst: &mut Vec<u8>, src: &Vec<u8>)
    ensures
        final(dst)@ == old(dst)@ + src@,
{
    let mut i: usize = 0;
    while i < src.len()
        invariant
            i <= src.len(),
            dst@ == old(dst)@ + src@.take(i as int),
        decreases src.len() - i,
    {
        dst.push(src[i]);
        proof {
            assert((old(dst)@ + src@.take(i as int)).push(src@[i as int]) =~= old(dst)@
                + src@.take(i + 1));
        }
        i = i + 1;
    }
    proof {
        assert(src@.take(src@.len() as int) =~= src@);
    }
}

/// Each entry of `s` sorts strictly before every later entry, so entries are
/// pairwise distinct.
pub open spec fn strictly_sorted(s: Seq<Seq<u8>>) -> bool {
    forall|i: int, j: int| 0 <= i < j < s.len() ==> lex_lt(#[trigger] s[i], #[trigger] s[j])
}

/// The abstract values of a list of byte strings.
pub open spec fn views_of(s: Seq<Vec<u8>>) -> Seq<Seq<u8>> {
    s.map_values(|v: Vec<u8>| v@)
}

pub proof fn lemma_views_push(s: Seq<Vec<u8>>, v: Vec<u8>)
    ensures
        views_of(s.push(v)) == views_of(s).push(v@),
{
    assert(views_of(s.push(v)) =~= views_of(s).push(v@));
}

} // verus!
