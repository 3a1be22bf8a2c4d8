//! The engine's laws: properties that tie several operations together,
//! stated over the abstract views that the operations' contracts use.

use vstd::prelude::*;
use crate::bytes::{
    lex_lt,
    lex_le,
    is_prefix,
    strictly_sorted,
    lemma_lex_irrefl,
    lemma_lex_trans,
    lemma_lex_trichotomy,
    lemma_lex_le_lt_trans,
    lemma_lex_lt_le_trans,
    lemma_prefix_le,
    lemma_prefix_interval,
};
use crate::listing::{
    walk,
    entry_str,
    entry_of,
    rolls,
    find_delim,
    above,
    page_of,
    ListEntry,
    lemma_walk_chain,
    lemma_walk_resume,
};
use crate::objects::commit_step;
use crate::store::FileSystem;
use crate::types::ObjectView;

verus! {

// ---------------------------------------------------------------------------
// Round trip and write independence
// ---------------------------------------------------------------------------

/// After a committed write of `ov` under `(b, k)`, a reader of `(b, k)`
/// observes exactly `ov` — the bytes and metadata last written — and every
/// other address is exactly as before.
pub proof fn lemma_put_get_round_trip(
    pre: FileSystem,
    post: FileSystem,
    b: Seq<u8>,
    k: Seq<u8>,
    ov: ObjectView,
)
    requires
        commit_step(pre, post, b, k, ov),
    ensures
        post.obj_view(b, k) == Some(ov),
        forall|b2: Seq<u8>, k2: Seq<u8>|
            !(b2 == b && k2 == k) ==> #[trigger] post.obj_view(b2, k2) == pre.obj_view(b2, k2),
{
}

/// Writes to two different keys commute in effect: after both commits, each
/// key holds exactly the object its own write stored, whichever happened
/// first.
pub proof fn lemma_independent_puts(
    s0: FileSystem,
    s1: FileSystem,
    s2: FileSystem,
    b: Seq<u8>,
    k1: Seq<u8>,
    ov1: ObjectView,
    k2: Seq<u8>,
    ov2: ObjectView,
)
    requires
        k1 != k2,
        commit_step(s0, s1, b, k1, ov1),
        commit_step(s1, s2, b, k2, ov2),
    ensures
        s2.obj_view(b, k1) == Some(ov1),
        s2.obj_view(b, k2) == Some(ov2),
{
}

/// Commits to one key are exclusive: after two committed writes to the same
/// key — for instance a plain put and a multipart completion — the key
/// holds exactly the later payload, never a mixture.
pub proof fn lemma_exclusive_commit(
    s0: FileSystem,
    s1: FileSystem,
    s2: FileSystem,
    b: Seq<u8>,
    k: Seq<u8>,
    ov1: ObjectView,
    ov2: ObjectView,
)
    requires
        commit_step(s0, s1, b, k, ov1),
        commit_step(s1, s2, b, k, ov2),
    ensures
        s2.obj_view(b, k) == Some(ov2),
        s2.obj_view(b, k).unwrap().content == ov2.content,
{
}

// ---------------------------------------------------------------------------
// Pagination consistency
// ---------------------------------------------------------------------------

/// A truncated page, concatenated with the walk resumed from the marker the
/// page hands back (its last entry), is exactly the full walk: successive
/// pages over an unchanged namespace concatenate to the unbounded listing,
/// with the same entries in the same order.
pub proof fn lemma_pagination_consistent(
    keys: Seq<Seq<u8>>,
    p: Seq<u8>,
    d: Option<u8>,
    cur: Option<Seq<u8>>,
    max: int,
)
    requires
        0 < max < walk(keys, p, d, cur).len(),
    ensures
        page_of(walk(keys, p, d, cur), max) + walk(
            keys,
            p,
            d,
            Some(walk(keys, p, d, cur)[max - 1].name),
        ) == walk(keys, p, d, cur),
{
    lemma_walk_resume(keys, p, d, cur, max - 1);
    assert(page_of(walk(keys, p, d, cur), max) + walk(keys, p, d, cur).skip(max) =~= walk(
        keys,
        p,
        d,
        cur,
    ));
}

// ---------------------------------------------------------------------------
// Listing without a delimiter: exactly the prefixed keys, in order
// ---------------------------------------------------------------------------

/// The keys of `keys` that extend `p`, in their original order.
pub open spec fn sel_prefixed(keys: Seq<Seq<u8>>, p: Seq<u8>) -> Seq<Seq<u8>>
    decreases keys.len(),
{
    if keys.len() == 0 {
        Seq::empty()
    } else if is_prefix(p, keys[0]) {
        seq![keys[0]] + sel_prefixed(keys.drop_first(), p)
    } else {
        sel_prefixed(keys.drop_first(), p)
    }
}

/// The entry names, in order.
pub open spec fn names_of(es: Seq<ListEntry>) -> Seq<Seq<u8>> {
    es.map_values(|e: ListEntry| e.name)
}

proof fn lemma_walk_no_delim_gen(keys: Seq<Seq<u8>>, p: Seq<u8>, cur: Option<Seq<u8>>)
    requires
        strictly_sorted(keys),
        forall|i: int| 0 <= i < keys.len() ==> above(cur, #[trigger] keys[i]),
    ensures
        names_of(walk(keys, p, None, cur)) == sel_prefixed(keys, p),
        forall|i: int|
            0 <= i < walk(keys, p, None, cur).len() ==> !(#[trigger] walk(keys, p, None, cur)[i]).is_common_prefix,
    decreases keys.len(),
{
    if keys.len() > 0 {
        let k0 = keys[0];
        let rest = keys.drop_first();
        let w = walk(keys, p, None, cur);
        assert(forall|i: int| 0 <= i < rest.len() ==> rest[i] == keys[i + 1]);
        assert(entry_str(k0, p.len() as int, None) == k0);
        if is_prefix(p, k0) {
            assert(above(cur, k0));
            assert forall|i: int| 0 <= i < rest.len() implies above(Some(k0), #[trigger] rest[i]) by {
                assert(rest[i] == keys[i + 1]);
            }
            lemma_walk_no_delim_gen(rest, p, Some(k0));
            let wr = walk(rest, p, None, Some(k0));
            assert(w == seq![entry_of(k0, p.len() as int, None)] + wr);
            assert(names_of(w) =~= seq![k0] + names_of(wr));
            assert(names_of(w) =~= sel_prefixed(keys, p));
            assert forall|i: int| 0 <= i < w.len() implies !(#[trigger] w[i]).is_common_prefix by {
                if i > 0 {
                    assert(w[i] == wr[i - 1]);
                }
            }
        } else {
            lemma_walk_no_delim_gen(rest, p, cur);
            assert(w == walk(rest, p, None, cur));
            assert(names_of(w) == sel_prefixed(keys, p));
            assert forall|i: int| 0 <= i < w.len() implies !(#[trigger] w[i]).is_common_prefix by {
                assert(w[i] == walk(rest, p, None, cur)[i]);
            }
        }
    } else {
        assert(names_of(walk(keys, p, None, cur)) =~= sel_prefixed(keys, p));
    }
}

/// An unbounded listing with no delimiter returns exactly the keys under
/// the prefix, in byte-wise lexicographic order, with no common prefixes.
pub proof fn lemma_list_no_delimiter(keys: Seq<Seq<u8>>, p: Seq<u8>)
    requires
        strictly_sorted(keys),
    ensures
        names_of(walk(keys, p, None, None)) == sel_prefixed(keys, p),
        forall|i: int|
            0 <= i < walk(keys, p, None, None).len() ==> !(#[trigger] walk(keys, p, None, None)[i]).is_common_prefix,
        forall|i: int, j: int|
            0 <= i < j < walk(keys, p, None, None).len() ==> lex_lt(
                (#[trigger] walk(keys, p, None, None)[i]).name,
                (#[trigger] walk(keys, p, None, None)[j]).name,
            ),
{
    lemma_walk_no_delim_gen(keys, p, None);
    lemma_walk_chain(keys, p, None, None);
}

// ---------------------------------------------------------------------------
// Listing with a delimiter: rollup shape, uniqueness, completeness
// ---------------------------------------------------------------------------

proof fn lemma_find_delim_props(k: Seq<u8>, from: int, d: u8)
    requires
        0 <= from <= k.len(),
    ensures
        from <= find_delim(k, from, d) <= k.len(),
        find_delim(k, from, d) < k.len() ==> k[find_delim(k, from, d)] == d,
        forall|m: int| from <= m < find_delim(k, from, d) ==> k[m] != d,
    decreases k.len() - from,
{
    if from < k.len() && k[from] != d {
        lemma_find_delim_props(k, from + 1, d);
    }
}

/// The entry a prefixed key contributes never sorts before the entry of an
/// earlier prefixed key.
proof fn lemma_entry_mono(k1: Seq<u8>, k2: Seq<u8>, p: Seq<u8>, d: Option<u8>)
    requires
        is_prefix(p, k1),
        is_prefix(p, k2),
        lex_lt(k1, k2),
    ensures
        lex_le(entry_str(k1, p.len() as int, d), entry_str(k2, p.len() as int, d)),
{
    let plen = p.len() as int;
    let e1 = entry_str(k1, plen, d);
    let e2 = entry_str(k2, plen, d);
    if d is Some {
        let dd = d.unwrap();
        lemma_find_delim_props(k1, plen, dd);
        lemma_find_delim_props(k2, plen, dd);
        let f1 = find_delim(k1, plen, dd);
        let f2 = find_delim(k2, plen, dd);
        let r1 = f1 < k1.len();
        let r2 = f2 < k2.len();
        if r1 {
            assert(is_prefix(e1, k1)) by {
                assert(k1.take(f1 + 1).take(f1 + 1) =~= k1.take(f1 + 1));
            }
            lemma_prefix_le(e1, k1);
        }
        if r2 {
            assert(is_prefix(e2, k2)) by {
                assert(k2.take(f2 + 1).take(f2 + 1) =~= k2.take(f2 + 1));
            }
            lemma_prefix_le(e2, k2);
        }
        if !r1 && !r2 {
            // both entries are the keys themselves
        } else if r1 && !r2 {
            // e1 <= k1 < k2 == e2
            lemma_lex_le_lt_trans(e1, k1, k2);
        } else if !r1 && r2 {
            // e1 == k1; show k1 <= e2
            if lex_lt(e2, k1) {
                lemma_prefix_le(e2, k2);
                assert(lex_le(k1, k2));
                lemma_prefix_interval(e2, k1, k2);
                // e2 is a prefix of k1 ending in the delimiter past p
                assert(k1.take(e2.len() as int)[f2] == k1[f2]);
                assert(e2[f2] == k2[f2]);
                assert(k1[f2] == dd);
                assert(f2 < k1.len());
                assert(find_delim(k1, plen, dd) <= f2) by {
                    if find_delim(k1, plen, dd) > f2 {
                        assert(k1[f2] != dd);
                    }
                }
                assert(false);
            }
            lemma_lex_trichotomy(k1, e2);
        } else {
            // both roll up; show e1 <= e2
            if lex_lt(e2, e1) {
                assert(lex_le(e1, k1));
                lemma_lex_lt_le_trans(e2, e1, k1);
                assert(lex_le(e2, k1));
                assert(lex_le(k1, k2));
                lemma_prefix_interval(e2, k1, k2);
                assert(k1.take(e2.len() as int)[f2] == k1[f2]);
                assert(e2[f2] == k2[f2]);
                assert(k1[f2] == dd);
                assert(f2 < k1.len());
                assert(find_delim(k1, plen, dd) <= f2) by {
                    if find_delim(k1, plen, dd) > f2 {
                        assert(k1[f2] != dd);
                    }
                }
                // so k1's first delimiter lies at or before f2, making e1 a
                // prefix of e2's span, contradicting e2 < e1
                assert(f1 <= f2);
                assert(is_prefix(e1, k1.take(f2 + 1))) by {
                    assert(k1.take(f2 + 1).take(f1 + 1) =~= k1.take(f1 + 1));
                }
                assert(k1.take(f2 + 1) =~= e2) by {
                    assert(k1.take(e2.len() as int) == e2);
                }
                lemma_prefix_le(e1, e2);
                if lex_lt(e1, e2) {
                    lemma_lex_trans(e1, e2, e1);
                    lemma_lex_irrefl(e1);
                } else {
                    lemma_lex_irrefl(e1);
                }
            }
            lemma_lex_trichotomy(e1, e2);
        }
    }
}

/// Every key under the prefix is represented in the walk: by its own entry,
/// or by the cursor it was deduplicated against.
proof fn lemma_walk_complete_gen(
    keys: Seq<Seq<u8>>,
    p: Seq<u8>,
    d: Option<u8>,
    cur: Option<Seq<u8>>,
)
    requires
        strictly_sorted(keys),
        forall|i: int|
            0 <= i < keys.len() && is_prefix(p, #[trigger] keys[i]) ==> above(
                cur,
                entry_str(keys[i], p.len() as int, d),
            ) || cur == Some(entry_str(keys[i], p.len() as int, d)),
    ensures
        forall|i: int|
            0 <= i < keys.len() && is_prefix(p, #[trigger] keys[i]) ==> (exists|m: int|
                0 <= m < walk(keys, p, d, cur).len() && (#[trigger] walk(keys, p, d, cur)[m]).name
                    == entry_str(keys[i], p.len() as int, d)) || cur == Some(
                entry_str(keys[i], p.len() as int, d),
            ),
    decreases keys.len(),
{
    let plen = p.len() as int;
    if keys.len() > 0 {
        let k0 = keys[0];
        let rest = keys.drop_first();
        let e0 = entry_str(k0, plen, d);
        let w = walk(keys, p, d, cur);
        assert(forall|i: int| 0 <= i < rest.len() ==> #[trigger] rest[i] == keys[i + 1]);
        if is_prefix(p, k0) && above(cur, e0) {
            let wr = walk(rest, p, d, Some(e0));
            assert(w == seq![entry_of(k0, plen, d)] + wr);
            assert(w[0].name == e0);
            assert forall|i: int|
                0 <= i < rest.len() && is_prefix(p, #[trigger] rest[i]) implies above(
                Some(e0),
                entry_str(rest[i], plen, d),
            ) || Some(e0) == Some(entry_str(rest[i], plen, d)) by {
                assert(rest[i] == keys[i + 1]);
                assert(lex_lt(k0, rest[i]));
                lemma_entry_mono(k0, rest[i], p, d);
            }
            lemma_walk_complete_gen(rest, p, d, Some(e0));
            assert forall|i: int|
                0 <= i < keys.len() && is_prefix(p, #[trigger] keys[i]) implies (exists|m: int|
                0 <= m < w.len() && (#[trigger] w[m]).name == entry_str(keys[i], plen, d))
                || cur == Some(entry_str(keys[i], plen, d)) by {
                if i == 0 {
                    assert(w[0].name == entry_str(keys[0], plen, d));
                } else {
                    assert(rest[i - 1] == keys[i]);
                    let ei = entry_str(keys[i], plen, d);
                    if exists|m: int| 0 <= m < wr.len() && (#[trigger] wr[m]).name == ei {
                        let m = choose|m: int| 0 <= m < wr.len() && (#[trigger] wr[m]).name == ei;
                        assert(w[m + 1] == wr[m]);
                        assert(w[m + 1].name == ei);
                    } else {
                        assert(Some(e0) == Some(ei));
                        assert(w[0].name == ei);
                    }
                }
            }
        } else {
            let wr = walk(rest, p, d, cur);
            assert(w == wr);
            if is_prefix(p, k0) {
                assert(cur == Some(e0));
            }
            assert forall|i: int|
                0 <= i < rest.len() && is_prefix(p, #[trigger] rest[i]) implies above(
                cur,
                entry_str(rest[i], plen, d),
            ) || cur == Some(entry_str(rest[i], plen, d)) by {
                assert(rest[i] == keys[i + 1]);
            }
            lemma_walk_complete_gen(rest, p, d, cur);
            assert forall|i: int|
                0 <= i < keys.len() && is_prefix(p, #[trigger] keys[i]) implies (exists|m: int|
                0 <= m < w.len() && (#[trigger] w[m]).name == entry_str(keys[i], plen, d))
                || cur == Some(entry_str(keys[i], plen, d)) by {
                if i > 0 {
                    assert(rest[i - 1] == keys[i]);
                }
            }
        }
    }
}

/// Delimiter grouping, over an unbounded walk of strictly sorted keys:
/// a key whose suffix past the prefix contains the delimiter is never
/// returned as an individual key — it is represented by exactly one
/// common-prefix entry, the key cut just after the first such delimiter —
/// and entries are pairwise distinct.
pub proof fn lemma_delimiter_grouping(keys: Seq<Seq<u8>>, p: Seq<u8>, d: u8)
    requires
        strictly_sorted(keys),
    ensures
        forall|i: int|
            0 <= i < walk(keys, p, Some(d), None).len() && !(#[trigger] walk(
                keys,
                p,
                Some(d),
                None,
            )[i]).is_common_prefix ==> forall|m: int|
                p.len() <= m < walk(keys, p, Some(d), None)[i].name.len() ==> walk(
                    keys,
                    p,
                    Some(d),
                    None,
                )[i].name[m] != d,
        forall|i: int|
            0 <= i < walk(keys, p, Some(d), None).len() && (#[trigger] walk(
                keys,
                p,
                Some(d),
                None,
            )[i]).is_common_prefix ==> walk(keys, p, Some(d), None)[i].name.len() > p.len()
                && walk(keys, p, Some(d), None)[i].name.last() == d,
        forall|i: int|
            0 <= i < keys.len() && is_prefix(p, #[trigger] keys[i]) && rolls(
                keys[i],
                p.len() as int,
                Some(d),
            ) ==> exists|m: int|
                0 <= m < walk(keys, p, Some(d), None).len() && (#[trigger] walk(
                    keys,
                    p,
                    Some(d),
                    None,
                )[m]).name == entry_str(keys[i], p.len() as int, Some(d)) && walk(
                    keys,
                    p,
                    Some(d),
                    None,
                )[m].is_common_prefix,
        forall|i: int, j: int|
            0 <= i < walk(keys, p, Some(d), None).len() && 0 <= j < walk(
                keys,
                p,
                Some(d),
                None,
            ).len() && i != j ==> (#[trigger] walk(keys, p, Some(d), None)[i]).name != (
            #[trigger] walk(keys, p, Some(d), None)[j]).name,
{
    let plen = p.len() as int;
    let w = walk(keys, p, Some(d), None);
    lemma_walk_shape(keys, p, d, None);
    lemma_walk_chain(keys, p, Some(d), None);
    assert forall|i: int, j: int|
        0 <= i < w.len() && 0 <= j < w.len() && i != j implies (#[trigger] w[i]).name != (
        #[trigger] w[j]).name by {
        if w[i].name == w[j].name {
            if i < j {
                lemma_lex_irrefl(w[i].name);
            } else {
                lemma_lex_irrefl(w[i].name);
            }
        }
    }
    lemma_walk_complete_gen(keys, p, Some(d), None);
    assert forall|i: int|
        0 <= i < keys.len() && is_prefix(p, #[trigger] keys[i]) && rolls(keys[i], plen, Some(d))
        implies exists|m: int|
        0 <= m < w.len() && (#[trigger] w[m]).name == entry_str(keys[i], plen, Some(d))
            && w[m].is_common_prefix by {
        let ei = entry_str(keys[i], plen, Some(d));
        let m = choose|m: int| 0 <= m < w.len() && (#[trigger] w[m]).name == ei;
        lemma_find_delim_props(keys[i], plen, d);
        let f = find_delim(keys[i], plen, d);
        assert(ei == keys[i].take(f + 1));
        assert(ei.len() == f + 1);
        assert(ei[f] == keys[i][f]);
        assert(ei.last() == d);
        if !w[m].is_common_prefix {
            assert(w[m].name[f] != d);
            assert(false);
        }
    }
}

/// Each walk entry has the shape its flag claims: a common prefix ends with
/// the delimiter past the prefix; an individual key holds no delimiter past
/// the prefix.
proof fn lemma_walk_shape(keys: Seq<Seq<u8>>, p: Seq<u8>, d: u8, cur: Option<Seq<u8>>)
    ensures
        forall|i: int|
            0 <= i < walk(keys, p, Some(d), cur).len() ==> ((#[trigger] walk(
                keys,
                p,
                Some(d),
                cur,
            )[i]).is_common_prefix ==> walk(keys, p, Some(d), cur)[i].name.len() > p.len() && walk(
                keys,
                p,
                Some(d),
                cur,
            )[i].name.last() == d) && (!walk(keys, p, Some(d), cur)[i].is_common_prefix
                ==> forall|m: int|
                p.len() <= m < walk(keys, p, Some(d), cur)[i].name.len() ==> walk(
                    keys,
                    p,
                    Some(d),
                    cur,
                )[i].name[m] != d),
    decreases keys.len(),
{
    let plen = p.len() as int;
    if keys.len() > 0 {
        let k0 = keys[0];
        let rest = keys.drop_first();
        let e0 = entry_str(k0, plen, Some(d));
        let w = walk(keys, p, Some(d), cur);
        if is_prefix(p, k0) && above(cur, e0) {
            lemma_walk_shape(keys.drop_first(), p, d, Some(e0));
            let wr = walk(rest, p, Some(d), Some(e0));
            lemma_find_delim_props(k0, plen, d);
            let f = find_delim(k0, plen, d);
            assert forall|i: int|
                0 <= i < w.len() implies ((#[trigger] w[i]).is_common_prefix ==> w[i].name.len()
                > p.len() && w[i].name.last() == d) && (!w[i].is_common_prefix ==> forall|m: int|
                p.len() <= m < w[i].name.len() ==> w[i].name[m] != d) by {
                if i == 0 {
                    assert(w[0] == entry_of(k0, plen, Some(d)));
                    if rolls(k0, plen, Some(d)) {
                        assert(w[0].name == k0.take(f + 1));
                        assert(w[0].name.last() == k0[f]);
                    } else {
                        assert(f == k0.len());
                        assert(w[0].name == k0);
                        assert forall|m: int| p.len() <= m < w[0].name.len() implies w[0].name[m]
                            != d by {}
                    }
                } else {
                    assert(w[i] == wr[i - 1]);
                }
            }
        } else {
            lemma_walk_shape(keys.drop_first(), p, d, cur);
            assert forall|i: int|
                0 <= i < w.len() implies ((#[trigger] w[i]).is_common_prefix ==> w[i].name.len()
                > p.len() && w[i].name.last() == d) && (!w[i].is_common_prefix ==> forall|m: int|
                p.len() <= m < w[i].name.len() ==> w[i].name[m] != d) by {
                assert(w[i] == walk(rest, p, Some(d), cur)[i]);
            }
        }
    }
}

} // verus!
