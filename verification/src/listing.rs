//! Prefix/delimiter listing with pagination.
//!
//! The reference semantics is `walk`: scan the bucket's sorted keys once;
//! each key under the prefix yields an entry — the key itself, or, when a
//! delimiter is set and occurs in the key past the prefix, the key cut just
//! after that first delimiter (a common prefix).  An entry is emitted only
//! when it sorts strictly after the cursor, and emitting moves the cursor,
//! which both removes duplicate common prefixes and makes resumption from a
//! returned marker exact.  A page is the first `max_keys` entries of the
//! walk; the marker handed back is the last entry of the page.

use vstd::prelude::*;
use crate::bytes::{
    lex_lt,
    is_prefix,
    bytes_lt,
    bytes_clone,
    bytes_slice,
    bytes_has_prefix,
    views_of,
    lemma_lex_irrefl,
    lemma_lex_trans,
};
use crate::errors::StorageError;
use crate::store::FileSystem;
use crate::types::Bucket;

verus! {

/// One listing result entry: an individual key or a common prefix.
pub struct ListEntry {
    pub name: Seq<u8>,
    pub is_common_prefix: bool,
}

/// The index of the first occurrence of `d` in `k` at or after `from`, or
/// `k.len()` if there is none.
pub open spec fn find_delim(k: Seq<u8>, from: int, d: u8) -> int
    decreases k.len() - from,
{
    if from >= k.len() {
        k.len() as int
    } else if from < 0 {
        find_delim(k, 0, d)
    } else if k[from] == d {
        from
    } else {
        find_delim(k, from + 1, d)
    }
}

/// Whether the key rolls up into a common prefix: a delimiter is set and
/// occurs past position `plen`.
pub open spec fn rolls(k: Seq<u8>, plen: int, d: Option<u8>) -> bool {
    match d {
        None => false,
        Some(dd) => find_delim(k, plen, dd) < k.len(),
    }
}

/// The entry string a key contributes: the key itself, or the key cut just
/// after the first delimiter past the prefix.
pub open spec fn entry_str(k: Seq<u8>, plen: int, d: Option<u8>) -> Seq<u8> {
    match d {
        None => k,
        Some(dd) => {
            let f = find_delim(k, plen, dd);
            if f < k.len() {
                k.take(f + 1)
            } else {
                k
            }
        },
    }
}

pub open spec fn entry_of(k: Seq<u8>, plen: int, d: Option<u8>) -> ListEntry {
    ListEntry { name: entry_str(k, plen, d), is_common_prefix: rolls(k, plen, d) }
}

/// The cursor admits `e`: no cursor yet, or `e` sorts strictly after it.
pub open spec fn above(cur: Option<Seq<u8>>, e: Seq<u8>) -> bool {
    match cur {
        None => true,
        Some(c) => lex_lt(c, e),
    }
}

/// The reference listing: one pass over `keys` emitting deduplicated
/// entries past the cursor.
pub open spec fn walk(keys: Seq<Seq<u8>>, p: Seq<u8>, d: Option<u8>, cur: Option<Seq<u8>>) -> Seq<
    ListEntry,
>
    decreases keys.len(),
{
    if keys.len() == 0 {
        Seq::empty()
    } else {
        let k = keys[0];
        let e = entry_str(k, p.len() as int, d);
        if is_prefix(p, k) && above(cur, e) {
            seq![entry_of(k, p.len() as int, d)] + walk(keys.drop_first(), p, d, Some(e))
        } else {
            walk(keys.drop_first(), p, d, cur)
        }
    }
}

/// The cursor after emitting `es`, starting from `cur`.
pub open spec fn walk_cur(es: Seq<ListEntry>, cur: Option<Seq<u8>>) -> Option<Seq<u8>> {
    if es.len() == 0 {
        cur
    } else {
        Some(es.last().name)
    }
}

/// The names of the individual-key entries, in order.
pub open spec fn keys_of(es: Seq<ListEntry>) -> Seq<Seq<u8>>
    decreases es.len(),
{
    if es.len() == 0 {
        Seq::empty()
    } else if !es.last().is_common_prefix {
        keys_of(es.drop_last()).push(es.last().name)
    } else {
        keys_of(es.drop_last())
    }
}

/// The names of the common-prefix entries, in order.
pub open spec fn commons_of(es: Seq<ListEntry>) -> Seq<Seq<u8>>
    decreases es.len(),
{
    if es.len() == 0 {
        Seq::empty()
    } else if es.last().is_common_prefix {
        commons_of(es.drop_last()).push(es.last().name)
    } else {
        commons_of(es.drop_last())
    }
}

/// The first `max` entries (all of them if fewer).
pub open spec fn page_of(w: Seq<ListEntry>, max: int) -> Seq<ListEntry> {
    if max <= w.len() {
        w.take(max)
    } else {
        w
    }
}

/// The abstract value of an optional byte string.
pub open spec fn opt_view(o: Option<Vec<u8>>) -> Option<Seq<u8>> {
    match o {
        None => None,
        Some(v) => Some(v@),
    }
}

/// The cursor a v2 request starts from: the continuation token wins over
/// the start-after marker.
pub open spec fn v2_cursor(token: Option<Seq<u8>>, start_after: Option<Seq<u8>>) -> Option<
    Seq<u8>,
> {
    if token is Some {
        token
    } else {
        start_after
    }
}

// ---------------------------------------------------------------------------
// Core walk lemmas
// ---------------------------------------------------------------------------

/// Appending one key to the scanned range appends at most one entry, gated
/// by the cursor the walk has reached.
pub proof fn lemma_walk_push(
    s: Seq<Seq<u8>>,
    k: Seq<u8>,
    p: Seq<u8>,
    d: Option<u8>,
    cur: Option<Seq<u8>>,
)
    ensures
        walk(s.push(k), p, d, cur) == if is_prefix(p, k) && above(
            walk_cur(walk(s, p, d, cur), cur),
            entry_str(k, p.len() as int, d),
        ) {
            walk(s, p, d, cur).push(entry_of(k, p.len() as int, d))
        } else {
            walk(s, p, d, cur)
        },
    decreases s.len(),
{
    let e = entry_str(k, p.len() as int, d);
    if s.len() == 0 {
        assert(s.push(k).len() == 1);
        assert(s.push(k)[0] == k);
        assert(s.push(k).drop_first() =~= Seq::<Seq<u8>>::empty());
        assert(s =~= Seq::<Seq<u8>>::empty());
        assert(walk(Seq::<Seq<u8>>::empty(), p, d, Some(e)) == Seq::<ListEntry>::empty());
        assert(walk(Seq::<Seq<u8>>::empty(), p, d, cur) == Seq::<ListEntry>::empty());
        if is_prefix(p, k) && above(cur, e) {
            assert(walk(s.push(k), p, d, cur) == seq![entry_of(k, p.len() as int, d)] + walk(
                s.push(k).drop_first(),
                p,
                d,
                Some(e),
            ));
            assert(walk(s.push(k), p, d, cur) =~= walk(s, p, d, cur).push(
                entry_of(k, p.len() as int, d),
            ));
        } else {
            assert(walk(s.push(k), p, d, cur) == walk(s.push(k).drop_first(), p, d, cur));
        }
    } else {
        let s0 = s[0];
        let rest = s.drop_first();
        let e0 = entry_str(s0, p.len() as int, d);
        assert(s.push(k)[0] == s0);
        assert(s.push(k).drop_first() =~= rest.push(k));
        if is_prefix(p, s0) && above(cur, e0) {
            lemma_walk_push(rest, k, p, d, Some(e0));
            let wr = walk(rest, p, d, Some(e0));
            assert(walk(s, p, d, cur) == seq![entry_of(s0, p.len() as int, d)] + wr);
            assert(walk_cur(walk(s, p, d, cur), cur) == walk_cur(wr, Some(e0)));
            if is_prefix(p, k) && above(walk_cur(wr, Some(e0)), e) {
                assert(walk(s.push(k), p, d, cur) =~= walk(s, p, d, cur).push(
                    entry_of(k, p.len() as int, d),
                ));
            } else {
                assert(walk(s.push(k), p, d, cur) =~= walk(s, p, d, cur));
            }
        } else {
            lemma_walk_push(rest, k, p, d, cur);
        }
    }
}

/// Every emitted entry lies strictly above the cursor, and the entries are
/// strictly increasing (hence pairwise distinct).
pub proof fn lemma_walk_chain(s: Seq<Seq<u8>>, p: Seq<u8>, d: Option<u8>, cur: Option<Seq<u8>>)
    ensures
        forall|i: int|
            0 <= i < walk(s, p, d, cur).len() ==> above(cur, (#[trigger] walk(s, p, d, cur)[i]).name),
        forall|i: int, j: int|
            0 <= i < j < walk(s, p, d, cur).len() ==> lex_lt(
                (#[trigger] walk(s, p, d, cur)[i]).name,
                (#[trigger] walk(s, p, d, cur)[j]).name,
            ),
    decreases s.len(),
{
    if s.len() > 0 {
        let s0 = s[0];
        let rest = s.drop_first();
        let e0 = entry_str(s0, p.len() as int, d);
        let w = walk(s, p, d, cur);
        if is_prefix(p, s0) && above(cur, e0) {
            lemma_walk_chain(rest, p, d, Some(e0));
            let wr = walk(rest, p, d, Some(e0));
            assert forall|i: int| 0 <= i < w.len() implies above(cur, (#[trigger] w[i]).name) by {
                if i > 0 {
                    assert(w[i] == wr[i - 1]);
                    assert(lex_lt(e0, wr[i - 1].name));
                    if cur is Some {
                        lemma_lex_trans(cur.unwrap(), e0, wr[i - 1].name);
                    }
                }
            }
            assert forall|i: int, j: int| 0 <= i < j < w.len() implies lex_lt(
                (#[trigger] w[i]).name,
                (#[trigger] w[j]).name,
            ) by {
                if i == 0 {
                    assert(w[j] == wr[j - 1]);
                    assert(above(Some(e0), wr[j - 1].name));
                } else {
                    assert(w[i] == wr[i - 1] && w[j] == wr[j - 1]);
                }
            }
        } else {
            lemma_walk_chain(rest, p, d, cur);
            assert(w == walk(rest, p, d, cur));
            assert forall|i: int| 0 <= i < w.len() implies above(cur, (#[trigger] w[i]).name) by {
                assert(w[i] == walk(rest, p, d, cur)[i]);
            }
            assert forall|i: int, j: int| 0 <= i < j < w.len() implies lex_lt(
                (#[trigger] w[i]).name,
                (#[trigger] w[j]).name,
            ) by {
                assert(w[i] == walk(rest, p, d, cur)[i]);
                assert(w[j] == walk(rest, p, d, cur)[j]);
            }
        }
    }
}

/// The walk splits at any scan position: the tail continues from the
/// cursor the head reached.
pub proof fn lemma_walk_split(
    s: Seq<Seq<u8>>,
    p: Seq<u8>,
    d: Option<u8>,
    cur: Option<Seq<u8>>,
    j: int,
)
    requires
        0 <= j <= s.len(),
    ensures
        walk(s, p, d, cur) == walk(s.take(j), p, d, cur) + walk(
            s.skip(j),
            p,
            d,
            walk_cur(walk(s.take(j), p, d, cur), cur),
        ),
    decreases j,
{
    if j == 0 {
        assert(s.take(0) =~= Seq::<Seq<u8>>::empty());
        assert(s.skip(0) =~= s);
        assert(walk(s, p, d, cur) =~= walk(s.take(0), p, d, cur) + walk(
            s.skip(0),
            p,
            d,
            walk_cur(walk(s.take(0), p, d, cur), cur),
        ));
    } else {
        let s0 = s[0];
        let rest = s.drop_first();
        let e0 = entry_str(s0, p.len() as int, d);
        assert(s.take(j)[0] == s0);
        assert(s.take(j).drop_first() =~= rest.take(j - 1));
        assert(s.skip(j) =~= rest.skip(j - 1));
        if is_prefix(p, s0) && above(cur, e0) {
            lemma_walk_split(rest, p, d, Some(e0), j - 1);
            let wh = walk(rest.take(j - 1), p, d, Some(e0));
            assert(walk(s.take(j), p, d, cur) == seq![entry_of(s0, p.len() as int, d)] + wh);
            assert(walk_cur(walk(s.take(j), p, d, cur), cur) == walk_cur(wh, Some(e0)));
            assert(walk(s, p, d, cur) =~= walk(s.take(j), p, d, cur) + walk(
                s.skip(j),
                p,
                d,
                walk_cur(walk(s.take(j), p, d, cur), cur),
            ));
        } else {
            lemma_walk_split(rest, p, d, cur, j - 1);
            assert(walk(s, p, d, cur) =~= walk(s.take(j), p, d, cur) + walk(
                s.skip(j),
                p,
                d,
                walk_cur(walk(s.take(j), p, d, cur), cur),
            ));
        }
    }
}

/// The walk is nonempty exactly when some key passes the prefix filter and
/// the cursor.
pub proof fn lemma_walk_nonempty(s: Seq<Seq<u8>>, p: Seq<u8>, d: Option<u8>, cur: Option<Seq<u8>>)
    ensures
        walk(s, p, d, cur).len() > 0 <==> exists|i: int|
            0 <= i < s.len() && is_prefix(p, #[trigger] s[i]) && above(
                cur,
                entry_str(s[i], p.len() as int, d),
            ),
    decreases s.len(),
{
    if s.len() > 0 {
        let s0 = s[0];
        let rest = s.drop_first();
        let e0 = entry_str(s0, p.len() as int, d);
        if is_prefix(p, s0) && above(cur, e0) {
        } else {
            lemma_walk_nonempty(rest, p, d, cur);
            if walk(s, p, d, cur).len() > 0 {
                let i = choose|i: int|
                    0 <= i < rest.len() && is_prefix(p, #[trigger] rest[i]) && above(
                        cur,
                        entry_str(rest[i], p.len() as int, d),
                    );
                assert(s[i + 1] == rest[i]);
            }
            if exists|i: int|
                0 <= i < s.len() && is_prefix(p, #[trigger] s[i]) && above(
                    cur,
                    entry_str(s[i], p.len() as int, d),
                ) {
                let i = choose|i: int|
                    0 <= i < s.len() && is_prefix(p, #[trigger] s[i]) && above(
                        cur,
                        entry_str(s[i], p.len() as int, d),
                    );
                assert(i >= 1);
                assert(rest[i - 1] == s[i]);
            }
        }
    }
}

/// Pagination is exact: resuming the walk from its `n`-th entry yields
/// precisely the entries after position `n`.
pub proof fn lemma_walk_resume(
    s: Seq<Seq<u8>>,
    p: Seq<u8>,
    d: Option<u8>,
    cur: Option<Seq<u8>>,
    n: int,
)
    requires
        0 <= n < walk(s, p, d, cur).len(),
    ensures
        walk(s, p, d, Some(walk(s, p, d, cur)[n].name)) == walk(s, p, d, cur).skip(n + 1),
    decreases s.len(),
{
    let w = walk(s, p, d, cur);
    let s0 = s[0];
    let rest = s.drop_first();
    let e0 = entry_str(s0, p.len() as int, d);
    if is_prefix(p, s0) && above(cur, e0) {
        let wr = walk(rest, p, d, Some(e0));
        lemma_walk_chain(rest, p, d, Some(e0));
        if n == 0 {
            assert(w[0].name == e0);
            lemma_lex_irrefl(e0);
            assert(walk(s, p, d, Some(e0)) == wr);
            assert(wr =~= w.skip(1));
        } else {
            assert(w[n] == wr[n - 1]);
            let c = wr[n - 1].name;
            assert(lex_lt(e0, c));
            if lex_lt(c, e0) {
                lemma_lex_trans(e0, c, e0);
                lemma_lex_irrefl(e0);
            }
            assert(!above(Some(c), e0));
            assert(walk(s, p, d, Some(c)) == walk(rest, p, d, Some(c)));
            lemma_walk_resume(rest, p, d, Some(e0), n - 1);
            assert(walk(rest, p, d, Some(c)) == wr.skip(n));
            assert(wr.skip(n) =~= w.skip(n + 1));
        }
    } else {
        assert(w == walk(rest, p, d, cur));
        lemma_walk_chain(rest, p, d, cur);
        let c = w[n].name;
        assert(w[n] == walk(rest, p, d, cur)[n]);
        assert(above(cur, walk(rest, p, d, cur)[n].name));
        if is_prefix(p, s0) {
            // the head key was already consumed by the incoming cursor
            let c0 = cur.unwrap();
            assert(!lex_lt(c0, e0));
            assert(lex_lt(c0, c));
            if lex_lt(c, e0) {
                crate::bytes::lemma_lex_trichotomy(c0, e0);
                if c0 == e0 {
                    lemma_lex_trans(c0, c, e0);
                    lemma_lex_irrefl(e0);
                } else {
                    lemma_lex_trans(c, e0, c0);
                    lemma_lex_trans(c, c0, c);
                    lemma_lex_irrefl(c);
                }
            }
            assert(!above(Some(c), e0));
        }
        lemma_walk_resume(rest, p, d, cur, n);
    }
}

// ---------------------------------------------------------------------------
// Executable listing
// ---------------------------------------------------------------------------

/// A page of listing results in the marker style.
pub struct ListObjectsOutput {
    /// Individual keys of the page, in byte-wise lexicographic order.
    pub keys: Vec<Vec<u8>>,
    /// Common prefixes of the page, in byte-wise lexicographic order.
    pub common_prefixes: Vec<Vec<u8>>,
    /// Whether entries beyond this page exist.
    pub is_truncated: bool,
    /// The last entry of the page when truncated: pass it back as the
    /// marker to resume strictly after it.
    pub next_marker: Option<Vec<u8>>,
}

/// A page of listing results in the continuation-token style.
pub struct ListObjectsV2Output {
    pub keys: Vec<Vec<u8>>,
    pub common_prefixes: Vec<Vec<u8>>,
    pub is_truncated: bool,
    /// Opaque continuation token: the last entry of the page.
    pub next_continuation_token: Option<Vec<u8>>,
}

/// Computes the entry a key contributes under `plen` and `delimiter`.
fn entry_for(k: &Vec<u8>, plen: usize, delimiter: Option<u8>) -> (r: (Vec<u8>, bool))
    requires
        plen <= k@.len(),
    ensures
        r.0@ == entry_str(k@, plen as int, delimiter),
        r.1 == rolls(k@, plen as int, delimiter),
{
    match delimiter {
        None => (bytes_clone(k), false),
        Some(d) => {
            let mut f: usize = plen;
            while f < k.len() && k[f] != d
                invariant
                    plen <= f <= k@.len(),
                    forall|m: int| plen <= m < f ==> k@[m] != d,
                decreases k@.len() - f,
            {
                f = f + 1;
            }
            proof {
                lemma_find_delim_at(k@, plen as int, f as int, d);
            }
            if f < k.len() {
                (bytes_slice(k, 0, f + 1), true)
            } else {
                (bytes_clone(k), false)
            }
        },
    }
}

/// A scan that stopped at `f` with no delimiter before it pins down
/// `find_delim`.
proof fn lemma_find_delim_at(k: Seq<u8>, from: int, f: int, d: u8)
    requires
        0 <= from <= f <= k.len(),
        forall|m: int| from <= m < f ==> k[m] != d,
        f == k.len() || k[f] == d,
    ensures
        find_delim(k, from, d) == f,
    decreases f - from,
{
    if from < f {
        lemma_find_delim_at(k, from + 1, f, d);
    }
}

impl Bucket {
    /// One page of the walk over this bucket's keys.
    pub(crate) fn list_page(
        &self,
        prefix: &Vec<u8>,
        delimiter: Option<u8>,
        cursor: &Option<Vec<u8>>,
        max_keys: usize,
    ) -> (r: ListObjectsOutput)
        requires
            self.wf(),
        ensures
            ({
                let w = walk(self.keys(), prefix@, delimiter, opt_view(*cursor));
                let page = page_of(w, max_keys as int);
                &&& views_of(r.keys@) == keys_of(page)
                &&& views_of(r.common_prefixes@) == commons_of(page)
                &&& r.is_truncated == (w.len() > max_keys)
                &&& opt_view(r.next_marker) == if w.len() > max_keys && max_keys > 0 {
                    Some(w[max_keys - 1].name)
                } else {
                    None::<Seq<u8>>
                }
            }),
    {
        let ghost bkeys = self.keys();
        let ghost cur0 = opt_view(*cursor);
        let ghost w = walk(bkeys, prefix@, delimiter, cur0);
        let mut keys_out: Vec<Vec<u8>> = Vec::new();
        let mut commons_out: Vec<Vec<u8>> = Vec::new();
        let mut cur_now: Option<Vec<u8>> = match cursor {
            None => None,
            Some(c) => Some(bytes_clone(c)),
        };
        let mut count: usize = 0;
        let ghost mut ents = Seq::<ListEntry>::empty();
        let mut j: usize = 0;
        proof {
            assert(bkeys.take(0) =~= Seq::<Seq<u8>>::empty());
        }
        while j < self.objects.len() && count < max_keys
            invariant
                self.wf(),
                j <= self.objects@.len(),
                bkeys == self.keys(),
                bkeys.len() == self.objects@.len(),
                count == ents.len(),
                count <= max_keys,
                ents == walk(bkeys.take(j as int), prefix@, delimiter, cur0),
                views_of(keys_out@) == keys_of(ents),
                views_of(commons_out@) == commons_of(ents),
                opt_view(cur_now) == walk_cur(ents, cur0),
            decreases self.objects@.len() - j,
        {
            proof {
                assert(bkeys[j as int] == self.objects@[j as int].key@);
                lemma_walk_push(bkeys.take(j as int), bkeys[j as int], prefix@, delimiter, cur0);
                assert(bkeys.take(j as int).push(bkeys[j as int]) =~= bkeys.take(j + 1));
            }
            let k_ref = &self.objects[j].key;
            if bytes_has_prefix(prefix, k_ref) {
                let (ename, ecommon) = entry_for(k_ref, prefix.len(), delimiter);
                let passes = match &cur_now {
                    None => true,
                    Some(c) => bytes_lt(c, &ename),
                };
                if passes {
                    let ghost e = entry_of(bkeys[j as int], prefix@.len() as int, delimiter);
                    let ghost prev_ents = ents;
                    let ghost prev_keys = keys_out@;
                    let ghost prev_commons = commons_out@;
                    proof {
                        ents = ents.push(e);
                        assert(ents.drop_last() =~= prev_ents);
                        assert(ents.last() == e);
                        assert(ents == walk(bkeys.take(j + 1), prefix@, delimiter, cur0));
                    }
                    if ecommon {
                        commons_out.push(bytes_clone(&ename));
                        proof {
                            crate::bytes::lemma_views_push(prev_commons, commons_out@.last());
                            assert(commons_out@.drop_last() =~= prev_commons);
                            assert(commons_out@ =~= prev_commons.push(commons_out@.last()));
                            assert(commons_of(ents) == commons_of(prev_ents).push(e.name));
                            assert(keys_of(ents) == keys_of(prev_ents));
                            assert(views_of(commons_out@) == views_of(prev_commons).push(
                                commons_out@.last()@,
                            ));
                        }
                    } else {
                        keys_out.push(bytes_clone(&ename));
                        proof {
                            crate::bytes::lemma_views_push(prev_keys, keys_out@.last());
                            assert(keys_out@.drop_last() =~= prev_keys);
                            assert(keys_out@ =~= prev_keys.push(keys_out@.last()));
                            assert(keys_of(ents) == keys_of(prev_ents).push(e.name));
                            assert(commons_of(ents) == commons_of(prev_ents));
                            assert(views_of(keys_out@) == views_of(prev_keys).push(
                                keys_out@.last()@,
                            ));
                        }
                    }
                    cur_now = Some(ename);
                    count = count + 1;
                }
            }
            proof {
                assert(ents == walk(bkeys.take(j + 1), prefix@, delimiter, cur0));
            }
            j = j + 1;
        }
        proof {
            lemma_walk_split(bkeys, prefix@, delimiter, cur0, j as int);
        }
        let mut truncated: bool = false;
        if count == max_keys {
            // the page is full; find out whether any further entry exists
            let ghost rem_cur = walk_cur(ents, cur0);
            let ghost mut wit: int = 0;
            let mut j2: usize = j;
            while j2 < self.objects.len() && !truncated
                invariant
                    self.wf(),
                    j <= j2 <= self.objects@.len(),
                    bkeys == self.keys(),
                    bkeys.len() == self.objects@.len(),
                    opt_view(cur_now) == rem_cur,
                    truncated ==> j <= wit < bkeys.len() && is_prefix(prefix@, bkeys[wit]) && above(
                        rem_cur,
                        entry_str(bkeys[wit], prefix@.len() as int, delimiter),
                    ),
                    !truncated ==> forall|m: int|
                        j <= m < j2 ==> !(is_prefix(prefix@, #[trigger] bkeys[m]) && above(
                            rem_cur,
                            entry_str(bkeys[m], prefix@.len() as int, delimiter),
                        )),
                decreases self.objects@.len() - j2 + (if truncated {
                    0int
                } else {
                    1int
                }),
            {
                proof {
                    assert(bkeys[j2 as int] == self.objects@[j2 as int].key@);
                }
                let k_ref = &self.objects[j2].key;
                let mut hit: bool = false;
                if bytes_has_prefix(prefix, k_ref) {
                    let (ename, _ecommon) = entry_for(k_ref, prefix.len(), delimiter);
                    let passes = match &cur_now {
                        None => true,
                        Some(c) => bytes_lt(c, &ename),
                    };
                    if passes {
                        proof {
                            wit = j2 as int;
                        }
                        truncated = true;
                        hit = true;
                    }
                }
                if !hit {
                    j2 = j2 + 1;
                }
            }
            proof {
                lemma_walk_nonempty(bkeys.skip(j as int), prefix@, delimiter, rem_cur);
                if truncated {
                    assert(bkeys.skip(j as int)[wit - j] == bkeys[wit]);
                    assert(walk(bkeys.skip(j as int), prefix@, delimiter, rem_cur).len() > 0);
                } else {
                    assert forall|i: int|
                        0 <= i < bkeys.skip(j as int).len() implies !(is_prefix(
                        prefix@,
                        #[trigger] bkeys.skip(j as int)[i],
                    ) && above(
                        rem_cur,
                        entry_str(bkeys.skip(j as int)[i], prefix@.len() as int, delimiter),
                    )) by {
                        assert(bkeys.skip(j as int)[i] == bkeys[i + j]);
                    }
                    assert(walk(bkeys.skip(j as int), prefix@, delimiter, rem_cur).len() == 0);
                }
            }
        } else {
            proof {
                assert(j == self.objects@.len());
                assert(bkeys.take(j as int) =~= bkeys);
                assert(bkeys.skip(j as int) =~= Seq::<Seq<u8>>::empty());
                assert(w == ents);
            }
        }
        proof {
            assert(w == ents + walk(bkeys.skip(j as int), prefix@, delimiter, walk_cur(ents, cur0)));
            if truncated {
                assert(w.len() > max_keys);
                assert(page_of(w, max_keys as int) =~= ents);
            } else {
                assert(w =~= ents);
                assert(page_of(w, max_keys as int) =~= ents);
            }
        }
        let next_marker: Option<Vec<u8>> = if truncated && count > 0 {
            match &cur_now {
                Some(c) => {
                    proof {
                        assert(w[max_keys - 1] == ents[max_keys - 1]);
                        assert(ents.last() == ents[max_keys - 1]);
                    }
                    Some(bytes_clone(c))
                },
                None => None,
            }
        } else {
            None
        };
        ListObjectsOutput {
            keys: keys_out,
            common_prefixes: commons_out,
            is_truncated: truncated,
            next_marker,
        }
    }
}

impl FileSystem {
    /// Lists the bucket's keys under `prefix`, grouped by `delimiter`,
    /// resuming strictly after `marker`, with at most `max_keys` entries
    /// (keys and common prefixes combined) per page.
    pub fn list_objects(
        &self,
        bucket: &Vec<u8>,
        prefix: &Vec<u8>,
        delimiter: Option<u8>,
        marker: &Option<Vec<u8>>,
        max_keys: usize,
    ) -> (r: Result<ListObjectsOutput, StorageError>)
        requires
            self.wf(),
        ensures
            match r {
                Ok(out) => {
                    &&& self.has_bucket(bucket@)
                    &&& {
                        let w = walk(
                            self.bucket(bucket@).keys(),
                            prefix@,
                            delimiter,
                            opt_view(*marker),
                        );
                        let page = page_of(w, max_keys as int);
                        &&& views_of(out.keys@) == keys_of(page)
                        &&& views_of(out.common_prefixes@) == commons_of(page)
                        &&& out.is_truncated == (w.len() > max_keys)
                        &&& opt_view(out.next_marker) == if w.len() > max_keys && max_keys > 0 {
                            Some(w[max_keys - 1].name)
                        } else {
                            None::<Seq<u8>>
                        }
                    }
                },
                Err(e) => e == StorageError::NoSuchBucket && !self.has_bucket(bucket@),
            },
    {
        let bi = match self.find_bucket(bucket) {
            None => return Err(StorageError::NoSuchBucket),
            Some(i) => i,
        };
        Ok(self.buckets[bi].list_page(prefix, delimiter, marker, max_keys))
    }

    /// Token-style listing over the same cursor logic: the continuation
    /// token (the last entry of the previous page) wins over `start_after`.
    pub fn list_objects_v2(
        &self,
        bucket: &Vec<u8>,
        prefix: &Vec<u8>,
        delimiter: Option<u8>,
        continuation_token: &Option<Vec<u8>>,
        start_after: &Option<Vec<u8>>,
        max_keys: usize,
    ) -> (r: Result<ListObjectsV2Output, StorageError>)
        requires
            self.wf(),
        ensures
            match r {
                Ok(out) => {
                    &&& self.has_bucket(bucket@)
                    &&& {
                        let cur = v2_cursor(opt_view(*continuation_token), opt_view(*start_after));
                        let w = walk(self.bucket(bucket@).keys(), prefix@, delimiter, cur);
                        let page = page_of(w, max_keys as int);
                        &&& views_of(out.keys@) == keys_of(page)
                        &&& views_of(out.common_prefixes@) == commons_of(page)
                        &&& out.is_truncated == (w.len() > max_keys)
                        &&& opt_view(out.next_continuation_token) == if w.len() > max_keys
                            && max_keys > 0 {
                            Some(w[max_keys - 1].name)
                        } else {
                            None::<Seq<u8>>
                        }
                    }
                },
                Err(e) => e == StorageError::NoSuchBucket && !self.has_bucket(bucket@),
            },
    {
        let bi = match self.find_bucket(bucket) {
            None => return Err(StorageError::NoSuchBucket),
            Some(i) => i,
        };
        let cursor: Option<Vec<u8>> = match continuation_token {
            Some(t) => Some(bytes_clone(t)),
            None => match start_after {
                Some(sa) => Some(bytes_clone(sa)),
                None => None,
            },
        };
        let page = self.buckets[bi].list_page(prefix, delimiter, &cursor, max_keys);
        Ok(
            ListObjectsV2Output {
                keys: page.keys,
                common_prefixes: page.common_prefixes,
                is_truncated: page.is_truncated,
                next_continuation_token: page.next_marker,
            },
        )
    }
}

} // verus!
