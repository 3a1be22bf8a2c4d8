//! Object CRUD: put, get, head, delete, batched delete and copy.
//!
//! Every mutation follows the same discipline: validate, resolve, then
//! commit as one atomic edit of the sorted object table.  An operation that
//! returns an error leaves the engine exactly as it was, so a failed put can
//! never damage a previously committed object.

use vstd::prelude::*;
use crate::bytes::{lex_lt, bytes_eq, bytes_clone, bytes_slice, lemma_lex_irrefl};
use crate::checksum::{fingerprint, checksum_bytes};
use crate::errors::StorageError;
use crate::names::{valid_bucket_name, valid_key, key_conflicts};
use crate::store::{FileSystem, lemma_bucket_update, lemma_bucket_index_is};
use crate::types::{
    Bucket,
    GetObjectOutput,
    ObjectMeta,
    ObjectView,
    PutObjectOutput,
    StoredObject,
    meta_view,
};

verus! {

/// The logical clock after one commit; it saturates rather than wraps.
pub open spec fn clock_tick(c: u64) -> u64 {
    if c < u64::MAX {
        (c + 1) as u64
    } else {
        c
    }
}

/// Some committed key of `bk` would collide with `k` as leaf vs. directory.
pub open spec fn bucket_conflict_exists(bk: Bucket, k: Seq<u8>) -> bool {
    exists|i: int|
        0 <= i < bk.objects@.len() && key_conflicts((#[trigger] bk.objects@[i]).key@, k)
}

/// The first failure `put_object` reports for this request, if any.
pub open spec fn put_check(s: FileSystem, b: Seq<u8>, k: Seq<u8>) -> Option<StorageError> {
    if !valid_bucket_name(b) || !valid_key(k) {
        Some(StorageError::InvalidName)
    } else if !s.has_bucket(b) {
        Some(StorageError::NoSuchBucket)
    } else if bucket_conflict_exists(s.bucket(b), k) {
        Some(StorageError::InvalidName)
    } else {
        None
    }
}

/// The first failure `get_object` or `head_object` reports, if any.
pub open spec fn get_check(
    s: FileSystem,
    b: Seq<u8>,
    k: Seq<u8>,
    range: Option<(usize, usize)>,
) -> Option<StorageError> {
    if !s.has_bucket(b) {
        Some(StorageError::NoSuchBucket)
    } else if !s.bucket(b).has_key(k) {
        Some(StorageError::NoSuchKey)
    } else {
        match range {
            None => None,
            Some((start, end)) => if start > end || start >= s.bucket(b).obj(k).content.len() {
                Some(StorageError::InvalidRange)
            } else {
                None
            },
        }
    }
}

/// The first failure `copy_object` reports: the source is resolved before
/// the destination is validated.
pub open spec fn copy_check(
    s: FileSystem,
    sb: Seq<u8>,
    sk: Seq<u8>,
    db: Seq<u8>,
    dk: Seq<u8>,
) -> Option<StorageError> {
    if !s.has_bucket(sb) {
        Some(StorageError::NoSuchBucket)
    } else if !s.bucket(sb).has_key(sk) {
        Some(StorageError::NoSuchKey)
    } else {
        put_check(s, db, dk)
    }
}

/// One committed write to the object tables: afterwards `(b, k)` holds
/// exactly `ov` and no other address moved.  Both `put_object` and
/// `complete_multipart_upload` commit this way.
pub open spec fn commit_step(
    pre: FileSystem,
    post: FileSystem,
    b: Seq<u8>,
    k: Seq<u8>,
    ov: ObjectView,
) -> bool {
    &&& post.obj_view(b, k) == Some(ov)
    &&& pre.same_objects_except(post, b, k)
}

/// A plain put: a committed write that also leaves the staging area and
/// the root untouched.
pub open spec fn put_step(
    pre: FileSystem,
    post: FileSystem,
    b: Seq<u8>,
    k: Seq<u8>,
    ov: ObjectView,
) -> bool {
    &&& commit_step(pre, post, b, k, ov)
    &&& post.uploads@ == pre.uploads@
    &&& post.root@ == pre.root@
}

// ---------------------------------------------------------------------------
// Frame lemmas for one edit of a bucket's sorted object table
// ---------------------------------------------------------------------------

/// Inserting a fresh object at its sorted position.
pub proof fn lemma_store_insert(pre: Bucket, post: Bucket, pos: int, o: StoredObject)
    requires
        pre.wf(),
        0 <= pos <= pre.objects@.len(),
        post.name == pre.name,
        post.objects@ == pre.objects@.insert(pos, o),
        valid_key(o.key@),
        o.checksum == fingerprint(o.content@),
        forall|j: int|
            0 <= j < pre.objects@.len() ==> !key_conflicts(
                (#[trigger] pre.objects@[j]).key@,
                o.key@,
            ),
        forall|j: int| 0 <= j < pos ==> lex_lt((#[trigger] pre.objects@[j]).key@, o.key@),
        forall|j: int|
            pos <= j < pre.objects@.len() ==> lex_lt(o.key@, (#[trigger] pre.objects@[j]).key@),
    ensures
        post.wf(),
        post.has_key(o.key@),
        post.obj(o.key@) == o@,
        forall|k: Seq<u8>| k != o.key@ ==> post.has_key(k) == pre.has_key(k),
        forall|k: Seq<u8>| k != o.key@ && pre.has_key(k) ==> post.obj(k) == pre.obj(k),
{
    let pr = pre.objects@;
    let po = post.objects@;
    assert(po.len() == pr.len() + 1);
    assert(forall|j: int| 0 <= j < pos ==> po[j] == pr[j]);
    assert(po[pos] == o);
    assert(forall|j: int| pos < j < po.len() ==> po[j] == pr[j - 1]);
    assert forall|i: int, j: int| 0 <= i < j < po.len() implies lex_lt(
        (#[trigger] po[i]).key@,
        (#[trigger] po[j]).key@,
    ) by {}
    assert forall|i: int, j: int|
        0 <= i < po.len() && 0 <= j < po.len() && i != j implies !key_conflicts(
        (#[trigger] po[i]).key@,
        (#[trigger] po[j]).key@,
    ) by {
        let oi: int = if i < pos { i } else { i - 1 };
        let oj: int = if j < pos { j } else { j - 1 };
        if i == pos || j == pos {
        } else {
            assert(po[i] == pr[oi] && po[j] == pr[oj]);
        }
    }
    assert(post.wf());
    post.lemma_key_index_is(pos);
    assert forall|k: Seq<u8>| k != o.key@ implies post.has_key(k) == pre.has_key(k) by {
        if pre.has_key(k) {
            let j = pre.key_index(k);
            let pj: int = if j < pos { j } else { j + 1 };
            assert(po[pj].key@ == k);
        }
        if post.has_key(k) {
            let j = post.key_index(k);
            if j < pos {
                assert(pr[j].key@ == k);
            } else if j > pos {
                assert(pr[j - 1].key@ == k);
            }
        }
    }
    assert forall|k: Seq<u8>| k != o.key@ && pre.has_key(k) implies post.obj(k) == pre.obj(k) by {
        let j = pre.key_index(k);
        pre.lemma_key_index_is(j);
        let pj: int = if j < pos { j } else { j + 1 };
        assert(po[pj].key@ == k);
        post.lemma_key_index_is(pj);
        assert(po[pj] == pr[j]);
    }
}

/// Overwriting the object at `pos` with one of the same key.
pub proof fn lemma_store_update(pre: Bucket, post: Bucket, pos: int, o: StoredObject)
    requires
        pre.wf(),
        0 <= pos < pre.objects@.len(),
        post.name == pre.name,
        post.objects@ == pre.objects@.update(pos, o),
        o.key@ == pre.objects@[pos].key@,
        o.checksum == fingerprint(o.content@),
    ensures
        post.wf(),
        post.has_key(o.key@),
        post.obj(o.key@) == o@,
        forall|k: Seq<u8>| post.has_key(k) == pre.has_key(k),
        forall|k: Seq<u8>| k != o.key@ && pre.has_key(k) ==> post.obj(k) == pre.obj(k),
{
    let pr = pre.objects@;
    let po = post.objects@;
    assert(forall|j: int| 0 <= j < po.len() ==> (#[trigger] po[j]).key@ == pr[j].key@);
    assert forall|i: int, j: int|
        0 <= i < po.len() && 0 <= j < po.len() && i != j implies !key_conflicts(
        (#[trigger] po[i]).key@,
        (#[trigger] po[j]).key@,
    ) by {
        assert(!key_conflicts(pr[i].key@, pr[j].key@));
    }
    assert(post.wf());
    post.lemma_key_index_is(pos);
    assert forall|k: Seq<u8>| post.has_key(k) == pre.has_key(k) by {
        if pre.has_key(k) {
            let j = pre.key_index(k);
            assert(po[j].key@ == k);
        }
        if post.has_key(k) {
            let j = post.key_index(k);
            assert(pr[j].key@ == k);
        }
    }
    assert forall|k: Seq<u8>| k != o.key@ && pre.has_key(k) implies post.obj(k) == pre.obj(k) by {
        let j = pre.key_index(k);
        pre.lemma_key_index_is(j);
        post.lemma_key_index_is(j);
        assert(po[j] == pr[j]);
    }
}

/// Removing the object at `pos` removes exactly its key.
pub proof fn lemma_store_remove(pre: Bucket, post: Bucket, pos: int)
    requires
        pre.wf(),
        0 <= pos < pre.objects@.len(),
        post.name == pre.name,
        post.objects@ == pre.objects@.remove(pos),
    ensures
        post.wf(),
        !post.has_key(pre.objects@[pos].key@),
        forall|k: Seq<u8>|
            k != pre.objects@[pos].key@ ==> post.has_key(k) == pre.has_key(k),
        forall|k: Seq<u8>|
            k != pre.objects@[pos].key@ && pre.has_key(k) ==> post.obj(k) == pre.obj(k),
{
    let pr = pre.objects@;
    let po = post.objects@;
    let rk = pr[pos].key@;
    assert(po.len() == pr.len() - 1);
    assert(forall|j: int| 0 <= j < pos ==> po[j] == pr[j]);
    assert(forall|j: int| pos <= j < po.len() ==> po[j] == pr[j + 1]);
    assert forall|i: int, j: int| 0 <= i < j < po.len() implies lex_lt(
        (#[trigger] po[i]).key@,
        (#[trigger] po[j]).key@,
    ) by {}
    assert forall|i: int, j: int|
        0 <= i < po.len() && 0 <= j < po.len() && i != j implies !key_conflicts(
        (#[trigger] po[i]).key@,
        (#[trigger] po[j]).key@,
    ) by {
        let oi: int = if i < pos { i } else { i + 1 };
        let oj: int = if j < pos { j } else { j + 1 };
        assert(po[i] == pr[oi] && po[j] == pr[oj]);
    }
    assert(post.wf());
    if post.has_key(rk) {
        let j = post.key_index(rk);
        if j < pos {
            lemma_lex_irrefl(rk);
        } else {
            lemma_lex_irrefl(rk);
        }
    }
    assert forall|k: Seq<u8>| k != rk implies post.has_key(k) == pre.has_key(k) by {
        if pre.has_key(k) {
            let j = pre.key_index(k);
            pre.lemma_key_index_is(j);
            let pj: int = if j < pos { j } else { j - 1 };
            assert(po[pj].key@ == k);
        }
        if post.has_key(k) {
            let j = post.key_index(k);
            if j < pos {
                assert(pr[j].key@ == k);
            } else {
                assert(pr[j + 1].key@ == k);
            }
        }
    }
    assert forall|k: Seq<u8>| k != rk && pre.has_key(k) implies post.obj(k) == pre.obj(k) by {
        let j = pre.key_index(k);
        pre.lemma_key_index_is(j);
        let pj: int = if j < pos { j } else { j - 1 };
        assert(po[pj].key@ == k);
        post.lemma_key_index_is(pj);
        assert(po[pj] == pr[j]);
    }
}

/// A fresh copy of a user-metadata record.
pub fn clone_meta(m: &Vec<(Vec<u8>, Vec<u8>)>) -> (r: Vec<(Vec<u8>, Vec<u8>)>)
    ensures
        meta_view(r@) == meta_view(m@),
{
    let mut out: Vec<(Vec<u8>, Vec<u8>)> = Vec::new();
    let mut i: usize = 0;
    while i < m.len()
        invariant
            i <= m@.len(),
            out@.len() == i,
            meta_view(out@) == meta_view(m@.take(i as int)),
        decreases m.len() - i,
    {
        let k = bytes_clone(&m[i].0);
        let v = bytes_clone(&m[i].1);
        let ghost kk = k@;
        let ghost vv = v@;
        let ghost prev = out@;
        out.push((k, v));
        proof {
            assert forall|j: int| 0 <= j < i + 1 implies #[trigger] meta_view(out@)[j] == meta_view(
                m@.take(i + 1),
            )[j] by {
                assert(m@.take(i + 1)[j] == m@[j]);
                if j < i {
                    assert(out@[j] == prev[j]);
                    assert(meta_view(prev)[j] == meta_view(m@.take(i as int))[j]);
                    assert(m@.take(i as int)[j] == m@[j]);
                } else {
                    assert(out@[j].0@ == kk && out@[j].1@ == vv);
                }
            }
            assert(meta_view(out@) =~= meta_view(m@.take(i + 1)));
        }
        i = i + 1;
    }
    proof {
        assert(m@.take(m@.len() as int) =~= m@);
    }
    out
}

impl Bucket {
    /// Finds the position of `key` in the sorted object table.
    pub(crate) fn find_object(&self, key: &Vec<u8>) -> (r: Option<usize>)
        requires
            self.wf(),
        ensures
            match r {
                Some(i) => {
                    &&& i < self.objects@.len()
                    &&& self.objects@[i as int].key@ == key@
                    &&& self.has_key(key@)
                    &&& self.key_index(key@) == i as int
                },
                None => !self.has_key(key@),
            },
    {
        let mut i: usize = 0;
        while i < self.objects.len()
            invariant
                self.wf(),
                i <= self.objects@.len(),
                forall|j: int| 0 <= j < i ==> (#[trigger] self.objects@[j]).key@ != key@,
            decreases self.objects@.len() - i,
        {
            if bytes_eq(&self.objects[i].key, key) {
                proof {
                    self.lemma_key_index_is(i as int);
                }
                return Some(i);
            }
            i = i + 1;
        }
        None
    }

    /// Commits `o` into the sorted table, replacing any object of the same
    /// key.
    pub(crate) fn store_object(&mut self, o: StoredObject)
        requires
            old(self).wf(),
            valid_key(o.key@),
            o.checksum == fingerprint(o.content@),
            forall|j: int|
                0 <= j < old(self).objects@.len() ==> !key_conflicts(
                    (#[trigger] old(self).objects@[j]).key@,
                    o.key@,
                ),
        ensures
            final(self).wf(),
            final(self).name == old(self).name,
            final(self).has_key(o.key@),
            final(self).obj(o.key@) == o@,
            forall|k: Seq<u8>| k != o.key@ ==> final(self).has_key(k) == old(self).has_key(k),
            forall|k: Seq<u8>|
                k != o.key@ && old(self).has_key(k) ==> final(self).obj(k) == old(self).obj(k),
    {
        let ghost okey = o.key@;
        let mut pos: usize = 0;
        while pos < self.objects.len() && lex_lt_exec_helper(&self.objects[pos].key, &o.key)
            invariant
                self.wf(),
                *self == *old(self),
                pos <= self.objects@.len(),
                forall|j: int| 0 <= j < pos ==> lex_lt((#[trigger] self.objects@[j]).key@, o.key@),
            decreases self.objects@.len() - pos,
        {
            pos = pos + 1;
        }
        let ghost pre = *self;
        if pos < self.objects.len() && bytes_eq(&self.objects[pos].key, &o.key) {
            let ghost og = o;
            self.objects.remove(pos);
            self.objects.insert(pos, o);
            proof {
                assert(self.objects@ =~= pre.objects@.update(pos as int, og));
                lemma_store_update(pre, *self, pos as int, og);
            }
        } else {
            proof {
                assert forall|j: int| pos <= j < pre.objects@.len() implies lex_lt(
                    okey,
                    (#[trigger] pre.objects@[j]).key@,
                ) by {
                    crate::bytes::lemma_lex_trichotomy(okey, pre.objects@[pos as int].key@);
                    if j > pos {
                        crate::bytes::lemma_lex_trans(
                            okey,
                            pre.objects@[pos as int].key@,
                            pre.objects@[j].key@,
                        );
                    }
                }
            }
            let ghost og = o;
            self.objects.insert(pos, o);
            proof {
                lemma_store_insert(pre, *self, pos as int, og);
            }
        }
    }
}

/// Byte-wise strict comparison; small wrapper so a loop condition stays a
/// plain call.
fn lex_lt_exec_helper(a: &Vec<u8>, b: &Vec<u8>) -> (r: bool)
    ensures
        r == lex_lt(a@, b@),
{
    crate::bytes::bytes_lt(a, b)
}

impl FileSystem {
    /// Stores an object under `(bucket, key)`, replacing any previous one.
    /// The commit is atomic: on any failure the engine, and in particular
    /// any previously committed object under this key, is unchanged.
    pub fn put_object(
        &mut self,
        bucket: &Vec<u8>,
        key: &Vec<u8>,
        content: Vec<u8>,
        content_type: Vec<u8>,
        user_meta: Vec<(Vec<u8>, Vec<u8>)>,
    ) -> (r: Result<PutObjectOutput, StorageError>)
        requires
            old(self).wf(),
        ensures
            final(self).wf(),
            match r {
                Ok(out) => {
                    &&& put_check(*old(self), bucket@, key@) == None::<StorageError>
                    &&& put_step(
                        *old(self),
                        *final(self),
                        bucket@,
                        key@,
                        ObjectView {
                            content: content@,
                            content_type: content_type@,
                            user_meta: meta_view(user_meta@),
                            last_modified: old(self).clock,
                            checksum: fingerprint(content@),
                        },
                    )
                    &&& out.size == content@.len()
                    &&& out.checksum == fingerprint(content@)
                    &&& out.last_modified == old(self).clock
                    &&& final(self).clock == clock_tick(old(self).clock)
                    &&& final(self).next_upload_id == old(self).next_upload_id
                },
                Err(e) => {
                    &&& put_check(*old(self), bucket@, key@) == Some(e)
                    &&& *final(self) == *old(self)
                },
            },
    {
        if !crate::names::check_bucket_name(bucket) || !crate::names::check_key(key) {
            return Err(StorageError::InvalidName);
        }
        let bi = match self.find_bucket(bucket) {
            None => return Err(StorageError::NoSuchBucket),
            Some(i) => i,
        };
        let mut j: usize = 0;
        while j < self.buckets[bi].objects.len()
            invariant
                self.wf(),
                *self == *old(self),
                bi < self.buckets@.len(),
                self.buckets@[bi as int].name@ == bucket@,
                self.bucket(bucket@) == self.buckets@[bi as int],
                j <= self.buckets@[bi as int].objects@.len(),
                forall|m: int|
                    0 <= m < j ==> !key_conflicts(
                        (#[trigger] self.buckets@[bi as int].objects@[m]).key@,
                        key@,
                    ),
            decreases self.buckets@[bi as int].objects@.len() - j,
        {
            if crate::names::keys_conflict(&self.buckets[bi].objects[j].key, key) {
                return Err(StorageError::InvalidName);
            }
            j = j + 1;
        }
        let size = content.len();
        let csum = checksum_bytes(&content);
        let stamp = self.clock;
        let o = StoredObject {
            key: bytes_clone(key),
            content,
            content_type,
            user_meta,
            last_modified: stamp,
            checksum: csum,
        };
        let ghost og = o;
        let ghost prefs = *self;
        let mut bk = self.buckets.remove(bi);
        let ghost prebk = bk;
        bk.store_object(o);
        let ghost postbk = bk;
        self.buckets.insert(bi, bk);
        self.clock = if stamp < u64::MAX {
            stamp + 1
        } else {
            stamp
        };
        proof {
            assert(self.buckets@ =~= prefs.buckets@.update(bi as int, postbk));
            lemma_bucket_update(prefs.buckets@, self.buckets@, bi as int, postbk);
            assert forall|b2: Seq<u8>, k2: Seq<u8>| !(b2 == bucket@ && k2 == key@) implies
                #[trigger] self.obj_view(b2, k2) == prefs.obj_view(b2, k2) by {
                if b2 == bucket@ {
                    assert(self.bucket(b2) == postbk);
                    assert(prefs.bucket(b2) == prebk);
                }
            }
            assert(self.obj_view(bucket@, key@) == Some(og@));
        }
        Ok(PutObjectOutput { size, checksum: csum, last_modified: stamp })
    }

    /// Reads an object's bytes (optionally a byte range, inclusive on both
    /// ends) and its metadata.
    pub fn get_object(
        &self,
        bucket: &Vec<u8>,
        key: &Vec<u8>,
        range: Option<(usize, usize)>,
    ) -> (r: Result<GetObjectOutput, StorageError>)
        requires
            self.wf(),
        ensures
            match r {
                Ok(out) => {
                    &&& get_check(*self, bucket@, key@, range) == None::<StorageError>
                    &&& {
                        let ov = self.bucket(bucket@).obj(key@);
                        &&& out.meta.size == ov.content.len()
                        &&& out.meta.content_type@ == ov.content_type
                        &&& meta_view(out.meta.user_meta@) == ov.user_meta
                        &&& out.meta.last_modified == ov.last_modified
                        &&& out.meta.checksum == ov.checksum
                        &&& out.body@ == match range {
                            None => ov.content,
                            Some((start, end)) => ov.content.subrange(
                                start as int,
                                if end + 1 <= ov.content.len() {
                                    end + 1
                                } else {
                                    ov.content.len() as int
                                },
                            ),
                        }
                    }
                },
                Err(e) => get_check(*self, bucket@, key@, range) == Some(e),
            },
    {
        let bi = match self.find_bucket(bucket) {
            None => return Err(StorageError::NoSuchBucket),
            Some(i) => i,
        };
        let oi = match self.buckets[bi].find_object(key) {
            None => return Err(StorageError::NoSuchKey),
            Some(i) => i,
        };
        let o = &self.buckets[bi].objects[oi];
        let body = match range {
            None => bytes_clone(&o.content),
            Some((start, end)) => {
                if start > end || start >= o.content.len() {
                    return Err(StorageError::InvalidRange);
                }
                let end_excl = if end < o.content.len() - 1 {
                    end + 1
                } else {
                    o.content.len()
                };
                bytes_slice(&o.content, start, end_excl)
            },
        };
        Ok(
            GetObjectOutput {
                body,
                meta: ObjectMeta {
                    size: o.content.len(),
                    content_type: bytes_clone(&o.content_type),
                    user_meta: clone_meta(&o.user_meta),
                    last_modified: o.last_modified,
                    checksum: o.checksum,
                },
            },
        )
    }

    /// Reads an object's metadata without its bytes.
    pub fn head_object(&self, bucket: &Vec<u8>, key: &Vec<u8>) -> (r: Result<
        ObjectMeta,
        StorageError,
    >)
        requires
            self.wf(),
        ensures
            match r {
                Ok(out) => {
                    &&& get_check(*self, bucket@, key@, None) == None::<StorageError>
                    &&& {
                        let ov = self.bucket(bucket@).obj(key@);
                        &&& out.size == ov.content.len()
                        &&& out.content_type@ == ov.content_type
                        &&& meta_view(out.user_meta@) == ov.user_meta
                        &&& out.last_modified == ov.last_modified
                        &&& out.checksum == ov.checksum
                    }
                },
                Err(e) => get_check(*self, bucket@, key@, None) == Some(e),
            },
    {
        let bi = match self.find_bucket(bucket) {
            None => return Err(StorageError::NoSuchBucket),
            Some(i) => i,
        };
        let oi = match self.buckets[bi].find_object(key) {
            None => return Err(StorageError::NoSuchKey),
            Some(i) => i,
        };
        let o = &self.buckets[bi].objects[oi];
        Ok(
            ObjectMeta {
                size: o.content.len(),
                content_type: bytes_clone(&o.content_type),
                user_meta: clone_meta(&o.user_meta),
                last_modified: o.last_modified,
                checksum: o.checksum,
            },
        )
    }

    /// Deletes the object if present.  Idempotent: deleting an absent key
    /// succeeds and changes nothing at all.
    pub fn delete_object(&mut self, bucket: &Vec<u8>, key: &Vec<u8>) -> (r: Result<
        (),
        StorageError,
    >)
        requires
            old(self).wf(),
        ensures
            final(self).wf(),
            match r {
                Ok(_) => {
                    &&& old(self).has_bucket(bucket@)
                    &&& final(self).obj_view(bucket@, key@) == None::<ObjectView>
                    &&& old(self).same_objects_except(*final(self), bucket@, key@)
                    &&& final(self).uploads@ == old(self).uploads@
                    &&& final(self).root@ == old(self).root@
                    &&& final(self).clock == old(self).clock
                    &&& final(self).next_upload_id == old(self).next_upload_id
                    &&& !old(self).bucket(bucket@).has_key(key@) ==> *final(self) == *old(self)
                },
                Err(e) => {
                    &&& e == StorageError::NoSuchBucket
                    &&& !old(self).has_bucket(bucket@)
                    &&& *final(self) == *old(self)
                },
            },
    {
        let bi = match self.find_bucket(bucket) {
            None => return Err(StorageError::NoSuchBucket),
            Some(i) => i,
        };
        let oi = match self.buckets[bi].find_object(key) {
            None => return Ok(()),
            Some(i) => i,
        };
        let ghost prefs = *self;
        let mut bk = self.buckets.remove(bi);
        let ghost prebk = bk;
        bk.objects.remove(oi);
        let ghost postbk = bk;
        self.buckets.insert(bi, bk);
        proof {
            lemma_store_remove(prebk, postbk, oi as int);
            assert(self.buckets@ =~= prefs.buckets@.update(bi as int, postbk));
            lemma_bucket_update(prefs.buckets@, self.buckets@, bi as int, postbk);
            assert forall|b2: Seq<u8>, k2: Seq<u8>| !(b2 == bucket@ && k2 == key@) implies
                #[trigger] self.obj_view(b2, k2) == prefs.obj_view(b2, k2) by {
                if b2 == bucket@ {
                    assert(self.bucket(b2) == postbk);
                    assert(prefs.bucket(b2) == prebk);
                }
            }
        }
        Ok(())
    }

    /// Deletes a batch of keys.  The whole batch fails only if the bucket is
    /// missing; per-key failures cannot arise here, so every flag reports
    /// success and the corresponding key is absent afterwards.
    pub fn delete_objects(&mut self, bucket: &Vec<u8>, keys: &Vec<Vec<u8>>) -> (r: Result<
        Vec<bool>,
        StorageError,
    >)
        requires
            old(self).wf(),
        ensures
            final(self).wf(),
            match r {
                Ok(out) => {
                    &&& old(self).has_bucket(bucket@)
                    &&& out@.len() == keys@.len()
                    &&& forall|i: int| 0 <= i < out@.len() ==> out@[i]
                    &&& forall|n: Seq<u8>|
                        final(self).has_bucket(n) == old(self).has_bucket(n)
                    &&& forall|k2: Seq<u8>|
                        #[trigger] final(self).obj_view(bucket@, k2) == if crate::bytes::views_of(
                            keys@,
                        ).contains(k2) {
                            None
                        } else {
                            old(self).obj_view(bucket@, k2)
                        }
                    &&& forall|b2: Seq<u8>, k2: Seq<u8>|
                        b2 != bucket@ ==> #[trigger] final(self).obj_view(b2, k2) == old(self).obj_view(
                            b2,
                            k2,
                        )
                    &&& final(self).uploads@ == old(self).uploads@
                    &&& final(self).root@ == old(self).root@
                    &&& final(self).clock == old(self).clock
                    &&& final(self).next_upload_id == old(self).next_upload_id
                },
                Err(e) => {
                    &&& e == StorageError::NoSuchBucket
                    &&& !old(self).has_bucket(bucket@)
                    &&& *final(self) == *old(self)
                },
            },
    {
        if self.find_bucket(bucket).is_none() {
            return Err(StorageError::NoSuchBucket);
        }
        let mut out: Vec<bool> = Vec::new();
        let mut i: usize = 0;
        while i < keys.len()
            invariant
                self.wf(),
                i <= keys@.len(),
                out@.len() == i,
                forall|j: int| 0 <= j < out@.len() ==> out@[j],
                old(self).has_bucket(bucket@),
                forall|n: Seq<u8>| self.has_bucket(n) == old(self).has_bucket(n),
                forall|k2: Seq<u8>|
                    #[trigger] self.obj_view(bucket@, k2) == if crate::bytes::views_of(
                        keys@.take(i as int),
                    ).contains(k2) {
                        None
                    } else {
                        old(self).obj_view(bucket@, k2)
                    },
                forall|b2: Seq<u8>, k2: Seq<u8>|
                    b2 != bucket@ ==> #[trigger] self.obj_view(b2, k2) == old(self).obj_view(
                        b2,
                        k2,
                    ),
                self.uploads@ == old(self).uploads@,
                self.root@ == old(self).root@,
                self.clock == old(self).clock,
                self.next_upload_id == old(self).next_upload_id,
            decreases keys@.len() - i,
        {
            let ghost mid = *self;
            let res = self.delete_object(bucket, &keys[i]);
            proof {
                assert(res is Ok);
                assert forall|k2: Seq<u8>|
                    #[trigger] self.obj_view(bucket@, k2) == if crate::bytes::views_of(
                        keys@.take(i + 1),
                    ).contains(k2) {
                        None
                    } else {
                        old(self).obj_view(bucket@, k2)
                    } by {
                    assert(crate::bytes::views_of(keys@.take(i + 1)) =~= crate::bytes::views_of(
                        keys@.take(i as int),
                    ).push(keys@[i as int]@));
                    let vs = crate::bytes::views_of(keys@.take(i as int));
                    if k2 == keys@[i as int]@ {
                        assert(self.obj_view(bucket@, k2) == None::<ObjectView>);
                        assert(vs.push(keys@[i as int]@).contains(k2)) by {
                            assert(vs.push(k2)[vs.len() as int] == k2);
                        }
                    } else {
                        assert(self.obj_view(bucket@, k2) == mid.obj_view(bucket@, k2));
                        assert(vs.push(keys@[i as int]@).contains(k2) == vs.contains(k2)) by {
                            if vs.contains(k2) {
                                let w = choose|w: int| 0 <= w < vs.len() && vs[w] == k2;
                                assert(vs.push(keys@[i as int]@)[w] == k2);
                            }
                            if vs.push(keys@[i as int]@).contains(k2) {
                                let w = choose|w: int|
                                    0 <= w < vs.len() + 1 && vs.push(keys@[i as int]@)[w] == k2;
                                if w < vs.len() {
                                    assert(vs[w] == k2);
                                }
                            }
                        }
                    }
                }
            }
            out.push(true);
            i = i + 1;
        }
        proof {
            assert(keys@.take(keys@.len() as int) =~= keys@);
        }
        Ok(out)
    }

    /// Copies an object byte for byte, with a fresh commit stamp, optionally
    /// replacing content type and user metadata.  The destination commit
    /// follows the same atomic discipline as `put_object`.
    pub fn copy_object(
        &mut self,
        src_bucket: &Vec<u8>,
        src_key: &Vec<u8>,
        dst_bucket: &Vec<u8>,
        dst_key: &Vec<u8>,
        replace: Option<(Vec<u8>, Vec<(Vec<u8>, Vec<u8>)>)>,
    ) -> (r: Result<PutObjectOutput, StorageError>)
        requires
            old(self).wf(),
        ensures
            final(self).wf(),
            match r {
                Ok(out) => {
                    &&& copy_check(*old(self), src_bucket@, src_key@, dst_bucket@, dst_key@)
                        == None::<StorageError>
                    &&& {
                        let src = old(self).bucket(src_bucket@).obj(src_key@);
                        &&& put_step(
                            *old(self),
                            *final(self),
                            dst_bucket@,
                            dst_key@,
                            ObjectView {
                                content: src.content,
                                content_type: match replace {
                                    None => src.content_type,
                                    Some(rp) => rp.0@,
                                },
                                user_meta: match replace {
                                    None => src.user_meta,
                                    Some(rp) => meta_view(rp.1@),
                                },
                                last_modified: old(self).clock,
                                checksum: src.checksum,
                            },
                        )
                        &&& out.size == src.content.len()
                        &&& out.checksum == src.checksum
                        &&& out.last_modified == old(self).clock
                    }
                    &&& final(self).clock == clock_tick(old(self).clock)
                    &&& final(self).next_upload_id == old(self).next_upload_id
                },
                Err(e) => {
                    &&& copy_check(*old(self), src_bucket@, src_key@, dst_bucket@, dst_key@)
                        == Some(e)
                    &&& *final(self) == *old(self)
                },
            },
    {
        let bi = match self.find_bucket(src_bucket) {
            None => return Err(StorageError::NoSuchBucket),
            Some(i) => i,
        };
        let oi = match self.buckets[bi].find_object(src_key) {
            None => return Err(StorageError::NoSuchKey),
            Some(i) => i,
        };
        let content = bytes_clone(&self.buckets[bi].objects[oi].content);
        let src_ct = bytes_clone(&self.buckets[bi].objects[oi].content_type);
        let src_meta = clone_meta(&self.buckets[bi].objects[oi].user_meta);
        let (ct, meta) = match replace {
            Some((c, m)) => (c, m),
            None => (src_ct, src_meta),
        };
        let ghost srcov = self.bucket(src_bucket@).obj(src_key@);
        let res = self.put_object(dst_bucket, dst_key, content, ct, meta);
        proof {
            if res is Ok {
                assert(srcov.checksum == fingerprint(srcov.content));
            }
        }
        res
    }
}

} // verus!
