//! Multipart uploads: staged parts assembled into one committed object.
//!
//! An upload is created against a destination `(bucket, key)`, receives
//! parts keyed by positive part numbers (re-uploading a number replaces the
//! part), and is finalized by `complete` or `abort`.  Completion is
//! all-or-nothing: every listed part must exist with a matching checksum,
//! and any failure leaves both the destination and the staging area exactly
//! as they were, so the caller can correct the list and retry.

use vstd::prelude::*;
use crate::bytes::{bytes_clone, bytes_extend};
use crate::checksum::{fingerprint, checksum_bytes};
use crate::errors::StorageError;
use crate::names::{valid_bucket_name, valid_key};
use crate::objects::{put_check, commit_step, clock_tick};
use crate::store::{
    FileSystem,
    lemma_upload_index_is,
    seq_has_upload,
    seq_upload_index,
    uploads_sorted,
};
use crate::types::{ObjectView, Part, PartView, PutObjectOutput, Upload};

verus! {

// ---------------------------------------------------------------------------
// Request validation
// ---------------------------------------------------------------------------

/// The first failure `create_multipart_upload` reports, if any.
pub open spec fn create_upload_check(s: FileSystem, b: Seq<u8>, k: Seq<u8>) -> Option<
    StorageError,
> {
    if !valid_bucket_name(b) || !valid_key(k) {
        Some(StorageError::InvalidName)
    } else if !s.has_bucket(b) {
        Some(StorageError::NoSuchBucket)
    } else if s.next_upload_id == u64::MAX {
        Some(StorageError::IoFailure)
    } else {
        None
    }
}

/// The first failure `upload_part` reports, if any.
pub open spec fn upload_part_check(s: FileSystem, id: u64, number: u32) -> Option<StorageError> {
    if !s.has_upload(id) {
        Some(StorageError::NoSuchUpload)
    } else if number == 0 {
        Some(StorageError::InvalidPart)
    } else {
        None
    }
}

/// The listed part numbers are strictly increasing.
pub open spec fn parts_strictly_increasing(list: Seq<(u32, u64)>) -> bool {
    forall|i: int, j: int|
        0 <= i < j < list.len() ==> (#[trigger] list[i]).0 < (#[trigger] list[j]).0
}

/// The staged upload holds part `n` and its checksum is `c`.
pub open spec fn part_matches(u: Upload, n: u32, c: u64) -> bool {
    u.has_part(n) && u.part(n).checksum == c
}

/// Every listed `(number, checksum)` pair matches a staged part.
pub open spec fn all_parts_match(u: Upload, list: Seq<(u32, u64)>) -> bool {
    forall|i: int| 0 <= i < list.len() ==> part_matches(u, (#[trigger] list[i]).0, list[i].1)
}

/// The destination bytes: the listed parts' contents concatenated in list
/// order.
pub open spec fn assembled(u: Upload, list: Seq<(u32, u64)>) -> Seq<u8>
    decreases list.len(),
{
    if list.len() == 0 {
        Seq::empty()
    } else {
        assembled(u, list.drop_last()) + u.part(list.last().0).content
    }
}

/// The first failure `complete_multipart_upload` reports, if any.  The
/// upload and list are validated before the destination is resolved.
pub open spec fn complete_check(s: FileSystem, id: u64, list: Seq<(u32, u64)>) -> Option<
    StorageError,
> {
    if !s.has_upload(id) {
        Some(StorageError::NoSuchUpload)
    } else if !parts_strictly_increasing(list) {
        Some(StorageError::InvalidPartOrder)
    } else if list.len() == 0 || !all_parts_match(s.upload(id), list) {
        Some(StorageError::InvalidPart)
    } else {
        put_check(s, s.upload(id).bucket@, s.upload(id).key@)
    }
}

/// The staging area outside `id` is untouched.
pub open spec fn same_uploads_except(pre: FileSystem, post: FileSystem, id: u64) -> bool {
    &&& forall|id2: u64| id2 != id ==> post.has_upload(id2) == pre.has_upload(id2)
    &&& forall|id2: u64|
        id2 != id && pre.has_upload(id2) ==> post.upload(id2) == pre.upload(id2)
}

// ---------------------------------------------------------------------------
// Frame lemmas for the upload table and for one upload's part table
// ---------------------------------------------------------------------------

/// Appending an upload with a fresh largest id.
pub proof fn lemma_upload_push(pre: Seq<Upload>, post: Seq<Upload>, u: Upload)
    requires
        uploads_sorted(pre),
        forall|i: int| 0 <= i < pre.len() ==> (#[trigger] pre[i]).id < u.id,
        post == pre.push(u),
    ensures
        uploads_sorted(post),
        seq_has_upload(post, u.id),
        crate::store::seq_upload(post, u.id) == u,
        forall|id2: u64| id2 != u.id ==> seq_has_upload(post, id2) == seq_has_upload(pre, id2),
        forall|id2: u64|
            id2 != u.id && seq_has_upload(pre, id2) ==> crate::store::seq_upload(post, id2)
                == crate::store::seq_upload(pre, id2),
{
    assert(forall|j: int| 0 <= j < pre.len() ==> post[j] == pre[j]);
    assert(post[pre.len() as int] == u);
    lemma_upload_index_is(post, pre.len() as int);
    assert forall|id2: u64| id2 != u.id implies seq_has_upload(post, id2) == seq_has_upload(
        pre,
        id2,
    ) by {
        if seq_has_upload(pre, id2) {
            let j = seq_upload_index(pre, id2);
            assert(post[j].id == id2);
        }
        if seq_has_upload(post, id2) {
            let j = seq_upload_index(post, id2);
            assert(pre[j].id == id2);
        }
    }
    assert forall|id2: u64|
        id2 != u.id && seq_has_upload(pre, id2) implies crate::store::seq_upload(post, id2)
        == crate::store::seq_upload(pre, id2) by {
        let j = seq_upload_index(pre, id2);
        lemma_upload_index_is(pre, j);
        lemma_upload_index_is(post, j);
    }
}

/// Replacing the upload at `i` by one with the same id.
pub proof fn lemma_upload_update(pre: Seq<Upload>, post: Seq<Upload>, i: int, u: Upload)
    requires
        uploads_sorted(pre),
        0 <= i < pre.len(),
        post == pre.update(i, u),
        u.id == pre[i].id,
    ensures
        uploads_sorted(post),
        forall|id2: u64| seq_has_upload(post, id2) == seq_has_upload(pre, id2),
        forall|id2: u64|
            id2 != u.id && seq_has_upload(pre, id2) ==> crate::store::seq_upload(post, id2)
                == crate::store::seq_upload(pre, id2),
        seq_has_upload(post, u.id),
        crate::store::seq_upload(post, u.id) == u,
{
    assert(forall|j: int| 0 <= j < post.len() ==> (#[trigger] post[j]).id == pre[j].id);
    assert forall|id2: u64| seq_has_upload(post, id2) == seq_has_upload(pre, id2) by {
        if seq_has_upload(pre, id2) {
            let j = seq_upload_index(pre, id2);
            assert(post[j].id == id2);
        }
        if seq_has_upload(post, id2) {
            let j = seq_upload_index(post, id2);
            assert(pre[j].id == id2);
        }
    }
    assert forall|id2: u64|
        id2 != u.id && seq_has_upload(pre, id2) implies crate::store::seq_upload(post, id2)
        == crate::store::seq_upload(pre, id2) by {
        let j = seq_upload_index(pre, id2);
        lemma_upload_index_is(pre, j);
        lemma_upload_index_is(post, j);
        assert(post[j] == pre[j]);
    }
    lemma_upload_index_is(post, i);
}

/// Removing the upload at `pos` removes exactly its id.
pub proof fn lemma_upload_remove(pre: Seq<Upload>, post: Seq<Upload>, pos: int)
    requires
        uploads_sorted(pre),
        0 <= pos < pre.len(),
        post == pre.remove(pos),
    ensures
        uploads_sorted(post),
        !seq_has_upload(post, pre[pos].id),
        forall|id2: u64|
            id2 != pre[pos].id ==> seq_has_upload(post, id2) == seq_has_upload(pre, id2),
        forall|id2: u64|
            id2 != pre[pos].id && seq_has_upload(pre, id2) ==> crate::store::seq_upload(post, id2)
                == crate::store::seq_upload(pre, id2),
{
    assert(post.len() == pre.len() - 1);
    assert(forall|j: int| 0 <= j < pos ==> post[j] == pre[j]);
    assert(forall|j: int| pos <= j < post.len() ==> post[j] == pre[j + 1]);
    if seq_has_upload(post, pre[pos].id) {
        let j = seq_upload_index(post, pre[pos].id);
    }
    assert forall|id2: u64| id2 != pre[pos].id implies seq_has_upload(post, id2)
        == seq_has_upload(pre, id2) by {
        if seq_has_upload(pre, id2) {
            let j = seq_upload_index(pre, id2);
            lemma_upload_index_is(pre, j);
            let pj: int = if j < pos { j } else { j - 1 };
            assert(post[pj].id == id2);
        }
        if seq_has_upload(post, id2) {
            let j = seq_upload_index(post, id2);
            if j < pos {
                assert(pre[j].id == id2);
            } else {
                assert(pre[j + 1].id == id2);
            }
        }
    }
    assert forall|id2: u64|
        id2 != pre[pos].id && seq_has_upload(pre, id2) implies crate::store::seq_upload(post, id2)
        == crate::store::seq_upload(pre, id2) by {
        let j = seq_upload_index(pre, id2);
        lemma_upload_index_is(pre, j);
        let pj: int = if j < pos { j } else { j - 1 };
        assert(post[pj].id == id2);
        lemma_upload_index_is(post, pj);
        assert(post[pj] == pre[j]);
    }
}

/// Inserting a fresh part at its sorted position.
proof fn lemma_part_insert(pre: Upload, post: Upload, pos: int, p: Part)
    requires
        pre.wf(),
        0 <= pos <= pre.parts@.len(),
        post.id == pre.id,
        post.bucket == pre.bucket,
        post.key == pre.key,
        post.parts@ == pre.parts@.insert(pos, p),
        p.number >= 1,
        p.checksum == fingerprint(p.content@),
        forall|j: int| 0 <= j < pos ==> (#[trigger] pre.parts@[j]).number < p.number,
        forall|j: int|
            pos <= j < pre.parts@.len() ==> p.number < (#[trigger] pre.parts@[j]).number,
    ensures
        post.wf(),
        post.has_part(p.number),
        post.part(p.number) == p@,
        forall|n: u32| n != p.number ==> post.has_part(n) == pre.has_part(n),
        forall|n: u32| n != p.number && pre.has_part(n) ==> post.part(n) == pre.part(n),
{
    let pr = pre.parts@;
    let po = post.parts@;
    assert(forall|j: int| 0 <= j < pos ==> po[j] == pr[j]);
    assert(po[pos] == p);
    assert(forall|j: int| pos < j < po.len() ==> po[j] == pr[j - 1]);
    assert(post.wf());
    post.lemma_part_index_is(pos);
    assert forall|n: u32| n != p.number implies post.has_part(n) == pre.has_part(n) by {
        if pre.has_part(n) {
            let j = pre.part_index(n);
            let pj: int = if j < pos { j } else { j + 1 };
            assert(po[pj].number == n);
        }
        if post.has_part(n) {
            let j = post.part_index(n);
            if j < pos {
                assert(pr[j].number == n);
            } else if j > pos {
                assert(pr[j - 1].number == n);
            }
        }
    }
    assert forall|n: u32| n != p.number && pre.has_part(n) implies post.part(n) == pre.part(n) by {
        let j = pre.part_index(n);
        pre.lemma_part_index_is(j);
        let pj: int = if j < pos { j } else { j + 1 };
        assert(po[pj].number == n);
        post.lemma_part_index_is(pj);
        assert(po[pj] == pr[j]);
    }
}

/// Overwriting the part at `pos` with one of the same number.
proof fn lemma_part_update(pre: Upload, post: Upload, pos: int, p: Part)
    requires
        pre.wf(),
        0 <= pos < pre.parts@.len(),
        post.id == pre.id,
        post.bucket == pre.bucket,
        post.key == pre.key,
        post.parts@ == pre.parts@.update(pos, p),
        p.number == pre.parts@[pos].number,
        p.checksum == fingerprint(p.content@),
    ensures
        post.wf(),
        post.has_part(p.number),
        post.part(p.number) == p@,
        forall|n: u32| post.has_part(n) == pre.has_part(n),
        forall|n: u32| n != p.number && pre.has_part(n) ==> post.part(n) == pre.part(n),
{
    let pr = pre.parts@;
    let po = post.parts@;
    assert(forall|j: int| 0 <= j < po.len() ==> (#[trigger] po[j]).number == pr[j].number);
    assert(post.wf());
    post.lemma_part_index_is(pos);
    assert forall|n: u32| post.has_part(n) == pre.has_part(n) by {
        if pre.has_part(n) {
            let j = pre.part_index(n);
            assert(po[j].number == n);
        }
        if post.has_part(n) {
            let j = post.part_index(n);
            assert(pr[j].number == n);
        }
    }
    assert forall|n: u32| n != p.number && pre.has_part(n) implies post.part(n) == pre.part(n) by {
        let j = pre.part_index(n);
        pre.lemma_part_index_is(j);
        post.lemma_part_index_is(j);
        assert(po[j] == pr[j]);
    }
}

impl Upload {
    /// Finds the position of part `number` in the sorted part table.
    pub(crate) fn find_part(&self, number: u32) -> (r: Option<usize>)
        requires
            self.wf(),
        ensures
            match r {
                Some(i) => {
                    &&& i < self.parts@.len()
                    &&& self.parts@[i as int].number == number
                    &&& self.has_part(number)
                    &&& self.part_index(number) == i as int
                },
                None => !self.has_part(number),
            },
    {
        let mut i: usize = 0;
        while i < self.parts.len()
            invariant
                self.wf(),
                i <= self.parts@.len(),
                forall|j: int| 0 <= j < i ==> (#[trigger] self.parts@[j]).number != number,
            decreases self.parts@.len() - i,
        {
            if self.parts[i].number == number {
                proof {
                    self.lemma_part_index_is(i as int);
                }
                return Some(i);
            }
            i = i + 1;
        }
        None
    }

    /// Stages `p`, replacing any part of the same number.
    pub(crate) fn store_part(&mut self, p: Part)
        requires
            old(self).wf(),
            p.number >= 1,
            p.checksum == fingerprint(p.content@),
        ensures
            final(self).wf(),
            final(self).id == old(self).id,
            final(self).bucket == old(self).bucket,
            final(self).key == old(self).key,
            final(self).has_part(p.number),
            final(self).part(p.number) == p@,
            forall|n: u32| n != p.number ==> final(self).has_part(n) == old(self).has_part(n),
            forall|n: u32|
                n != p.number && old(self).has_part(n) ==> final(self).part(n) == old(self).part(n),
    {
        let mut pos: usize = 0;
        while pos < self.parts.len() && self.parts[pos].number < p.number
            invariant
                self.wf(),
                *self == *old(self),
                pos <= self.parts@.len(),
                forall|j: int| 0 <= j < pos ==> (#[trigger] self.parts@[j]).number < p.number,
            decreases self.parts@.len() - pos,
        {
            pos = pos + 1;
        }
        let ghost pre = *self;
        if pos < self.parts.len() && self.parts[pos].number == p.number {
            let ghost pg = p;
            self.parts.remove(pos);
            self.parts.insert(pos, p);
            proof {
                assert(self.parts@ =~= pre.parts@.update(pos as int, pg));
                lemma_part_update(pre, *self, pos as int, pg);
            }
        } else {
            let ghost pg = p;
            self.parts.insert(pos, p);
            proof {
                lemma_part_insert(pre, *self, pos as int, pg);
            }
        }
    }
}

impl FileSystem {
    /// Finds the position of upload `id` in the upload table.
    pub(crate) fn find_upload(&self, id: u64) -> (r: Option<usize>)
        requires
            self.wf(),
        ensures
            match r {
                Some(i) => {
                    &&& i < self.uploads@.len()
                    &&& self.uploads@[i as int].id == id
                    &&& self.has_upload(id)
                    &&& self.upload(id) == self.uploads@[i as int]
                },
                None => !self.has_upload(id),
            },
    {
        let mut i: usize = 0;
        while i < self.uploads.len()
            invariant
                self.wf(),
                i <= self.uploads@.len(),
                forall|j: int| 0 <= j < i ==> (#[trigger] self.uploads@[j]).id != id,
            decreases self.uploads@.len() - i,
        {
            if self.uploads[i].id == id {
                proof {
                    lemma_upload_index_is(self.uploads@, i as int);
                }
                return Some(i);
            }
            i = i + 1;
        }
        None
    }

    /// Opens a staged upload against `(bucket, key)` and hands back its
    /// fresh id; ids are unique for the lifetime of the engine.
    pub fn create_multipart_upload(&mut self, bucket: &Vec<u8>, key: &Vec<u8>) -> (r: Result<
        u64,
        StorageError,
    >)
        requires
            old(self).wf(),
        ensures
            final(self).wf(),
            match r {
                Ok(id) => {
                    &&& create_upload_check(*old(self), bucket@, key@) == None::<StorageError>
                    &&& id == old(self).next_upload_id
                    &&& !old(self).has_upload(id)
                    &&& final(self).has_upload(id)
                    &&& final(self).upload(id).bucket@ == bucket@
                    &&& final(self).upload(id).key@ == key@
                    &&& final(self).upload(id).parts@.len() == 0
                    &&& same_uploads_except(*old(self), *final(self), id)
                    &&& final(self).buckets@ == old(self).buckets@
                    &&& final(self).root@ == old(self).root@
                    &&& final(self).clock == old(self).clock
                    &&& final(self).next_upload_id == old(self).next_upload_id + 1
                },
                Err(e) => {
                    &&& create_upload_check(*old(self), bucket@, key@) == Some(e)
                    &&& *final(self) == *old(self)
                },
            },
    {
        if !crate::names::check_bucket_name(bucket) || !crate::names::check_key(key) {
            return Err(StorageError::InvalidName);
        }
        if self.find_bucket(bucket).is_none() {
            return Err(StorageError::NoSuchBucket);
        }
        if self.next_upload_id == u64::MAX {
            return Err(StorageError::IoFailure);
        }
        let id = self.next_upload_id;
        let u = Upload { id, bucket: bytes_clone(bucket), key: bytes_clone(key), parts: Vec::new() };
        let ghost ug = u;
        let ghost pre = self.uploads@;
        self.uploads.push(u);
        self.next_upload_id = id + 1;
        proof {
            lemma_upload_push(pre, self.uploads@, ug);
            if seq_has_upload(pre, id) {
                let j = seq_upload_index(pre, id);
            }
        }
        Ok(id)
    }

    /// Stages the bytes as part `part_number` of the upload, replacing any
    /// prior part with that number, and returns the part's checksum.
    pub fn upload_part(&mut self, upload_id: u64, part_number: u32, content: Vec<u8>) -> (r: Result<
        u64,
        StorageError,
    >)
        requires
            old(self).wf(),
        ensures
            final(self).wf(),
            match r {
                Ok(csum) => {
                    &&& upload_part_check(*old(self), upload_id, part_number)
                        == None::<StorageError>
                    &&& csum == fingerprint(content@)
                    &&& final(self).has_upload(upload_id)
                    &&& {
                        let pre_u = old(self).upload(upload_id);
                        let post_u = final(self).upload(upload_id);
                        &&& post_u.bucket@ == pre_u.bucket@
                        &&& post_u.key@ == pre_u.key@
                        &&& post_u.has_part(part_number)
                        &&& post_u.part(part_number) == (PartView {
                            number: part_number,
                            content: content@,
                            checksum: fingerprint(content@),
                        })
                        &&& forall|n: u32|
                            n != part_number ==> post_u.has_part(n) == pre_u.has_part(n)
                        &&& forall|n: u32|
                            n != part_number && pre_u.has_part(n) ==> post_u.part(n) == pre_u.part(
                                n,
                            )
                    }
                    &&& same_uploads_except(*old(self), *final(self), upload_id)
                    &&& final(self).buckets@ == old(self).buckets@
                    &&& final(self).root@ == old(self).root@
                    &&& final(self).clock == old(self).clock
                    &&& final(self).next_upload_id == old(self).next_upload_id
                },
                Err(e) => {
                    &&& upload_part_check(*old(self), upload_id, part_number) == Some(e)
                    &&& *final(self) == *old(self)
                },
            },
    {
        let ui = match self.find_upload(upload_id) {
            None => return Err(StorageError::NoSuchUpload),
            Some(i) => i,
        };
        if part_number == 0 {
            return Err(StorageError::InvalidPart);
        }
        let csum = checksum_bytes(&content);
        let p = Part { number: part_number, content, checksum: csum };
        let ghost prefs = *self;
        let mut u = self.uploads.remove(ui);
        let ghost preu = u;
        u.store_part(p);
        let ghost postu = u;
        self.uploads.insert(ui, u);
        proof {
            assert(self.uploads@ =~= prefs.uploads@.update(ui as int, postu));
            lemma_upload_update(prefs.uploads@, self.uploads@, ui as int, postu);
        }
        Ok(csum)
    }

    /// Validates the listed parts against the staging area, then commits
    /// their concatenation (in list order) as the destination object and
    /// drops the staging data.  Any failure leaves the engine — destination
    /// and staging area alike — exactly as it was, so the upload stays
    /// completable.
    pub fn complete_multipart_upload(&mut self, upload_id: u64, parts: &Vec<(u32, u64)>) -> (r:
        Result<PutObjectOutput, StorageError>)
        requires
            old(self).wf(),
        ensures
            final(self).wf(),
            match r {
                Ok(out) => {
                    &&& complete_check(*old(self), upload_id, parts@) == None::<StorageError>
                    &&& {
                        let u = old(self).upload(upload_id);
                        let body = assembled(u, parts@);
                        &&& commit_step(
                            *old(self),
                            *final(self),
                            u.bucket@,
                            u.key@,
                            ObjectView {
                                content: body,
                                content_type: Seq::<u8>::empty(),
                                user_meta: Seq::<(Seq<u8>, Seq<u8>)>::empty(),
                                last_modified: old(self).clock,
                                checksum: fingerprint(body),
                            },
                        )
                        &&& out.size == body.len()
                        &&& out.checksum == fingerprint(body)
                        &&& out.last_modified == old(self).clock
                    }
                    &&& !final(self).has_upload(upload_id)
                    &&& same_uploads_except(*old(self), *final(self), upload_id)
                    &&& final(self).root@ == old(self).root@
                    &&& final(self).clock == clock_tick(old(self).clock)
                    &&& final(self).next_upload_id == old(self).next_upload_id
                },
                Err(e) => {
                    &&& complete_check(*old(self), upload_id, parts@) == Some(e)
                    &&& *final(self) == *old(self)
                },
            },
    {
        let ui = match self.find_upload(upload_id) {
            None => return Err(StorageError::NoSuchUpload),
            Some(i) => i,
        };
        let ghost u = self.uploads@[ui as int];
        let mut i: usize = 1;
        while i < parts.len()
            invariant
                old(self).wf(),
                *self == *old(self),
                ui < self.uploads@.len(),
                self.uploads@[ui as int] == u,
                u.id == upload_id,
                self.has_upload(upload_id),
                self.upload(upload_id) == u,
                i >= 1,
                i <= parts@.len() || parts@.len() == 0,
                forall|a: int, b: int|
                    0 <= a < b < i && b < parts@.len() ==> (#[trigger] parts@[a]).0 < (
                    #[trigger] parts@[b]).0,
            decreases parts@.len() - i,
        {
            if parts[i - 1].0 >= parts[i].0 {
                proof {
                    assert(parts@[i - 1].0 >= parts@[i as int].0);
                    assert(!parts_strictly_increasing(parts@));
                }
                return Err(StorageError::InvalidPartOrder);
            }
            i = i + 1;
        }
        proof {
            assert(parts_strictly_increasing(parts@));
        }
        if parts.len() == 0 {
            return Err(StorageError::InvalidPart);
        }
        let mut body: Vec<u8> = Vec::new();
        let mut j: usize = 0;
        while j < parts.len()
            invariant
                old(self).wf(),
                *self == *old(self),
                ui < self.uploads@.len(),
                self.uploads@[ui as int] == u,
                u.id == upload_id,
                self.has_upload(upload_id),
                self.upload(upload_id) == u,
                parts_strictly_increasing(parts@),
                parts@.len() > 0,
                j <= parts@.len(),
                forall|m: int|
                    0 <= m < j ==> part_matches(u, (#[trigger] parts@[m]).0, parts@[m].1),
                body@ == assembled(u, parts@.take(j as int)),
            decreases parts@.len() - j,
        {
            let num = parts[j].0;
            let csum = parts[j].1;
            let pi = match self.uploads[ui].find_part(num) {
                None => {
                    proof {
                        assert(!part_matches(u, parts@[j as int].0, parts@[j as int].1));
                        assert(!all_parts_match(u, parts@));
                    }
                    return Err(StorageError::InvalidPart);
                },
                Some(p) => p,
            };
            if self.uploads[ui].parts[pi].checksum != csum {
                proof {
                    assert(u.part(num) == u.parts@[pi as int]@);
                    assert(!part_matches(u, parts@[j as int].0, parts@[j as int].1));
                    assert(!all_parts_match(u, parts@));
                }
                return Err(StorageError::InvalidPart);
            }
            bytes_extend(&mut body, &self.uploads[ui].parts[pi].content);
            proof {
                assert(u.part(num) == u.parts@[pi as int]@);
                assert(parts@.take(j + 1).drop_last() =~= parts@.take(j as int));
                assert(parts@.take(j + 1).last() == parts@[j as int]);
            }
            j = j + 1;
        }
        proof {
            assert(parts@.take(parts@.len() as int) =~= parts@);
            assert(all_parts_match(u, parts@));
        }
        let ghost bodyv = body@;
        let dstb = bytes_clone(&self.uploads[ui].bucket);
        let dstk = bytes_clone(&self.uploads[ui].key);
        let res = match self.put_object(&dstb, &dstk, body, Vec::new(), Vec::new()) {
            Err(e) => {
                proof {
                    assert(complete_check(*old(self), upload_id, parts@) == Some(e));
                }
                return Err(e);
            },
            Ok(out) => out,
        };
        let ghost postput = *self;
        let ui2 = match self.find_upload(upload_id) {
            None => {
                proof {
                    assert(false);
                }
                return Err(StorageError::NoSuchUpload);
            },
            Some(i2) => i2,
        };
        let ghost preremove = self.uploads@;
        self.uploads.remove(ui2);
        proof {
            lemma_upload_remove(preremove, self.uploads@, ui2 as int);
            assert forall|x: int| 0 <= x < self.uploads@.len() implies (#[trigger] self.uploads@[
                x
            ]).wf() && self.uploads@[x].id < self.next_upload_id by {
                if x < ui2 {
                    assert(self.uploads@[x] == preremove[x]);
                } else {
                    assert(self.uploads@[x] == preremove[x + 1]);
                }
            }
            assert(crate::types::meta_view(Seq::<(Vec<u8>, Vec<u8>)>::empty()) =~= Seq::<
                (Seq<u8>, Seq<u8>),
            >::empty());
            assert(self.buckets@ == postput.buckets@);
            assert forall|b2: Seq<u8>, k2: Seq<u8>| !(b2 == u.bucket@ && k2 == u.key@) implies
                #[trigger] self.obj_view(b2, k2) == old(self).obj_view(b2, k2) by {
                assert(postput.obj_view(b2, k2) == old(self).obj_view(b2, k2));
                assert(self.obj_view(b2, k2) == postput.obj_view(b2, k2));
            }
            assert(complete_check(*old(self), upload_id, parts@) == None::<StorageError>);
        }
        Ok(res)
    }

    /// Drops the staging area of the upload.  Idempotent: aborting an
    /// unknown or already finalized id succeeds and changes nothing.
    pub fn abort_multipart_upload(&mut self, upload_id: u64) -> (r: Result<(), StorageError>)
        requires
            old(self).wf(),
        ensures
            final(self).wf(),
            r == Ok::<(), StorageError>(()),
            !final(self).has_upload(upload_id),
            same_uploads_except(*old(self), *final(self), upload_id),
            final(self).buckets@ == old(self).buckets@,
            final(self).root@ == old(self).root@,
            final(self).clock == old(self).clock,
            final(self).next_upload_id == old(self).next_upload_id,
            !old(self).has_upload(upload_id) ==> *final(self) == *old(self),
    {
        let ui = match self.find_upload(upload_id) {
            None => return Ok(()),
            Some(i) => i,
        };
        let ghost pre = self.uploads@;
        self.uploads.remove(ui);
        proof {
            lemma_upload_remove(pre, self.uploads@, ui as int);
        }
        Ok(())
    }
}

} // verus!
