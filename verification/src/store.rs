//! The storage engine: bucket lifecycle and the abstract view that every
//! operation is specified against.
//!
//! The engine owns a root path and two tables: committed buckets (sorted by
//! name) and staged multipart uploads (sorted by id).  Mutating operations
//! take `&mut self`; this is the engine's exclusive section, so a commit is
//! one atomic step on the abstract state and a reader never observes a
//! partial write.

use vstd::prelude::*;
use crate::bytes::{lex_lt, bytes_eq, bytes_clone, bytes_extend, lemma_lex_irrefl, views_of, lemma_views_push};
use crate::errors::StorageError;
use crate::names::{valid_bucket_name, joined, SLASH};
use crate::types::{Bucket, ObjectView, Upload, UploadView};

verus! {

// ---------------------------------------------------------------------------
// Lookup by name / id over the sorted tables
// ---------------------------------------------------------------------------

pub open spec fn seq_has_bucket(bs: Seq<Bucket>, n: Seq<u8>) -> bool {
    exists|i: int| 0 <= i < bs.len() && (#[trigger] bs[i]).name@ == n
}

pub open spec fn seq_bucket_index(bs: Seq<Bucket>, n: Seq<u8>) -> int {
    choose|i: int| 0 <= i < bs.len() && (#[trigger] bs[i]).name@ == n
}

pub open spec fn seq_bucket(bs: Seq<Bucket>, n: Seq<u8>) -> Bucket {
    bs[seq_bucket_index(bs, n)]
}

pub open spec fn buckets_sorted(bs: Seq<Bucket>) -> bool {
    forall|i: int, j: int|
        0 <= i < j < bs.len() ==> lex_lt((#[trigger] bs[i]).name@, (#[trigger] bs[j]).name@)
}

pub open spec fn seq_has_upload(us: Seq<Upload>, id: u64) -> bool {
    exists|i: int| 0 <= i < us.len() && (#[trigger] us[i]).id == id
}

pub open spec fn seq_upload_index(us: Seq<Upload>, id: u64) -> int {
    choose|i: int| 0 <= i < us.len() && (#[trigger] us[i]).id == id
}

pub open spec fn seq_upload(us: Seq<Upload>, id: u64) -> Upload {
    us[seq_upload_index(us, id)]
}

pub open spec fn uploads_sorted(us: Seq<Upload>) -> bool {
    forall|i: int, j: int|
        0 <= i < j < us.len() ==> (#[trigger] us[i]).id < (#[trigger] us[j]).id
}

/// In a sorted bucket table, the position holding a name is unique.
pub proof fn lemma_bucket_index_is(bs: Seq<Bucket>, i: int)
    requires
        buckets_sorted(bs),
        0 <= i < bs.len(),
    ensures
        seq_has_bucket(bs, bs[i].name@),
        seq_bucket_index(bs, bs[i].name@) == i,
        seq_bucket(bs, bs[i].name@) == bs[i],
{
    let n = bs[i].name@;
    assert(seq_has_bucket(bs, n));
    let j = seq_bucket_index(bs, n);
    if i != j {
        lemma_lex_irrefl(n);
    }
}

/// In a sorted upload table, the position holding an id is unique.
pub proof fn lemma_upload_index_is(us: Seq<Upload>, i: int)
    requires
        uploads_sorted(us),
        0 <= i < us.len(),
    ensures
        seq_has_upload(us, us[i].id),
        seq_upload_index(us, us[i].id) == i,
        seq_upload(us, us[i].id) == us[i],
{
    let id = us[i].id;
    assert(seq_has_upload(us, id));
}

// ---------------------------------------------------------------------------
// Frame lemmas: how one edit of the bucket table moves the lookup view
// ---------------------------------------------------------------------------

/// Replacing the bucket at `i` by one with the same name leaves every other
/// name's lookup unchanged.
pub proof fn lemma_bucket_update(pre: Seq<Bucket>, post: Seq<Bucket>, i: int, b: Bucket)
    requires
        buckets_sorted(pre),
        0 <= i < pre.len(),
        post == pre.update(i, b),
        b.name@ == pre[i].name@,
    ensures
        buckets_sorted(post),
        forall|n: Seq<u8>| seq_has_bucket(post, n) == seq_has_bucket(pre, n),
        forall|n: Seq<u8>|
            n != b.name@ && seq_has_bucket(pre, n) ==> seq_bucket(post, n) == seq_bucket(pre, n),
        seq_has_bucket(post, b.name@),
        seq_bucket(post, b.name@) == b,
{
    assert(forall|j: int| 0 <= j < post.len() ==> (#[trigger] post[j]).name@ == pre[j].name@);
    assert forall|n: Seq<u8>| seq_has_bucket(post, n) == seq_has_bucket(pre, n) by {
        if seq_has_bucket(pre, n) {
            let j = seq_bucket_index(pre, n);
            assert(post[j].name@ == n);
        }
        if seq_has_bucket(post, n) {
            let j = lemma_same_names_witness(post, pre, n);
        }
    }
    assert forall|n: Seq<u8>|
        n != b.name@ && seq_has_bucket(pre, n) implies seq_bucket(post, n) == seq_bucket(
        pre,
        n,
    ) by {
        let j = seq_bucket_index(pre, n);
        lemma_bucket_index_is(pre, j);
        lemma_bucket_index_is(post, j);
        assert(post[j] == pre[j]);
    }
    lemma_bucket_index_is(post, i);
}

/// Carries a lookup witness between bucket tables that agree on names
/// pointwise.
proof fn lemma_same_names_witness(post: Seq<Bucket>, pre: Seq<Bucket>, n: Seq<u8>) -> (j: int)
    requires
        seq_has_bucket(post, n),
        post.len() == pre.len(),
        forall|j: int| 0 <= j < post.len() ==> (#[trigger] post[j]).name@ == pre[j].name@,
    ensures
        seq_has_bucket(pre, n),
{
    let j = seq_bucket_index(post, n);
    assert(pre[j].name@ == n);
    j
}

/// Inserting a bucket at its sorted position keeps the table sorted and
/// leaves every other name's lookup unchanged.
pub proof fn lemma_bucket_insert(pre: Seq<Bucket>, post: Seq<Bucket>, pos: int, b: Bucket)
    requires
        buckets_sorted(pre),
        0 <= pos <= pre.len(),
        post == pre.insert(pos, b),
        forall|j: int| 0 <= j < pos ==> lex_lt((#[trigger] pre[j]).name@, b.name@),
        forall|j: int| pos <= j < pre.len() ==> lex_lt(b.name@, (#[trigger] pre[j]).name@),
    ensures
        buckets_sorted(post),
        seq_has_bucket(post, b.name@),
        seq_bucket(post, b.name@) == b,
        forall|n: Seq<u8>|
            n != b.name@ ==> seq_has_bucket(post, n) == seq_has_bucket(pre, n),
        forall|n: Seq<u8>|
            n != b.name@ && seq_has_bucket(pre, n) ==> seq_bucket(post, n) == seq_bucket(pre, n),
{
    assert(post.len() == pre.len() + 1);
    assert(forall|j: int| 0 <= j < pos ==> post[j] == pre[j]);
    assert(post[pos] == b);
    assert(forall|j: int| pos < j < post.len() ==> post[j] == pre[j - 1]);
    assert forall|i: int, j: int| 0 <= i < j < post.len() implies lex_lt(
        (#[trigger] post[i]).name@,
        (#[trigger] post[j]).name@,
    ) by {
        if i < pos && j < pos {
        } else if i < pos && j == pos {
        } else if i == pos {
        } else if i < pos && j > pos {
        } else if i > pos {
        } else if i == pos {
        }
    }
    lemma_bucket_index_is(post, pos);
    assert forall|n: Seq<u8>| n != b.name@ implies seq_has_bucket(post, n) == seq_has_bucket(
        pre,
        n,
    ) by {
        if seq_has_bucket(pre, n) {
            let j = seq_bucket_index(pre, n);
            let pj: int = if j < pos { j } else { j + 1 };
            assert(post[pj].name@ == n);
        }
        if seq_has_bucket(post, n) {
            let j = seq_bucket_index(post, n);
            if j < pos {
                assert(pre[j].name@ == n);
            } else if j > pos {
                assert(pre[j - 1].name@ == n);
            }
        }
    }
    assert forall|n: Seq<u8>|
        n != b.name@ && seq_has_bucket(pre, n) implies seq_bucket(post, n) == seq_bucket(
        pre,
        n,
    ) by {
        let j = seq_bucket_index(pre, n);
        lemma_bucket_index_is(pre, j);
        let pj: int = if j < pos { j } else { j + 1 };
        assert(post[pj].name@ == n);
        lemma_bucket_index_is(post, pj);
        assert(post[pj] == pre[j]);
    }
}

/// Removing the bucket at `pos` removes exactly that name from the view.
pub proof fn lemma_bucket_remove(pre: Seq<Bucket>, post: Seq<Bucket>, pos: int)
    requires
        buckets_sorted(pre),
        0 <= pos < pre.len(),
        post == pre.remove(pos),
    ensures
        buckets_sorted(post),
        !seq_has_bucket(post, pre[pos].name@),
        forall|n: Seq<u8>|
            n != pre[pos].name@ ==> seq_has_bucket(post, n) == seq_has_bucket(pre, n),
        forall|n: Seq<u8>|
            n != pre[pos].name@ && seq_has_bucket(pre, n) ==> seq_bucket(post, n) == seq_bucket(
                pre,
                n,
            ),
{
    assert(post.len() == pre.len() - 1);
    assert(forall|j: int| 0 <= j < pos ==> post[j] == pre[j]);
    assert(forall|j: int| pos <= j < post.len() ==> post[j] == pre[j + 1]);
    if seq_has_bucket(post, pre[pos].name@) {
        let j = seq_bucket_index(post, pre[pos].name@);
        if j < pos {
            lemma_lex_irrefl(pre[pos].name@);
        } else {
            lemma_lex_irrefl(pre[pos].name@);
        }
    }
    assert forall|n: Seq<u8>| n != pre[pos].name@ implies seq_has_bucket(post, n)
        == seq_has_bucket(pre, n) by {
        if seq_has_bucket(pre, n) {
            let j = seq_bucket_index(pre, n);
            lemma_bucket_index_is(pre, j);
            let pj: int = if j < pos { j } else { j - 1 };
            assert(post[pj].name@ == n);
        }
        if seq_has_bucket(post, n) {
            let j = seq_bucket_index(post, n);
            if j < pos {
                assert(pre[j].name@ == n);
            } else {
                assert(pre[j + 1].name@ == n);
            }
        }
    }
    assert forall|n: Seq<u8>|
        n != pre[pos].name@ && seq_has_bucket(pre, n) implies seq_bucket(post, n) == seq_bucket(
        pre,
        n,
    ) by {
        let j = seq_bucket_index(pre, n);
        lemma_bucket_index_is(pre, j);
        let pj: int = if j < pos { j } else { j - 1 };
        assert(post[pj].name@ == n);
        lemma_bucket_index_is(post, pj);
        assert(post[pj] == pre[j]);
    }
}

// ---------------------------------------------------------------------------
// The engine
// ---------------------------------------------------------------------------

/// An object store backed by a hierarchical namespace under one root path.
pub struct FileSystem {
    /// Resolved base path of the namespace; opaque to the engine.
    pub root: Vec<u8>,
    /// Committed buckets, sorted by name.
    pub buckets: Vec<Bucket>,
    /// Staged multipart uploads, sorted by id.
    pub uploads: Vec<Upload>,
    /// Next fresh upload id; larger than every staged id.
    pub next_upload_id: u64,
    /// Logical commit clock stamped onto objects.
    pub clock: u64,
}

impl FileSystem {
    pub open spec fn has_bucket(self, n: Seq<u8>) -> bool {
        seq_has_bucket(self.buckets@, n)
    }

    pub open spec fn bucket(self, n: Seq<u8>) -> Bucket {
        seq_bucket(self.buckets@, n)
    }

    pub open spec fn bucket_names(self) -> Seq<Seq<u8>> {
        self.buckets@.map_values(|b: Bucket| b.name@)
    }

    /// The observable value of the object at `(b, k)`, if committed.
    pub open spec fn obj_view(self, b: Seq<u8>, k: Seq<u8>) -> Option<ObjectView> {
        if self.has_bucket(b) && self.bucket(b).has_key(k) {
            Some(self.bucket(b).obj(k))
        } else {
            None
        }
    }

    pub open spec fn has_upload(self, id: u64) -> bool {
        seq_has_upload(self.uploads@, id)
    }

    pub open spec fn upload(self, id: u64) -> Upload {
        seq_upload(self.uploads@, id)
    }

    /// The observable value of the staging area.
    pub open spec fn uploads_view(self) -> Seq<UploadView> {
        self.uploads@.map_values(|u: Upload| u@)
    }

    /// Engine invariant: both tables sorted, all entries well formed, staged
    /// ids below the id counter.
    pub open spec fn wf(self) -> bool {
        &&& buckets_sorted(self.buckets@)
        &&& forall|i: int| 0 <= i < self.buckets@.len() ==> (#[trigger] self.buckets@[i]).wf()
        &&& uploads_sorted(self.uploads@)
        &&& forall|i: int|
            0 <= i < self.uploads@.len() ==> (#[trigger] self.uploads@[i]).wf()
                && self.uploads@[i].id < self.next_upload_id
    }

    /// No object outside `(b, k)` is touched, and no bucket appears or
    /// disappears.
    pub open spec fn same_objects_except(self, post: FileSystem, b: Seq<u8>, k: Seq<u8>) -> bool {
        &&& forall|n: Seq<u8>| post.has_bucket(n) == self.has_bucket(n)
        &&& forall|b2: Seq<u8>, k2: Seq<u8>|
            !(b2 == b && k2 == k) ==> #[trigger] post.obj_view(b2, k2) == self.obj_view(b2, k2)
    }

    /// No object at all is touched.
    pub open spec fn same_objects(self, post: FileSystem) -> bool {
        &&& forall|n: Seq<u8>| post.has_bucket(n) == self.has_bucket(n)
        &&& forall|b2: Seq<u8>, k2: Seq<u8>| #[trigger] post.obj_view(b2, k2) == self.obj_view(b2, k2)
    }

    /// A fresh engine over `root`: no buckets, no staged uploads.
    pub fn new(root: Vec<u8>) -> (r: FileSystem)
        ensures
            r.wf(),
            r.root@ == root@,
            r.buckets@.len() == 0,
            r.uploads@.len() == 0,
            r.clock == 0,
            r.next_upload_id == 0,
    {
        FileSystem { root, buckets: Vec::new(), uploads: Vec::new(), next_upload_id: 0, clock: 0 }
    }

    /// Finds the position of `name` in the bucket table.
    pub(crate) fn find_bucket(&self, name: &Vec<u8>) -> (r: Option<usize>)
        requires
            self.wf(),
        ensures
            match r {
                Some(i) => {
                    &&& i < self.buckets@.len()
                    &&& self.buckets@[i as int].name@ == name@
                    &&& self.has_bucket(name@)
                    &&& self.bucket(name@) == self.buckets@[i as int]
                },
                None => !self.has_bucket(name@),
            },
    {
        let mut i: usize = 0;
        while i < self.buckets.len()
            invariant
                self.wf(),
                i <= self.buckets@.len(),
                forall|j: int| 0 <= j < i ==> (#[trigger] self.buckets@[j]).name@ != name@,
            decreases self.buckets@.len() - i,
        {
            if bytes_eq(&self.buckets[i].name, name) {
                proof {
                    lemma_bucket_index_is(self.buckets@, i as int);
                }
                return Some(i);
            }
            i = i + 1;
        }
        None
    }

    /// Creates the bucket, failing on a malformed name or if it already
    /// exists; an error leaves the engine untouched.
    pub fn create_bucket(&mut self, name: &Vec<u8>) -> (r: Result<(), StorageError>)
        requires
            old(self).wf(),
        ensures
            final(self).wf(),
            match r {
                Ok(_) => {
                    &&& create_bucket_check(*old(self), name@) == None::<StorageError>
                    &&& final(self).has_bucket(name@)
                    &&& final(self).bucket(name@).objects@.len() == 0
                    &&& forall|n: Seq<u8>|
                        n != name@ ==> final(self).has_bucket(n) == old(self).has_bucket(n)
                    &&& forall|b2: Seq<u8>, k2: Seq<u8>|
                        b2 != name@ ==> #[trigger] final(self).obj_view(b2, k2) == old(self).obj_view(
                            b2,
                            k2,
                        )
                    &&& forall|k2: Seq<u8>| final(self).obj_view(name@, k2) == None::<ObjectView>
                    &&& final(self).uploads@ == old(self).uploads@
                    &&& final(self).root@ == old(self).root@
                    &&& final(self).clock == old(self).clock
                    &&& final(self).next_upload_id == old(self).next_upload_id
                },
                Err(e) => {
                    &&& create_bucket_check(*old(self), name@) == Some(e)
                    &&& *final(self) == *old(self)
                },
            },
    {
        if !crate::names::check_bucket_name(name) {
            return Err(StorageError::InvalidName);
        }
        let mut pos: usize = 0;
        while pos < self.buckets.len() && crate::bytes::bytes_lt(&self.buckets[pos].name, name)
            invariant
                self.wf(),
                pos <= self.buckets@.len(),
                forall|j: int| 0 <= j < pos ==> lex_lt((#[trigger] self.buckets@[j]).name@, name@),
            decreases self.buckets@.len() - pos,
        {
            pos = pos + 1;
        }
        if pos < self.buckets.len() && bytes_eq(&self.buckets[pos].name, name) {
            proof {
                lemma_bucket_index_is(self.buckets@, pos as int);
            }
            return Err(StorageError::AlreadyExists);
        }
        let ghost pre = self.buckets@;
        let b = Bucket { name: bytes_clone(name), objects: Vec::new() };
        let ghost bghost = b;
        self.buckets.insert(pos, b);
        proof {
            assert forall|j: int| pos <= j < pre.len() implies lex_lt(
                bghost.name@,
                (#[trigger] pre[j]).name@,
            ) by {
                crate::bytes::lemma_lex_trichotomy(name@, pre[pos as int].name@);
                if j > pos {
                    crate::bytes::lemma_lex_trans(name@, pre[pos as int].name@, pre[j].name@);
                }
            }
            if seq_has_bucket(pre, name@) {
                let j = seq_bucket_index(pre, name@);
                lemma_lex_irrefl(name@);
            }
            lemma_bucket_insert(pre, self.buckets@, pos as int, bghost);
        }
        Ok(())
    }

    /// Reports whether the bucket exists.
    pub fn head_bucket(&self, name: &Vec<u8>) -> (r: Result<(), StorageError>)
        requires
            self.wf(),
        ensures
            match r {
                Ok(_) => self.has_bucket(name@),
                Err(e) => e == StorageError::NoSuchBucket && !self.has_bucket(name@),
            },
    {
        match self.find_bucket(name) {
            Some(_) => Ok(()),
            None => Err(StorageError::NoSuchBucket),
        }
    }

    /// All bucket names, in byte-wise lexicographic order.
    pub fn list_buckets(&self) -> (r: Vec<Vec<u8>>)
        requires
            self.wf(),
        ensures
            views_of(r@) == self.bucket_names(),
    {
        let mut out: Vec<Vec<u8>> = Vec::new();
        let mut i: usize = 0;
        while i < self.buckets.len()
            invariant
                self.wf(),
                i <= self.buckets@.len(),
                views_of(out@) == self.bucket_names().take(i as int),
            decreases self.buckets@.len() - i,
        {
            let n = bytes_clone(&self.buckets[i].name);
            let ghost prev = out@;
            out.push(n);
            proof {
                lemma_views_push(prev, out@[i as int]);
                assert(self.bucket_names()[i as int] == self.buckets@[i as int].name@);
                assert(self.bucket_names().take(i as int).push(self.bucket_names()[i as int])
                    =~= self.bucket_names().take(i + 1));
            }
            i = i + 1;
        }
        proof {
            assert(self.bucket_names().take(self.bucket_names().len() as int)
                =~= self.bucket_names());
        }
        out
    }

    /// The resolved location (path under the root) of an existing bucket.
    pub fn get_bucket_location(&self, name: &Vec<u8>) -> (r: Result<Vec<u8>, StorageError>)
        requires
            self.wf(),
        ensures
            match r {
                Ok(p) => self.has_bucket(name@) && p@ == joined(self.root@, name@),
                Err(e) => e == StorageError::NoSuchBucket && !self.has_bucket(name@),
            },
    {
        match self.find_bucket(name) {
            None => Err(StorageError::NoSuchBucket),
            Some(_) => {
                let mut p = bytes_clone(&self.root);
                p.push(SLASH);
                bytes_extend(&mut p, name);
                proof {
                    assert(p@ =~= joined(self.root@, name@));
                }
                Ok(p)
            },
        }
    }

    /// Deletes an existing, empty bucket; an error leaves the engine
    /// untouched.
    pub fn delete_bucket(&mut self, name: &Vec<u8>) -> (r: Result<(), StorageError>)
        requires
            old(self).wf(),
        ensures
            final(self).wf(),
            match r {
                Ok(_) => {
                    &&& delete_bucket_check(*old(self), name@) == None::<StorageError>
                    &&& !final(self).has_bucket(name@)
                    &&& forall|n: Seq<u8>|
                        n != name@ ==> final(self).has_bucket(n) == old(self).has_bucket(n)
                    &&& forall|b2: Seq<u8>, k2: Seq<u8>|
                        b2 != name@ ==> #[trigger] final(self).obj_view(b2, k2) == old(self).obj_view(
                            b2,
                            k2,
                        )
                    &&& final(self).uploads@ == old(self).uploads@
                    &&& final(self).root@ == old(self).root@
                    &&& final(self).clock == old(self).clock
                    &&& final(self).next_upload_id == old(self).next_upload_id
                },
                Err(e) => {
                    &&& delete_bucket_check(*old(self), name@) == Some(e)
                    &&& *final(self) == *old(self)
                },
            },
    {
        let bi = match self.find_bucket(name) {
            None => return Err(StorageError::NoSuchBucket),
            Some(i) => i,
        };
        if self.buckets[bi].objects.len() != 0 {
            return Err(StorageError::BucketNotEmpty);
        }
        let ghost pre = self.buckets@;
        self.buckets.remove(bi);
        proof {
            lemma_bucket_remove(pre, self.buckets@, bi as int);
        }
        Ok(())
    }
}

/// The first failure `create_bucket` reports for this request, if any.
pub open spec fn create_bucket_check(s: FileSystem, n: Seq<u8>) -> Option<StorageError> {
    if !valid_bucket_name(n) {
        Some(StorageError::InvalidName)
    } else if s.has_bucket(n) {
        Some(StorageError::AlreadyExists)
    } else {
        None
    }
}

/// The first failure `delete_bucket` reports for this request, if any.
pub open spec fn delete_bucket_check(s: FileSystem, n: Seq<u8>) -> Option<StorageError> {
    if !s.has_bucket(n) {
        Some(StorageError::NoSuchBucket)
    } else if s.bucket(n).objects@.len() != 0 {
        Some(StorageError::BucketNotEmpty)
    } else {
        None
    }
}

} // verus!
