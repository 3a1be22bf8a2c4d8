//! The data model of the engine: committed objects grouped into buckets, and
//! staged multipart uploads, together with their abstract views and
//! well-formedness invariants.

use vstd::prelude::*;
use crate::bytes::lex_lt;
use crate::checksum::fingerprint;
use crate::names::{valid_bucket_name, valid_key, key_conflicts};

verus! {

/// The abstract value of a committed object: exactly what a reader can
/// observe.
pub struct ObjectView {
    pub content: Seq<u8>,
    pub content_type: Seq<u8>,
    pub user_meta: Seq<(Seq<u8>, Seq<u8>)>,
    pub last_modified: u64,
    pub checksum: u64,
}

/// The abstract value of a user-metadata record.
pub open spec fn meta_view(m: Seq<(Vec<u8>, Vec<u8>)>) -> Seq<(Seq<u8>, Seq<u8>)> {
    m.map_values(|p: (Vec<u8>, Vec<u8>)| (p.0@, p.1@))
}

/// A committed object: bytes plus the sidecar metadata that lives and dies
/// with them.
pub struct StoredObject {
    /// The full logical key, delimiter bytes included.
    pub key: Vec<u8>,
    pub content: Vec<u8>,
    pub content_type: Vec<u8>,
    pub user_meta: Vec<(Vec<u8>, Vec<u8>)>,
    /// Logical commit stamp: the engine clock at the commit.
    pub last_modified: u64,
    /// Content fingerprint; the invariant ties it to `content`.
    pub checksum: u64,
}

impl View for StoredObject {
    type V = ObjectView;

    open spec fn view(&self) -> ObjectView {
        ObjectView {
            content: self.content@,
            content_type: self.content_type@,
            user_meta: meta_view(self.user_meta@),
            last_modified: self.last_modified,
            checksum: self.checksum,
        }
    }
}

/// A bucket: a name and its committed objects, kept sorted by key in
/// byte-wise lexicographic order.
pub struct Bucket {
    pub name: Vec<u8>,
    pub objects: Vec<StoredObject>,
}

impl Bucket {
    /// The keys of the bucket, in storage order.
    pub open spec fn keys(self) -> Seq<Seq<u8>> {
        self.objects@.map_values(|o: StoredObject| o.key@)
    }

    pub open spec fn has_key(self, k: Seq<u8>) -> bool {
        exists|i: int| 0 <= i < self.objects@.len() && (#[trigger] self.objects@[i]).key@ == k
    }

    pub open spec fn key_index(self, k: Seq<u8>) -> int {
        choose|i: int| 0 <= i < self.objects@.len() && (#[trigger] self.objects@[i]).key@ == k
    }

    /// The observable value of the object stored under `k`.
    pub open spec fn obj(self, k: Seq<u8>) -> ObjectView {
        self.objects@[self.key_index(k)]@
    }

    /// Bucket invariant: a valid name; keys valid, strictly sorted (hence
    /// unique) and free of leaf/directory collisions; every checksum is the
    /// fingerprint of the bytes it describes.
    pub open spec fn wf(self) -> bool {
        &&& valid_bucket_name(self.name@)
        &&& forall|i: int, j: int|
            0 <= i < j < self.objects@.len() ==> lex_lt(
                (#[trigger] self.objects@[i]).key@,
                (#[trigger] self.objects@[j]).key@,
            )
        &&& forall|i: int|
            0 <= i < self.objects@.len() ==> valid_key((#[trigger] self.objects@[i]).key@)
                && self.objects@[i].checksum == fingerprint(self.objects@[i].content@)
        &&& forall|i: int, j: int|
            0 <= i < self.objects@.len() && 0 <= j < self.objects@.len() && i != j
                ==> !key_conflicts((#[trigger] self.objects@[i]).key@, (#[trigger] self.objects@[j]).key@)
    }

    /// The bucket invariant makes the key list strictly sorted.
    pub proof fn lemma_keys_sorted(self)
        requires
            self.wf(),
        ensures
            crate::bytes::strictly_sorted(self.keys()),
    {
        assert forall|i: int, j: int| 0 <= i < j < self.keys().len() implies lex_lt(
            #[trigger] self.keys()[i],
            #[trigger] self.keys()[j],
        ) by {
            assert(self.keys()[i] == self.objects@[i].key@);
            assert(self.keys()[j] == self.objects@[j].key@);
        }
    }

    /// Any two positions holding the same key are the same position.
    pub proof fn lemma_key_index_is(self, i: int)
        requires
            self.wf(),
            0 <= i < self.objects@.len(),
        ensures
            self.has_key(self.objects@[i].key@),
            self.key_index(self.objects@[i].key@) == i,
    {
        let k = self.objects@[i].key@;
        assert(self.has_key(k));
        let j = self.key_index(k);
        if i < j {
            crate::bytes::lemma_lex_irrefl(k);
        }
        if j < i {
            crate::bytes::lemma_lex_irrefl(k);
        }
    }
}

/// The abstract value of one staged part.
pub struct PartView {
    pub number: u32,
    pub content: Seq<u8>,
    pub checksum: u64,
}

/// One staged part of a multipart upload.
pub struct Part {
    pub number: u32,
    pub content: Vec<u8>,
    pub checksum: u64,
}

impl View for Part {
    type V = PartView;

    open spec fn view(&self) -> PartView {
        PartView { number: self.number, content: self.content@, checksum: self.checksum }
    }
}

/// The abstract value of a staged upload.
pub struct UploadView {
    pub id: u64,
    pub bucket: Seq<u8>,
    pub key: Seq<u8>,
    pub parts: Seq<PartView>,
}

/// A staged multipart upload: destination address and the parts received so
/// far, sorted by part number.  Completion or abort removes the record.
pub struct Upload {
    pub id: u64,
    pub bucket: Vec<u8>,
    pub key: Vec<u8>,
    pub parts: Vec<Part>,
}

impl View for Upload {
    type V = UploadView;

    open spec fn view(&self) -> UploadView {
        UploadView {
            id: self.id,
            bucket: self.bucket@,
            key: self.key@,
            parts: self.parts@.map_values(|p: Part| p@),
        }
    }
}

impl Upload {
    pub open spec fn has_part(self, n: u32) -> bool {
        exists|i: int| 0 <= i < self.parts@.len() && (#[trigger] self.parts@[i]).number == n
    }

    pub open spec fn part_index(self, n: u32) -> int {
        choose|i: int| 0 <= i < self.parts@.len() && (#[trigger] self.parts@[i]).number == n
    }

    /// The observable value of the part staged under number `n`.
    pub open spec fn part(self, n: u32) -> PartView {
        self.parts@[self.part_index(n)]@
    }

    /// Upload invariant: a valid destination, part numbers positive and
    /// strictly increasing (hence unique), checksums tied to the bytes.
    pub open spec fn wf(self) -> bool {
        &&& valid_bucket_name(self.bucket@)
        &&& valid_key(self.key@)
        &&& forall|i: int, j: int|
            0 <= i < j < self.parts@.len() ==> (#[trigger] self.parts@[i]).number < (
            #[trigger] self.parts@[j]).number
        &&& forall|i: int|
            0 <= i < self.parts@.len() ==> (#[trigger] self.parts@[i]).number >= 1
                && self.parts@[i].checksum == fingerprint(self.parts@[i].content@)
    }

    pub proof fn lemma_part_index_is(self, i: int)
        requires
            self.wf(),
            0 <= i < self.parts@.len(),
        ensures
            self.has_part(self.parts@[i].number),
            self.part_index(self.parts@[i].number) == i,
    {
        let n = self.parts@[i].number;
        assert(self.has_part(n));
    }
}

/// What a successful store of bytes reports back.
pub struct PutObjectOutput {
    /// Number of bytes committed.
    pub size: usize,
    /// Fingerprint of the committed bytes.
    pub checksum: u64,
    /// The logical commit stamp given to the object.
    pub last_modified: u64,
}

/// The metadata of a committed object, as `head` reports it.
pub struct ObjectMeta {
    pub size: usize,
    pub content_type: Vec<u8>,
    pub user_meta: Vec<(Vec<u8>, Vec<u8>)>,
    pub last_modified: u64,
    pub checksum: u64,
}

/// What `get` returns: the requested bytes and the object's metadata.
pub struct GetObjectOutput {
    /// The requested bytes: the whole content, or the satisfiable part of
    /// the requested range.
    pub body: Vec<u8>,
    pub meta: ObjectMeta,
}

} // verus!
