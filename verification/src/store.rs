use crate::compress::{deflate, inflate, zlib_deflate, zlib_inflate};
use crate::envelope::{
    ObjectKind, build_envelope, compute_id, envelope, lemma_envelope_round_trip, object_id_of,
    parse_envelope, read_envelope,
};
use crate::keyed::{
    distinct_keys, lemma_map_of_absent, lemma_map_of_lookup, lemma_map_of_push, map_of,
};
use crate::object_id::{ObjectId, has_hex_prefix, hex_text, ids_view};
use crate::order::{PathOrder, order_bytes};
use vstd::prelude::*;

verus! {

/// Why an object could not be had from the store, or put into it.
#[derive(Clone, Copy, Debug, PartialEq, Eq, Structural)]
pub enum StoreError {
    /// The store holds nothing under the id.
    ObjectNotFound,
    /// What the store holds under the id does not decompress to an envelope.
    ObjectCorrupt,
    /// The compressor gave no stream that decompresses to the envelope; nothing
    /// was stored.
    CompressionFailed,
}

/// One stored object as a value: its id and its compressed envelope.
pub type StoredView = (Seq<u8>, Seq<u8>);

/// What reading the object under `id` gives, by the files of the store.
pub open spec fn lookup(files: Map<Seq<u8>, Seq<u8>>, id: Seq<u8>) -> Result<
    (ObjectKind, Seq<u8>),
    StoreError,
> {
    if !files.contains_key(id) {
        Err(StoreError::ObjectNotFound)
    } else {
        match zlib_inflate(files[id]) {
            None => Err(StoreError::ObjectCorrupt),
            Some(bytes) => match parse_envelope(bytes) {
                None => Err(StoreError::ObjectCorrupt),
                Some(object) => Ok(object),
            },
        }
    }
}

/// The ids of the stored objects whose text form starts with the hexadecimal
/// digits `prefix`, in the order in which the objects came.
pub open spec fn ids_with_prefix(s: Seq<StoredView>, prefix: Seq<u8>) -> Seq<Seq<u8>>
    decreases s.len(),
{
    if s.len() == 0 {
        Seq::empty()
    } else if has_hex_prefix(s.last().0, prefix) {
        ids_with_prefix(s.drop_last(), prefix).push(s.last().0)
    } else {
        ids_with_prefix(s.drop_last(), prefix)
    }
}

/// One object of the store.
#[derive(Debug)]
pub struct StoredObject {
    id: ObjectId,
    file: Vec<u8>,
}

impl View for StoredObject {
    type V = StoredView;

    closed spec fn view(&self) -> StoredView {
        (self.id@, self.file@)
    }
}

/// The content store: objects by id, each kept as its compressed envelope. An
/// object is never changed or removed.
#[derive(Debug)]
pub struct ContentStore {
    objects: Vec<StoredObject>,
}

impl ContentStore {
    /// The stored objects, in the order in which they came.
    pub closed spec fn objects(&self) -> Seq<StoredView> {
        Seq::new(self.objects@.len(), |i: int| self.objects@[i]@)
    }

    /// No id is stored twice.
    pub open spec fn wf(&self) -> bool {
        distinct_keys(self.objects())
    }

    /// The files of the store.
    pub open spec fn files(&self) -> Map<Seq<u8>, Seq<u8>> {
        map_of(self.objects())
    }

    /// An empty store.
    pub fn new() -> (store: ContentStore)
        ensures
            store.wf(),
            store.files() == Map::<Seq<u8>, Seq<u8>>::empty(),
            store.objects().len() == 0,
    {
        ContentStore { objects: Vec::new() }
    }

    /// Number of stored objects.
    pub fn len(&self) -> (n: usize)
        ensures
            n == self.objects().len(),
    {
        self.objects.len()
    }

    /// The id of the object at position `i`.
    pub fn id_at(&self, i: usize) -> (id: ObjectId)
        requires
            i < self.objects().len(),
        ensures
            id@ == self.objects()[i as int].0,
    {
        self.objects[i].id
    }

    /// The compressed envelope of the object at position `i`.
    pub fn file_at(&self, i: usize) -> (file: &[u8])
        requires
            i < self.objects().len(),
        ensures
            file@ == self.objects()[i as int].1,
    {
        self.objects[i].file.as_slice()
    }

    fn position(&self, id: &ObjectId) -> (r: Option<usize>)
        requires
            self.wf(),
        ensures
            match r {
                Some(i) => i < self.objects().len() && self.objects()[i as int].0 == id@
                    && self.files().contains_key(id@) && self.files()[id@]
                    == self.objects()[i as int].1,
                None => !self.files().contains_key(id@),
            },
    {
        let mut i: usize = 0;
        while i < self.objects.len()
            invariant
                i <= self.objects@.len(),
                self.wf(),
                forall|k: int| 0 <= k < i ==> (#[trigger] self.objects()[k]).0 != id@,
            decreases self.objects@.len() - i,
        {
            if self.objects[i].id.same(id) {
                proof {
                    lemma_map_of_lookup(self.objects(), i as int);
                }
                return Some(i);
            }
            i += 1;
        }
        proof {
            lemma_map_of_absent(self.objects(), id@);
        }
        None
    }

    /// The ids of the stored objects whose text form starts with the
    /// hexadecimal digits `prefix`.
    pub fn find_by_prefix(&self, prefix: &[u8]) -> (found: Vec<ObjectId>)
        ensures
            ids_view(found@) == ids_with_prefix(self.objects(), prefix@),
    {
        let ghost all = self.objects();
        let mut found: Vec<ObjectId> = Vec::new();
        let mut i: usize = 0;
        assert(all.take(0) =~= Seq::<StoredView>::empty());
        assert(ids_view(found@) =~= ids_with_prefix(all.take(0), prefix@));
        while i < self.objects.len()
            invariant
                i <= self.objects@.len(),
                all == self.objects(),
                ids_view(found@) == ids_with_prefix(all.take(i as int), prefix@),
            decreases self.objects@.len() - i,
        {
            let id = self.objects[i].id;
            proof {
                assert(all.take(i + 1).drop_last() =~= all.take(i as int));
                assert(all.take(i + 1).last() == all[i as int]);
            }
            if id.starts_with_hex(prefix) {
                let ghost before = ids_view(found@);
                found.push(id);
                assert(ids_view(found@) =~= before.push(id@));
            }
            i += 1;
        }
        assert(all.take(i as int) =~= all);
        found
    }

    /// Whether an object is stored under `id`.
    pub fn contains(&self, id: &ObjectId) -> (r: bool)
        requires
            self.wf(),
        ensures
            r == self.files().contains_key(id@),
    {
        self.position(id).is_some()
    }

    /// Keeps `file` under `id`, unless the store holds something under `id`
    /// already: then nothing changes.
    pub fn insert_file(&mut self, id: ObjectId, file: Vec<u8>)
        requires
            old(self).wf(),
        ensures
            final(self).wf(),
            final(self).files() == if old(self).files().contains_key(id@) {
                old(self).files()
            } else {
                old(self).files().insert(id@, file@)
            },
            final(self).objects() == if old(self).files().contains_key(id@) {
                old(self).objects()
            } else {
                old(self).objects().push((id@, file@))
            },
    {
        if self.position(&id).is_some() {
            return ;
        }
        let ghost before = self.objects();
        proof {
            lemma_map_of_push(before, id@, file@);
        }
        self.objects.push(StoredObject { id, file });
        assert(self.objects() =~= before.push((id@, file@)));
    }

    /// Stores a payload of a kind and returns its id, the digest of its
    /// envelope. Where an object is stored under that id already, nothing
    /// changes. Else the envelope is compressed, and the compressed envelope is
    /// kept under the id, once it is seen to decompress to the envelope again.
    /// Fails, with nothing stored, where the compressor gives no such stream.
    pub fn put(&mut self, kind: ObjectKind, data: &[u8]) -> (r: Result<ObjectId, StoreError>)
        requires
            old(self).wf(),
        ensures
            final(self).wf(),
            if old(self).files().contains_key(object_id_of(kind, data@)) {
                &&& r matches Ok(id)
                &&& id@ == object_id_of(kind, data@)
                &&& final(self).objects() == old(self).objects()
            } else {
                match zlib_deflate(envelope(kind, data@)) {
                    Some(file) if zlib_inflate(file) == Some(envelope(kind, data@)) => {
                        &&& r matches Ok(id)
                        &&& id@ == object_id_of(kind, data@)
                        &&& final(self).objects() == old(self).objects().push((id@, file))
                        &&& final(self).files() == old(self).files().insert(id@, file)
                        &&& lookup(final(self).files(), id@) == Ok::<
                            (ObjectKind, Seq<u8>),
                            StoreError,
                        >((kind, data@))
                    },
                    _ => {
                        &&& r matches Err(e)
                        &&& e == StoreError::CompressionFailed
                        &&& final(self).objects() == old(self).objects()
                    },
                }
            },
    {
        let id = compute_id(kind, data);
        if self.contains(&id) {
            return Ok(id);
        }
        let bytes = build_envelope(kind, data);
        let compressed = deflate(bytes.as_slice());
        proof {
            lemma_envelope_round_trip(kind, data@);
        }
        self.keep(id, bytes.as_slice(), compressed)
    }

    /// Keeps under `id` the compressed form of an envelope, as the compressor
    /// gave it, if the store holds nothing under `id` yet. Fails, with nothing
    /// stored, where the compressor gave nothing, or gave what does not
    /// decompress to the envelope.
    pub fn keep(&mut self, id: ObjectId, envelope: &[u8], compressed: Option<Vec<u8>>) -> (r:
        Result<ObjectId, StoreError>)
        requires
            old(self).wf(),
        ensures
            final(self).wf(),
            match compressed {
                Some(file) if zlib_inflate(file@) == Some(envelope@) => {
                    &&& r matches Ok(x)
                    &&& x == id
                    &&& final(self).files() == if old(self).files().contains_key(id@) {
                        old(self).files()
                    } else {
                        old(self).files().insert(id@, file@)
                    }
                    &&& final(self).objects() == if old(self).files().contains_key(id@) {
                        old(self).objects()
                    } else {
                        old(self).objects().push((id@, file@))
                    }
                },
                _ => {
                    &&& r matches Err(e)
                    &&& e == StoreError::CompressionFailed
                    &&& final(self).objects() == old(self).objects()
                },
            },
    {
        let file = match compressed {
            Some(file) => file,
            None => {
                return Err(StoreError::CompressionFailed);
            },
        };
        let sound = match inflate(file.as_slice()) {
            Some(back) => match order_bytes(back.as_slice(), envelope) {
                PathOrder::Same => true,
                _ => false,
            },
            None => false,
        };
        if !sound {
            return Err(StoreError::CompressionFailed);
        }
        self.insert_file(id, file);
        Ok(id)
    }

    /// Reads the object under `id`: its kind and its payload.
    pub fn get(&self, id: &ObjectId) -> (r: Result<(ObjectKind, Vec<u8>), StoreError>)
        requires
            self.wf(),
        ensures
            match r {
                Ok((kind, data)) => lookup(self.files(), id@) == Ok::<
                    (ObjectKind, Seq<u8>),
                    StoreError,
                >((kind, data@)),
                Err(e) => lookup(self.files(), id@) == Err::<(ObjectKind, Seq<u8>), StoreError>(e),
            },
    {
        let i = match self.position(id) {
            Some(i) => i,
            None => {
                return Err(StoreError::ObjectNotFound);
            },
        };
        ContentStore::open_file(inflate(self.objects[i].file.as_slice()))
    }

    /// What a decompressed file holds: its kind and payload.
    pub fn open_file(bytes: Option<Vec<u8>>) -> (r: Result<(ObjectKind, Vec<u8>), StoreError>)
        ensures
            match r {
                Ok((kind, data)) => bytes matches Some(b) && parse_envelope(b@) == Some(
                    (kind, data@),
                ),
                Err(e) => e == StoreError::ObjectCorrupt && (bytes matches Some(b)
                    ==> parse_envelope(b@) is None),
            },
    {
        match bytes {
            None => Err(StoreError::ObjectCorrupt),
            Some(b) => match read_envelope(b.as_slice()) {
                None => Err(StoreError::ObjectCorrupt),
                Some(object) => Ok(object),
            },
        }
    }
}

/// Where in the object directory the file of an object stands: the directory is
/// named by the first two characters of the id's text form, the file by the
/// other 38.
pub fn object_path(id: &ObjectId) -> (r: (String, String))
    ensures
        r.0@ == hex_text(id@).subrange(0, 2),
        r.1@ == hex_text(id@).subrange(2, 40),
{
    let text = id.to_hex();
    proof {
        id.lemma_len();
        crate::object_id::lemma_hex_round_trip(id@);
        crate::object_id::lemma_hex_text_ascii(id@);
    }
    let dir = text.as_str().substring_ascii(0, 2);
    let file = text.as_str().substring_ascii(2, 40);
    (dir.to_owned(), file.to_owned())
}

} // verus!
