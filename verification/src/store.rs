//! The object database: compressed object bytes keyed by the 40-character
//! hex id, plus the single mutable HEAD reference. The database is held as a
//! value; binding it to directories and files on disk is the callers'
//! affair, outside this model.

use crate::objects::{
    decode_object, encode_bytes, id_chars, OgitError, OgitObject, OgitObjectType,
};
use crate::trusted::{sha1_of, zlib_compress, zlib_decompress, zlib_of};
use vstd::prelude::*;
use vstd::string::StringExecFns;

verus! {

/// The stored objects as a map: a later entry for the same id supersedes an
/// earlier one.
pub open spec fn entries_map(s: Seq<(String, Vec<u8>)>) -> Map<Seq<char>, Seq<u8>>
    decreases s.len(),
{
    if s.len() == 0 {
        Map::empty()
    } else {
        entries_map(s.drop_last()).insert(s.last().0@, s.last().1@)
    }
}

pub proof fn lemma_entries_map_contains(s: Seq<(String, Vec<u8>)>, k: Seq<char>)
    ensures
        entries_map(s).contains_key(k) <==> exists|i: int| 0 <= i < s.len() && s[i].0@ == k,
    decreases s.len(),
{
    if s.len() > 0 {
        lemma_entries_map_contains(s.drop_last(), k);
        if s.last().0@ == k {
            assert(s[s.len() - 1].0@ == k);
        } else {
            if entries_map(s).contains_key(k) {
                let i = choose|i: int| 0 <= i < s.drop_last().len() && s.drop_last()[i].0@ == k;
                assert(s[i].0@ == k);
            }
            if exists|i: int| 0 <= i < s.len() && s[i].0@ == k {
                let i = choose|i: int| 0 <= i < s.len() && s[i].0@ == k;
                assert(s.drop_last()[i].0@ == k);
            }
        }
    }
}

pub proof fn lemma_entries_map_lookup(s: Seq<(String, Vec<u8>)>, j: int)
    requires
        0 <= j < s.len(),
        forall|l: int| j < l < s.len() ==> s[l].0@ != s[j].0@,
    ensures
        entries_map(s).contains_key(s[j].0@),
        entries_map(s)[s[j].0@] == s[j].1@,
    decreases s.len(),
{
    if j < s.len() - 1 {
        assert(s.drop_last()[j] == s[j]);
        assert forall|l: int| j < l < s.drop_last().len() implies s.drop_last()[l].0@ != s.drop_last()[j].0@ by {
            assert(s.drop_last()[l] == s[l]);
        }
        lemma_entries_map_lookup(s.drop_last(), j);
        assert(s.last().0@ != s[j].0@);
    }
}

/// Holds when `r` is what retrieval owes for an object stored as `content`
/// (already uncompressed) under an expectation about its kind.
pub open spec fn matches_stored(
    content: Seq<u8>,
    expected: Option<OgitObjectType>,
    r: Result<OgitObject, OgitError>,
) -> bool {
    match decode_object(content) {
        None => r == Err::<OgitObject, OgitError>(OgitError::InvalidObject),
        Some((v, p)) => match expected {
            Some(e) => {
                if e != v {
                    r == Err::<OgitObject, OgitError>(
                        OgitError::ObjectTypeMismatch { expected: e, got: v },
                    )
                } else {
                    r matches Ok(o) && o.variant == v && o.data@ == p && o.spec_content()
                        == content && o.spec_id() == sha1_of(content) && o.wf()
                }
            },
            None => r matches Ok(o) && o.variant == v && o.data@ == p && o.spec_content()
                == content && o.spec_id() == sha1_of(content) && o.wf(),
        },
    }
}

/// The object database and the HEAD reference.
pub struct ObjectStore {
    pub entries: Vec<(String, Vec<u8>)>,
    pub head: Option<String>,
}

impl ObjectStore {
    /// What the store holds: compressed object bytes for each id.
    pub open spec fn objects(self) -> Map<Seq<char>, Seq<u8>> {
        entries_map(self.entries@)
    }

    /// The HEAD reference as a character sequence, if set.
    pub open spec fn head_chars(self) -> Option<Seq<char>> {
        match self.head {
            Some(h) => Some(h@),
            None => None,
        }
    }

    /// A fresh, empty store with no HEAD: what initialization creates.
    pub fn new() -> (s: ObjectStore)
        ensures
            s.objects() == Map::<Seq<char>, Seq<u8>>::empty(),
            s.head_chars() is None,
    {
        ObjectStore { entries: Vec::new(), head: None }
    }

    /// Records raw stored bytes under an id, superseding any earlier bytes
    /// under the same id. This is how an already-persisted database is
    /// brought back in.
    pub fn insert_raw(&mut self, id: String, bytes: Vec<u8>)
        ensures
            final(self).objects() == old(self).objects().insert(id@, bytes@),
            final(self).head == old(self).head,
    {
        proof {
            let s = self.entries@.push((id, bytes));
            assert(s.drop_last() =~= self.entries@);
        }
        self.entries.push((id, bytes));
    }

    /// Whether an object with this id is stored.
    pub fn contains(&self, object_id: &str) -> (r: bool)
        ensures
            r == self.objects().contains_key(object_id@),
    {
        let key: String = object_id.to_owned();
        let mut i: usize = 0;
        let n = self.entries.len();
        while i < n
            invariant
                i <= n,
                n == self.entries@.len(),
                key@ == object_id@,
                forall|l: int| 0 <= l < i ==> self.entries@[l].0@ != key@,
            decreases n - i,
        {
            if self.entries[i].0 == key {
                proof {
                    lemma_entries_map_contains(self.entries@, key@);
                }
                return true;
            }
            i = i + 1;
        }
        proof {
            lemma_entries_map_contains(self.entries@, key@);
        }
        false
    }

    /// The raw stored (compressed) bytes for an id, for callers that persist
    /// the store.
    pub fn raw_object_bytes(&self, object_id: &str) -> (r: Option<Vec<u8>>)
        ensures
            r matches Some(v) ==> self.objects().contains_key(object_id@)
                && self.objects()[object_id@] == v@,
            r is None ==> !self.objects().contains_key(object_id@),
    {
        let key: String = object_id.to_owned();
        match self.find_newest(&key) {
            Some(i) => Some(clone_bytes(&self.entries[i].1)),
            None => None,
        }
    }

    /// The index of the newest entry for a key, the one that `entries_map`
    /// retains.
    fn find_newest(&self, key: &String) -> (r: Option<usize>)
        ensures
            r matches Some(i) ==> i < self.entries@.len() && self.entries@[i as int].0@ == key@
                && self.objects().contains_key(key@) && self.objects()[key@]
                == self.entries@[i as int].1@,
            r is None ==> !self.objects().contains_key(key@),
    {
        let mut i: usize = self.entries.len();
        while i > 0
            invariant
                i <= self.entries@.len(),
                forall|l: int| i <= l < self.entries@.len() ==> self.entries@[l].0@ != key@,
            decreases i,
        {
            i = i - 1;
            if self.entries[i].0 == *key {
                proof {
                    lemma_entries_map_lookup(self.entries@, i as int);
                }
                return Some(i);
            }
        }
        proof {
            lemma_entries_map_contains(self.entries@, key@);
        }
        None
    }

    /// Computes the object for a payload (default kind: blob), stores its
    /// compressed encoding under its hex id, and returns it. Storing is
    /// idempotent: the same payload and kind always land under the same id
    /// with the same bytes.
    pub fn hash_object(&mut self, data: &[u8], object_type: Option<OgitObjectType>) -> (r:
        OgitObject)
        ensures
            ({
                let v = match object_type {
                    Some(t) => t,
                    None => OgitObjectType::Blob,
                };
                &&& r.wf()
                &&& r.variant == v
                &&& r.data@ == data@
                &&& r.spec_content() == encode_bytes(v, data@)
                &&& r.spec_id() == sha1_of(encode_bytes(v, data@))
                &&& final(self).objects() == old(self).objects().insert(
                    id_chars(v, data@),
                    zlib_of(encode_bytes(v, data@)),
                )
                &&& final(self).head == old(self).head
            }),
    {
        let variant = match object_type {
            Some(t) => t,
            None => OgitObjectType::Blob,
        };
        let object = OgitObject::new(data, variant);
        let content = object.file_content();
        let compressed = zlib_compress(content.as_slice());
        let id = object.hex_string();
        self.insert_raw(id, compressed);
        object
    }

    /// Retrieves and decodes the object stored under an id. Fails with
    /// `NotFound` exactly when the id is absent, with `InvalidObject` when
    /// the stored bytes do not decompress or decode, and with
    /// `ObjectTypeMismatch` when a kind was expected and the stored object
    /// has another.
    pub fn get_object(&self, object_id: &str, expected_object_type: Option<OgitObjectType>) -> (r:
        Result<OgitObject, OgitError>)
        ensures
            (r == Err::<OgitObject, OgitError>(OgitError::NotFound)) <==> !self.objects()
                .contains_key(object_id@),
            forall|c: Seq<u8>|
                self.objects().contains_key(object_id@) && self.objects()[object_id@] == zlib_of(c)
                    ==> matches_stored(c, expected_object_type, r),
            r matches Ok(o) ==> o.wf(),
    {
        let key: String = object_id.to_owned();
        let idx = match self.find_newest(&key) {
            Some(i) => i,
            None => {
                return Err(OgitError::NotFound);
            },
        };
        let stored = &self.entries[idx].1;
        let content = match zlib_decompress(stored.as_slice()) {
            Some(c) => c,
            None => {
                return Err(OgitError::InvalidObject);
            },
        };
        let object = match OgitObject::from_bytes(content.as_slice()) {
            Ok(o) => o,
            Err(_) => {
                return Err(OgitError::InvalidObject);
            },
        };
        if let Some(expected) = expected_object_type {
            if !variant_eq(expected, object.variant) {
                return Err(
                    OgitError::ObjectTypeMismatch { expected, got: object.variant },
                );
            }
        }
        Ok(object)
    }

    /// The current HEAD reference, if set.
    pub fn head_id(&self) -> (r: Option<String>)
        ensures
            r == self.head,
    {
        match &self.head {
            Some(h) => Some(h.clone()),
            None => None,
        }
    }

    /// Points HEAD at an id.
    pub fn set_head(&mut self, id: String)
        ensures
            final(self).head == Some(id),
            final(self).objects() == old(self).objects(),
    {
        self.head = Some(id);
    }
}

fn variant_eq(a: OgitObjectType, b: OgitObjectType) -> (r: bool)
    ensures
        r == (a == b),
{
    match (a, b) {
        (OgitObjectType::Blob, OgitObjectType::Blob) => true,
        (OgitObjectType::Tree, OgitObjectType::Tree) => true,
        (OgitObjectType::Commit, OgitObjectType::Commit) => true,
        _ => false,
    }
}

fn clone_bytes(v: &Vec<u8>) -> (r: Vec<u8>)
    ensures
        r@ == v@,
{
    let mut r: Vec<u8> = Vec::new();
    r.extend_from_slice(v.as_slice());
    proof {
        assert(r@ =~= v@);
    }
    r
}

} // verus!
