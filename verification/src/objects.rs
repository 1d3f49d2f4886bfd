//! The object codec: the three object kinds, the canonical
//! `"{variant} {len}\0{payload}"` encoding, content hashing, and decoding of
//! stored bytes back into an object.

use crate::text::{
    bytes_eq, dec_bytes_of, find_byte, hex_digit, hex_of, hex_string_of, lemma_dec_bytes_digits,
    lemma_find_byte_is, lemma_find_byte_properties, lemma_hex_of_len,
};
use crate::trusted::{push_char, sha1_digest, sha1_of};
use vstd::prelude::*;
use vstd::string::StringExecFns;

verus! {

/// The kind of a stored object: file contents, a directory snapshot, or a
/// commit record.
#[derive(Clone, Copy, Debug, PartialEq, Eq, Structural)]
pub enum OgitObjectType {
    Blob,
    Tree,
    Commit,
}

/// The failures that the store and the codecs report.
#[derive(Clone, Copy, Debug, PartialEq, Eq, Structural)]
pub enum OgitError {
    /// No object with the requested id is stored.
    NotFound,
    /// A stored object had a kind other than the one the caller expected.
    ObjectTypeMismatch { expected: OgitObjectType, got: OgitObjectType },
    /// Stored bytes do not decode as an object.
    InvalidObject,
    /// A commit payload does not parse as commit metadata.
    MalformedCommit,
    /// An input/output failure outside the data model.
    IoError,
    /// The store root was already present when initialization ran.
    AlreadyExists,
}

/// The tag word of each object kind, as ASCII bytes.
pub open spec fn variant_bytes(v: OgitObjectType) -> Seq<u8> {
    match v {
        OgitObjectType::Blob => seq![98u8, 108u8, 111u8, 98u8],
        OgitObjectType::Tree => seq![116u8, 114u8, 101u8, 101u8],
        OgitObjectType::Commit => seq![99u8, 111u8, 109u8, 109u8, 105u8, 116u8],
    }
}

/// The tag word of each object kind, as characters.
pub open spec fn variant_chars(v: OgitObjectType) -> Seq<char> {
    match v {
        OgitObjectType::Blob => seq!['b', 'l', 'o', 'b'],
        OgitObjectType::Tree => seq!['t', 'r', 'e', 'e'],
        OgitObjectType::Commit => seq!['c', 'o', 'm', 'm', 'i', 't'],
    }
}

/// The canonical header: `"{variant} {len}\0"`.
pub open spec fn header_bytes(v: OgitObjectType, len: nat) -> Seq<u8> {
    variant_bytes(v) + seq![32u8] + dec_bytes_of(len) + seq![0u8]
}

/// The canonical encoding of an object: header, then payload.
pub open spec fn encode_bytes(v: OgitObjectType, payload: Seq<u8>) -> Seq<u8> {
    header_bytes(v, payload.len()) + payload
}

/// The 40-character lower-case hex id of an object with this kind and payload.
pub open spec fn id_chars(v: OgitObjectType, payload: Seq<u8>) -> Seq<char> {
    hex_of(sha1_of(encode_bytes(v, payload)))
}

/// Reads the tag word back: `Some` exactly for the three tag words.
pub open spec fn parse_variant(s: Seq<u8>) -> Option<OgitObjectType> {
    if s == variant_bytes(OgitObjectType::Blob) {
        Some(OgitObjectType::Blob)
    } else if s == variant_bytes(OgitObjectType::Tree) {
        Some(OgitObjectType::Tree)
    } else if s == variant_bytes(OgitObjectType::Commit) {
        Some(OgitObjectType::Commit)
    } else {
        None
    }
}

/// Decodes stored bytes: split at the first NUL, read the text before the
/// first space of the header as the kind, and take the rest as the payload.
/// `None` when there is no NUL, no space, or an unknown kind.
pub open spec fn decode_object(content: Seq<u8>) -> Option<(OgitObjectType, Seq<u8>)> {
    let n = find_byte(content, 0);
    if n == -1 {
        None
    } else {
        let header = content.take(n);
        let payload = content.skip(n + 1);
        let sp = find_byte(header, 32);
        if sp == -1 {
            None
        } else {
            match parse_variant(header.take(sp)) {
                Some(v) => Some((v, payload)),
                None => None,
            }
        }
    }
}

/// An immutable content-addressed object: its 20-byte digest, its header
/// bytes, its payload, and its kind.
#[derive(Debug, Clone)]
pub struct OgitObject {
    pub id: Vec<u8>,
    pub header: Vec<u8>,
    pub data: Vec<u8>,
    pub variant: OgitObjectType,
}

impl OgitObject {
    /// The digest bytes backing the object's id.
    pub open spec fn spec_id(self) -> Seq<u8> {
        self.id@
    }

    /// The header bytes, NUL included.
    pub open spec fn spec_header(self) -> Seq<u8> {
        self.header@
    }

    /// The full stored form: header followed by payload.
    pub open spec fn spec_content(self) -> Seq<u8> {
        self.header@ + self.data@
    }

    /// Every object ties its id to the digest of its stored form, and its
    /// stored form decodes back to its kind and payload.
    pub open spec fn wf(self) -> bool {
        &&& self.id@ == sha1_of(self.spec_content())
        &&& self.id@.len() == 20
        &&& decode_object(self.spec_content()) == Some((self.variant, self.data@))
    }

    /// Builds the object for a payload and kind: canonical header, digest of
    /// header plus payload.
    pub fn new(data: &[u8], variant: OgitObjectType) -> (r: OgitObject)
        ensures
            r.wf(),
            r.variant == variant,
            r.data@ == data@,
            r.spec_header() == header_bytes(variant, data@.len()),
            r.spec_content() == encode_bytes(variant, data@),
            r.spec_id() == sha1_of(encode_bytes(variant, data@)),
    {
        let mut header: Vec<u8> = Vec::new();
        match variant {
            OgitObjectType::Blob => {
                header.push(98);
                header.push(108);
                header.push(111);
                header.push(98);
            },
            OgitObjectType::Tree => {
                header.push(116);
                header.push(114);
                header.push(101);
                header.push(101);
            },
            OgitObjectType::Commit => {
                header.push(99);
                header.push(111);
                header.push(109);
                header.push(109);
                header.push(105);
                header.push(116);
            },
        }
        proof {
            assert(header@ =~= variant_bytes(variant));
        }
        header.push(32);
        crate::text::push_dec_bytes(&mut header, data.len() as u64);
        header.push(0);
        proof {
            assert(header@ =~= header_bytes(variant, data@.len()));
        }
        let mut content: Vec<u8> = Vec::new();
        content.extend_from_slice(header.as_slice());
        content.extend_from_slice(data);
        proof {
            assert(content@ =~= header@ + data@);
        }
        let id = sha1_digest(content.as_slice());
        let data_vec = vstd::slice::slice_to_vec(data);
        let r = OgitObject { id, header, data: data_vec, variant };
        proof {
            lemma_decode_encode(variant, data@);
        }
        r
    }

    /// Rebuilds an object from its stored form, digesting the whole content
    /// and reading kind and payload from the header. Fails with
    /// `InvalidObject` when the bytes do not decode.
    pub fn from_bytes(content: &[u8]) -> (r: Result<OgitObject, OgitError>)
        ensures
            r matches Ok(o) ==> {
                &&& decode_object(content@) == Some((o.variant, o.data@))
                &&& o.wf()
                &&& o.spec_content() == content@
                &&& o.spec_id() == sha1_of(content@)
            },
            r is Err ==> r == Err::<OgitObject, OgitError>(OgitError::InvalidObject)
                && decode_object(content@) is None,
    {
        let nul = match crate::text::find_byte_in(content, 0) {
            Some(i) => i,
            None => {
                return Err(OgitError::InvalidObject);
            },
        };
        let header_slice = vstd::slice::slice_subrange(content, 0, nul);
        proof {
            assert(header_slice@ =~= content@.take(nul as int));
        }
        let sp = match crate::text::find_byte_in(header_slice, 32) {
            Some(i) => i,
            None => {
                return Err(OgitError::InvalidObject);
            },
        };
        let word = vstd::slice::slice_subrange(header_slice, 0, sp);
        proof {
            assert(word@ =~= header_slice@.take(sp as int));
        }
        let variant = match parse_variant_bytes(word) {
            Some(v) => v,
            None => {
                return Err(OgitError::InvalidObject);
            },
        };
        let mut header = vstd::slice::slice_to_vec(header_slice);
        header.push(0);
        let clen = content.len();
        assert(nul < clen);
        let data = vstd::slice::slice_to_vec(
            vstd::slice::slice_subrange(content, nul + 1, clen),
        );
        let id = sha1_digest(content);
        let r = OgitObject { id, header, data, variant };
        proof {
            lemma_find_byte_properties(content@, 0);
            assert(content@[nul as int] == 0);
            assert(r.data@ =~= content@.skip(nul + 1));
            assert(r.spec_content() =~= content@);
            assert(decode_object(content@) == Some((r.variant, r.data@)));
        }
        Ok(r)
    }

    /// The object id as 40 lower-case hex characters.
    pub fn hex_string(&self) -> (r: String)
        ensures
            r@ == hex_of(self.spec_id()),
    {
        hex_string_of(self.id.as_slice())
    }

    /// The stored form of the object: header bytes followed by payload bytes.
    pub fn file_content(&self) -> (r: Vec<u8>)
        ensures
            r@ == self.spec_content(),
    {
        let mut r: Vec<u8> = Vec::new();
        r.extend_from_slice(self.header.as_slice());
        r.extend_from_slice(self.data.as_slice());
        proof {
            assert(r@ =~= self.spec_content());
        }
        r
    }

    /// The object's relative path in the database: the first two hex
    /// characters name the shard directory, the remaining ones the file.
    pub fn object_database_filepath(&self) -> (r: String)
        requires
            self.spec_id().len() > 0,
        ensures
            r@ == filepath_chars(self.spec_id()),
    {
        let mut r = String::new();
        let b0 = self.id[0];
        push_char(&mut r, hex_digit_char_local(b0 / 16));
        push_char(&mut r, hex_digit_char_local(b0 % 16));
        push_char(&mut r, '/');
        let rest = hex_string_of(vstd::slice::slice_subrange(self.id.as_slice(), 1, self.id.len()));
        r.append(rest.as_str());
        proof {
            assert(self.id@.subrange(1, self.id@.len() as int) =~= self.id@.drop_first());
            assert(r@ =~= filepath_chars(self.spec_id()));
        }
        r
    }
}

/// The two-level database path for an id: two hex digits, a slash, then the
/// hex of the remaining bytes.
pub open spec fn filepath_chars(id: Seq<u8>) -> Seq<char>
    recommends
        id.len() > 0,
{
    seq![hex_digit(id[0] / 16), hex_digit(id[0] % 16), '/'] + hex_of(id.drop_first())
}

fn hex_digit_char_local(n: u8) -> (c: char)
    requires
        n < 16,
    ensures
        c == hex_digit(n),
{
    if n < 10 {
        (48 + n) as char
    } else {
        (87 + n) as char
    }
}




/// Reads a tag word from bytes.
fn parse_variant_bytes(s: &[u8]) -> (r: Option<OgitObjectType>)
    ensures
        r == parse_variant(s@),
{
    let blob: [u8; 4] = [98, 108, 111, 98];
    let tree: [u8; 4] = [116, 114, 101, 101];
    let commit: [u8; 6] = [99, 111, 109, 109, 105, 116];
    if bytes_eq(s, blob.as_slice()) {
        proof {
            assert(blob@ =~= variant_bytes(OgitObjectType::Blob));
        }
        Some(OgitObjectType::Blob)
    } else if bytes_eq(s, tree.as_slice()) {
        proof {
            assert(tree@ =~= variant_bytes(OgitObjectType::Tree));
        }
        Some(OgitObjectType::Tree)
    } else if bytes_eq(s, commit.as_slice()) {
        proof {
            assert(commit@ =~= variant_bytes(OgitObjectType::Commit));
        }
        Some(OgitObjectType::Commit)
    } else {
        proof {
            assert(blob@ =~= variant_bytes(OgitObjectType::Blob));
            assert(tree@ =~= variant_bytes(OgitObjectType::Tree));
            assert(commit@ =~= variant_bytes(OgitObjectType::Commit));
        }
        None
    }
}

/// Decoding undoes encoding: the canonical bytes of any kind and payload
/// decode back to exactly that kind and payload.
pub proof fn lemma_decode_encode(v: OgitObjectType, payload: Seq<u8>)
    ensures
        decode_object(encode_bytes(v, payload)) == Some((v, payload)),
{
    let content = encode_bytes(v, payload);
    let vb = variant_bytes(v);
    let dec = dec_bytes_of(payload.len());
    lemma_dec_bytes_digits(payload.len());
    let n = vb.len() + 1 + dec.len();
    assert(content[n as int] == 0);
    assert forall|j: int| 0 <= j < n implies content[j] != 0 by {
        if j < vb.len() {
            assert(content[j] == vb[j]);
        } else if j == vb.len() {
            assert(content[j] == 32);
        } else {
            assert(content[j] == dec[j - vb.len() - 1]);
        }
    }
    lemma_find_byte_is(content, 0, n as int);
    let header = content.take(n as int);
    assert forall|j: int| 0 <= j < vb.len() implies header[j] != 32 by {
        assert(header[j] == vb[j]);
    }
    assert(header[vb.len() as int] == 32);
    lemma_find_byte_is(header, 32, vb.len() as int);
    assert(header.take(vb.len() as int) =~= vb);
    assert(parse_variant(vb) == Some(v));
    assert(content.skip(n as int + 1) =~= payload);
}


/// Hashing is deterministic: any two well-formed objects whose stored
/// forms are byte-identical carry the same id, because an id is a function
/// of the content alone.
pub proof fn lemma_id_deterministic(a: OgitObject, b: OgitObject)
    requires
        a.wf(),
        b.wf(),
        a.spec_content() == b.spec_content(),
    ensures
        a.spec_id() == b.spec_id(),
{
}

/// Retrieval checks the stored kind: whatever was stored as one kind is
/// refused, with `ObjectTypeMismatch` naming both kinds, when a caller
/// expects another.
pub proof fn lemma_kind_checked(
    stored: OgitObjectType,
    expected: OgitObjectType,
    payload: Seq<u8>,
    r: Result<OgitObject, OgitError>,
)
    requires
        stored != expected,
        crate::store::matches_stored(encode_bytes(stored, payload), Some(expected), r),
    ensures
        r == Err::<OgitObject, OgitError>(
            OgitError::ObjectTypeMismatch { expected: expected, got: stored },
        ),
{
    lemma_decode_encode(stored, payload);
}


impl OgitObjectType {
    /// The kind's tag word as text.
    pub fn text(&self) -> (r: String)
        ensures
            r@ == variant_chars(*self),
    {
        let mut s = String::new();
        match self {
            OgitObjectType::Blob => {
                push_char(&mut s, 'b');
                push_char(&mut s, 'l');
                push_char(&mut s, 'o');
                push_char(&mut s, 'b');
            },
            OgitObjectType::Tree => {
                push_char(&mut s, 't');
                push_char(&mut s, 'r');
                push_char(&mut s, 'e');
                push_char(&mut s, 'e');
            },
            OgitObjectType::Commit => {
                push_char(&mut s, 'c');
                push_char(&mut s, 'o');
                push_char(&mut s, 'm');
                push_char(&mut s, 'm');
                push_char(&mut s, 'i');
                push_char(&mut s, 't');
            },
        }
        proof {
            assert(s@ =~= variant_chars(*self));
        }
        s
    }
}

} // verus!
