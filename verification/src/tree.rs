//! Directory snapshots as trees: a directory value is mapped, depth first
//! and in entry order, onto blob and tree objects in the store; reading a
//! tree id back flattens it into the files it names. Entries are not
//! sorted, so the tree id reflects the order entries were handed in.

use crate::ignore::{is_ignored, spec_ignored};
use crate::objects::{
    encode_bytes, id_chars, variant_bytes, OgitError, OgitObject, OgitObjectType,
};
use crate::store::ObjectStore;
use crate::text::{oct6_of, push_oct6_u32};
use crate::trusted::{push_char, sha1_of, zlib_of};
use vstd::prelude::*;
use vstd::string::StrSliceExecFns;
use vstd::string::StringExecFns;
use vstd::utf8::encode_utf8;

verus! {

/// A directory entry handed in for snapshotting: a file's permission mode
/// and bytes, or a nested directory.
pub enum FsEntry {
    File { mode: u32, data: Vec<u8> },
    Dir(FsDir),
}

/// A directory as a list of named entries, in the order they are to be
/// walked.
pub struct FsDir {
    pub entries: Vec<(String, FsEntry)>,
}

/// A child's path: the base path, a slash, the entry name.
pub open spec fn child_path(base: Seq<char>, name: Seq<char>) -> Seq<char> {
    base + seq!['/'] + name
}

/// The object kind an entry maps to.
pub open spec fn entry_variant(e: FsEntry) -> OgitObjectType {
    match e {
        FsEntry::File { .. } => OgitObjectType::Blob,
        FsEntry::Dir(_) => OgitObjectType::Tree,
    }
}

/// The filemode text an entry gets: six-digit octal for a file, the fixed
/// `040000` for a directory.
pub open spec fn entry_mode_chars(e: FsEntry) -> Seq<char> {
    match e {
        FsEntry::File { mode, .. } => oct6_of(mode as nat),
        FsEntry::Dir(_) => seq!['0', '4', '0', '0', '0', '0'],
    }
}

/// One tree line: `"{filemode} {variant} {id} {filename}\n"` as bytes.
pub open spec fn entry_line(
    mode: Seq<char>,
    variant: OgitObjectType,
    id: Seq<char>,
    name: Seq<char>,
) -> Seq<u8> {
    encode_utf8(mode) + seq![32u8] + variant_bytes(variant) + seq![32u8] + encode_utf8(id) + seq![
        32u8,
    ] + encode_utf8(name) + seq![10u8]
}

/// The payload an entry's own object gets: a file's bytes, or the nested
/// directory's tree payload.
pub open spec fn entry_payload(e: FsEntry, ignores: Seq<Seq<char>>, path: Seq<char>) -> Seq<u8>
    decreases e, 0int, 0int,
{
    match e {
        FsEntry::File { data, .. } => data@,
        FsEntry::Dir(d) => dir_payload_prefix(d, ignores, path, d.entries@.len() as int),
    }
}

/// The id an entry's object gets.
pub open spec fn entry_id(e: FsEntry, ignores: Seq<Seq<char>>, path: Seq<char>) -> Seq<char>
    decreases e, 0int, 1int,
{
    id_chars(entry_variant(e), entry_payload(e, ignores, path))
}

/// The tree payload of a directory's first `n` entries: one line per entry
/// whose path no ignore pattern matches.
pub open spec fn dir_payload_prefix(
    d: FsDir,
    ignores: Seq<Seq<char>>,
    base: Seq<char>,
    n: int,
) -> Seq<u8>
    decreases d, 0int, n,
{
    if n <= 0 || n > d.entries@.len() {
        Seq::empty()
    } else {
        let name = d.entries@[n - 1].0@;
        let e = d.entries@[n - 1].1;
        let p = child_path(base, name);
        dir_payload_prefix(d, ignores, base, n - 1) + (if spec_ignored(p, ignores) {
            Seq::<u8>::empty()
        } else {
            entry_line(entry_mode_chars(e), entry_variant(e), entry_id(e, ignores, p), name)
        })
    }
}

/// The whole tree payload of a directory.
pub open spec fn dir_payload(d: FsDir, ignores: Seq<Seq<char>>, base: Seq<char>) -> Seq<u8> {
    dir_payload_prefix(d, ignores, base, d.entries@.len() as int)
}

/// The tree id a directory gets: a function of its content, the ignore
/// patterns, and the base path alone.
pub open spec fn dir_id(d: FsDir, ignores: Seq<Seq<char>>, base: Seq<char>) -> Seq<char> {
    id_chars(OgitObjectType::Tree, dir_payload(d, ignores, base))
}

/// Every (id, stored bytes) pair that snapshotting an entry writes,
/// children before parents, in walk order.
pub open spec fn entry_objects(e: FsEntry, ignores: Seq<Seq<char>>, path: Seq<char>) -> Seq<
    (Seq<char>, Seq<u8>),
>
    decreases e, 0int, 0int,
{
    match e {
        FsEntry::File { data, .. } => seq![
            (
                id_chars(OgitObjectType::Blob, data@),
                zlib_of(encode_bytes(OgitObjectType::Blob, data@)),
            ),
        ],
        FsEntry::Dir(d) => dir_objects_prefix(d, ignores, path, d.entries@.len() as int) + seq![
            (
                dir_id(d, ignores, path),
                zlib_of(encode_bytes(OgitObjectType::Tree, dir_payload(d, ignores, path))),
            ),
        ],
    }
}

/// The object writes for a directory's first `n` entries.
pub open spec fn dir_objects_prefix(
    d: FsDir,
    ignores: Seq<Seq<char>>,
    base: Seq<char>,
    n: int,
) -> Seq<(Seq<char>, Seq<u8>)>
    decreases d, n, 0int,
{
    if n <= 0 || n > d.entries@.len() {
        Seq::empty()
    } else {
        let name = d.entries@[n - 1].0@;
        let e = d.entries@[n - 1].1;
        let p = child_path(base, name);
        dir_objects_prefix(d, ignores, base, n - 1) + (if spec_ignored(p, ignores) {
            Seq::<(Seq<char>, Seq<u8>)>::empty()
        } else {
            entry_objects(e, ignores, p)
        })
    }
}

/// All object writes a directory snapshot makes: its entries' objects, then
/// its own tree object.
pub open spec fn dir_objects(d: FsDir, ignores: Seq<Seq<char>>, base: Seq<char>) -> Seq<
    (Seq<char>, Seq<u8>),
> {
    dir_objects_prefix(d, ignores, base, d.entries@.len() as int) + seq![
        (
            dir_id(d, ignores, base),
            zlib_of(encode_bytes(OgitObjectType::Tree, dir_payload(d, ignores, base))),
        ),
    ]
}

/// A map after a sequence of insertions, first to last.
pub open spec fn insert_all(
    m: Map<Seq<char>, Seq<u8>>,
    s: Seq<(Seq<char>, Seq<u8>)>,
) -> Map<Seq<char>, Seq<u8>>
    decreases s.len(),
{
    if s.len() == 0 {
        m
    } else {
        insert_all(m, s.drop_last()).insert(s.last().0, s.last().1)
    }
}

pub proof fn lemma_insert_all_concat(
    m: Map<Seq<char>, Seq<u8>>,
    a: Seq<(Seq<char>, Seq<u8>)>,
    b: Seq<(Seq<char>, Seq<u8>)>,
)
    ensures
        insert_all(m, a + b) == insert_all(insert_all(m, a), b),
    decreases b.len(),
{
    if b.len() == 0 {
        assert(a + b =~= a);
    } else {
        lemma_insert_all_concat(m, a, b.drop_last());
        assert((a + b).drop_last() =~= a + b.drop_last());
        assert((a + b).last() == b.last());
    }
}

/// One line of tree text as `TreeEntry` values carry it.
#[derive(Debug, Clone)]
pub struct TreeEntry {
    pub filemode: String,
    pub filename: String,
    pub id: String,
    pub variant: OgitObjectType,
}

/// The bytes of this entry's line.
pub open spec fn entry_line_of(e: TreeEntry) -> Seq<u8> {
    entry_line(e.filemode@, e.variant, e.id@, e.filename@)
}

/// The base name of a path: the suffix after the last slash.
pub open spec fn basename_of(path: Seq<char>) -> Seq<char> {
    path.skip(last_slash(path) + 1)
}

/// The index of the last slash, or -1 when there is none.
pub open spec fn last_slash(path: Seq<char>) -> int
    decreases path.len(),
{
    if path.len() == 0 {
        -1
    } else if path.last() == '/' {
        path.len() - 1
    } else {
        last_slash(path.drop_last())
    }
}

/// The base name of a path: the part after the last slash, `None` when that
/// part is empty.
pub fn get_filename(filepath: &str) -> (r: Option<String>)
    ensures
        r matches Some(s) ==> s@ == basename_of(filepath@) && basename_of(filepath@).len() > 0,
        r is None ==> basename_of(filepath@).len() == 0,
{
    let n = filepath.unicode_len();
    let mut cut: usize = 0;
    let mut i: usize = 0;
    while i < n
        invariant
            i <= n,
            n == filepath@.len(),
            cut <= i,
            cut as int - 1 == last_slash(filepath@.take(i as int)),
        decreases n - i,
    {
        let c = filepath.get_char(i);
        proof {
            assert(filepath@.take(i + 1).drop_last() =~= filepath@.take(i as int));
            assert(filepath@.take(i + 1).last() == filepath@[i as int]);
        }
        if c == '/' {
            cut = i + 1;
        }
        i = i + 1;
    }
    proof {
        assert(filepath@.take(n as int) =~= filepath@);
    }
    let mut out = String::new();
    let mut j = cut;
    while j < n
        invariant
            cut <= j <= n,
            n == filepath@.len(),
            out@ == filepath@.subrange(cut as int, j as int),
        decreases n - j,
    {
        push_char(&mut out, filepath.get_char(j));
        proof {
            assert(filepath@.subrange(cut as int, j + 1) =~= filepath@.subrange(
                cut as int,
                j as int,
            ).push(filepath@[j as int]));
        }
        j = j + 1;
    }
    proof {
        assert(out@ =~= basename_of(filepath@));
    }
    if out.as_str().unicode_len() == 0 {
        None
    } else {
        Some(out)
    }
}

impl TreeEntry {
    /// The filemode text: six-digit octal from the mode bits for anything
    /// but a tree, the fixed directory mode for a tree.
    pub fn format_filemode(filemode: u32, variant: &OgitObjectType) -> (r: String)
        ensures
            ({
                match variant {
                    OgitObjectType::Tree => r@ == seq!['0', '4', '0', '0', '0', '0'],
                    _ => r@ == oct6_of(filemode as nat),
                }
            }),
    {
        match variant {
            OgitObjectType::Tree => {
                let mut s = String::new();
                push_char(&mut s, '0');
                push_char(&mut s, '4');
                push_char(&mut s, '0');
                push_char(&mut s, '0');
                push_char(&mut s, '0');
                push_char(&mut s, '0');
                proof {
                    assert(s@ =~= seq!['0', '4', '0', '0', '0', '0']);
                }
                s
            },
            _ => {
                let mut s = String::new();
                push_oct6_u32(&mut s, filemode);
                proof {
                    assert(s@ =~= oct6_of(filemode as nat));
                }
                s
            },
        }
    }

    /// Builds the line for one object found at a path: the mode text, the
    /// object's kind, its hex id, and the path's base name.
    pub fn new(file_path: &str, filemode: u32, object: OgitObject) -> (r: TreeEntry)
        requires
            basename_of(file_path@).len() > 0,
        ensures
            r.filename@ == basename_of(file_path@),
            r.id@ == crate::text::hex_of(object.spec_id()),
            r.variant == object.variant,
            ({
                match object.variant {
                    OgitObjectType::Tree => r.filemode@ == seq!['0', '4', '0', '0', '0', '0'],
                    _ => r.filemode@ == oct6_of(filemode as nat),
                }
            }),
    {
        let filename = match get_filename(file_path) {
            Some(s) => s,
            None => String::new(),
        };
        TreeEntry {
            filemode: Self::format_filemode(filemode, &object.variant),
            filename,
            id: object.hex_string(),
            variant: object.variant,
        }
    }

    /// This entry's line without the newline, as tree text shows it.
    pub fn line_string(&self) -> (r: String)
        ensures
            encode_utf8(r@).push(10u8) == entry_line_of(*self),
    {
        let mut s = self.filemode.clone();
        push_char(&mut s, ' ');
        s.append(self.variant.text().as_str());
        push_char(&mut s, ' ');
        s.append(self.id.as_str());
        push_char(&mut s, ' ');
        s.append(self.filename.as_str());
        proof {
            lemma_encode_utf8_concat(s@, Seq::empty());
            assert(s@ =~= self.filemode@ + seq![' '] + crate::objects::variant_chars(self.variant)
                + seq![' '] + self.id@ + seq![' '] + self.filename@);
            lemma_entry_line_encode(*self);
        }
        s
    }
}

/// UTF-8 encoding distributes over concatenation.
pub proof fn lemma_encode_utf8_concat(a: Seq<char>, b: Seq<char>)
    ensures
        encode_utf8(a + b) =~= encode_utf8(a) + encode_utf8(b),
    decreases a.len(),
{
    if a.len() == 0 {
        assert(a + b =~= b);
        assert(encode_utf8(a) =~= Seq::<u8>::empty());
    } else {
        assert((a + b).first() == a.first());
        assert((a + b).drop_first() =~= a.drop_first() + b);
        lemma_encode_utf8_concat(a.drop_first(), b);
    }
}

proof fn lemma_entry_line_encode(e: TreeEntry)
    ensures
        entry_line_of(e) =~= encode_utf8(
            e.filemode@ + seq![' '] + crate::objects::variant_chars(e.variant) + seq![' '] + e.id@
                + seq![' '] + e.filename@,
        ).push(10u8),
{
    lemma_encode_utf8_concat(e.filemode@, seq![' ']);
    lemma_encode_utf8_concat(e.filemode@ + seq![' '], crate::objects::variant_chars(e.variant));
    lemma_encode_utf8_concat(
        e.filemode@ + seq![' '] + crate::objects::variant_chars(e.variant),
        seq![' '],
    );
    lemma_encode_utf8_concat(
        e.filemode@ + seq![' '] + crate::objects::variant_chars(e.variant) + seq![' '],
        e.id@,
    );
    lemma_encode_utf8_concat(
        e.filemode@ + seq![' '] + crate::objects::variant_chars(e.variant) + seq![' '] + e.id@,
        seq![' '],
    );
    lemma_encode_utf8_concat(
        e.filemode@ + seq![' '] + crate::objects::variant_chars(e.variant) + seq![' '] + e.id@
            + seq![' '],
        e.filename@,
    );
    lemma_encode_single(' ');
    lemma_variant_encode(e.variant);
}

proof fn lemma_encode_single(c: char)
    requires
        c < '\u{7f}',
        c >= '\0',
    ensures
        encode_utf8(seq![c]) =~= seq![c as u8],
{
    vstd::utf8::is_ascii_chars_encode_utf8(seq![c]);
}

proof fn lemma_variant_encode(v: OgitObjectType)
    ensures
        encode_utf8(crate::objects::variant_chars(v)) =~= variant_bytes(v),
{
    vstd::utf8::is_ascii_chars_encode_utf8(crate::objects::variant_chars(v));
}


/// The concatenated lines of a list of entries.
pub open spec fn build_lines(entries: Seq<TreeEntry>) -> Seq<u8>
    decreases entries.len(),
{
    if entries.len() == 0 {
        Seq::empty()
    } else {
        build_lines(entries.drop_last()) + entry_line_of(entries.last())
    }
}

fn push_entry_line(out: &mut Vec<u8>, mode: &String, variant: OgitObjectType, id: &String, name: &String)
    ensures
        final(out)@ == old(out)@ + entry_line(mode@, variant, id@, name@),
{
    out.extend_from_slice(mode.as_str().as_bytes());
    out.push(32);
    let blob: [u8; 4] = [98, 108, 111, 98];
    let tree: [u8; 4] = [116, 114, 101, 101];
    let commit: [u8; 6] = [99, 111, 109, 109, 105, 116];
    match variant {
        OgitObjectType::Blob => out.extend_from_slice(blob.as_slice()),
        OgitObjectType::Tree => out.extend_from_slice(tree.as_slice()),
        OgitObjectType::Commit => out.extend_from_slice(commit.as_slice()),
    }
    out.push(32);
    out.extend_from_slice(id.as_str().as_bytes());
    out.push(32);
    out.extend_from_slice(name.as_str().as_bytes());
    out.push(10);
    proof {
        assert(blob@ =~= variant_bytes(OgitObjectType::Blob));
        assert(tree@ =~= variant_bytes(OgitObjectType::Tree));
        assert(commit@ =~= variant_bytes(OgitObjectType::Commit));
        assert(out@ =~= old(out)@ + entry_line(mode@, variant, id@, name@));
    }
}

/// Serializes entries, one line each, in order.
pub fn build_tree_data(entries: &Vec<TreeEntry>) -> (r: Vec<u8>)
    ensures
        r@ == build_lines(entries@),
{
    let mut r: Vec<u8> = Vec::new();
    let n = entries.len();
    let mut i: usize = 0;
    while i < n
        invariant
            i <= n,
            n == entries@.len(),
            r@ == build_lines(entries@.take(i as int)),
        decreases n - i,
    {
        let e = &entries[i];
        push_entry_line(&mut r, &e.filemode, e.variant, &e.id, &e.filename);
        proof {
            assert(entries@.take(i + 1).drop_last() =~= entries@.take(i as int));
            assert(entries@.take(i + 1).last() == entries@[i as int]);
        }
        i = i + 1;
    }
    proof {
        assert(entries@.take(n as int) =~= entries@);
    }
    r
}

/// Snapshots a directory at a base path: every entry whose path no ignore
/// pattern matches is stored (files as blobs, nested directories
/// recursively as trees), then the directory's own tree payload is stored;
/// the store receives exactly the `dir_objects` writes in order, HEAD
/// stays, and the returned tree object carries `dir_payload`.
pub fn write_tree_at(store: &mut ObjectStore, dir: &FsDir, ignores: &Vec<String>, base: &String) -> (r:
    OgitObject)
    ensures
        ({
            let igv = ignores@.map_values(|s: String| s@);
            &&& r.wf()
            &&& r.variant == OgitObjectType::Tree
            &&& r.data@ == dir_payload(*dir, igv, base@)
            &&& r.spec_id() == sha1_of(
                encode_bytes(OgitObjectType::Tree, dir_payload(*dir, igv, base@)),
            )
            &&& final(store).objects() == insert_all(
                old(store).objects(),
                dir_objects(*dir, igv, base@),
            )
            &&& final(store).head == old(store).head
        }),
    decreases *dir,
{
    let ghost igv = ignores@.map_values(|s: String| s@);
    let mut entries_data: Vec<u8> = Vec::new();
    let n = dir.entries.len();
    let mut i: usize = 0;
    proof {
        assert(entries_data@ =~= dir_payload_prefix(*dir, igv, base@, 0));
        assert(store.objects() == insert_all(
            old(store).objects(),
            dir_objects_prefix(*dir, igv, base@, 0),
        ));
    }
    while i < n
        invariant
            i <= n,
            n == dir.entries@.len(),
            igv == ignores@.map_values(|s: String| s@),
            entries_data@ == dir_payload_prefix(*dir, igv, base@, i as int),
            store.objects() == insert_all(
                old(store).objects(),
                dir_objects_prefix(*dir, igv, base@, i as int),
            ),
            store.head == old(store).head,
        decreases n - i,
    {
        let name_ref = &dir.entries[i].0;
        let mut p = base.clone();
        push_char(&mut p, '/');
        p.append(name_ref.as_str());
        proof {
            assert(p@ =~= child_path(base@, name_ref@));
        }
        let ghost pre_data = entries_data@;
        let ghost pre_objects = store.objects();
        if !is_ignored(p.as_str(), ignores) {
            match &dir.entries[i].1 {
                FsEntry::File { mode, data } => {
                    let object = store.hash_object(data.as_slice(), Some(OgitObjectType::Blob));
                    let mode_s = TreeEntry::format_filemode(*mode, &OgitObjectType::Blob);
                    let id_s = object.hex_string();
                    push_entry_line(
                        &mut entries_data,
                        &mode_s,
                        OgitObjectType::Blob,
                        &id_s,
                        name_ref,
                    );
                    proof {
                        let e = dir.entries@[i as int].1;
                        assert(entry_payload(e, igv, p@) == data@);
                        assert(id_s@ == entry_id(e, igv, p@));
                        assert(pre_objects.insert(
                            id_chars(OgitObjectType::Blob, data@),
                            zlib_of(encode_bytes(OgitObjectType::Blob, data@)),
                        ) == insert_all(pre_objects, entry_objects(e, igv, p@))) by {
                            let s = entry_objects(e, igv, p@);
                            assert(s.drop_last() =~= Seq::<(Seq<char>, Seq<u8>)>::empty());
                            assert(insert_all(
                                pre_objects,
                                Seq::<(Seq<char>, Seq<u8>)>::empty(),
                            ) == pre_objects);
                            assert(s.last() == (
                                id_chars(OgitObjectType::Blob, data@),
                                zlib_of(encode_bytes(OgitObjectType::Blob, data@)),
                            ));
                            assert(insert_all(pre_objects, s) == insert_all(
                                pre_objects,
                                s.drop_last(),
                            ).insert(s.last().0, s.last().1));
                        }
                    }
                },
                FsEntry::Dir(sub) => {
                    let object = write_tree_at(store, sub, ignores, &p);
                    let mode_s = TreeEntry::format_filemode(0, &OgitObjectType::Tree);
                    let id_s = object.hex_string();
                    push_entry_line(
                        &mut entries_data,
                        &mode_s,
                        OgitObjectType::Tree,
                        &id_s,
                        name_ref,
                    );
                    proof {
                        let e = dir.entries@[i as int].1;
                        assert(entry_payload(e, igv, p@) == dir_payload(*sub, igv, p@));
                        assert(id_s@ == entry_id(e, igv, p@));
                        assert(entry_objects(e, igv, p@) == dir_objects(*sub, igv, p@));
                    }
                },
            }
        }
        proof {
            let e = dir.entries@[i as int].1;
            let nm = dir.entries@[i as int].0@;
            assert(nm == name_ref@);
            if spec_ignored(p@, igv) {
                assert(entries_data@ == pre_data);
                assert(store.objects() == pre_objects);
                assert(dir_payload_prefix(*dir, igv, base@, i + 1) == pre_data);
                assert(dir_objects_prefix(*dir, igv, base@, i + 1) =~= dir_objects_prefix(
                    *dir,
                    igv,
                    base@,
                    i as int,
                ) + Seq::<(Seq<char>, Seq<u8>)>::empty());
                lemma_insert_all_concat(
                    old(store).objects(),
                    dir_objects_prefix(*dir, igv, base@, i as int),
                    Seq::<(Seq<char>, Seq<u8>)>::empty(),
                );
            } else {
                assert(entries_data@ == dir_payload_prefix(*dir, igv, base@, i + 1));
                assert(dir_objects_prefix(*dir, igv, base@, i + 1) == dir_objects_prefix(
                    *dir,
                    igv,
                    base@,
                    i as int,
                ) + entry_objects(e, igv, p@));
                lemma_insert_all_concat(
                    old(store).objects(),
                    dir_objects_prefix(*dir, igv, base@, i as int),
                    entry_objects(e, igv, p@),
                );
                assert(store.objects() == insert_all(
                    old(store).objects(),
                    dir_objects_prefix(*dir, igv, base@, i + 1),
                ));
            }
        }
        i = i + 1;
    }
    let object = store.hash_object(entries_data.as_slice(), Some(OgitObjectType::Tree));
    proof {
        assert(entries_data@ == dir_payload(*dir, igv, base@));
        let objs = dir_objects(*dir, igv, base@);
        assert(objs.drop_last() =~= dir_objects_prefix(*dir, igv, base@, n as int));
        assert(objs.last() == (
            dir_id(*dir, igv, base@),
            zlib_of(encode_bytes(OgitObjectType::Tree, dir_payload(*dir, igv, base@))),
        ));
        assert(store.objects() == insert_all(old(store).objects(), objs));
    }
    object
}

/// Snapshots a directory taken as the working directory root: the walk
/// starts from the base path `"."`, as the store sees the working tree.
pub fn write_tree(store: &mut ObjectStore, dir: &FsDir, ignores: &Vec<String>) -> (r: OgitObject)
    ensures
        ({
            let igv = ignores@.map_values(|s: String| s@);
            &&& r.wf()
            &&& r.variant == OgitObjectType::Tree
            &&& r.data@ == dir_payload(*dir, igv, seq!['.'])
            &&& r.spec_id() == sha1_of(
                encode_bytes(OgitObjectType::Tree, dir_payload(*dir, igv, seq!['.'])),
            )
            &&& final(store).objects() == insert_all(
                old(store).objects(),
                dir_objects(*dir, igv, seq!['.']),
            )
            &&& final(store).head == old(store).head
        }),
{
    let mut base = String::new();
    push_char(&mut base, '.');
    proof {
        assert(base@ =~= seq!['.']);
    }
    write_tree_at(store, dir, ignores, &base)
}


/// One parsed tree line: filemode, kind, id, and filename tokens (a fifth
/// or later token is passed over, as whitespace splitting reads it).
pub open spec fn spec_parse_entry(line: Seq<u8>) -> Option<
    (Seq<u8>, OgitObjectType, Seq<u8>, Seq<u8>),
> {
    let toks = crate::text::spec_tokens(line);
    if toks.len() < 4 {
        None
    } else {
        match crate::objects::parse_variant(toks[1]) {
            Some(v) => Some((toks[0], v, toks[2], toks[3])),
            None => None,
        }
    }
}

/// Parses every line, failing when any line does not parse or a text field
/// is not valid UTF-8.
pub open spec fn parse_entry_lines(lines: Seq<Seq<u8>>) -> Option<
    Seq<(Seq<u8>, OgitObjectType, Seq<u8>, Seq<u8>)>,
>
    decreases lines.len(),
{
    if lines.len() == 0 {
        Some(Seq::empty())
    } else {
        let h = spec_parse_entry(lines.first());
        let t = parse_entry_lines(lines.drop_first());
        if h is Some && t is Some && vstd::utf8::valid_utf8((h->0).0) && vstd::utf8::valid_utf8(
            (h->0).2,
        ) && vstd::utf8::valid_utf8((h->0).3) {
            Some(seq![h->0] + t->0)
        } else {
            None
        }
    }
}

/// The lines of a tree payload: a trailing newline closes the last line
/// instead of opening an empty one.
pub open spec fn payload_lines(data: Seq<u8>) -> Seq<Seq<u8>> {
    let ls = crate::commits::split_lines(data);
    if ls.len() > 0 && ls.last().len() == 0 {
        ls.drop_last()
    } else {
        ls
    }
}

/// Peeling one line off a nonempty payload.
proof fn lemma_payload_lines_step(rem: Seq<u8>)
    requires
        rem.len() > 0,
    ensures
        ({
            let nl = crate::text::find_byte(rem, 10);
            if nl == -1 {
                payload_lines(rem) == seq![rem]
            } else {
                payload_lines(rem) == seq![rem.take(nl)] + payload_lines(rem.skip(nl + 1))
            }
        }),
{
    crate::text::lemma_find_byte_properties(rem, 10);
    let nl = crate::text::find_byte(rem, 10);
    if nl == -1 {
        assert(crate::commits::split_lines(rem) == seq![rem]);
        assert(payload_lines(rem) == seq![rem]);
    } else {
        let rest = rem.skip(nl + 1);
        let sr = crate::commits::split_lines(rest);
        let sl = crate::commits::split_lines(rem);
        assert(sl == seq![rem.take(nl)] + sr);
        assert(sr.len() >= 1);
        assert(sl.last() == sr.last());
        if sr.last().len() == 0 {
            assert(payload_lines(rem) =~= seq![rem.take(nl)] + payload_lines(rest)) by {
                assert(sl.drop_last() =~= seq![rem.take(nl)] + sr.drop_last());
            }
        } else {
            assert(payload_lines(rem) =~= seq![rem.take(nl)] + payload_lines(rest));
        }
    }
}

/// How a parsed entry list shows in `TreeEntry` values.
pub open spec fn entries_match(
    es: Seq<TreeEntry>,
    ts: Seq<(Seq<u8>, OgitObjectType, Seq<u8>, Seq<u8>)>,
) -> bool {
    es.len() == ts.len() && forall|k: int|
        0 <= k < es.len() ==> {
            &&& encode_utf8((#[trigger] es[k]).filemode@) == ts[k].0
            &&& es[k].variant == ts[k].1
            &&& encode_utf8(es[k].id@) == ts[k].2
            &&& encode_utf8(es[k].filename@) == ts[k].3
        }
}

/// Parses a tree payload into its entries, as `parse_entry_lines` over the
/// payload's lines describes; fails with `InvalidObject` exactly when that
/// parse fails.
pub fn parse_tree_payload(data: &[u8]) -> (r: Result<Vec<TreeEntry>, OgitError>)
    ensures
        r matches Ok(es) ==> parse_entry_lines(payload_lines(data@)) matches Some(ts)
            && entries_match(es@, ts),
        r is Err ==> r == Err::<Vec<TreeEntry>, OgitError>(OgitError::InvalidObject)
            && parse_entry_lines(payload_lines(data@)) is None,
{
    let r = parse_entries_from(data, 0);
    proof {
        assert(data@.skip(0) =~= data@);
    }
    r
}

/// What reading and parsing a stored tree owes when the stored object's
/// uncompressed content is `c`.
pub open spec fn parsed_tree_matches(c: Seq<u8>, r: Result<Vec<TreeEntry>, OgitError>) -> bool {
    match crate::objects::decode_object(c) {
        None => r == Err::<Vec<TreeEntry>, OgitError>(OgitError::InvalidObject),
        Some((v, p)) => {
            if v != OgitObjectType::Tree {
                r == Err::<Vec<TreeEntry>, OgitError>(
                    OgitError::ObjectTypeMismatch { expected: OgitObjectType::Tree, got: v },
                )
            } else {
                match parse_entry_lines(payload_lines(p)) {
                    None => r == Err::<Vec<TreeEntry>, OgitError>(OgitError::InvalidObject),
                    Some(ts) => r matches Ok(es) && entries_match(es@, ts),
                }
            }
        },
    }
}

/// The entries of the tree object stored under `tree_id`; no id means no
/// entries. Fails as retrieval or parsing fail.
pub fn parse_tree_data(store: &ObjectStore, tree_id: Option<&str>) -> (r: Result<
    Vec<TreeEntry>,
    OgitError,
>)
    ensures
        tree_id is None ==> (r matches Ok(es) && es@.len() == 0),
        tree_id matches Some(id) ==> {
            &&& (r == Err::<Vec<TreeEntry>, OgitError>(OgitError::NotFound)) <==> !store.objects()
                .contains_key(id@)
            &&& forall|c: Seq<u8>|
                store.objects().contains_key(id@) && store.objects()[id@] == zlib_of(c)
                    ==> parsed_tree_matches(c, r)
        },
{
    let id = match tree_id {
        Some(id) => id,
        None => {
            return Ok(Vec::new());
        },
    };
    let object = match store.get_object(id, Some(OgitObjectType::Tree)) {
        Ok(o) => o,
        Err(e) => {
            return Err(e);
        },
    };
    parse_tree_payload(object.data.as_slice())
}

fn parse_entries_from(data: &[u8], pos: usize) -> (r: Result<Vec<TreeEntry>, OgitError>)
    requires
        pos <= data@.len(),
    ensures
        r matches Ok(es) ==> parse_entry_lines(payload_lines(data@.skip(pos as int))) matches Some(
            ts,
        ) && entries_match(es@, ts),
        r is Err ==> r == Err::<Vec<TreeEntry>, OgitError>(OgitError::InvalidObject)
            && parse_entry_lines(payload_lines(data@.skip(pos as int))) is None,
    decreases data@.len() - pos,
{
    let n = data.len();
    if pos >= n {
        proof {
            assert(data@.skip(pos as int) =~= Seq::<u8>::empty());
            assert(crate::commits::split_lines(Seq::<u8>::empty()) == seq![Seq::<u8>::empty()]);
            assert(payload_lines(Seq::<u8>::empty()) =~= Seq::<Seq<u8>>::empty());
        }
        return Ok(Vec::new());
    }
    let ghost rem = data@.skip(pos as int);
    let tail = vstd::slice::slice_subrange(data, pos, n);
    proof {
        assert(tail@ =~= rem);
    }
    let nl = crate::text::find_byte_in(tail, 10);
    let (line_end, next): (usize, usize) = match nl {
        Some(k) => (pos + k, pos + k + 1),
        None => (n, n),
    };
    let line = vstd::slice::slice_subrange(data, pos, line_end);
    proof {
        lemma_payload_lines_step(rem);
        if nl is Some {
            let k = line_end - pos;
            assert(rem.take(k as int) =~= line@);
            assert(rem.skip(k + 1) =~= data@.skip(next as int));
            assert(payload_lines(rem) == seq![line@] + payload_lines(data@.skip(next as int)));
        } else {
            assert(rem =~= line@);
            assert(payload_lines(rem) == seq![line@]);
            assert(data@.skip(next as int) =~= Seq::<u8>::empty());
            assert(crate::commits::split_lines(Seq::<u8>::empty()) == seq![Seq::<u8>::empty()]);
            assert(payload_lines(Seq::<u8>::empty()) =~= Seq::<Seq<u8>>::empty());
            assert(payload_lines(rem) == seq![line@] + payload_lines(data@.skip(next as int)));
        }
        assert(payload_lines(rem).first() == line@);
        assert(payload_lines(rem).drop_first() =~= payload_lines(data@.skip(next as int)));
    }
    let entry = match parse_one_line(line) {
        Some(e) => e,
        None => {
            return Err(OgitError::InvalidObject);
        },
    };
    let rest = match parse_entries_from(data, next) {
        Ok(v) => v,
        Err(e) => {
            return Err(e);
        },
    };
    let mut out = rest;
    out.insert(0, entry);
    proof {
        let ls = payload_lines(rem);
        let h = spec_parse_entry(line@);
        let t = parse_entry_lines(payload_lines(data@.skip(next as int)));
        assert(parse_entry_lines(ls) == Some(seq![h->0] + t->0));
        let ts = seq![h->0] + t->0;
        assert forall|k: int| 0 <= k < out@.len() implies {
            &&& encode_utf8((#[trigger] out@[k]).filemode@) == ts[k].0
            &&& out@[k].variant == ts[k].1
            &&& encode_utf8(out@[k].id@) == ts[k].2
            &&& encode_utf8(out@[k].filename@) == ts[k].3
        } by {
            if k > 0 {
                assert(out@[k] == rest@[k - 1]);
                assert(ts[k] == (t->0)[k - 1]);
            }
        }
    }
    Ok(out)
}

/// Reads one line's tokens into a `TreeEntry`-shaped result.
fn parse_one_line(line: &[u8]) -> (r: Option<TreeEntry>)
    ensures
        r matches Some(e) ==> ({
            &&& spec_parse_entry(line@) matches Some(t)
            &&& vstd::utf8::valid_utf8(t.0) && vstd::utf8::valid_utf8(t.2)
                && vstd::utf8::valid_utf8(t.3)
            &&& encode_utf8(e.filemode@) == t.0
            &&& e.variant == t.1
            &&& encode_utf8(e.id@) == t.2
            &&& encode_utf8(e.filename@) == t.3
        }),
        r is None ==> !(spec_parse_entry(line@) matches Some(t) && vstd::utf8::valid_utf8(t.0)
            && vstd::utf8::valid_utf8(t.2) && vstd::utf8::valid_utf8(t.3)),
{
    let toks = crate::text::tokenize(line);
    if toks.len() < 4 {
        return None;
    }
    let (m0, m1) = toks[0];
    let (v0, v1) = toks[1];
    let (i0, i1) = toks[2];
    let (f0, f1) = toks[3];
    let variant = match parse_variant_token(vstd::slice::slice_subrange(line, v0, v1)) {
        Some(v) => v,
        None => {
            return None;
        },
    };
    let filemode = match crate::trusted::string_from_utf8(
        vstd::slice::slice_to_vec(vstd::slice::slice_subrange(line, m0, m1)),
    ) {
        Some(s) => s,
        None => {
            return None;
        },
    };
    let id = match crate::trusted::string_from_utf8(
        vstd::slice::slice_to_vec(vstd::slice::slice_subrange(line, i0, i1)),
    ) {
        Some(s) => s,
        None => {
            return None;
        },
    };
    let filename = match crate::trusted::string_from_utf8(
        vstd::slice::slice_to_vec(vstd::slice::slice_subrange(line, f0, f1)),
    ) {
        Some(s) => s,
        None => {
            return None;
        },
    };
    proof {
        let ts = crate::text::spec_tokens(line@);
        vstd::utf8::decode_utf8_encode_utf8(ts[0]);
        vstd::utf8::decode_utf8_encode_utf8(ts[2]);
        vstd::utf8::decode_utf8_encode_utf8(ts[3]);
    }
    Some(TreeEntry { filemode, filename, id, variant })
}

fn parse_variant_token(s: &[u8]) -> (r: Option<OgitObjectType>)
    ensures
        r == crate::objects::parse_variant(s@),
{
    let blob: [u8; 4] = [98, 108, 111, 98];
    let tree: [u8; 4] = [116, 114, 101, 101];
    let commit: [u8; 6] = [99, 111, 109, 109, 105, 116];
    proof {
        assert(blob@ =~= variant_bytes(OgitObjectType::Blob));
        assert(tree@ =~= variant_bytes(OgitObjectType::Tree));
        assert(commit@ =~= variant_bytes(OgitObjectType::Commit));
    }
    if crate::text::bytes_eq(s, blob.as_slice()) {
        Some(OgitObjectType::Blob)
    } else if crate::text::bytes_eq(s, tree.as_slice()) {
        Some(OgitObjectType::Tree)
    } else if crate::text::bytes_eq(s, commit.as_slice()) {
        Some(OgitObjectType::Commit)
    } else {
        None
    }
}


/// Ties the stored (compressed) bytes to an uncompressed view of the same
/// ids: what any store that only ever held compressor output satisfies.
pub open spec fn compressed_matches(
    c: Map<Seq<char>, Seq<u8>>,
    u: Map<Seq<char>, Seq<u8>>,
) -> bool {
    &&& forall|k: Seq<char>| c.contains_key(k) <==> u.contains_key(k)
    &&& forall|k: Seq<char>| c.contains_key(k) ==> c[k] == zlib_of(#[trigger] u[k])
}

/// Walking a stored tree over the uncompressed view: the flattened
/// `(filemode, id, path)` rows of every blob reachable from `id`, depth
/// first in line order. The fuel bounds reference depth; running out is
/// reported as a corrupt object.
pub open spec fn spec_get_tree(
    u: Map<Seq<char>, Seq<u8>>,
    id: Seq<char>,
    base: Seq<char>,
    fuel: nat,
) -> Result<Seq<(Seq<char>, Seq<char>, Seq<char>)>, OgitError>
    decreases fuel, 0int, 0int,
{
    if fuel == 0 {
        Err(OgitError::InvalidObject)
    } else if !u.contains_key(id) {
        Err(OgitError::NotFound)
    } else {
        match crate::objects::decode_object(u[id]) {
            None => Err(OgitError::InvalidObject),
            Some((v, p)) => {
                if v != OgitObjectType::Tree {
                    Err(OgitError::ObjectTypeMismatch { expected: OgitObjectType::Tree, got: v })
                } else {
                    match parse_entry_lines(payload_lines(p)) {
                        None => Err(OgitError::InvalidObject),
                        Some(ts) => walk_entries(u, ts, base, (fuel - 1) as nat, 0),
                    }
                }
            },
        }
    }
}

/// Walks parsed entries from index `i` on: blobs become rows, trees
/// recurse, a commit entry in a tree is a corrupt object.
pub open spec fn walk_entries(
    u: Map<Seq<char>, Seq<u8>>,
    ts: Seq<(Seq<u8>, OgitObjectType, Seq<u8>, Seq<u8>)>,
    base: Seq<char>,
    fuel: nat,
    i: int,
) -> Result<Seq<(Seq<char>, Seq<char>, Seq<char>)>, OgitError>
    decreases fuel, 1int, ts.len() - i,
{
    if i < 0 || i >= ts.len() {
        Ok(Seq::empty())
    } else {
        let t = ts[i];
        let p = child_path(base, vstd::utf8::decode_utf8(t.3));
        let head: Result<Seq<(Seq<char>, Seq<char>, Seq<char>)>, OgitError> = match t.1 {
            OgitObjectType::Blob => Ok(
                seq![(vstd::utf8::decode_utf8(t.0), vstd::utf8::decode_utf8(t.2), p)],
            ),
            OgitObjectType::Tree => spec_get_tree(u, vstd::utf8::decode_utf8(t.2), p, fuel),
            OgitObjectType::Commit => Err(OgitError::InvalidObject),
        };
        match head {
            Err(e) => Err(e),
            Ok(h) => match walk_entries(u, ts, base, fuel, i + 1) {
                Err(e) => Err(e),
                Ok(rest) => Ok(h + rest),
            },
        }
    }
}

/// How flattened rows show in `TreeEntry` values: every row a blob.
pub open spec fn rows_match(
    es: Seq<TreeEntry>,
    rows: Seq<(Seq<char>, Seq<char>, Seq<char>)>,
) -> bool {
    es.len() == rows.len() && forall|k: int|
        0 <= k < es.len() ==> {
            &&& (#[trigger] es[k]).filemode@ == rows[k].0
            &&& es[k].id@ == rows[k].1
            &&& es[k].filename@ == rows[k].2
            &&& es[k].variant == OgitObjectType::Blob
        }
}

/// How a result pairs with the walk's outcome.
pub open spec fn tree_result_matches(
    sr: Result<Seq<(Seq<char>, Seq<char>, Seq<char>)>, OgitError>,
    r: Result<Vec<TreeEntry>, OgitError>,
) -> bool {
    match sr {
        Ok(rows) => r matches Ok(es) && rows_match(es@, rows),
        Err(e) => r == Err::<Vec<TreeEntry>, OgitError>(e),
    }
}

/// Flattens the tree under `tree_id` into blob rows whose filenames carry
/// the full path below `base_path`. The result follows `spec_get_tree`
/// over any uncompressed view of the store.
pub fn get_tree(store: &ObjectStore, tree_id: &str, base_path: &String, fuel: usize) -> (r: Result<
    Vec<TreeEntry>,
    OgitError,
>)
    ensures
        forall|u: Map<Seq<char>, Seq<u8>>|
            compressed_matches(store.objects(), u) ==> tree_result_matches(
                spec_get_tree(u, tree_id@, base_path@, fuel as nat),
                r,
            ),
        r matches Ok(es) ==> forall|k: int|
            0 <= k < es@.len() ==> (#[trigger] es@[k]).variant == OgitObjectType::Blob,
    decreases fuel,
{
    if fuel == 0 {
        return Err(OgitError::InvalidObject);
    }
    let object = match store.get_object(tree_id, Some(OgitObjectType::Tree)) {
        Ok(o) => o,
        Err(e) => {
            proof {
                assert forall|u: Map<Seq<char>, Seq<u8>>|
                    compressed_matches(store.objects(), u) implies tree_result_matches(
                    spec_get_tree(u, tree_id@, base_path@, fuel as nat),
                    Err::<Vec<TreeEntry>, OgitError>(e),
                ) by {
                    if u.contains_key(tree_id@) {
                        assert(store.objects()[tree_id@] == zlib_of(u[tree_id@]));
                    }
                }
            }
            return Err(e);
        },
    };
    let parsed = match parse_tree_payload(object.data.as_slice()) {
        Ok(v) => v,
        Err(e) => {
            proof {
                assert forall|u: Map<Seq<char>, Seq<u8>>|
                    compressed_matches(store.objects(), u) implies tree_result_matches(
                    spec_get_tree(u, tree_id@, base_path@, fuel as nat),
                    Err::<Vec<TreeEntry>, OgitError>(e),
                ) by {
                    assert(store.objects()[tree_id@] == zlib_of(u[tree_id@]));
                }
            }
            return Err(e);
        },
    };
    let mut out: Vec<TreeEntry> = Vec::new();
    let n = parsed.len();
    let mut i: usize = 0;
    proof {
        assert forall|u: Map<Seq<char>, Seq<u8>>|
            compressed_matches(store.objects(), u) implies ({
            &&& decode_of(u, tree_id@) matches Some(ts2) && entries_match(parsed@, ts2)
            &&& spec_get_tree(u, tree_id@, base_path@, fuel as nat) == walk_from(
                u,
                decode_of(u, tree_id@)->0,
                base_path@,
                (fuel - 1) as nat,
                0,
                Seq::<TreeEntry>::empty(),
            )
        }) by {
            assert(store.objects()[tree_id@] == zlib_of(u[tree_id@]));
            let ts2 = decode_of(u, tree_id@)->0;
            match walk_entries(u, ts2, base_path@, (fuel - 1) as nat, 0) {
                Err(e) => {},
                Ok(rest) => {
                    assert(Seq::<TreeEntry>::empty().map_values(
                        |e: TreeEntry| (e.filemode@, e.id@, e.filename@),
                    ) + rest =~= rest);
                },
            }
        }
    }
    while i < n
        invariant
            i <= n,
            n == parsed@.len(),
            fuel >= 1,
            forall|k: int|
                0 <= k < out@.len() ==> (#[trigger] out@[k]).variant == OgitObjectType::Blob,
            forall|u: Map<Seq<char>, Seq<u8>>|
                compressed_matches(store.objects(), u) ==> ({
                    &&& decode_of(u, tree_id@) matches Some(ts2) && entries_match(parsed@, ts2)
                    &&& spec_get_tree(u, tree_id@, base_path@, fuel as nat) == walk_from(
                        u,
                        decode_of(u, tree_id@)->0,
                        base_path@,
                        (fuel - 1) as nat,
                        i as int,
                        out@,
                    )
                }),
        decreases n - i,
    {
        let name_str = clone_string(&parsed[i].filename);
        let mut p = base_path.clone();
        push_char(&mut p, '/');
        p.append(name_str.as_str());
        proof {
            assert(p@ =~= child_path(base_path@, parsed@[i as int].filename@));
        }
        let ghost pre_out = out@;
        let variant = parsed[i].variant;
        match variant {
            OgitObjectType::Blob => {
                let e2 = TreeEntry {
                    filemode: clone_string(&parsed[i].filemode),
                    filename: p,
                    id: clone_string(&parsed[i].id),
                    variant: OgitObjectType::Blob,
                };
                out.push(e2);
                proof {
                    assert forall|u: Map<Seq<char>, Seq<u8>>|
                        compressed_matches(store.objects(), u) implies ({
                        &&& decode_of(u, tree_id@) matches Some(ts2) && entries_match(
                            parsed@,
                            ts2,
                        )
                        &&& spec_get_tree(u, tree_id@, base_path@, fuel as nat) == walk_from(
                            u,
                            decode_of(u, tree_id@)->0,
                            base_path@,
                            (fuel - 1) as nat,
                            i + 1,
                            out@,
                        )
                    }) by {
                        let ts2 = decode_of(u, tree_id@)->0;
                        let f1 = (fuel - 1) as nat;
                        let t = ts2[i as int];
                        vstd::utf8::encode_utf8_decode_utf8(parsed@[i as int].filemode@);
                        vstd::utf8::encode_utf8_decode_utf8(parsed@[i as int].id@);
                        vstd::utf8::encode_utf8_decode_utf8(parsed@[i as int].filename@);
                        let row = (
                            vstd::utf8::decode_utf8(t.0),
                            vstd::utf8::decode_utf8(t.2),
                            child_path(base_path@, vstd::utf8::decode_utf8(t.3)),
                        );
                        assert(walk_entries(u, ts2, base_path@, f1, i as int) == (match
                        walk_entries(u, ts2, base_path@, f1, i + 1) {
                            Err(e) => Err::<Seq<(Seq<char>, Seq<char>, Seq<char>)>, OgitError>(e),
                            Ok(rest) => Ok(seq![row] + rest),
                        }));
                        match walk_entries(u, ts2, base_path@, f1, i + 1) {
                            Err(e) => {},
                            Ok(rest) => {
                                assert(out@.map_values(
                                    |e: TreeEntry| (e.filemode@, e.id@, e.filename@),
                                ) + rest =~= pre_out.map_values(
                                    |e: TreeEntry| (e.filemode@, e.id@, e.filename@),
                                ) + (seq![row] + rest));
                            },
                        }
                    }
                }
            },
            OgitObjectType::Tree => {
                let sub = match get_tree(store, parsed[i].id.as_str(), &p, fuel - 1) {
                    Ok(v) => v,
                    Err(e) => {
                        proof {
                            assert forall|u: Map<Seq<char>, Seq<u8>>|
                                compressed_matches(store.objects(), u) implies tree_result_matches(
                                spec_get_tree(u, tree_id@, base_path@, fuel as nat),
                                Err::<Vec<TreeEntry>, OgitError>(e),
                            ) by {
                                let ts2 = decode_of(u, tree_id@)->0;
                                let f1 = (fuel - 1) as nat;
                                let t = ts2[i as int];
                                vstd::utf8::encode_utf8_decode_utf8(parsed@[i as int].id@);
                                vstd::utf8::encode_utf8_decode_utf8(parsed@[i as int].filename@);
                                assert(spec_get_tree(u, vstd::utf8::decode_utf8(t.2), child_path(
                                    base_path@,
                                    vstd::utf8::decode_utf8(t.3),
                                ), f1) == Err::<Seq<(Seq<char>, Seq<char>, Seq<char>)>, OgitError>(
                                    e,
                                ));
                            }
                        }
                        return Err(e);
                    },
                };
                let ghost subv = sub@;
                let mut subm = sub;
                out.append(&mut subm);
                proof {
                    assert forall|u: Map<Seq<char>, Seq<u8>>|
                        compressed_matches(store.objects(), u) implies ({
                        &&& decode_of(u, tree_id@) matches Some(ts2) && entries_match(
                            parsed@,
                            ts2,
                        )
                        &&& spec_get_tree(u, tree_id@, base_path@, fuel as nat) == walk_from(
                            u,
                            decode_of(u, tree_id@)->0,
                            base_path@,
                            (fuel - 1) as nat,
                            i + 1,
                            out@,
                        )
                    }) by {
                        let ts2 = decode_of(u, tree_id@)->0;
                        let f1 = (fuel - 1) as nat;
                        let t = ts2[i as int];
                        vstd::utf8::encode_utf8_decode_utf8(parsed@[i as int].id@);
                        vstd::utf8::encode_utf8_decode_utf8(parsed@[i as int].filename@);
                        let sr = spec_get_tree(u, vstd::utf8::decode_utf8(t.2), child_path(
                            base_path@,
                            vstd::utf8::decode_utf8(t.3),
                        ), f1);
                        assert(sr matches Ok(rows) && rows_match(subv, rows));
                        match sr {
                            Err(e) => {},
                            Ok(rows) => {
                                assert(subv.map_values(
                                    |e: TreeEntry| (e.filemode@, e.id@, e.filename@),
                                ) =~= rows);
                                match walk_entries(u, ts2, base_path@, f1, i + 1) {
                                    Err(e) => {},
                                    Ok(rest) => {
                                        assert(out@ =~= pre_out + subv);
                                        assert(out@.map_values(
                                            |e: TreeEntry| (e.filemode@, e.id@, e.filename@),
                                        ) + rest =~= pre_out.map_values(
                                            |e: TreeEntry| (e.filemode@, e.id@, e.filename@),
                                        ) + (rows + rest));
                                    },
                                }
                            },
                        }
                    }
                }
            },
            OgitObjectType::Commit => {
                proof {
                    assert forall|u: Map<Seq<char>, Seq<u8>>|
                        compressed_matches(store.objects(), u) implies tree_result_matches(
                        spec_get_tree(u, tree_id@, base_path@, fuel as nat),
                        Err::<Vec<TreeEntry>, OgitError>(OgitError::InvalidObject),
                    ) by {
                        let ts2 = decode_of(u, tree_id@)->0;
                        assert(ts2[i as int].1 == OgitObjectType::Commit);
                    }
                }
                return Err(OgitError::InvalidObject);
            },
        }
        i = i + 1;
    }
    proof {
        assert forall|u: Map<Seq<char>, Seq<u8>>|
            compressed_matches(store.objects(), u) implies tree_result_matches(
            spec_get_tree(u, tree_id@, base_path@, fuel as nat),
            Ok::<Vec<TreeEntry>, OgitError>(out),
        ) by {
            let ts2 = decode_of(u, tree_id@)->0;
            assert(walk_entries(u, ts2, base_path@, (fuel - 1) as nat, n as int) == Ok::<
                Seq<(Seq<char>, Seq<char>, Seq<char>)>,
                OgitError,
            >(Seq::empty()));
            assert(out@.map_values(|e: TreeEntry| (e.filemode@, e.id@, e.filename@)) + Seq::<
                (Seq<char>, Seq<char>, Seq<char>),
            >::empty() =~= out@.map_values(|e: TreeEntry| (e.filemode@, e.id@, e.filename@)));
            let rows = out@.map_values(|e: TreeEntry| (e.filemode@, e.id@, e.filename@));
            assert(rows_match(out@, rows));
        }
    }
    Ok(out)
}

/// The parsed entries of the tree object stored under `id` in the
/// uncompressed view.
pub open spec fn decode_of(u: Map<Seq<char>, Seq<u8>>, id: Seq<char>) -> Option<
    Seq<(Seq<u8>, OgitObjectType, Seq<u8>, Seq<u8>)>,
> {
    match crate::objects::decode_object(u[id]) {
        None => None,
        Some((v, p)) => parse_entry_lines(payload_lines(p)),
    }
}

/// The walk's outcome from entry `i` on, composed with rows already
/// flattened.
pub open spec fn walk_from(
    u: Map<Seq<char>, Seq<u8>>,
    ts: Seq<(Seq<u8>, OgitObjectType, Seq<u8>, Seq<u8>)>,
    base: Seq<char>,
    fuel: nat,
    i: int,
    done: Seq<TreeEntry>,
) -> Result<Seq<(Seq<char>, Seq<char>, Seq<char>)>, OgitError> {
    match walk_entries(u, ts, base, fuel, i) {
        Err(e) => Err(e),
        Ok(rest) => Ok(done.map_values(|e: TreeEntry| (e.filemode@, e.id@, e.filename@)) + rest),
    }
}

fn clone_string(s: &String) -> (r: String)
    ensures
        r@ == s@,
{
    s.clone()
}


/// A file to put back on restore: its path, its filemode text, its bytes.
#[derive(Debug)]
pub struct RestoreFile {
    pub path: String,
    pub filemode: String,
    pub data: Vec<u8>,
}

/// Fetching each flattened row's blob: the restored `(path, mode, data)`
/// rows, or the first failure.
pub open spec fn restore_rows(
    u: Map<Seq<char>, Seq<u8>>,
    rows: Seq<(Seq<char>, Seq<char>, Seq<char>)>,
    i: int,
) -> Result<Seq<(Seq<char>, Seq<char>, Seq<u8>)>, OgitError>
    decreases rows.len() - i,
{
    if i < 0 || i >= rows.len() {
        Ok(Seq::empty())
    } else {
        let (mode, idc, path) = rows[i];
        if !u.contains_key(idc) {
            Err(OgitError::NotFound)
        } else {
            match crate::objects::decode_object(u[idc]) {
                None => Err(OgitError::InvalidObject),
                Some((v, p)) => {
                    if v != OgitObjectType::Blob {
                        Err(
                            OgitError::ObjectTypeMismatch {
                                expected: OgitObjectType::Blob,
                                got: v,
                            },
                        )
                    } else {
                        match restore_rows(u, rows, i + 1) {
                            Err(e) => Err(e),
                            Ok(rest) => Ok(seq![(path, mode, p)] + rest),
                        }
                    }
                },
            }
        }
    }
}

/// What restoring a whole tree yields over the uncompressed view: flatten,
/// then fetch every blob.
pub open spec fn spec_read_tree(u: Map<Seq<char>, Seq<u8>>, id: Seq<char>, fuel: nat) -> Result<
    Seq<(Seq<char>, Seq<char>, Seq<u8>)>,
    OgitError,
> {
    match spec_get_tree(u, id, seq!['.'], fuel) {
        Err(e) => Err(e),
        Ok(rows) => restore_rows(u, rows, 0),
    }
}

/// How restored files show in `RestoreFile` values.
pub open spec fn files_match(
    fs: Seq<RestoreFile>,
    rs: Seq<(Seq<char>, Seq<char>, Seq<u8>)>,
) -> bool {
    fs.len() == rs.len() && forall|k: int|
        0 <= k < fs.len() ==> {
            &&& (#[trigger] fs[k]).path@ == rs[k].0
            &&& fs[k].filemode@ == rs[k].1
            &&& fs[k].data@ == rs[k].2
        }
}

/// The reference depth a walk of this store can need: one more than the
/// number of stored entries, since a well-formed chain of references never
/// repeats an object.
pub open spec fn store_fuel(s: ObjectStore) -> nat {
    if s.entries@.len() == usize::MAX as nat {
        s.entries@.len() as nat
    } else {
        (s.entries@.len() + 1) as nat
    }
}

/// Flattens the tree under `tree_id` (paths below `"."`) and fetches each
/// blob's bytes, as `spec_read_tree` over any uncompressed view of the
/// store describes. Writing the files back out is the callers' affair.
pub fn read_tree(store: &ObjectStore, tree_id: &str) -> (r: Result<Vec<RestoreFile>, OgitError>)
    ensures
        forall|u: Map<Seq<char>, Seq<u8>>|
            compressed_matches(store.objects(), u) ==> match spec_read_tree(
                u,
                tree_id@,
                store_fuel(*store),
            ) {
                Ok(rs) => r matches Ok(fs) && files_match(fs@, rs),
                Err(e) => r == Err::<Vec<RestoreFile>, OgitError>(e),
            },
{
    let mut fuel: usize = store.entries.len();
    if fuel != usize::MAX {
        fuel = fuel + 1;
    }
    let mut dot = String::new();
    push_char(&mut dot, '.');
    proof {
        assert(dot@ =~= seq!['.']);
    }
    let entries = match get_tree(store, tree_id, &dot, fuel) {
        Ok(v) => v,
        Err(e) => {
            return Err(e);
        },
    };
    let mut out: Vec<RestoreFile> = Vec::new();
    let n = entries.len();
    let mut i: usize = 0;
    proof {
        assert forall|u: Map<Seq<char>, Seq<u8>>|
            compressed_matches(store.objects(), u) implies ({
            &&& spec_get_tree(u, tree_id@, seq!['.'], store_fuel(*store)) matches Ok(rows)
                && rows_match(entries@, rows)
            &&& spec_read_tree(u, tree_id@, store_fuel(*store)) == compose_restore(
                u,
                spec_get_tree(u, tree_id@, seq!['.'], store_fuel(*store))->Ok_0,
                0,
                out@,
            )
        }) by {
            let rows = spec_get_tree(u, tree_id@, seq!['.'], store_fuel(*store))->Ok_0;
            match restore_rows(u, rows, 0) {
                Err(e) => {},
                Ok(rest) => {
                    assert(out@.map_values(
                        |f: RestoreFile| (f.path@, f.filemode@, f.data@),
                    ) + rest =~= rest);
                },
            }
        }
    }
    while i < n
        invariant
            i <= n,
            n == entries@.len(),
            out@.len() == i,
            forall|k: int|
                0 <= k < entries@.len() ==> (#[trigger] entries@[k]).variant
                    == OgitObjectType::Blob,
            forall|u: Map<Seq<char>, Seq<u8>>|
                compressed_matches(store.objects(), u) ==> ({
                    &&& spec_get_tree(u, tree_id@, seq!['.'], store_fuel(*store)) matches Ok(rows)
                        && rows_match(entries@, rows)
                    &&& spec_read_tree(u, tree_id@, store_fuel(*store)) == compose_restore(
                        u,
                        spec_get_tree(u, tree_id@, seq!['.'], store_fuel(*store))->Ok_0,
                        i as int,
                        out@,
                    )
                }),
        decreases n - i,
    {
        let object = match store.get_object(entries[i].id.as_str(), Some(OgitObjectType::Blob)) {
            Ok(o) => o,
            Err(e) => {
                proof {
                    assert forall|u: Map<Seq<char>, Seq<u8>>|
                        compressed_matches(store.objects(), u) implies match spec_read_tree(
                        u,
                        tree_id@,
                        store_fuel(*store),
                    ) {
                        Ok(rs) => Err::<Vec<RestoreFile>, OgitError>(e) matches Ok(fs)
                            && files_match(fs@, rs),
                        Err(e2) => Err::<Vec<RestoreFile>, OgitError>(e) == Err::<
                            Vec<RestoreFile>,
                            OgitError,
                        >(e2),
                    } by {
                        let rows = spec_get_tree(u, tree_id@, seq!['.'], store_fuel(*store))->Ok_0;
                        let idc = rows[i as int].1;
                        assert(idc == entries@[i as int].id@);
                        if u.contains_key(idc) {
                            assert(store.objects()[idc] == zlib_of(u[idc]));
                        }
                    }
                }
                return Err(e);
            },
        };
        let ghost pre_out = out@;
        let ghost odata = object.data@;
        let ghost oval = object;
        let f = RestoreFile {
            path: clone_string(&entries[i].filename),
            filemode: clone_string(&entries[i].filemode),
            data: object.data,
        };
        proof {
            assert(f.data@ == odata);
        }
        out.push(f);
        proof {
            assert forall|u: Map<Seq<char>, Seq<u8>>|
                compressed_matches(store.objects(), u) implies ({
                &&& spec_get_tree(u, tree_id@, seq!['.'], store_fuel(*store)) matches Ok(rows)
                    && rows_match(entries@, rows)
                &&& spec_read_tree(u, tree_id@, store_fuel(*store)) == compose_restore(
                    u,
                    spec_get_tree(u, tree_id@, seq!['.'], store_fuel(*store))->Ok_0,
                    i + 1,
                    out@,
                )
            }) by {
                let rows = spec_get_tree(u, tree_id@, seq!['.'], store_fuel(*store))->Ok_0;
                let idc = rows[i as int].1;
                assert(idc == entries@[i as int].id@);
                assert(store.objects().contains_key(idc));
                assert(u.contains_key(idc));
                assert(store.objects()[idc] == zlib_of(u[idc]));
                assert(crate::store::matches_stored(
                    u[idc],
                    Some(OgitObjectType::Blob),
                    Ok::<OgitObject, OgitError>(oval),
                ));
                match restore_rows(u, rows, i + 1) {
                    Err(e) => {},
                    Ok(rest) => {
                        assert(out@[i as int].data@ == odata);
                        assert(crate::objects::decode_object(u[idc]) matches Some(dp)
                            && dp.1 == out@[i as int].data@);
                        assert(out@.map_values(
                            |f2: RestoreFile| (f2.path@, f2.filemode@, f2.data@),
                        ) + rest =~= pre_out.map_values(
                            |f2: RestoreFile| (f2.path@, f2.filemode@, f2.data@),
                        ) + (seq![
                            (rows[i as int].2, rows[i as int].0, out@[i as int].data@),
                        ] + rest));
                    },
                }
            }
        }
        i = i + 1;
    }
    proof {
        assert forall|u: Map<Seq<char>, Seq<u8>>|
            compressed_matches(store.objects(), u) implies match spec_read_tree(
            u,
            tree_id@,
            store_fuel(*store),
        ) {
            Ok(rs) => Ok::<Vec<RestoreFile>, OgitError>(out) matches Ok(fs) && files_match(
                fs@,
                rs,
            ),
            Err(e) => Ok::<Vec<RestoreFile>, OgitError>(out) == Err::<
                Vec<RestoreFile>,
                OgitError,
            >(e),
        } by {
            let rows = spec_get_tree(u, tree_id@, seq!['.'], store_fuel(*store))->Ok_0;
            assert(restore_rows(u, rows, n as int) == Ok::<
                Seq<(Seq<char>, Seq<char>, Seq<u8>)>,
                OgitError,
            >(Seq::empty()));
            assert(out@.map_values(|f2: RestoreFile| (f2.path@, f2.filemode@, f2.data@)) + Seq::<
                (Seq<char>, Seq<char>, Seq<u8>),
            >::empty() =~= out@.map_values(|f2: RestoreFile| (f2.path@, f2.filemode@, f2.data@)));
            let rs = out@.map_values(|f2: RestoreFile| (f2.path@, f2.filemode@, f2.data@));
            assert(files_match(out@, rs));
        }
    }
    Ok(out)
}

/// The restore outcome from row `i` on, composed with files already
/// fetched.
pub open spec fn compose_restore(
    u: Map<Seq<char>, Seq<u8>>,
    rows: Seq<(Seq<char>, Seq<char>, Seq<char>)>,
    i: int,
    done: Seq<RestoreFile>,
) -> Result<Seq<(Seq<char>, Seq<char>, Seq<u8>)>, OgitError> {
    match restore_rows(u, rows, i) {
        Err(e) => Err(e),
        Ok(rest) => Ok(
            done.map_values(|f: RestoreFile| (f.path@, f.filemode@, f.data@)) + rest,
        ),
    }
}


/// Two entries with identical content: same mode and bytes for files,
/// entrywise identical directories.
pub open spec fn entries_alike(a: FsEntry, b: FsEntry) -> bool
    decreases a, 0int, 0int,
{
    match (a, b) {
        (FsEntry::File { mode: m1, data: d1 }, FsEntry::File { mode: m2, data: d2 }) => m1 == m2
            && d1@ == d2@,
        (FsEntry::Dir(x), FsEntry::Dir(y)) => dirs_alike(x, y),
        _ => false,
    }
}

/// Two directories with identical content in identical order.
pub open spec fn dirs_alike(a: FsDir, b: FsDir) -> bool
    decreases a, 1int, 0int,
{
    a.entries@.len() == b.entries@.len() && forall|i: int|
        0 <= i < a.entries@.len() ==> (#[trigger] a.entries@[i]).0@ == b.entries@[i].0@
            && entries_alike(a.entries@[i].1, b.entries@[i].1)
}

/// Identical content walked in the same order yields the same tree
/// payload, and so the same tree id.
pub proof fn lemma_alike_same_id(a: FsDir, b: FsDir, ignores: Seq<Seq<char>>, base: Seq<char>)
    requires
        dirs_alike(a, b),
    ensures
        dir_payload(a, ignores, base) == dir_payload(b, ignores, base),
        dir_id(a, ignores, base) == dir_id(b, ignores, base),
{
    lemma_alike_payload_prefix(a, b, ignores, base, a.entries@.len() as int);
}

proof fn lemma_alike_entry(a: FsEntry, b: FsEntry, ignores: Seq<Seq<char>>, path: Seq<char>)
    requires
        entries_alike(a, b),
    ensures
        entry_payload(a, ignores, path) == entry_payload(b, ignores, path),
        entry_id(a, ignores, path) == entry_id(b, ignores, path),
        entry_variant(a) == entry_variant(b),
        entry_mode_chars(a) == entry_mode_chars(b),
    decreases a, 0int, 0int,
{
    match (a, b) {
        (FsEntry::File { mode: m1, data: d1 }, FsEntry::File { mode: m2, data: d2 }) => {},
        (FsEntry::Dir(x), FsEntry::Dir(y)) => {
            lemma_alike_payload_prefix(x, y, ignores, path, x.entries@.len() as int);
        },
        _ => {},
    }
}

proof fn lemma_alike_payload_prefix(
    a: FsDir,
    b: FsDir,
    ignores: Seq<Seq<char>>,
    base: Seq<char>,
    n: int,
)
    requires
        dirs_alike(a, b),
        n <= a.entries@.len(),
    ensures
        dir_payload_prefix(a, ignores, base, n) == dir_payload_prefix(b, ignores, base, n),
    decreases a, 1int, n,
{
    if 0 < n <= a.entries@.len() {
        lemma_alike_payload_prefix(a, b, ignores, base, n - 1);
        assert(a.entries@[n - 1].0@ == b.entries@[n - 1].0@);
        assert(entries_alike(a.entries@[n - 1].1, b.entries@[n - 1].1));
        lemma_alike_entry(
            a.entries@[n - 1].1,
            b.entries@[n - 1].1,
            ignores,
            child_path(base, a.entries@[n - 1].0@),
        );
    }
}


/// A field that survives the line format: nonempty bytes without
/// whitespace (a newline is whitespace).
pub open spec fn field_wf(s: Seq<char>) -> bool {
    crate::text::token_wf(encode_utf8(s))
}

proof fn lemma_build_lines_cons(es: Seq<TreeEntry>)
    requires
        es.len() > 0,
    ensures
        build_lines(es) == entry_line_of(es.first()) + build_lines(es.drop_first()),
    decreases es.len(),
{
    if es.len() == 1 {
        assert(es.drop_last() =~= Seq::<TreeEntry>::empty());
        assert(es.drop_first() =~= Seq::<TreeEntry>::empty());
        assert(build_lines(Seq::<TreeEntry>::empty()) == Seq::<u8>::empty());
        assert(es.last() == es.first());
        assert(build_lines(es) =~= entry_line_of(es.first()) + build_lines(es.drop_first()));
    } else {
        let dl = es.drop_last();
        lemma_build_lines_cons(dl);
        assert(dl.first() == es.first());
        assert(es.drop_first().drop_last() =~= dl.drop_first());
        assert(es.drop_first().last() == es.last());
        assert(es.drop_first().len() > 0);
        assert(build_lines(es.drop_first()) == build_lines(es.drop_first().drop_last())
            + entry_line_of(es.drop_first().last()));
        assert(build_lines(es) =~= entry_line_of(es.first()) + build_lines(es.drop_first()));
    }
}

/// Reading tree text back undoes writing it: for entries whose fields are
/// nonempty and free of whitespace, parsing the built payload yields the
/// same entries.
#[verifier::rlimit(100)]
pub proof fn lemma_tree_codec_round_trip(es: Seq<TreeEntry>)
    requires
        forall|k: int|
            0 <= k < es.len() ==> field_wf((#[trigger] es[k]).filemode@) && field_wf(es[k].id@)
                && field_wf(es[k].filename@),
    ensures
        parse_entry_lines(payload_lines(build_lines(es))) matches Some(ts) && entries_match(
            es,
            ts,
        ),
    decreases es.len(),
{
    if es.len() == 0 {
        assert(build_lines(es) =~= Seq::<u8>::empty());
        assert(crate::commits::split_lines(Seq::<u8>::empty()) == seq![Seq::<u8>::empty()]);
        assert(payload_lines(Seq::<u8>::empty()) =~= Seq::<Seq<u8>>::empty());
        let ts = parse_entry_lines(payload_lines(build_lines(es)))->0;
        assert(entries_match(es, ts));
    } else {
        let e = es.first();
        assert(es[0] == e);
        let wm = encode_utf8(e.filemode@);
        let wi = encode_utf8(e.id@);
        let wn = encode_utf8(e.filename@);
        let vb = variant_bytes(e.variant);
        let body = wm + seq![32u8] + vb + seq![32u8] + wi + seq![32u8] + wn;
        assert(entry_line_of(e) =~= body + seq![10u8]);
        lemma_build_lines_cons(es);
        let rest = build_lines(es.drop_first());
        let whole = build_lines(es);
        assert(whole =~= body + seq![10u8] + rest);
        assert(crate::text::token_wf(vb)) by {
            assert forall|i: int| 0 <= i < vb.len() implies !crate::text::is_ws(
                #[trigger] vb[i],
            ) by {}
        }
        assert forall|j: int| 0 <= j < body.len() implies body[j] != 10 by {
            if j < wm.len() {
                assert(body[j] == wm[j]);
                assert(!crate::text::is_ws(wm[j]));
            } else if j == wm.len() {
                assert(body[j] == 32);
            } else if j < wm.len() + 1 + vb.len() {
                assert(body[j] == vb[j - wm.len() - 1]);
            } else if j == wm.len() + 1 + vb.len() {
                assert(body[j] == 32);
            } else if j < wm.len() + 1 + vb.len() + 1 + wi.len() {
                assert(body[j] == wi[j - wm.len() - 1 - vb.len() - 1]);
                assert(!crate::text::is_ws(wi[j - wm.len() - 1 - vb.len() - 1]));
            } else if j == wm.len() + 1 + vb.len() + 1 + wi.len() {
                assert(body[j] == 32);
            } else {
                assert(body[j] == wn[j - wm.len() - 1 - vb.len() - 1 - wi.len() - 1]);
                assert(!crate::text::is_ws(wn[j - wm.len() - 1 - vb.len() - 1 - wi.len() - 1]));
            }
        }
        assert(whole[body.len() as int] == 10);
        assert forall|l: int| 0 <= l < body.len() implies whole[l] != 10 by {
            assert(whole[l] == body[l]);
        }
        crate::text::lemma_find_byte_is(whole, 10, body.len() as int);
        assert(whole.len() > 0);
        lemma_payload_lines_step(whole);
        assert(whole.take(body.len() as int) =~= body);
        assert(whole.skip(body.len() as int + 1) =~= rest);
        let pl = payload_lines(whole);
        assert(pl == seq![body] + payload_lines(rest));
        assert(pl.first() == body);
        assert(pl.drop_first() =~= payload_lines(rest));
        // The first line's tokens are exactly the four fields.
        assert(body =~= wm + seq![32u8] + (vb + seq![32u8] + (wi + seq![32u8] + wn)));
        crate::commits::lemma_tokens_sep(wm, vb + seq![32u8] + (wi + seq![32u8] + wn));
        crate::commits::lemma_tokens_sep(vb, wi + seq![32u8] + wn);
        crate::commits::lemma_tokens_sep(wi, wn);
        crate::commits::lemma_tokens_single(wm);
        crate::commits::lemma_tokens_single(vb);
        crate::commits::lemma_tokens_single(wi);
        crate::commits::lemma_tokens_single(wn);
        let toks = crate::text::spec_tokens(body);
        assert(toks =~= seq![wm] + (seq![vb] + (seq![wi] + seq![wn])));
        assert(toks.len() == 4);
        assert(toks[0] == wm && toks[1] == vb && toks[2] == wi && toks[3] == wn);
        assert(crate::objects::parse_variant(vb) == Some(e.variant));
        let h = spec_parse_entry(body);
        assert(h == Some((wm, e.variant, wi, wn)));
        vstd::utf8::encode_utf8_valid_utf8(e.filemode@);
        vstd::utf8::encode_utf8_valid_utf8(e.id@);
        vstd::utf8::encode_utf8_valid_utf8(e.filename@);
        // The remaining lines by induction.
        assert forall|k: int| 0 <= k < es.drop_first().len() implies field_wf(
            (#[trigger] es.drop_first()[k]).filemode@,
        ) && field_wf(es.drop_first()[k].id@) && field_wf(es.drop_first()[k].filename@) by {
            assert(es.drop_first()[k] == es[k + 1]);
        }
        lemma_tree_codec_round_trip(es.drop_first());
        let tr = parse_entry_lines(payload_lines(rest))->0;
        assert(parse_entry_lines(pl) == Some(seq![h->0] + tr));
        let ts = seq![h->0] + tr;
        assert(entries_match(es, ts)) by {
            assert forall|k: int| 0 <= k < es.len() implies {
                &&& encode_utf8((#[trigger] es[k]).filemode@) == ts[k].0
                &&& es[k].variant == ts[k].1
                &&& encode_utf8(es[k].id@) == ts[k].2
                &&& encode_utf8(es[k].filename@) == ts[k].3
            } by {
                if k == 0 {
                    assert(ts[0] == h->0);
                } else {
                    assert(ts[k] == tr[k - 1]);
                    assert(es[k] == es.drop_first()[k - 1]);
                }
            }
        }
    }
}


/// Every (id, uncompressed content) pair a snapshot writes, children
/// before parents, in walk order.
pub open spec fn entry_objects_plain(e: FsEntry, ignores: Seq<Seq<char>>, path: Seq<char>) -> Seq<
    (Seq<char>, Seq<u8>),
>
    decreases e, 0int, 0int,
{
    match e {
        FsEntry::File { data, .. } => seq![
            (id_chars(OgitObjectType::Blob, data@), encode_bytes(OgitObjectType::Blob, data@)),
        ],
        FsEntry::Dir(d) => dir_objects_plain_prefix(d, ignores, path, d.entries@.len() as int)
            + seq![
            (
                dir_id(d, ignores, path),
                encode_bytes(OgitObjectType::Tree, dir_payload(d, ignores, path)),
            ),
        ],
    }
}

pub open spec fn dir_objects_plain_prefix(
    d: FsDir,
    ignores: Seq<Seq<char>>,
    base: Seq<char>,
    n: int,
) -> Seq<(Seq<char>, Seq<u8>)>
    decreases d, 0int, n,
{
    if n <= 0 || n > d.entries@.len() {
        Seq::empty()
    } else {
        let name = d.entries@[n - 1].0@;
        let e = d.entries@[n - 1].1;
        let p = child_path(base, name);
        dir_objects_plain_prefix(d, ignores, base, n - 1) + (if spec_ignored(p, ignores) {
            Seq::<(Seq<char>, Seq<u8>)>::empty()
        } else {
            entry_objects_plain(e, ignores, p)
        })
    }
}

/// As `dir_objects`, before compression.
pub open spec fn dir_objects_plain(d: FsDir, ignores: Seq<Seq<char>>, base: Seq<char>) -> Seq<
    (Seq<char>, Seq<u8>),
> {
    dir_objects_plain_prefix(d, ignores, base, d.entries@.len() as int) + seq![
        (
            dir_id(d, ignores, base),
            encode_bytes(OgitObjectType::Tree, dir_payload(d, ignores, base)),
        ),
    ]
}

/// The stored pairs are the plain pairs, compressed.
pub open spec fn zip_zlib(
    objs: Seq<(Seq<char>, Seq<u8>)>,
    plain: Seq<(Seq<char>, Seq<u8>)>,
) -> bool {
    objs.len() == plain.len() && forall|i: int|
        0 <= i < objs.len() ==> (#[trigger] objs[i]).0 == plain[i].0 && objs[i].1 == zlib_of(
            plain[i].1,
        )
}

proof fn lemma_zip_zlib_concat(
    a1: Seq<(Seq<char>, Seq<u8>)>,
    a2: Seq<(Seq<char>, Seq<u8>)>,
    b1: Seq<(Seq<char>, Seq<u8>)>,
    b2: Seq<(Seq<char>, Seq<u8>)>,
)
    requires
        zip_zlib(a1, a2),
        zip_zlib(b1, b2),
    ensures
        zip_zlib(a1 + b1, a2 + b2),
{
    assert forall|i: int| 0 <= i < (a1 + b1).len() implies (#[trigger] (a1 + b1)[i]).0 == (a2
        + b2)[i].0 && (a1 + b1)[i].1 == zlib_of((a2 + b2)[i].1) by {
        if i < a1.len() {
            assert((a1 + b1)[i] == a1[i] && (a2 + b2)[i] == a2[i]);
        } else {
            assert((a1 + b1)[i] == b1[i - a1.len()] && (a2 + b2)[i] == b2[i - a1.len()]);
        }
    }
}

/// What the store receives is the compression of the plain objects,
/// pair by pair.
pub proof fn lemma_objects_zip(e: FsEntry, ignores: Seq<Seq<char>>, path: Seq<char>)
    ensures
        zip_zlib(entry_objects(e, ignores, path), entry_objects_plain(e, ignores, path)),
    decreases e, 0int, 0int,
{
    match e {
        FsEntry::File { .. } => {},
        FsEntry::Dir(d) => {
            lemma_objects_zip_prefix(d, ignores, path, d.entries@.len() as int);
            let a1 = dir_objects_prefix(d, ignores, path, d.entries@.len() as int);
            let a2 = dir_objects_plain_prefix(d, ignores, path, d.entries@.len() as int);
            let b1 = seq![
                (
                    dir_id(d, ignores, path),
                    zlib_of(encode_bytes(OgitObjectType::Tree, dir_payload(d, ignores, path))),
                ),
            ];
            let b2 = seq![
                (
                    dir_id(d, ignores, path),
                    encode_bytes(OgitObjectType::Tree, dir_payload(d, ignores, path)),
                ),
            ];
            assert(zip_zlib(b1, b2));
            lemma_zip_zlib_concat(a1, a2, b1, b2);
        },
    }
}

pub proof fn lemma_objects_zip_prefix(d: FsDir, ignores: Seq<Seq<char>>, base: Seq<char>, n: int)
    ensures
        zip_zlib(
            dir_objects_prefix(d, ignores, base, n),
            dir_objects_plain_prefix(d, ignores, base, n),
        ),
    decreases d, 1int, n,
{
    if 0 < n <= d.entries@.len() {
        lemma_objects_zip_prefix(d, ignores, base, n - 1);
        let name = d.entries@[n - 1].0@;
        let e = d.entries@[n - 1].1;
        let p = child_path(base, name);
        if spec_ignored(p, ignores) {
            lemma_zip_zlib_concat(
                dir_objects_prefix(d, ignores, base, n - 1),
                dir_objects_plain_prefix(d, ignores, base, n - 1),
                Seq::empty(),
                Seq::empty(),
            );
        } else {
            lemma_objects_zip(e, ignores, p);
            lemma_zip_zlib_concat(
                dir_objects_prefix(d, ignores, base, n - 1),
                dir_objects_plain_prefix(d, ignores, base, n - 1),
                entry_objects(e, ignores, p),
                entry_objects_plain(e, ignores, p),
            );
        }
    }
}

/// A line as parsing returns it: filemode, kind, id, and name, the text
/// fields already as bytes.
pub open spec fn line_of_tuple(t: (Seq<u8>, OgitObjectType, Seq<u8>, Seq<u8>)) -> Seq<u8> {
    t.0 + seq![32u8] + variant_bytes(t.1) + seq![32u8] + t.2 + seq![32u8] + t.3 + seq![10u8]
}

/// The tree text of a tuple list, one line each.
pub open spec fn lines_bytes(ts: Seq<(Seq<u8>, OgitObjectType, Seq<u8>, Seq<u8>)>) -> Seq<u8>
    decreases ts.len(),
{
    if ts.len() == 0 {
        Seq::empty()
    } else {
        lines_bytes(ts.drop_last()) + line_of_tuple(ts.last())
    }
}

/// A parsed-line field that the format keeps: nonempty whitespace-free
/// valid text bytes.
pub open spec fn tuple_field_wf(s: Seq<u8>) -> bool {
    crate::text::token_wf(s) && vstd::utf8::valid_utf8(s)
}

proof fn lemma_lines_bytes_cons(ts: Seq<(Seq<u8>, OgitObjectType, Seq<u8>, Seq<u8>)>)
    requires
        ts.len() > 0,
    ensures
        lines_bytes(ts) == line_of_tuple(ts.first()) + lines_bytes(ts.drop_first()),
    decreases ts.len(),
{
    if ts.len() == 1 {
        assert(ts.drop_last() =~= Seq::<(Seq<u8>, OgitObjectType, Seq<u8>, Seq<u8>)>::empty());
        assert(ts.drop_first() =~= Seq::<(Seq<u8>, OgitObjectType, Seq<u8>, Seq<u8>)>::empty());
        assert(ts.last() == ts.first());
        assert(lines_bytes(ts) =~= line_of_tuple(ts.first()) + lines_bytes(ts.drop_first()));
    } else {
        let dl = ts.drop_last();
        lemma_lines_bytes_cons(dl);
        assert(dl.first() == ts.first());
        assert(ts.drop_first().drop_last() =~= dl.drop_first());
        assert(ts.drop_first().last() == ts.last());
        assert(ts.drop_first().len() > 0);
        assert(lines_bytes(ts.drop_first()) == lines_bytes(ts.drop_first().drop_last())
            + line_of_tuple(ts.drop_first().last()));
        assert(lines_bytes(ts) =~= line_of_tuple(ts.first()) + lines_bytes(ts.drop_first()));
    }
}

/// Reading tree text back undoes writing it, tuple by tuple.
#[verifier::rlimit(100)]
pub proof fn lemma_lines_round_trip(ts: Seq<(Seq<u8>, OgitObjectType, Seq<u8>, Seq<u8>)>)
    requires
        forall|k: int|
            0 <= k < ts.len() ==> tuple_field_wf((#[trigger] ts[k]).0) && tuple_field_wf(ts[k].2)
                && tuple_field_wf(ts[k].3),
    ensures
        parse_entry_lines(payload_lines(lines_bytes(ts))) == Some(ts),
    decreases ts.len(),
{
    if ts.len() == 0 {
        assert(lines_bytes(ts) =~= Seq::<u8>::empty());
        assert(crate::commits::split_lines(Seq::<u8>::empty()) == seq![Seq::<u8>::empty()]);
        assert(payload_lines(Seq::<u8>::empty()) =~= Seq::<Seq<u8>>::empty());
        assert(parse_entry_lines(payload_lines(lines_bytes(ts))) == Some(ts)) by {
            assert(ts =~= Seq::<(Seq<u8>, OgitObjectType, Seq<u8>, Seq<u8>)>::empty());
        }
    } else {
        let t = ts.first();
        assert(ts[0] == t);
        let wm = t.0;
        let vb = variant_bytes(t.1);
        let wi = t.2;
        let wn = t.3;
        let body = wm + seq![32u8] + vb + seq![32u8] + wi + seq![32u8] + wn;
        assert(line_of_tuple(t) =~= body + seq![10u8]);
        lemma_lines_bytes_cons(ts);
        let rest = lines_bytes(ts.drop_first());
        let whole = lines_bytes(ts);
        assert(whole =~= body + seq![10u8] + rest);
        assert(crate::text::token_wf(vb)) by {
            assert forall|i: int| 0 <= i < vb.len() implies !crate::text::is_ws(
                #[trigger] vb[i],
            ) by {}
        }
        assert forall|j: int| 0 <= j < body.len() implies body[j] != 10 by {
            if j < wm.len() {
                assert(body[j] == wm[j]);
                assert(!crate::text::is_ws(wm[j]));
            } else if j == wm.len() {
                assert(body[j] == 32);
            } else if j < wm.len() + 1 + vb.len() {
                assert(body[j] == vb[j - wm.len() - 1]);
            } else if j == wm.len() + 1 + vb.len() {
                assert(body[j] == 32);
            } else if j < wm.len() + 1 + vb.len() + 1 + wi.len() {
                assert(body[j] == wi[j - wm.len() - 1 - vb.len() - 1]);
                assert(!crate::text::is_ws(wi[j - wm.len() - 1 - vb.len() - 1]));
            } else if j == wm.len() + 1 + vb.len() + 1 + wi.len() {
                assert(body[j] == 32);
            } else {
                assert(body[j] == wn[j - wm.len() - 1 - vb.len() - 1 - wi.len() - 1]);
                assert(!crate::text::is_ws(wn[j - wm.len() - 1 - vb.len() - 1 - wi.len() - 1]));
            }
        }
        assert(whole[body.len() as int] == 10);
        assert forall|l: int| 0 <= l < body.len() implies whole[l] != 10 by {
            assert(whole[l] == body[l]);
        }
        crate::text::lemma_find_byte_is(whole, 10, body.len() as int);
        assert(whole.len() > 0);
        lemma_payload_lines_step(whole);
        assert(whole.take(body.len() as int) =~= body);
        assert(whole.skip(body.len() as int + 1) =~= rest);
        let pl = payload_lines(whole);
        assert(pl == seq![body] + payload_lines(rest));
        assert(pl.first() == body);
        assert(pl.drop_first() =~= payload_lines(rest));
        assert(body =~= wm + seq![32u8] + (vb + seq![32u8] + (wi + seq![32u8] + wn)));
        crate::commits::lemma_tokens_sep(wm, vb + seq![32u8] + (wi + seq![32u8] + wn));
        crate::commits::lemma_tokens_sep(vb, wi + seq![32u8] + wn);
        crate::commits::lemma_tokens_sep(wi, wn);
        crate::commits::lemma_tokens_single(wm);
        crate::commits::lemma_tokens_single(vb);
        crate::commits::lemma_tokens_single(wi);
        crate::commits::lemma_tokens_single(wn);
        let toks = crate::text::spec_tokens(body);
        assert(toks =~= seq![wm] + (seq![vb] + (seq![wi] + seq![wn])));
        assert(toks.len() == 4);
        assert(toks[0] == wm && toks[1] == vb && toks[2] == wi && toks[3] == wn);
        assert(crate::objects::parse_variant(vb) == Some(t.1));
        let h = spec_parse_entry(body);
        assert(h == Some((wm, t.1, wi, wn)));
        assert forall|k: int| 0 <= k < ts.drop_first().len() implies tuple_field_wf(
            (#[trigger] ts.drop_first()[k]).0,
        ) && tuple_field_wf(ts.drop_first()[k].2) && tuple_field_wf(ts.drop_first()[k].3) by {
            assert(ts.drop_first()[k] == ts[k + 1]);
        }
        lemma_lines_round_trip(ts.drop_first());
        assert(parse_entry_lines(pl) == Some(seq![h->0] + ts.drop_first()));
        assert(seq![h->0] + ts.drop_first() =~= ts) by {
            assert(h->0 == (wm, t.1, wi, wn));
            assert((wm, t.1, wi, wn) == t);
        }
    }
}


/// The byte tuple an entry's tree line carries.
pub open spec fn tuple_of_entry(
    e: FsEntry,
    ignores: Seq<Seq<char>>,
    name: Seq<char>,
    p: Seq<char>,
) -> (Seq<u8>, OgitObjectType, Seq<u8>, Seq<u8>) {
    (
        encode_utf8(entry_mode_chars(e)),
        entry_variant(e),
        encode_utf8(entry_id(e, ignores, p)),
        encode_utf8(name),
    )
}

/// The tuples of a directory's first `n` entries, ignored ones dropped.
pub open spec fn dir_tuples_prefix(
    d: FsDir,
    ignores: Seq<Seq<char>>,
    base: Seq<char>,
    n: int,
) -> Seq<(Seq<u8>, OgitObjectType, Seq<u8>, Seq<u8>)>
    decreases n,
{
    if n <= 0 || n > d.entries@.len() {
        Seq::empty()
    } else {
        let name = d.entries@[n - 1].0@;
        let e = d.entries@[n - 1].1;
        let p = child_path(base, name);
        dir_tuples_prefix(d, ignores, base, n - 1) + (if spec_ignored(p, ignores) {
            Seq::<(Seq<u8>, OgitObjectType, Seq<u8>, Seq<u8>)>::empty()
        } else {
            seq![tuple_of_entry(e, ignores, name, p)]
        })
    }
}

/// A directory's payload is the tree text of its tuples.
pub proof fn lemma_payload_is_lines(d: FsDir, ignores: Seq<Seq<char>>, base: Seq<char>, n: int)
    requires
        n <= d.entries@.len(),
    ensures
        dir_payload_prefix(d, ignores, base, n) == lines_bytes(
            dir_tuples_prefix(d, ignores, base, n),
        ),
    decreases n,
{
    if 0 < n {
        lemma_payload_is_lines(d, ignores, base, n - 1);
        let name = d.entries@[n - 1].0@;
        let e = d.entries@[n - 1].1;
        let p = child_path(base, name);
        let prev = dir_tuples_prefix(d, ignores, base, n - 1);
        if spec_ignored(p, ignores) {
            assert(dir_tuples_prefix(d, ignores, base, n) =~= prev);
            assert(dir_payload_prefix(d, ignores, base, n) =~= dir_payload_prefix(
                d,
                ignores,
                base,
                n - 1,
            ));
        } else {
            let t = tuple_of_entry(e, ignores, name, p);
            let cur = dir_tuples_prefix(d, ignores, base, n);
            assert(cur =~= prev.push(t));
            assert(cur.drop_last() =~= prev);
            assert(cur.last() == t);
            assert(lines_bytes(cur) == lines_bytes(prev) + line_of_tuple(t));
            assert(line_of_tuple(t) =~= entry_line(
                entry_mode_chars(e),
                entry_variant(e),
                entry_id(e, ignores, p),
                name,
            ));
        }
    }
}

/// How deep an entry's object graph reaches.
pub open spec fn entry_depth(e: FsEntry) -> nat
    decreases e, 1int, 0int,
{
    match e {
        FsEntry::File { .. } => 1,
        FsEntry::Dir(d) => 1 + dir_depth_prefix(d, d.entries@.len() as int),
    }
}

pub open spec fn dir_depth_prefix(d: FsDir, n: int) -> nat
    decreases d, 0int, n,
{
    if n <= 0 || n > d.entries@.len() {
        0
    } else {
        let a = dir_depth_prefix(d, n - 1);
        let b = entry_depth(d.entries@[n - 1].1);
        if a >= b {
            a
        } else {
            b
        }
    }
}

/// The reference depth of a directory's graph.
pub open spec fn dir_depth(d: FsDir) -> nat {
    dir_depth_prefix(d, d.entries@.len() as int)
}

/// The snapshot-wide well-formedness the round trip rests on: every entry
/// name is a usable token, every digest is twenty bytes, and the same
/// holds below every subdirectory.
pub open spec fn entry_ok(e: FsEntry, ignores: Seq<Seq<char>>, p: Seq<char>) -> bool
    decreases e, 1int, 0int,
{
    match e {
        FsEntry::File { data, .. } => sha1_of(encode_bytes(OgitObjectType::Blob, data@)).len()
            == 20,
        FsEntry::Dir(d) => sha1_of(
            encode_bytes(OgitObjectType::Tree, dir_payload(d, ignores, p)),
        ).len() == 20 && dir_ok(d, ignores, p),
    }
}

pub open spec fn dir_ok(d: FsDir, ignores: Seq<Seq<char>>, base: Seq<char>) -> bool
    decreases d, 0int, 0int,
{
    forall|j: int|
        0 <= j < d.entries@.len() ==> crate::text::token_wf(
            encode_utf8((#[trigger] d.entries@[j]).0@),
        ) && entry_ok(d.entries@[j].1, ignores, child_path(base, d.entries@[j].0@))
}

/// A map that holds every listed pair.
pub open spec fn covers_seq(u: Map<Seq<char>, Seq<u8>>, s: Seq<(Seq<char>, Seq<u8>)>) -> bool {
    forall|i: int|
        0 <= i < s.len() ==> u.contains_key((#[trigger] s[i]).0) && u[s[i].0] == s[i].1
}

proof fn lemma_covers_seq_concat(
    u: Map<Seq<char>, Seq<u8>>,
    a: Seq<(Seq<char>, Seq<u8>)>,
    b: Seq<(Seq<char>, Seq<u8>)>,
)
    requires
        covers_seq(u, a + b),
    ensures
        covers_seq(u, a),
        covers_seq(u, b),
{
    assert forall|i: int| 0 <= i < a.len() implies u.contains_key((#[trigger] a[i]).0) && u[a[i].0]
        == a[i].1 by {
        assert((a + b)[i] == a[i]);
    }
    assert forall|i: int| 0 <= i < b.len() implies u.contains_key((#[trigger] b[i]).0) && u[b[i].0]
        == b[i].1 by {
        assert((a + b)[i + a.len()] == b[i]);
    }
}

/// Covering a directory's writes covers each non-ignored entry's writes.
proof fn lemma_covers_entry(
    u: Map<Seq<char>, Seq<u8>>,
    d: FsDir,
    ignores: Seq<Seq<char>>,
    base: Seq<char>,
    n: int,
    j: int,
)
    requires
        covers_seq(u, dir_objects_plain_prefix(d, ignores, base, n)),
        0 <= j < n,
        n <= d.entries@.len(),
        !spec_ignored(child_path(base, d.entries@[j].0@), ignores),
    ensures
        covers_seq(
            u,
            entry_objects_plain(d.entries@[j].1, ignores, child_path(base, d.entries@[j].0@)),
        ),
    decreases n,
{
    let name = d.entries@[n - 1].0@;
    let e = d.entries@[n - 1].1;
    let p = child_path(base, name);
    let head = dir_objects_plain_prefix(d, ignores, base, n - 1);
    let tail: Seq<(Seq<char>, Seq<u8>)> = if spec_ignored(p, ignores) {
        Seq::empty()
    } else {
        entry_objects_plain(e, ignores, p)
    };
    lemma_covers_seq_concat(u, head, tail);
    if j < n - 1 {
        lemma_covers_entry(u, d, ignores, base, n - 1, j);
    }
}

/// The flattened files an entry restores to, in walk order.
pub open spec fn entry_files(e: FsEntry, ignores: Seq<Seq<char>>, p: Seq<char>) -> Seq<
    (Seq<char>, Seq<char>, Seq<u8>),
>
    decreases e, 0int, 0int,
{
    match e {
        FsEntry::File { mode, data } => seq![(p, oct6_of(mode as nat), data@)],
        FsEntry::Dir(d) => dir_files_suffix(d, ignores, p, 0),
    }
}

pub open spec fn dir_files_suffix(
    d: FsDir,
    ignores: Seq<Seq<char>>,
    base: Seq<char>,
    j: int,
) -> Seq<(Seq<char>, Seq<char>, Seq<u8>)>
    decreases d, 1int, d.entries@.len() - j,
{
    if j < 0 || j >= d.entries@.len() {
        Seq::empty()
    } else {
        let name = d.entries@[j].0@;
        let e = d.entries@[j].1;
        let p = child_path(base, name);
        (if spec_ignored(p, ignores) {
            Seq::<(Seq<char>, Seq<char>, Seq<u8>)>::empty()
        } else {
            entry_files(e, ignores, p)
        }) + dir_files_suffix(d, ignores, base, j + 1)
    }
}

/// What a snapshot restores to: its files' paths, filemode texts, and
/// bytes, depth first in walk order.
pub open spec fn files_of(d: FsDir, ignores: Seq<Seq<char>>, base: Seq<char>) -> Seq<
    (Seq<char>, Seq<char>, Seq<u8>),
> {
    dir_files_suffix(d, ignores, base, 0)
}

/// The flattened blob rows an entry contributes, as the walk reports them.
pub open spec fn entry_rows(e: FsEntry, ignores: Seq<Seq<char>>, p: Seq<char>) -> Seq<
    (Seq<char>, Seq<char>, Seq<char>),
>
    decreases e, 0int, 0int,
{
    match e {
        FsEntry::File { mode, data } => seq![
            (oct6_of(mode as nat), id_chars(OgitObjectType::Blob, data@), p),
        ],
        FsEntry::Dir(d) => dir_rows_suffix(d, ignores, p, 0),
    }
}

pub open spec fn dir_rows_suffix(
    d: FsDir,
    ignores: Seq<Seq<char>>,
    base: Seq<char>,
    j: int,
) -> Seq<(Seq<char>, Seq<char>, Seq<char>)>
    decreases d, 1int, d.entries@.len() - j,
{
    if j < 0 || j >= d.entries@.len() {
        Seq::empty()
    } else {
        let name = d.entries@[j].0@;
        let e = d.entries@[j].1;
        let p = child_path(base, name);
        (if spec_ignored(p, ignores) {
            Seq::<(Seq<char>, Seq<char>, Seq<char>)>::empty()
        } else {
            entry_rows(e, ignores, p)
        }) + dir_rows_suffix(d, ignores, base, j + 1)
    }
}


/// Printable non-whitespace ASCII text is a usable line field.
proof fn lemma_printable_field(s: Seq<char>)
    requires
        s.len() > 0,
        forall|i: int| 0 <= i < s.len() ==> '!' <= #[trigger] s[i] <= '~',
    ensures
        tuple_field_wf(encode_utf8(s)),
{
    assert(vstd::utf8::is_ascii_chars(s)) by {
        assert forall|i: int| 0 <= i < s.len() implies '\0' <= #[trigger] s[i] <= '\u{7f}' by {
            assert('!' <= s[i] <= '~');
        }
    }
    vstd::utf8::is_ascii_chars_encode_utf8(s);
    vstd::utf8::encode_utf8_valid_utf8(s);
    let w = encode_utf8(s);
    assert(w.len() == s.len());
    assert forall|i: int| 0 <= i < w.len() implies !crate::text::is_ws(#[trigger] w[i]) by {
        assert(w[i] == s[i] as u8);
        assert('!' <= s[i] <= '~');
        assert(33 <= s[i] as u8 <= 126);
    }
}

/// Octal digits render as the characters `0` through `7`.
proof fn lemma_oct_chars(n: nat)
    ensures
        crate::text::oct_of(n).len() > 0,
        forall|i: int| 0 <= i < crate::text::oct_of(n).len() ==> '0' <= #[trigger] crate::text::oct_of(n)[i] <= '9',
    decreases n,
{
    if n < 8 {
        assert(crate::text::oct_of(n)[0] == crate::text::dec_digit(n as u8));
    } else {
        lemma_oct_chars(n / 8);
        let s = crate::text::oct_of(n);
        assert forall|i: int| 0 <= i < s.len() implies '0' <= #[trigger] s[i] <= '9' by {
            if i < crate::text::oct_of(n / 8).len() {
                assert(s[i] == crate::text::oct_of(n / 8)[i]);
            } else {
                assert(s[i] == crate::text::dec_digit((n % 8) as u8));
            }
        }
    }
}

/// An entry's filemode text is a usable line field.
proof fn lemma_mode_field_wf(e: FsEntry)
    ensures
        tuple_field_wf(encode_utf8(entry_mode_chars(e))),
{
    let s = entry_mode_chars(e);
    match e {
        FsEntry::File { mode, .. } => {
            if (mode as nat) < 262144 {
                assert(s.len() == 6);
                assert forall|i: int| 0 <= i < s.len() implies '!' <= #[trigger] s[i] <= '~' by {
                    assert(s[0] == crate::text::dec_digit((mode as nat / 32768 % 8) as u8));
                    assert(s[1] == crate::text::dec_digit((mode as nat / 4096 % 8) as u8));
                    assert(s[2] == crate::text::dec_digit((mode as nat / 512 % 8) as u8));
                    assert(s[3] == crate::text::dec_digit((mode as nat / 64 % 8) as u8));
                    assert(s[4] == crate::text::dec_digit((mode as nat / 8 % 8) as u8));
                    assert(s[5] == crate::text::dec_digit((mode as nat % 8) as u8));
                }
            } else {
                lemma_oct_chars(mode as nat);
                assert forall|i: int| 0 <= i < s.len() implies '!' <= #[trigger] s[i] <= '~' by {
                    assert('0' <= s[i] <= '9');
                }
            }
            lemma_printable_field(s);
        },
        FsEntry::Dir(_) => {
            assert forall|i: int| 0 <= i < s.len() implies '!' <= #[trigger] s[i] <= '~' by {}
            lemma_printable_field(s);
        },
    }
}

/// A forty-character hex id is a usable line field.
proof fn lemma_hex_field_wf(digest: Seq<u8>)
    requires
        digest.len() > 0,
    ensures
        tuple_field_wf(encode_utf8(crate::text::hex_of(digest))),
{
    lemma_hex_chars(digest);
    crate::text::lemma_hex_of_len(digest);
    lemma_printable_field(crate::text::hex_of(digest));
}

proof fn lemma_hex_chars(digest: Seq<u8>)
    ensures
        forall|i: int|
            0 <= i < crate::text::hex_of(digest).len() ==> '!' <= #[trigger] crate::text::hex_of(
                digest,
            )[i] <= '~',
    decreases digest.len(),
{
    if digest.len() > 0 {
        lemma_hex_chars(digest.drop_first());
        let s = crate::text::hex_of(digest);
        let h1 = crate::text::hex_digit(digest.first() / 16);
        let h2 = crate::text::hex_digit(digest.first() % 16);
        assert('!' <= h1 <= '~');
        assert('!' <= h2 <= '~');
        assert forall|i: int| 0 <= i < s.len() implies '!' <= #[trigger] s[i] <= '~' by {
            if i == 0 {
                assert(s[0] == h1);
            } else if i == 1 {
                assert(s[1] == h2);
            } else {
                assert(s[i] == crate::text::hex_of(digest.drop_first())[i - 2]);
            }
        }
    }
}

/// Every tuple of a well-formed directory has usable fields.
proof fn lemma_tuples_wf(d: FsDir, ignores: Seq<Seq<char>>, base: Seq<char>, n: int)
    requires
        dir_ok(d, ignores, base),
        n <= d.entries@.len(),
    ensures
        forall|k: int|
            0 <= k < dir_tuples_prefix(d, ignores, base, n).len() ==> tuple_field_wf(
                (#[trigger] dir_tuples_prefix(d, ignores, base, n)[k]).0,
            ) && tuple_field_wf(dir_tuples_prefix(d, ignores, base, n)[k].2) && tuple_field_wf(
                dir_tuples_prefix(d, ignores, base, n)[k].3,
            ),
    decreases n,
{
    if 0 < n {
        lemma_tuples_wf(d, ignores, base, n - 1);
        let name = d.entries@[n - 1].0@;
        let e = d.entries@[n - 1].1;
        let p = child_path(base, name);
        let prev = dir_tuples_prefix(d, ignores, base, n - 1);
        let cur = dir_tuples_prefix(d, ignores, base, n);
        if spec_ignored(p, ignores) {
            assert(cur =~= prev);
        } else {
            let t = tuple_of_entry(e, ignores, name, p);
            assert(tuple_field_wf(t.0)) by {
                lemma_mode_field_wf(e);
            }
            assert(tuple_field_wf(t.2)) by {
                assert(entry_ok(e, ignores, p));
                match e {
                    FsEntry::File { data, .. } => {
                        assert(entry_payload(e, ignores, p) == data@);
                        lemma_hex_field_wf(sha1_of(encode_bytes(OgitObjectType::Blob, data@)));
                    },
                    FsEntry::Dir(sub) => {
                        assert(entry_payload(e, ignores, p) == dir_payload(sub, ignores, p));
                        lemma_hex_field_wf(
                            sha1_of(
                                encode_bytes(OgitObjectType::Tree, dir_payload(sub, ignores, p)),
                            ),
                        );
                    },
                }
            }
            assert(tuple_field_wf(t.3)) by {
                assert(crate::text::token_wf(encode_utf8(name)));
                vstd::utf8::encode_utf8_valid_utf8(name);
            }
            assert(cur =~= prev.push(t));
            assert forall|k: int| 0 <= k < cur.len() implies tuple_field_wf(
                (#[trigger] cur[k]).0,
            ) && tuple_field_wf(cur[k].2) && tuple_field_wf(cur[k].3) by {
                if k < prev.len() {
                    assert(cur[k] == prev[k]);
                } else {
                    assert(cur[k] == t);
                }
            }
        }
    }
}

/// An earlier tuple prefix is a prefix of a later one.
proof fn lemma_tuples_prefix_extends(
    d: FsDir,
    ignores: Seq<Seq<char>>,
    base: Seq<char>,
    m: int,
    n: int,
)
    requires
        0 <= m <= n <= d.entries@.len(),
    ensures
        dir_tuples_prefix(d, ignores, base, m).len() <= dir_tuples_prefix(
            d,
            ignores,
            base,
            n,
        ).len(),
        dir_tuples_prefix(d, ignores, base, m) == dir_tuples_prefix(d, ignores, base, n).take(
            dir_tuples_prefix(d, ignores, base, m).len() as int,
        ),
    decreases n,
{
    if m < n {
        lemma_tuples_prefix_extends(d, ignores, base, m, n - 1);
        let a = dir_tuples_prefix(d, ignores, base, m);
        let b = dir_tuples_prefix(d, ignores, base, n - 1);
        let c = dir_tuples_prefix(d, ignores, base, n);
        assert(a =~= c.take(a.len() as int)) by {
            assert(a == b.take(a.len() as int));
        }
    } else {
        let a = dir_tuples_prefix(d, ignores, base, m);
        assert(a =~= a.take(a.len() as int));
    }
}

/// No entry reaches deeper than its directory's depth.
proof fn lemma_depth_bound(d: FsDir, n: int, j: int)
    requires
        0 <= j < n <= d.entries@.len(),
    ensures
        entry_depth(d.entries@[j].1) <= dir_depth_prefix(d, n),
    decreases n,
{
    if j < n - 1 {
        lemma_depth_bound(d, n - 1, j);
    }
}


/// Reading a snapshot back out of any map that holds its objects: the walk
/// of the root tree id reports exactly the snapshot's blob rows.
#[verifier::rlimit(100)]
pub proof fn lemma_read_tree_correct(
    u: Map<Seq<char>, Seq<u8>>,
    d: FsDir,
    ignores: Seq<Seq<char>>,
    base: Seq<char>,
    fuel: nat,
)
    requires
        covers_seq(u, dir_objects_plain(d, ignores, base)),
        dir_ok(d, ignores, base),
        sha1_of(encode_bytes(OgitObjectType::Tree, dir_payload(d, ignores, base))).len() == 20,
        fuel >= dir_depth(d) + 1,
    ensures
        spec_get_tree(u, dir_id(d, ignores, base), base, fuel) == Ok::<
            Seq<(Seq<char>, Seq<char>, Seq<char>)>,
            OgitError,
        >(dir_rows_suffix(d, ignores, base, 0)),
    decreases fuel, 0int, 0int,
{
    let n = d.entries@.len() as int;
    let plain = dir_objects_plain(d, ignores, base);
    let payload = dir_payload(d, ignores, base);
    let root_id = dir_id(d, ignores, base);
    assert(plain.len() == dir_objects_plain_prefix(d, ignores, base, n).len() + 1);
    assert(plain.last() == (root_id, encode_bytes(OgitObjectType::Tree, payload)));
    assert(plain[plain.len() - 1] == plain.last());
    assert(u.contains_key(root_id) && u[root_id] == encode_bytes(OgitObjectType::Tree, payload));
    crate::objects::lemma_decode_encode(OgitObjectType::Tree, payload);
    lemma_payload_is_lines(d, ignores, base, n);
    lemma_tuples_wf(d, ignores, base, n);
    let ts = dir_tuples_prefix(d, ignores, base, n);
    lemma_lines_round_trip(ts);
    assert(parse_entry_lines(payload_lines(payload)) == Some(ts));
    lemma_covers_prefix_part(u, d, ignores, base);
    lemma_walk_correct(u, d, ignores, base, (fuel - 1) as nat, 0);
    assert(dir_tuples_prefix(d, ignores, base, 0).len() == 0);
    assert(spec_get_tree(u, root_id, base, fuel) == walk_entries(
        u,
        ts,
        base,
        (fuel - 1) as nat,
        0,
    ));
}

proof fn lemma_covers_prefix_part(
    u: Map<Seq<char>, Seq<u8>>,
    d: FsDir,
    ignores: Seq<Seq<char>>,
    base: Seq<char>,
)
    requires
        covers_seq(u, dir_objects_plain(d, ignores, base)),
    ensures
        covers_seq(
            u,
            dir_objects_plain_prefix(d, ignores, base, d.entries@.len() as int),
        ),
{
    let n = d.entries@.len() as int;
    lemma_covers_seq_concat(
        u,
        dir_objects_plain_prefix(d, ignores, base, n),
        seq![
            (
                dir_id(d, ignores, base),
                encode_bytes(OgitObjectType::Tree, dir_payload(d, ignores, base)),
            ),
        ],
    );
}

#[verifier::rlimit(100)]
proof fn lemma_walk_correct(
    u: Map<Seq<char>, Seq<u8>>,
    d: FsDir,
    ignores: Seq<Seq<char>>,
    base: Seq<char>,
    f2: nat,
    j: int,
)
    requires
        0 <= j <= d.entries@.len(),
        covers_seq(
            u,
            dir_objects_plain_prefix(d, ignores, base, d.entries@.len() as int),
        ),
        dir_ok(d, ignores, base),
        f2 >= dir_depth(d),
    ensures
        walk_entries(
            u,
            dir_tuples_prefix(d, ignores, base, d.entries@.len() as int),
            base,
            f2,
            dir_tuples_prefix(d, ignores, base, j).len() as int,
        ) == Ok::<Seq<(Seq<char>, Seq<char>, Seq<char>)>, OgitError>(
            dir_rows_suffix(d, ignores, base, j),
        ),
    decreases f2, 1int, d.entries@.len() - j,
{
    let n = d.entries@.len() as int;
    let ts = dir_tuples_prefix(d, ignores, base, n);
    let k = dir_tuples_prefix(d, ignores, base, j).len() as int;
    lemma_tuples_prefix_extends(d, ignores, base, j, n);
    if j == n {
        assert(k == ts.len());
        assert(walk_entries(u, ts, base, f2, k) == Ok::<
            Seq<(Seq<char>, Seq<char>, Seq<char>)>,
            OgitError,
        >(Seq::empty()));
        assert(dir_rows_suffix(d, ignores, base, j) =~= Seq::<
            (Seq<char>, Seq<char>, Seq<char>),
        >::empty());
    } else {
        let name = d.entries@[j].0@;
        let e = d.entries@[j].1;
        let p = child_path(base, name);
        lemma_walk_correct(u, d, ignores, base, f2, j + 1);
        if spec_ignored(p, ignores) {
            assert(dir_tuples_prefix(d, ignores, base, j + 1) =~= dir_tuples_prefix(
                d,
                ignores,
                base,
                j,
            ));
            assert(dir_rows_suffix(d, ignores, base, j) =~= dir_rows_suffix(
                d,
                ignores,
                base,
                j + 1,
            ));
        } else {
            let t = tuple_of_entry(e, ignores, name, p);
            let pj1 = dir_tuples_prefix(d, ignores, base, j + 1);
            assert(pj1 =~= dir_tuples_prefix(d, ignores, base, j).push(t));
            assert(pj1.len() == k + 1);
            lemma_tuples_prefix_extends(d, ignores, base, j + 1, n);
            assert(k < ts.len());
            assert(ts[k] == t) by {
                assert(pj1 == ts.take(k + 1));
                assert(ts.take(k + 1)[k] == ts[k]);
                assert(pj1[k] == t);
            }
            vstd::utf8::encode_utf8_decode_utf8(entry_mode_chars(e));
            vstd::utf8::encode_utf8_decode_utf8(entry_id(e, ignores, p));
            vstd::utf8::encode_utf8_decode_utf8(name);
            assert(vstd::utf8::decode_utf8(t.0) == entry_mode_chars(e));
            assert(vstd::utf8::decode_utf8(t.2) == entry_id(e, ignores, p));
            assert(vstd::utf8::decode_utf8(t.3) == name);
            assert(child_path(base, vstd::utf8::decode_utf8(t.3)) == p);
            let head: Result<Seq<(Seq<char>, Seq<char>, Seq<char>)>, OgitError> = match t.1 {
                OgitObjectType::Blob => Ok(
                    seq![
                        (
                            vstd::utf8::decode_utf8(t.0),
                            vstd::utf8::decode_utf8(t.2),
                            child_path(base, vstd::utf8::decode_utf8(t.3)),
                        ),
                    ],
                ),
                OgitObjectType::Tree => spec_get_tree(u, vstd::utf8::decode_utf8(t.2), p, f2),
                OgitObjectType::Commit => Err(OgitError::InvalidObject),
            };
            match e {
                FsEntry::File { mode, data } => {
                    assert(t.1 == OgitObjectType::Blob);
                    assert(head == Ok::<Seq<(Seq<char>, Seq<char>, Seq<char>)>, OgitError>(
                        entry_rows(e, ignores, p),
                    )) by {
                        assert(entry_rows(e, ignores, p) =~= seq![
                            (oct6_of(mode as nat), id_chars(OgitObjectType::Blob, data@), p),
                        ]);
                        assert(entry_mode_chars(e) == oct6_of(mode as nat));
                        assert(entry_id(e, ignores, p) == id_chars(OgitObjectType::Blob, data@));
                    }
                },
                FsEntry::Dir(sub) => {
                    assert(t.1 == OgitObjectType::Tree);
                    lemma_covers_entry(u, d, ignores, base, n, j);
                    assert(covers_seq(u, dir_objects_plain(sub, ignores, p))) by {
                        assert(entry_objects_plain(e, ignores, p) =~= dir_objects_plain(
                            sub,
                            ignores,
                            p,
                        ));
                    }
                    assert(entry_ok(e, ignores, p));
                    lemma_depth_bound(d, n, j);
                    assert(entry_depth(e) == 1 + dir_depth(sub));
                    assert(f2 >= dir_depth(sub) + 1);
                    lemma_read_tree_correct(u, sub, ignores, p, f2);
                    assert(entry_id(e, ignores, p) == dir_id(sub, ignores, p)) by {
                        assert(entry_payload(e, ignores, p) == dir_payload(sub, ignores, p));
                    }
                    assert(head == Ok::<Seq<(Seq<char>, Seq<char>, Seq<char>)>, OgitError>(
                        entry_rows(e, ignores, p),
                    )) by {
                        assert(entry_rows(e, ignores, p) == dir_rows_suffix(sub, ignores, p, 0));
                    }
                },
            }
            assert(walk_entries(u, ts, base, f2, k) == Ok::<
                Seq<(Seq<char>, Seq<char>, Seq<char>)>,
                OgitError,
            >(entry_rows(e, ignores, p) + dir_rows_suffix(d, ignores, base, j + 1)));
            assert(dir_rows_suffix(d, ignores, base, j) == entry_rows(e, ignores, p)
                + dir_rows_suffix(d, ignores, base, j + 1));
        }
    }
}


/// Rows and files line up: the k-th row names the blob whose content is
/// the k-th file's bytes, at the same path and mode.
pub open spec fn rows_files_linked(
    u: Map<Seq<char>, Seq<u8>>,
    rows: Seq<(Seq<char>, Seq<char>, Seq<char>)>,
    files: Seq<(Seq<char>, Seq<char>, Seq<u8>)>,
) -> bool {
    rows.len() == files.len() && forall|k: int|
        0 <= k < rows.len() ==> {
            &&& u.contains_key((#[trigger] rows[k]).1)
            &&& u[rows[k].1] == encode_bytes(OgitObjectType::Blob, files[k].2)
            &&& files[k].0 == rows[k].2
            &&& files[k].1 == rows[k].0
        }
}

proof fn lemma_linked_concat(
    u: Map<Seq<char>, Seq<u8>>,
    r1: Seq<(Seq<char>, Seq<char>, Seq<char>)>,
    f1: Seq<(Seq<char>, Seq<char>, Seq<u8>)>,
    r2: Seq<(Seq<char>, Seq<char>, Seq<char>)>,
    f2: Seq<(Seq<char>, Seq<char>, Seq<u8>)>,
)
    requires
        rows_files_linked(u, r1, f1),
        rows_files_linked(u, r2, f2),
    ensures
        rows_files_linked(u, r1 + r2, f1 + f2),
{
    assert forall|k: int| 0 <= k < (r1 + r2).len() implies {
        &&& u.contains_key((#[trigger] (r1 + r2)[k]).1)
        &&& u[(r1 + r2)[k].1] == encode_bytes(OgitObjectType::Blob, (f1 + f2)[k].2)
        &&& (f1 + f2)[k].0 == (r1 + r2)[k].2
        &&& (f1 + f2)[k].1 == (r1 + r2)[k].0
    } by {
        if k < r1.len() {
            assert((r1 + r2)[k] == r1[k] && (f1 + f2)[k] == f1[k]);
        } else {
            assert((r1 + r2)[k] == r2[k - r1.len()] && (f1 + f2)[k] == f2[k - r1.len()]);
        }
    }
}

/// A covered snapshot links its rows to its files.
proof fn lemma_rows_files_linked_entry(
    u: Map<Seq<char>, Seq<u8>>,
    e: FsEntry,
    ignores: Seq<Seq<char>>,
    p: Seq<char>,
)
    requires
        covers_seq(u, entry_objects_plain(e, ignores, p)),
    ensures
        rows_files_linked(u, entry_rows(e, ignores, p), entry_files(e, ignores, p)),
    decreases e, 0int, 0int,
{
    match e {
        FsEntry::File { mode, data } => {
            let plain = entry_objects_plain(e, ignores, p);
            assert(plain[0] == (
                id_chars(OgitObjectType::Blob, data@),
                encode_bytes(OgitObjectType::Blob, data@),
            ));
        },
        FsEntry::Dir(sub) => {
            lemma_covers_seq_concat(
                u,
                dir_objects_plain_prefix(sub, ignores, p, sub.entries@.len() as int),
                seq![
                    (
                        dir_id(sub, ignores, p),
                        encode_bytes(OgitObjectType::Tree, dir_payload(sub, ignores, p)),
                    ),
                ],
            );
            lemma_rows_files_linked_dir(u, sub, ignores, p, 0);
        },
    }
}

proof fn lemma_rows_files_linked_dir(
    u: Map<Seq<char>, Seq<u8>>,
    d: FsDir,
    ignores: Seq<Seq<char>>,
    base: Seq<char>,
    j: int,
)
    requires
        covers_seq(
            u,
            dir_objects_plain_prefix(d, ignores, base, d.entries@.len() as int),
        ),
        0 <= j <= d.entries@.len(),
    ensures
        rows_files_linked(
            u,
            dir_rows_suffix(d, ignores, base, j),
            dir_files_suffix(d, ignores, base, j),
        ),
    decreases d, 1int, d.entries@.len() - j,
{
    let n = d.entries@.len() as int;
    if j < n {
        lemma_rows_files_linked_dir(u, d, ignores, base, j + 1);
        let name = d.entries@[j].0@;
        let e = d.entries@[j].1;
        let p = child_path(base, name);
        if spec_ignored(p, ignores) {
            lemma_linked_concat(
                u,
                Seq::empty(),
                Seq::empty(),
                dir_rows_suffix(d, ignores, base, j + 1),
                dir_files_suffix(d, ignores, base, j + 1),
            );
        } else {
            lemma_covers_entry(u, d, ignores, base, n, j);
            lemma_rows_files_linked_entry(u, e, ignores, p);
            lemma_linked_concat(
                u,
                entry_rows(e, ignores, p),
                entry_files(e, ignores, p),
                dir_rows_suffix(d, ignores, base, j + 1),
                dir_files_suffix(d, ignores, base, j + 1),
            );
        }
    }
}

/// Fetching each linked row's blob restores exactly the files.
proof fn lemma_restore_linked(
    u: Map<Seq<char>, Seq<u8>>,
    rows: Seq<(Seq<char>, Seq<char>, Seq<char>)>,
    files: Seq<(Seq<char>, Seq<char>, Seq<u8>)>,
    i: int,
)
    requires
        rows_files_linked(u, rows, files),
        0 <= i <= rows.len(),
    ensures
        restore_rows(u, rows, i) == Ok::<Seq<(Seq<char>, Seq<char>, Seq<u8>)>, OgitError>(
            files.skip(i),
        ),
    decreases rows.len() - i,
{
    if i == rows.len() {
        assert(files.skip(i) =~= Seq::<(Seq<char>, Seq<char>, Seq<u8>)>::empty());
    } else {
        lemma_restore_linked(u, rows, files, i + 1);
        crate::objects::lemma_decode_encode(OgitObjectType::Blob, files[i].2);
        assert(seq![(rows[i].2, rows[i].0, files[i].2)] + files.skip(i + 1) =~= files.skip(i)) by {
            assert(files[i] == (files[i].0, files[i].1, files[i].2));
            assert(files[i].0 == rows[i].2 && files[i].1 == rows[i].0);
        }
    }
}

/// The same ids never carry different content: what rules the round trip
/// in, since two colliding digests would make later writes supersede
/// earlier ones.
pub open spec fn pairs_consistent(s: Seq<(Seq<char>, Seq<u8>)>) -> bool {
    forall|i: int, j: int|
        0 <= i < s.len() && 0 <= j < s.len() && (#[trigger] s[i]).0 == (#[trigger] s[j]).0 ==> s[i].1
            == s[j].1
}

/// Inserting a consistent pair list leaves every pair readable.
proof fn lemma_insert_all_covers(m0: Map<Seq<char>, Seq<u8>>, s: Seq<(Seq<char>, Seq<u8>)>)
    requires
        pairs_consistent(s),
    ensures
        covers_seq(insert_all(m0, s), s),
    decreases s.len(),
{
    if s.len() > 0 {
        let dl = s.drop_last();
        assert(pairs_consistent(dl)) by {
            assert(forall|i: int| 0 <= i < dl.len() ==> #[trigger] dl[i] == s[i]);
        }
        lemma_insert_all_covers(m0, dl);
        let m1 = insert_all(m0, dl);
        let m2 = insert_all(m0, s);
        assert(m2 == m1.insert(s.last().0, s.last().1));
        assert forall|i: int| 0 <= i < s.len() implies m2.contains_key((#[trigger] s[i]).0)
            && m2[s[i].0] == s[i].1 by {
            if i < s.len() - 1 {
                assert(dl[i] == s[i]);
                if s[i].0 == s.last().0 {
                    assert(s[s.len() - 1] == s.last());
                    assert(s[i].1 == s.last().1);
                }
            } else {
                assert(s[i] == s.last());
            }
        }
    }
}

/// Inserting compressed pairs tracks inserting their plain forms.
proof fn lemma_insert_all_zip(
    mc: Map<Seq<char>, Seq<u8>>,
    mu: Map<Seq<char>, Seq<u8>>,
    objs: Seq<(Seq<char>, Seq<u8>)>,
    plain: Seq<(Seq<char>, Seq<u8>)>,
)
    requires
        compressed_matches(mc, mu),
        zip_zlib(objs, plain),
    ensures
        compressed_matches(insert_all(mc, objs), insert_all(mu, plain)),
    decreases objs.len(),
{
    if objs.len() > 0 {
        let od = objs.drop_last();
        let pd = plain.drop_last();
        assert(zip_zlib(od, pd)) by {
            assert(forall|i: int| 0 <= i < od.len() ==> #[trigger] od[i] == objs[i]);
            assert(forall|i: int| 0 <= i < pd.len() ==> #[trigger] pd[i] == plain[i]);
        }
        lemma_insert_all_zip(mc, mu, od, pd);
        assert(objs[objs.len() - 1] == objs.last());
        assert(plain[plain.len() - 1] == plain.last());
        assert(objs.last().0 == plain.last().0);
        assert(objs.last().1 == zlib_of(plain.last().1));
        let c1 = insert_all(mc, od).insert(objs.last().0, objs.last().1);
        let u1 = insert_all(mu, pd).insert(plain.last().0, plain.last().1);
        assert forall|k: Seq<char>| c1.contains_key(k) implies c1[k] == zlib_of(
            #[trigger] u1[k],
        ) by {
            if k != objs.last().0 {
                assert(c1[k] == insert_all(mc, od)[k]);
                assert(u1[k] == insert_all(mu, pd)[k]);
            }
        }
        assert(forall|k: Seq<char>| c1.contains_key(k) <==> u1.contains_key(k));
    }
}

/// The snapshot round trip: writing a well-formed directory into an empty
/// store and reading its tree id back restores exactly the files walked
/// in, byte for byte and filemode for filemode — provided the snapshot's
/// digests do not collide. The store a snapshot leaves is
/// `insert_all(old, dir_objects(..))` by `write_tree`'s contract, and
/// `read_tree` follows `spec_read_tree` over any uncompressed view, so
/// this pins the behaviour of writing and then reading back.
pub proof fn lemma_snapshot_round_trip(
    d: FsDir,
    ignores: Seq<Seq<char>>,
    base: Seq<char>,
    fuel: nat,
)
    requires
        pairs_consistent(dir_objects_plain(d, ignores, base)),
        dir_ok(d, ignores, base),
        sha1_of(encode_bytes(OgitObjectType::Tree, dir_payload(d, ignores, base))).len() == 20,
        fuel >= dir_depth(d) + 1,
    ensures
        ({
            let c = insert_all(
                Map::<Seq<char>, Seq<u8>>::empty(),
                dir_objects(d, ignores, base),
            );
            let u = insert_all(
                Map::<Seq<char>, Seq<u8>>::empty(),
                dir_objects_plain(d, ignores, base),
            );
            &&& compressed_matches(c, u)
            &&& spec_get_tree(u, dir_id(d, ignores, base), base, fuel) == Ok::<
                Seq<(Seq<char>, Seq<char>, Seq<char>)>,
                OgitError,
            >(dir_rows_suffix(d, ignores, base, 0))
            &&& restore_rows(u, dir_rows_suffix(d, ignores, base, 0), 0) == Ok::<
                Seq<(Seq<char>, Seq<char>, Seq<u8>)>,
                OgitError,
            >(files_of(d, ignores, base))
        }),
{
    let plain = dir_objects_plain(d, ignores, base);
    let objs = dir_objects(d, ignores, base);
    let u = insert_all(Map::<Seq<char>, Seq<u8>>::empty(), plain);
    lemma_insert_all_covers(Map::<Seq<char>, Seq<u8>>::empty(), plain);
    assert(zip_zlib(objs, plain)) by {
        lemma_objects_zip_prefix(d, ignores, base, d.entries@.len() as int);
        lemma_zip_zlib_concat(
            dir_objects_prefix(d, ignores, base, d.entries@.len() as int),
            dir_objects_plain_prefix(d, ignores, base, d.entries@.len() as int),
            seq![
                (
                    dir_id(d, ignores, base),
                    zlib_of(encode_bytes(OgitObjectType::Tree, dir_payload(d, ignores, base))),
                ),
            ],
            seq![
                (
                    dir_id(d, ignores, base),
                    encode_bytes(OgitObjectType::Tree, dir_payload(d, ignores, base)),
                ),
            ],
        );
    }
    assert(compressed_matches(
        Map::<Seq<char>, Seq<u8>>::empty(),
        Map::<Seq<char>, Seq<u8>>::empty(),
    ));
    lemma_insert_all_zip(
        Map::<Seq<char>, Seq<u8>>::empty(),
        Map::<Seq<char>, Seq<u8>>::empty(),
        objs,
        plain,
    );
    lemma_read_tree_correct(u, d, ignores, base, fuel);
    lemma_covers_prefix_part(u, d, ignores, base);
    lemma_rows_files_linked_dir(u, d, ignores, base, 0);
    lemma_restore_linked(
        u,
        dir_rows_suffix(d, ignores, base, 0),
        dir_files_suffix(d, ignores, base, 0),
        0,
    );
    assert(dir_files_suffix(d, ignores, base, 0).skip(0) =~= files_of(d, ignores, base));
}

} // verus!
