//! The porcelain operations: snapshot-commit the working directory under a
//! linear HEAD, and restore the working directory from a commit. HEAD is
//! the only thing these rewrite; objects are only ever added.

use crate::commits::{
    commit_payload, decode_commit, matches_commit, offset_wf, Timestamp,
};
use crate::objects::{decode_object, encode_bytes, id_chars, OgitError, OgitObject, OgitObjectType};
use crate::store::ObjectStore;
use crate::text::hex_of;
use crate::tree::{
    compressed_matches, dir_id, dir_objects, dir_payload, files_match, insert_all, spec_read_tree,
    store_fuel, write_tree, FsDir, RestoreFile,
};
use crate::trusted::{sha1_of, zlib_of};
use vstd::prelude::*;
use vstd::string::StrSliceExecFns;
use vstd::string::StringExecFns;
use vstd::utf8::encode_utf8;

verus! {

/// The parent list a commit gets from the current HEAD: none when HEAD is
/// unset or empty, else exactly the one id HEAD names.
pub open spec fn head_parents(h: Option<Seq<char>>) -> Seq<Seq<char>> {
    match h {
        Some(s) => if s.len() > 0 {
            seq![s]
        } else {
            Seq::empty()
        },
        None => Seq::empty(),
    }
}

/// Snapshots the working directory, writes a commit whose single parent is
/// the current HEAD (none for the first commit), and points HEAD at the
/// new commit. The new commit's payload, parents, and id are functions of
/// the directory content, the ignore patterns, HEAD, and the handed-in
/// identity and moment; success is owed.
pub fn commit(
    store: &mut ObjectStore,
    dir: &FsDir,
    ignores: &Vec<String>,
    message: &str,
    author: &str,
    committer: &str,
    time: &Timestamp,
) -> (r: Result<OgitObject, OgitError>)
    requires
        offset_wf(time.offset),
    ensures
        ({
            let igv = ignores@.map_values(|s: String| s@);
            let tid = dir_id(*dir, igv, seq!['.']);
            let parents = head_parents(old(store).head_chars());
            let payload = commit_payload(
                tid,
                parents,
                author@,
                committer@,
                *time,
                encode_utf8(message@),
            );
            &&& r matches Ok(o)
            &&& r matches Ok(o) ==> {
                &&& o.wf()
                &&& o.variant == OgitObjectType::Commit
                &&& o.data@ == payload
                &&& o.spec_id() == sha1_of(encode_bytes(OgitObjectType::Commit, payload))
                &&& final(store).head_chars() == Some(id_chars(OgitObjectType::Commit, payload))
                &&& id_chars(OgitObjectType::Commit, payload).len() == 40
                &&& final(store).objects() == insert_all(
                    old(store).objects(),
                    dir_objects(*dir, igv, seq!['.']),
                ).insert(
                    id_chars(OgitObjectType::Commit, payload),
                    zlib_of(encode_bytes(OgitObjectType::Commit, payload)),
                )
            }
        }),
{
    let ghost igv = ignores@.map_values(|s: String| s@);
    let tree_obj = write_tree(store, dir, ignores);
    let tree_id = tree_obj.hex_string();
    proof {
        assert(tree_id@ == dir_id(*dir, igv, seq!['.']));
    }
    let mut parents: Vec<String> = Vec::new();
    match store.head_id() {
        Some(h) => {
            if !h.as_str().is_empty() {
                parents.push(h);
            }
        },
        None => {},
    }
    proof {
        assert(parents@.map_values(|s: String| s@) =~= head_parents(old(store).head_chars()));
    }
    let commit_obj = match crate::commits::commit_tree(
        store,
        tree_id.as_str(),
        &parents,
        message,
        author,
        committer,
        time,
    ) {
        Ok(o) => o,
        Err(e) => {
            proof {
                let payload = dir_payload(*dir, igv, seq!['.']);
                let objs = dir_objects(*dir, igv, seq!['.']);
                let m1 = insert_all(old(store).objects(), objs);
                assert(objs.last() == (
                    dir_id(*dir, igv, seq!['.']),
                    zlib_of(encode_bytes(OgitObjectType::Tree, payload)),
                ));
                assert(objs.len() >= 1);
                assert(m1 == insert_all(old(store).objects(), objs.drop_last()).insert(
                    objs.last().0,
                    objs.last().1,
                ));
                assert(m1.contains_key(tree_id@));
                assert(m1[tree_id@] == zlib_of(encode_bytes(OgitObjectType::Tree, payload)));
                crate::objects::lemma_decode_encode(OgitObjectType::Tree, payload);
                assert(crate::commits::tree_gate(
                    encode_bytes(OgitObjectType::Tree, payload),
                    Err::<OgitObject, OgitError>(e),
                ));
                assert(false);
            }
            return Err(e);
        },
    };
    let id = commit_obj.hex_string();
    proof {
        crate::text::lemma_hex_of_len(commit_obj.spec_id());
    }
    store.set_head(id);
    Ok(commit_obj)
}

/// What restoring from a commit yields over an uncompressed view of the
/// store: resolve the commit, require its tree to be stored as a tree,
/// then read that tree out.
pub open spec fn spec_checkout(u: Map<Seq<char>, Seq<u8>>, cid: Seq<char>, fuel: nat) -> Result<
    Seq<(Seq<char>, Seq<char>, Seq<u8>)>,
    OgitError,
> {
    if !u.contains_key(cid) {
        Err(OgitError::NotFound)
    } else {
        match decode_object(u[cid]) {
            None => Err(OgitError::InvalidObject),
            Some((v, p)) => {
                if v != OgitObjectType::Commit {
                    Err(
                        OgitError::ObjectTypeMismatch { expected: OgitObjectType::Commit, got: v },
                    )
                } else {
                    match decode_commit(p) {
                        None => Err(OgitError::MalformedCommit),
                        Some(cv) => {
                            if !u.contains_key(cv.tree) {
                                Err(OgitError::NotFound)
                            } else {
                                match decode_object(u[cv.tree]) {
                                    None => Err(OgitError::InvalidObject),
                                    Some((v2, p2)) => {
                                        if v2 != OgitObjectType::Tree {
                                            Err(
                                                OgitError::ObjectTypeMismatch {
                                                    expected: OgitObjectType::Tree,
                                                    got: v2,
                                                },
                                            )
                                        } else {
                                            spec_read_tree(u, cv.tree, fuel)
                                        }
                                    },
                                }
                            }
                        },
                    }
                }
            },
        }
    }
}

/// Restores the working directory files named by a commit's tree and then,
/// and only then, points HEAD at that commit. On any failure nothing
/// changes. Writing the returned files to disk is the callers' affair, to
/// be done before HEAD is persisted.
pub fn checkout(store: &mut ObjectStore, commit_id: &str) -> (r: Result<Vec<RestoreFile>, OgitError>)
    ensures
        r is Err ==> *final(store) == *old(store),
        r is Ok ==> final(store).objects() == old(store).objects() && final(store).head_chars()
            == Some(commit_id@),
        forall|u: Map<Seq<char>, Seq<u8>>|
            compressed_matches(old(store).objects(), u) ==> match spec_checkout(
                u,
                commit_id@,
                store_fuel(*old(store)),
            ) {
                Ok(rs) => r matches Ok(fs) && files_match(fs@, rs),
                Err(e) => r == Err::<Vec<RestoreFile>, OgitError>(e),
            },
{
    let commit = match crate::commits::OgitCommit::get(&*store, commit_id) {
        Ok(c) => c,
        Err(e) => {
            proof {
                assert forall|u: Map<Seq<char>, Seq<u8>>|
                    compressed_matches(store.objects(), u) implies match spec_checkout(
                    u,
                    commit_id@,
                    store_fuel(*store),
                ) {
                    Ok(rs) => Err::<Vec<RestoreFile>, OgitError>(e) matches Ok(fs) && files_match(
                        fs@,
                        rs,
                    ),
                    Err(e2) => Err::<Vec<RestoreFile>, OgitError>(e) == Err::<
                        Vec<RestoreFile>,
                        OgitError,
                    >(e2),
                } by {
                    if u.contains_key(commit_id@) {
                        assert(store.objects()[commit_id@] == zlib_of(u[commit_id@]));
                        assert(matches_commit(
                            u[commit_id@],
                            Err::<crate::commits::OgitCommit, OgitError>(e),
                        ));
                    }
                }
            }
            return Err(e);
        },
    };
    let tree_id = commit.tree;
    match store.get_object(tree_id.as_str(), Some(OgitObjectType::Tree)) {
        Ok(_) => {},
        Err(e) => {
            proof {
                assert forall|u: Map<Seq<char>, Seq<u8>>|
                    compressed_matches(store.objects(), u) implies match spec_checkout(
                    u,
                    commit_id@,
                    store_fuel(*store),
                ) {
                    Ok(rs) => Err::<Vec<RestoreFile>, OgitError>(e) matches Ok(fs) && files_match(
                        fs@,
                        rs,
                    ),
                    Err(e2) => Err::<Vec<RestoreFile>, OgitError>(e) == Err::<
                        Vec<RestoreFile>,
                        OgitError,
                    >(e2),
                } by {
                    assert(store.objects()[commit_id@] == zlib_of(u[commit_id@]));
                    if u.contains_key(tree_id@) {
                        assert(store.objects()[tree_id@] == zlib_of(u[tree_id@]));
                    }
                }
            }
            return Err(e);
        },
    }
    let files = match crate::tree::read_tree(&*store, tree_id.as_str()) {
        Ok(v) => v,
        Err(e) => {
            proof {
                assert forall|u: Map<Seq<char>, Seq<u8>>|
                    compressed_matches(store.objects(), u) implies match spec_checkout(
                    u,
                    commit_id@,
                    store_fuel(*store),
                ) {
                    Ok(rs) => Err::<Vec<RestoreFile>, OgitError>(e) matches Ok(fs) && files_match(
                        fs@,
                        rs,
                    ),
                    Err(e2) => Err::<Vec<RestoreFile>, OgitError>(e) == Err::<
                        Vec<RestoreFile>,
                        OgitError,
                    >(e2),
                } by {
                    assert(store.objects()[commit_id@] == zlib_of(u[commit_id@]));
                    assert(store.objects()[tree_id@] == zlib_of(u[tree_id@]));
                }
            }
            return Err(e);
        },
    };
    proof {
        assert forall|u: Map<Seq<char>, Seq<u8>>|
            compressed_matches(store.objects(), u) implies match spec_checkout(
            u,
            commit_id@,
            store_fuel(*store),
        ) {
            Ok(rs) => Ok::<Vec<RestoreFile>, OgitError>(files) matches Ok(fs) && files_match(
                fs@,
                rs,
            ),
            Err(e2) => Ok::<Vec<RestoreFile>, OgitError>(files) == Err::<
                Vec<RestoreFile>,
                OgitError,
            >(e2),
        } by {
            assert(store.objects()[commit_id@] == zlib_of(u[commit_id@]));
            assert(store.objects()[tree_id@] == zlib_of(u[tree_id@]));
        }
    }
    store.set_head(commit_id.to_owned());
    Ok(files)
}


/// The linear HEAD state machine over commits: the first commit, made with
/// HEAD unset, gets no parents; a commit made with HEAD at some id gets
/// exactly that one id as parent. Together with `commit`'s own contract —
/// HEAD equals the new commit's id afterwards — the history is one line.
pub proof fn lemma_linear_history(h: Seq<char>)
    requires
        h.len() > 0,
    ensures
        head_parents(None) == Seq::<Seq<char>>::empty(),
        head_parents(Some(h)) == seq![h],
{
}

} // verus!
