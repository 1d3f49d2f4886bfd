//! Commit metadata and its canonical text payload: one `tree` line, one
//! `parent` line per parent in order, `author` and `committer` lines with
//! epoch seconds and a fixed-width UTC offset, a blank line, then the
//! message bytes with trailing whitespace trimmed and one final newline.

use crate::objects::{decode_object, OgitError, OgitObjectType};
use crate::store::ObjectStore;
use crate::trusted::zlib_of;
use crate::text::{
    bytes_eq, dec_bytes_of, dec_bytes_of_int, find_byte, is_ws, lemma_find_byte_properties,
    parse_i64, spec_parse_i64, spec_tokens, tokenize,
};
use crate::trusted::string_from_utf8;
use vstd::prelude::*;
use vstd::utf8::{decode_utf8, valid_utf8};

verus! {

/// A fixed-width UTC offset `±HHMM`, kept as its sign and two two-digit
/// fields so that rendering it back is exact.
#[derive(Clone, Copy, Debug, PartialEq, Eq, Structural)]
pub struct TzOffset {
    pub negative: bool,
    pub hours: u8,
    pub minutes: u8,
}

/// A well-formed offset keeps its fields in clock range.
pub open spec fn offset_wf(o: TzOffset) -> bool {
    o.hours <= 23 && o.minutes <= 59
}

/// A moment as commit metadata carries it: seconds since the epoch plus the
/// local UTC offset. Acquiring the current moment is the callers' affair.
#[derive(Clone, Copy, Debug, PartialEq, Eq, Structural)]
pub struct Timestamp {
    pub epoch: i64,
    pub offset: TzOffset,
}

/// The five bytes `±HHMM` of an offset.
pub open spec fn offset_bytes(o: TzOffset) -> Seq<u8> {
    seq![
        if o.negative {
            45u8
        } else {
            43u8
        },
        (48 + o.hours / 10) as u8,
        (48 + o.hours % 10) as u8,
        (48 + o.minutes / 10) as u8,
        (48 + o.minutes % 10) as u8,
    ]
}

/// Reads an offset back from five `±HHMM` bytes; `None` otherwise.
pub open spec fn spec_parse_offset(s: Seq<u8>) -> Option<TzOffset> {
    if s.len() == 5 && (s[0] == 43 || s[0] == 45) && 48 <= s[1] <= 57 && 48 <= s[2] <= 57 && 48
        <= s[3] <= 57 && 48 <= s[4] <= 57 {
        let h = (s[1] - 48) * 10 + (s[2] - 48);
        let m = (s[3] - 48) * 10 + (s[4] - 48);
        if h <= 23 && m <= 59 {
            Some(TzOffset { negative: s[0] == 45, hours: h as u8, minutes: m as u8 })
        } else {
            None
        }
    } else {
        None
    }
}

/// A well-formed offset renders and reads back unchanged.
pub proof fn lemma_offset_round_trip(o: TzOffset)
    requires
        offset_wf(o),
    ensures
        spec_parse_offset(offset_bytes(o)) == Some(o),
{
    let s = offset_bytes(o);
    assert(s[1] == 48 + o.hours / 10);
    assert(s[2] == 48 + o.hours % 10);
    assert(s[3] == 48 + o.minutes / 10);
    assert(s[4] == 48 + o.minutes % 10);
    assert((s[1] - 48) * 10 + (s[2] - 48) == o.hours);
    assert((s[3] - 48) * 10 + (s[4] - 48) == o.minutes);
}

fn parse_offset(s: &[u8]) -> (r: Option<TzOffset>)
    ensures
        r == spec_parse_offset(s@),
{
    if s.len() != 5 {
        return None;
    }
    let sign = s[0];
    if sign != 43 && sign != 45 {
        return None;
    }
    let d1 = s[1];
    let d2 = s[2];
    let d3 = s[3];
    let d4 = s[4];
    if d1 < 48 || d1 > 57 || d2 < 48 || d2 > 57 || d3 < 48 || d3 > 57 || d4 < 48 || d4 > 57 {
        return None;
    }
    let h = (d1 - 48) * 10 + (d2 - 48);
    let m = (d3 - 48) * 10 + (d4 - 48);
    if h > 23 || m > 59 {
        return None;
    }
    Some(TzOffset { negative: sign == 45, hours: h, minutes: m })
}

/// Reads an author or committer line body (prefix already removed): at least
/// five whitespace-separated tokens, the first naming the identity, the last
/// two the epoch seconds and the offset.
pub open spec fn spec_parse_signature(line: Seq<u8>) -> Option<(Seq<u8>, Timestamp)> {
    let toks = spec_tokens(line);
    if toks.len() < 5 {
        None
    } else {
        match (spec_parse_i64(toks[toks.len() - 2]), spec_parse_offset(toks[toks.len() - 1])) {
            (Some(e), Some(o)) => Some(
                (toks[0], Timestamp { epoch: e as i64, offset: o }),
            ),
            _ => None,
        }
    }
}

/// Reads the identity token and the timestamp out of a signature line body.
fn parse_signature_bytes(line: &[u8]) -> (r: Option<(Vec<u8>, Timestamp)>)
    ensures
        r matches Some(p) ==> spec_parse_signature(line@) matches Some(q) && p.0@ == q.0 && p.1
            == q.1,
        r is None ==> spec_parse_signature(line@) is None,
{
    let toks = tokenize(line);
    let n = toks.len();
    if n < 5 {
        return None;
    }
    let (ea, eb) = toks[n - 2];
    let epoch = match parse_i64(vstd::slice::slice_subrange(line, ea, eb)) {
        Some(v) => v,
        None => {
            return None;
        },
    };
    let (oa, ob) = toks[n - 1];
    let offset = match parse_offset(vstd::slice::slice_subrange(line, oa, ob)) {
        Some(v) => v,
        None => {
            return None;
        },
    };
    let (ia, ib) = toks[0];
    let ident = vstd::slice::slice_to_vec(vstd::slice::slice_subrange(line, ia, ib));
    Some((ident, Timestamp { epoch, offset }))
}

/// The lines of a byte sequence, split at every newline; a trailing newline
/// yields a final empty line.
pub open spec fn split_lines(data: Seq<u8>) -> Seq<Seq<u8>>
    decreases data.len(),
    via split_lines_decreases
{
    let n = find_byte(data, 10);
    if n == -1 {
        seq![data]
    } else {
        seq![data.take(n)] + split_lines(data.skip(n + 1))
    }
}

#[via_fn]
proof fn split_lines_decreases(data: Seq<u8>) {
    lemma_find_byte_properties(data, 10);
}

/// Rejoins lines with newlines between them.
pub open spec fn join_lines(lines: Seq<Seq<u8>>) -> Seq<u8>
    decreases lines.len(),
{
    if lines.len() == 0 {
        Seq::empty()
    } else if lines.len() == 1 {
        lines[0]
    } else {
        lines[0] + seq![10u8] + join_lines(lines.drop_first())
    }
}

/// Rejoining what was split restores the bytes.
pub proof fn lemma_join_split(data: Seq<u8>)
    ensures
        join_lines(split_lines(data)) == data,
    decreases data.len(),
{
    lemma_find_byte_properties(data, 10);
    let n = find_byte(data, 10);
    if n != -1 {
        lemma_join_split(data.skip(n + 1));
        let rest = split_lines(data.skip(n + 1));
        let all = seq![data.take(n)] + rest;
        assert(rest.len() >= 1);
        assert(all.drop_first() =~= rest);
        assert(all[0] == data.take(n));
        assert(join_lines(all) == data.take(n) + seq![10u8] + join_lines(rest));
        assert(data.take(n) + seq![10u8] + data.skip(n + 1) =~= data);
    }
}

/// Splitting off a first line that holds no newline.
pub proof fn lemma_split_prepend_line(a: Seq<u8>, rest: Seq<u8>)
    requires
        forall|j: int| 0 <= j < a.len() ==> a[j] != 10,
    ensures
        split_lines(a + seq![10u8] + rest) == seq![a] + split_lines(rest),
{
    let s = a + seq![10u8] + rest;
    assert(s[a.len() as int] == 10);
    assert forall|j: int| 0 <= j < a.len() implies s[j] != 10 by {
        assert(s[j] == a[j]);
    }
    crate::text::lemma_find_byte_is(s, 10, a.len() as int);
    assert(s.take(a.len() as int) =~= a);
    assert(s.skip(a.len() as int + 1) =~= rest);
}

/// The line prefixes that structured scanning recognizes.
pub open spec fn tree_prefix() -> Seq<u8> {
    seq![116u8, 114u8, 101u8, 101u8, 32u8]
}

pub open spec fn parent_prefix() -> Seq<u8> {
    seq![112u8, 97u8, 114u8, 101u8, 110u8, 116u8, 32u8]
}

pub open spec fn author_prefix() -> Seq<u8> {
    seq![97u8, 117u8, 116u8, 104u8, 111u8, 114u8, 32u8]
}

pub open spec fn committer_prefix() -> Seq<u8> {
    seq![99u8, 111u8, 109u8, 109u8, 105u8, 116u8, 116u8, 101u8, 114u8, 32u8]
}

/// Whether `s` begins with `p`.
pub open spec fn starts_with(s: Seq<u8>, p: Seq<u8>) -> bool {
    s.len() >= p.len() && s.take(p.len() as int) == p
}

/// The structured fields read out of a commit payload, still as raw bytes.
#[verifier::ext_equal]
pub struct CommitFields {
    pub tree: Seq<u8>,
    pub parents: Seq<Seq<u8>>,
    pub author: Seq<u8>,
    pub committer: Seq<u8>,
    pub message: Seq<u8>,
}

/// The state scanning starts from: everything empty.
pub open spec fn empty_fields() -> CommitFields {
    CommitFields {
        tree: Seq::empty(),
        parents: Seq::empty(),
        author: Seq::empty(),
        committer: Seq::empty(),
        message: Seq::empty(),
    }
}

/// Scans payload lines: recognized prefixes fill their fields (a repeated
/// one supersedes, parents accumulate in order), blank lines are passed
/// over, and the first other line stops the scan — it and everything after
/// it, rejoined with newlines, is the message.
pub open spec fn scan_commit(lines: Seq<Seq<u8>>, acc: CommitFields) -> CommitFields
    decreases lines.len(),
{
    if lines.len() == 0 {
        acc
    } else {
        let line = lines.first();
        let rest = lines.drop_first();
        if starts_with(line, tree_prefix()) {
            scan_commit(
                rest,
                CommitFields {
                    tree: line.skip(5),
                    parents: acc.parents,
                    author: acc.author,
                    committer: acc.committer,
                    message: acc.message,
                },
            )
        } else if starts_with(line, parent_prefix()) {
            scan_commit(
                rest,
                CommitFields {
                    tree: acc.tree,
                    parents: acc.parents.push(line.skip(7)),
                    author: acc.author,
                    committer: acc.committer,
                    message: acc.message,
                },
            )
        } else if starts_with(line, author_prefix()) {
            scan_commit(
                rest,
                CommitFields {
                    tree: acc.tree,
                    parents: acc.parents,
                    author: line.skip(7),
                    committer: acc.committer,
                    message: acc.message,
                },
            )
        } else if starts_with(line, committer_prefix()) {
            scan_commit(
                rest,
                CommitFields {
                    tree: acc.tree,
                    parents: acc.parents,
                    author: acc.author,
                    committer: line.skip(10),
                    message: acc.message,
                },
            )
        } else if line.len() == 0 {
            scan_commit(rest, acc)
        } else {
            CommitFields {
                tree: acc.tree,
                parents: acc.parents,
                author: acc.author,
                committer: acc.committer,
                message: join_lines(lines),
            }
        }
    }
}

/// A commit payload fully decoded: ids and identities as text, moments as
/// timestamps, the message as raw bytes.
pub struct CommitView {
    pub tree: Seq<char>,
    pub parents: Seq<Seq<char>>,
    pub author: Seq<char>,
    pub author_time: Timestamp,
    pub committer: Seq<char>,
    pub committer_time: Timestamp,
    pub message: Seq<u8>,
}

/// Decodes a commit payload: scan the lines, then read both signature
/// lines; fails when a signature does not parse or a text field is not
/// valid UTF-8.
pub open spec fn decode_commit(data: Seq<u8>) -> Option<CommitView> {
    let f = scan_commit(split_lines(data), empty_fields());
    let sa = spec_parse_signature(f.author);
    let sc = spec_parse_signature(f.committer);
    if sa is Some && sc is Some && valid_utf8(f.tree) && valid_utf8(f.author) && valid_utf8(
        f.committer,
    ) && valid_utf8((sa->0).0) && valid_utf8((sc->0).0) && (forall|i: int|
        0 <= i < f.parents.len() ==> valid_utf8(#[trigger] f.parents[i])) {
        Some(
            CommitView {
                tree: decode_utf8(f.tree),
                parents: Seq::new(f.parents.len(), |i: int| decode_utf8(f.parents[i])),
                author: decode_utf8((sa->0).0),
                author_time: (sa->0).1,
                committer: decode_utf8((sc->0).0),
                committer_time: (sc->0).1,
                message: f.message,
            },
        )
    } else {
        None
    }
}

/// Commit metadata as the library hands it out: ids and identities as
/// strings, message as raw bytes.
#[derive(Debug, Clone)]
pub struct OgitCommit {
    pub tree: String,
    pub parents: Vec<String>,
    pub author: String,
    pub author_time: Timestamp,
    pub committer: String,
    pub committer_time: Timestamp,
    pub message: Vec<u8>,
}

/// What an `OgitCommit` value says, for holding it against `decode_commit`.
pub open spec fn commit_view(c: OgitCommit) -> CommitView {
    CommitView {
        tree: c.tree@,
        parents: c.parents@.map_values(|s: String| s@),
        author: c.author@,
        author_time: c.author_time,
        committer: c.committer@,
        committer_time: c.committer_time,
        message: c.message@,
    }
}

impl OgitCommit {
    /// Reads the timestamp out of a signature line body such as
    /// `"A U Thor <a@t> 1700000000 +0130"`: the last two tokens. Fails with
    /// `MalformedCommit` when the line has fewer than five tokens or they do
    /// not parse.
    pub fn get_epoch_offset_from_line(line: &str) -> (r: Result<Timestamp, OgitError>)
        ensures
            r matches Ok(t) ==> spec_parse_signature(vstd::string::StringSliceAdditionalSpecFns::spec_bytes(line)) matches Some(p)
                && p.1 == t,
            r is Err ==> r == Err::<Timestamp, OgitError>(OgitError::MalformedCommit)
                && spec_parse_signature(vstd::string::StringSliceAdditionalSpecFns::spec_bytes(line)) is None,
    {
        match parse_signature_bytes(line.as_bytes()) {
            Some(p) => Ok(p.1),
            None => Err(OgitError::MalformedCommit),
        }
    }

    /// Builds commit metadata from already-separated pieces: the tree id,
    /// the parent ids, the two signature line bodies, and the raw message.
    /// The identity kept for each signature is its first token. Fails with
    /// `MalformedCommit` exactly when a signature line does not parse or its
    /// identity token is not valid UTF-8.
    pub fn new(
        tree: String,
        parents: Vec<String>,
        author: &str,
        committer: &str,
        message: Vec<u8>,
    ) -> (r: Result<OgitCommit, OgitError>)
        ensures
            ({
                let ab = vstd::string::StringSliceAdditionalSpecFns::spec_bytes(author);
                let cb = vstd::string::StringSliceAdditionalSpecFns::spec_bytes(committer);
                match r {
                    Ok(c) => {
                        &&& spec_parse_signature(ab) matches Some(a) && valid_utf8(a.0)
                            && c.author@ == decode_utf8(a.0) && c.author_time == a.1
                        &&& spec_parse_signature(cb) matches Some(k) && valid_utf8(k.0)
                            && c.committer@ == decode_utf8(k.0) && c.committer_time == k.1
                        &&& c.tree == tree
                        &&& c.parents == parents
                        &&& c.message == message
                    },
                    Err(e) => {
                        &&& e == OgitError::MalformedCommit
                        &&& !({
                            &&& spec_parse_signature(ab) matches Some(a) && valid_utf8(a.0)
                            &&& spec_parse_signature(cb) matches Some(k) && valid_utf8(k.0)
                        })
                    },
                }
            }),
    {
        let (aid, author_time) = match parse_signature_bytes(author.as_bytes()) {
            Some(p) => p,
            None => {
                return Err(OgitError::MalformedCommit);
            },
        };
        let (cid, committer_time) = match parse_signature_bytes(committer.as_bytes()) {
            Some(p) => p,
            None => {
                return Err(OgitError::MalformedCommit);
            },
        };
        let author_name = match string_from_utf8(aid) {
            Some(s) => s,
            None => {
                return Err(OgitError::MalformedCommit);
            },
        };
        let committer_name = match string_from_utf8(cid) {
            Some(s) => s,
            None => {
                return Err(OgitError::MalformedCommit);
            },
        };
        Ok(
            OgitCommit {
                tree,
                parents,
                author: author_name,
                author_time,
                committer: committer_name,
                committer_time,
                message,
            },
        )
    }
}


/// What retrieval of a commit owes when the stored object's uncompressed
/// content is `content`.
pub open spec fn matches_commit(content: Seq<u8>, r: Result<OgitCommit, OgitError>) -> bool {
    match decode_object(content) {
        None => r == Err::<OgitCommit, OgitError>(OgitError::InvalidObject),
        Some((v, p)) => {
            if v != OgitObjectType::Commit {
                r == Err::<OgitCommit, OgitError>(
                    OgitError::ObjectTypeMismatch { expected: OgitObjectType::Commit, got: v },
                )
            } else {
                match decode_commit(p) {
                    None => r == Err::<OgitCommit, OgitError>(OgitError::MalformedCommit),
                    Some(cv) => r matches Ok(k) && commit_view(k) == cv,
                }
            }
        },
    }
}

fn starts_with_bytes(s: &[u8], p: &[u8]) -> (r: bool)
    ensures
        r == starts_with(s@, p@),
{
    if s.len() < p.len() {
        return false;
    }
    let r = bytes_eq(vstd::slice::slice_subrange(s, 0, p.len()), p);
    proof {
        assert(s@.subrange(0, p@.len() as int) =~= s@.take(p@.len() as int));
    }
    r
}

/// Scans a commit payload into its raw structured fields, as `scan_commit`
/// over the payload's lines describes.
fn scan_payload(data: &[u8]) -> (r: (Vec<u8>, Vec<Vec<u8>>, Vec<u8>, Vec<u8>, Vec<u8>))
    ensures
        ({
            let f = scan_commit(split_lines(data@), empty_fields());
            &&& r.0@ == f.tree
            &&& r.1@.map_values(|v: Vec<u8>| v@) == f.parents
            &&& r.2@ == f.author
            &&& r.3@ == f.committer
            &&& r.4@ == f.message
        }),
{
    let n = data.len();
    let mut pos: usize = 0;
    let mut tree: Vec<u8> = Vec::new();
    let mut parents: Vec<Vec<u8>> = Vec::new();
    let mut author: Vec<u8> = Vec::new();
    let mut committer: Vec<u8> = Vec::new();
    let mut message: Vec<u8> = Vec::new();
    let ghost full = scan_commit(split_lines(data@), empty_fields());
    let tp: [u8; 5] = [116, 114, 101, 101, 32];
    let pp: [u8; 7] = [112, 97, 114, 101, 110, 116, 32];
    let ap: [u8; 7] = [97, 117, 116, 104, 111, 114, 32];
    let cp: [u8; 10] = [99, 111, 109, 109, 105, 116, 116, 101, 114, 32];
    proof {
        assert(tp@ =~= tree_prefix());
        assert(pp@ =~= parent_prefix());
        assert(ap@ =~= author_prefix());
        assert(cp@ =~= committer_prefix());
        assert(data@.skip(0) =~= data@);
        assert(parents@.map_values(|v: Vec<u8>| v@) =~= Seq::<Seq<u8>>::empty());
    }
    loop
        invariant_except_break
            full == scan_commit(
                split_lines(data@.skip(pos as int)),
                CommitFields {
                    tree: tree@,
                    parents: parents@.map_values(|v: Vec<u8>| v@),
                    author: author@,
                    committer: committer@,
                    message: message@,
                },
            ),
        invariant
            pos <= n,
            n == data@.len(),
            tp@ == tree_prefix(),
            pp@ == parent_prefix(),
            ap@ == author_prefix(),
            cp@ == committer_prefix(),
        ensures
            full == (CommitFields {
                tree: tree@,
                parents: parents@.map_values(|v: Vec<u8>| v@),
                author: author@,
                committer: committer@,
                message: message@,
            }),
        decreases n - pos,
    {
        let ghost rem = data@.skip(pos as int);
        let ghost acc = CommitFields {
            tree: tree@,
            parents: parents@.map_values(|v: Vec<u8>| v@),
            author: author@,
            committer: committer@,
            message: message@,
        };
        let tail = vstd::slice::slice_subrange(data, pos, n);
        proof {
            assert(tail@ =~= rem);
        }
        let nl = crate::text::find_byte_in(tail, 10);
        let (line_end, has_nl): (usize, bool) = match nl {
            Some(k) => (pos + k, true),
            None => (n, false),
        };
        let line = vstd::slice::slice_subrange(data, pos, line_end);
        let ghost rest_lines: Seq<Seq<u8>> = if has_nl {
            split_lines(data@.skip(line_end + 1))
        } else {
            Seq::empty()
        };
        proof {
            if has_nl {
                let k = line_end - pos;
                assert(rem.take(k as int) =~= line@);
                assert(rem.skip(k + 1) =~= data@.skip(line_end + 1));
                assert(split_lines(rem) == seq![line@] + split_lines(data@.skip(line_end + 1)));
            } else {
                assert(rem =~= line@);
                assert(split_lines(rem) == seq![line@]);
            }
            assert(split_lines(rem).first() == line@);
            assert(split_lines(rem).drop_first() =~= rest_lines);
        }
        if starts_with_bytes(line, tp.as_slice()) {
            tree = vstd::slice::slice_to_vec(
                vstd::slice::slice_subrange(line, 5, line.len()),
            );
            proof {
                assert(tree@ =~= line@.skip(5));
            }
        } else if starts_with_bytes(line, pp.as_slice()) {
            let p = vstd::slice::slice_to_vec(
                vstd::slice::slice_subrange(line, 7, line.len()),
            );
            proof {
                assert(p@ =~= line@.skip(7));
                assert(parents@.push(p).map_values(|v: Vec<u8>| v@) =~= parents@.map_values(
                    |v: Vec<u8>| v@,
                ).push(line@.skip(7)));
            }
            parents.push(p);
        } else if starts_with_bytes(line, ap.as_slice()) {
            author = vstd::slice::slice_to_vec(
                vstd::slice::slice_subrange(line, 7, line.len()),
            );
            proof {
                assert(author@ =~= line@.skip(7));
            }
        } else if starts_with_bytes(line, cp.as_slice()) {
            committer = vstd::slice::slice_to_vec(
                vstd::slice::slice_subrange(line, 10, line.len()),
            );
            proof {
                assert(committer@ =~= line@.skip(10));
            }
        } else if line.len() == 0 {
        } else {
            message = vstd::slice::slice_to_vec(tail);
            proof {
                lemma_join_split(rem);
                assert(message@ == join_lines(split_lines(rem)));
            }
            break;
        }
        if has_nl {
            pos = line_end + 1;
        } else {
            proof {
                let acc2 = CommitFields {
                    tree: tree@,
                    parents: parents@.map_values(|v: Vec<u8>| v@),
                    author: author@,
                    committer: committer@,
                    message: message@,
                };
                assert(scan_commit(rest_lines, acc2) == acc2);
                assert(full == acc2);
            }
            break;
        }
    }
    (tree, parents, author, committer, message)
}

impl OgitCommit {
    /// Decodes a commit payload into metadata, as `decode_commit` describes;
    /// fails with `MalformedCommit` exactly when that decoding fails.
    pub fn decode_payload(data: &[u8]) -> (r: Result<OgitCommit, OgitError>)
        ensures
            r matches Ok(k) ==> decode_commit(data@) == Some(commit_view(k)),
            r is Err ==> r == Err::<OgitCommit, OgitError>(OgitError::MalformedCommit)
                && decode_commit(data@) is None,
    {
        let (tree_b, parents_b, author_b, committer_b, message_b) = scan_payload(data);
        let ghost f = scan_commit(split_lines(data@), empty_fields());
        let author_s = match string_from_utf8(author_b) {
            Some(s) => s,
            None => {
                return Err(OgitError::MalformedCommit);
            },
        };
        let committer_s = match string_from_utf8(committer_b) {
            Some(s) => s,
            None => {
                return Err(OgitError::MalformedCommit);
            },
        };
        let tree_s = match string_from_utf8(tree_b) {
            Some(s) => s,
            None => {
                return Err(OgitError::MalformedCommit);
            },
        };
        let mut parent_strs: Vec<String> = Vec::new();
        let np = parents_b.len();
        let mut i: usize = 0;
        while i < np
            invariant
                i <= np,
                np == parents_b@.len(),
                f == scan_commit(split_lines(data@), empty_fields()),
                parents_b@.map_values(|v: Vec<u8>| v@) == f.parents,
                parent_strs@.len() == i,
                forall|j: int|
                    0 <= j < i ==> valid_utf8(#[trigger] f.parents[j]) && parent_strs@[j]@
                        == decode_utf8(f.parents[j]),
            decreases np - i,
        {
            let pb = clone_byte_vec(&parents_b[i]);
            proof {
                assert(parents_b@.map_values(|v: Vec<u8>| v@)[i as int] == parents_b@[i as int]@);
            }
            let ghost pview = pb@;
            match string_from_utf8(pb) {
                Some(s) => {
                    parent_strs.push(s);
                },
                None => {
                    proof {
                        assert(np == f.parents.len());
                        assert(!valid_utf8(pview));
                        assert(pview == f.parents[i as int]);
                        assert(!valid_utf8(f.parents[i as int]));
                        lemma_decode_none_invalid_parent(data@, i as int);
                    }
                    return Err(OgitError::MalformedCommit);
                },
            }
            i = i + 1;
        }
        match Self::new(tree_s, parent_strs, author_s.as_str(), committer_s.as_str(), message_b) {
            Ok(c) => {
                proof {
                    lemma_encode_decode_bytes(f.author);
                    lemma_encode_decode_bytes(f.committer);
                    assert(decode_commit(data@) is Some);
                    let cv = decode_commit(data@).unwrap();
                    assert(commit_view(c).parents =~= cv.parents);
                    assert(commit_view(c) =~= cv);
                }
                Ok(c)
            },
            Err(_) => {
                proof {
                    lemma_encode_decode_bytes(f.author);
                    lemma_encode_decode_bytes(f.committer);
                }
                Err(OgitError::MalformedCommit)
            },
        }
    }

    /// Fetches the object stored under `id`, requires it to be a commit,
    /// and decodes its payload.
    pub fn get(store: &ObjectStore, id: &str) -> (r: Result<OgitCommit, OgitError>)
        ensures
            (r == Err::<OgitCommit, OgitError>(OgitError::NotFound)) <==> !store.objects()
                .contains_key(id@),
            forall|c: Seq<u8>|
                store.objects().contains_key(id@) && store.objects()[id@] == zlib_of(c)
                    ==> matches_commit(c, r),
    {
        let object = match store.get_object(id, Some(OgitObjectType::Commit)) {
            Ok(o) => o,
            Err(e) => {
                return Err(e);
            },
        };
        match Self::decode_payload(object.data.as_slice()) {
            Ok(c) => Ok(c),
            Err(e) => Err(e),
        }
    }
}

/// Encoding a string and decoding the bytes again is the identity; stated
/// here once over the vstd UTF-8 model for the proofs above.
proof fn lemma_encode_decode_bytes(b: Seq<u8>)
    ensures
        valid_utf8(b) ==> vstd::utf8::encode_utf8(decode_utf8(b)) == b,
{
    if valid_utf8(b) {
        vstd::utf8::decode_utf8_encode_utf8(b);
    }
}

fn clone_byte_vec(v: &Vec<u8>) -> (r: Vec<u8>)
    ensures
        r@ == v@,
{
    let mut r: Vec<u8> = Vec::new();
    r.extend_from_slice(v.as_slice());
    proof {
        assert(r@ =~= v@);
    }
    r
}


proof fn lemma_decode_none_invalid_parent(data: Seq<u8>, i: int)
    requires
        ({
            let f = scan_commit(split_lines(data), empty_fields());
            0 <= i < f.parents.len() && !valid_utf8(f.parents[i])
        }),
    ensures
        decode_commit(data) is None,
{
}


/// An author or committer line: prefix, identity text, a space, epoch
/// seconds, a space, the `±HHMM` offset, and a newline.
pub open spec fn signature_line(prefix: Seq<u8>, who: Seq<char>, t: Timestamp) -> Seq<u8> {
    prefix + vstd::utf8::encode_utf8(who) + seq![32u8] + dec_bytes_of_int(t.epoch as int) + seq![
        32u8,
    ] + offset_bytes(t.offset) + seq![10u8]
}

/// One `parent` line per parent id, in the given order.
pub open spec fn parent_lines(parents: Seq<Seq<char>>) -> Seq<u8>
    decreases parents.len(),
{
    if parents.len() == 0 {
        Seq::empty()
    } else {
        parent_prefix() + vstd::utf8::encode_utf8(parents.first()) + seq![10u8] + parent_lines(
            parents.drop_first(),
        )
    }
}

pub proof fn lemma_parent_lines_push(ps: Seq<Seq<char>>, x: Seq<char>)
    ensures
        parent_lines(ps.push(x)) =~= parent_lines(ps) + parent_prefix() + vstd::utf8::encode_utf8(
            x,
        ) + seq![10u8],
    decreases ps.len(),
{
    if ps.len() == 0 {
        assert(ps.push(x).first() == x);
        assert(ps.push(x).drop_first() =~= Seq::<Seq<char>>::empty());
        assert(parent_lines(Seq::<Seq<char>>::empty()) =~= Seq::<u8>::empty());
    } else {
        assert(ps.push(x).first() == ps.first());
        assert(ps.push(x).drop_first() =~= ps.drop_first().push(x));
        lemma_parent_lines_push(ps.drop_first(), x);
        assert(parent_lines(ps.push(x)) =~= parent_prefix() + vstd::utf8::encode_utf8(ps.first())
            + seq![10u8] + parent_lines(ps.drop_first().push(x)));
        assert(parent_lines(ps) =~= parent_prefix() + vstd::utf8::encode_utf8(ps.first())
            + seq![10u8] + parent_lines(ps.drop_first()));
    }
}

/// The message with its trailing whitespace removed.
pub open spec fn trim_end_ws(s: Seq<u8>) -> Seq<u8>
    decreases s.len(),
{
    if s.len() == 0 {
        s
    } else if is_ws(s.last()) {
        trim_end_ws(s.drop_last())
    } else {
        s
    }
}

/// Trimming cuts exactly at the last non-whitespace byte.
pub proof fn lemma_trim_at(s: Seq<u8>, k: int)
    requires
        0 <= k <= s.len(),
        k == 0 || !is_ws(s[k - 1]),
        forall|l: int| k <= l < s.len() ==> is_ws(s[l]),
    ensures
        trim_end_ws(s) =~= s.take(k),
    decreases s.len(),
{
    if s.len() == 0 {
    } else if k == s.len() {
        assert(!is_ws(s.last()));
        assert(s.take(k) =~= s);
    } else {
        assert(is_ws(s.last()));
        let d = s.drop_last();
        assert forall|l: int| k <= l < d.len() implies is_ws(d[l]) by {
            assert(d[l] == s[l]);
        }
        if k > 0 {
            assert(d[k - 1] == s[k - 1]);
        }
        lemma_trim_at(d, k);
        assert(d.take(k) =~= s.take(k));
    }
}

/// The whole canonical commit payload for one moment in time: the tree
/// line, the parent lines, author and committer lines, a blank line, then
/// the message trimmed of trailing whitespace with one final newline.
pub open spec fn commit_payload(
    tree_id: Seq<char>,
    parents: Seq<Seq<char>>,
    author: Seq<char>,
    committer: Seq<char>,
    t: Timestamp,
    message: Seq<u8>,
) -> Seq<u8> {
    tree_prefix() + vstd::utf8::encode_utf8(tree_id) + seq![10u8] + parent_lines(parents)
        + signature_line(author_prefix(), author, t) + signature_line(committer_prefix(), committer, t)
        + seq![10u8] + trim_end_ws(message) + seq![10u8]
}

fn push_offset(out: &mut Vec<u8>, o: TzOffset)
    requires
        offset_wf(o),
    ensures
        final(out)@ == old(out)@ + offset_bytes(o),
{
    if o.negative {
        out.push(45);
    } else {
        out.push(43);
    }
    out.push(48 + o.hours / 10);
    out.push(48 + o.hours % 10);
    out.push(48 + o.minutes / 10);
    out.push(48 + o.minutes % 10);
    proof {
        assert(out@ =~= old(out)@ + offset_bytes(o));
    }
}

fn push_signature_line(out: &mut Vec<u8>, prefix: &[u8], who: &str, t: &Timestamp)
    requires
        offset_wf(t.offset),
    ensures
        final(out)@ == old(out)@ + signature_line(prefix@, who@, *t),
{
    out.extend_from_slice(prefix);
    out.extend_from_slice(who.as_bytes());
    out.push(32);
    crate::text::push_dec_bytes_i64(out, t.epoch);
    out.push(32);
    push_offset(out, t.offset);
    out.push(10);
    proof {
        assert(out@ =~= old(out)@ + signature_line(prefix@, who@, *t));
    }
}

/// What creating a commit owes when the tree object's stored (compressed)
/// content decompresses to `c`: the recorded object must really be a tree.
pub open spec fn tree_gate(c: Seq<u8>, r: Result<crate::objects::OgitObject, OgitError>) -> bool {
    match decode_object(c) {
        None => r == Err::<crate::objects::OgitObject, OgitError>(OgitError::InvalidObject),
        Some((v, p)) => {
            if v != OgitObjectType::Tree {
                r == Err::<crate::objects::OgitObject, OgitError>(
                    OgitError::ObjectTypeMismatch { expected: OgitObjectType::Tree, got: v },
                )
            } else {
                r is Ok
            }
        },
    }
}

/// Encodes commit metadata and stores it: requires the referenced tree to
/// be present as a tree object, then writes the canonical payload under its
/// content hash. HEAD is not touched. Fails without changing the store when
/// the tree id does not resolve to a stored tree.
pub fn commit_tree(
    store: &mut ObjectStore,
    tree_id: &str,
    parents: &Vec<String>,
    message: &str,
    author: &str,
    committer: &str,
    time: &Timestamp,
) -> (r: Result<crate::objects::OgitObject, OgitError>)
    requires
        offset_wf(time.offset),
    ensures
        ({
            let payload = commit_payload(
                tree_id@,
                parents@.map_values(|s: String| s@),
                author@,
                committer@,
                *time,
                vstd::utf8::encode_utf8(message@),
            );
            &&& r matches Ok(o) ==> o.wf() && o.variant == OgitObjectType::Commit && o.data@
                == payload && o.spec_id() == crate::trusted::sha1_of(
                crate::objects::encode_bytes(OgitObjectType::Commit, payload),
            ) && final(store).objects() == old(store).objects().insert(
                crate::objects::id_chars(OgitObjectType::Commit, payload),
                zlib_of(crate::objects::encode_bytes(OgitObjectType::Commit, payload)),
            ) && final(store).head == old(store).head
            &&& r is Err ==> *final(store) == *old(store)
            &&& (r == Err::<crate::objects::OgitObject, OgitError>(OgitError::NotFound)) <==> !old(
                store,
            ).objects().contains_key(tree_id@)
            &&& forall|c: Seq<u8>|
                old(store).objects().contains_key(tree_id@) && old(store).objects()[tree_id@]
                    == zlib_of(c) ==> tree_gate(c, r)
        }),
{
    match store.get_object(tree_id, Some(OgitObjectType::Tree)) {
        Ok(_) => {},
        Err(e) => {
            return Err(e);
        },
    }
    let mut payload: Vec<u8> = Vec::new();
    let tp: [u8; 5] = [116, 114, 101, 101, 32];
    let pp: [u8; 7] = [112, 97, 114, 101, 110, 116, 32];
    let ap: [u8; 7] = [97, 117, 116, 104, 111, 114, 32];
    let cp: [u8; 10] = [99, 111, 109, 109, 105, 116, 116, 101, 114, 32];
    proof {
        assert(tp@ =~= tree_prefix());
        assert(pp@ =~= parent_prefix());
        assert(ap@ =~= author_prefix());
        assert(cp@ =~= committer_prefix());
    }
    payload.extend_from_slice(tp.as_slice());
    payload.extend_from_slice(tree_id.as_bytes());
    payload.push(10);
    let ghost head_part = tree_prefix() + vstd::utf8::encode_utf8(tree_id@) + seq![10u8];
    proof {
        assert(payload@ =~= head_part);
        assert(parents@.take(0).map_values(|s: String| s@) =~= Seq::<Seq<char>>::empty());
        assert(payload@ =~= head_part + parent_lines(parents@.take(0).map_values(|s: String| s@)));
    }
    let np = parents.len();
    let mut i: usize = 0;
    while i < np
        invariant
            i <= np,
            np == parents@.len(),
            pp@ == parent_prefix(),
            payload@ == head_part + parent_lines(parents@.take(i as int).map_values(|s: String| s@)),
        decreases np - i,
    {
        payload.extend_from_slice(pp.as_slice());
        payload.extend_from_slice(parents[i].as_str().as_bytes());
        payload.push(10);
        proof {
            let prev = parents@.take(i as int).map_values(|s: String| s@);
            let cur = parents@.take(i + 1).map_values(|s: String| s@);
            assert(cur =~= prev.push(parents@[i as int]@)) by {
                assert(parents@.take(i + 1) =~= parents@.take(i as int).push(parents@[i as int]));
            }
            lemma_parent_lines_push(prev, parents@[i as int]@);
            assert(payload@ =~= head_part + parent_lines(cur));
        }
        i = i + 1;
    }
    proof {
        assert(parents@.take(np as int) =~= parents@);
    }
    push_signature_line(&mut payload, ap.as_slice(), author, time);
    push_signature_line(&mut payload, cp.as_slice(), committer, time);
    payload.push(10);
    let mb = message.as_bytes();
    let mut k = mb.len();
    while k > 0
        invariant
            k <= mb@.len(),
            forall|l: int| k <= l < mb@.len() ==> is_ws(mb@[l]),
        ensures
            k <= mb@.len(),
            forall|l: int| k <= l < mb@.len() ==> is_ws(mb@[l]),
            k == 0 || !is_ws(mb@[k - 1]),
        decreases k,
    {
        let b = mb[k - 1];
        if b == 9 || b == 10 || b == 11 || b == 12 || b == 13 || b == 32 {
            k = k - 1;
        } else {
            break;
        }
    }
    proof {
        lemma_trim_at(mb@, k as int);
    }
    payload.extend_from_slice(vstd::slice::slice_subrange(mb, 0, k));
    payload.push(10);
    proof {
        assert(payload@ =~= commit_payload(
            tree_id@,
            parents@.map_values(|s: String| s@),
            author@,
            committer@,
            *time,
            vstd::utf8::encode_utf8(message@),
        ));
    }
    let object = store.hash_object(payload.as_slice(), Some(OgitObjectType::Commit));
    Ok(object)
}


/// No byte of the sequence is a newline.
pub open spec fn no_newline(s: Seq<u8>) -> bool {
    forall|i: int| 0 <= i < s.len() ==> #[trigger] s[i] != 10
}

/// Every byte is ASCII.
pub open spec fn all_ascii(s: Seq<u8>) -> bool {
    forall|i: int| 0 <= i < s.len() ==> #[trigger] s[i] < 128
}

/// The first line of a byte sequence.
pub open spec fn first_line(s: Seq<u8>) -> Seq<u8> {
    if find_byte(s, 10) == -1 {
        s
    } else {
        s.take(find_byte(s, 10))
    }
}

/// A sequence of ASCII bytes is valid UTF-8.
proof fn lemma_ascii_bytes_valid(b: Seq<u8>)
    requires
        all_ascii(b),
    ensures
        vstd::utf8::valid_utf8(b),
        vstd::utf8::encode_utf8(decode_utf8(b)) == b,
{
    let cs = Seq::new(b.len(), |i: int| b[i] as char);
    assert(vstd::utf8::is_ascii_chars(cs)) by {
        assert forall|i: int| 0 <= i < cs.len() implies '\0' <= #[trigger] cs[i] <= '\u{7f}' by {
            assert(b[i] < 128);
            assert(cs[i] == b[i] as char);
        }
    }
    vstd::utf8::is_ascii_chars_encode_utf8(cs);
    assert(vstd::utf8::encode_utf8(cs) =~= b);
    vstd::utf8::encode_utf8_valid_utf8(cs);
    vstd::utf8::decode_utf8_encode_utf8(b);
}

/// Splitting off leading whitespace-free bytes followed by whitespace.
proof fn lemma_nonws_prefix(a: Seq<u8>, c: Seq<u8>)
    requires
        c.len() > 0,
        crate::text::is_ws(c.first()),
    ensures
        crate::text::take_nonws(a + c) == crate::text::take_nonws(a),
        crate::text::skip_nonws(a + c) =~= crate::text::skip_nonws(a) + c,
    decreases a.len(),
{
    if a.len() == 0 {
        assert(a + c =~= c);
        assert(crate::text::take_nonws(a) =~= Seq::<u8>::empty());
        assert(crate::text::take_nonws(c) =~= Seq::<u8>::empty());
    } else {
        assert((a + c).first() == a.first());
        if !crate::text::is_ws(a.first()) {
            assert((a + c).drop_first() =~= a.drop_first() + c);
            lemma_nonws_prefix(a.drop_first(), c);
            assert(crate::text::take_nonws(a + c) =~= crate::text::take_nonws(a));
        }
    }
}

/// Tokens across an explicit whitespace separator.
pub proof fn lemma_tokens_sep(a: Seq<u8>, b: Seq<u8>)
    ensures
        spec_tokens(a + seq![32u8] + b) =~= spec_tokens(a) + spec_tokens(b),
    decreases a.len(),
{
    let s = a + seq![32u8] + b;
    if a.len() == 0 {
        assert(s =~= seq![32u8] + b);
        assert((seq![32u8] + b).first() == 32u8);
        assert((seq![32u8] + b).drop_first() =~= b);
        assert(spec_tokens(a) =~= Seq::<Seq<u8>>::empty());
    } else if crate::text::is_ws(a.first()) {
        assert(s.first() == a.first());
        assert(s.drop_first() =~= a.drop_first() + seq![32u8] + b);
        lemma_tokens_sep(a.drop_first(), b);
    } else {
        assert(s.first() == a.first());
        assert(s =~= a + (seq![32u8] + b));
        lemma_nonws_prefix(a, seq![32u8] + b);
        crate::text::lemma_nonws_split(a);
        let sk = crate::text::skip_nonws(a);
        assert(crate::text::skip_nonws(s) =~= sk + (seq![32u8] + b));
        if sk.len() == 0 {
            assert(crate::text::skip_nonws(s) =~= seq![32u8] + b);
            assert(spec_tokens(crate::text::skip_nonws(s)) =~= spec_tokens(b)) by {
                assert((seq![32u8] + b).first() == 32u8);
                assert((seq![32u8] + b).drop_first() =~= b);
            }
            assert(spec_tokens(a) =~= seq![crate::text::take_nonws(a)] + spec_tokens(sk));
            assert(spec_tokens(sk) =~= Seq::<Seq<u8>>::empty());
        } else {
            assert(crate::text::is_ws(sk.first()));
            assert(sk + (seq![32u8] + b) =~= sk + seq![32u8] + b);
            lemma_tokens_sep_from_ws(sk, b);
        }
    }
}

/// Same as `lemma_tokens_sep` for a left part that starts with whitespace.
proof fn lemma_tokens_sep_from_ws(a: Seq<u8>, b: Seq<u8>)
    requires
        a.len() == 0 || crate::text::is_ws(a.first()),
    ensures
        spec_tokens(a + seq![32u8] + b) =~= spec_tokens(a) + spec_tokens(b),
    decreases a.len(),
{
    let s = a + seq![32u8] + b;
    if a.len() == 0 {
        assert(s =~= seq![32u8] + b);
        assert((seq![32u8] + b).first() == 32u8);
        assert((seq![32u8] + b).drop_first() =~= b);
        assert(spec_tokens(a) =~= Seq::<Seq<u8>>::empty());
    } else {
        assert(s.first() == a.first());
        assert(s.drop_first() =~= a.drop_first() + seq![32u8] + b);
        lemma_tokens_sep(a.drop_first(), b);
    }
}

/// A single whitespace-free nonempty token reads as itself.
pub proof fn lemma_tokens_single(s: Seq<u8>)
    requires
        crate::text::token_wf(s),
    ensures
        spec_tokens(s) =~= seq![s],
{
    assert(!crate::text::is_ws(s.first())) by {
        assert(s[0] == s.first());
    }
    crate::text::lemma_nonws_split(s);
    let sk = crate::text::skip_nonws(s);
    assert(sk.len() == 0) by {
        if sk.len() > 0 {
            crate::text::lemma_nonws_split(s);
            assert(crate::text::is_ws(sk.first()));
            let tn = crate::text::take_nonws(s);
            assert(sk.first() == s[tn.len() as int]);
        }
    }
    assert(crate::text::take_nonws(s) =~= s);
    assert(spec_tokens(sk) =~= Seq::<Seq<u8>>::empty());
}

/// Every token of an ASCII sequence is ASCII.
proof fn lemma_tokens_ascii(s: Seq<u8>)
    requires
        all_ascii(s),
    ensures
        forall|k: int| 0 <= k < spec_tokens(s).len() ==> all_ascii(#[trigger] spec_tokens(s)[k]),
    decreases s.len(),
{
    if s.len() == 0 {
    } else if crate::text::is_ws(s.first()) {
        assert(all_ascii(s.drop_first())) by {
            assert(forall|i: int|
                0 <= i < s.drop_first().len() ==> #[trigger] s.drop_first()[i] == s[i + 1]);
        }
        lemma_tokens_ascii(s.drop_first());
        assert(spec_tokens(s) == spec_tokens(s.drop_first()));
    } else {
        crate::text::lemma_nonws_split(s);
        let tn = crate::text::take_nonws(s);
        let sk = crate::text::skip_nonws(s);
        assert(all_ascii(tn)) by {
            assert(forall|i: int| 0 <= i < tn.len() ==> #[trigger] tn[i] == (tn + sk)[i]);
        }
        assert(all_ascii(sk)) by {
            assert(forall|i: int| 0 <= i < sk.len() ==> #[trigger] sk[i] == (tn + sk)[i + tn.len()]);
        }
        lemma_tokens_ascii(sk);
        let toks = spec_tokens(s);
        assert(toks == seq![tn] + spec_tokens(sk));
        assert forall|k: int| 0 <= k < toks.len() implies all_ascii(#[trigger] toks[k]) by {
            if k == 0 {
                assert(toks[0] == tn);
            } else {
                assert(toks[k] == spec_tokens(sk)[k - 1]);
            }
        }
    }
}

/// A canonical signature line body parses back to the same timestamp, with
/// the identity being the line's first token.
pub proof fn lemma_signature_round_trip(who: Seq<char>, t: Timestamp)
    requires
        offset_wf(t.offset),
        spec_tokens(vstd::utf8::encode_utf8(who)).len() >= 3,
    ensures
        ({
            let body = vstd::utf8::encode_utf8(who) + seq![32u8] + dec_bytes_of_int(t.epoch as int)
                + seq![32u8] + offset_bytes(t.offset);
            spec_parse_signature(body) matches Some(p) && p.1 == t && p.0 == spec_tokens(
                vstd::utf8::encode_utf8(who),
            )[0]
        }),
{
    let w = vstd::utf8::encode_utf8(who);
    let dec = dec_bytes_of_int(t.epoch as int);
    let off = offset_bytes(t.offset);
    let body = w + seq![32u8] + dec + seq![32u8] + off;
    crate::text::lemma_dec_bytes_digits(
        if t.epoch < 0 {
            (-(t.epoch as int)) as nat
        } else {
            t.epoch as nat
        },
    );
    assert(crate::text::token_wf(dec)) by {
        if t.epoch < 0 {
            let m = dec_bytes_of((-(t.epoch as int)) as nat);
            assert(dec =~= seq![45u8] + m);
            assert forall|i: int| 0 <= i < dec.len() implies !crate::text::is_ws(dec[i]) by {
                if i == 0 {
                    assert(dec[0] == 45);
                } else {
                    assert(dec[i] == m[i - 1]);
                }
            }
        } else {
            assert(dec == dec_bytes_of(t.epoch as nat));
        }
    }
    assert(crate::text::token_wf(off));
    assert(body =~= w + seq![32u8] + (dec + seq![32u8] + off));
    lemma_tokens_sep(w, dec + seq![32u8] + off);
    lemma_tokens_sep(dec, off);
    lemma_tokens_single(dec);
    lemma_tokens_single(off);
    let toks = spec_tokens(body);
    assert(toks =~= spec_tokens(w) + (seq![dec] + seq![off]));
    assert(toks.len() == spec_tokens(w).len() + 2);
    assert(toks[toks.len() - 2] == dec);
    assert(toks[toks.len() - 1] == off);
    assert(toks[0] == spec_tokens(w)[0]);
    crate::text::lemma_parse_of_dec_bytes_int(t.epoch as int);
    lemma_offset_round_trip(t.offset);
}


/// Scanning the parent lines appends each parent id, in order.
proof fn lemma_scan_parent_section(ps: Seq<Seq<char>>, rest: Seq<u8>, acc: CommitFields)
    requires
        forall|i: int| 0 <= i < ps.len() ==> no_newline(vstd::utf8::encode_utf8(#[trigger] ps[i])),
    ensures
        scan_commit(split_lines(parent_lines(ps) + rest), acc) == scan_commit(
            split_lines(rest),
            CommitFields {
                tree: acc.tree,
                parents: acc.parents + ps.map_values(|p: Seq<char>| vstd::utf8::encode_utf8(p)),
                author: acc.author,
                committer: acc.committer,
                message: acc.message,
            },
        ),
    decreases ps.len(),
{
    if ps.len() == 0 {
        assert(parent_lines(ps) + rest =~= rest);
        assert(acc.parents + ps.map_values(|p: Seq<char>| vstd::utf8::encode_utf8(p))
            =~= acc.parents);
        assert(CommitFields {
            tree: acc.tree,
            parents: acc.parents + ps.map_values(|p: Seq<char>| vstd::utf8::encode_utf8(p)),
            author: acc.author,
            committer: acc.committer,
            message: acc.message,
        } =~= acc);
    } else {
        let w = vstd::utf8::encode_utf8(ps.first());
        assert(no_newline(w)) by {
            assert(ps[0] == ps.first());
        }
        let body = parent_prefix() + w;
        let tail = parent_lines(ps.drop_first()) + rest;
        assert(parent_lines(ps) + rest =~= body + seq![10u8] + tail);
        assert(no_newline(parent_prefix()));
        lemma_no_newline_concat(parent_prefix(), w);
        assert(forall|j: int| 0 <= j < body.len() ==> #[trigger] body[j] != 10);
        lemma_split_prepend_line(body, tail);
        let lines = split_lines(body + seq![10u8] + tail);
        assert(lines.first() == body);
        assert(lines.drop_first() =~= split_lines(tail));
        assert(!starts_with(body, tree_prefix())) by {
            assert(body[0] == 112);
            if starts_with(body, tree_prefix()) {
                assert(body.take(5)[0] == tree_prefix()[0]);
            }
        }
        assert(starts_with(body, parent_prefix())) by {
            assert(body.take(7) =~= parent_prefix());
        }
        assert(body.skip(7) =~= w);
        let acc1 = CommitFields {
            tree: acc.tree,
            parents: acc.parents.push(w),
            author: acc.author,
            committer: acc.committer,
            message: acc.message,
        };
        assert(scan_commit(lines, acc) == scan_commit(split_lines(tail), acc1));
        assert forall|i: int| 0 <= i < ps.drop_first().len() implies no_newline(
            vstd::utf8::encode_utf8(#[trigger] ps.drop_first()[i]),
        ) by {
            assert(ps.drop_first()[i] == ps[i + 1]);
        }
        lemma_scan_parent_section(ps.drop_first(), rest, acc1);
        assert(acc1.parents + ps.drop_first().map_values(
            |p: Seq<char>| vstd::utf8::encode_utf8(p),
        ) =~= acc.parents + ps.map_values(|p: Seq<char>| vstd::utf8::encode_utf8(p)));
        assert(CommitFields {
            tree: acc1.tree,
            parents: acc1.parents + ps.drop_first().map_values(
                |p: Seq<char>| vstd::utf8::encode_utf8(p),
            ),
            author: acc1.author,
            committer: acc1.committer,
            message: acc1.message,
        } =~= CommitFields {
            tree: acc.tree,
            parents: acc.parents + ps.map_values(|p: Seq<char>| vstd::utf8::encode_utf8(p)),
            author: acc.author,
            committer: acc.committer,
            message: acc.message,
        });
    }
}

proof fn lemma_no_newline_concat(a: Seq<u8>, b: Seq<u8>)
    requires
        no_newline(a),
        no_newline(b),
    ensures
        no_newline(a + b),
{
    assert forall|i: int| 0 <= i < (a + b).len() implies (a + b)[i] != 10 by {
        if i < a.len() {
            assert((a + b)[i] == a[i]);
        } else {
            assert((a + b)[i] == b[i - a.len()]);
        }
    }
}

proof fn lemma_all_ascii_concat(a: Seq<u8>, b: Seq<u8>)
    requires
        all_ascii(a),
        all_ascii(b),
    ensures
        all_ascii(a + b),
{
    assert forall|i: int| 0 <= i < (a + b).len() implies (a + b)[i] < 128 by {
        if i < a.len() {
            assert((a + b)[i] == a[i]);
        } else {
            assert((a + b)[i] == b[i - a.len()]);
        }
    }
}

/// The epoch digits: ASCII, free of newlines.
proof fn lemma_dec_bytes_facts(n: int)
    ensures
        all_ascii(dec_bytes_of_int(n)),
        no_newline(dec_bytes_of_int(n)),
{
    let m = if n < 0 {
        (-n) as nat
    } else {
        n as nat
    };
    crate::text::lemma_dec_bytes_digits(m);
    let dec = dec_bytes_of_int(n);
    if n < 0 {
        let d = dec_bytes_of(m);
        assert(dec =~= seq![45u8] + d);
        assert forall|i: int| 0 <= i < dec.len() implies dec[i] < 128 && dec[i] != 10 by {
            if i == 0 {
                assert(dec[0] == 45);
            } else {
                assert(dec[i] == d[i - 1]);
            }
        }
    } else {
        assert(dec == dec_bytes_of(m));
    }
}

/// A rendered offset: ASCII, free of newlines.
proof fn lemma_offset_bytes_facts(o: TzOffset)
    requires
        offset_wf(o),
    ensures
        all_ascii(offset_bytes(o)),
        no_newline(offset_bytes(o)),
{
    let s = offset_bytes(o);
    assert forall|i: int| 0 <= i < s.len() implies s[i] < 128 && s[i] != 10 by {
        assert(s[0] == 45 || s[0] == 43);
        assert(s[1] == 48 + o.hours / 10);
        assert(s[2] == 48 + o.hours % 10);
        assert(s[3] == 48 + o.minutes / 10);
        assert(s[4] == 48 + o.minutes % 10);
    }
}

/// A signature line body: everything after the prefix, newline-free, and
/// ASCII when the identity bytes are ASCII.
proof fn lemma_sig_body_facts(w: Seq<u8>, t: Timestamp)
    requires
        offset_wf(t.offset),
        all_ascii(w),
    ensures
        all_ascii(
            w + seq![32u8] + dec_bytes_of_int(t.epoch as int) + seq![32u8] + offset_bytes(t.offset),
        ),
{
    lemma_dec_bytes_facts(t.epoch as int);
    lemma_offset_bytes_facts(t.offset);
    lemma_all_ascii_concat(w, seq![32u8]);
    lemma_all_ascii_concat(w + seq![32u8], dec_bytes_of_int(t.epoch as int));
    lemma_all_ascii_concat(w + seq![32u8] + dec_bytes_of_int(t.epoch as int), seq![32u8]);
    lemma_all_ascii_concat(
        w + seq![32u8] + dec_bytes_of_int(t.epoch as int) + seq![32u8],
        offset_bytes(t.offset),
    );
}

/// The structural half of the round trip: scanning the canonical payload's
/// lines fills exactly the encoded fields.
#[verifier::rlimit(100)]
proof fn lemma_commit_scan(
    tree_id: Seq<char>,
    parents: Seq<Seq<char>>,
    author: Seq<char>,
    committer: Seq<char>,
    t: Timestamp,
    message: Seq<u8>,
)
    requires
        offset_wf(t.offset),
        no_newline(vstd::utf8::encode_utf8(tree_id)),
        no_newline(vstd::utf8::encode_utf8(author)),
        no_newline(vstd::utf8::encode_utf8(committer)),
        forall|i: int|
            0 <= i < parents.len() ==> no_newline(vstd::utf8::encode_utf8(#[trigger] parents[i])),
        trim_end_ws(message).len() > 0,
        first_line(trim_end_ws(message)).len() > 0,
        !starts_with(first_line(trim_end_ws(message)), tree_prefix()),
        !starts_with(first_line(trim_end_ws(message)), parent_prefix()),
        !starts_with(first_line(trim_end_ws(message)), author_prefix()),
        !starts_with(first_line(trim_end_ws(message)), committer_prefix()),
    ensures
        scan_commit(
            split_lines(commit_payload(tree_id, parents, author, committer, t, message)),
            empty_fields(),
        ) == (CommitFields {
            tree: vstd::utf8::encode_utf8(tree_id),
            parents: parents.map_values(|p: Seq<char>| vstd::utf8::encode_utf8(p)),
            author: vstd::utf8::encode_utf8(author) + seq![32u8] + dec_bytes_of_int(t.epoch as int)
                + seq![32u8] + offset_bytes(t.offset),
            committer: vstd::utf8::encode_utf8(committer) + seq![32u8] + dec_bytes_of_int(
                t.epoch as int,
            ) + seq![32u8] + offset_bytes(t.offset),
            message: trim_end_ws(message) + seq![10u8],
        }),
{
    let payload = commit_payload(tree_id, parents, author, committer, t, message);
    let wt = vstd::utf8::encode_utf8(tree_id);
    let wa = vstd::utf8::encode_utf8(author);
    let wc = vstd::utf8::encode_utf8(committer);
    let dec = dec_bytes_of_int(t.epoch as int);
    let off = offset_bytes(t.offset);
    let tm = trim_end_ws(message);
    let tl_body = tree_prefix() + wt;
    let a_sig = wa + seq![32u8] + dec + seq![32u8] + off;
    let c_sig = wc + seq![32u8] + dec + seq![32u8] + off;
    let al_body = author_prefix() + wa + seq![32u8] + dec + seq![32u8] + off;
    let cl_body = committer_prefix() + wc + seq![32u8] + dec + seq![32u8] + off;
    let msg_part = tm + seq![10u8];
    lemma_dec_bytes_facts(t.epoch as int);
    lemma_offset_bytes_facts(t.offset);
    // Peel the tree line.
    let after_parents = signature_line(author_prefix(), author, t) + signature_line(
        committer_prefix(),
        committer,
        t,
    ) + seq![10u8] + tm + seq![10u8];
    assert(payload =~= tl_body + seq![10u8] + (parent_lines(parents) + after_parents));
    assert(no_newline(tree_prefix()));
    lemma_no_newline_concat(tree_prefix(), wt);
    lemma_split_prepend_line(tl_body, parent_lines(parents) + after_parents);
    let f0 = empty_fields();
    let lines0 = split_lines(payload);
    assert(lines0.first() == tl_body);
    assert(lines0.drop_first() =~= split_lines(parent_lines(parents) + after_parents));
    assert(starts_with(tl_body, tree_prefix())) by {
        assert(tl_body.take(5) =~= tree_prefix());
    }
    assert(tl_body.skip(5) =~= wt);
    let f1 = CommitFields {
        tree: wt,
        parents: f0.parents,
        author: f0.author,
        committer: f0.committer,
        message: f0.message,
    };
    assert(scan_commit(lines0, f0) == scan_commit(
        split_lines(parent_lines(parents) + after_parents),
        f1,
    ));
    // The parent section.
    lemma_scan_parent_section(parents, after_parents, f1);
    let penc = parents.map_values(|p: Seq<char>| vstd::utf8::encode_utf8(p));
    let f2 = CommitFields {
        tree: wt,
        parents: f1.parents + penc,
        author: f1.author,
        committer: f1.committer,
        message: f1.message,
    };
    assert(f2.parents =~= penc);
    // The author line.
    let after_author = signature_line(committer_prefix(), committer, t) + seq![10u8] + tm + seq![
        10u8,
    ];
    assert(after_parents =~= al_body + seq![10u8] + after_author);
    assert(no_newline(author_prefix()));
    lemma_no_newline_concat(author_prefix(), wa);
    lemma_no_newline_concat(author_prefix() + wa, seq![32u8]);
    lemma_no_newline_concat(author_prefix() + wa + seq![32u8], dec);
    lemma_no_newline_concat(author_prefix() + wa + seq![32u8] + dec, seq![32u8]);
    lemma_no_newline_concat(author_prefix() + wa + seq![32u8] + dec + seq![32u8], off);
    lemma_split_prepend_line(al_body, after_author);
    let lines2 = split_lines(after_parents);
    assert(lines2.first() == al_body);
    assert(lines2.drop_first() =~= split_lines(after_author));
    assert(!starts_with(al_body, tree_prefix())) by {
        assert(al_body[0] == 97);
        if starts_with(al_body, tree_prefix()) {
            assert(al_body.take(5)[0] == tree_prefix()[0]);
        }
    }
    assert(!starts_with(al_body, parent_prefix())) by {
        assert(al_body[0] == 97);
        if starts_with(al_body, parent_prefix()) {
            assert(al_body.take(7)[0] == parent_prefix()[0]);
        }
    }
    assert(starts_with(al_body, author_prefix())) by {
        assert(al_body.take(7) =~= author_prefix());
    }
    assert(al_body.skip(7) =~= a_sig);
    let f3 = CommitFields {
        tree: wt,
        parents: f2.parents,
        author: a_sig,
        committer: f2.committer,
        message: f2.message,
    };
    assert(scan_commit(lines2, f2) == scan_commit(split_lines(after_author), f3));
    // The committer line.
    let after_committer = seq![10u8] + tm + seq![10u8];
    assert(after_author =~= cl_body + seq![10u8] + after_committer);
    assert(no_newline(committer_prefix()));
    lemma_no_newline_concat(committer_prefix(), wc);
    lemma_no_newline_concat(committer_prefix() + wc, seq![32u8]);
    lemma_no_newline_concat(committer_prefix() + wc + seq![32u8], dec);
    lemma_no_newline_concat(committer_prefix() + wc + seq![32u8] + dec, seq![32u8]);
    lemma_no_newline_concat(committer_prefix() + wc + seq![32u8] + dec + seq![32u8], off);
    lemma_split_prepend_line(cl_body, after_committer);
    let lines3 = split_lines(after_author);
    assert(lines3.first() == cl_body);
    assert(lines3.drop_first() =~= split_lines(after_committer));
    assert(!starts_with(cl_body, tree_prefix())) by {
        assert(cl_body[0] == 99);
        if starts_with(cl_body, tree_prefix()) {
            assert(cl_body.take(5)[0] == tree_prefix()[0]);
        }
    }
    assert(!starts_with(cl_body, parent_prefix())) by {
        assert(cl_body[0] == 99);
        if starts_with(cl_body, parent_prefix()) {
            assert(cl_body.take(7)[0] == parent_prefix()[0]);
        }
    }
    assert(!starts_with(cl_body, author_prefix())) by {
        assert(cl_body[0] == 99);
        if starts_with(cl_body, author_prefix()) {
            assert(cl_body.take(7)[0] == author_prefix()[0]);
        }
    }
    assert(starts_with(cl_body, committer_prefix())) by {
        assert(cl_body.take(10) =~= committer_prefix());
    }
    assert(cl_body.skip(10) =~= c_sig);
    let f4 = CommitFields {
        tree: wt,
        parents: f3.parents,
        author: f3.author,
        committer: c_sig,
        message: f3.message,
    };
    assert(scan_commit(lines3, f3) == scan_commit(split_lines(after_committer), f4));
    // The blank separator.
    assert(after_committer =~= Seq::<u8>::empty() + seq![10u8] + msg_part);
    lemma_split_prepend_line(Seq::<u8>::empty(), msg_part);
    let lines4 = split_lines(after_committer);
    assert(lines4.first() == Seq::<u8>::empty());
    assert(lines4.drop_first() =~= split_lines(msg_part));
    assert(scan_commit(lines4, f4) == scan_commit(split_lines(msg_part), f4));
    // The message: its first line breaks the scan, everything is rejoined.
    let lines5 = split_lines(msg_part);
    crate::text::lemma_find_byte_properties(tm, 10);
    let j = crate::text::find_byte(tm, 10);
    if j == -1 {
        crate::text::lemma_find_byte_is(msg_part, 10, tm.len() as int);
        assert(lines5.first() == msg_part.take(tm.len() as int));
        assert(msg_part.take(tm.len() as int) =~= tm);
        assert(lines5.first() == first_line(tm));
    } else {
        assert(msg_part[j] == 10) by {
            assert(msg_part[j] == tm[j]);
        }
        assert forall|l: int| 0 <= l < j implies msg_part[l] != 10 by {
            assert(msg_part[l] == tm[l]);
        }
        crate::text::lemma_find_byte_is(msg_part, 10, j);
        assert(lines5.first() == msg_part.take(j));
        assert(msg_part.take(j) =~= tm.take(j));
        assert(lines5.first() == first_line(tm));
    }
    lemma_join_split(msg_part);
    assert(lines5.len() > 0);
    let f5 = CommitFields {
        tree: wt,
        parents: f4.parents,
        author: f4.author,
        committer: f4.committer,
        message: msg_part,
    };
    assert(scan_commit(lines5, f4) == f5);
}

/// Decoding undoes encoding for a commit: for payloads the encoder can
/// produce — ids free of newlines, signature identities of at least three
/// ASCII tokens, and a message whose trimmed form is nonempty and does not
/// open with a blank or header-like line — every field is reproduced: the
/// tree id and parent list exactly, both timestamps to the second, each
/// identity as its line's first token, and the message as its trimmed
/// bytes with one final newline.
#[verifier::rlimit(60)]
pub proof fn lemma_commit_round_trip(
    tree_id: Seq<char>,
    parents: Seq<Seq<char>>,
    author: Seq<char>,
    committer: Seq<char>,
    t: Timestamp,
    message: Seq<u8>,
)
    requires
        offset_wf(t.offset),
        no_newline(vstd::utf8::encode_utf8(tree_id)),
        forall|i: int|
            0 <= i < parents.len() ==> no_newline(vstd::utf8::encode_utf8(#[trigger] parents[i])),
        all_ascii(vstd::utf8::encode_utf8(author)),
        all_ascii(vstd::utf8::encode_utf8(committer)),
        no_newline(vstd::utf8::encode_utf8(author)),
        no_newline(vstd::utf8::encode_utf8(committer)),
        spec_tokens(vstd::utf8::encode_utf8(author)).len() >= 3,
        spec_tokens(vstd::utf8::encode_utf8(committer)).len() >= 3,
        trim_end_ws(message).len() > 0,
        first_line(trim_end_ws(message)).len() > 0,
        !starts_with(first_line(trim_end_ws(message)), tree_prefix()),
        !starts_with(first_line(trim_end_ws(message)), parent_prefix()),
        !starts_with(first_line(trim_end_ws(message)), author_prefix()),
        !starts_with(first_line(trim_end_ws(message)), committer_prefix()),
    ensures
        ({
            let payload = commit_payload(tree_id, parents, author, committer, t, message);
            let wa = vstd::utf8::encode_utf8(author);
            let wc = vstd::utf8::encode_utf8(committer);
            decode_commit(payload) matches Some(cv) && {
                &&& cv.tree == tree_id
                &&& cv.parents == parents
                &&& cv.author == decode_utf8(spec_tokens(wa)[0])
                &&& cv.author_time == t
                &&& cv.committer == decode_utf8(spec_tokens(wc)[0])
                &&& cv.committer_time == t
                &&& cv.message == trim_end_ws(message) + seq![10u8]
            }
        }),
{
    let payload = commit_payload(tree_id, parents, author, committer, t, message);
    let wt = vstd::utf8::encode_utf8(tree_id);
    let wa = vstd::utf8::encode_utf8(author);
    let wc = vstd::utf8::encode_utf8(committer);
    let dec = dec_bytes_of_int(t.epoch as int);
    let off = offset_bytes(t.offset);
    let tm = trim_end_ws(message);
    let a_sig = wa + seq![32u8] + dec + seq![32u8] + off;
    let c_sig = wc + seq![32u8] + dec + seq![32u8] + off;
    lemma_commit_scan(tree_id, parents, author, committer, t, message);
    let f5 = scan_commit(split_lines(payload), empty_fields());
    lemma_signature_round_trip(author, t);
    lemma_signature_round_trip(committer, t);
    vstd::utf8::encode_utf8_valid_utf8(tree_id);
    vstd::utf8::encode_utf8_decode_utf8(tree_id);
    lemma_sig_body_facts(wa, t);
    lemma_sig_body_facts(wc, t);
    lemma_ascii_bytes_valid(a_sig);
    lemma_ascii_bytes_valid(c_sig);
    lemma_tokens_ascii(a_sig);
    lemma_tokens_ascii(c_sig);
    let sa = spec_parse_signature(a_sig);
    let sc = spec_parse_signature(c_sig);
    assert(sa matches Some(p) && p.1 == t && p.0 == spec_tokens(wa)[0]);
    assert(sc matches Some(p) && p.1 == t && p.0 == spec_tokens(wc)[0]);
    assert(valid_utf8((sa->0).0)) by {
        assert((sa->0).0 == spec_tokens(a_sig)[0]);
        assert(all_ascii(spec_tokens(a_sig)[0]));
        lemma_ascii_bytes_valid(spec_tokens(a_sig)[0]);
    }
    assert(valid_utf8((sc->0).0)) by {
        assert((sc->0).0 == spec_tokens(c_sig)[0]);
        assert(all_ascii(spec_tokens(c_sig)[0]));
        lemma_ascii_bytes_valid(spec_tokens(c_sig)[0]);
    }
    let penc = parents.map_values(|p: Seq<char>| vstd::utf8::encode_utf8(p));
    assert forall|i: int| 0 <= i < f5.parents.len() implies valid_utf8(
        #[trigger] f5.parents[i],
    ) by {
        assert(f5.parents[i] == penc[i]);
        assert(penc[i] == vstd::utf8::encode_utf8(parents[i]));
        vstd::utf8::encode_utf8_valid_utf8(parents[i]);
    }
    assert(decode_commit(payload) is Some);
    let cv = decode_commit(payload)->0;
    assert(cv.tree == tree_id);
    assert(cv.parents =~= parents) by {
        assert forall|i: int| 0 <= i < parents.len() implies cv.parents[i] == parents[i] by {
            assert(f5.parents[i] == vstd::utf8::encode_utf8(parents[i]));
            vstd::utf8::encode_utf8_decode_utf8(parents[i]);
        }
    }
    assert(cv.message == tm + seq![10u8]);
}


/// The exact form of the round trip: a message already in canonical form —
/// no trailing whitespace but one final newline — comes back byte for
/// byte.
pub proof fn lemma_commit_round_trip_exact(
    tree_id: Seq<char>,
    parents: Seq<Seq<char>>,
    author: Seq<char>,
    committer: Seq<char>,
    t: Timestamp,
    message: Seq<u8>,
)
    requires
        offset_wf(t.offset),
        no_newline(vstd::utf8::encode_utf8(tree_id)),
        forall|i: int|
            0 <= i < parents.len() ==> no_newline(vstd::utf8::encode_utf8(#[trigger] parents[i])),
        all_ascii(vstd::utf8::encode_utf8(author)),
        all_ascii(vstd::utf8::encode_utf8(committer)),
        no_newline(vstd::utf8::encode_utf8(author)),
        no_newline(vstd::utf8::encode_utf8(committer)),
        spec_tokens(vstd::utf8::encode_utf8(author)).len() >= 3,
        spec_tokens(vstd::utf8::encode_utf8(committer)).len() >= 3,
        message == trim_end_ws(message) + seq![10u8],
        trim_end_ws(message).len() > 0,
        first_line(trim_end_ws(message)).len() > 0,
        !starts_with(first_line(trim_end_ws(message)), tree_prefix()),
        !starts_with(first_line(trim_end_ws(message)), parent_prefix()),
        !starts_with(first_line(trim_end_ws(message)), author_prefix()),
        !starts_with(first_line(trim_end_ws(message)), committer_prefix()),
    ensures
        ({
            let payload = commit_payload(tree_id, parents, author, committer, t, message);
            decode_commit(payload) matches Some(cv) && cv.message == message && cv.tree == tree_id
                && cv.parents == parents && cv.author_time == t && cv.committer_time == t
        }),
{
    lemma_commit_round_trip(tree_id, parents, author, committer, t, message);
}

} // verus!
