//! Ignore patterns: raw lines from an ignore file are filtered and
//! translated into regular expressions (a dot is escaped, a star becomes
//! `.*`), with the store root's own name always ignored. Matching itself is
//! the regex engine's work, named by `regex_match`.

use crate::trusted::{push_char, regex_is_match, regex_match, string_from_utf8};
use crate::text::{find_byte, is_ws, lemma_find_byte_properties};
use vstd::prelude::*;
use vstd::string::StrSliceExecFns;
use vstd::utf8::{decode_utf8, encode_utf8, valid_utf8};

verus! {

/// The translation of one ignore line into a regular expression: `.` is
/// escaped, `*` becomes `.*`, everything else stays.
pub open spec fn spec_translate(s: Seq<char>) -> Seq<char>
    decreases s.len(),
{
    if s.len() == 0 {
        Seq::empty()
    } else {
        (if s.first() == '.' {
            seq!['\\', '.']
        } else if s.first() == '*' {
            seq!['.', '*']
        } else {
            seq![s.first()]
        }) + spec_translate(s.drop_first())
    }
}

pub proof fn lemma_translate_concat(a: Seq<char>, b: Seq<char>)
    ensures
        spec_translate(a + b) =~= spec_translate(a) + spec_translate(b),
    decreases a.len(),
{
    if a.len() == 0 {
        assert(a + b =~= b);
    } else {
        lemma_translate_concat(a.drop_first(), b);
        assert((a + b).drop_first() =~= a.drop_first() + b);
        assert((a + b).first() == a.first());
    }
}

/// Translates one ignore line into its regular expression.
pub fn translate_pattern(line: &str) -> (r: String)
    ensures
        r@ == spec_translate(line@),
{
    let mut r = String::new();
    let n = line.unicode_len();
    let mut i: usize = 0;
    while i < n
        invariant
            i <= n,
            n == line@.len(),
            r@ == spec_translate(line@.take(i as int)),
        decreases n - i,
    {
        let c = line.get_char(i);
        if c == '.' {
            push_char(&mut r, '\\');
            push_char(&mut r, '.');
        } else if c == '*' {
            push_char(&mut r, '.');
            push_char(&mut r, '*');
        } else {
            push_char(&mut r, c);
        }
        proof {
            lemma_translate_concat(line@.take(i as int), seq![line@[i as int]]);
            assert(line@.take(i + 1) =~= line@.take(i as int) + seq![line@[i as int]]);
            reveal_with_fuel(spec_translate, 3);
            assert(r@ =~= spec_translate(line@.take(i + 1)));
        }
        i = i + 1;
    }
    proof {
        assert(line@.take(n as int) =~= line@);
    }
    r
}

/// The always-ignored pattern for the store root's own name.
pub open spec fn store_root_pattern() -> Seq<char> {
    seq!['\\', '.', 'o', 'g', 'i', 't']
}

/// Translates raw ignore lines into matchers and appends the implicit
/// store-root pattern.
pub fn ignore_matchers(lines: &Vec<String>) -> (r: Vec<String>)
    ensures
        r@.len() == lines@.len() + 1,
        forall|i: int|
            0 <= i < lines@.len() ==> #[trigger] r@[i]@ == spec_translate(lines@[i]@),
        r@[lines@.len() as int]@ == store_root_pattern(),
{
    let mut r: Vec<String> = Vec::new();
    let n = lines.len();
    let mut i: usize = 0;
    while i < n
        invariant
            i <= n,
            n == lines@.len(),
            r@.len() == i,
            forall|j: int|
                0 <= j < i ==> #[trigger] r@[j]@ == spec_translate(lines@[j]@),
        decreases n - i,
    {
        r.push(translate_pattern(lines[i].as_str()));
        i = i + 1;
    }
    let mut root = String::new();
    push_char(&mut root, '\\');
    push_char(&mut root, '.');
    push_char(&mut root, 'o');
    push_char(&mut root, 'g');
    push_char(&mut root, 'i');
    push_char(&mut root, 't');
    proof {
        assert(root@ =~= store_root_pattern());
    }
    r.push(root);
    r
}

/// Whether some pattern in the list matches the path.
pub open spec fn spec_ignored(path: Seq<char>, patterns: Seq<Seq<char>>) -> bool {
    exists|i: int|
        0 <= i < patterns.len() && regex_match(#[trigger] patterns[i], path) == Some(true)
}

/// Returns whether a path is matched by one of the patterns; a pattern that
/// does not compile matches nothing.
pub fn is_ignored(path: &str, ignores: &Vec<String>) -> (r: bool)
    ensures
        r == spec_ignored(path@, ignores@.map_values(|s: String| s@)),
{
    let ghost pats = ignores@.map_values(|s: String| s@);
    let n = ignores.len();
    let mut i: usize = 0;
    while i < n
        invariant
            i <= n,
            n == ignores@.len(),
            pats == ignores@.map_values(|s: String| s@),
            forall|j: int|
                0 <= j < i ==> regex_match(#[trigger] pats[j], path@) != Some(true),
        decreases n - i,
    {
        match regex_is_match(ignores[i].as_str(), path) {
            Some(true) => {
                proof {
                    assert(pats[i as int] == ignores@[i as int]@);
                    assert(regex_match(pats[i as int], path@) == Some(true));
                }
                return true;
            },
            _ => {},
        }
        i = i + 1;
    }
    proof {
        assert(!spec_ignored(path@, pats));
    }
    false
}

/// What the content of an ignore file yields, at the byte level: for each
/// line (a trailing newline adds no line), everything before the first `#`;
/// lines that are then empty or only whitespace are dropped.
pub open spec fn spec_ignore_lines(data: Seq<u8>) -> Seq<Seq<u8>>
    decreases data.len(),
    via spec_ignore_lines_decreases
{
    if data.len() == 0 {
        Seq::empty()
    } else {
        let n = find_byte(data, 10);
        let line = if n == -1 {
            data
        } else {
            data.take(n)
        };
        let rest = if n == -1 {
            Seq::<u8>::empty()
        } else {
            data.skip(n + 1)
        };
        let kept = keep_of_line(line);
        if kept is Some {
            seq![kept->0] + spec_ignore_lines(rest)
        } else {
            spec_ignore_lines(rest)
        }
    }
}

#[via_fn]
proof fn spec_ignore_lines_decreases(data: Seq<u8>) {
    lemma_find_byte_properties(data, 10);
}

/// Whether every byte is whitespace.
pub open spec fn all_ws(s: Seq<u8>) -> bool {
    forall|j: int| 0 <= j < s.len() ==> is_ws(#[trigger] s[j])
}

/// The part of one raw line that survives: bytes before the first `#`,
/// kept only when not all whitespace and readable as UTF-8 text.
pub open spec fn keep_of_line(line: Seq<u8>) -> Option<Seq<u8>> {
    let h = find_byte(line, 35);
    let body = if h == -1 {
        line
    } else {
        line.take(h)
    };
    if valid_utf8(body) && !all_ws(body) {
        Some(body)
    } else {
        None
    }
}

fn keep_line(line: &[u8]) -> (r: Option<&[u8]>)
    ensures
        r matches Some(b) ==> keep_of_line(line@) == (if valid_utf8(b@) {
            Some(b@)
        } else {
            None::<Seq<u8>>
        }),
        r is None ==> keep_of_line(line@) is None,
{
    let body = match crate::text::find_byte_in(line, 35) {
        Some(h) => vstd::slice::slice_subrange(line, 0, h),
        None => line,
    };
    proof {
        let h = find_byte(line@, 35);
        if h != -1 {
            assert(body@ =~= line@.take(h));
        }
    }
    let n = body.len();
    let mut i: usize = 0;
    while i < n
        invariant
            i <= n,
            n == body@.len(),
            body@ == (if find_byte(line@, 35) == -1 {
                line@
            } else {
                line@.take(find_byte(line@, 35))
            }),
            forall|j: int| 0 <= j < i ==> is_ws(#[trigger] body@[j]),
        decreases n - i,
    {
        let b = body[i];
        if !(b == 9 || b == 10 || b == 11 || b == 12 || b == 13 || b == 32) {
            proof {
                let h = find_byte(line@, 35);
                let bspec = if h == -1 {
                    line@
                } else {
                    line@.take(h)
                };
                assert(body@ == bspec);
                assert(!all_ws(bspec)) by {
                    assert(!is_ws(bspec[i as int]));
                }
                if valid_utf8(body@) {
                    assert(keep_of_line(line@) == Some(body@));
                } else {
                    assert(keep_of_line(line@) is None);
                }
            }
            return Some(body);
        }
        i = i + 1;
    }
    proof {
        assert(all_ws(body@));
    }
    None
}

/// Filters the raw content of an ignore file into its usable lines, as
/// `spec_ignore_lines` names them at the byte level.
pub fn parse_ignore_lines(text: &str) -> (r: Vec<String>)
    ensures
        ({
            let spec = spec_ignore_lines(vstd::string::StringSliceAdditionalSpecFns::spec_bytes(text));
            r@.len() == spec.len() && forall|i: int|
                0 <= i < spec.len() ==> encode_utf8(#[trigger] r@[i]@) == spec[i]
        }),
{
    let data = text.as_bytes();
    let n = data.len();
    let mut r: Vec<String> = Vec::new();
    let mut pos: usize = 0;
    proof {
        assert(data@.skip(0) =~= data@);
        assert(r@.map_values(|s: String| encode_utf8(s@)) =~= Seq::<Seq<u8>>::empty());
    }
    while pos < n
        invariant
            pos <= n,
            n == data@.len(),
            data@ == vstd::string::StringSliceAdditionalSpecFns::spec_bytes(text),
            spec_ignore_lines(data@) == r@.map_values(|s: String| encode_utf8(s@))
                + spec_ignore_lines(data@.skip(pos as int)),
        decreases n - pos,
    {
        let ghost rem = data@.skip(pos as int);
        let tail = vstd::slice::slice_subrange(data, pos, n);
        proof {
            assert(tail@ =~= rem);
        }
        let nl = crate::text::find_byte_in(tail, 10);
        let (line_end, next): (usize, usize) = match nl {
            Some(k) => (pos + k, pos + k + 1),
            None => (n, n),
        };
        let line = vstd::slice::slice_subrange(data, pos, line_end);
        proof {
            if nl is Some {
                let k = line_end - pos;
                assert(rem.take(k as int) =~= line@);
                assert(rem.skip(k + 1) =~= data@.skip(next as int));
            } else {
                assert(rem =~= line@);
                assert(data@.skip(next as int) =~= Seq::<u8>::empty());
                assert(spec_ignore_lines(Seq::<u8>::empty()) =~= Seq::<Seq<u8>>::empty());
            }
        }
        match keep_line(line) {
            Some(kept) => {
                let v = vstd::slice::slice_to_vec(kept);
                let ghost kv = v@;
                match string_from_utf8(v) {
                    Some(s) => {
                        proof {
                            vstd::utf8::decode_utf8_encode_utf8(kv);
                            assert(keep_of_line(line@) == Some(kv));
                            let m0 = r@.map_values(|s2: String| encode_utf8(s2@));
                            let m1 = r@.push(s).map_values(|s2: String| encode_utf8(s2@));
                            assert(m1 =~= m0 + seq![encode_utf8(s@)]);
                            assert(encode_utf8(s@) == kv);
                        }
                        r.push(s);
                    },
                    None => {
                        proof {
                            assert(keep_of_line(line@) is None);
                        }
                    },
                }
            },
            None => {},
        }
        pos = next;
    }
    proof {
        assert(data@.skip(n as int) =~= Seq::<u8>::empty());
        assert(spec_ignore_lines(Seq::<u8>::empty()) =~= Seq::<Seq<u8>>::empty());
        let m = r@.map_values(|s: String| encode_utf8(s@));
        assert(spec_ignore_lines(data@) =~= m);
        assert forall|i: int| 0 <= i < spec_ignore_lines(data@).len() implies encode_utf8(
            #[trigger] r@[i]@,
        ) == spec_ignore_lines(data@)[i] by {
            assert(m[i] == encode_utf8(r@[i]@));
        }
    }
    r
}

} // verus!
