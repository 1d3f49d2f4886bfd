//! Byte- and character-level helpers shared by the codecs: lower-case hex,
//! decimal and octal rendering, ASCII tokenization, and decimal parsing.

use crate::trusted::push_char;
use vstd::prelude::*;

verus! {

/// The lower-case hex digit character for a value below 16.
pub open spec fn hex_digit(n: u8) -> char
    recommends
        n < 16,
{
    if n < 10 {
        ((48 + n) as char)
    } else {
        ((87 + n) as char)
    }
}

/// Two lower-case hex digits for each byte, high nibble first.
pub open spec fn hex_of(data: Seq<u8>) -> Seq<char>
    decreases data.len(),
{
    if data.len() == 0 {
        Seq::empty()
    } else {
        seq![hex_digit(data.first() / 16), hex_digit(data.first() % 16)] + hex_of(
            data.drop_first(),
        )
    }
}

pub proof fn lemma_hex_of_len(data: Seq<u8>)
    ensures
        hex_of(data).len() == 2 * data.len(),
    decreases data.len(),
{
    if data.len() > 0 {
        lemma_hex_of_len(data.drop_first());
    }
}

pub proof fn lemma_hex_of_concat(a: Seq<u8>, b: Seq<u8>)
    ensures
        hex_of(a + b) =~= hex_of(a) + hex_of(b),
    decreases a.len(),
{
    if a.len() == 0 {
        assert(a + b =~= b);
    } else {
        lemma_hex_of_concat(a.drop_first(), b);
        assert((a + b).drop_first() =~= a.drop_first() + b);
        assert((a + b).first() == a.first());
    }
}

fn hex_digit_char(n: u8) -> (c: char)
    requires
        n < 16,
    ensures
        c == hex_digit(n),
{
    if n < 10 {
        (48 + n) as char
    } else {
        (87 + n) as char
    }
}

/// Renders bytes as lower-case hex, two digits per byte.
pub fn hex_string_of(data: &[u8]) -> (r: String)
    ensures
        r@ == hex_of(data@),
{
    let mut r = String::new();
    let mut i: usize = 0;
    while i < data.len()
        invariant
            i <= data@.len(),
            r@ == hex_of(data@.take(i as int)),
        decreases data@.len() - i,
    {
        let b = data[i];
        push_char(&mut r, hex_digit_char(b / 16));
        push_char(&mut r, hex_digit_char(b % 16));
        proof {
            lemma_hex_of_concat(data@.take(i as int), seq![data@[i as int]]);
            assert(data@.take(i + 1) =~= data@.take(i as int) + seq![data@[i as int]]);
            reveal_with_fuel(hex_of, 3);
            assert(hex_of(seq![data@[i as int]]) =~= seq![
                hex_digit(data@[i as int] / 16),
                hex_digit(data@[i as int] % 16),
            ]);
            assert(r@ =~= hex_of(data@.take(i + 1)));
        }
        i = i + 1;
    }
    proof {
        assert(data@.take(data@.len() as int) =~= data@);
    }
    r
}

/// The decimal digit character for a value below 10.
pub open spec fn dec_digit(n: u8) -> char
    recommends
        n < 10,
{
    ((48 + n) as char)
}

/// The octal rendering of a natural number, no leading zeros.
pub open spec fn oct_of(n: nat) -> Seq<char>
    decreases n,
{
    if n < 8 {
        seq![dec_digit(n as u8)]
    } else {
        oct_of(n / 8) + seq![dec_digit((n % 8) as u8)]
    }
}

fn push_oct_u32(s: &mut String, n: u32)
    ensures
        final(s)@ == old(s)@ + oct_of(n as nat),
    decreases n,
{
    if n < 8 {
        push_char(s, (48 + (n as u8)) as char);
        proof {
            assert(s@ =~= old(s)@ + oct_of(n as nat));
        }
    } else {
        push_oct_u32(s, n / 8);
        push_char(s, (48 + ((n % 8) as u8)) as char);
        proof {
            assert(s@ =~= old(s)@ + oct_of(n as nat));
        }
    }
}

/// The decimal rendering of a natural number as ASCII bytes.
pub open spec fn dec_bytes_of(n: nat) -> Seq<u8>
    decreases n,
{
    if n < 10 {
        seq![(48 + n) as u8]
    } else {
        dec_bytes_of(n / 10) + seq![(48 + n % 10) as u8]
    }
}

/// The decimal rendering of a signed number as ASCII bytes.
pub open spec fn dec_bytes_of_int(n: int) -> Seq<u8> {
    if n < 0 {
        seq![45u8] + dec_bytes_of((-n) as nat)
    } else {
        dec_bytes_of(n as nat)
    }
}

pub proof fn lemma_dec_bytes_digits(n: nat)
    ensures
        forall|i: int|
            0 <= i < dec_bytes_of(n).len() ==> 48 <= #[trigger] dec_bytes_of(n)[i] <= 57,
        dec_bytes_of(n).len() >= 1,
    decreases n,
{
    if n >= 10 {
        lemma_dec_bytes_digits(n / 10);
    }
}

/// Appends the decimal rendering of `n` to the byte vector.
pub fn push_dec_bytes(v: &mut Vec<u8>, n: u64)
    ensures
        final(v)@ == old(v)@ + dec_bytes_of(n as nat),
    decreases n,
{
    if n < 10 {
        v.push(48 + (n as u8));
        proof {
            assert(v@ =~= old(v)@ + dec_bytes_of(n as nat));
        }
    } else {
        push_dec_bytes(v, n / 10);
        v.push(48 + ((n % 10) as u8));
        proof {
            assert(v@ =~= old(v)@ + dec_bytes_of(n as nat));
        }
    }
}

/// Appends the decimal rendering of a signed number to the byte vector.
pub fn push_dec_bytes_i64(v: &mut Vec<u8>, n: i64)
    ensures
        final(v)@ == old(v)@ + dec_bytes_of_int(n as int),
{
    if n < 0 {
        v.push(45);
        let m: u64 = if n == i64::MIN {
            0x8000_0000_0000_0000u64
        } else {
            (-n) as u64
        };
        push_dec_bytes(v, m);
        proof {
            assert(v@ =~= old(v)@ + dec_bytes_of_int(n as int));
        }
    } else {
        push_dec_bytes(v, n as u64);
    }
}

/// The index of the first occurrence of `b` in `s`, or -1 when absent.
pub open spec fn find_byte(s: Seq<u8>, b: u8) -> int
    decreases s.len(),
{
    if s.len() == 0 {
        -1
    } else if s.first() == b {
        0
    } else {
        let r = find_byte(s.drop_first(), b);
        if r == -1 {
            -1
        } else {
            r + 1
        }
    }
}

pub proof fn lemma_find_byte_properties(s: Seq<u8>, b: u8)
    ensures
        find_byte(s, b) == -1 ==> forall|j: int| 0 <= j < s.len() ==> s[j] != b,
        find_byte(s, b) != -1 ==> 0 <= find_byte(s, b) < s.len() && s[find_byte(s, b)] == b
            && forall|j: int| 0 <= j < find_byte(s, b) ==> s[j] != b,
    decreases s.len(),
{
    if s.len() > 0 && s.first() != b {
        let d = s.drop_first();
        lemma_find_byte_properties(d, b);
        if find_byte(s, b) == -1 {
            assert forall|j: int| 0 <= j < s.len() implies s[j] != b by {
                if j > 0 {
                    assert(s[j] == d[j - 1]);
                }
            }
        } else {
            let r = find_byte(s, b);
            assert(s[r] == d[r - 1]);
            assert forall|j: int| 0 <= j < r implies s[j] != b by {
                if j > 0 {
                    assert(s[j] == d[j - 1]);
                }
            }
        }
    }
}

pub proof fn lemma_find_byte_is(s: Seq<u8>, b: u8, i: int)
    requires
        0 <= i < s.len(),
        s[i] == b,
        forall|j: int| 0 <= j < i ==> s[j] != b,
    ensures
        find_byte(s, b) == i,
    decreases s.len(),
{
    if i > 0 {
        lemma_find_byte_is(s.drop_first(), b, i - 1);
    }
}

pub proof fn lemma_find_byte_none(s: Seq<u8>, b: u8)
    requires
        forall|j: int| 0 <= j < s.len() ==> s[j] != b,
    ensures
        find_byte(s, b) == -1,
    decreases s.len(),
{
    if s.len() > 0 {
        lemma_find_byte_none(s.drop_first(), b);
    }
}

/// Finds the first occurrence of `b` in the slice, as `find_byte` names it.
pub fn find_byte_in(s: &[u8], b: u8) -> (r: Option<usize>)
    ensures
        r matches Some(i) ==> i < s@.len() && find_byte(s@, b) == i,
        r is None ==> find_byte(s@, b) == -1,
{
    let mut i: usize = 0;
    while i < s.len()
        invariant
            i <= s@.len(),
            forall|j: int| 0 <= j < i ==> s@[j] != b,
        decreases s@.len() - i,
    {
        if s[i] == b {
            proof {
                lemma_find_byte_is(s@, b, i as int);
            }
            return Some(i);
        }
        i = i + 1;
    }
    proof {
        lemma_find_byte_none(s@, b);
    }
    None
}

/// Compares two byte slices for equality.
pub fn bytes_eq(a: &[u8], b: &[u8]) -> (r: bool)
    ensures
        r == (a@ == b@),
{
    if a.len() != b.len() {
        proof {
            assert(a@.len() != b@.len());
        }
        return false;
    }
    let mut i: usize = 0;
    while i < a.len()
        invariant
            i <= a@.len(),
            a@.len() == b@.len(),
            forall|j: int| 0 <= j < i ==> a@[j] == b@[j],
        decreases a@.len() - i,
    {
        if a[i] != b[i] {
            return false;
        }
        i = i + 1;
    }
    proof {
        assert(a@ =~= b@);
    }
    true
}

/// ASCII whitespace, the separators that line tokenization honours.
pub open spec fn is_ws(b: u8) -> bool {
    b == 9 || b == 10 || b == 11 || b == 12 || b == 13 || b == 32
}

/// The longest whitespace-free prefix.
pub open spec fn take_nonws(s: Seq<u8>) -> Seq<u8>
    decreases s.len(),
{
    if s.len() == 0 || is_ws(s.first()) {
        Seq::empty()
    } else {
        seq![s.first()] + take_nonws(s.drop_first())
    }
}

/// What remains after the longest whitespace-free prefix.
pub open spec fn skip_nonws(s: Seq<u8>) -> Seq<u8>
    decreases s.len(),
{
    if s.len() == 0 || is_ws(s.first()) {
        s
    } else {
        skip_nonws(s.drop_first())
    }
}

pub proof fn lemma_nonws_split(s: Seq<u8>)
    ensures
        take_nonws(s) + skip_nonws(s) =~= s,
        take_nonws(s).len() + skip_nonws(s).len() == s.len(),
        skip_nonws(s).len() > 0 ==> is_ws(skip_nonws(s).first()),
    decreases s.len(),
{
    if s.len() == 0 || is_ws(s.first()) {
        assert(take_nonws(s) + skip_nonws(s) =~= s);
    } else {
        let d = s.drop_first();
        lemma_nonws_split(d);
        assert(take_nonws(s) + skip_nonws(s) =~= seq![s.first()] + (take_nonws(d) + skip_nonws(d)));
        assert(seq![s.first()] + d =~= s);
        assert(take_nonws(s) + skip_nonws(s) =~= s);
    }
}

/// Takes a sequence apart at a known break: everything before index `k` is
/// free of whitespace and `k` sits at the end or on whitespace.
pub proof fn lemma_nonws_split_at(s: Seq<u8>, k: int)
    requires
        0 <= k <= s.len(),
        forall|l: int| 0 <= l < k ==> !is_ws(s[l]),
        k == s.len() || is_ws(s[k]),
    ensures
        take_nonws(s) =~= s.take(k),
        skip_nonws(s) =~= s.skip(k),
    decreases s.len(),
{
    if k > 0 {
        let d = s.drop_first();
        assert(!is_ws(s.first())) by {
            assert(s[0] == s.first());
        }
        assert forall|l: int| 0 <= l < k - 1 implies !is_ws(d[l]) by {
            assert(d[l] == s[l + 1]);
        }
        if k < s.len() {
            assert(d[k - 1] == s[k]);
        }
        lemma_nonws_split_at(d, k - 1);
    }
}

/// The whitespace-separated tokens of a byte sequence, in order, with empty
/// tokens dropped.
pub open spec fn spec_tokens(s: Seq<u8>) -> Seq<Seq<u8>>
    decreases s.len(),
    via spec_tokens_decreases
{
    if s.len() == 0 {
        Seq::empty()
    } else if is_ws(s.first()) {
        spec_tokens(s.drop_first())
    } else {
        seq![take_nonws(s)] + spec_tokens(skip_nonws(s))
    }
}

#[via_fn]
proof fn spec_tokens_decreases(s: Seq<u8>) {
    if s.len() > 0 && !is_ws(s.first()) {
        lemma_nonws_split(s);
        assert(take_nonws(s).len() > 0) by {
            assert(take_nonws(s) =~= seq![s.first()] + take_nonws(s.drop_first()));
        }
    }
}

/// A well-formed token: nonempty and free of whitespace.
pub open spec fn token_wf(t: Seq<u8>) -> bool {
    t.len() > 0 && forall|l: int| 0 <= l < t.len() ==> !is_ws(t[l])
}

/// A token is never empty and never holds whitespace.
pub proof fn lemma_tokens_wf(s: Seq<u8>)
    ensures
        forall|k: int| 0 <= k < spec_tokens(s).len() ==> token_wf(#[trigger] spec_tokens(s)[k]),
    decreases s.len(),
{
    if s.len() == 0 {
    } else if is_ws(s.first()) {
        lemma_tokens_wf(s.drop_first());
        assert(spec_tokens(s) == spec_tokens(s.drop_first()));
    } else {
        lemma_nonws_split(s);
        lemma_tokens_wf(skip_nonws(s));
        lemma_take_nonws_wf(s);
        let toks = spec_tokens(s);
        assert forall|k: int| 0 <= k < toks.len() implies token_wf(#[trigger] toks[k]) by {
            if k == 0 {
                assert(toks[0] == take_nonws(s));
            } else {
                assert(toks[k] == spec_tokens(skip_nonws(s))[k - 1]);
            }
        }
    }
}

proof fn lemma_take_nonws_wf(s: Seq<u8>)
    requires
        s.len() > 0,
        !is_ws(s.first()),
    ensures
        token_wf(take_nonws(s)),
    decreases s.len(),
{
    let d = s.drop_first();
    let t = take_nonws(s);
    assert(t == seq![s.first()] + take_nonws(d));
    if d.len() > 0 && !is_ws(d.first()) {
        lemma_take_nonws_wf(d);
    }
    assert forall|l: int| 0 <= l < t.len() implies !is_ws(t[l]) by {
        if l == 0 {
            assert(t[0] == s.first());
        } else {
            assert(t[l] == take_nonws(d)[l - 1]);
        }
    }
}

/// Splits a byte slice into its whitespace-separated tokens, returned as
/// index ranges into the slice.
pub fn tokenize(s: &[u8]) -> (r: Vec<(usize, usize)>)
    ensures
        r@.len() == spec_tokens(s@).len(),
        forall|k: int|
            0 <= k < r@.len() ==> {
                let (a, b) = #[trigger] r@[k];
                a <= b <= s@.len() && s@.subrange(a as int, b as int) == spec_tokens(s@)[k]
            },
{
    let mut r: Vec<(usize, usize)> = Vec::new();
    let mut i: usize = 0;
    let n = s.len();
    proof {
        assert(s@.skip(0) =~= s@);
        assert(r@.map_values(|p: (usize, usize)| s@.subrange(p.0 as int, p.1 as int))
            + spec_tokens(s@) =~= spec_tokens(s@));
    }
    while i < n
        invariant
            i <= n,
            n == s@.len(),
            spec_tokens(s@) == r@.map_values(
                |p: (usize, usize)| s@.subrange(p.0 as int, p.1 as int),
            ) + spec_tokens(s@.skip(i as int)),
            forall|k: int|
                0 <= k < r@.len() ==> {
                    let (a, b) = #[trigger] r@[k];
                    a <= b <= s@.len()
                },
        decreases n - i,
    {
        if is_ws_byte(s[i]) {
            proof {
                assert(s@.skip(i as int).drop_first() =~= s@.skip(i + 1));
                assert(s@.skip(i as int).first() == s@[i as int]);
            }
            i = i + 1;
        } else {
            let start = i;
            let mut j: usize = i + 1;
            while j < n
                invariant
                    start < j <= n,
                    n == s@.len(),
                    forall|l: int| start <= l < j ==> !is_ws(s@[l]),
                ensures
                    start < j <= n,
                    n == s@.len(),
                    forall|l: int| start <= l < j ==> !is_ws(s@[l]),
                    j == n || is_ws(s@[j as int]),
                decreases n - j,
            {
                if is_ws_byte(s[j]) {
                    break;
                }
                j = j + 1;
            }
            proof {
                let rest = s@.skip(start as int);
                assert forall|l: int| 0 <= l < j - start implies !is_ws(rest[l]) by {
                    assert(rest[l] == s@[start + l]);
                }
                if j < n {
                    assert(is_ws(rest[j - start])) by {
                        assert(rest[j - start] == s@[j as int]);
                    }
                }
                lemma_nonws_split_at(rest, j - start);
                assert(take_nonws(rest) =~= s@.subrange(start as int, j as int));
                assert(skip_nonws(rest) =~= s@.skip(j as int));
                assert(!is_ws(rest.first())) by {
                    assert(rest.first() == s@[start as int]);
                }
                assert(spec_tokens(rest) == seq![take_nonws(rest)] + spec_tokens(skip_nonws(rest)));
                let m0 = r@.map_values(|p: (usize, usize)| s@.subrange(p.0 as int, p.1 as int));
                let m1 = r@.push((start, j)).map_values(
                    |p: (usize, usize)| s@.subrange(p.0 as int, p.1 as int),
                );
                assert(m1 =~= m0 + seq![s@.subrange(start as int, j as int)]);
                assert(m0 + seq![take_nonws(rest)] + spec_tokens(skip_nonws(rest)) =~= m0 + (seq![
                    take_nonws(rest),
                ] + spec_tokens(skip_nonws(rest))));
            }
            r.push((start, j));
            i = j;
        }
    }
    proof {
        assert(s@.skip(n as int) =~= Seq::<u8>::empty());
        assert(spec_tokens(s@) =~= r@.map_values(
            |p: (usize, usize)| s@.subrange(p.0 as int, p.1 as int),
        ));
        assert forall|k: int| 0 <= k < r@.len() implies {
            let (a, b) = #[trigger] r@[k];
            a <= b <= s@.len() && s@.subrange(a as int, b as int) == spec_tokens(s@)[k]
        } by {
            let m = r@.map_values(|p: (usize, usize)| s@.subrange(p.0 as int, p.1 as int));
            assert(m[k] == s@.subrange(r@[k].0 as int, r@[k].1 as int));
        }
    }
    r
}

fn is_ws_byte(b: u8) -> (r: bool)
    ensures
        r == is_ws(b),
{
    b == 9 || b == 10 || b == 11 || b == 12 || b == 13 || b == 32
}

/// The octal rendering padded with leading zeros to at least six digits:
/// numbers below 8^6 get exactly six digits, larger ones their plain octal.
pub open spec fn oct6_of(n: nat) -> Seq<char> {
    if n < 262144 {
        seq![
            dec_digit((n / 32768 % 8) as u8),
            dec_digit((n / 4096 % 8) as u8),
            dec_digit((n / 512 % 8) as u8),
            dec_digit((n / 64 % 8) as u8),
            dec_digit((n / 8 % 8) as u8),
            dec_digit((n % 8) as u8),
        ]
    } else {
        oct_of(n)
    }
}

/// Appends the six-digit zero-padded octal rendering of `n` to `s`.
pub fn push_oct6_u32(s: &mut String, n: u32)
    ensures
        final(s)@ == old(s)@ + oct6_of(n as nat),
{
    if n < 262144 {
        push_char(s, (48 + ((n / 32768 % 8) as u8)) as char);
        push_char(s, (48 + ((n / 4096 % 8) as u8)) as char);
        push_char(s, (48 + ((n / 512 % 8) as u8)) as char);
        push_char(s, (48 + ((n / 64 % 8) as u8)) as char);
        push_char(s, (48 + ((n / 8 % 8) as u8)) as char);
        push_char(s, (48 + ((n % 8) as u8)) as char);
        proof {
            assert(s@ =~= old(s)@ + oct6_of(n as nat));
        }
    } else {
        push_oct_u32(s, n);
    }
}


/// Whether every byte is a decimal digit.
pub open spec fn all_dec_digits(s: Seq<u8>) -> bool {
    forall|i: int| 0 <= i < s.len() ==> 48 <= #[trigger] s[i] <= 57
}

/// The numeric value of a digit string, most significant digit first.
pub open spec fn dec_val(s: Seq<u8>) -> int
    decreases s.len(),
{
    if s.len() == 0 {
        0
    } else {
        dec_val(s.drop_last()) * 10 + (s.last() - 48)
    }
}

pub proof fn lemma_dec_val_nonneg(s: Seq<u8>)
    requires
        all_dec_digits(s),
    ensures
        dec_val(s) >= 0,
    decreases s.len(),
{
    if s.len() > 0 {
        assert(all_dec_digits(s.drop_last())) by {
            assert(forall|i: int|
                0 <= i < s.len() - 1 ==> #[trigger] s.drop_last()[i] == s[i]);
        }
        lemma_dec_val_nonneg(s.drop_last());
    }
}

/// A longer digit prefix never has a smaller value.
pub proof fn lemma_dec_val_mono(s: Seq<u8>, i: int)
    requires
        all_dec_digits(s),
        0 <= i <= s.len(),
    ensures
        dec_val(s.take(i)) <= dec_val(s),
    decreases s.len() - i,
{
    if i < s.len() {
        lemma_dec_val_mono(s, i + 1);
        let t = s.take(i + 1);
        assert(t.drop_last() =~= s.take(i));
        assert(t.last() == s[i]);
        assert(all_dec_digits(s.take(i))) by {
            assert(forall|l: int| 0 <= l < i ==> #[trigger] s.take(i)[l] == s[l]);
        }
        lemma_dec_val_nonneg(s.take(i));
        assert(48 <= s[i] <= 57);
        assert(dec_val(t) == dec_val(s.take(i)) * 10 + (s[i] - 48));
        assert(dec_val(s.take(i)) <= dec_val(t));
    } else {
        assert(s.take(i) =~= s);
    }
}

/// Reads an optionally minus-signed decimal number, `None` outside the
/// 64-bit signed range or on any non-digit.
pub open spec fn spec_parse_i64(s: Seq<u8>) -> Option<int> {
    if s.len() > 0 && s[0] == 45 {
        let d = s.drop_first();
        if d.len() > 0 && all_dec_digits(d) && dec_val(d) <= 0x8000_0000_0000_0000 {
            Some(-dec_val(d))
        } else {
            None
        }
    } else if s.len() > 0 && all_dec_digits(s) && dec_val(s) <= 0x7fff_ffff_ffff_ffff {
        Some(dec_val(s))
    } else {
        None
    }
}

/// Reads the digit bytes from index `from` on, stopping at `limit`.
fn parse_digits(s: &[u8], from: usize, limit: u64) -> (r: Option<u64>)
    requires
        from <= s@.len(),
    ensures
        ({
            let d = s@.skip(from as int);
            match r {
                Some(v) => d.len() > 0 && all_dec_digits(d) && dec_val(d) == v && v <= limit,
                None => d.len() == 0 || !all_dec_digits(d) || dec_val(d) > limit,
            }
        }),
{
    let n = s.len();
    if from >= n {
        return None;
    }
    let ghost d = s@.skip(from as int);
    let mut acc: u64 = 0;
    let mut i: usize = from;
    while i < n
        invariant
            from <= i <= n,
            n == s@.len(),
            d == s@.skip(from as int),
            all_dec_digits(d.take(i - from)),
            dec_val(d.take(i - from)) == acc,
            acc <= limit,
        decreases n - i,
    {
        let b = s[i];
        if b < 48 || b > 57 {
            proof {
                assert(d[i - from] == s@[i as int]);
                assert(!all_dec_digits(d));
            }
            return None;
        }
        let next: u128 = (acc as u128) * 10 + ((b - 48) as u128);
        proof {
            let t = d.take(i - from + 1);
            assert(t.drop_last() =~= d.take(i - from));
            assert(t.last() == d[i - from] == s@[i as int]);
            assert(dec_val(t) == acc * 10 + (b - 48));
            assert(all_dec_digits(t));
        }
        if next > limit as u128 {
            proof {
                if all_dec_digits(d) {
                    lemma_dec_val_mono(d, i - from + 1);
                    assert(dec_val(d) >= dec_val(d.take(i - from + 1)));
                    assert(dec_val(d) > limit);
                }
            }
            return None;
        }
        acc = next as u64;
        i = i + 1;
    }
    proof {
        assert(d.take(n - from) =~= d);
    }
    Some(acc)
}

/// Reads an optionally signed decimal number from a byte slice, as
/// `spec_parse_i64` names it.
pub fn parse_i64(s: &[u8]) -> (r: Option<i64>)
    ensures
        r matches Some(v) ==> spec_parse_i64(s@) == Some(v as int),
        r is None ==> spec_parse_i64(s@) is None,
{
    if s.len() == 0 {
        return None;
    }
    if s[0] == 45 {
        proof {
            assert(s@.skip(1) =~= s@.drop_first());
        }
        match parse_digits(s, 1, 0x8000_0000_0000_0000u64) {
            Some(v) => {
                proof {
                    lemma_dec_val_nonneg(s@.drop_first());
                }
                if v == 0x8000_0000_0000_0000u64 {
                    Some(i64::MIN)
                } else {
                    Some(-(v as i64))
                }
            },
            None => None,
        }
    } else {
        proof {
            assert(s@.skip(0) =~= s@);
        }
        match parse_digits(s, 0, 0x7fff_ffff_ffff_ffffu64) {
            Some(v) => Some(v as i64),
            None => None,
        }
    }
}

/// The digits that `dec_bytes_of` writes read back to the same number.
pub proof fn lemma_dec_val_of_dec_bytes(n: nat)
    ensures
        all_dec_digits(dec_bytes_of(n)),
        dec_val(dec_bytes_of(n)) == n,
    decreases n,
{
    lemma_dec_bytes_digits(n);
    if n < 10 {
        assert(dec_bytes_of(n).drop_last() =~= Seq::<u8>::empty());
        assert(dec_bytes_of(n).last() == (48 + n) as u8);
        assert((48 + n) as u8 == 48 + n);
        assert(dec_val(dec_bytes_of(n)) == dec_val(Seq::<u8>::empty()) * 10 + ((48 + n) - 48));
    } else {
        lemma_dec_val_of_dec_bytes(n / 10);
        assert(dec_bytes_of(n).drop_last() =~= dec_bytes_of(n / 10));
        assert(dec_bytes_of(n).last() == (48 + n % 10) as u8);
        assert((48 + n % 10) as u8 == 48 + n % 10);
        assert(dec_val(dec_bytes_of(n)) == (n / 10) * 10 + n % 10);
    }
}

/// A signed decimal rendering parses back to the number itself.
pub proof fn lemma_parse_of_dec_bytes_int(n: int)
    requires
        -0x8000_0000_0000_0000 <= n <= 0x7fff_ffff_ffff_ffff,
    ensures
        spec_parse_i64(dec_bytes_of_int(n)) == Some(n),
{
    if n < 0 {
        lemma_dec_val_of_dec_bytes((-n) as nat);
        lemma_dec_bytes_digits((-n) as nat);
        let s = dec_bytes_of_int(n);
        assert(s[0] == 45);
        assert(s.drop_first() =~= dec_bytes_of((-n) as nat));
    } else {
        lemma_dec_val_of_dec_bytes(n as nat);
        lemma_dec_bytes_digits(n as nat);
        let s = dec_bytes_of_int(n);
        assert(s == dec_bytes_of(n as nat));
        assert(48 <= s[0] <= 57);
    }
}

} // verus!
