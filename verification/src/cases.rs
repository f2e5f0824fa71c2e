//! Names of problem cases: the number in a case file's name, the order in
//! which cases are listed, and the key by which they are sorted naturally.
use vstd::prelude::*;

use std::cmp::Ordering;

use vstd::utf8::encode_utf8;

verus! {

/// Every byte is an ASCII decimal digit, and there is one at least.
pub open spec fn decimal_digits(s: Seq<u8>) -> bool {
    s.len() > 0 && forall|i: int| 0 <= i < s.len() ==> 48 <= #[trigger] s[i] <= 57
}

/// The number that decimal digits write.
pub open spec fn decimal_value(s: Seq<u8>) -> nat
    decreases s.len(),
{
    if s.len() == 0 {
        0
    } else {
        decimal_value(s.drop_last()) * 10 + (s.last() - 48) as nat
    }
}

/// What parsing `s` as an unsigned integer no larger than `max` gives: an
/// optional `+`, then decimal digits whose value is at most `max`.
pub open spec fn unsigned_parse(s: Seq<u8>, max: nat) -> Option<nat> {
    let d = if s.len() > 0 && s[0] == 43 { s.drop_first() } else { s };
    if decimal_digits(d) && decimal_value(d) <= max {
        Some(decimal_value(d))
    } else {
        None
    }
}

/// The value of a prefix of digits is no larger than that of the digits.
proof fn lemma_decimal_prefix(s: Seq<u8>, k: int)
    requires
        0 <= k <= s.len(),
        forall|i: int| 0 <= i < s.len() ==> 48 <= #[trigger] s[i] <= 57,
    ensures
        decimal_value(s.take(k)) <= decimal_value(s),
    decreases s.len(),
{
    if k < s.len() {
        let p = s.drop_last();
        assert(s.take(k) =~= p.take(k));
        assert forall|i: int| 0 <= i < p.len() implies 48 <= #[trigger] p[i] <= 57 by {
            assert(p[i] == s[i]);
        }
        lemma_decimal_prefix(p, k);
    } else {
        assert(s.take(k) =~= s);
    }
}

/// Parses the bytes from `lo` on as decimal digits worth at most `max`.
fn parse_digits(bytes: &[u8], lo: usize, max: u64) -> (res: Option<u64>)
    requires
        lo <= bytes@.len(),
    ensures
        res == (if decimal_digits(bytes@.skip(lo as int)) && decimal_value(bytes@.skip(lo as int)) <= max {
            Some(decimal_value(bytes@.skip(lo as int)) as u64)
        } else {
            None::<u64>
        }),
{
    let ghost d = bytes@.skip(lo as int);
    let mut value: u64 = 0;
    let mut i: usize = lo;
    while i < bytes.len()
        invariant
            lo <= i <= bytes@.len(),
            d == bytes@.skip(lo as int),
            value <= max,
            value == decimal_value(d.take(i - lo)),
            forall|k: int| 0 <= k < i - lo ==> 48 <= #[trigger] d[k] <= 57,
        decreases bytes@.len() - i,
    {
        let c = bytes[i];
        if c < 48 || c > 57 {
            proof {
                assert(d[i - lo] == c);
            }
            return None;
        }
        let next: u128 = (value as u128) * 10 + ((c - 48) as u128);
        proof {
            let p = d.take(i - lo + 1);
            assert(p.drop_last() =~= d.take(i - lo));
            assert(p.last() == c);
        }
        if next > max as u128 {
            proof {
                if decimal_digits(d) {
                    lemma_decimal_prefix(d, i - lo + 1);
                }
            }
            return None;
        }
        value = next as u64;
        i += 1;
    }
    proof {
        assert(d.take(i - lo) =~= d);
    }
    if i == lo {
        None
    } else {
        Some(value)
    }
}

/// Parses the bytes from `lo` on as an unsigned integer no larger than
/// `max`, as `str::parse` does for unsigned integer types.
fn parse_unsigned(bytes: &[u8], lo: usize, max: u64) -> (res: Option<u64>)
    requires
        lo <= bytes@.len(),
    ensures
        res == (match unsigned_parse(bytes@.skip(lo as int), max as nat) {
            Some(v) => Some(v as u64),
            None => None::<u64>,
        }),
{
    if lo < bytes.len() && bytes[lo] == 43 {
        proof {
            assert(bytes@.skip(lo as int).drop_first() =~= bytes@.skip(lo + 1));
        }
        parse_digits(bytes, lo + 1, max)
    } else {
        parse_digits(bytes, lo, max)
    }
}

/// The number of a case file stem written `prob_` and a number.
pub open spec fn prob_number(stem: Seq<u8>) -> Option<nat> {
    if stem.len() >= 5 && stem.take(5) == seq![112u8, 114u8, 111u8, 98u8, 95u8] {
        unsigned_parse(stem.skip(5), u64::MAX as nat)
    } else {
        None
    }
}

/// The number of a case from the stem of its file name.
pub fn case_number_of_stem(stem: &str) -> (res: Option<u64>)
    ensures
        res == (match prob_number(encode_utf8(stem@)) {
            Some(v) => Some(v as u64),
            None => None::<u64>,
        }),
{
    let b = stem.as_bytes();
    if b.len() >= 5 && b[0] == 112 && b[1] == 114 && b[2] == 111 && b[3] == 98 && b[4] == 95 {
        proof {
            assert(b@.take(5) =~= seq![112u8, 114u8, 111u8, 98u8, 95u8]);
        }
        parse_unsigned(b, 5, u64::MAX)
    } else {
        proof {
            if b@.len() >= 5 && b@.take(5) == seq![112u8, 114u8, 111u8, 98u8, 95u8] {
                assert(b@[0] == b@.take(5)[0]);
                assert(b@[1] == b@.take(5)[1]);
                assert(b@[2] == b@.take(5)[2]);
                assert(b@[3] == b@.take(5)[3]);
                assert(b@[4] == b@.take(5)[4]);
            }
        }
        None
    }
}

/// A path that is one plain file name: not empty, not `.` or `..`, and
/// free of `/`, `\` and `:`, so that no platform reads a root, a prefix
/// or a separator in it.
pub open spec fn plain_name(s: Seq<char>) -> bool {
    &&& s.len() > 0
    &&& s != seq!['.']
    &&& s != seq!['.', '.']
    &&& forall|i: int| 0 <= i < s.len() ==> #[trigger] s[i] != '/' && s[i] != '\\' && s[i] != ':'
}

/// Index of the last `.` in `s`; -1 where there is none.
pub open spec fn last_dot(s: Seq<char>) -> int
    decreases s.len(),
{
    if s.len() == 0 {
        -1
    } else if s.last() == '.' {
        s.len() - 1
    } else {
        last_dot(s.drop_last())
    }
}

/// The stem of a file name: the part before its last `.`, or the whole
/// name where it has no `.` or its only `.` is the first character.
pub open spec fn name_stem(s: Seq<char>) -> Seq<char> {
    let k = last_dot(s);
    if k <= 0 {
        s
    } else {
        s.take(k)
    }
}

/// Index of the last `/` in `s`; -1 where there is none.
pub open spec fn last_slash(s: Seq<char>) -> int
    decreases s.len(),
{
    if s.len() == 0 {
        -1
    } else if s.last() == '/' {
        s.len() - 1
    } else {
        last_slash(s.drop_last())
    }
}

/// The last `/` lies inside the path, where there is one.
pub proof fn lemma_last_slash(s: Seq<char>)
    ensures
        -1 <= last_slash(s) < s.len(),
    decreases s.len(),
{
    if s.len() > 0 && s.last() != '/' {
        lemma_last_slash(s.drop_last());
    }
}

/// A relative path of plain names joined by single `/`: no root, no
/// prefix, no empty, `.` or `..` component, and no `\` or `:` that some
/// platform would read otherwise.
pub open spec fn plain_path(s: Seq<char>) -> bool
    decreases s.len(),
{
    let k = last_slash(s);
    if k < 0 {
        plain_name(s)
    } else {
        proof {
            lemma_last_slash(s);
        }
        plain_name(s.skip(k + 1)) && plain_path(s.take(k))
    }
}

/// The directory of a path: what comes before its last `/`; empty where
/// there is none.
pub open spec fn path_dir(s: Seq<char>) -> Seq<char> {
    let k = last_slash(s);
    if k < 0 {
        Seq::empty()
    } else {
        s.take(k)
    }
}

/// The file name of a path: what comes after its last `/`.
pub open spec fn path_name(s: Seq<char>) -> Seq<char> {
    s.skip(last_slash(s) + 1)
}

/// The stem of the file name of a path (`Path::file_stem`), where it has
/// one. std documents `/` as a separator on every platform, and the stem
/// as the part of the file name before its last `.` (the whole name where
/// there is none, or where the name starts with its only `.`); for a plain
/// path that is the stem of what follows its last `/`. How other paths
/// split into components is the platform's, and nothing is stated of them.
#[verifier::external_body]
fn path_file_stem(path: &str) -> (res: Option<String>)
    ensures
        plain_path(path@) ==> res.is_some() && res.unwrap()@ == name_stem(path_name(path@)),
{
    std::path::Path::new(path).file_stem().map(|s| s.to_string_lossy().into_owned())
}

/// The path without its final component (`Path::parent`), where it has one.
/// With `/` a separator on every platform, std documents the parent of a
/// plain path as what comes before its last `/`, and the empty path for a
/// single name. How other paths split into components is the platform's,
/// and nothing is stated of them.
#[verifier::external_body]
fn path_parent(path: &str) -> (res: Option<String>)
    ensures
        plain_path(path@) ==> res.is_some() && res.unwrap()@ == path_dir(path@),
{
    std::path::Path::new(path).parent().map(|p| p.to_string_lossy().into_owned())
}

/// The case number written in the stem of a path's file name.
pub open spec fn stem_case_number(path: Seq<char>) -> Option<u64> {
    match prob_number(encode_utf8(name_stem(path_name(path)))) {
        Some(v) => Some(v as u64),
        None => None,
    }
}

/// The number in the name of a case file `.../prob_<number>.<ext>`; for a
/// plain path, the number of its file name's stem.
pub fn case_number(case: &str) -> (res: Option<u64>)
    ensures
        plain_path(case@) ==> res == stem_case_number(case@),
        res matches Some(n) ==> exists|stem: Seq<u8>| #[trigger] prob_number(stem) == Some(n as nat),
{
    match path_file_stem(case) {
        Some(stem) => {
            let res = case_number_of_stem(stem.as_str());
            proof {
                if res.is_some() {
                    assert(prob_number(encode_utf8(stem@)) == Some(res.unwrap() as nat));
                }
            }
            res
        },
        None => None,
    }
}

/// `a` comes before `b` in the lexicographic order of bytes.
pub open spec fn lex_lt(a: Seq<u8>, b: Seq<u8>) -> bool
    decreases a.len(),
{
    if a.len() == 0 {
        b.len() > 0
    } else if b.len() == 0 {
        false
    } else if a[0] != b[0] {
        a[0] < b[0]
    } else {
        lex_lt(a.drop_first(), b.drop_first())
    }
}

/// Compares two byte strings lexicographically: -1, 0 or 1.
fn lex_sign(a: &[u8], b: &[u8]) -> (res: i8)
    ensures
        (res == -1) == lex_lt(a@, b@),
        (res == 1) == lex_lt(b@, a@),
        (res == 0) == (a@ == b@),
        -1 <= res <= 1,
{
    let mut i: usize = 0;
    proof {
        assert(a@.skip(0) =~= a@);
        assert(b@.skip(0) =~= b@);
        assert(a@.take(0) =~= b@.take(0));
    }
    while i < a.len() && i < b.len()
        invariant
            i <= a@.len(),
            i <= b@.len(),
            a@.take(i as int) == b@.take(i as int),
            lex_lt(a@, b@) == lex_lt(a@.skip(i as int), b@.skip(i as int)),
            lex_lt(b@, a@) == lex_lt(b@.skip(i as int), a@.skip(i as int)),
        decreases a@.len() - i,
    {
        proof {
            assert(a@.skip(i as int)[0] == a@[i as int]);
            assert(b@.skip(i as int)[0] == b@[i as int]);
            assert(a@.skip(i as int).drop_first() =~= a@.skip(i + 1));
            assert(b@.skip(i as int).drop_first() =~= b@.skip(i + 1));
        }
        if a[i] != b[i] {
            proof {
                assert(a@[i as int] != b@[i as int]);
            }
            if a[i] < b[i] {
                return -1;
            } else {
                return 1;
            }
        }
        proof {
            assert(a@.take(i + 1) =~= a@.take(i as int).push(a@[i as int]));
            assert(b@.take(i + 1) =~= b@.take(i as int).push(b@[i as int]));
        }
        i += 1;
    }
    proof {
        if i == a@.len() {
            assert(a@.take(i as int) =~= a@);
        }
        if i == b@.len() {
            assert(b@.take(i as int) =~= b@);
        }
        if a@.len() == b@.len() {
            assert(a@ =~= b@);
        }
    }
    if i < b.len() {
        -1
    } else if i < a.len() {
        1
    } else {
        0
    }
}

/// Case `a` with number `na` is listed before case `b` with number `nb`:
/// by number where both have one, then by name.
pub open spec fn case_before(a: Seq<u8>, na: Option<u64>, b: Seq<u8>, nb: Option<u64>) -> bool {
    match (na, nb) {
        (Some(x), Some(y)) => x < y || (x == y && lex_lt(a, b)),
        _ => lex_lt(a, b),
    }
}

/// Orders two cases given their numbers: by number where both have one,
/// then by name.
pub fn compare_case_keys(a: &str, na: Option<u64>, b: &str, nb: Option<u64>) -> (res: Ordering)
    ensures
        (res == Ordering::Less) == case_before(encode_utf8(a@), na, encode_utf8(b@), nb),
        (res == Ordering::Greater) == case_before(encode_utf8(b@), nb, encode_utf8(a@), na),
        (res == Ordering::Equal) == (encode_utf8(a@) == encode_utf8(b@) && (na is Some && nb is Some ==> na == nb)),
{
    match na {
        Some(x) => match nb {
            Some(y) => {
                if x < y {
                    return Ordering::Less;
                }
                if y < x {
                    return Ordering::Greater;
                }
            },
            None => {},
        },
        None => {},
    }
    let ab = a.as_bytes();
    let bb = b.as_bytes();
    proof {
        assert(ab@ == encode_utf8(a@));
        assert(bb@ == encode_utf8(b@));
    }
    let s = lex_sign(ab, bb);
    if s < 0 {
        Ordering::Less
    } else if s > 0 {
        Ordering::Greater
    } else {
        Ordering::Equal
    }
}

/// Orders case files: by the number in their names where both have one,
/// then by name.
pub fn compare_cases(a: &str, b: &str) -> (res: Ordering)
    ensures
        res == Ordering::Equal ==> encode_utf8(a@) == encode_utf8(b@),
        plain_path(a@) && plain_path(b@) ==> {
            let na = stem_case_number(a@);
            let nb = stem_case_number(b@);
            &&& (res == Ordering::Less) == case_before(encode_utf8(a@), na, encode_utf8(b@), nb)
            &&& (res == Ordering::Greater) == case_before(encode_utf8(b@), nb, encode_utf8(a@), na)
            &&& (res == Ordering::Equal) == (encode_utf8(a@) == encode_utf8(b@) && (na is Some && nb is Some ==> na == nb))
        },
{
    let na = case_number(a);
    let nb = case_number(b);
    compare_case_keys(a, na, b, nb)
}

/// Index of the last `_` in `s`; -1 where there is none.
pub open spec fn last_underscore(s: Seq<u8>) -> int
    decreases s.len(),
{
    if s.len() == 0 {
        -1
    } else if s.last() == 95 {
        s.len() - 1
    } else {
        last_underscore(s.drop_last())
    }
}

proof fn lemma_last_underscore(s: Seq<u8>)
    ensures
        -1 <= last_underscore(s) < s.len(),
        last_underscore(s) >= 0 ==> s[last_underscore(s)] == 95,
        forall|k: int| last_underscore(s) < k < s.len() ==> #[trigger] s[k] != 95,
    decreases s.len(),
{
    if s.len() > 0 && s.last() != 95 {
        lemma_last_underscore(s.drop_last());
        assert forall|k: int| last_underscore(s) < k < s.len() implies #[trigger] s[k] != 95 by {
            if k < s.len() - 1 {
                assert(s[k] == s.drop_last()[k]);
            }
        }
    }
}

/// The number after the last `_` of a case file stem; `usize::MAX` where
/// there is no `_` or no number after it.
pub open spec fn key_number(stem: Seq<u8>) -> usize {
    let k = last_underscore(stem);
    if k < 0 {
        usize::MAX
    } else {
        match unsigned_parse(stem.skip(k + 1), usize::MAX as nat) {
            Some(v) => v as usize,
            None => usize::MAX,
        }
    }
}

/// The number after the last `_` of a case file stem.
pub fn case_key_number(stem: &str) -> (res: usize)
    ensures
        res == key_number(encode_utf8(stem@)),
{
    let b = stem.as_bytes();
    let mut i: usize = b.len();
    proof {
        assert(b@.take(b@.len() as int) =~= b@);
    }
    while i > 0 && b[i - 1] != 95
        invariant
            i <= b@.len(),
            last_underscore(b@) == last_underscore(b@.take(i as int)),
        decreases i,
    {
        proof {
            assert(b@.take(i as int).drop_last() =~= b@.take(i - 1));
        }
        i -= 1;
    }
    proof {
        if i > 0 {
            assert(b@.take(i as int).last() == b@[i - 1]);
        }
    }
    if i == 0 {
        return usize::MAX;
    }
    match parse_unsigned(b, i, usize::MAX as u64) {
        Some(v) => v as usize,
        None => usize::MAX,
    }
}

/// The key by which case files are sorted naturally: the directory, the
/// number after the last `_` of the stem, and the stem; the number is
/// `usize::MAX` where there is none, and the whole path stands for the stem
/// where there is no file name. A plain path has the directory before its
/// last `/` (empty for a single name) and the stem of its file name.
pub fn natural_case_key(path: &str) -> (res: (String, usize, String))
    ensures
        (res.1 == usize::MAX && res.2@ == path@) || res.1 == key_number(encode_utf8(res.2@)),
        plain_path(path@) ==> {
            &&& res.0@ == path_dir(path@)
            &&& res.2@ == name_stem(path_name(path@))
            &&& res.1 == key_number(encode_utf8(name_stem(path_name(path@))))
        },
{
    let parent = match path_parent(path) {
        Some(p) => p,
        None => String::new(),
    };
    match path_file_stem(path) {
        None => (parent, usize::MAX, path.to_owned()),
        Some(stem) => {
            let n = case_key_number(stem.as_str());
            (parent, n, stem)
        },
    }
}

} // verus!
