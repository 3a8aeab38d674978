//! Text helpers: UTF-8 conversion through std, and byte-level comparisons of
//! strings written out here.
use vstd::prelude::*;
use vstd::utf8::{decode_utf8, encode_utf8, valid_utf8};

verus! {

broadcast use vstd::utf8::group_utf8_lib;

/// Calls `String::from_utf8`. Trusted: std documents that it succeeds exactly
/// when the bytes are well-formed UTF-8, and that the string then holds the
/// characters those bytes encode; `valid_utf8`/`decode_utf8` are vstd's
/// statement of that encoding.
#[verifier::external_body]
pub(crate) fn string_from_utf8(bytes: Vec<u8>) -> (res: Option<String>)
    ensures
        res is Some <==> valid_utf8(bytes@),
        res matches Some(s) ==> s@ == decode_utf8(bytes@),
{
    String::from_utf8(bytes).ok()
}

/// Calls `std::str::from_utf8`. Trusted: succeeds exactly on well-formed
/// UTF-8, and the `str` then holds the decoded characters.
#[verifier::external_body]
pub(crate) fn str_from_utf8(bytes: &[u8]) -> (res: Option<&str>)
    ensures
        res is Some <==> valid_utf8(bytes@),
        res matches Some(s) ==> s@ == decode_utf8(bytes@),
{
    std::str::from_utf8(bytes).ok()
}

/// `String::from(&str)`: std documents that it converts the `&str` into a
/// `String` holding the same characters.
pub assume_specification<'a>[ <String as From<&'a str>>::from ](s: &str) -> (res: String)
    ensures
        res@ == s@,
;

/// Calls `String::push`. Trusted: std documents that it appends the char.
#[verifier::external_body]
pub(crate) fn string_push(s: &mut String, c: char)
    ensures
        final(s)@ == old(s)@.push(c),
{
    s.push(c)
}

/// A path spelled in the one way its components allow: no `\\` and no
/// `:` (so no Windows prefix and `/` the only separator on every platform),
/// no empty component (`//`), no `.` component after the start (`/./`, a
/// trailing `/.`), and no trailing `/`.
pub open spec fn plain_path(s: Seq<char>) -> bool {
    &&& forall|i: int| 0 <= i < s.len() ==> #[trigger] s[i] != '\\' && s[i] != ':'
    &&& forall|i: int| 0 <= i < s.len() - 1 ==> !(#[trigger] s[i] == '/' && s[i + 1] == '/')
    &&& forall|i: int|
        0 <= i < s.len() - 2 ==> !(#[trigger] s[i] == '/' && s[i + 1] == '.' && s[i + 2] == '/')
    &&& !(s.len() >= 1 && s[s.len() - 1] == '/')
    &&& !(s.len() >= 2 && s[s.len() - 2] == '/' && s[s.len() - 1] == '.')
}

/// Calls `Path::new(a) == Path::new(b)`. Trusted for what std documents and
/// holds on every platform: paths are equal when their components are, and
/// a path spelled plainly (`plain_path`) has no other spelling, so two plain
/// paths are equal exactly when the strings are; identical strings are
/// always equal. Which differently spelled other paths `Path` equality
/// identifies depends on the platform's separators and is left unsaid.
#[verifier::external_body]
pub(crate) fn paths_equal(a: &str, b: &str) -> (res: bool)
    ensures
        a@ == b@ ==> res,
        plain_path(a@) && plain_path(b@) ==> (res <==> a@ == b@),
{
    std::path::Path::new(a) == std::path::Path::new(b)
}

/// A character that neither separates path components (on any platform),
/// nor marks a drive, nor starts an extension.
pub open spec fn plain_name_char(c: char) -> bool {
    c != '.' && c != '/' && c != '\\' && c != ':'
}

/// A bare file name `stem.ext` (one dot, non-empty stem and extension,
/// nothing else special in it): its extension.
pub open spec fn bare_name_extension(p: Seq<char>) -> Option<Seq<char>> {
    if exists|k: int|
        #![trigger p[k]]
        0 < k < p.len() - 1 && p[k] == '.' && forall|j: int|
            0 <= j < p.len() && j != k ==> plain_name_char(#[trigger] p[j]) {
        let k = choose|k: int|
            #![trigger p[k]]
            0 < k < p.len() - 1 && p[k] == '.' && forall|j: int|
                0 <= j < p.len() && j != k ==> plain_name_char(#[trigger] p[j]);
        Some(p.subrange(k + 1, p.len() as int))
    } else {
        None
    }
}

/// What follows the last `/` of a path (all of it when there is none).
pub open spec fn last_segment(p: Seq<char>) -> Seq<char>
    decreases p.len(),
{
    if p.len() == 0 {
        p
    } else if p.last() == '/' {
        Seq::empty()
    } else {
        last_segment(p.drop_last()).push(p.last())
    }
}

/// The extension a path's file name has when the path holds no `\\` (so
/// `/` is its only separator on every platform) and its last segment is a
/// bare `stem.ext` name.
pub open spec fn simple_path_extension(p: Seq<char>) -> Option<Seq<char>> {
    if !p.contains('\\') {
        bare_name_extension(last_segment(p))
    } else {
        None
    }
}

/// Calls `Path::extension`, as text. Trusted for what std documents and holds
/// on every platform: the extension follows the file name's final `.`, so it
/// holds no `.`, and a path without any `.` has none; a path without `\\`
/// whose last `/`-separated segment is a bare `stem.ext` name has that file
/// name, so its extension is `ext`. Where the file name of other paths starts
/// depends on the platform's separators, which is left unsaid.
#[verifier::external_body]
pub(crate) fn path_extension(p: &str) -> (res: Option<String>)
    ensures
        !p@.contains('.') ==> res is None,
        res is Some ==> !res->0@.contains('.'),
        simple_path_extension(p@) is Some ==> res is Some && res->0@ == simple_path_extension(
            p@,
        )->0,
{
    match std::path::Path::new(p).extension() {
        Some(e) => match e.to_str() {
            Some(s) => Some(s.to_string()),
            None => None,
        },
        None => None,
    }
}

/// The number of bytes a char takes in UTF-8 (what `char::len_utf8` returns).
pub open spec fn spec_len_utf8(c: char) -> nat {
    if (c as u32) < 0x80 {
        1
    } else if (c as u32) < 0x800 {
        2
    } else if (c as u32) < 0x10000 {
        3
    } else {
        4
    }
}

pub fn len_utf8(c: char) -> (res: usize)
    ensures
        res == spec_len_utf8(c),
{
    let v = c as u32;
    if v < 0x80 {
        1
    } else if v < 0x800 {
        2
    } else if v < 0x10000 {
        3
    } else {
        4
    }
}

/// The UTF-8 encoding of a single char is `len_utf8` bytes long.
pub proof fn lemma_len_utf8(c: char)
    ensures
        encode_utf8(seq![c]).len() == spec_len_utf8(c),
{
    assert(seq![c].drop_first() =~= Seq::<char>::empty());
    assert(encode_utf8(seq![c]) == vstd::utf8::encode_scalar(c as u32) + encode_utf8(
        Seq::<char>::empty(),
    ));
}

/// `encode_utf8` is one-to-one.
pub proof fn lemma_encode_utf8_injective(a: Seq<char>, b: Seq<char>)
    ensures
        encode_utf8(a) == encode_utf8(b) <==> a == b,
{
    vstd::utf8::encode_utf8_decode_utf8(a);
    vstd::utf8::encode_utf8_decode_utf8(b);
}

/// Byte-wise equality of two slices.
pub fn bytes_eq(a: &[u8], b: &[u8]) -> (res: bool)
    ensures
        res == (a@ == b@),
{
    if a.len() != b.len() {
        return false;
    }
    let mut i: usize = 0;
    while i < a.len()
        invariant
            a@.len() == b@.len(),
            0 <= i <= a@.len(),
            forall|j: int| 0 <= j < i ==> a@[j] == b@[j],
        decreases a@.len() - i,
    {
        if a[i] != b[i] {
            return false;
        }
        i = i + 1;
    }
    assert(a@ =~= b@);
    true
}

/// Whether two strings hold the same characters.
pub fn str_eq(a: &str, b: &str) -> (res: bool)
    ensures
        res == (a@ == b@),
{
    let r = bytes_eq(a.as_bytes(), b.as_bytes());
    proof {
        lemma_encode_utf8_injective(a@, b@);
    }
    r
}

/// ASCII lower-casing of one byte.
pub open spec fn ascii_lower(b: u8) -> u8 {
    if 0x41 <= b <= 0x5a {
        (b + 0x20) as u8
    } else {
        b
    }
}

/// What `str::eq_ignore_ascii_case` decides, over the UTF-8 bytes: same
/// length, and equal bytes once ASCII letters are lower-cased.
pub open spec fn ascii_eq_ignore_case(a: Seq<u8>, b: Seq<u8>) -> bool {
    a.len() == b.len() && forall|i: int| 0 <= i < a.len() ==> ascii_lower(a[i]) == ascii_lower(b[i])
}

pub fn eq_ignore_ascii_case(a: &str, b: &str) -> (res: bool)
    ensures
        res == ascii_eq_ignore_case(encode_utf8(a@), encode_utf8(b@)),
{
    let x = a.as_bytes();
    let y = b.as_bytes();
    if x.len() != y.len() {
        return false;
    }
    let mut i: usize = 0;
    while i < x.len()
        invariant
            x@ == encode_utf8(a@),
            y@ == encode_utf8(b@),
            x@.len() == y@.len(),
            0 <= i <= x@.len(),
            forall|j: int| 0 <= j < i ==> ascii_lower(x@[j]) == ascii_lower(y@[j]),
        decreases x@.len() - i,
    {
        let p = x[i];
        let q = y[i];
        let lp = if 0x41 <= p && p <= 0x5a { p + 0x20 } else { p };
        let lq = if 0x41 <= q && q <= 0x5a { q + 0x20 } else { q };
        assert(lp == ascii_lower(x@[i as int]) && lq == ascii_lower(y@[i as int]));
        if lp != lq {
            assert(!ascii_eq_ignore_case(x@, y@));
            return false;
        }
        i = i + 1;
    }
    true
}

/// `list[i..j]` is one of the `;`-separated entries of `list`.
pub open spec fn is_entry(list: Seq<char>, i: int, j: int) -> bool {
    &&& 0 <= i <= j <= list.len()
    &&& i == 0 || list[i - 1] == ';'
    &&& j == list.len() || list[j] == ';'
    &&& forall|k: int| i <= k < j ==> list[k] != ';'
}

/// `dir` is one of the `;`-separated entries of a search-path `list`,
/// ignoring ASCII case (how Windows compares `PATH` entries).
pub open spec fn lists_dir(list: Seq<char>, dir: Seq<char>) -> bool {
    exists|i: int, j: int|
        #[trigger] is_entry(list, i, j) && ascii_eq_ignore_case(
            encode_utf8(list.subrange(i, j)),
            encode_utf8(dir),
        )
}

/// Whether the search-path `list` (entries separated by `;`) already holds
/// `dir`, ignoring ASCII case.
pub fn path_list_contains(list: &str, dir: &str) -> (res: bool)
    ensures
        res == lists_dir(list@, dir@),
{
    let n = list.unicode_len();
    let ghost l = list@;
    let mut start: usize = 0;
    let mut k: usize = 0;
    while k < n
        invariant
            n == l.len(),
            l == list@,
            0 <= start <= k <= n,
            start == 0 || l[start - 1] == ';',
            forall|m: int| start <= m < k ==> l[m] != ';',
            forall|i: int, j: int|
                #[trigger] is_entry(l, i, j) && i < start ==> !ascii_eq_ignore_case(
                    encode_utf8(l.subrange(i, j)),
                    encode_utf8(dir@),
                ),
        decreases n - k,
    {
        if list.get_char(k) == ';' {
            let entry = list.substring_char(start, k);
            if eq_ignore_ascii_case(entry, dir) {
                assert(is_entry(l, start as int, k as int));
                return true;
            }
            proof {
                assert forall|i: int, j: int|
                    #[trigger] is_entry(l, i, j) && i < k + 1 implies !ascii_eq_ignore_case(
                    encode_utf8(l.subrange(i, j)),
                    encode_utf8(dir@),
                ) by {
                    if start <= i <= k {
                        if i > start {
                            assert(l[i - 1] != ';');
                        }
                        if j < k {
                            assert(l[j] != ';');
                        } else if j > k {
                            assert(l[k as int] != ';');
                        }
                    }
                }
            }
            start = k + 1;
        }
        k = k + 1;
    }
    let last = list.substring_char(start, n);
    let r = eq_ignore_ascii_case(last, dir);
    proof {
        if r {
            assert(is_entry(l, start as int, n as int));
        } else {
            assert forall|i: int, j: int| #[trigger] is_entry(l, i, j) implies !ascii_eq_ignore_case(
                encode_utf8(l.subrange(i, j)),
                encode_utf8(dir@),
            ) by {
                if i >= start {
                    if i > start {
                        assert(l[i - 1] != ';');
                    }
                    if j < n {
                        assert(l[j] != ';');
                    }
                }
            }
        }
    }
    r
}

/// Append the characters of `t` to `s`.
pub fn push_str(s: &mut String, t: &str)
    ensures
        final(s)@ == old(s)@ + t@,
{
    let n = t.unicode_len();
    let mut i: usize = 0;
    while i < n
        invariant
            n == t@.len(),
            0 <= i <= n,
            s@ == old(s)@ + t@.subrange(0, i as int),
        decreases n - i,
    {
        let c = t.get_char(i);
        string_push(s, c);
        assert(t@.subrange(0, i + 1) =~= t@.subrange(0, i as int).push(c));
        i = i + 1;
    }
    assert(t@.subrange(0, n as int) =~= t@);
}

/// Append the decimal digits of `n` to `s`, most significant first.
pub fn push_decimal(s: &mut String, n: usize)
    ensures
        final(s)@ == old(s)@ + crate::tensor::decimal(n as nat),
    decreases n,
{
    if n >= 10 {
        push_decimal(s, n / 10);
    }
    let d = (n % 10) as u8;
    let ch = (48u8 + d) as char;
    assert(ch == ((('0' as u32) + (n as nat) % 10) as char));
    string_push(s, ch);
    proof {
        if n >= 10 {
            assert(crate::tensor::decimal(n as nat) == crate::tensor::decimal((n / 10) as nat).push(ch));
        } else {
            assert(crate::tensor::decimal(n as nat) == seq![ch]);
        }
    }
    assert(s@ =~= old(s)@ + crate::tensor::decimal(n as nat));
}

} // verus!
