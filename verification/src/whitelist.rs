//! The `.rtw` whitelist: which container files RTorch is willing to load.
//!
//! The whitelist is a JSON document (`{"allowed": ["C:\\abs\\a.rtw", ...]}`)
//! whose entries are exact absolute paths. It is default-deny: an empty
//! whitelist allows nothing. The JSON scanner is hand-written and reads exactly
//! the shape it needs: it looks for an `"allowed"` key followed by `:`, then
//! the `[` after it, and collects every string literal up to the closing `]`.
//! Other keys and values are skipped.
use crate::error::RtorchError;
use crate::text::{
    ascii_eq_ignore_case, eq_ignore_ascii_case, len_utf8, paths_equal, plain_path, spec_len_utf8,
    str_from_utf8,
    string_push,
};
use vstd::prelude::*;
use vstd::slice::slice_subrange;
use vstd::utf8::{decode_first_scalar, decode_utf8, encode_utf8, valid_utf8};

verus! {

broadcast use vstd::utf8::group_utf8_lib;

/// Why the whitelist JSON could not be read.
#[derive(Clone, Copy, Debug, PartialEq, Eq, Structural)]
pub enum JsonError {
    /// The `"allowed"` key is not followed by an array.
    ExpectedArray,
    /// A backslash is the last byte of the input.
    UnterminatedEscape,
    /// A string literal has no closing quote.
    UnterminatedString,
}

pub open spec fn json_error_message(e: JsonError) -> Seq<char> {
    match e {
        JsonError::ExpectedArray => "expected '[' after \"allowed\""@,
        JsonError::UnterminatedEscape => "unterminated escape"@,
        JsonError::UnterminatedString => "unterminated string"@,
    }
}

impl JsonError {
    pub fn message(&self) -> (res: String)
        ensures
            res@ == json_error_message(*self),
    {
        match self {
            JsonError::ExpectedArray => String::from("expected '[' after \"allowed\""),
            JsonError::UnterminatedEscape => String::from("unterminated escape"),
            JsonError::UnterminatedString => String::from("unterminated string"),
        }
    }
}

pub open spec fn spec_is_ws(b: u8) -> bool {
    b == 0x20 || b == 0x09 || b == 0x0a || b == 0x0d
}

fn is_ws(b: u8) -> (res: bool)
    ensures
        res == spec_is_ws(b),
{
    b == 0x20 || b == 0x09 || b == 0x0a || b == 0x0d
}

/// The character a JSON escape `\e` stands for; unknown escapes keep `e`.
pub open spec fn unescape(e: u8) -> char {
    if e == 0x22 {
        '"'
    } else if e == 0x5c {
        '\\'
    } else if e == 0x2f {
        '/'
    } else if e == 0x6e {
        '\n'
    } else if e == 0x74 {
        '\t'
    } else if e == 0x72 {
        '\r'
    } else if e == 0x62 {
        '\u{8}'
    } else if e == 0x66 {
        '\u{c}'
    } else {
        e as char
    }
}

/// The first character of well-formed UTF-8 bytes.
pub open spec fn first_char(b: Seq<u8>) -> char {
    decode_first_scalar(b) as char
}

/// Scanning the inside of a string literal from offset `i`, having decoded
/// `acc` so far: the decoded text and the offset just past the closing quote.
/// A multi-byte character is decoded as UTF-8 when everything from it to the
/// end of the input is well-formed; otherwise each byte stands for the
/// character with that code.
pub open spec fn string_body(b: Seq<u8>, i: int, acc: Seq<char>) -> Result<
    (Seq<char>, int),
    JsonError,
>
    decreases b.len() - i,
{
    if i < 0 || i >= b.len() {
        Err(JsonError::UnterminatedString)
    } else if b[i] == 0x22 {
        Ok((acc, i + 1))
    } else if b[i] == 0x5c {
        if i + 1 < b.len() {
            string_body(b, i + 2, acc.push(unescape(b[i + 1])))
        } else {
            Err(JsonError::UnterminatedEscape)
        }
    } else if valid_utf8(b.subrange(i, b.len() as int)) {
        let c = first_char(b.subrange(i, b.len() as int));
        proof {
            lemma_first_char_width(b.subrange(i, b.len() as int));
        }
        string_body(b, i + spec_len_utf8(c), acc.push(c))
    } else {
        string_body(b, i + 1, acc.push(b[i] as char))
    }
}

/// The string literal whose opening quote is at `start`.
pub open spec fn string_at(b: Seq<u8>, start: int) -> Result<(Seq<char>, int), JsonError> {
    string_body(b, start + 1, Seq::empty())
}

pub proof fn lemma_string_body_advances(b: Seq<u8>, i: int, acc: Seq<char>)
    ensures
        string_body(b, i, acc) matches Ok((_, q)) ==> i < q <= b.len(),
    decreases b.len() - i,
{
    if i < 0 || i >= b.len() {
    } else if b[i] == 0x22 {
    } else if b[i] == 0x5c {
        if i + 1 < b.len() {
            lemma_string_body_advances(b, i + 2, acc.push(unescape(b[i + 1])));
        }
    } else if valid_utf8(b.subrange(i, b.len() as int)) {
        let c = first_char(b.subrange(i, b.len() as int));
        lemma_first_char_width(b.subrange(i, b.len() as int));
        lemma_string_body_advances(b, i + spec_len_utf8(c), acc.push(c));
    } else {
        lemma_string_body_advances(b, i + 1, acc.push(b[i] as char));
    }
}

/// A string literal ends after its opening quote and within the input.
pub proof fn lemma_string_at_advances(b: Seq<u8>, start: int)
    ensures
        string_at(b, start) matches Ok((_, q)) ==> start + 1 < q <= b.len(),
{
    lemma_string_body_advances(b, start + 1, Seq::empty());
}

/// The UTF-8 bytes of `allowed`.
pub open spec fn allowed_key() -> Seq<u8> {
    seq![0x61u8, 0x6cu8, 0x6cu8, 0x6fu8, 0x77u8, 0x65u8, 0x64u8]
}

/// The first offset at or after `j` that is not JSON whitespace.
pub open spec fn skip_ws(b: Seq<u8>, j: int) -> int
    decreases b.len() - j,
{
    if 0 <= j < b.len() && spec_is_ws(b[j]) {
        skip_ws(b, j + 1)
    } else {
        j
    }
}

/// Searching from `i` for an `"allowed"` string followed (after whitespace)
/// by `:`: the offset of that colon, or `None` when the input ends first.
pub open spec fn find_key(b: Seq<u8>, i: int) -> Result<Option<int>, JsonError>
    decreases b.len() - i,
{
    if i < 0 || i >= b.len() {
        Ok(None)
    } else if b[i] == 0x22 {
        match string_at(b, i) {
            Err(e) => Err(e),
            Ok((val, next)) => {
                proof {
                    lemma_string_at_advances(b, i);
                }
                let j = skip_ws(b, next);
                if encode_utf8(val) == allowed_key() && j < b.len() && b[j] == 0x3a {
                    Ok(Some(j))
                } else {
                    find_key(b, next)
                }
            },
        }
    } else {
        find_key(b, i + 1)
    }
}

/// Collecting, from `j` on, every string literal up to the first `]` outside
/// a string (or the end of the input), after the ones in `acc`.
pub open spec fn collect_strings(b: Seq<u8>, j: int, acc: Seq<Seq<char>>) -> Result<
    Seq<Seq<char>>,
    JsonError,
>
    decreases b.len() - j,
{
    if j < 0 || j >= b.len() {
        Ok(acc)
    } else if b[j] == 0x22 {
        match string_at(b, j) {
            Err(e) => Err(e),
            Ok((val, next)) => {
                proof {
                    lemma_string_at_advances(b, j);
                }
                collect_strings(b, next, acc.push(val))
            },
        }
    } else if b[j] == 0x5d {
        Ok(acc)
    } else {
        collect_strings(b, j + 1, acc)
    }
}

/// The allowed paths a whitelist document lists (over its UTF-8 bytes). No
/// `"allowed"` key means an empty list.
pub open spec fn parse_whitelist_spec(b: Seq<u8>) -> Result<Seq<Seq<char>>, JsonError> {
    match find_key(b, 0) {
        Err(e) => Err(e),
        Ok(None) => Ok(Seq::empty()),
        Ok(Some(colon)) => {
            let j = skip_ws(b, colon + 1);
            if j >= b.len() || b[j] != 0x5b {
                Err(JsonError::ExpectedArray)
            } else {
                collect_strings(b, j + 1, Seq::empty())
            }
        },
    }
}

pub open spec fn strings_view(v: Seq<String>) -> Seq<Seq<char>> {
    v.map_values(|s: String| s@)
}

/// The first character of well-formed UTF-8 is `len_utf8` bytes long, and
/// the input holds that many bytes.
pub proof fn lemma_first_char_width(b: Seq<u8>)
    requires
        valid_utf8(b),
        b.len() > 0,
    ensures
        decode_utf8(b).len() > 0,
        decode_utf8(b)[0] == first_char(b),
        1 <= spec_len_utf8(first_char(b)) <= b.len(),
{
    vstd::utf8::decode_utf8_first_scalar(b);
    crate::text::lemma_len_utf8(first_char(b));
    let c = first_char(b);
    assert(seq![c].drop_first() =~= Seq::<char>::empty());
    assert(encode_utf8(seq![c]) =~= vstd::utf8::encode_scalar(c as u32));
}

/// Read the string literal whose opening quote is at `start`: the decoded
/// text and the offset just past the closing quote.
fn read_json_string(bytes: &[u8], start: usize) -> (res: Result<(String, usize), JsonError>)
    requires
        start < bytes@.len(),
    ensures
        match string_at(bytes@, start as int) {
            Ok((s, q)) => res matches Ok((r, n)) && r@ == s && n == q,
            Err(e) => res == Err::<(String, usize), JsonError>(e),
        },
        res matches Ok((_, n)) ==> start < n <= bytes@.len(),
{
    proof {
        lemma_string_at_advances(bytes@, start as int);
    }
    let len = bytes.len();
    let mut out = String::new();
    let mut i: usize = start + 1;
    while i < bytes.len()
        invariant
            start < i,
            string_at(bytes@, start as int) == string_body(bytes@, i as int, out@),
        decreases bytes@.len() - i,
    {
        let c = bytes[i];
        if c == 0x22 {
            return Ok((out, i + 1));
        }
        if c == 0x5c {
            if i + 1 < bytes.len() {
                let e = bytes[i + 1];
                let ch = if e == 0x22 {
                    '"'
                } else if e == 0x5c {
                    '\\'
                } else if e == 0x2f {
                    '/'
                } else if e == 0x6e {
                    '\n'
                } else if e == 0x74 {
                    '\t'
                } else if e == 0x72 {
                    '\r'
                } else if e == 0x62 {
                    '\u{8}'
                } else if e == 0x66 {
                    '\u{c}'
                } else {
                    e as char
                };
                string_push(&mut out, ch);
                i = i + 2;
                continue ;
            }
            return Err(JsonError::UnterminatedEscape);
        }
        // Decode a (possibly multi-byte) UTF-8 character rather than reading
        // one byte as a char, so non-ASCII paths survive.
        let rest = slice_subrange(bytes, i, bytes.len());
        match str_from_utf8(rest) {
            Some(s) => {
                proof {
                    lemma_first_char_width(rest@);
                }
                let ch = if s.is_empty() {
                    '\u{FFFD}'
                } else {
                    s.get_char(0)
                };
                let adv = len_utf8(ch);
                string_push(&mut out, ch);
                i = i + adv;
            },
            None => {
                // Not well-formed UTF-8: keep the byte as the char with that
                // code rather than failing.
                string_push(&mut out, c as char);
                i = i + 1;
            },
        }
    }
    Err(JsonError::UnterminatedString)
}

fn is_allowed_key(v: &[u8]) -> (res: bool)
    ensures
        res == (v@ == allowed_key()),
{
    let r = v.len() == 7 && v[0] == 0x61 && v[1] == 0x6c && v[2] == 0x6c && v[3] == 0x6f && v[4]
        == 0x77 && v[5] == 0x65 && v[6] == 0x64;
    proof {
        if r {
            assert(v@ =~= allowed_key());
        }
    }
    r
}

fn skip_whitespace(bytes: &[u8], j: usize) -> (res: usize)
    requires
        j <= bytes@.len(),
    ensures
        res == skip_ws(bytes@, j as int),
        res <= bytes@.len(),
{
    let mut k = j;
    while k < bytes.len() && is_ws(bytes[k])
        invariant
            j <= k <= bytes@.len(),
            skip_ws(bytes@, j as int) == skip_ws(bytes@, k as int),
        decreases bytes@.len() - k,
    {
        k = k + 1;
    }
    k
}

/// Parse the whitelist JSON and return the allowed path strings.
pub fn parse_whitelist_json(text: &str) -> (res: Result<Vec<String>, JsonError>)
    ensures
        match parse_whitelist_spec(encode_utf8(text@)) {
            Ok(paths) => res matches Ok(v) && strings_view(v@) == paths,
            Err(e) => res == Err::<Vec<String>, JsonError>(e),
        },
{
    let bytes = text.as_bytes();
    // 1) Find the `"allowed"` key (a `"allowed"` string followed by `:`).
    let mut i: usize = 0;
    let mut pos: Option<usize> = None;
    while i < bytes.len()
        invariant_except_break
            pos is None,
        invariant
            bytes@ == encode_utf8(text@),
            find_key(bytes@, 0) == find_key(bytes@, i as int),
        ensures
            pos matches Some(c) ==> find_key(bytes@, 0) == Ok::<Option<int>, JsonError>(
                Some(c as int),
            ) && c < bytes@.len(),
            pos is None ==> find_key(bytes@, 0) == Ok::<Option<int>, JsonError>(None),
        decreases bytes@.len() - i,
    {
        if bytes[i] == 0x22 {
            let (val, next) = read_json_string(bytes, i)?;
            if is_allowed_key(val.as_str().as_bytes()) {
                let j = skip_whitespace(bytes, next);
                if j < bytes.len() && bytes[j] == 0x3a {
                    pos = Some(j);
                    break ;
                }
            }
            i = next;
        } else {
            i = i + 1;
        }
    }
    let colon = match pos {
        Some(c) => c,
        // No `allowed` key: an empty list.
        None => return Ok(Vec::new()),
    };
    // 2) Skip whitespace after the colon, then expect the '['.
    assert(bytes@.len() == bytes.len());
    let j = skip_whitespace(bytes, colon + 1);
    if j >= bytes.len() || bytes[j] != 0x5b {
        return Err(JsonError::ExpectedArray);
    }
    // 3) Collect every string literal inside the array.
    let mut j = j + 1;
    let mut paths: Vec<String> = Vec::new();
    assert(strings_view(paths@) =~= Seq::<Seq<char>>::empty());
    while j < bytes.len()
        invariant
            bytes@ == encode_utf8(text@),
            parse_whitelist_spec(bytes@) == collect_strings(bytes@, j as int, strings_view(paths@)),
        ensures
            parse_whitelist_spec(bytes@) == Ok::<Seq<Seq<char>>, JsonError>(strings_view(paths@)),
        decreases bytes@.len() - j,
    {
        if bytes[j] == 0x22 {
            let (val, next) = read_json_string(bytes, j)?;
            proof {
                assert(strings_view(paths@.push(val)) =~= strings_view(paths@).push(val@));
            }
            paths.push(val);
            j = next;
        } else if bytes[j] == 0x5d {
            break ;
        } else {
            j = j + 1;
        }
    }
    Ok(paths)
}

/// Skipping whitespace from `s` stops at `e` when every byte in between is
/// whitespace and the byte at `e` (if any) is not.
proof fn lemma_skip_ws_run(b: Seq<u8>, s: int, e: int)
    requires
        0 <= s <= e <= b.len(),
        forall|k: int| s <= k < e ==> spec_is_ws(#[trigger] b[k]),
        e == b.len() || !spec_is_ws(b[e]),
    ensures
        skip_ws(b, s) == e,
    decreases e - s,
{
    if s < e {
        lemma_skip_ws_run(b, s + 1, e);
    }
}

/// An ASCII byte that is neither a quote nor a backslash stands for itself
/// inside a string literal.
proof fn lemma_string_ascii_step(b: Seq<u8>, i: int, acc: Seq<char>)
    requires
        0 <= i < b.len(),
        b[i] < 0x80,
        b[i] != 0x22,
        b[i] != 0x5c,
    ensures
        string_body(b, i, acc) == string_body(b, i + 1, acc.push(b[i] as char)),
{
    let rest = b.subrange(i, b.len() as int);
    if valid_utf8(rest) {
        let x: u8 = rest[0];
        assert(x & 0x7f == x) by (bit_vector)
            requires
                x < 0x80,
        ;
        assert(first_char(rest) == x as char);
    }
}

/// A run of such bytes stands for itself, character by character.
proof fn lemma_string_ascii_run(b: Seq<u8>, i: int, e: int, acc: Seq<char>)
    requires
        0 <= i <= e < b.len(),
        forall|k: int|
            i <= k < e ==> #[trigger] b[k] < 0x80 && b[k] != 0x22 && b[k] != 0x5c,
    ensures
        string_body(b, i, acc) == string_body(
            b,
            e,
            acc + b.subrange(i, e).map_values(|x: u8| x as char),
        ),
    decreases e - i,
{
    if i < e {
        lemma_string_ascii_step(b, i, acc);
        lemma_string_ascii_run(b, i + 1, e, acc.push(b[i] as char));
        assert(acc.push(b[i] as char) + b.subrange(i + 1, e).map_values(|x: u8| x as char)
            =~= acc + b.subrange(i, e).map_values(|x: u8| x as char));
    } else {
        assert(acc + b.subrange(i, e).map_values(|x: u8| x as char) =~= acc);
    }
}

/// ASCII bytes read as characters encode back to the same bytes.
proof fn lemma_encode_ascii(bs: Seq<u8>)
    requires
        forall|k: int| 0 <= k < bs.len() ==> #[trigger] bs[k] < 0x80,
    ensures
        encode_utf8(bs.map_values(|x: u8| x as char)) == bs,
    decreases bs.len(),
{
    let cs = bs.map_values(|x: u8| x as char);
    if bs.len() > 0 {
        let x: u8 = bs[0];
        let v: u32 = x as u32;
        assert(cs[0] as u32 == v);
        assert((v & 0x7f) as u8 == x) by (bit_vector)
            requires
                v == x as u32,
                x < 0x80,
        ;
        assert(vstd::utf8::encode_scalar(v) =~= seq![x]);
        assert(cs.drop_first() =~= bs.drop_first().map_values(|x: u8| x as char));
        lemma_encode_ascii(bs.drop_first());
        assert(seq![x] + bs.drop_first() =~= bs);
    } else {
        assert(cs =~= Seq::<char>::empty());
    }
}

/// The key search passes over bytes that hold no quote.
proof fn lemma_find_key_skips(b: Seq<u8>, i: int, j: int)
    requires
        0 <= i <= j <= b.len(),
        forall|k: int| i <= k < j ==> #[trigger] b[k] != 0x22,
    ensures
        find_key(b, i) == find_key(b, j),
    decreases j - i,
{
    if i < j {
        lemma_find_key_skips(b, i + 1, j);
    }
}

/// What a string literal reads depends only on the bytes from its start on;
/// the offset it ends at moves with them.
proof fn lemma_string_body_shift(x: Seq<u8>, s: Seq<u8>, k: int, acc: Seq<char>)
    requires
        0 <= k,
    ensures
        string_body(x + s, x.len() + k, acc) == match string_body(s, k, acc) {
            Ok((v, q)) => Ok((v, q + x.len())),
            Err(e) => Err(e),
        },
    decreases s.len() - k,
{
    let b = x + s;
    let i = x.len() + k;
    if k < s.len() {
        assert(b[i] == s[k]);
        assert(b.subrange(i, b.len() as int) =~= s.subrange(k, s.len() as int));
        if s[k] == 0x22 {
        } else if s[k] == 0x5c {
            if k + 1 < s.len() {
                assert(b[i + 1] == s[k + 1]);
                lemma_string_body_shift(x, s, k + 2, acc.push(unescape(s[k + 1])));
            }
        } else if valid_utf8(s.subrange(k, s.len() as int)) {
            let c = first_char(s.subrange(k, s.len() as int));
            lemma_first_char_width(s.subrange(k, s.len() as int));
            lemma_string_body_shift(x, s, k + spec_len_utf8(c), acc.push(c));
        } else {
            lemma_string_body_shift(x, s, k + 1, acc.push(s[k] as char));
        }
    }
}

/// Collecting the strings of an array depends only on the bytes from where
/// it starts.
proof fn lemma_collect_strings_shift(x: Seq<u8>, s: Seq<u8>, k: int, acc: Seq<Seq<char>>)
    requires
        0 <= k,
    ensures
        collect_strings(x + s, x.len() + k, acc) == collect_strings(s, k, acc),
    decreases s.len() - k,
{
    let b = x + s;
    let i = x.len() + k;
    if k < s.len() {
        assert(b[i] == s[k]);
        if s[k] == 0x22 {
            lemma_string_body_shift(x, s, k + 1, Seq::empty());
            lemma_string_at_advances(s, k);
            match string_at(s, k) {
                Ok((v, q)) => {
                    lemma_collect_strings_shift(x, s, q, acc.push(v));
                },
                Err(e) => {},
            }
        } else if s[k] == 0x5d {
        } else {
            lemma_collect_strings_shift(x, s, k + 1, acc);
        }
    }
}

/// A whitelist document whose text before the `"allowed"` key holds no
/// quote, with `w1` between the key and its colon, `w2` between the colon
/// and the `[`, and `rest` after the `[`.
pub open spec fn keyed_document(lead: Seq<u8>, w1: Seq<u8>, w2: Seq<u8>, rest: Seq<u8>) -> Seq<
    u8,
> {
    lead + seq![0x22u8] + allowed_key() + seq![0x22u8] + w1 + seq![0x3au8] + w2 + seq![0x5bu8]
        + rest
}

proof fn lemma_keyed_document_list(lead: Seq<u8>, w1: Seq<u8>, w2: Seq<u8>, rest: Seq<u8>)
    requires
        forall|k: int| 0 <= k < lead.len() ==> #[trigger] lead[k] != 0x22,
        forall|k: int| 0 <= k < w1.len() ==> spec_is_ws(#[trigger] w1[k]),
        forall|k: int| 0 <= k < w2.len() ==> spec_is_ws(#[trigger] w2[k]),
    ensures
        parse_whitelist_spec(keyed_document(lead, w1, w2, rest)) == collect_strings(
            rest,
            0,
            Seq::empty(),
        ),
{
    let key = allowed_key();
    let head = lead + seq![0x22u8] + key + seq![0x22u8] + w1 + seq![0x3au8] + w2 + seq![0x5bu8];
    let b = keyed_document(lead, w1, w2, rest);
    assert(b =~= head + rest);
    let p = lead.len() as int;
    let next = p + 9;
    let colon = next + w1.len();
    let open = colon + 1 + w2.len();
    assert(head.len() == open + 1);
    // The lead holds no quote.
    assert forall|k: int| 0 <= k < p implies #[trigger] b[k] != 0x22 by {
        assert(b[k] == lead[k]);
    }
    lemma_find_key_skips(b, 0, p);
    // The key reads as `allowed`.
    assert(b[p] == 0x22);
    assert(b.subrange(p + 1, p + 8) =~= key);
    assert forall|k: int| p + 1 <= k < p + 8 implies #[trigger] b[k] < 0x80 && b[k] != 0x22
        && b[k] != 0x5c by {
        assert(b[k] == key[k - p - 1]);
    }
    lemma_string_ascii_run(b, p + 1, p + 8, Seq::empty());
    assert(b[p + 8] == 0x22);
    let val = Seq::<char>::empty() + key.map_values(|x: u8| x as char);
    assert(val =~= key.map_values(|x: u8| x as char));
    assert(string_at(b, p) == Ok::<(Seq<char>, int), JsonError>((val, next)));
    lemma_encode_ascii(key);
    // Whitespace up to the colon, then up to the bracket.
    assert forall|k: int| next <= k < colon implies spec_is_ws(#[trigger] b[k]) by {
        assert(b[k] == w1[k - next]);
    }
    assert(b[colon] == 0x3a);
    lemma_skip_ws_run(b, next, colon);
    assert(find_key(b, p) == Ok::<Option<int>, JsonError>(Some(colon)));
    assert forall|k: int| colon + 1 <= k < open implies spec_is_ws(#[trigger] b[k]) by {
        assert(b[k] == w2[k - colon - 1]);
    }
    assert(b[open] == 0x5b);
    lemma_skip_ws_run(b, colon + 1, open);
    lemma_collect_strings_shift(head, rest, 0, Seq::empty());
}

/// JSON whitespace (space, tab, line feed and carriage return, in any mix and
/// number) between the `"allowed"` key and its colon, and between the colon
/// and the `[`, changes nothing in the list read.
pub proof fn lemma_whitespace_around_key(lead: Seq<u8>, w1: Seq<u8>, w2: Seq<u8>, rest: Seq<u8>)
    requires
        forall|k: int| 0 <= k < lead.len() ==> #[trigger] lead[k] != 0x22,
        forall|k: int|
            0 <= k < w1.len() ==> #[trigger] w1[k] == 0x20 || w1[k] == 0x09 || w1[k] == 0x0a
                || w1[k] == 0x0d,
        forall|k: int|
            0 <= k < w2.len() ==> #[trigger] w2[k] == 0x20 || w2[k] == 0x09 || w2[k] == 0x0a
                || w2[k] == 0x0d,
    ensures
        parse_whitelist_spec(keyed_document(lead, w1, w2, rest)) == parse_whitelist_spec(
            keyed_document(lead, Seq::empty(), Seq::empty(), rest),
        ),
{
    lemma_keyed_document_list(lead, w1, w2, rest);
    lemma_keyed_document_list(lead, Seq::empty(), Seq::empty(), rest);
}

/// How paths are spelled and compared on the platform the program runs on.
#[derive(Clone, Copy, Debug, PartialEq, Eq, Structural)]
pub enum PathStyle {
    /// Drive-letter paths, compared ignoring ASCII case; `canonicalize`
    /// prefixes them with `\\?\`.
    Windows,
    /// Slash-separated paths, compared as paths.
    Posix,
}

/// The `\\?\` prefix that marks a Windows verbatim path.
pub open spec fn verbatim_prefix() -> Seq<char> {
    seq!['\\', '\\', '?', '\\']
}

/// A path without its verbatim prefix, if it has one.
pub open spec fn spec_strip_verbatim(p: Seq<char>) -> Seq<char> {
    if p.len() >= 4 && p.subrange(0, 4) == verbatim_prefix() {
        p.subrange(4, p.len() as int)
    } else {
        p
    }
}

/// Whether `target` is listed among `entries`, given `same[i]`: the
/// platform's path comparison of entry `i` with `target` (used for POSIX
/// paths; Windows paths are compared here, up to ASCII case and without the
/// verbatim prefix).
pub open spec fn spec_allowed_by(
    entries: Seq<Seq<char>>,
    target: Seq<char>,
    style: PathStyle,
    same: Seq<bool>,
) -> bool {
    match style {
        PathStyle::Windows => exists|i: int|
            0 <= i < entries.len() && ascii_eq_ignore_case(
                encode_utf8(spec_strip_verbatim(#[trigger] entries[i])),
                encode_utf8(target),
            ),
        PathStyle::Posix => exists|i: int| 0 <= i < entries.len() && i < same.len() && #[trigger] same[i],
    }
}

/// Strip the Windows verbatim prefix (`\\?\`) that `std::fs::canonicalize`
/// produces, so a canonical path compares equal to the plain path a user wrote.
pub fn strip_verbatim(p: &str) -> (res: &str)
    ensures
        res@ == spec_strip_verbatim(p@),
{
    let n = p.unicode_len();
    if n >= 4 && p.get_char(0) == '\\' && p.get_char(1) == '\\' && p.get_char(2) == '?'
        && p.get_char(3) == '\\' {
        assert(p@.subrange(0, 4) =~= verbatim_prefix());
        p.substring_char(4, n)
    } else {
        proof {
            if p@.len() >= 4 && p@.subrange(0, 4) == verbatim_prefix() {
                assert(p@[0] == p@.subrange(0, 4)[0]);
                assert(p@[1] == p@.subrange(0, 4)[1]);
                assert(p@[2] == p@.subrange(0, 4)[2]);
                assert(p@[3] == p@.subrange(0, 4)[3]);
            }
        }
        p
    }
}

/// Canonical absolute paths that may be loaded.
#[derive(Debug, Clone)]
pub struct Whitelist {
    allowed: Vec<String>,
}

impl View for Whitelist {
    type V = Seq<Seq<char>>;

    closed spec fn view(&self) -> Seq<Seq<char>> {
        strings_view(self.allowed@)
    }
}

impl Default for Whitelist {
    /// The empty whitelist, which allows nothing.
    fn default() -> (res: Self)
        ensures
            res@.len() == 0,
    {
        let r = Whitelist { allowed: Vec::new() };
        assert(r@ =~= Seq::<Seq<char>>::empty());
        r
    }
}

impl Whitelist {
    /// Load a whitelist from an in-memory JSON document. A document without
    /// an `"allowed"` key yields the empty whitelist.
    pub fn load_from_text(text: &str) -> (res: Result<Whitelist, RtorchError>)
        ensures
            match parse_whitelist_spec(encode_utf8(text@)) {
                Ok(paths) => res matches Ok(w) && w@ == paths,
                Err(e) => res matches Err(RtorchError::WhitelistError(m)) && m@
                    == json_error_message(e),
            },
    {
        match parse_whitelist_json(text) {
            Ok(allowed) => Ok(Whitelist { allowed }),
            Err(e) => Err(RtorchError::whitelist(e.message())),
        }
    }

    /// For each entry, whether the platform's path comparison finds it equal
    /// to `target`. Which differently spelled paths compare equal depends on
    /// the platform, so only "an identical entry compares equal" is stated.
    pub fn path_matches(&self, target: &str) -> (res: Vec<bool>)
        ensures
            res@.len() == self@.len(),
            forall|i: int| 0 <= i < self@.len() && self@[i] == target@ ==> #[trigger] res@[i],
            forall|i: int|
                0 <= i < self@.len() && plain_path(self@[i]) && plain_path(target@) ==> (
                #[trigger] res@[i] <==> self@[i] == target@),
    {
        let mut out: Vec<bool> = Vec::new();
        let mut i: usize = 0;
        while i < self.allowed.len()
            invariant
                0 <= i <= self.allowed@.len(),
                out@.len() == i,
                forall|k: int| 0 <= k < i && self@[k] == target@ ==> #[trigger] out@[k],
                forall|k: int|
                    0 <= k < i && plain_path(self@[k]) && plain_path(target@) ==> (
                    #[trigger] out@[k] <==> self@[k] == target@),
            decreases self.allowed@.len() - i,
        {
            let entry = self.allowed[i].as_str();
            assert(entry@ == self@[i as int]);
            out.push(paths_equal(entry, target));
            i = i + 1;
        }
        out
    }

    /// Whether `target` is listed, given `same[i]`: whether the platform's
    /// path comparison found entry `i` equal to `target`. With Windows paths
    /// an entry matches when, without its `\\?\` verbatim prefix, it equals
    /// `target` up to ASCII case; with POSIX paths an entry matches exactly
    /// when its comparison said so. An unlisted path is refused, and the
    /// empty whitelist allows nothing.
    pub fn allowed_by(&self, target: &str, style: PathStyle, same: &[bool]) -> (res: bool)
        ensures
            res == spec_allowed_by(self@, target@, style, same@),
    {
        let mut i: usize = 0;
        while i < self.allowed.len()
            invariant
                0 <= i <= self.allowed@.len(),
                style == PathStyle::Posix ==> forall|k: int|
                    0 <= k < i && k < same@.len() ==> !(#[trigger] same@[k]),
                style == PathStyle::Windows ==> forall|k: int|
                    0 <= k < i ==> !ascii_eq_ignore_case(
                        encode_utf8(spec_strip_verbatim(#[trigger] self@[k])),
                        encode_utf8(target@),
                    ),
            decreases self.allowed@.len() - i,
        {
            let entry = self.allowed[i].as_str();
            assert(entry@ == self@[i as int]);
            let hit = match style {
                PathStyle::Windows => eq_ignore_ascii_case(strip_verbatim(entry), target),
                PathStyle::Posix => i < same.len() && same[i],
            };
            if hit {
                return true;
            }
            i = i + 1;
        }
        false
    }

    /// Whether the (already normalized, absolute) path `target` is listed,
    /// comparing with the platform's path rules (see `allowed_by`). The empty
    /// whitelist allows nothing; with Windows paths the answer is exact.
    pub fn is_allowed(&self, target: &str, style: PathStyle) -> (res: bool)
        ensures
            self@.len() == 0 ==> !res,
            style == PathStyle::Windows ==> (res <==> exists|i: int|
                0 <= i < self@.len() && ascii_eq_ignore_case(
                    encode_utf8(spec_strip_verbatim(#[trigger] self@[i])),
                    encode_utf8(target@),
                )),
            style == PathStyle::Posix ==> ((exists|i: int| 0 <= i < self@.len() && self@[i]
                == target@) ==> res),
            (style == PathStyle::Posix && plain_path(target@) && forall|i: int|
                0 <= i < self@.len() ==> plain_path(#[trigger] self@[i])) ==> (res <==> exists|
                i: int,
            | 0 <= i < self@.len() && self@[i] == target@),
    {
        match style {
            PathStyle::Windows => self.allowed_by(target, style, &[]),
            PathStyle::Posix => {
                let same = self.path_matches(target);
                proof {
                    if exists|i: int| 0 <= i < self@.len() && self@[i] == target@ {
                        let i = choose|i: int| 0 <= i < self@.len() && self@[i] == target@;
                        assert(same@[i]);
                    }
                    if plain_path(target@) && forall|i: int|
                        0 <= i < self@.len() ==> plain_path(#[trigger] self@[i]) {
                        if exists|i: int| 0 <= i < self@.len() && i < same@.len() && same@[i] {
                            let i = choose|i: int|
                                0 <= i < self@.len() && i < same@.len() && same@[i];
                            assert(plain_path(self@[i]));
                        }
                    }
                }
                self.allowed_by(target, style, same.as_slice())
            },
        }
    }

    /// Number of allowed paths.
    pub fn len(&self) -> (res: usize)
        ensures
            res == self@.len(),
    {
        self.allowed.len()
    }

    pub fn is_empty(&self) -> (res: bool)
        ensures
            res == (self@.len() == 0),
    {
        self.allowed.len() == 0
    }
}

} // verus!
