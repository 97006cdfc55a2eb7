use vstd::prelude::*;
use vstd::string::StringExecFns;

use crate::output::{int_decimal, nat_decimal, push_char, push_decimal, push_i64};

verus! {

/// The characters of `s`.
pub fn chars_of(s: &str) -> (v: Vec<char>)
    ensures
        v@ == s@,
{
    let mut v: Vec<char> = Vec::new();
    for c in it: s.chars()
        invariant
            v@ == it.seq().take(it.index() as int),
    {
        v.push(c);
    }
    v
}

/// Appends a string slice.
pub(crate) fn push_text(s: &mut String, t: &str)
    ensures
        final(s)@ == old(s)@ + t@,
{
    s.append(t);
}

/// A control character: U+0000 to U+001F or U+007F to U+009F.
pub open spec fn is_control(c: char) -> bool {
    (c as u32) <= 0x1F || (0x7F <= (c as u32) && (c as u32) <= 0x9F)
}

/// How one character appears inside a JSON string.
pub open spec fn escape_char(c: char) -> Seq<char> {
    if c == '\\' {
        seq!['\\', '\\']
    } else if c == '"' {
        seq!['\\', '"']
    } else if c == '\n' {
        seq!['\\', 'n']
    } else if c == '\r' {
        seq!['\\', 'r']
    } else if c == '\t' {
        seq!['\\', 't']
    } else if is_control(c) {
        seq![' ']
    } else {
        seq![c]
    }
}

/// `s` escaped for a JSON string: backslash, quote, line feed, carriage
/// return and tab escaped, other control characters turned into spaces.
pub open spec fn escape_text(s: Seq<char>) -> Seq<char>
    decreases s.len(),
{
    if s.len() == 0 {
        Seq::empty()
    } else {
        escape_text(s.drop_last()) + escape_char(s.last())
    }
}

/// `value` escaped for a JSON string.
pub fn json_escape(value: &str) -> (escaped: String)
    ensures
        escaped@ == escape_text(value@),
{
    let chars = chars_of(value);
    let mut escaped = String::new();
    let mut i: usize = 0;
    while i < chars.len()
        invariant
            chars@ == value@,
            i <= chars@.len(),
            escaped@ == escape_text(chars@.take(i as int)),
        decreases chars@.len() - i,
    {
        let c = chars[i];
        let ghost before = escaped@;
        if c == '\\' {
            push_char(&mut escaped, '\\');
            push_char(&mut escaped, '\\');
        } else if c == '"' {
            push_char(&mut escaped, '\\');
            push_char(&mut escaped, '"');
        } else if c == '\n' {
            push_char(&mut escaped, '\\');
            push_char(&mut escaped, 'n');
        } else if c == '\r' {
            push_char(&mut escaped, '\\');
            push_char(&mut escaped, 'r');
        } else if c == '\t' {
            push_char(&mut escaped, '\\');
            push_char(&mut escaped, 't');
        } else if (c as u32) <= 0x1F || (0x7F <= (c as u32) && (c as u32) <= 0x9F) {
            push_char(&mut escaped, ' ');
        } else {
            push_char(&mut escaped, c);
        }
        proof {
            assert(chars@.take(i + 1).drop_last() =~= chars@.take(i as int));
            assert(escaped@ =~= before + escape_char(c));
        }
        i = i + 1;
    }
    proof {
        assert(chars@.take(chars@.len() as int) =~= chars@);
    }
    escaped
}

/// The value of a hexadecimal digit.
pub open spec fn hex_value(b: u8) -> Option<u8> {
    if 48 <= b <= 57 {
        Some((b - 48) as u8)
    } else if 97 <= b <= 102 {
        Some((b - 87) as u8)
    } else if 65 <= b <= 70 {
        Some((b - 55) as u8)
    } else {
        None
    }
}

/// The value of a hexadecimal digit, upper or lower case.
pub fn hex(value: u8) -> (digit: Option<u8>)
    ensures
        digit == hex_value(value),
{
    if 48 <= value && value <= 57 {
        Some(value - 48)
    } else if 97 <= value && value <= 102 {
        Some(value - 97 + 10)
    } else if 65 <= value && value <= 70 {
        Some(value - 65 + 10)
    } else {
        None
    }
}

/// A character allowed in a file name handed to the server: an ASCII letter
/// or digit, `.`, `_` or `-`.
pub open spec fn is_name_char(c: char) -> bool {
    ('a' <= c && c <= 'z') || ('A' <= c && c <= 'Z') || ('0' <= c && c <= '9') || c == '.' || c == '_'
        || c == '-'
}

/// A non-empty name made only of name characters.
pub open spec fn safe_name_spec(s: Seq<char>) -> bool {
    s.len() > 0 && forall|i: int| 0 <= i < s.len() ==> is_name_char(#[trigger] s[i])
}

/// Whether `value` is a safe file name: non-empty, ASCII letters, digits,
/// `.`, `_` and `-` only.
pub fn safe_name(value: &str) -> (ok: bool)
    ensures
        ok == safe_name_spec(value@),
{
    let chars = chars_of(value);
    if chars.len() == 0 {
        return false;
    }
    let mut i: usize = 0;
    while i < chars.len()
        invariant
            chars@ == value@,
            i <= chars@.len(),
            forall|j: int| 0 <= j < i ==> is_name_char(#[trigger] chars@[j]),
        decreases chars@.len() - i,
    {
        let c = chars[i];
        if !(('a' <= c && c <= 'z') || ('A' <= c && c <= 'Z') || ('0' <= c && c <= '9') || c == '.'
            || c == '_' || c == '-') {
            return false;
        }
        i = i + 1;
    }
    true
}

/// Whether `value` names a file that the server may serve.
pub fn safe_static_name(value: &str) -> (ok: bool)
    ensures
        ok == safe_name_spec(value@),
{
    safe_name(value)
}

/// `s` ends with `t`.
pub open spec fn ends_with(s: Seq<char>, t: Seq<char>) -> bool {
    t.len() <= s.len() && s.subrange(s.len() - t.len(), s.len() as int) == t
}

/// `s` begins with `t`.
pub open spec fn begins_with(s: Seq<char>, t: Seq<char>) -> bool {
    t.len() <= s.len() && s.subrange(0, t.len() as int) == t
}

/// Whether the characters of `s` end with those of `suffix`.
fn ends_with_text(s: &Vec<char>, suffix: &str) -> (b: bool)
    ensures
        b == ends_with(s@, suffix@),
{
    let t = chars_of(suffix);
    if t.len() > s.len() {
        return false;
    }
    let offset = s.len() - t.len();
    let slen = s.len();
    let mut k: usize = 0;
    while k < t.len()
        invariant
            slen == s@.len(),
            t@ == suffix@,
            t@.len() <= s@.len(),
            offset == s@.len() - t@.len(),
            k <= t@.len(),
            forall|j: int| 0 <= j < k ==> s@[offset + j] == t@[j],
        decreases t@.len() - k,
    {
        assert(offset + k < s@.len());
        if s[offset + k] != t[k] {
            proof {
                assert(s@.subrange(offset as int, s@.len() as int)[k as int] == s@[offset + k]);
            }
            return false;
        }
        k = k + 1;
    }
    proof {
        assert(s@.subrange(offset as int, s@.len() as int) =~= t@);
    }
    true
}

/// Whether the characters of `s` from `start` on begin with those of `prefix`.
pub(crate) fn begins_with_at(s: &Vec<char>, start: usize, prefix: &Vec<char>) -> (b: bool)
    requires
        start <= s@.len(),
    ensures
        b == begins_with(s@.subrange(start as int, s@.len() as int), prefix@),
{
    let ghost rest = s@.subrange(start as int, s@.len() as int);
    if prefix.len() > s.len() - start {
        return false;
    }
    let slen = s.len();
    let mut k: usize = 0;
    while k < prefix.len()
        invariant
            slen == s@.len(),
            start <= s@.len(),
            rest == s@.subrange(start as int, s@.len() as int),
            prefix@.len() <= rest.len(),
            k <= prefix@.len(),
            forall|j: int| 0 <= j < k ==> rest[j] == prefix@[j],
        decreases prefix@.len() - k,
    {
        assert(start + k < s@.len());
        if s[start + k] != prefix[k] {
            proof {
                assert(rest.subrange(0, prefix@.len() as int)[k as int] == rest[k as int]);
            }
            return false;
        }
        k = k + 1;
    }
    proof {
        assert(rest.subrange(0, prefix@.len() as int) =~= prefix@);
    }
    true
}

/// The `Content-Type` for a served file, chosen by its extension.
pub open spec fn content_type_spec(name: Seq<char>) -> Seq<char> {
    if ends_with(name, ".html"@) {
        "text/html; charset=utf-8"@
    } else if ends_with(name, ".css"@) {
        "text/css; charset=utf-8"@
    } else if ends_with(name, ".js"@) {
        "application/javascript; charset=utf-8"@
    } else if ends_with(name, ".json"@) {
        "application/json; charset=utf-8"@
    } else {
        "application/octet-stream"@
    }
}

/// The `Content-Type` for a served file, chosen by its extension.
pub fn content_type(name: &str) -> (kind: &'static str)
    ensures
        kind@ == content_type_spec(name@),
{
    let chars = chars_of(name);
    if ends_with_text(&chars, ".html") {
        "text/html; charset=utf-8"
    } else if ends_with_text(&chars, ".css") {
        "text/css; charset=utf-8"
    } else if ends_with_text(&chars, ".js") {
        "application/javascript; charset=utf-8"
    } else if ends_with_text(&chars, ".json") {
        "application/json; charset=utf-8"
    } else {
        "application/octet-stream"
    }
}

/// The reason phrase sent with an HTTP status code.
pub open spec fn reason_spec(status: u16) -> Seq<char> {
    if status == 200 {
        "OK"@
    } else if status == 202 {
        "Accepted"@
    } else if status == 400 {
        "Bad Request"@
    } else if status == 404 {
        "Not Found"@
    } else if status == 405 {
        "Method Not Allowed"@
    } else if status == 409 {
        "Conflict"@
    } else if status == 412 {
        "Precondition Failed"@
    } else {
        "Error"@
    }
}

/// The reason phrase sent with an HTTP status code.
pub fn reason_phrase(status: u16) -> (reason: &'static str)
    ensures
        reason@ == reason_spec(status),
{
    match status {
        200 => "OK",
        202 => "Accepted",
        400 => "Bad Request",
        404 => "Not Found",
        405 => "Method Not Allowed",
        409 => "Conflict",
        412 => "Precondition Failed",
        _ => "Error",
    }
}

/// A whitespace character as `char::is_whitespace` sees it.
pub open spec fn is_ws_char(c: char) -> bool {
    let u = c as u32;
    ||| 9 <= u && u <= 13
    ||| u == 32 || u == 0x85 || u == 0xA0 || u == 0x1680
    ||| 0x2000 <= u && u <= 0x200A
    ||| u == 0x2028 || u == 0x2029 || u == 0x202F || u == 0x205F || u == 0x3000
}

pub(crate) fn is_ws(c: char) -> (b: bool)
    ensures
        b == is_ws_char(c),
{
    let u = c as u32;
    (9 <= u && u <= 13) || u == 32 || u == 0x85 || u == 0xA0 || u == 0x1680 || (0x2000 <= u && u
        <= 0x200A) || u == 0x2028 || u == 0x2029 || u == 0x202F || u == 0x205F || u == 0x3000
}

/// The index of the first character at or after `i` that is no whitespace.
pub open spec fn skip_ws_chars(s: Seq<char>, i: int) -> int
    decreases s.len() - i,
{
    if 0 <= i < s.len() && is_ws_char(s[i]) {
        skip_ws_chars(s, i + 1)
    } else {
        i
    }
}

/// The end left after removing whitespace from the back of `s[lo..j]`.
pub open spec fn trim_end_chars(s: Seq<char>, lo: int, j: int) -> int
    decreases j,
{
    if lo < j && 0 < j <= s.len() && is_ws_char(s[j - 1]) {
        trim_end_chars(s, lo, j - 1)
    } else {
        j
    }
}

/// `s` without leading whitespace.
pub open spec fn trim_start_text(s: Seq<char>) -> Seq<char> {
    s.subrange(skip_ws_chars(s, 0), s.len() as int)
}

/// `s` without leading and trailing whitespace.
pub open spec fn trim_text(s: Seq<char>) -> Seq<char> {
    let lo = skip_ws_chars(s, 0);
    s.subrange(lo, trim_end_chars(s, lo, s.len() as int))
}

/// The bounds of `s[lo..hi]` without leading and trailing whitespace.
pub(crate) fn trim_chars(s: &Vec<char>, lo: usize, hi: usize) -> (r: (usize, usize))
    requires
        lo <= hi <= s@.len(),
    ensures
        lo <= r.0 <= r.1 <= hi,
        s@.subrange(r.0 as int, r.1 as int) == trim_text(s@.subrange(lo as int, hi as int)),
{
    let ghost t = s@.subrange(lo as int, hi as int);
    let mut a = lo;
    while a < hi && is_ws(s[a])
        invariant
            lo <= a <= hi <= s@.len(),
            t == s@.subrange(lo as int, hi as int),
            skip_ws_chars(t, a - lo) == skip_ws_chars(t, 0),
        decreases hi - a,
    {
        a = a + 1;
    }
    let mut b = hi;
    while a < b && is_ws(s[b - 1])
        invariant
            lo <= a <= b <= hi <= s@.len(),
            t == s@.subrange(lo as int, hi as int),
            a - lo == skip_ws_chars(t, 0),
            trim_end_chars(t, a - lo, b - lo) == trim_end_chars(t, a - lo, t.len() as int),
        decreases b,
    {
        b = b - 1;
    }
    proof {
        assert(s@.subrange(a as int, b as int) =~= t.subrange(a - lo, b - lo));
    }
    (a, b)
}

/// `pat` occurs in `s` at index `i`.
pub open spec fn matches_at(s: Seq<char>, pat: Seq<char>, i: int) -> bool {
    0 <= i && i + pat.len() <= s.len() && s.subrange(i, i + pat.len()) == pat
}

/// The first index at or after `i` where `pat` occurs in `s`.
pub open spec fn first_match_from(s: Seq<char>, pat: Seq<char>, i: int) -> Option<int>
    decreases s.len() - i,
{
    if i < 0 || i + pat.len() > s.len() {
        None
    } else if matches_at(s, pat, i) {
        Some(i)
    } else if i >= s.len() {
        None
    } else {
        first_match_from(s, pat, i + 1)
    }
}

/// The first index where `pat` occurs in `s`.
pub(crate) fn find_first(s: &Vec<char>, pat: &Vec<char>) -> (r: Option<usize>)
    ensures
        r matches Some(i) ==> first_match_from(s@, pat@, 0) == Some(i as int),
        r is None ==> first_match_from(s@, pat@, 0) is None,
{
    if pat.len() > s.len() {
        return None;
    }
    if pat.len() == 0 {
        assert(s@.subrange(0, 0) =~= pat@);
        return Some(0);
    }
    let mut i: usize = 0;
    while i <= s.len() - pat.len()
        invariant
            1 <= pat@.len() <= s@.len(),
            i <= s@.len() - pat@.len() + 1,
            first_match_from(s@, pat@, i as int) == first_match_from(s@, pat@, 0),
        decreases s@.len() - pat@.len() + 1 - i,
    {
        if begins_with_at(s, i, pat) {
            proof {
                assert(s@.subrange(i as int, s@.len() as int).subrange(0, pat@.len() as int)
                    =~= s@.subrange(i as int, i + pat@.len()));
            }
            return Some(i);
        }
        proof {
            assert(s@.subrange(i as int, s@.len() as int).subrange(0, pat@.len() as int)
                =~= s@.subrange(i as int, i + pat@.len()));
        }
        i = i + 1;
    }
    None
}

/// The characters `s[lo..hi]` as a vector.
pub(crate) fn copy_chars(s: &Vec<char>, lo: usize, hi: usize) -> (v: Vec<char>)
    requires
        lo <= hi <= s@.len(),
    ensures
        v@ == s@.subrange(lo as int, hi as int),
{
    let mut v: Vec<char> = Vec::new();
    let mut k = lo;
    while k < hi
        invariant
            lo <= k <= hi <= s@.len(),
            v@ == s@.subrange(lo as int, k as int),
        decreases hi - k,
    {
        v.push(s[k]);
        proof {
            assert(s@.subrange(lo as int, k + 1) =~= s@.subrange(lo as int, k as int).push(s@[k as int]));
        }
        k = k + 1;
    }
    v
}

/// `"key"`, the way a key is written in JSON.
pub open spec fn key_marker(key: Seq<char>) -> Seq<char> {
    seq!['"'] + key + seq!['"']
}

/// What follows the first `"key"` of a JSON body and the next `:`, without
/// leading whitespace.
pub open spec fn after_key(body: Seq<char>, key: Seq<char>) -> Option<Seq<char>> {
    let m = key_marker(key);
    match first_match_from(body, m, 0) {
        None => None,
        Some(i) => {
            let rest = body.subrange(i + m.len(), body.len() as int);
            match first_match_from(rest, seq![':'], 0) {
                None => None,
                Some(j) => Some(trim_start_text(rest.subrange(j + 1, rest.len() as int))),
            }
        },
    }
}

proof fn lemma_first_match_bounds(s: Seq<char>, pat: Seq<char>, i: int)
    ensures
        first_match_from(s, pat, i) matches Some(k) ==> i <= k && k + pat.len() <= s.len() && 0 <= k,
    decreases s.len() - i,
{
    if !(i < 0 || i + pat.len() > s.len()) && !matches_at(s, pat, i) && i < s.len() {
        lemma_first_match_bounds(s, pat, i + 1);
    }
}

fn after_key_exec(body: &Vec<char>, key: &str) -> (r: Option<Vec<char>>)
    ensures
        r matches Some(v) ==> after_key(body@, key@) == Some(v@),
        r is None ==> after_key(body@, key@) is None,
{
    let key_chars = chars_of(key);
    let mut marker: Vec<char> = Vec::new();
    marker.push('"');
    let mut k: usize = 0;
    while k < key_chars.len()
        invariant
            k <= key_chars@.len(),
            marker@ == seq!['"'] + key_chars@.subrange(0, k as int),
        decreases key_chars@.len() - k,
    {
        marker.push(key_chars[k]);
        proof {
            assert(key_chars@.subrange(0, k + 1) =~= key_chars@.subrange(0, k as int).push(key_chars@[k as int]));
            assert(marker@ =~= seq!['"'] + key_chars@.subrange(0, k + 1));
        }
        k = k + 1;
    }
    marker.push('"');
    proof {
        assert(key_chars@.subrange(0, key_chars@.len() as int) =~= key_chars@);
        assert(marker@ =~= key_marker(key@));
    }
    let i = match find_first(body, &marker) {
        None => {
            return None;
        },
        Some(i) => i,
    };
    proof {
        lemma_first_match_bounds(body@, marker@, 0);
    }
    let blen = body.len();
    let mlen = marker.len();
    assert(i + mlen <= blen);
    let rest = copy_chars(body, i + mlen, blen);
    let mut colon: Vec<char> = Vec::new();
    colon.push(':');
    assert(colon@ =~= seq![':']);
    let j = match find_first(&rest, &colon) {
        None => {
            return None;
        },
        Some(j) => j,
    };
    proof {
        lemma_first_match_bounds(rest@, colon@, 0);
    }
    let tail = copy_chars(&rest, j + 1, rest.len());
    let mut a: usize = 0;
    while a < tail.len() && is_ws(tail[a])
        invariant
            a <= tail@.len(),
            skip_ws_chars(tail@, a as int) == skip_ws_chars(tail@, 0),
        decreases tail@.len() - a,
    {
        a = a + 1;
    }
    Some(copy_chars(&tail, a, tail.len()))
}

/// The character that an escape `\c` stands for in a JSON string.
pub open spec fn unescape(c: char) -> char {
    if c == 'n' {
        '\n'
    } else if c == 'r' {
        '\r'
    } else if c == 't' {
        '\t'
    } else {
        c
    }
}

/// Reading a JSON string body from `i`: the text up to the closing quote,
/// with escapes resolved, or nothing when no closing quote comes.
pub open spec fn scan_quoted(s: Seq<char>, i: int, escaped: bool, acc: Seq<char>) -> Option<Seq<char>>
    decreases s.len() - i,
{
    if i < 0 || i >= s.len() {
        None
    } else if escaped {
        scan_quoted(s, i + 1, false, acc.push(unescape(s[i])))
    } else if s[i] == '\\' {
        scan_quoted(s, i + 1, true, acc)
    } else if s[i] == '"' {
        Some(acc)
    } else {
        scan_quoted(s, i + 1, false, acc.push(s[i]))
    }
}

/// The string value of `key` in a flat JSON body, found by text search.
pub open spec fn json_string_spec(body: Seq<char>, key: Seq<char>) -> Option<Seq<char>> {
    match after_key(body, key) {
        None => None,
        Some(a) => if a.len() > 0 && a[0] == '"' {
            scan_quoted(a, 1, false, Seq::empty())
        } else {
            None
        },
    }
}

/// `s` holds no control character but line feed, carriage return and tab,
/// the ones that escaping keeps.
pub open spec fn escapes_faithfully(s: Seq<char>) -> bool {
    forall|i: int|
        0 <= i < s.len() ==> !is_control(#[trigger] s[i]) || s[i] == '\n' || s[i] == '\r' || s[i]
            == '\t'
}

proof fn lemma_escape_text_first(s: Seq<char>)
    requires
        s.len() > 0,
    ensures
        escape_text(s) == escape_char(s[0]) + escape_text(s.drop_first()),
    decreases s.len(),
{
    if s.len() == 1 {
        assert(s.drop_last() =~= Seq::<char>::empty());
        assert(s.drop_first() =~= Seq::<char>::empty());
        assert(escape_text(s.drop_first()) =~= Seq::<char>::empty());
        assert(escape_char(s[0]) + Seq::<char>::empty() =~= escape_char(s[0]));
    } else {
        lemma_escape_text_first(s.drop_last());
        assert(s.drop_last().drop_first() =~= s.drop_first().drop_last());
        assert(s.drop_first().last() == s.last());
        assert(s.drop_last()[0] == s[0]);
        assert(escape_text(s.drop_first()) == escape_text(s.drop_first().drop_last()) + escape_char(
            s.drop_first().last(),
        ));
        assert(escape_text(s) =~= escape_char(s[0]) + escape_text(s.drop_first()));
    }
}

proof fn lemma_scan_escaped(t: Seq<char>, i: int, acc: Seq<char>, s: Seq<char>)
    requires
        0 <= i,
        i + escape_text(s).len() < t.len(),
        t.subrange(i, i + escape_text(s).len()) == escape_text(s),
        t[i + escape_text(s).len()] == '"',
        escapes_faithfully(s),
    ensures
        scan_quoted(t, i, false, acc) == Some(acc + s),
    decreases s.len(),
{
    let e = escape_text(s);
    if s.len() == 0 {
        assert(acc + s =~= acc);
    } else {
        lemma_escape_text_first(s);
        let c = s[0];
        let ec = escape_char(c);
        let rest = s.drop_first();
        let er = escape_text(rest);
        assert(e == ec + er);
        assert(t[i] == e[0]);
        assert(escapes_faithfully(rest)) by {
            assert forall|k: int| 0 <= k < rest.len() implies !is_control(#[trigger] rest[k])
                || rest[k] == '\n' || rest[k] == '\r' || rest[k] == '\t' by {
                assert(rest[k] == s[k + 1]);
            }
        }
        let j = i + ec.len();
        assert(t.subrange(j, j + er.len()) =~= er) by {
            assert forall|k: int| 0 <= k < er.len() implies t.subrange(j, j + er.len())[k] == er[k] by {
                assert(t.subrange(j, j + er.len())[k] == t[j + k]);
                assert(t[i + ec.len() + k] == t.subrange(i, i + e.len())[ec.len() + k]);
                assert(e[ec.len() + k] == er[k]);
            }
        }
        assert(t[j + er.len()] == '"');
        lemma_scan_escaped(t, j, acc.push(c), rest);
        assert(acc.push(c) + rest =~= acc + s);
        assert(!is_control(c) || c == '\n' || c == '\r' || c == '\t');
        if c == '\\' || c == '"' || c == '\n' || c == '\r' || c == '\t' {
            assert(ec.len() == 2);
            assert(t[i] == '\\');
            assert(t[i + 1] == e[1]);
            assert(unescape(ec[1]) == c);
            assert(scan_quoted(t, i + 1, true, acc) == scan_quoted(t, i + 2, false, acc.push(c)));
            assert(scan_quoted(t, i, false, acc) == scan_quoted(t, i + 1, true, acc));
        } else {
            assert(ec == seq![c]);
            assert(t[i] == c);
            assert(scan_quoted(t, i, false, acc) == scan_quoted(t, i + 1, false, acc.push(c)));
        }
    }
}

/// A JSON body `{"key":"…"}` that holds `s` escaped by `json_escape` gives
/// `s` back as the string value of `key`, for every `s` whose only control
/// characters are line feeds, carriage returns and tabs.
pub proof fn law_json_string_reads_back(s: Seq<char>, key: Seq<char>)
    requires
        escapes_faithfully(s),
    ensures
        json_string_spec(
            seq!['{', '"'] + key + seq!['"', ':', '"'] + escape_text(s) + seq!['"', '}'],
            key,
        ) == Some(s),
{
    let e = escape_text(s);
    let body = seq!['{', '"'] + key + seq!['"', ':', '"'] + e + seq!['"', '}'];
    let m = key_marker(key);
    assert(!matches_at(body, m, 0)) by {
        if matches_at(body, m, 0) {
            assert(body.subrange(0, m.len() as int)[0] == m[0]);
        }
    }
    assert(body.subrange(1, 1 + m.len() as int) =~= m);
    assert(matches_at(body, m, 1));
    assert(first_match_from(body, m, 1) == Some(1int));
    assert(first_match_from(body, m, 0) == Some(1int));
    let rest = body.subrange(1 + m.len() as int, body.len() as int);
    assert(rest =~= seq![':', '"'] + e + seq!['"', '}']);
    assert(rest.subrange(0, 1) =~= seq![':']);
    assert(first_match_from(rest, seq![':'], 0) == Some(0int));
    let a0 = rest.subrange(1, rest.len() as int);
    assert(a0 =~= seq!['"'] + e + seq!['"', '}']);
    assert(!is_ws_char(a0[0]));
    assert(skip_ws_chars(a0, 0) == 0);
    assert(trim_start_text(a0) =~= a0);
    assert(after_key(body, key) == Some(a0));
    assert(a0.subrange(1, 1 + e.len() as int) =~= e);
    assert(a0[1 + e.len() as int] == '"');
    lemma_scan_escaped(a0, 1, Seq::empty(), s);
    assert(Seq::<char>::empty() + s =~= s);
}

/// The string value of `key` in a flat JSON body.
pub fn json_string(body: &str, key: &str) -> (value: Option<String>)
    ensures
        value matches Some(v) ==> json_string_spec(body@, key@) == Some(v@),
        value is None ==> json_string_spec(body@, key@) is None,
{
    let chars = chars_of(body);
    let a = match after_key_exec(&chars, key) {
        None => {
            return None;
        },
        Some(a) => a,
    };
    if a.len() == 0 || a[0] != '"' {
        return None;
    }
    let mut result = String::new();
    let mut escaped = false;
    let mut i: usize = 1;
    while i < a.len()
        invariant
            1 <= i <= a@.len(),
            a@.len() > 0 && a@[0] == '"',
            after_key(chars@, key@) == Some(a@),
            chars@ == body@,
            scan_quoted(a@, i as int, escaped, result@) == json_string_spec(body@, key@),
        decreases a@.len() - i,
    {
        let c = a[i];
        if escaped {
            let u = if c == 'n' {
                '\n'
            } else if c == 'r' {
                '\r'
            } else if c == 't' {
                '\t'
            } else {
                c
            };
            push_char(&mut result, u);
            escaped = false;
        } else if c == '\\' {
            escaped = true;
        } else if c == '"' {
            return Some(result);
        } else {
            push_char(&mut result, c);
        }
        i = i + 1;
    }
    None
}

/// The end of the run of digits and `-` that starts at `i`.
pub open spec fn number_end(s: Seq<char>, i: int) -> int
    decreases s.len() - i,
{
    if 0 <= i < s.len() && (('0' <= s[i] && s[i] <= '9') || s[i] == '-') {
        number_end(s, i + 1)
    } else {
        i
    }
}

pub open spec fn all_digit_chars(s: Seq<char>) -> bool {
    forall|i: int| 0 <= i < s.len() ==> '0' <= #[trigger] s[i] && s[i] <= '9'
}

/// The number that a string of decimal digit characters denotes.
pub open spec fn char_digits_value(s: Seq<char>) -> int
    decreases s.len(),
{
    if s.len() == 0 {
        0
    } else {
        char_digits_value(s.drop_last()) * 10 + ((s.last() as u32) - 48)
    }
}

/// What `str::parse::<i64>` gives: an optional sign, then at least one digit,
/// with a value in range.
pub open spec fn parse_i64_spec(t: Seq<char>) -> Option<i64> {
    let negative = t.len() > 0 && t[0] == '-';
    let d = if t.len() > 0 && (t[0] == '-' || t[0] == '+') {
        t.drop_first()
    } else {
        t
    };
    let v = if negative {
        -char_digits_value(d)
    } else {
        char_digits_value(d)
    };
    if d.len() > 0 && all_digit_chars(d) && i64::MIN <= v <= i64::MAX {
        Some(v as i64)
    } else {
        None
    }
}

pub(crate) proof fn lemma_char_digits_grow(s: Seq<char>, k: int)
    requires
        0 <= k <= s.len(),
        all_digit_chars(s),
    ensures
        0 <= char_digits_value(s.subrange(0, k)) <= char_digits_value(s),
    decreases s.len() - k,
{
    if k < s.len() {
        lemma_char_digits_grow(s, k + 1);
        let t = s.subrange(0, k + 1);
        assert(t.drop_last() =~= s.subrange(0, k));
        let v = char_digits_value(s.subrange(0, k));
        let d = (s[k] as u32) - 48;
        assert(0 <= d);
        assert(v <= v * 10 + d) by (nonlinear_arith)
            requires
                0 <= v,
                0 <= d,
        ;
    } else {
        assert(s.subrange(0, k) =~= s);
        lemma_char_digits_nonneg(s);
    }
}

proof fn lemma_char_digits_nonneg(s: Seq<char>)
    requires
        all_digit_chars(s),
    ensures
        0 <= char_digits_value(s),
    decreases s.len(),
{
    if s.len() > 0 {
        assert(all_digit_chars(s.drop_last()));
        lemma_char_digits_nonneg(s.drop_last());
    }
}

/// `t` parsed as `str::parse::<i64>` would.
pub fn parse_i64(t: &Vec<char>) -> (r: Option<i64>)
    ensures
        r == parse_i64_spec(t@),
{
    let len = t.len();
    let negative = len > 0 && t[0] == '-';
    let start: usize = if len > 0 && (t[0] == '-' || t[0] == '+') {
        1
    } else {
        0
    };
    let ghost d = if t@.len() > 0 && (t@[0] == '-' || t@[0] == '+') {
        t@.drop_first()
    } else {
        t@
    };
    assert(d =~= t@.subrange(start as int, len as int));
    if start >= len {
        return None;
    }
    let limit: u64 = if negative {
        9223372036854775808
    } else {
        9223372036854775807
    };
    let mut magnitude: u64 = 0;
    let mut k = start;
    while k < len
        invariant
            start <= k <= len,
            len == t@.len(),
            start < len,
            d == t@.subrange(start as int, len as int),
            d == if t@.len() > 0 && (t@[0] == '-' || t@[0] == '+') {
                t@.drop_first()
            } else {
                t@
            },
            negative == (t@.len() > 0 && t@[0] == '-'),
            limit == if negative { 9223372036854775808u64 } else { 9223372036854775807u64 },
            all_digit_chars(t@.subrange(start as int, k as int)),
            magnitude == char_digits_value(t@.subrange(start as int, k as int)),
            magnitude <= limit,
        decreases len - k,
    {
        let c = t[k];
        if !('0' <= c && c <= '9') {
            proof {
                assert(d[k - start] == c);
                assert(!all_digit_chars(d));
            }
            return None;
        }
        let digit = (c as u32 - 48) as u64;
        proof {
            let pre = t@.subrange(start as int, k as int);
            let nxt = t@.subrange(start as int, k + 1);
            assert(nxt.drop_last() =~= pre);
        }
        if magnitude > (limit - digit) / 10 {
            proof {
                assert(magnitude * 10 + digit > limit) by (nonlinear_arith)
                    requires
                        magnitude > (limit - digit) / 10,
                        0 <= digit <= 9,
                        digit <= limit,
                ;
                if all_digit_chars(d) {
                    lemma_char_digits_grow(d, k + 1 - start);
                    assert(d.subrange(0, k + 1 - start) =~= t@.subrange(start as int, k + 1));
                }
            }
            return None;
        }
        proof {
            assert(magnitude * 10 + digit <= limit) by (nonlinear_arith)
                requires
                    magnitude <= (limit - digit) / 10,
                    0 <= digit <= 9,
            ;
        }
        magnitude = magnitude * 10 + digit;
        k = k + 1;
    }
    if negative {
        if magnitude == 9223372036854775808 {
            Some(-9223372036854775807 - 1)
        } else {
            Some(-(magnitude as i64))
        }
    } else {
        Some(magnitude as i64)
    }
}

/// The integer value of `key` in a flat JSON body: the run of digits and `-`
/// after the colon, parsed as an `i64`.
pub open spec fn json_number_spec(body: Seq<char>, key: Seq<char>) -> Option<i64> {
    match after_key(body, key) {
        None => None,
        Some(a) => parse_i64_spec(a.subrange(0, number_end(a, 0))),
    }
}

/// The integer value of `key` in a flat JSON body.
pub fn json_number(body: &str, key: &str) -> (value: Option<i64>)
    ensures
        value == json_number_spec(body@, key@),
{
    let chars = chars_of(body);
    let a = match after_key_exec(&chars, key) {
        None => {
            return None;
        },
        Some(a) => a,
    };
    let mut e: usize = 0;
    while e < a.len() && (('0' <= a[e] && a[e] <= '9') || a[e] == '-')
        invariant
            e <= a@.len(),
            number_end(a@, e as int) == number_end(a@, 0),
        decreases a@.len() - e,
    {
        e = e + 1;
    }
    let token = copy_chars(&a, 0, e);
    parse_i64(&token)
}

/// The boolean value of `key` in a flat JSON body.
pub open spec fn json_bool_spec(body: Seq<char>, key: Seq<char>) -> Option<bool> {
    match after_key(body, key) {
        None => None,
        Some(a) => if begins_with(a, "true"@) {
            Some(true)
        } else if begins_with(a, "false"@) {
            Some(false)
        } else {
            None
        },
    }
}

/// A key whose value text begins with the word `true` reads as `true`, one
/// that begins with `false` reads as `false`, and any other value, or a
/// missing key, reads as nothing.
pub proof fn law_json_bool_reads_words(body: Seq<char>, key: Seq<char>)
    ensures
        after_key(body, key) matches Some(a) && begins_with(a, "true"@) ==> json_bool_spec(body, key)
            == Some(true),
        after_key(body, key) matches Some(a) && begins_with(a, "false"@) ==> json_bool_spec(body, key)
            == Some(false),
        after_key(body, key) matches Some(a) && !begins_with(a, "true"@) && !begins_with(a, "false"@)
            ==> json_bool_spec(body, key) is None,
        after_key(body, key) is None ==> json_bool_spec(body, key) is None,
{
    reveal_strlit("true");
    reveal_strlit("false");
    if let Some(a) = after_key(body, key) {
        if begins_with(a, "false"@) {
            assert(a.subrange(0, 5)[0] == 'f');
            assert(a[0] == 'f');
            assert(!begins_with(a, "true"@)) by {
                if begins_with(a, "true"@) {
                    assert(a.subrange(0, 4)[0] == 't');
                }
            }
        }
    }
}

/// The boolean value of `key` in a flat JSON body.
pub fn json_bool(body: &str, key: &str) -> (value: Option<bool>)
    ensures
        value == json_bool_spec(body@, key@),
{
    let chars = chars_of(body);
    let a = match after_key_exec(&chars, key) {
        None => {
            return None;
        },
        Some(a) => a,
    };
    let yes = chars_of("true");
    let no = chars_of("false");
    if begins_with_at(&a, 0, &yes) {
        assert(a@.subrange(0, a@.len() as int) =~= a@);
        Some(true)
    } else if begins_with_at(&a, 0, &no) {
        assert(a@.subrange(0, a@.len() as int) =~= a@);
        Some(false)
    } else {
        assert(a@.subrange(0, a@.len() as int) =~= a@);
        None
    }
}

/// The bytes of a percent-encoded text from `i` on, decoded: `%XY` with two
/// hex digits becomes that byte, `+` becomes a space.
pub open spec fn percent_bytes(b: Seq<u8>, i: int) -> Seq<u8>
    decreases b.len() - i,
{
    if i < 0 || i >= b.len() {
        Seq::empty()
    } else if b[i] == 37 && i + 2 < b.len() && hex_value(b[i + 1]) is Some && hex_value(b[i + 2]) is Some {
        seq![(hex_value(b[i + 1])->0 * 16 + hex_value(b[i + 2])->0) as u8] + percent_bytes(b, i + 3)
    } else {
        seq![
            if b[i] == 43 {
                32u8
            } else {
                b[i]
            },
        ] + percent_bytes(b, i + 1)
    }
}

/// Decodes percent-encoded bytes.
pub fn percent_decode_bytes(bytes: &[u8]) -> (out: Vec<u8>)
    ensures
        out@ == percent_bytes(bytes@, 0),
{
    let mut output: Vec<u8> = Vec::new();
    let mut index: usize = 0;
    let len = bytes.len();
    while index < len
        invariant
            len == bytes@.len(),
            index <= len,
            output@ + percent_bytes(bytes@, index as int) == percent_bytes(bytes@, 0),
        decreases len - index,
    {
        let ghost before = output@;
        if bytes[index] == 37 && len - index > 2 {
            let high = hex(bytes[index + 1]);
            let low = hex(bytes[index + 2]);
            match (high, low) {
                (Some(h), Some(l)) => {
                    output.push(h * 16 + l);
                    proof {
                        assert(output@ + percent_bytes(bytes@, index + 3) =~= before + percent_bytes(bytes@, index as int));
                    }
                    index = index + 3;
                    continue;
                },
                _ => {},
            }
        }
        let b = if bytes[index] == 43 {
            32
        } else {
            bytes[index]
        };
        output.push(b);
        proof {
            assert(output@ + percent_bytes(bytes@, index + 1) =~= before + percent_bytes(bytes@, index as int));
        }
        index = index + 1;
    }
    proof {
        assert(output@ + percent_bytes(bytes@, len as int) =~= output@);
    }
    output
}

/// The text that `String::from_utf8_lossy` makes of `bytes`.
pub uninterp spec fn lossy_utf8(bytes: Seq<u8>) -> Seq<char>;

/// `String::from_utf8_lossy`: the result is a function of the bytes alone and,
/// for valid UTF-8, is the decoded text; how invalid sequences are replaced
/// is left to the name.
#[verifier::external_body]
fn from_utf8_lossy(bytes: &[u8]) -> (text: String)
    ensures
        text@ == lossy_utf8(bytes@),
        vstd::utf8::valid_utf8(bytes@) ==> text@ == vstd::utf8::decode_utf8(bytes@),
{
    String::from_utf8_lossy(bytes).into_owned()
}

/// A percent-encoded query value, decoded.
pub fn percent_decode(value: &str) -> (decoded: String)
    ensures
        decoded@ == lossy_utf8(percent_bytes(vstd::utf8::encode_utf8(value@), 0)),
{
    let bytes = value.as_bytes();
    let output = percent_decode_bytes(bytes);
    from_utf8_lossy(output.as_slice())
}

/// Whether two texts are equal.
pub(crate) fn same_text(a: &str, b: &str) -> (same: bool)
    ensures
        same == (a@ == b@),
{
    let x = chars_of(a);
    let y = chars_of(b);
    if x.len() != y.len() {
        return false;
    }
    let mut k: usize = 0;
    while k < x.len()
        invariant
            x@ == a@,
            y@ == b@,
            x@.len() == y@.len(),
            k <= x@.len(),
            forall|j: int| 0 <= j < k ==> x@[j] == y@[j],
        decreases x@.len() - k,
    {
        if x[k] != y[k] {
            return false;
        }
        k = k + 1;
    }
    assert(x@ =~= y@);
    true
}

/// The outcome of one engine match, as the series reports it.
pub struct MatchResult {
    pub index: usize,
    pub file: String,
    pub map: String,
    pub opponent: String,
    pub side: String,
    pub seed: i64,
    pub p1_score: i64,
    pub p2_score: i64,
    pub winner: u8,
    pub student_won: bool,
    pub error: String,
}

impl Default for MatchResult {
    fn default() -> (r: MatchResult)
        ensures
            r.index == 0,
            r.file@ == Seq::<char>::empty(),
            r.map@ == Seq::<char>::empty(),
            r.opponent@ == Seq::<char>::empty(),
            r.side@ == Seq::<char>::empty(),
            r.seed == 0,
            r.p1_score == 0,
            r.p2_score == 0,
            r.winner == 0,
            !r.student_won,
            r.error@ == Seq::<char>::empty(),
    {
        MatchResult {
            index: 0,
            file: String::new(),
            map: String::new(),
            opponent: String::new(),
            side: String::new(),
            seed: 0,
            p1_score: 0,
            p2_score: 0,
            winner: 0,
            student_won: false,
            error: String::new(),
        }
    }
}

/// The index just past the last `:` before `j`, or 0.
pub open spec fn after_last_colon(t: Seq<char>, j: int) -> int
    decreases j,
{
    if j <= 0 || j > t.len() {
        0
    } else if t[j - 1] == ':' {
        j
    } else {
        after_last_colon(t, j - 1)
    }
}

/// What follows the last `:` of `t`, or all of `t`.
pub open spec fn last_segment(t: Seq<char>) -> Seq<char> {
    t.subrange(after_last_colon(t, t.len() as int), t.len() as int)
}

/// The value that a score or seed field gets: the parsed number, or the old
/// value when the text is no integer.
pub open spec fn number_or(text: Seq<char>, old_value: i64) -> i64 {
    match parse_i64_spec(trim_text(text)) {
        Some(v) => v,
        None => old_value,
    }
}

fn parse_trimmed_i64(t: &Vec<char>, lo: usize, hi: usize) -> (r: Option<i64>)
    requires
        lo <= hi <= t@.len(),
    ensures
        r == parse_i64_spec(trim_text(t@.subrange(lo as int, hi as int))),
{
    let (a, b) = trim_chars(t, lo, hi);
    let token = copy_chars(t, a, b);
    parse_i64(&token)
}

/// A match result after one line of engine output.
pub open spec fn after_engine_line(r: MatchResult, line: Seq<char>) -> MatchResult {
    let t = trim_text(line);
    if begins_with(t, "seed:"@) {
        MatchResult { seed: number_or(t.subrange(5, t.len() as int), r.seed), ..r }
    } else if begins_with(t, "Player1"@) {
        MatchResult { p1_score: number_or(last_segment(t), r.p1_score), ..r }
    } else if begins_with(t, "Player2"@) {
        MatchResult { p2_score: number_or(last_segment(t), r.p2_score), ..r }
    } else if begins_with(t, "Player1 won"@) {
        MatchResult { winner: 1, ..r }
    } else if begins_with(t, "Player2 won"@) {
        MatchResult { winner: 2, ..r }
    } else {
        r
    }
}

/// Reads what a line of engine output says about the match: the seed, a
/// player's score after the last `:`, or the winner.
pub fn parse_engine_line(line: &str, result: &mut MatchResult)
    ensures
        *final(result) == after_engine_line(*old(result), line@),
{
    let chars = chars_of(line);
    let (lo, hi) = trim_chars(&chars, 0, chars.len());
    let t = copy_chars(&chars, lo, hi);
    proof {
        assert(chars@.subrange(0, chars@.len() as int) =~= chars@);
    }
    let seed_word = chars_of("seed:");
    let p1_word = chars_of("Player1");
    let p2_word = chars_of("Player2");
    let p1_won = chars_of("Player1 won");
    let p2_won = chars_of("Player2 won");
    proof {
        assert(t@.subrange(0, t@.len() as int) =~= t@);
    }
    if begins_with_at(&t, 0, &seed_word) {
        proof {
            reveal_strlit("seed:");
        }
        if let Some(seed) = parse_trimmed_i64(&t, 5, t.len()) {
            result.seed = seed;
        }
        return;
    }
    if begins_with_at(&t, 0, &p1_word) {
        let start = last_colon_end(&t);
        if let Some(score) = parse_trimmed_i64(&t, start, t.len()) {
            result.p1_score = score;
        }
        return;
    }
    if begins_with_at(&t, 0, &p2_word) {
        let start = last_colon_end(&t);
        if let Some(score) = parse_trimmed_i64(&t, start, t.len()) {
            result.p2_score = score;
        }
        return;
    }
    if begins_with_at(&t, 0, &p1_won) {
        result.winner = 1;
    } else if begins_with_at(&t, 0, &p2_won) {
        result.winner = 2;
    }
}

fn last_colon_end(t: &Vec<char>) -> (r: usize)
    ensures
        r == after_last_colon(t@, t@.len() as int),
        r <= t@.len(),
{
    let mut j = t.len();
    while j > 0 && t[j - 1] != ':'
        invariant
            j <= t@.len(),
            after_last_colon(t@, j as int) == after_last_colon(t@, t@.len() as int),
        decreases j,
    {
        j = j - 1;
    }
    j
}

/// The winner by score when the engine named none, and whether the student's
/// side won.
pub open spec fn settled_winner(result: MatchResult) -> u8 {
    if result.winner != 0 {
        result.winner
    } else if result.p1_score > result.p2_score {
        1
    } else if result.p2_score > result.p1_score {
        2
    } else {
        0
    }
}

/// A match result completed for a student playing `side`.
pub open spec fn settled(r: MatchResult, side: Seq<char>) -> MatchResult {
    MatchResult {
        winner: settled_winner(r),
        student_won: (side == "p1"@ && settled_winner(r) == 1) || (side == "p2"@ && settled_winner(r)
            == 2),
        ..r
    }
}

/// Completes a match result: the winner by score when the engine named none,
/// and whether the student playing `side` won.
pub fn settle_result(result: &mut MatchResult, side: &str)
    ensures
        *final(result) == settled(*old(result), side@),
{
    if result.winner == 0 {
        result.winner = if result.p1_score > result.p2_score {
            1
        } else if result.p2_score > result.p1_score {
            2
        } else {
            0
        };
    }
    result.student_won = (same_text(side, "p1") && result.winner == 1) || (same_text(side, "p2")
        && result.winner == 2);
}

/// Settling a result keeps a winner that the engine named; when it named
/// none (0), the side with the strictly higher score wins, and equal scores
/// leave no winner. The student won exactly when playing `p1` with winner 1 or
/// `p2` with winner 2. Nothing else of the result changes.
pub proof fn law_settled_by_score(r: MatchResult, side: Seq<char>)
    ensures
        r.winner != 0 ==> settled(r, side).winner == r.winner,
        r.winner == 0 && r.p1_score > r.p2_score ==> settled(r, side).winner == 1,
        r.winner == 0 && r.p2_score > r.p1_score ==> settled(r, side).winner == 2,
        r.winner == 0 && r.p1_score == r.p2_score ==> settled(r, side).winner == 0,
        settled(r, side).student_won <==> ((side == "p1"@ && settled(r, side).winner == 1) || (side
            == "p2"@ && settled(r, side).winner == 2)),
        r.winner == 0 && r.p2_score > r.p1_score && side == "p2"@ ==> settled(r, side).student_won,
        r.winner == 0 && r.p1_score > r.p2_score && side == "p1"@ ==> settled(r, side).student_won,
        settled(r, side).p1_score == r.p1_score && settled(r, side).p2_score == r.p2_score
            && settled(r, side).seed == r.seed && settled(r, side).index == r.index,
{
}

/// The side that the student plays in game `game` (counting from 0) of a
/// series asked to play on `side`: `p1` and `p2` in turn for `alternate`.
pub open spec fn side_in_game(side: Seq<char>, game: int) -> Seq<char> {
    if side == "alternate"@ {
        if game % 2 == 0 {
            "p1"@
        } else {
            "p2"@
        }
    } else {
        side
    }
}

/// The side that the student plays in game `game` of a series.
pub fn side_for_game<'a>(side: &'a str, game: usize) -> (s: &'a str)
    ensures
        s@ == side_in_game(side@, game as int),
{
    if same_text(side, "alternate") {
        if game % 2 == 0 {
            "p1"
        } else {
            "p2"
        }
    } else {
        side
    }
}

/// A request to run a series of matches.
pub struct StartRequest {
    pub map: String,
    pub opponent: String,
    pub side: String,
    pub games: usize,
    pub seed: Option<i64>,
    pub live: bool,
}

/// Why a request to run matches is refused.
#[derive(Clone, Copy, Debug, PartialEq, Eq, Structural)]
pub enum RequestError {
    MissingMap,
    MissingOpponent,
    InvalidSeed,
    GamesOutOfRange,
    InvalidSide,
    InvalidName,
    UnknownMap,
    UnknownOpponent,
}

/// The message the server answers a refused request with.
pub open spec fn request_message(e: RequestError) -> Seq<char> {
    match e {
        RequestError::MissingMap => "missing map"@,
        RequestError::MissingOpponent => "missing opponent"@,
        RequestError::InvalidSeed => "seed must be an integer"@,
        RequestError::GamesOutOfRange => "games must be between 1 and 20"@,
        RequestError::InvalidSide => "side must be p1, p2 or alternate"@,
        RequestError::InvalidName => "invalid map or opponent name"@,
        RequestError::UnknownMap => "selected map is not present in the engine bundle"@,
        RequestError::UnknownOpponent => "selected opponent is not present in linux_robots"@,
    }
}

impl RequestError {
    /// The message the server answers with.
    pub fn message(&self) -> (m: &'static str)
        ensures
            m@ == request_message(*self),
    {
        match self {
            RequestError::MissingMap => "missing map",
            RequestError::MissingOpponent => "missing opponent",
            RequestError::InvalidSeed => "seed must be an integer",
            RequestError::GamesOutOfRange => "games must be between 1 and 20",
            RequestError::InvalidSide => "side must be p1, p2 or alternate",
            RequestError::InvalidName => "invalid map or opponent name",
            RequestError::UnknownMap => "selected map is not present in the engine bundle",
            RequestError::UnknownOpponent => "selected opponent is not present in linux_robots",
        }
    }
}

/// The seed of a request: absent or blank means none; otherwise it must be an
/// integer.
pub open spec fn seed_spec(body: Seq<char>) -> Result<Option<i64>, RequestError> {
    match json_string_spec(body, "seed"@) {
        Some(v) => if trim_text(v).len() > 0 {
            match parse_i64_spec(trim_text(v)) {
                Some(x) => Ok(Some(x)),
                None => Err(RequestError::InvalidSeed),
            }
        } else {
            Ok(None)
        },
        None => Ok(None),
    }
}

/// The number of games a request asks for: 1 when absent, negative counts as 0.
pub open spec fn games_spec(body: Seq<char>) -> usize {
    let n = match json_number_spec(body, "games"@) {
        Some(v) => v as int,
        None => 1,
    };
    (if n < 0 {
        0
    } else {
        n
    }) as usize
}

/// Reads a request to run matches from its JSON body.
pub fn parse_start_request(body: &str) -> (result: Result<StartRequest, RequestError>)
    ensures
        json_string_spec(body@, "map"@) is None ==> result == Err::<StartRequest, RequestError>(
            RequestError::MissingMap,
        ),
        json_string_spec(body@, "map"@) is Some && json_string_spec(body@, "opponent"@) is None
            ==> result == Err::<StartRequest, RequestError>(RequestError::MissingOpponent),
        json_string_spec(body@, "map"@) is Some && json_string_spec(body@, "opponent"@) is Some
            && seed_spec(body@) is Err ==> result == Err::<StartRequest, RequestError>(
            RequestError::InvalidSeed,
        ),
        json_string_spec(body@, "map"@) is Some && json_string_spec(body@, "opponent"@) is Some
            && seed_spec(body@) is Ok ==> (result matches Ok(r) && {
            &&& Some(r.map@) == json_string_spec(body@, "map"@)
            &&& Some(r.opponent@) == json_string_spec(body@, "opponent"@)
            &&& r.side@ == match json_string_spec(body@, "side"@) {
                Some(v) => v,
                None => "alternate"@,
            }
            &&& r.games == games_spec(body@)
            &&& Ok::<Option<i64>, RequestError>(r.seed) == seed_spec(body@)
            &&& r.live == match json_bool_spec(body@, "live"@) {
                Some(b) => b,
                None => true,
            }
        }),
{
    let map = match json_string(body, "map") {
        None => {
            return Err(RequestError::MissingMap);
        },
        Some(m) => m,
    };
    let opponent = match json_string(body, "opponent") {
        None => {
            return Err(RequestError::MissingOpponent);
        },
        Some(o) => o,
    };
    let side = match json_string(body, "side") {
        Some(s) => s,
        None => {
            let mut s = String::new();
            push_text(&mut s, "alternate");
            s
        },
    };
    let requested = match json_number(body, "games") {
        Some(v) => v,
        None => 1,
    };
    let games = if requested < 0 {
        0
    } else {
        requested
    } as usize;
    let seed = match json_string(body, "seed") {
        Some(value) => {
            let chars = chars_of(value.as_str());
            let (a, b) = trim_chars(&chars, 0, chars.len());
            proof {
                assert(chars@.subrange(0, chars@.len() as int) =~= chars@);
            }
            if a < b {
                let token = copy_chars(&chars, a, b);
                match parse_i64(&token) {
                    Some(x) => Some(x),
                    None => {
                        return Err(RequestError::InvalidSeed);
                    },
                }
            } else {
                None
            }
        },
        None => None,
    };
    let live = match json_bool(body, "live") {
        Some(b) => b,
        None => true,
    };
    Ok(StartRequest { map, opponent, side, games, seed, live })
}

/// The checks of a request that need no engine bundle: 1 to 20 games, a
/// known side, and safe map and opponent names.
pub open spec fn fields_spec(games: usize, side: Seq<char>, map: Seq<char>, opponent: Seq<char>) -> Result<(), RequestError> {
    if games == 0 || games > 20 {
        Err(RequestError::GamesOutOfRange)
    } else if side != "p1"@ && side != "p2"@ && side != "alternate"@ {
        Err(RequestError::InvalidSide)
    } else if !safe_name_spec(map) || !safe_name_spec(opponent) {
        Err(RequestError::InvalidName)
    } else {
        Ok(())
    }
}

/// A request with 1 to 20 games and safe map and opponent names is accepted
/// by itself for each of the sides `p1`, `p2` and `alternate`; with a number
/// of games in range, `InvalidSide` comes exactly for a side outside those
/// three, and the number of games is checked first.
pub proof fn law_request_sides(games: usize, side: Seq<char>, map: Seq<char>, opponent: Seq<char>)
    ensures
        1 <= games <= 20 && safe_name_spec(map) && safe_name_spec(opponent) && (side == "p1"@ || side
            == "p2"@ || side == "alternate"@) ==> fields_spec(games, side, map, opponent) == Ok::<
            (),
            RequestError,
        >(()),
        1 <= games <= 20 ==> (fields_spec(games, side, map, opponent) == Err::<(), RequestError>(
            RequestError::InvalidSide,
        ) <==> !(side == "p1"@ || side == "p2"@ || side == "alternate"@)),
        !(1 <= games <= 20) ==> fields_spec(games, side, map, opponent) == Err::<(), RequestError>(
            RequestError::GamesOutOfRange,
        ),
{
}

/// Checks what a request says by itself.
pub fn validate_request_fields(request: &StartRequest) -> (r: Result<(), RequestError>)
    ensures
        r == fields_spec(request.games, request.side@, request.map@, request.opponent@),
{
    if request.games == 0 || request.games > 20 {
        return Err(RequestError::GamesOutOfRange);
    }
    let side = request.side.as_str();
    if !same_text(side, "p1") && !same_text(side, "p2") && !same_text(side, "alternate") {
        return Err(RequestError::InvalidSide);
    }
    if !safe_name(request.map.as_str()) || !safe_name(request.opponent.as_str()) {
        return Err(RequestError::InvalidName);
    }
    Ok(())
}

/// `name` is one of `names`.
pub open spec fn listed(names: Seq<String>, name: Seq<char>) -> bool {
    exists|i: int| 0 <= i < names.len() && (#[trigger] names[i])@ == name
}

fn is_listed(names: &Vec<String>, name: &String) -> (b: bool)
    ensures
        b == listed(names@, name@),
{
    let mut i: usize = 0;
    while i < names.len()
        invariant
            i <= names@.len(),
            forall|j: int| 0 <= j < i ==> (#[trigger] names@[j])@ != name@,
        decreases names@.len() - i,
    {
        if same_text(names[i].as_str(), name.as_str()) {
            return true;
        }
        i = i + 1;
    }
    false
}

/// Checks a request: first what it says by itself, then that its map and
/// opponent are among those of the engine bundle.
pub fn validate_request(request: StartRequest, maps: &Vec<String>, opponents: &Vec<String>) -> (r:
    Result<StartRequest, RequestError>)
    ensures
        fields_spec(request.games, request.side@, request.map@, request.opponent@) matches Err(e)
            ==> r == Err::<StartRequest, RequestError>(e),
        fields_spec(request.games, request.side@, request.map@, request.opponent@) is Ok ==> {
            if !listed(maps@, request.map@) {
                r == Err::<StartRequest, RequestError>(RequestError::UnknownMap)
            } else if !listed(opponents@, request.opponent@) {
                r == Err::<StartRequest, RequestError>(RequestError::UnknownOpponent)
            } else {
                r == Ok::<StartRequest, RequestError>(request)
            }
        },
{
    match validate_request_fields(&request) {
        Err(e) => {
            return Err(e);
        },
        Ok(()) => {},
    }
    if !is_listed(maps, &request.map) {
        return Err(RequestError::UnknownMap);
    }
    if !is_listed(opponents, &request.opponent) {
        return Err(RequestError::UnknownOpponent);
    }
    Ok(request)
}

/// `true` or `false`.
pub open spec fn bool_text(b: bool) -> Seq<char> {
    if b {
        "true"@
    } else {
        "false"@
    }
}

/// A JSON string holding `s`.
pub open spec fn quoted(s: Seq<char>) -> Seq<char> {
    seq!['"'] + escape_text(s) + seq!['"']
}

pub(crate) fn push_quoted(out: &mut String, value: &str)
    ensures
        final(out)@ == old(out)@ + quoted(value@),
{
    push_char(out, '"');
    let escaped = json_escape(value);
    push_text(out, escaped.as_str());
    push_char(out, '"');
    proof {
        assert(out@ =~= old(out)@ + quoted(value@));
    }
}

/// The JSON object that reports a match.
pub open spec fn match_result_text(r: MatchResult) -> Seq<char> {
    "{\"index\":"@ + nat_decimal(r.index as nat) + ",\"file\":"@ + quoted(r.file@) + ",\"map\":"@
        + quoted(r.map@) + ",\"opponent\":"@ + quoted(r.opponent@) + ",\"side\":"@ + quoted(r.side@)
        + ",\"seed\":"@ + int_decimal(r.seed as int) + ",\"p1Score\":"@ + int_decimal(
        r.p1_score as int,
    ) + ",\"p2Score\":"@ + int_decimal(r.p2_score as int) + ",\"winner\":"@ + nat_decimal(
        r.winner as nat,
    ) + ",\"studentWon\":"@ + bool_text(r.student_won) + ",\"error\":"@ + quoted(r.error@) + "}"@
}

/// The JSON object that reports a match.
pub fn match_result_json(result: &MatchResult) -> (json: String)
    ensures
        json@ == match_result_text(*result),
{
    let mut out = String::new();
    push_text(&mut out, "{\"index\":");
    push_decimal(&mut out, result.index as u128);
    push_text(&mut out, ",\"file\":");
    push_quoted(&mut out, result.file.as_str());
    push_text(&mut out, ",\"map\":");
    push_quoted(&mut out, result.map.as_str());
    push_text(&mut out, ",\"opponent\":");
    push_quoted(&mut out, result.opponent.as_str());
    push_text(&mut out, ",\"side\":");
    push_quoted(&mut out, result.side.as_str());
    push_text(&mut out, ",\"seed\":");
    push_i64(&mut out, result.seed);
    push_text(&mut out, ",\"p1Score\":");
    push_i64(&mut out, result.p1_score);
    push_text(&mut out, ",\"p2Score\":");
    push_i64(&mut out, result.p2_score);
    push_text(&mut out, ",\"winner\":");
    push_decimal(&mut out, result.winner as u128);
    push_text(&mut out, ",\"studentWon\":");
    if result.student_won {
        push_text(&mut out, "true");
    } else {
        push_text(&mut out, "false");
    }
    push_text(&mut out, ",\"error\":");
    push_quoted(&mut out, result.error.as_str());
    push_text(&mut out, "}");
    proof {
        assert(out@ =~= match_result_text(*result));
    }
    out
}

/// The quoted values of the first `n` strings, separated by commas.
pub open spec fn join_quoted(values: Seq<String>, n: int) -> Seq<char>
    decreases n,
{
    if n <= 0 {
        Seq::empty()
    } else if n == 1 {
        quoted(values[0]@)
    } else {
        join_quoted(values, n - 1) + seq![','] + quoted(values[n - 1]@)
    }
}

/// A JSON array of strings.
pub fn json_array(values: &[String]) -> (json: String)
    ensures
        json@ == seq!['['] + join_quoted(values@, values@.len() as int) + seq![']'],
{
    let mut out = String::new();
    push_char(&mut out, '[');
    let mut i: usize = 0;
    while i < values.len()
        invariant
            i <= values@.len(),
            out@ == seq!['['] + join_quoted(values@, i as int),
        decreases values@.len() - i,
    {
        if i > 0 {
            push_char(&mut out, ',');
        }
        push_quoted(&mut out, values[i].as_str());
        proof {
            assert(out@ =~= seq!['['] + join_quoted(values@, i + 1));
        }
        i = i + 1;
    }
    push_char(&mut out, ']');
    out
}

/// Appends `true` or `false`.
pub(crate) fn push_bool(out: &mut String, b: bool)
    ensures
        final(out)@ == old(out)@ + bool_text(b),
{
    if b {
        push_text(out, "true");
    } else {
        push_text(out, "false");
    }
}

/// The JSON array of `values`.
pub open spec fn array_text(values: Seq<String>) -> Seq<char> {
    seq!['['] + join_quoted(values, values.len() as int) + seq![']']
}

/// The JSON object that lists the maps and the opponents a match may use.
pub fn options_json(maps: &Vec<String>, opponents: &Vec<String>) -> (json: String)
    ensures
        json@ == "{\"maps\":"@ + array_text(maps@) + ",\"opponents\":"@ + array_text(opponents@)
            + "}"@,
{
    let mut out = String::new();
    push_text(&mut out, "{\"maps\":");
    let m = json_array(maps.as_slice());
    push_text(&mut out, m.as_str());
    push_text(&mut out, ",\"opponents\":");
    let o = json_array(opponents.as_slice());
    push_text(&mut out, o.as_str());
    push_text(&mut out, "}");
    out
}

/// What the server reports of itself and of the engine it drives.
pub struct ServerStatus {
    pub project_dir: String,
    pub engine_dir: String,
    pub engine_ready: bool,
    pub engine_error: String,
    pub docker_ready: bool,
    pub image_ready: bool,
    pub image: String,
    pub running: bool,
}

/// The JSON object that reports `s`.
pub open spec fn status_text(s: ServerStatus) -> Seq<char> {
    "{\"server\":true,\"projectDir\":"@ + quoted(s.project_dir@) + ",\"engineDir\":"@ + quoted(
        s.engine_dir@,
    ) + ",\"engineReady\":"@ + bool_text(s.engine_ready) + ",\"engineError\":"@ + quoted(
        s.engine_error@,
    ) + ",\"dockerReady\":"@ + bool_text(s.docker_ready) + ",\"imageReady\":"@ + bool_text(
        s.image_ready,
    ) + ",\"image\":"@ + quoted(s.image@) + ",\"running\":"@ + bool_text(s.running)
        + ",\"autoSetupNote\":"@ + quoted(
        "The Rust player and Docker image are prepared automatically when a match starts."@,
    ) + "}"@
}

/// The JSON object that reports the server's status.
pub fn status_json(status: &ServerStatus) -> (json: String)
    ensures
        json@ == status_text(*status),
{
    let mut out = String::new();
    push_text(&mut out, "{\"server\":true,\"projectDir\":");
    push_quoted(&mut out, status.project_dir.as_str());
    push_text(&mut out, ",\"engineDir\":");
    push_quoted(&mut out, status.engine_dir.as_str());
    push_text(&mut out, ",\"engineReady\":");
    push_bool(&mut out, status.engine_ready);
    push_text(&mut out, ",\"engineError\":");
    push_quoted(&mut out, status.engine_error.as_str());
    push_text(&mut out, ",\"dockerReady\":");
    push_bool(&mut out, status.docker_ready);
    push_text(&mut out, ",\"imageReady\":");
    push_bool(&mut out, status.image_ready);
    push_text(&mut out, ",\"image\":");
    push_quoted(&mut out, status.image.as_str());
    push_text(&mut out, ",\"running\":");
    push_bool(&mut out, status.running);
    push_text(&mut out, ",\"autoSetupNote\":");
    push_quoted(
        &mut out,
        "The Rust player and Docker image are prepared automatically when a match starts.",
    );
    push_text(&mut out, "}");
    proof {
        assert(out@ =~= status_text(*status));
    }
    out
}

/// `a` comes strictly before `b` in dictionary order: at the first character
/// where they differ `a` has the smaller one, or `a` is a proper prefix of `b`.
pub open spec fn text_before(a: Seq<char>, b: Seq<char>) -> bool
    decreases a.len(),
{
    if b.len() == 0 {
        false
    } else if a.len() == 0 {
        true
    } else if a[0] != b[0] {
        a[0] < b[0]
    } else {
        text_before(a.drop_first(), b.drop_first())
    }
}

/// No text comes before itself.
pub proof fn lemma_text_before_irreflexive(a: Seq<char>)
    ensures
        !text_before(a, a),
    decreases a.len(),
{
    if a.len() > 0 {
        lemma_text_before_irreflexive(a.drop_first());
    }
}

/// Of two different texts, one comes before the other.
pub proof fn lemma_text_before_total(a: Seq<char>, b: Seq<char>)
    ensures
        a == b || text_before(a, b) || text_before(b, a),
    decreases a.len(),
{
    if a.len() == 0 && b.len() == 0 {
        assert(a =~= b);
    } else if a.len() > 0 && b.len() > 0 && a[0] == b[0] {
        lemma_text_before_total(a.drop_first(), b.drop_first());
        if a.drop_first() == b.drop_first() {
            assert(a =~= seq![a[0]] + a.drop_first());
            assert(b =~= seq![b[0]] + b.drop_first());
        }
    }
}

/// Dictionary order is transitive.
pub proof fn lemma_text_before_transitive(a: Seq<char>, b: Seq<char>, c: Seq<char>)
    requires
        text_before(a, b),
        text_before(b, c),
    ensures
        text_before(a, c),
    decreases a.len(),
{
    if a.len() > 0 && a[0] == b[0] && b[0] == c[0] {
        lemma_text_before_transitive(a.drop_first(), b.drop_first(), c.drop_first());
    }
}

/// Whether `a` comes strictly before `b` in dictionary order.
fn text_less(a: &str, b: &str) -> (r: bool)
    ensures
        r == text_before(a@, b@),
{
    let x = chars_of(a);
    let y = chars_of(b);
    let mut k: usize = 0;
    proof {
        assert(x@.skip(0) =~= x@);
        assert(y@.skip(0) =~= y@);
    }
    loop
        invariant
            x@ == a@,
            y@ == b@,
            k <= x@.len(),
            k <= y@.len(),
            text_before(a@, b@) == text_before(x@.skip(k as int), y@.skip(k as int)),
        decreases x@.len() - k,
    {
        if k == y.len() {
            return false;
        }
        if k == x.len() {
            return true;
        }
        let cx = x[k];
        let cy = y[k];
        if cx != cy {
            return cx < cy;
        }
        proof {
            assert(x@.skip(k as int).drop_first() =~= x@.skip(k + 1));
            assert(y@.skip(k as int).drop_first() =~= y@.skip(k + 1));
        }
        k = k + 1;
    }
}

/// No name in `names` comes before an earlier one.
pub open spec fn in_dictionary_order(names: Seq<String>) -> bool {
    forall|i: int, j: int|
        0 <= i < j < names.len() ==> !text_before(#[trigger] names[j]@, #[trigger] names[i]@)
}

/// The safe names among `names`, in their order.
pub open spec fn safe_entries(names: Seq<String>) -> Seq<String>
    decreases names.len(),
{
    if names.len() == 0 {
        Seq::empty()
    } else if safe_name_spec(names.last()@) {
        safe_entries(names.drop_last()).push(names.last())
    } else {
        safe_entries(names.drop_last())
    }
}

/// Where `name` goes in the ordered `names`: after every name that does not
/// come after it, before every name that does.
fn insertion_point(names: &Vec<String>, name: &str) -> (pos: usize)
    requires
        in_dictionary_order(names@),
    ensures
        pos <= names@.len(),
        forall|i: int| 0 <= i < pos ==> !text_before(name@, #[trigger] names@[i]@),
        forall|i: int| pos <= i < names@.len() ==> text_before(name@, #[trigger] names@[i]@),
{
    let mut pos: usize = 0;
    while pos < names.len()
        invariant
            pos <= names@.len(),
            in_dictionary_order(names@),
            forall|i: int| 0 <= i < pos ==> !text_before(name@, #[trigger] names@[i]@),
        decreases names@.len() - pos,
    {
        if text_less(name, names[pos].as_str()) {
            proof {
                assert forall|i: int| pos <= i < names@.len() implies text_before(
                    name@,
                    #[trigger] names@[i]@,
                ) by {
                    if i > pos {
                        assert(!text_before(names@[i]@, names@[pos as int]@));
                        lemma_text_before_total(names@[pos as int]@, names@[i]@);
                        if names@[pos as int]@ != names@[i]@ {
                            lemma_text_before_transitive(
                                name@,
                                names@[pos as int]@,
                                names@[i]@,
                            );
                        }
                    }
                }
            }
            return pos;
        }
        pos = pos + 1;
    }
    pos
}

/// The safe names among `candidates`, in dictionary order.
pub fn sorted_names(candidates: &Vec<String>) -> (names: Vec<String>)
    ensures
        names@.to_multiset() == safe_entries(candidates@).to_multiset(),
        in_dictionary_order(names@),
{
    let mut out: Vec<String> = Vec::new();
    let mut i: usize = 0;
    proof {
        assert(candidates@.take(0) =~= Seq::<String>::empty());
        assert(out@.to_multiset() =~= safe_entries(candidates@.take(0)).to_multiset()) by {
            broadcast use vstd::seq_lib::group_to_multiset_ensures;
        }
    }
    while i < candidates.len()
        invariant
            i <= candidates@.len(),
            in_dictionary_order(out@),
            out@.to_multiset() == safe_entries(candidates@.take(i as int)).to_multiset(),
        decreases candidates@.len() - i,
    {
        let name = &candidates[i];
        proof {
            let prefix = candidates@.take(i + 1);
            assert(prefix.drop_last() =~= candidates@.take(i as int));
            assert(prefix.last() == *name);
            assert(safe_entries(prefix) == if safe_name_spec(name@) {
                safe_entries(candidates@.take(i as int)).push(*name)
            } else {
                safe_entries(candidates@.take(i as int))
            });
        }
        if safe_name(name.as_str()) {
            let pos = insertion_point(&out, name.as_str());
            let ghost before = out@;
            out.insert(pos, name.clone());
            proof {
                assert(out@ == before.insert(pos as int, *name));
                assert(out@.to_multiset() == before.to_multiset().insert(*name)) by {
                    vstd::seq_lib::to_multiset_insert(before, pos as int, *name);
                }
                let kept = safe_entries(candidates@.take(i as int));
                assert(kept.push(*name).to_multiset() == kept.to_multiset().insert(*name)) by {
                    vstd::seq_lib::to_multiset_build(kept, *name);
                }
                assert forall|a: int, b: int| 0 <= a < b < out@.len() implies !text_before(
                    #[trigger] out@[b]@,
                    #[trigger] out@[a]@,
                ) by {
                    if a < pos && b == pos {
                        assert(out@[a] == before[a]);
                    } else if a == pos && b > pos {
                        assert(out@[b] == before[b - 1]);
                        lemma_text_before_total(name@, before[b - 1]@);
                        if text_before(before[b - 1]@, name@) {
                            lemma_text_before_transitive(name@, before[b - 1]@, name@);
                            lemma_text_before_irreflexive(name@);
                        }
                    } else if a < pos && b > pos {
                        assert(out@[a] == before[a]);
                        assert(out@[b] == before[b - 1]);
                    } else if b < pos {
                        assert(out@[a] == before[a]);
                        assert(out@[b] == before[b]);
                    } else {
                        assert(out@[a] == before[a - 1]);
                        assert(out@[b] == before[b - 1]);
                    }
                }
            }
        }
        i = i + 1;
    }
    proof {
        assert(candidates@.take(candidates@.len() as int) =~= candidates@);
    }
    out
}

} // verus!
