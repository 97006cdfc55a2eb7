use vstd::prelude::*;

verus! {

/// An ASCII whitespace byte: tab, line feed, vertical tab, form feed,
/// carriage return or space.
pub open spec fn is_ascii_ws(b: u8) -> bool {
    b == 9 || b == 10 || b == 11 || b == 12 || b == 13 || b == 32
}

/// The UTF-8 encodings of the three-byte whitespace characters U+1680,
/// U+2000 to U+200A, U+2028, U+2029, U+202F, U+205F and U+3000.
pub open spec fn is_wide_ws(a: u8, b: u8, c: u8) -> bool {
    ||| a == 0xE1 && b == 0x9A && c == 0x80
    ||| a == 0xE2 && b == 0x80 && ((0x80 <= c && c <= 0x8A) || c == 0xA8 || c == 0xA9 || c == 0xAF)
    ||| a == 0xE2 && b == 0x81 && c == 0x9F
    ||| a == 0xE3 && b == 0x80 && c == 0x80
}

/// The length in bytes of the whitespace character that starts at `i`, or 0.
/// In valid UTF-8 these are exactly the characters that `char::is_whitespace`
/// accepts; the two-byte ones are U+0085 and U+00A0.
pub open spec fn ws_at(s: Seq<u8>, i: int) -> int {
    if 0 <= i < s.len() && is_ascii_ws(s[i]) {
        1
    } else if 0 <= i && i + 1 < s.len() && s[i] == 0xC2 && (s[i + 1] == 0x85 || s[i + 1] == 0xA0) {
        2
    } else if 0 <= i && i + 2 < s.len() && is_wide_ws(s[i], s[i + 1], s[i + 2]) {
        3
    } else {
        0
    }
}

/// The length in bytes of the whitespace character that ends just before `j`, or 0.
pub open spec fn ws_before(s: Seq<u8>, j: int) -> int {
    if 1 <= j <= s.len() && is_ascii_ws(s[j - 1]) {
        1
    } else if 2 <= j <= s.len() && s[j - 2] == 0xC2 && (s[j - 1] == 0x85 || s[j - 1] == 0xA0) {
        2
    } else if 3 <= j <= s.len() && is_wide_ws(s[j - 3], s[j - 2], s[j - 1]) {
        3
    } else {
        0
    }
}

/// The first index at or after `i` that does not start a whitespace character.
pub open spec fn skip_ws(s: Seq<u8>, i: int) -> int
    decreases s.len() - i,
{
    if 0 <= i < s.len() && ws_at(s, i) > 0 {
        skip_ws(s, i + ws_at(s, i))
    } else {
        i
    }
}

/// The end of the run of non-whitespace that starts at `i`.
pub open spec fn word_end(s: Seq<u8>, i: int) -> int
    decreases s.len() - i,
{
    if 0 <= i < s.len() && ws_at(s, i) == 0 {
        word_end(s, i + 1)
    } else {
        i
    }
}

/// The end left after removing whitespace characters from the back of
/// `s[lo..j]`.
pub open spec fn trim_back(s: Seq<u8>, lo: int, j: int) -> int
    decreases j,
{
    if lo < j && ws_before(s, j) > 0 && lo <= j - ws_before(s, j) {
        trim_back(s, lo, j - ws_before(s, j))
    } else {
        j
    }
}

/// `s` without leading and trailing whitespace characters, as `str::trim` does.
pub open spec fn trim(s: Seq<u8>) -> Seq<u8> {
    let lo = skip_ws(s, 0);
    s.subrange(lo, trim_back(s, lo, s.len() as int))
}

pub proof fn lemma_skip_ws(s: Seq<u8>, i: int)
    requires
        0 <= i <= s.len(),
    ensures
        i <= skip_ws(s, i) <= s.len(),
        skip_ws(s, i) < s.len() ==> ws_at(s, skip_ws(s, i)) == 0,
    decreases s.len() - i,
{
    if 0 <= i < s.len() && ws_at(s, i) > 0 {
        lemma_skip_ws(s, i + ws_at(s, i));
    }
}

pub proof fn lemma_word_end(s: Seq<u8>, i: int)
    requires
        0 <= i <= s.len(),
    ensures
        i <= word_end(s, i) <= s.len(),
        i < s.len() && ws_at(s, i) == 0 ==> i < word_end(s, i),
    decreases s.len() - i,
{
    if 0 <= i < s.len() && ws_at(s, i) == 0 {
        lemma_word_end(s, i + 1);
    }
}

/// The whitespace-separated words of `s` from index `i` on, as
/// `str::split_whitespace` yields them.
pub open spec fn tokens_from(s: Seq<u8>, i: int) -> Seq<Seq<u8>>
    decreases s.len() - i,
{
    if i < 0 || i >= s.len() {
        Seq::empty()
    } else {
        let a = skip_ws(s, i);
        if a >= s.len() {
            Seq::empty()
        } else {
            proof {
                lemma_skip_ws(s, i);
                lemma_word_end(s, a);
            }
            seq![s.subrange(a, word_end(s, a))] + tokens_from(s, word_end(s, a))
        }
    }
}

pub open spec fn tokens(s: Seq<u8>) -> Seq<Seq<u8>> {
    tokens_from(s, 0)
}

/// `s` with every trailing `:` removed.
pub open spec fn strip_colons(s: Seq<u8>) -> Seq<u8>
    decreases s.len(),
{
    if s.len() > 0 && s.last() == 58 {
        strip_colons(s.drop_last())
    } else {
        s
    }
}

/// Every byte is an ASCII digit.
pub open spec fn all_digits(s: Seq<u8>) -> bool {
    forall|i: int| 0 <= i < s.len() ==> 48 <= #[trigger] s[i] <= 57
}

/// The number that a string of decimal digits denotes.
pub open spec fn digits_value(s: Seq<u8>) -> int
    decreases s.len(),
{
    if s.len() == 0 {
        0
    } else {
        digits_value(s.drop_last()) * 10 + (s.last() - 48)
    }
}

/// What `str::parse::<usize>` gives: an optional `+`, then at least one digit,
/// with a value that fits.
pub open spec fn parse_usize_spec(s: Seq<u8>) -> Option<usize> {
    let d = if s.len() > 0 && s[0] == 43 {
        s.drop_first()
    } else {
        s
    };
    if d.len() > 0 && all_digits(d) && digits_value(d) <= usize::MAX {
        Some(digits_value(d) as usize)
    } else {
        None
    }
}

/// `s` begins with `prefix`.
pub open spec fn starts_with(s: Seq<u8>, prefix: Seq<u8>) -> bool {
    prefix.len() <= s.len() && s.subrange(0, prefix.len() as int) == prefix
}

/// The length of the whitespace character that starts at `i`, or 0.
pub fn ws_len_at(s: &[u8], i: usize) -> (n: usize)
    ensures
        n == ws_at(s@, i as int),
{
    let len = s.len();
    if i >= len {
        return 0;
    }
    let a = s[i];
    if a == 9 || a == 10 || a == 11 || a == 12 || a == 13 || a == 32 {
        return 1;
    }
    if i + 1 < len && a == 0xC2 && (s[i + 1] == 0x85 || s[i + 1] == 0xA0) {
        return 2;
    }
    if len - i > 2 {
        let b = s[i + 1];
        let c = s[i + 2];
        if (a == 0xE1 && b == 0x9A && c == 0x80) || (a == 0xE2 && b == 0x80 && ((0x80 <= c && c
            <= 0x8A) || c == 0xA8 || c == 0xA9 || c == 0xAF)) || (a == 0xE2 && b == 0x81 && c
            == 0x9F) || (a == 0xE3 && b == 0x80 && c == 0x80) {
            return 3;
        }
    }
    0
}

/// The length of the whitespace character that ends just before `j`, or 0.
pub fn ws_len_before(s: &[u8], j: usize) -> (n: usize)
    ensures
        n == ws_before(s@, j as int),
{
    let len = s.len();
    if j == 0 || j > len {
        return 0;
    }
    let c = s[j - 1];
    if c == 9 || c == 10 || c == 11 || c == 12 || c == 13 || c == 32 {
        return 1;
    }
    if j >= 2 && s[j - 2] == 0xC2 && (c == 0x85 || c == 0xA0) {
        return 2;
    }
    if j >= 3 {
        let a = s[j - 3];
        let b = s[j - 2];
        if (a == 0xE1 && b == 0x9A && c == 0x80) || (a == 0xE2 && b == 0x80 && ((0x80 <= c && c
            <= 0x8A) || c == 0xA8 || c == 0xA9 || c == 0xAF)) || (a == 0xE2 && b == 0x81 && c
            == 0x9F) || (a == 0xE3 && b == 0x80 && c == 0x80) {
            return 3;
        }
    }
    0
}

/// The first index at or after `i` that does not start a whitespace character.
pub fn skip_whitespace(s: &[u8], i: usize) -> (r: usize)
    requires
        i <= s@.len(),
    ensures
        r == skip_ws(s@, i as int),
{
    let mut k = i;
    while k < s.len() && ws_len_at(s, k) > 0
        invariant
            i <= k <= s@.len(),
            skip_ws(s@, k as int) == skip_ws(s@, i as int),
        decreases s@.len() - k,
    {
        k = k + ws_len_at(s, k);
    }
    k
}

/// The end of the run of non-whitespace that starts at `i`.
pub fn word_end_at(s: &[u8], i: usize) -> (r: usize)
    requires
        i <= s@.len(),
    ensures
        r == word_end(s@, i as int),
{
    let mut k = i;
    while k < s.len() && ws_len_at(s, k) == 0
        invariant
            i <= k <= s@.len(),
            word_end(s@, k as int) == word_end(s@, i as int),
        decreases s@.len() - k,
    {
        k = k + 1;
    }
    k
}

/// The bounds of `s` without leading and trailing whitespace.
pub fn trim_bounds(s: &[u8]) -> (r: (usize, usize))
    ensures
        r.0 <= r.1 <= s@.len(),
        s@.subrange(r.0 as int, r.1 as int) == trim(s@),
{
    let lo = skip_whitespace(s, 0);
    proof {
        lemma_skip_ws(s@, 0);
    }
    let mut hi = s.len();
    while lo < hi && ws_len_before(s, hi) > 0 && ws_len_before(s, hi) <= hi - lo
        invariant
            lo <= hi <= s@.len(),
            lo == skip_ws(s@, 0),
            trim_back(s@, lo as int, hi as int) == trim_back(s@, lo as int, s@.len() as int),
        decreases hi,
    {
        hi = hi - ws_len_before(s, hi);
    }
    (lo, hi)
}

/// The next word at or after `i`, as bounds into `s`.
pub fn next_token(s: &[u8], i: usize) -> (r: Option<(usize, usize)>)
    requires
        i <= s@.len(),
    ensures
        r is None <==> tokens_from(s@, i as int).len() == 0,
        r matches Some((a, b)) ==> {
            &&& i <= a < b <= s@.len()
            &&& tokens_from(s@, i as int) == seq![s@.subrange(a as int, b as int)] + tokens_from(
                s@,
                b as int,
            )
        },
{
    let a = skip_whitespace(s, i);
    proof {
        lemma_skip_ws(s@, i as int);
    }
    if a >= s.len() {
        return None;
    }
    let b = word_end_at(s, a);
    proof {
        lemma_word_end(s@, a as int);
    }
    Some((a, b))
}

/// The bytes `s[lo..hi]` as a vector.
pub fn copy_range(s: &[u8], lo: usize, hi: usize) -> (v: Vec<u8>)
    requires
        lo <= hi <= s@.len(),
    ensures
        v@ == s@.subrange(lo as int, hi as int),
{
    let mut v: Vec<u8> = Vec::new();
    let mut k = lo;
    while k < hi
        invariant
            lo <= k <= hi <= s@.len(),
            v@ == s@.subrange(lo as int, k as int),
        decreases hi - k,
    {
        v.push(s[k]);
        proof {
            assert(s@.subrange(lo as int, k + 1) =~= s@.subrange(lo as int, k as int).push(s@[k as int]));
        }
        k = k + 1;
    }
    v
}

/// The end of `s[lo..hi]` once every trailing `:` is removed.
pub fn strip_colons_end(s: &[u8], lo: usize, hi: usize) -> (r: usize)
    requires
        lo <= hi <= s@.len(),
    ensures
        lo <= r <= hi,
        s@.subrange(lo as int, r as int) == strip_colons(s@.subrange(lo as int, hi as int)),
{
    let mut k = hi;
    while k > lo && s[k - 1] == 58
        invariant
            lo <= k <= hi <= s@.len(),
            strip_colons(s@.subrange(lo as int, k as int)) == strip_colons(
                s@.subrange(lo as int, hi as int),
            ),
        decreases k,
    {
        proof {
            let t = s@.subrange(lo as int, k as int);
            assert(t.drop_last() =~= s@.subrange(lo as int, k - 1));
        }
        k = k - 1;
    }
    k
}

proof fn lemma_digits_value_push(s: Seq<u8>, d: u8)
    ensures
        digits_value(s.push(d)) == digits_value(s) * 10 + (d - 48),
{
    assert(s.push(d).drop_last() =~= s);
}

proof fn lemma_digits_value_grows(s: Seq<u8>, k: int)
    requires
        0 <= k <= s.len(),
        all_digits(s),
    ensures
        0 <= digits_value(s.subrange(0, k)) <= digits_value(s),
    decreases s.len() - k,
{
    if k < s.len() {
        lemma_digits_value_grows(s, k + 1);
        let t = s.subrange(0, k + 1);
        assert(t.drop_last() =~= s.subrange(0, k));
        let v = digits_value(s.subrange(0, k));
        assert(0 <= v * 10 + (s[k] - 48));
        assert(v <= v * 10 + (s[k] - 48)) by (nonlinear_arith)
            requires
                0 <= v,
                0 <= s[k] - 48,
        ;
    } else {
        assert(s.subrange(0, k) =~= s);
        lemma_digits_nonneg(s);
    }
}

proof fn lemma_digits_nonneg(s: Seq<u8>)
    requires
        all_digits(s),
    ensures
        0 <= digits_value(s),
    decreases s.len(),
{
    if s.len() > 0 {
        assert(all_digits(s.drop_last()));
        lemma_digits_nonneg(s.drop_last());
    }
}

/// `s` parsed as `str::parse::<usize>` would.
pub fn parse_unsigned(s: &[u8]) -> (r: Option<usize>)
    ensures
        r == parse_usize_spec(s@),
{
    let len = s.len();
    let start: usize = if len > 0 && s[0] == 43 {
        1
    } else {
        0
    };
    let ghost d = if s@.len() > 0 && s@[0] == 43 {
        s@.drop_first()
    } else {
        s@
    };
    assert(d =~= s@.subrange(start as int, len as int));
    if start >= len {
        return None;
    }
    let mut value: usize = 0;
    let mut k = start;
    while k < len
        invariant
            start <= k <= len,
            len == s@.len(),
            d == s@.subrange(start as int, len as int),
            d == if s@.len() > 0 && s@[0] == 43 {
                s@.drop_first()
            } else {
                s@
            },
            d.len() > 0,
            all_digits(s@.subrange(start as int, k as int)),
            value == digits_value(s@.subrange(start as int, k as int)),
        decreases len - k,
    {
        let c = s[k];
        if c < 48 || c > 57 {
            proof {
                assert(d[k - start] == c);
                assert(!all_digits(d));
            }
            return None;
        }
        let digit = (c - 48) as usize;
        proof {
            let t = s@.subrange(start as int, k + 1);
            assert(t =~= s@.subrange(start as int, k as int).push(c));
            lemma_digits_value_push(s@.subrange(start as int, k as int), c);
        }
        if value > (usize::MAX - digit) / 10 {
            proof {
                assert(value * 10 + digit > usize::MAX) by (nonlinear_arith)
                    requires
                        value > (usize::MAX - digit) / 10,
                        0 <= digit <= 9,
                ;
                if all_digits(d) {
                    lemma_digits_value_grows(d, k + 1 - start);
                    assert(d.subrange(0, k + 1 - start) =~= s@.subrange(start as int, k + 1));
                    assert(digits_value(s@.subrange(start as int, k + 1)) == value * 10 + digit);
                    assert(digits_value(d) > usize::MAX);
                }
            }
            return None;
        }
        proof {
            assert(value * 10 + digit <= usize::MAX) by (nonlinear_arith)
                requires
                    value <= (usize::MAX - digit) / 10,
                    0 <= digit <= 9,
            ;
        }
        value = value * 10 + digit;
        k = k + 1;
    }
    Some(value)
}

/// Whether `s` begins with `prefix`.
pub fn has_prefix(s: &[u8], prefix: &[u8]) -> (b: bool)
    ensures
        b == starts_with(s@, prefix@),
{
    if prefix.len() > s.len() {
        return false;
    }
    let mut k: usize = 0;
    while k < prefix.len()
        invariant
            prefix@.len() <= s@.len(),
            k <= prefix@.len(),
            forall|j: int| 0 <= j < k ==> s@[j] == prefix@[j],
        decreases prefix@.len() - k,
    {
        if s[k] != prefix[k] {
            proof {
                assert(s@.subrange(0, prefix@.len() as int)[k as int] != prefix@[k as int]);
            }
            return false;
        }
        k = k + 1;
    }
    proof {
        assert(s@.subrange(0, prefix@.len() as int) =~= prefix@);
    }
    true
}

/// Whether every byte of `s[lo..hi]` is an ASCII digit.
pub fn all_digits_in(s: &[u8], lo: usize, hi: usize) -> (b: bool)
    requires
        lo <= hi <= s@.len(),
    ensures
        b == all_digits(s@.subrange(lo as int, hi as int)),
{
    let mut k = lo;
    while k < hi
        invariant
            lo <= k <= hi <= s@.len(),
            forall|j: int| lo <= j < k ==> 48 <= #[trigger] s@[j] <= 57,
        decreases hi - k,
    {
        if s[k] < 48 || s[k] > 57 {
            proof {
                assert(s@.subrange(lo as int, hi as int)[k - lo] == s@[k as int]);
            }
            return false;
        }
        k = k + 1;
    }
    proof {
        assert forall|j: int| 0 <= j < hi - lo implies 48 <= #[trigger] s@.subrange(lo as int, hi as int)[j] <= 57 by {
            assert(s@.subrange(lo as int, hi as int)[j] == s@[lo + j]);
        }
    }
    true
}

} // verus!
