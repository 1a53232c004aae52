//! Character-sequence helpers shared by the parsers: whitespace, trimming,
//! searching and conversions between `str`/`String` and `Vec<char>`.

use vstd::prelude::*;
use vstd::utf8::*;

verus! {

broadcast use vstd::utf8::char_is_scalar;

/// The Unicode `White_Space` property (what `char::is_whitespace` tests).
pub open spec fn is_white(c: char) -> bool {
    let u = c as u32;
    ||| 0x09 <= u <= 0x0d
    ||| u == 0x20
    ||| u == 0x85
    ||| u == 0xa0
    ||| u == 0x1680
    ||| 0x2000 <= u <= 0x200a
    ||| u == 0x2028
    ||| u == 0x2029
    ||| u == 0x202f
    ||| u == 0x205f
    ||| u == 0x3000
}

pub open spec fn white_pred() -> spec_fn(char) -> bool {
    |c: char| is_white(c)
}

pub open spec fn char_pred(ch: char) -> spec_fn(char) -> bool {
    |c: char| c == ch
}

/// Number of leading characters of `s` that satisfy `p`.
pub open spec fn count_leading(s: Seq<char>, p: spec_fn(char) -> bool) -> nat
    decreases s.len(),
{
    if s.len() > 0 && p(s[0]) {
        1 + count_leading(s.drop_first(), p)
    } else {
        0
    }
}

/// Number of trailing characters of `s` that satisfy `p`.
pub open spec fn count_trailing(s: Seq<char>, p: spec_fn(char) -> bool) -> nat
    decreases s.len(),
{
    if s.len() > 0 && p(s.last()) {
        1 + count_trailing(s.drop_last(), p)
    } else {
        0
    }
}

/// `str::trim_start`.
pub open spec fn trim_start(s: Seq<char>) -> Seq<char> {
    s.skip(count_leading(s, white_pred()) as int)
}

/// `str::trim_end`.
pub open spec fn trim_end(s: Seq<char>) -> Seq<char> {
    s.take(s.len() - count_trailing(s, white_pred()))
}

/// `str::trim`.
pub open spec fn trim(s: Seq<char>) -> Seq<char> {
    trim_end(trim_start(s))
}

/// `str::trim_start_matches(ch)` for a single character.
pub open spec fn strip_leading(s: Seq<char>, ch: char) -> Seq<char> {
    s.skip(count_leading(s, char_pred(ch)) as int)
}

/// `str::trim_end_matches(ch)` for a single character.
pub open spec fn strip_trailing(s: Seq<char>, ch: char) -> Seq<char> {
    s.take(s.len() - count_trailing(s, char_pred(ch)))
}

/// `pat` occurs in `s` starting at index `i`.
pub open spec fn occurs_at(s: Seq<char>, pat: Seq<char>, i: int) -> bool {
    0 <= i && i + pat.len() <= s.len() && s.subrange(i, i + pat.len()) == pat
}

/// `s` starts with `pat`.
pub open spec fn starts_with(s: Seq<char>, pat: Seq<char>) -> bool {
    occurs_at(s, pat, 0)
}

/// `s` ends with `pat`.
pub open spec fn ends_with(s: Seq<char>, pat: Seq<char>) -> bool {
    occurs_at(s, pat, s.len() - pat.len())
}

/// `pat` occurs somewhere in `s`.
pub open spec fn contains(s: Seq<char>, pat: Seq<char>) -> bool {
    exists|i: int| occurs_at(s, pat, i)
}

/// `i` is the first index at or after `from` where `pat` occurs.
pub open spec fn is_first_occurrence(s: Seq<char>, pat: Seq<char>, from: int, i: int) -> bool {
    &&& from <= i
    &&& occurs_at(s, pat, i)
    &&& forall|j: int| from <= j < i ==> !occurs_at(s, pat, j)
}

/// `pat` does not occur at or after `from`.
pub open spec fn no_occurrence_from(s: Seq<char>, pat: Seq<char>, from: int) -> bool {
    forall|j: int| from <= j ==> !occurs_at(s, pat, j)
}

/// The first index at or after `from` where `pat` occurs.
pub open spec fn find_from_spec(s: Seq<char>, pat: Seq<char>, from: int) -> Option<int> {
    if exists|i: int| is_first_occurrence(s, pat, from, i) {
        Some(choose|i: int| is_first_occurrence(s, pat, from, i))
    } else {
        None
    }
}

/// Index of the first occurrence of `pat` in `s`, as `str::find` gives it.
pub open spec fn find(s: Seq<char>, pat: Seq<char>) -> Option<int> {
    find_from_spec(s, pat, 0)
}

pub proof fn lemma_first_occurrence_unique(s: Seq<char>, pat: Seq<char>, from: int, i: int, j: int)
    requires
        is_first_occurrence(s, pat, from, i),
        is_first_occurrence(s, pat, from, j),
    ensures
        i == j,
{
}

pub proof fn lemma_find_from_spec(s: Seq<char>, pat: Seq<char>, from: int, i: int)
    requires
        is_first_occurrence(s, pat, from, i),
    ensures
        find_from_spec(s, pat, from) == Some(i),
{
    let j = choose|j: int| is_first_occurrence(s, pat, from, j);
    lemma_first_occurrence_unique(s, pat, from, i, j);
}

pub proof fn lemma_count_leading(s: Seq<char>, p: spec_fn(char) -> bool, i: int)
    requires
        0 <= i <= s.len(),
        forall|k: int| 0 <= k < i ==> #[trigger] p(s[k]),
        i == s.len() || !p(s[i]),
    ensures
        count_leading(s, p) == i,
    decreases i,
{
    if i > 0 {
        assert(p(s[0]));
        let t = s.drop_first();
        assert forall|k: int| 0 <= k < i - 1 implies #[trigger] p(t[k]) by {
            assert(t[k] == s[k + 1]);
        }
        if i < s.len() {
            assert(t[i - 1] == s[i]);
        }
        lemma_count_leading(t, p, i - 1);
    }
}

pub proof fn lemma_count_trailing(s: Seq<char>, p: spec_fn(char) -> bool, i: int)
    requires
        0 <= i <= s.len(),
        forall|k: int| s.len() - i <= k < s.len() ==> #[trigger] p(s[k]),
        i == s.len() || !p(s[s.len() - i - 1]),
    ensures
        count_trailing(s, p) == i,
    decreases i,
{
    if i > 0 {
        assert(p(s[s.len() - 1]));
        let t = s.drop_last();
        assert forall|k: int| t.len() - (i - 1) <= k < t.len() implies #[trigger] p(t[k]) by {
            assert(t[k] == s[k]);
        }
        if i < s.len() {
            assert(t[t.len() - (i - 1) - 1] == s[s.len() - i - 1]);
        }
        lemma_count_trailing(t, p, i - 1);
    }
}

pub proof fn lemma_count_leading_bound(s: Seq<char>, p: spec_fn(char) -> bool)
    ensures
        count_leading(s, p) <= s.len(),
        forall|k: int| 0 <= k < count_leading(s, p) ==> #[trigger] p(s[k]),
        count_leading(s, p) < s.len() ==> !p(s[count_leading(s, p) as int]),
    decreases s.len(),
{
    if s.len() > 0 && p(s[0]) {
        let t = s.drop_first();
        lemma_count_leading_bound(t, p);
        assert forall|k: int| 0 <= k < count_leading(s, p) implies #[trigger] p(s[k]) by {
            if k > 0 {
                assert(s[k] == t[k - 1]);
            }
        }
        if count_leading(s, p) < s.len() {
            assert(s[count_leading(s, p) as int] == t[count_leading(t, p) as int]);
        }
    }
}

pub proof fn lemma_count_trailing_bound(s: Seq<char>, p: spec_fn(char) -> bool)
    ensures
        count_trailing(s, p) <= s.len(),
        forall|k: int| s.len() - count_trailing(s, p) <= k < s.len() ==> #[trigger] p(s[k]),
        count_trailing(s, p) < s.len() ==> !p(s[s.len() - count_trailing(s, p) - 1]),
    decreases s.len(),
{
    if s.len() > 0 && p(s.last()) {
        let t = s.drop_last();
        lemma_count_trailing_bound(t, p);
        assert forall|k: int| s.len() - count_trailing(s, p) <= k < s.len() implies #[trigger] p(
            s[k],
        ) by {
            if k < s.len() - 1 {
                assert(s[k] == t[k]);
            }
        }
        if count_trailing(s, p) < s.len() {
            assert(s[s.len() - count_trailing(s, p) - 1] == t[t.len() - count_trailing(t, p) - 1]);
        }
    }
}

/// Trailing whitespace does not change what `trim` gives.
pub proof fn lemma_trim_append_white(x: Seq<char>, w: Seq<char>)
    requires
        forall|i: int| 0 <= i < w.len() ==> is_white(#[trigger] w[i]),
    ensures
        trim(x + w) == trim(x),
{
    let s = x + w;
    let wp = white_pred();
    lemma_count_leading_bound(x, wp);
    let a = count_leading(x, wp) as int;
    if a == x.len() {
        assert forall|k: int| 0 <= k < s.len() implies #[trigger] wp(s[k]) by {
            if k < x.len() {
                assert(s[k] == x[k]);
            } else {
                assert(s[k] == w[k - x.len()]);
            }
        }
        lemma_count_leading(s, wp, s.len() as int);
        assert(trim_start(s) =~= Seq::<char>::empty());
        assert(trim_start(x) =~= Seq::<char>::empty());
    } else {
        assert forall|k: int| 0 <= k < a implies #[trigger] wp(s[k]) by {
            assert(s[k] == x[k]);
        }
        assert(s[a] == x[a]);
        lemma_count_leading(s, wp, a);
        let y = x.skip(a);
        assert(trim_start(s) =~= y + w);
        assert(trim_start(x) == y);
        lemma_count_trailing_bound(y, wp);
        let t = count_trailing(y, wp) as int;
        assert(t < y.len()) by {
            if t == y.len() {
                assert(wp(y[0]));
                assert(y[0] == x[a]);
            }
        }
        let yw = y + w;
        assert forall|k: int| yw.len() - (t + w.len()) <= k < yw.len() implies #[trigger] wp(yw[k]) by {
            if k < y.len() {
                assert(yw[k] == y[k]);
            } else {
                assert(yw[k] == w[k - y.len()]);
            }
        }
        assert(yw[yw.len() - (t + w.len()) - 1] == y[y.len() - t - 1]);
        lemma_count_trailing(yw, wp, t + w.len());
        assert(trim_end(yw) =~= trim_end(y));
    }
}

/// `char::is_whitespace`.
pub fn is_whitespace(c: char) -> (r: bool)
    ensures
        r == is_white(c),
{
    let u = c as u32;
    (0x09 <= u && u <= 0x0d) || u == 0x20 || u == 0x85 || u == 0xa0 || u == 0x1680 || (0x2000 <= u
        && u <= 0x200a) || u == 0x2028 || u == 0x2029 || u == 0x202f || u == 0x205f || u == 0x3000
}

/// Number of whitespace characters at the start of `s[lo..hi]`.
pub fn leading_white(s: &[char], lo: usize, hi: usize) -> (n: usize)
    requires
        lo <= hi <= s@.len(),
    ensures
        n == count_leading(s@.subrange(lo as int, hi as int), white_pred()),
        lo + n <= hi,
{
    let mut i = lo;
    while i < hi && is_whitespace(s[i])
        invariant
            lo <= i <= hi <= s@.len(),
            forall|k: int| lo <= k < i ==> is_white(s@[k]),
        decreases hi - i,
    {
        i += 1;
    }
    proof {
        let t = s@.subrange(lo as int, hi as int);
        assert forall|k: int| 0 <= k < i - lo implies #[trigger] white_pred()(t[k]) by {
            assert(t[k] == s@[lo + k]);
        }
        if i < hi {
            assert(t[i - lo] == s@[i as int]);
        }
        lemma_count_leading(t, white_pred(), i - lo);
    }
    i - lo
}

/// Number of whitespace characters at the end of `s[lo..hi]`.
pub fn trailing_white(s: &[char], lo: usize, hi: usize) -> (n: usize)
    requires
        lo <= hi <= s@.len(),
    ensures
        n == count_trailing(s@.subrange(lo as int, hi as int), white_pred()),
        lo + n <= hi,
{
    let mut j = hi;
    while j > lo && is_whitespace(s[j - 1])
        invariant
            lo <= j <= hi <= s@.len(),
            forall|k: int| j <= k < hi ==> is_white(s@[k]),
        decreases j - lo,
    {
        j -= 1;
    }
    proof {
        let t = s@.subrange(lo as int, hi as int);
        assert forall|k: int| t.len() - (hi - j) <= k < t.len() implies #[trigger] white_pred()(
            t[k],
        ) by {
            assert(t[k] == s@[lo + k]);
        }
        if j > lo {
            assert(t[t.len() - (hi - j) - 1] == s@[j - 1]);
        }
        lemma_count_trailing(t, white_pred(), (hi - j) as int);
    }
    hi - j
}

/// Number of copies of `ch` at the start of `s[lo..hi]`.
pub fn leading_char(s: &[char], lo: usize, hi: usize, ch: char) -> (n: usize)
    requires
        lo <= hi <= s@.len(),
    ensures
        n == count_leading(s@.subrange(lo as int, hi as int), char_pred(ch)),
        lo + n <= hi,
{
    let mut i = lo;
    while i < hi && s[i] == ch
        invariant
            lo <= i <= hi <= s@.len(),
            forall|k: int| lo <= k < i ==> s@[k] == ch,
        decreases hi - i,
    {
        i += 1;
    }
    proof {
        let t = s@.subrange(lo as int, hi as int);
        assert forall|k: int| 0 <= k < i - lo implies #[trigger] char_pred(ch)(t[k]) by {
            assert(t[k] == s@[lo + k]);
        }
        if i < hi {
            assert(t[i - lo] == s@[i as int]);
        }
        lemma_count_leading(t, char_pred(ch), i - lo);
    }
    i - lo
}

/// Number of copies of `ch` at the end of `s[lo..hi]`.
pub fn trailing_char(s: &[char], lo: usize, hi: usize, ch: char) -> (n: usize)
    requires
        lo <= hi <= s@.len(),
    ensures
        n == count_trailing(s@.subrange(lo as int, hi as int), char_pred(ch)),
        lo + n <= hi,
{
    let mut j = hi;
    while j > lo && s[j - 1] == ch
        invariant
            lo <= j <= hi <= s@.len(),
            forall|k: int| j <= k < hi ==> s@[k] == ch,
        decreases j - lo,
    {
        j -= 1;
    }
    proof {
        let t = s@.subrange(lo as int, hi as int);
        assert forall|k: int| t.len() - (hi - j) <= k < t.len() implies #[trigger] char_pred(ch)(
            t[k],
        ) by {
            assert(t[k] == s@[lo + k]);
        }
        if j > lo {
            assert(t[t.len() - (hi - j) - 1] == s@[j - 1]);
        }
        lemma_count_trailing(t, char_pred(ch), (hi - j) as int);
    }
    hi - j
}

/// The bounds `(a, b)` of `trim(s[lo..hi])` inside `s`.
pub fn trim_bounds(s: &[char], lo: usize, hi: usize) -> (r: (usize, usize))
    requires
        lo <= hi <= s@.len(),
    ensures
        lo <= r.0 <= r.1 <= hi,
        s@.subrange(r.0 as int, r.1 as int) == trim(s@.subrange(lo as int, hi as int)),
{
    let a = lo + leading_white(s, lo, hi);
    let b = hi - trailing_white(s, a, hi);
    proof {
        let t = s@.subrange(lo as int, hi as int);
        assert(trim_start(t) == s@.subrange(a as int, hi as int));
        assert(trim_end(s@.subrange(a as int, hi as int)) == s@.subrange(a as int, b as int));
    }
    (a, b)
}

/// Does `pat` occur in `s` at index `i`?
pub fn matches_at(s: &[char], i: usize, pat: &[char]) -> (r: bool)
    ensures
        r == occurs_at(s@, pat@, i as int),
{
    if i > s.len() || pat.len() > s.len() - i {
        return false;
    }
    let mut k: usize = 0;
    while k < pat.len()
        invariant
            i + pat.len() <= s.len(),
            k <= pat@.len(),
            forall|m: int| 0 <= m < k ==> s@[i + m] == pat@[m],
        decreases pat@.len() - k,
    {
        if s[i + k] != pat[k] {
            assert(s@.subrange(i as int, i + pat@.len())[k as int] != pat@[k as int]);
            return false;
        }
        k += 1;
    }
    assert(s@.subrange(i as int, i + pat@.len()) =~= pat@);
    true
}

/// First index at or after `from` where `pat` occurs in `s`.
pub fn find_from(s: &[char], from: usize, pat: &[char]) -> (r: Option<usize>)
    requires
        from <= s@.len(),
    ensures
        match r {
            Some(i) => is_first_occurrence(s@, pat@, from as int, i as int),
            None => no_occurrence_from(s@, pat@, from as int),
        },
        match r {
            Some(i) => find_from_spec(s@, pat@, from as int) == Some(i as int),
            None => find_from_spec(s@, pat@, from as int) is None,
        },
{
    let mut i = from;
    loop
        invariant
            from <= i <= s@.len(),
            forall|j: int| from <= j < i ==> !occurs_at(s@, pat@, j),
        ensures
            i == s@.len(),
            forall|j: int| from <= j <= i ==> !occurs_at(s@, pat@, j),
        decreases s@.len() - i,
    {
        if matches_at(s, i, pat) {
            proof {
                lemma_find_from_spec(s@, pat@, from as int, i as int);
            }
            return Some(i);
        }
        if i == s.len() {
            break;
        }
        i += 1;
    }
    assert forall|j: int| from <= j implies !occurs_at(s@, pat@, j) by {
        if j > i {
            assert(j + pat@.len() > s@.len());
        }
    }
    assert(!exists|j: int| is_first_occurrence(s@, pat@, from as int, j));
    None
}

/// Length in bytes of the UTF-8 encoding of `s` (what `str::len` reports).
pub open spec fn byte_len(s: Seq<char>) -> nat {
    encode_utf8(s).len()
}

pub proof fn lemma_encode_utf8_concat(a: Seq<char>, b: Seq<char>)
    ensures
        encode_utf8(a + b) == encode_utf8(a) + encode_utf8(b),
    decreases a.len(),
{
    if a.len() == 0 {
        assert(a + b =~= b);
        assert(encode_utf8(a) + encode_utf8(b) =~= encode_utf8(b));
    } else {
        assert((a + b).drop_first() =~= a.drop_first() + b);
        assert((a + b)[0] == a[0]);
        lemma_encode_utf8_concat(a.drop_first(), b);
        assert(encode_utf8(a + b) =~= encode_utf8(a) + encode_utf8(b));
    }
}

pub proof fn lemma_byte_len_push(s: Seq<char>, c: char)
    ensures
        byte_len(s.push(c)) == byte_len(s) + encode_scalar(c as u32).len(),
{
    lemma_encode_utf8_concat(s, seq![c]);
    assert(s + seq![c] =~= s.push(c));
    assert(seq![c].drop_first() =~= Seq::<char>::empty());
    assert(encode_utf8(Seq::<char>::empty()) =~= Seq::<u8>::empty());
    assert(encode_utf8(seq![c]) =~= encode_scalar(c as u32));
}

pub proof fn lemma_byte_len_prefix(s: Seq<char>, k: int)
    requires
        0 <= k <= s.len(),
    ensures
        byte_len(s.take(k)) <= byte_len(s),
{
    lemma_encode_utf8_concat(s.take(k), s.skip(k));
    assert(s.take(k) + s.skip(k) =~= s);
}

pub proof fn lemma_byte_len_subrange(s: Seq<char>, a: int, b: int)
    requires
        0 <= a <= b <= s.len(),
    ensures
        byte_len(s.subrange(a, b)) <= byte_len(s),
{
    lemma_encode_utf8_concat(s.subrange(a, b), s.skip(b));
    assert(s.subrange(a, b) + s.skip(b) =~= s.skip(a));
    lemma_encode_utf8_concat(s.take(a), s.skip(a));
    assert(s.take(a) + s.skip(a) =~= s);
}

/// The decimal digit `d` as a character.
pub open spec fn digit_char(d: int) -> char {
    ((48 + d) as u8) as char
}

/// Decimal notation of `n`.
pub open spec fn decimal(n: nat) -> Seq<char>
    decreases n,
{
    if n < 10 {
        seq![digit_char(n as int)]
    } else {
        decimal(n / 10).push(digit_char((n % 10) as int))
    }
}

/// Decimal notation of `i`, with a leading `-` when negative (`i64::to_string`).
pub open spec fn int_text(i: int) -> Seq<char> {
    if i < 0 {
        seq!['-'] + decimal((-i) as nat)
    } else {
        decimal(i as nat)
    }
}

/// Appends the decimal notation of `n` to `out`.
pub fn push_decimal(out: &mut Vec<char>, n: u64)
    ensures
        final(out)@ == old(out)@ + decimal(n as nat),
    decreases n,
{
    if n >= 10 {
        push_decimal(out, n / 10);
    }
    let d = (n % 10) as u8;
    out.push((48u8 + d) as char);
    assert(final(out)@ =~= old(out)@ + decimal(n as nat));
}

/// Appends the decimal notation of `i` to `out`.
pub fn push_i64(out: &mut Vec<char>, i: i64)
    ensures
        final(out)@ == old(out)@ + int_text(i as int),
{
    if i < 0 {
        out.push('-');
        let m: u64 = if i == i64::MIN {
            9223372036854775808u64
        } else {
            (-i) as u64
        };
        push_decimal(out, m);
        assert(final(out)@ =~= old(out)@ + int_text(i as int));
    } else {
        push_decimal(out, i as u64);
    }
}

/// `char::len_utf8`.
pub fn utf8_width(c: char) -> (w: usize)
    ensures
        w == encode_scalar(c as u32).len(),
        1 <= w <= 4,
{
    let u = c as u32;
    if u <= 0x7f {
        1
    } else if u <= 0x7ff {
        2
    } else if u <= 0xffff {
        3
    } else {
        4
    }
}

/// The byte offset in the UTF-8 encoding of `s` of the character at index `p`.
pub fn byte_offset(s: &[char], p: usize) -> (r: usize)
    requires
        p <= s@.len(),
        byte_len(s@) <= usize::MAX,
    ensures
        r == byte_len(s@.take(p as int)),
{
    let mut r: usize = 0;
    let mut i: usize = 0;
    while i < p
        invariant
            i <= p <= s@.len(),
            byte_len(s@) <= usize::MAX,
            r == byte_len(s@.take(i as int)),
        decreases p - i,
    {
        proof {
            lemma_byte_len_push(s@.take(i as int), s@[i as int]);
            assert(s@.take(i as int).push(s@[i as int]) =~= s@.take(i + 1));
            lemma_byte_len_prefix(s@, i + 1);
        }
        r = r + utf8_width(s[i]);
        i += 1;
    }
    r
}

/// `i` is the first index of `s` whose character satisfies `p`.
pub open spec fn is_first_where(s: Seq<char>, p: spec_fn(char) -> bool, i: int) -> bool {
    0 <= i < s.len() && p(s[i]) && forall|j: int| 0 <= j < i ==> !p(s[j])
}

/// The pieces of `s` between characters satisfying `p` (`str::split(p)`).
pub open spec fn split_where(s: Seq<char>, p: spec_fn(char) -> bool) -> Seq<Seq<char>>
    decreases s.len(),
{
    if exists|i: int| is_first_where(s, p, i) {
        let i = choose|i: int| is_first_where(s, p, i);
        seq![s.take(i)] + split_where(s.skip(i + 1), p)
    } else {
        seq![s]
    }
}

pub proof fn lemma_split_where_step(v: Seq<char>, p: spec_fn(char) -> bool, seg: int, pos: int)
    requires
        0 <= seg <= pos < v.len(),
        p(v[pos]),
        forall|j: int| seg <= j < pos ==> !p(v[j]),
    ensures
        split_where(v.skip(seg), p) == seq![v.subrange(seg, pos)] + split_where(v.skip(pos + 1), p),
{
    let t = v.skip(seg);
    assert(is_first_where(t, p, pos - seg));
    let i = choose|i: int| is_first_where(t, p, i);
    if i < pos - seg {
        assert(t[i] == v[seg + i]);
    } else if i > pos - seg {
        assert(t[pos - seg] == v[pos]);
    }
    assert(t.take(pos - seg) =~= v.subrange(seg, pos));
    assert(t.skip(pos - seg + 1) =~= v.skip(pos + 1));
}

pub proof fn lemma_split_where_last(v: Seq<char>, p: spec_fn(char) -> bool, seg: int)
    requires
        0 <= seg <= v.len(),
        forall|j: int| seg <= j < v.len() ==> !p(v[j]),
    ensures
        split_where(v.skip(seg), p) == seq![v.subrange(seg, v.len() as int)],
{
    let t = v.skip(seg);
    if exists|i: int| is_first_where(t, p, i) {
        let i = choose|i: int| is_first_where(t, p, i);
        assert(t[i] == v[seg + i]);
    }
    assert(t =~= v.subrange(seg, v.len() as int));
}

pub proof fn lemma_len_le_byte_len(s: Seq<char>)
    ensures
        s.len() <= byte_len(s),
    decreases s.len(),
{
    if s.len() > 0 {
        lemma_len_le_byte_len(s.drop_last());
        lemma_byte_len_push(s.drop_last(), s.last());
        assert(s.drop_last().push(s.last()) =~= s);
    }
}

/// Does the UTF-8 encoding of `s` take at least `k` bytes?
pub fn byte_len_at_least(s: &[char], k: usize) -> (r: bool)
    ensures
        r == (byte_len(s@) >= k),
{
    let mut total: usize = 0;
    let mut i: usize = 0;
    while i < s.len()
        invariant
            i <= s@.len(),
            total == byte_len(s@.take(i as int)),
            total < k || i == 0,
        decreases s@.len() - i,
    {
        if total >= k {
            proof {
                lemma_byte_len_prefix(s@, i as int);
            }
            return true;
        }
        proof {
            lemma_byte_len_push(s@.take(i as int), s@[i as int]);
            assert(s@.take(i as int).push(s@[i as int]) =~= s@.take(i + 1));
            lemma_byte_len_prefix(s@, i + 1);
        }
        let w = utf8_width(s[i]);
        if w >= k - total {
            return true;
        }
        total = total + w;
        i += 1;
    }
    assert(s@.take(i as int) =~= s@);
    total >= k
}

/// Collects `str::chars`: the characters of a string. A string occupies at
/// most `isize::MAX` bytes, as every Rust allocation does.
#[verifier::external_body]
pub(crate) fn chars_of(s: &str) -> (r: Vec<char>)
    ensures
        r@ == s@,
        byte_len(r@) <= isize::MAX,
{
    s.chars().collect()
}

/// Collects the characters into a `String` (`FromIterator<char>`).
#[verifier::external_body]
pub(crate) fn string_of(v: &[char]) -> (r: String)
    ensures
        r@ == v@,
{
    v.iter().collect()
}

/// Appends `s[lo..hi]` to `out`.
pub fn push_range(out: &mut Vec<char>, s: &[char], lo: usize, hi: usize)
    requires
        lo <= hi <= s@.len(),
    ensures
        final(out)@ == old(out)@ + s@.subrange(lo as int, hi as int),
{
    let mut i = lo;
    while i < hi
        invariant
            lo <= i <= hi <= s@.len(),
            out@ == old(out)@ + s@.subrange(lo as int, i as int),
        decreases hi - i,
    {
        out.push(s[i]);
        i += 1;
        assert(out@ =~= old(out)@ + s@.subrange(lo as int, i as int));
    }
}

/// Appends all of `s` to `out`.
pub fn push_all(out: &mut Vec<char>, s: &[char])
    ensures
        final(out)@ == old(out)@ + s@,
{
    push_range(out, s, 0, s.len());
    assert(s@.subrange(0, s@.len() as int) =~= s@);
}

/// `s[lo..hi]` as a new vector.
pub fn slice_vec(s: &[char], lo: usize, hi: usize) -> (r: Vec<char>)
    requires
        lo <= hi <= s@.len(),
    ensures
        r@ == s@.subrange(lo as int, hi as int),
{
    let mut r = Vec::new();
    push_range(&mut r, s, lo, hi);
    assert(r@ =~= s@.subrange(lo as int, hi as int));
    r
}

/// Are `a` and `b` the same character sequence?
pub fn chars_eq(a: &[char], b: &[char]) -> (r: bool)
    ensures
        r == (a@ == b@),
{
    if a.len() != b.len() {
        return false;
    }
    let r = matches_at(a, 0, b);
    proof {
        assert(a@.subrange(0, b@.len() as int) =~= a@);
    }
    r
}

} // verus!
