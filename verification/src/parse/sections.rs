//! Markdown sections: an ATX heading (`#` through `######`) and everything
//! under it, up to the next heading of equal or lower level.

use vstd::prelude::*;
use crate::text::{
    byte_len, byte_offset, char_pred, chars_of, count_leading, count_trailing, is_white,
    leading_char, leading_white, matches_at, trim, trim_bounds, trim_end, trim_start,
};

verus! {

/// A section of a note body, as byte offsets into the body.
#[derive(Debug, Clone, Copy, PartialEq, Eq, Structural)]
pub struct Section {
    pub start: usize,
    pub end: usize,
    pub level: usize,
}

#[derive(Debug, PartialEq, Eq, Structural)]
pub enum SectionError {
    NotFound,
    Ambiguous(usize),
}

/// `p` is the first character of a line of `s`.
pub open spec fn is_line_start(s: Seq<char>, p: int) -> bool {
    0 <= p < s.len() && (p == 0 || s[p - 1] == '\n')
}

/// `q` is where the line containing `p` ends: at the next `'\n'` or at the end.
pub open spec fn is_line_end(s: Seq<char>, p: int, q: int) -> bool {
    &&& p <= q <= s.len()
    &&& (q == s.len() || s[q] == '\n')
    &&& forall|k: int| p <= k < q ==> s[k] != '\n'
}

pub open spec fn line_end(s: Seq<char>, p: int) -> int {
    choose|q: int| is_line_end(s, p, q)
}

/// The line starting at `p`, without its terminating newline.
pub open spec fn line_content(s: Seq<char>, p: int) -> Seq<char> {
    s.subrange(p, line_end(s, p))
}

/// The number of `#` characters that open the line at `p`.
pub open spec fn heading_level(s: Seq<char>, p: int) -> int {
    count_leading(line_content(s, p), char_pred('#')) as int
}

/// The line at `p` is an ATX heading: one to six `#` followed by a space.
pub open spec fn is_heading_at(s: Seq<char>, p: int) -> bool {
    let c = line_content(s, p);
    let l = heading_level(s, p);
    &&& is_line_start(s, p)
    &&& 1 <= l <= 6
    &&& l < c.len()
    &&& c[l] == ' '
}

/// The trimmed text of the heading line at `p`.
pub open spec fn heading_text(s: Seq<char>, p: int) -> Seq<char> {
    trim(line_content(s, p).skip(heading_level(s, p)))
}

pub open spec fn heading_pred(s: Seq<char>) -> spec_fn(int) -> bool {
    |p: int| is_heading_at(s, p)
}

pub open spec fn indices(n: int) -> Seq<int> {
    Seq::new(n as nat, |k: int| k)
}

/// Start indices of all heading lines of `s`, in order.
pub open spec fn heading_starts(s: Seq<char>) -> Seq<int> {
    indices(s.len() as int).filter(heading_pred(s))
}

pub open spec fn match_pred(s: Seq<char>, level: int, text: Seq<char>) -> spec_fn(int) -> bool {
    |p: int| heading_level(s, p) == level && heading_text(s, p) == text
}

/// Start indices of the heading lines with the given level and text.
pub open spec fn match_starts(s: Seq<char>, level: int, text: Seq<char>) -> Seq<int> {
    heading_starts(s).filter(match_pred(s, level, text))
}

/// `e` ends the section whose heading starts at `p` with level `level`: it is
/// the next heading of level at most `level`, or the end of the body.
pub open spec fn is_section_end(s: Seq<char>, p: int, level: int, e: int) -> bool {
    &&& p < e <= s.len()
    &&& (e == s.len() || (is_heading_at(s, e) && heading_level(s, e) <= level))
    &&& forall|q: int|
        #![trigger is_heading_at(s, q)]
        p < q < e && is_heading_at(s, q) ==> heading_level(s, q) > level
}

pub open spec fn section_end(s: Seq<char>, p: int, level: int) -> int {
    choose|e: int| is_section_end(s, p, level, e)
}

/// The level and the trimmed text of a heading argument such as `"## Tasks"`.
pub open spec fn heading_prefix(h: Seq<char>) -> (int, Seq<char>) {
    let t = trim_start(h);
    let l = count_leading(t, char_pred('#')) as int;
    (l, trim(t.skip(l)))
}

/// The section of `body` named by `heading`, as character indices
/// `(start, end, level)`.
pub open spec fn section_lookup(body: Seq<char>, heading: Seq<char>) -> Result<
    (int, int, int),
    SectionError,
> {
    let (level, text) = heading_prefix(heading);
    let ms = match_starts(body, level, text);
    if ms.len() == 0 {
        Err(SectionError::NotFound)
    } else if ms.len() == 1 {
        Ok((ms[0], section_end(body, ms[0], level), level))
    } else {
        Err(SectionError::Ambiguous(ms.len() as usize))
    }
}

pub proof fn lemma_line_end_unique(s: Seq<char>, p: int, q: int)
    requires
        is_line_end(s, p, q),
    ensures
        line_end(s, p) == q,
{
    let r = line_end(s, p);
    assert(is_line_end(s, p, r));
    if r < q {
        assert(s[r] != '\n');
    } else if q < r {
        assert(s[q] != '\n');
    }
}

pub proof fn lemma_section_end_unique(s: Seq<char>, p: int, level: int, e: int)
    requires
        is_section_end(s, p, level, e),
    ensures
        section_end(s, p, level) == e,
{
    let r = section_end(s, p, level);
    assert(is_section_end(s, p, level, r));
    if r < e {
        assert(is_heading_at(s, r));
    } else if e < r {
        assert(is_heading_at(s, e));
    }
}

proof fn lemma_indices_push(n: int)
    requires
        0 <= n,
    ensures
        indices(n + 1) == indices(n).push(n),
{
    assert(indices(n + 1) =~= indices(n).push(n));
}

pub proof fn lemma_indices_full(n: int)
    requires
        0 <= n,
    ensures
        indices(n).len() == n,
        forall|k: int| 0 <= k < n ==> #[trigger] indices(n)[k] == k,
{
}

proof fn lemma_line_end_from(s: Seq<char>, p: int, q: int)
    requires
        0 <= p <= q <= s.len(),
        forall|k: int| p <= k < q ==> s[k] != '\n',
    ensures
        is_line_end(s, p, line_end(s, p)),
    decreases s.len() - q,
{
    if q == s.len() || s[q] == '\n' {
        assert(is_line_end(s, p, q));
    } else {
        lemma_line_end_from(s, p, q + 1);
    }
}

/// Every line has an end.
pub proof fn lemma_line_end_exists(s: Seq<char>, p: int)
    requires
        0 <= p <= s.len(),
    ensures
        is_line_end(s, p, line_end(s, p)),
{
    lemma_line_end_from(s, p, p);
}

/// A heading line opens with `#`.
pub proof fn lemma_heading_opens_with_hash(s: Seq<char>, q: int)
    requires
        is_heading_at(s, q),
    ensures
        0 <= q < s.len(),
        s[q] == '#',
{
    lemma_line_end_exists(s, q);
    let lc = line_content(s, q);
    crate::text::lemma_count_leading_bound(lc, char_pred('#'));
    assert(lc[0] == s[q]);
}

/// A line of `m` read inside `a + m + z`, where `m` starts a line and its
/// last line ends with `m` or at a newline: it is the same line there.
pub proof fn lemma_region_line(a: Seq<char>, m: Seq<char>, z: Seq<char>, r: int)
    requires
        0 <= r < m.len(),
        a.len() == 0 || a.last() == '\n',
        z.len() == 0 || z[0] == '\n' || m.last() == '\n',
    ensures
        is_line_start(a + m + z, a.len() + r) == is_line_start(m, r),
        line_content(a + m + z, a.len() + r) == line_content(m, r),
{
    let s = a + m + z;
    let q = a.len() + r;
    lemma_line_end_exists(m, r);
    let e = line_end(m, r);
    if e == m.len() && !(z.len() == 0 || z[0] == '\n') {
        assert(m[m.len() - 1] != '\n');
    }
    assert forall|k: int| q <= k < a.len() + e implies s[k] != '\n' by {
        assert(s[k] == m[k - a.len()]);
    }
    if e < m.len() {
        assert(s[a.len() + e] == m[e]);
    } else if z.len() > 0 {
        assert(s[a.len() + e] == z[0]);
    }
    assert(is_line_end(s, q, a.len() + e));
    lemma_line_end_unique(s, q, a.len() + e);
    assert(line_content(s, q) =~= line_content(m, r));
    if r > 0 {
        assert(s[q - 1] == m[r - 1]);
    } else if a.len() > 0 {
        assert(s[q - 1] == a.last());
    }
}

/// A heading of the text without its trailing whitespace is a heading of
/// the whole text too, with the same level and text.
pub proof fn lemma_trimmed_heading(b: Seq<char>, q: int)
    requires
        is_heading_at(trim_end(b), q),
    ensures
        is_heading_at(b, q),
        heading_level(b, q) == heading_level(trim_end(b), q),
        heading_text(b, q) == heading_text(trim_end(b), q),
{
    let wp = crate::text::white_pred();
    crate::text::lemma_count_trailing_bound(b, wp);
    let k = b.len() - count_trailing(b, wp);
    let t = trim_end(b);
    assert(t == b.take(k));
    lemma_line_end_exists(t, q);
    let le0 = line_end(t, q);
    let lc0 = line_content(t, q);
    let l0 = heading_level(t, q);
    crate::text::lemma_count_leading_bound(lc0, char_pred('#'));
    if le0 < k {
        assert(t[le0] == b[le0]);
        assert forall|m: int| q <= m < le0 implies b[m] != '\n' by {
            assert(t[m] == b[m]);
        }
        assert(is_line_end(b, q, le0));
        lemma_line_end_unique(b, q, le0);
        assert(line_content(b, q) =~= lc0);
    } else {
        lemma_line_end_exists(b, q);
        let le = line_end(b, q);
        assert forall|m: int| q <= m < k implies b[m] != '\n' by {
            assert(t[m] == b[m]);
        }
        if le < k {
            assert(b[le] == '\n');
            assert(false);
        }
        let w = b.subrange(k, le);
        assert forall|i: int| 0 <= i < w.len() implies is_white(#[trigger] w[i]) by {
            assert(w[i] == b[k + i]);
            assert(wp(b[k + i]));
        }
        let lc = line_content(b, q);
        assert(lc =~= lc0 + w);
        assert forall|i: int| 0 <= i < l0 implies #[trigger] char_pred('#')(lc[i]) by {
            assert(lc[i] == lc0[i]);
        }
        assert(lc[l0] == lc0[l0]);
        crate::text::lemma_count_leading(lc, char_pred('#'), l0);
        assert(lc.skip(l0) =~= lc0.skip(l0) + w);
        crate::text::lemma_trim_append_white(lc0.skip(l0), w);
    }
    if q > 0 {
        assert(t[q - 1] == b[q - 1]);
    }
}

/// The found section's heading is the only heading of `body` with that level
/// and text.
pub proof fn lemma_found_unique(body: Seq<char>, heading: Seq<char>, q: int)
    requires
        section_lookup(body, heading) is Ok,
        0 <= q < body.len(),
        is_heading_at(body, q),
        heading_level(body, q) == heading_prefix(heading).0,
        heading_text(body, q) == heading_prefix(heading).1,
    ensures
        q == section_lookup(body, heading)->Ok_0.0,
{
    let (level, text) = heading_prefix(heading);
    let hs = heading_starts(body);
    let ms = match_starts(body, level, text);
    lemma_indices_full(body.len() as int);
    indices(body.len() as int).lemma_filter_contains(heading_pred(body), q);
    let k = choose|k: int| 0 <= k < hs.len() && hs[k] == q;
    hs.lemma_filter_contains(match_pred(body, level, text), k);
    assert(ms.contains(q));
}

/// With no section found, no heading of `body` has the heading's level and
/// text.
pub proof fn lemma_not_found_none(body: Seq<char>, heading: Seq<char>, q: int)
    requires
        section_lookup(body, heading) == Err::<(int, int, int), SectionError>(SectionError::NotFound),
        0 <= q < body.len(),
        is_heading_at(body, q),
        heading_level(body, q) == heading_prefix(heading).0,
    ensures
        heading_text(body, q) != heading_prefix(heading).1,
{
    let (level, text) = heading_prefix(heading);
    let hs = heading_starts(body);
    let ms = match_starts(body, level, text);
    if heading_text(body, q) == text {
        lemma_indices_full(body.len() as int);
        indices(body.len() as int).lemma_filter_contains(heading_pred(body), q);
        let k = choose|k: int| 0 <= k < hs.len() && hs[k] == q;
        hs.lemma_filter_contains(match_pred(body, level, text), k);
        assert(ms.contains(q));
    }
}

proof fn lemma_single_match_upto(P: spec_fn(int) -> bool, Q: spec_fn(int) -> bool, q0: int, n: int)
    requires
        0 <= n,
        0 <= q0,
        P(q0) && Q(q0),
        forall|q: int| 0 <= q < n && q != q0 ==> !(#[trigger] P(q) && Q(q)),
    ensures
        indices(n).filter(P).filter(Q) == if q0 < n {
            seq![q0]
        } else {
            Seq::<int>::empty()
        },
    decreases n,
{
    if n == 0 {
        assert(indices(0) =~= Seq::<int>::empty());
        assert(indices(0).filter(P) =~= Seq::<int>::empty());
        assert(indices(0).filter(P).filter(Q) =~= Seq::<int>::empty());
    } else {
        lemma_single_match_upto(P, Q, q0, n - 1);
        lemma_indices_push(n - 1);
        indices(n - 1).lemma_filter_push(n - 1, P);
        if P(n - 1) {
            indices(n - 1).filter(P).lemma_filter_push(n - 1, Q);
        }
    }
}

/// The indices below `n` that satisfy `P` and then `Q` are `q0` alone when
/// no other index satisfies both.
pub proof fn lemma_single_match(P: spec_fn(int) -> bool, Q: spec_fn(int) -> bool, q0: int, n: int)
    requires
        0 <= q0 < n,
        P(q0) && Q(q0),
        forall|q: int| 0 <= q < n && q != q0 ==> !(#[trigger] P(q) && Q(q)),
    ensures
        indices(n).filter(P).filter(Q) == seq![q0],
{
    lemma_single_match_upto(P, Q, q0, n);
}

proof fn lemma_section_end_exists(s: Seq<char>, p: int, level: int, q: int)
    requires
        p < q <= s.len(),
        forall|x: int|
            #![trigger is_heading_at(s, x)]
            p < x < q && is_heading_at(s, x) ==> heading_level(s, x) > level,
    ensures
        is_section_end(s, p, level, section_end(s, p, level)),
    decreases s.len() - q,
{
    if q == s.len() || (is_heading_at(s, q) && heading_level(s, q) <= level) {
        assert(is_section_end(s, p, level, q));
    } else {
        lemma_section_end_exists(s, p, level, q + 1);
    }
}

/// A section found by its heading starts at a heading line of the heading's
/// level and text, and ends at the next heading of the same or a higher
/// level, or at the end of the body; subheadings stay inside it.
pub proof fn law_found_section(body: Seq<char>, heading: Seq<char>)
    requires
        section_lookup(body, heading) is Ok,
    ensures
        ({
            let (p, e, level) = section_lookup(body, heading)->Ok_0;
            &&& 0 <= p < e <= body.len()
            &&& is_heading_at(body, p)
            &&& level == heading_prefix(heading).0
            &&& heading_level(body, p) == level
            &&& heading_text(body, p) == heading_prefix(heading).1
            &&& is_section_end(body, p, level, e)
        }),
{
    let (level, text) = heading_prefix(heading);
    let hs = heading_starts(body);
    let ms = match_starts(body, level, text);
    let p = ms[0];
    hs.lemma_filter_pred(match_pred(body, level, text), 0);
    assert(ms.contains(p));
    hs.lemma_filter_contains_rev(match_pred(body, level, text), p);
    let k = choose|k: int| 0 <= k < hs.len() && hs[k] == p;
    indices(body.len() as int).lemma_filter_pred(heading_pred(body), k);
    assert(hs.contains(p));
    indices(body.len() as int).lemma_filter_contains_rev(heading_pred(body), p);
    assert(is_heading_at(body, p));
    if p + 1 <= body.len() {
        lemma_section_end_exists(body, p, level, p + 1);
    }
}

/// Level and text bounds `(level, a, b)` of a heading argument: the text is
/// `h[a..b]`.
fn parse_heading_prefix(h: &[char]) -> (r: (usize, usize, usize))
    ensures
        r.1 <= r.2 <= h@.len(),
        r.0 == heading_prefix(h@).0,
        h@.subrange(r.1 as int, r.2 as int) == heading_prefix(h@).1,
        r.0 <= h@.len(),
{
    let n = h.len();
    let s0 = leading_white(h, 0, n);
    let level = leading_char(h, s0, n, '#');
    let (a, b) = trim_bounds(h, s0 + level, n);
    proof {
        assert(h@.subrange(0, n as int) =~= h@);
        let t = trim_start(h@);
        assert(t =~= h@.subrange(s0 as int, n as int));
        assert(t.skip(level as int) =~= h@.subrange(s0 + level, n as int));
    }
    (level, a, b)
}

/// Examines the line starting at `p`: returns where its content ends and, if
/// it is a heading, its level and whether its text equals `t[ta..tb]`.
fn examine_line(s: &[char], p: usize, t: &[char], ta: usize, tb: usize) -> (r: (
    usize,
    Option<(usize, bool)>,
))
    requires
        is_line_start(s@, p as int),
        ta <= tb <= t@.len(),
    ensures
        is_line_end(s@, p as int, r.0 as int),
        match r.1 {
            Some((l, m)) => {
                &&& is_heading_at(s@, p as int)
                &&& l == heading_level(s@, p as int)
                &&& m == (heading_text(s@, p as int) == t@.subrange(ta as int, tb as int))
            },
            None => !is_heading_at(s@, p as int),
        },
{
    let n = s.len();
    let mut q = p;
    while q < n && s[q] != '\n'
        invariant
            p <= q <= n == s@.len(),
            forall|k: int| p <= k < q ==> s@[k] != '\n',
        decreases n - q,
    {
        q += 1;
    }
    proof {
        lemma_line_end_unique(s@, p as int, q as int);
    }
    let ghost c = s@.subrange(p as int, q as int);
    let level = leading_char(s, p, q, '#');
    if level >= 1 && level <= 6 && p + level < q && s[p + level] == ' ' {
        let (a, b) = trim_bounds(s, p + level, q);
        proof {
            assert(c[level as int] == s@[p + level]);
            assert(c.skip(level as int) =~= s@.subrange(p + level, q as int));
        }
        let same = b - a == tb - ta && matches_at(s, a, &t[ta..tb]);
        proof {
            let x = s@.subrange(a as int, b as int);
            let y = t@.subrange(ta as int, tb as int);
            if same {
                assert(x =~= y);
            } else if x == y {
                assert(s@.subrange(a as int, a + y.len()) =~= x);
            }
        }
        (q, Some((level, same)))
    } else {
        proof {
            if p + level < q {
                assert(c[level as int] == s@[p + level]);
            }
        }
        (q, None)
    }
}

pub open spec fn head_starts(v: Seq<(usize, usize, bool)>) -> Seq<int> {
    v.map_values(|h: (usize, usize, bool)| h.0 as int)
}

/// Collects every heading line of `s`: `(start, level, text matches)`.
fn collect_headings(s: &[char], t: &[char], ta: usize, tb: usize) -> (r: Vec<(usize, usize, bool)>)
    requires
        ta <= tb <= t@.len(),
    ensures
        head_starts(r@) == heading_starts(s@),
        forall|k: int|
            0 <= k < r@.len() ==> {
                &&& is_heading_at(s@, #[trigger] r@[k].0 as int)
                &&& r@[k].1 == heading_level(s@, r@[k].0 as int)
                &&& r@[k].2 == (heading_text(s@, r@[k].0 as int) == t@.subrange(
                    ta as int,
                    tb as int,
                ))
                &&& r@[k].0 < s@.len()
            },
        forall|k1: int, k2: int| 0 <= k1 < k2 < r@.len() ==> r@[k1].0 < r@[k2].0,
{
    let n = s.len();
    let mut heads: Vec<(usize, usize, bool)> = Vec::new();
    let mut i: usize = 0;
    while i < n
        invariant
            n == s@.len(),
            i <= n,
            ta <= tb <= t@.len(),
            head_starts(heads@) == indices(i as int).filter(heading_pred(s@)),
            forall|k: int|
                0 <= k < heads@.len() ==> {
                    &&& is_heading_at(s@, #[trigger] heads@[k].0 as int)
                    &&& heads@[k].1 == heading_level(s@, heads@[k].0 as int)
                    &&& heads@[k].2 == (heading_text(s@, heads@[k].0 as int) == t@.subrange(
                        ta as int,
                        tb as int,
                    ))
                    &&& heads@[k].0 < i
                },
            forall|k1: int, k2: int| 0 <= k1 < k2 < heads@.len() ==> heads@[k1].0 < heads@[k2].0,
        decreases n - i,
    {
        let ghost old_heads = heads@;
        let mut found = false;
        if i == 0 || s[i - 1] == '\n' {
            let (_q, info) = examine_line(s, i, t, ta, tb);
            match info {
                Some((l, m)) => {
                    heads.push((i, l, m));
                    found = true;
                },
                None => {},
            }
        }
        proof {
            lemma_indices_push(i as int);
            indices(i as int).lemma_filter_push(i as int, heading_pred(s@));
            assert(found == is_heading_at(s@, i as int));
            if found {
                assert(head_starts(heads@) =~= head_starts(old_heads).push(i as int));
            } else {
                assert(heads@ == old_heads);
            }
        }
        i += 1;
    }
    heads
}

/// Finds the section named by the heading `h` in `s`, as character indices
/// `(start, end, level)`.
pub fn locate_section(s: &[char], h: &[char]) -> (r: Result<(usize, usize, usize), SectionError>)
    ensures
        match (r, section_lookup(s@, h@)) {
            (Ok(x), Ok(y)) => x.0 == y.0 && x.1 == y.1 && x.2 == y.2,
            (Err(x), Err(y)) => x == y,
            _ => false,
        },
        r matches Ok(x) ==> x.0 < x.1 <= s@.len(),
{
    let (level, ta, tb) = parse_heading_prefix(h);
    let heads = collect_headings(s, h, ta, tb);
    let ghost hs = heading_starts(s@);
    let ghost text = heading_prefix(h@).1;
    let ghost mp = match_pred(s@, level as int, text);
    proof {
        assert(hs.len() == heads@.len());
        assert forall|k: int| 0 <= k < hs.len() implies hs[k] == heads@[k].0 as int by {
            assert(head_starts(heads@)[k] == heads@[k].0 as int);
        }
    }
    // Count the matching headings, remembering the first.
    let mut count: usize = 0;
    let mut first: usize = 0;
    let mut k: usize = 0;
    while k < heads.len()
        invariant
            k <= heads@.len() == hs.len(),
            forall|j: int| 0 <= j < hs.len() ==> hs[j] == heads@[j].0 as int,
            forall|j: int|
                0 <= j < heads@.len() ==> heads@[j].2 == (heading_text(s@, heads@[j].0 as int)
                    == text),
            forall|j: int|
                0 <= j < heads@.len() ==> heads@[j].1 == heading_level(s@, heads@[j].0 as int),
            count == hs.take(k as int).filter(mp).len(),
            count <= k,
            count >= 1 ==> first < k && hs.take(k as int).filter(mp)[0] == heads@[first as int].0
                as int,
            mp == match_pred(s@, level as int, text),
        decreases heads@.len() - k,
    {
        proof {
            assert(hs.take(k + 1) =~= hs.take(k as int).push(hs[k as int]));
            hs.take(k as int).lemma_filter_push(hs[k as int], mp);
        }
        if heads[k].1 == level && heads[k].2 {
            if count == 0 {
                first = k;
            }
            count += 1;
        }
        k += 1;
    }
    proof {
        assert(hs.take(hs.len() as int) =~= hs);
    }
    if count == 0 {
        return Err(SectionError::NotFound);
    }
    if count > 1 {
        return Err(SectionError::Ambiguous(count));
    }
    // Exactly one match: the section runs to the next heading of level at
    // most `level`, or to the end.
    let p = heads[first].0;
    let mut j = first + 1;
    while j < heads.len() && heads[j].1 > level
        invariant
            first < j <= heads@.len(),
            forall|m: int| first < m < j ==> heads@[m].1 > level,
        decreases heads@.len() - j,
    {
        j += 1;
    }
    let e = if j < heads.len() {
        heads[j].0
    } else {
        s.len()
    };
    proof {
        assert forall|q: int|
            #![trigger is_heading_at(s@, q)]
            p < q < e && is_heading_at(s@, q) implies heading_level(s@, q) > level by {
            assert(heading_pred(s@)(q));
            lemma_indices_full(s@.len() as int);
            assert(indices(s@.len() as int)[q] == q);
            assert(indices(s@.len() as int).contains(q));
            assert(hs.contains(q));
            let m = choose|m: int| 0 <= m < hs.len() && hs[m] == q;
            assert(heads@[m].0 as int == q);
            if m <= first {
                if m < first {
                    assert(heads@[m].0 < heads@[first as int].0);
                }
            } else if m >= j {
                if m > j {
                    assert(heads@[j as int].0 < heads@[m].0);
                }
            }
        }
        assert(is_section_end(s@, p as int, level as int, e as int));
        lemma_section_end_unique(s@, p as int, level as int, e as int);
    }
    Ok((p, e, level))
}

/// Finds a markdown section (an ATX heading, `#` through `######`, plus
/// everything under it) inside `body` matching `heading` (e.g. "## Tasks").
/// A match requires both the heading level and text to match exactly. The
/// section runs from the heading line up to (but not including) the next
/// heading of equal or lower level, or the end of the document. Offsets are
/// byte offsets into `body`.
pub fn find_section(body: &str, heading: &str) -> (r: Result<Section, SectionError>)
    ensures
        match (r, section_lookup(body@, heading@)) {
            (Ok(sec), Ok((p, e, l))) => {
                &&& sec.start == byte_len(body@.take(p))
                &&& sec.end == byte_len(body@.take(e))
                &&& sec.level == l
            },
            (Err(x), Err(y)) => x == y,
            _ => false,
        },
{
    let s = chars_of(body);
    let h = chars_of(heading);
    match locate_section(&s, &h) {
        Ok((p, e, l)) => {
            let start = byte_offset(&s, p);
            let end = byte_offset(&s, e);
            Ok(Section { start, end, level: l })
        },
        Err(x) => Err(x),
    }
}

} // verus!
