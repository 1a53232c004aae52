//! The vault: notes in a directory tree. The computations behind each vault
//! operation live here; reading and writing files is left to the caller.

pub mod edit;
pub mod search;
pub mod related;
pub mod daily;
pub mod files;
pub mod templates;
pub mod links;

use vstd::prelude::*;
use crate::config::Config;
use crate::parse::tag_removal::{kept_by, plain_tag_text};
use crate::parse::frontmatter::{
    entry_view, fence, fm_get, fm_has, fm_insert, join, law_no_fence_all_body, lemma_fm_get_has,
    list_sep, parse, parse_spec, Frontmatter,
};
use crate::parse::tags::{
    alphanumeric, inline_tags, is_alphanumeric, lowercase, removal_targets, to_lowercase,
    fm_tag, lemma_split_last, lemma_split_step, remove_inline_spec, remove_inline_tags, split_on,
    strings_view,
};
use crate::parse::sections::{
    heading_level, heading_prefix, heading_text, is_heading_at, is_line_start, law_found_section,
    lemma_found_unique, lemma_heading_opens_with_hash, lemma_line_end_exists, lemma_not_found_none,
    lemma_region_line, lemma_section_end_unique, lemma_single_match, lemma_trimmed_heading,
    line_content, line_end, locate_section, section_lookup, SectionError,
};
use crate::ranking::{add_word, counts_words, entries_view, is_top_words, top_counted};
use crate::text::{
    byte_len, byte_len_at_least, split_where, chars_eq, chars_of, find_from, find_from_spec,
    is_first_occurrence, lemma_find_from_spec, occurs_at, push_all, push_range, starts_with,
    string_of,
    leading_char, leading_white, strip_leading, trailing_white, trim, trim_bounds, trim_end,
    trim_start,
};

verus! {

/// A note as the vault tools report it.
#[derive(Debug, Clone)]
pub struct NoteInfo {
    pub path: String,
    pub frontmatter: Frontmatter,
    pub body: String,
    pub tags: Vec<String>,
    pub links: Vec<String>,
}

/// A wikilink whose target resolves to no note.
#[derive(Debug, Clone)]
pub struct BrokenLink {
    pub source: String,
    pub target: String,
}

pub struct Vault {
    pub config: Config,
}

impl Vault {
    /// A vault over the given settings.
    pub fn new(config: Config) -> (r: Self)
        ensures
            r.config == config,
    {
        Self { config }
    }
}

pub open spec fn colon_space() -> Seq<char> {
    seq![':', ' ']
}

pub open spec fn fence_line() -> Seq<char> {
    seq!['-', '-', '-', '\n']
}

/// Each entry as a `key: value` line, in order.
pub open spec fn serialize_spec(es: Seq<(Seq<char>, Seq<char>)>) -> Seq<char>
    decreases es.len(),
{
    if es.len() == 0 {
        Seq::empty()
    } else {
        serialize_spec(es.drop_last()) + es.last().0 + colon_space() + es.last().1 + seq!['\n']
    }
}

/// A note made of frontmatter and body: the body alone when there is no
/// frontmatter, else the entries between `---` lines, then the body.
pub open spec fn compose_spec(fm: Seq<(Seq<char>, Seq<char>)>, body: Seq<char>) -> Seq<char> {
    if fm.len() == 0 {
        body
    } else {
        fence_line() + serialize_spec(fm) + fence_line() + body
    }
}

fn push_serialized(out: &mut Vec<char>, fields: &Frontmatter)
    ensures
        final(out)@ == old(out)@ + serialize_spec(fields@),
{
    let es = fields.entries();
    let ghost v = fields@;
    let mut i: usize = 0;
    while i < es.len()
        invariant
            i <= es@.len(),
            v == es@.map_values(|e: (String, String)| entry_view(e)),
            out@ == old(out)@ + serialize_spec(v.take(i as int)),
        decreases es@.len() - i,
    {
        proof {
            assert(v.take(i + 1).drop_last() =~= v.take(i as int));
            assert(v.take(i + 1).last() == entry_view(es@[i as int]));
        }
        let k = chars_of(es[i].0.as_str());
        let val = chars_of(es[i].1.as_str());
        push_all(out, &k);
        push_all(out, &[':', ' ']);
        push_all(out, &val);
        out.push('\n');
        proof {
            assert(out@ =~= old(out)@ + serialize_spec(v.take(i + 1)));
        }
        i += 1;
    }
    assert(v.take(es@.len() as int) =~= v);
}

/// The frontmatter as `key: value` lines.
pub fn serialize_frontmatter(fields: &Frontmatter) -> (r: String)
    ensures
        r@ == serialize_spec(fields@),
{
    let mut out = Vec::new();
    push_serialized(&mut out, fields);
    assert(out@ =~= serialize_spec(fields@));
    string_of(&out)
}

/// The note text made of `fields` and `body` (see `compose_spec`).
pub(crate) fn compose(fields: &Frontmatter, body: &[char]) -> (r: Vec<char>)
    ensures
        r@ == compose_spec(fields@, body@),
{
    let mut out = Vec::new();
    if fields.is_empty() {
        push_all(&mut out, body);
        assert(out@ =~= body@);
        return out;
    }
    push_all(&mut out, &['-', '-', '-', '\n']);
    push_serialized(&mut out, fields);
    push_all(&mut out, &['-', '-', '-', '\n']);
    push_all(&mut out, body);
    assert(out@ =~= compose_spec(fields@, body@));
    out
}

/// The text of a new note: the body, after the given frontmatter fields if
/// there are any.
pub fn build_note_content(body: &str, frontmatter_fields: Option<&Frontmatter>) -> (r: String)
    ensures
        r@ == match frontmatter_fields {
            Some(f) => compose_spec(f@, body@),
            None => body@,
        },
{
    let b = chars_of(body);
    match frontmatter_fields {
        Some(fields) => string_of(&compose(fields, &b)),
        None => string_of(&b),
    }
}

/// How an edit applies to existing text.
#[derive(Debug, Clone, Copy, PartialEq, Eq, Structural)]
pub enum EditMode {
    Append,
    Replace,
}

#[derive(Debug, PartialEq, Eq, Structural)]
pub enum UpdateSectionError {
    /// The mode is neither `append` nor `replace`.
    InvalidMode,
    /// The heading does not start with `#` markers.
    MissingHeadingMarker,
    /// The heading matches this many sections.
    Ambiguous(usize),
}

pub open spec fn append_word() -> Seq<char> {
    seq!['a', 'p', 'p', 'e', 'n', 'd']
}

pub open spec fn replace_word() -> Seq<char> {
    seq!['r', 'e', 'p', 'l', 'a', 'c', 'e']
}

/// The edit mode named by `m`.
pub open spec fn mode_of(m: Seq<char>) -> Option<EditMode> {
    if m == append_word() {
        Some(EditMode::Append)
    } else if m == replace_word() {
        Some(EditMode::Replace)
    } else {
        None
    }
}

/// The edit mode named by `mode`: `"append"` or `"replace"`.
pub fn edit_mode(mode: &str) -> (r: Option<EditMode>)
    ensures
        r == mode_of(mode@),
{
    let m = chars_of(mode);
    let a = ['a', 'p', 'p', 'e', 'n', 'd'];
    let r = ['r', 'e', 'p', 'l', 'a', 'c', 'e'];
    assert(a@ =~= append_word());
    assert(r@ =~= replace_word());
    if chars_eq(&m, &a) {
        Some(EditMode::Append)
    } else if chars_eq(&m, &r) {
        Some(EditMode::Replace)
    } else {
        None
    }
}

/// The heading, once trimmed at the start, opens with `#`.
pub open spec fn has_heading_marker(h: Seq<char>) -> bool {
    trim_start(h).len() > 0 && trim_start(h)[0] == '#'
}

/// Checks the arguments of a section update before any file is touched.
pub fn check_section_request(heading: &str, mode: &str) -> (r: Result<EditMode, UpdateSectionError>)
    ensures
        match r {
            Ok(m) => mode_of(mode@) == Some(m) && has_heading_marker(heading@),
            Err(UpdateSectionError::InvalidMode) => mode_of(mode@) is None,
            Err(UpdateSectionError::MissingHeadingMarker) => mode_of(mode@) is Some
                && !has_heading_marker(heading@),
            Err(UpdateSectionError::Ambiguous(_)) => false,
        },
{
    let m = match edit_mode(mode) {
        Some(m) => m,
        None => return Err(UpdateSectionError::InvalidMode),
    };
    let h = chars_of(heading);
    let n = h.len();
    let a = leading_white(&h, 0, n);
    proof {
        assert(h@.subrange(0, n as int) =~= h@);
        assert(trim_start(h@) =~= h@.subrange(a as int, n as int));
    }
    if a < n && h[a] == '#' {
        Ok(m)
    } else {
        Err(UpdateSectionError::MissingHeadingMarker)
    }
}

/// `s`, with a newline added unless it already ends with one.
pub open spec fn ensure_newline(s: Seq<char>) -> Seq<char> {
    if s.len() > 0 && s.last() == '\n' {
        s
    } else {
        s.push('\n')
    }
}

/// Just past the end of the heading line at `p`: past its newline, or the end.
pub open spec fn line_after(s: Seq<char>, p: int) -> int {
    match find_from_spec(s, seq!['\n'], p) {
        Some(q) => q + 1,
        None => s.len() as int,
    }
}

/// The new body after an edit of the section `[p, e)` of `body`.
pub open spec fn edited_body(body: Seq<char>, p: int, e: int, content: Seq<char>, m: EditMode) -> Seq<
    char,
> {
    match m {
        EditMode::Replace => body.take(p) + ensure_newline(body.subrange(p, line_after(body, p)))
            + trim_end(content) + (if e == body.len() {
            seq!['\n']
        } else {
            seq!['\n'] + body.skip(e)
        }),
        EditMode::Append => ensure_newline(body.take(e)) + trim_end(content) + seq!['\n'] + body.skip(
            e,
        ),
    }
}

/// The body after adding a new section at its end.
pub open spec fn body_with_new_section(body: Seq<char>, heading: Seq<char>, content: Seq<char>) -> Seq<
    char,
> {
    trim_end(body) + seq!['\n', '\n'] + trim(heading) + seq!['\n'] + trim_end(content) + seq!['\n']
}

/// The note text after `update_section`: the named section's body is
/// replaced or appended to (its heading line kept), or, when no section has
/// the heading, a new section is added at the end; frontmatter is kept.
pub open spec fn update_section_spec(
    existing: Seq<char>,
    heading: Seq<char>,
    content: Seq<char>,
    mode: Seq<char>,
) -> Result<Seq<char>, UpdateSectionError> {
    match mode_of(mode) {
        None => Err(UpdateSectionError::InvalidMode),
        Some(m) => if !has_heading_marker(heading) {
            Err(UpdateSectionError::MissingHeadingMarker)
        } else {
            let (fm, body) = parse_spec(existing);
            match section_lookup(body, heading) {
                Ok((p, e, _)) => Ok(compose_spec(fm, edited_body(body, p, e, content, m))),
                Err(SectionError::NotFound) => Ok(
                    compose_spec(fm, body_with_new_section(body, heading, content)),
                ),
                Err(SectionError::Ambiguous(n)) => Err(UpdateSectionError::Ambiguous(n)),
            }
        },
    }
}

/// Editing the section that the heading names leaves the frontmatter, the
/// text before the section and the text after it as they were: `replace`
/// keeps the heading line and puts the content under it, `append` keeps the
/// whole section and adds the content at its end.
pub proof fn law_section_edit_keeps_rest(
    existing: Seq<char>,
    heading: Seq<char>,
    content: Seq<char>,
    mode: Seq<char>,
)
    requires
        mode_of(mode) is Some,
        has_heading_marker(heading),
        section_lookup(parse_spec(existing).1, heading) is Ok,
    ensures
        ({
            let (fm, body) = parse_spec(existing);
            let (p, e, _) = section_lookup(body, heading)->Ok_0;
            let kept = if mode_of(mode) == Some(EditMode::Replace) {
                body.subrange(p, line_after(body, p))
            } else {
                body.subrange(p, e)
            };
            update_section_spec(existing, heading, content, mode) == Ok::<Seq<char>, UpdateSectionError>(
                compose_spec(
                    fm,
                    body.take(p) + ensure_newline(kept) + trim_end(content) + seq!['\n'] + body.skip(e),
                ),
            )
        }),
{
    let (fm, body) = parse_spec(existing);
    law_found_section(body, heading);
    let (p, e, _) = section_lookup(body, heading)->Ok_0;
    let m = mode_of(mode)->0;
    let tc = trim_end(content);
    if m == EditMode::Replace {
        let hl = ensure_newline(body.subrange(p, line_after(body, p)));
        if e == body.len() {
            assert(body.skip(e) =~= Seq::<char>::empty());
            assert(edited_body(body, p, e, content, m) =~= body.take(p) + hl + tc + seq!['\n'] + body.skip(e));
        } else {
            assert(edited_body(body, p, e, content, m) =~= body.take(p) + hl + tc + seq!['\n'] + body.skip(e));
        }
    } else {
        assert(body.take(e).last() == body.subrange(p, e).last());
        assert(ensure_newline(body.take(e)) =~= body.take(p) + ensure_newline(body.subrange(p, e)));
        assert(edited_body(body, p, e, content, m) =~= body.take(p) + ensure_newline(body.subrange(p, e)) + tc
            + seq!['\n'] + body.skip(e));
    }
}

/// Where `line_after` lands: just past the newline that ends the line at
/// `p`, or at the end of the text.
proof fn lemma_line_after(s: Seq<char>, p: int)
    requires
        0 <= p <= s.len(),
    ensures
        line_after(s, p) == if line_end(s, p) < s.len() {
            line_end(s, p) + 1
        } else {
            s.len() as int
        },
        s.subrange(p, line_after(s, p)) == line_content(s, p) + if line_end(s, p) < s.len() {
            seq!['\n']
        } else {
            Seq::<char>::empty()
        },
{
    lemma_line_end_exists(s, p);
    let k = line_end(s, p);
    let nl = seq!['\n'];
    if k < s.len() {
        assert(s.subrange(k, k + 1) =~= nl);
        assert forall|j: int| p <= j < k implies !occurs_at(s, nl, j) by {
            if occurs_at(s, nl, j) {
                assert(s.subrange(j, j + 1)[0] == s[j]);
            }
        }
        assert(is_first_occurrence(s, nl, p, k));
        lemma_find_from_spec(s, nl, p, k);
        assert(s.subrange(p, k + 1) =~= line_content(s, p) + nl);
    } else {
        assert forall|i: int| !is_first_occurrence(s, nl, p, i) by {
            if is_first_occurrence(s, nl, p, i) {
                assert(s.subrange(i, i + 1)[0] == s[i]);
            }
        }
        assert(s.subrange(p, s.len() as int) =~= line_content(s, p) + Seq::<char>::empty());
    }
}

/// Every heading line of `c` is deeper than `level`.
pub open spec fn only_deeper_headings(c: Seq<char>, level: int) -> bool {
    forall|q: int| #[trigger] is_heading_at(c, q) ==> heading_level(c, q) > level
}

/// The heading argument, trimmed, is a one-line heading that a lookup by
/// the argument recognizes.
pub open spec fn heading_names_itself(h: Seq<char>) -> bool {
    let hh = trim(h);
    &&& is_heading_at(hh, 0)
    &&& line_end(hh, 0) == hh.len()
    &&& heading_level(hh, 0) == heading_prefix(h).0
    &&& heading_text(hh, 0) == heading_prefix(h).1
}

proof fn lemma_not_heading_at_newline(s: Seq<char>, q: int)
    requires
        0 <= q < s.len(),
        s[q] == '\n',
    ensures
        !is_heading_at(s, q),
{
    if is_heading_at(s, q) {
        lemma_heading_opens_with_hash(s, q);
    }
}

/// A one-line text ended by a newline: its first line is the text.
proof fn lemma_single_line(lc: Seq<char>)
    requires
        forall|j: int| 0 <= j < lc.len() ==> lc[j] != '\n',
    ensures
        line_content(lc.push('\n'), 0) == lc,
        line_end(lc.push('\n'), 0) == lc.len(),
        is_line_start(lc.push('\n'), 0),
{
    let hl = lc.push('\n');
    assert(crate::parse::sections::is_line_end(hl, 0, lc.len() as int));
    crate::parse::sections::lemma_line_end_unique(hl, 0, lc.len() as int);
    assert(line_content(hl, 0) =~= lc);
}

/// The line at `q` of `s` and the line at `r` of `t` are alike: both start
/// a line or neither does, and they hold the same text.
pub open spec fn same_line(s: Seq<char>, q: int, t: Seq<char>, r: int) -> bool {
    is_line_start(s, q) == is_line_start(t, r) && line_content(s, q) == line_content(t, r)
}

proof fn lemma_same_heading(s: Seq<char>, q: int, t: Seq<char>, r: int)
    requires
        same_line(s, q, t, r),
    ensures
        is_heading_at(s, q) == is_heading_at(t, r),
        heading_level(s, q) == heading_level(t, r),
        heading_text(s, q) == heading_text(t, r),
{
}

/// Lines that start before `p` read the same in two texts that agree up to
/// a line start `p`.
proof fn lemma_prefix_lines(b: Seq<char>, t: Seq<char>, p: int)
    requires
        0 <= p <= b.len(),
        p <= t.len(),
        t.take(p) == b.take(p),
        p == 0 || b[p - 1] == '\n',
    ensures
        forall|q: int| 0 <= q < p ==> #[trigger] same_line(t, q, b, q),
{
    let pre = b.take(p);
    assert forall|q: int| 0 <= q < p implies #[trigger] same_line(t, q, b, q) by {
        assert(t =~= Seq::<char>::empty() + pre + t.skip(p));
        assert(b =~= Seq::<char>::empty() + pre + b.skip(p));
        assert(pre.last() == b[p - 1]);
        lemma_region_line(Seq::<char>::empty(), pre, t.skip(p), q);
        lemma_region_line(Seq::<char>::empty(), pre, b.skip(p), q);
    }
}

/// Lines of a common tail read the same in both texts, when the tail starts
/// a line in each.
proof fn lemma_suffix_lines(b: Seq<char>, e: int, t: Seq<char>, e1: int)
    requires
        0 < e <= b.len(),
        0 < e1 <= t.len(),
        b[e - 1] == '\n',
        t[e1 - 1] == '\n',
        t.skip(e1) == b.skip(e),
    ensures
        forall|r: int| 0 <= r < b.len() - e ==> #[trigger] same_line(t, e1 + r, b, e + r),
{
    let suf = b.skip(e);
    assert forall|r: int| 0 <= r < b.len() - e implies #[trigger] same_line(t, e1 + r, b, e + r) by {
        assert(t =~= t.take(e1) + suf + Seq::<char>::empty());
        assert(b =~= b.take(e) + suf + Seq::<char>::empty());
        assert(t.take(e1).last() == t[e1 - 1]);
        assert(b.take(e).last() == b[e - 1]);
        lemma_region_line(t.take(e1), suf, Seq::<char>::empty(), r);
        lemma_region_line(b.take(e), suf, Seq::<char>::empty(), r);
    }
}

/// The text after replacing a found section, piece by piece.
proof fn lemma_found_parts(b: Seq<char>, heading: Seq<char>, content: Seq<char>)
    requires
        section_lookup(b, heading) is Ok,
    ensures
        ({
            let (p, e, lv) = section_lookup(b, heading)->Ok_0;
            let lc = line_content(b, p);
            &&& 0 <= p < e <= b.len()
            &&& lv == heading_prefix(heading).0
            &&& lc.len() > 0
            &&& forall|j: int| 0 <= j < lc.len() ==> lc[j] != '\n'
            &&& p == 0 || b[p - 1] == '\n'
            &&& e == b.len() || (b[e - 1] == '\n' && is_heading_at(b, e) && heading_level(b, e) <= lv)
            &&& edited_body(b, p, e, content, EditMode::Replace) == b.take(p) + lc.push('\n')
                + trim_end(content) + seq!['\n'] + b.skip(e)
        }),
{
    law_found_section(b, heading);
    let (p, e, lvl) = section_lookup(b, heading)->Ok_0;
    lemma_line_after(b, p);
    lemma_line_end_exists(b, p);
    let lc = line_content(b, p);
    let k = line_end(b, p);
    assert forall|j: int| 0 <= j < lc.len() implies lc[j] != '\n' by {
        assert(lc[j] == b[p + j]);
    }
    let hl = lc.push('\n');
    if k < b.len() {
        assert(b.subrange(p, line_after(b, p)) =~= hl);
    } else {
        assert(b.subrange(p, line_after(b, p)) =~= lc);
    }
    assert(edited_body(b, p, e, content, EditMode::Replace) =~= b.take(p) + hl + trim_end(content)
        + seq!['\n'] + b.skip(e));
}

/// Replacing a found section and replacing it again with the same content
/// changes nothing the second time.
#[verifier::rlimit(80)]
#[verifier::spinoff_prover]
proof fn lemma_resettle_found(b: Seq<char>, heading: Seq<char>, content: Seq<char>)
    requires
        !starts_with(b, fence()),
        has_heading_marker(heading),
        section_lookup(b, heading) is Ok,
        only_deeper_headings(trim_end(content), heading_prefix(heading).0),
    ensures
        ({
            let (p, e, _) = section_lookup(b, heading)->Ok_0;
            let t1 = edited_body(b, p, e, content, EditMode::Replace);
            update_section_spec(t1, heading, content, replace_word()) == Ok::<
                Seq<char>,
                UpdateSectionError,
            >(t1)
        }),
{
    let (lv, tx) = heading_prefix(heading);
    law_found_section(b, heading);
    lemma_found_parts(b, heading, content);
    let (p, e, lvl) = section_lookup(b, heading)->Ok_0;
    let tc = trim_end(content);
    let lc = line_content(b, p);
    let hl = lc.push('\n');
    let pre = b.take(p);
    let suf = b.skip(e);
    let t1 = pre + hl + tc + seq!['\n'] + suf;
    let n = t1.len();
    let n1 = p + hl.len();
    let n2 = n1 + tc.len();
    let e1 = n2 + 1;
    lemma_single_line(lc);
    assert(t1 =~= pre + hl + (tc + seq!['\n'] + suf));
    if p > 0 {
        assert(pre.last() == b[p - 1]);
    }
    lemma_region_line(pre, hl, tc + seq!['\n'] + suf, 0);
    lemma_same_heading(t1, p, b, p);
    assert(t1.take(p) =~= pre);
    lemma_prefix_lines(b, t1, p);
    assert(t1 =~= (pre + hl) + tc + (seq!['\n'] + suf));
    if e < b.len() {
        assert(t1.skip(e1) =~= suf);
        lemma_suffix_lines(b, e, t1, e1);
    }
    assert forall|q: int| 0 <= q < n && q != p implies !(#[trigger] crate::parse::sections::heading_pred(t1)(q)
        && crate::parse::sections::match_pred(t1, lv, tx)(q)) by {
        if q < p {
            lemma_same_heading(t1, q, b, q);
            if is_heading_at(t1, q) && heading_level(t1, q) == lv && heading_text(t1, q) == tx {
                lemma_found_unique(b, heading, q);
            }
        } else if q < n1 {
            assert(t1[q - 1] == lc[q - 1 - p]);
        } else if q < n2 {
            lemma_region_line(pre + hl, tc, seq!['\n'] + suf, q - n1);
            lemma_same_heading(t1, q, tc, q - n1);
        } else if q == n2 {
            lemma_not_heading_at_newline(t1, q);
        } else {
            lemma_same_heading(t1, e1 + (q - e1), b, e + (q - e1));
            if is_heading_at(t1, q) && heading_level(t1, q) == lv && heading_text(t1, q) == tx {
                lemma_found_unique(b, heading, e + (q - e1));
            }
        }
    }
    lemma_single_match(
        crate::parse::sections::heading_pred(t1),
        crate::parse::sections::match_pred(t1, lv, tx),
        p,
        n as int,
    );
    assert(crate::parse::sections::is_section_end(t1, p, lv, e1)) by {
        if e1 < n {
            lemma_same_heading(t1, e1 + 0, b, e + 0);
        }
        assert forall|q: int|
            #![trigger is_heading_at(t1, q)]
            p < q < e1 && is_heading_at(t1, q) implies heading_level(t1, q) > lv by {
            if q < n1 {
                assert(t1[q - 1] == lc[q - 1 - p]);
            } else if q < n2 {
                lemma_region_line(pre + hl, tc, seq!['\n'] + suf, q - n1);
                lemma_same_heading(t1, q, tc, q - n1);
            } else {
                lemma_not_heading_at_newline(t1, q);
            }
        }
    }
    lemma_section_end_unique(t1, p, lv, e1);
    lemma_heading_opens_with_hash(b, p);
    assert(hl[0] == lc[0] && lc[0] == b[p]);
    lemma_resettled_text(b, t1, p, hl, tc, suf);
    law_no_fence_all_body(t1);
    assert(t1.take(p) =~= pre);
    assert(t1.skip(e1) =~= suf);
    assert(edited_body(t1, p, e1, content, EditMode::Replace) =~= t1);
}

/// A line of `t` at `p` spelled out: `line_after` ends it just past its
/// newline.
proof fn lemma_known_line(t: Seq<char>, p: int, hl: Seq<char>)
    requires
        0 <= p,
        p + hl.len() <= t.len(),
        hl.len() > 0,
        hl.last() == '\n',
        forall|j: int| 0 <= j < hl.len() - 1 ==> hl[j] != '\n',
        t.subrange(p, p + hl.len()) == hl,
    ensures
        t.subrange(p, line_after(t, p)) == hl,
{
    let n1 = p + hl.len();
    assert(crate::parse::sections::is_line_end(t, p, n1 - 1)) by {
        assert forall|k: int| p <= k < n1 - 1 implies t[k] != '\n' by {
            assert(t[k] == t.subrange(p, n1)[k - p]);
        }
        assert(t[n1 - 1] == t.subrange(p, n1)[hl.len() - 1]);
    }
    crate::parse::sections::lemma_line_end_unique(t, p, n1 - 1);
    lemma_line_after(t, p);
    assert(t.subrange(p, line_after(t, p)) =~= hl);
}

/// Adding a missing section and then replacing it with the same content
/// changes nothing the second time.
#[verifier::rlimit(80)]
#[verifier::spinoff_prover]
proof fn lemma_resettle_new(b: Seq<char>, heading: Seq<char>, content: Seq<char>)
    requires
        !starts_with(b, fence()),
        has_heading_marker(heading),
        section_lookup(b, heading) == Err::<(int, int, int), SectionError>(SectionError::NotFound),
        heading_names_itself(heading),
        only_deeper_headings(trim_end(content), heading_prefix(heading).0),
    ensures
        ({
            let t1 = body_with_new_section(b, heading, content);
            update_section_spec(t1, heading, content, replace_word()) == Ok::<
                Seq<char>,
                UpdateSectionError,
            >(t1)
        }),
{
    let (lv, tx) = heading_prefix(heading);
    let t0 = trim_end(b);
    let hh = trim(heading);
    let tc = trim_end(content);
    let nl = seq!['\n'];
    let t1 = t0 + seq!['\n', '\n'] + hh + nl + tc + nl;
    assert(body_with_new_section(b, heading, content) =~= t1);
    let m0: int = t0.len() as int;
    let p1: int = m0 + 2;
    let n1: int = p1 + hh.len();
    let c0: int = n1 + 1;
    let n2: int = c0 + tc.len();
    let n: int = t1.len() as int;
    lemma_line_end_exists(hh, 0);
    assert forall|j: int| 0 <= j < hh.len() implies hh[j] != '\n' by {}
    let a1 = t0 + seq!['\n', '\n'];
    assert(t1 =~= a1 + hh + (nl + tc + nl));
    lemma_region_line(a1, hh, nl + tc + nl, 0);
    assert(same_line(t1, p1, hh, 0));
    lemma_same_heading(t1, p1, hh, 0);
    let a2 = t0 + seq!['\n', '\n'] + hh + nl;
    assert(t1 =~= a2 + tc + nl);
    assert(t1 =~= Seq::<char>::empty() + t0 + (seq!['\n', '\n'] + hh + nl + tc + nl));
    assert forall|q: int| 0 <= q < n && q != p1 implies !(#[trigger] crate::parse::sections::heading_pred(t1)(q)
        && crate::parse::sections::match_pred(t1, lv, tx)(q)) by {
        if q < m0 {
            lemma_region_line(Seq::<char>::empty(), t0, seq!['\n', '\n'] + hh + nl + tc + nl, q);
            lemma_same_heading(t1, q, t0, q);
            if is_heading_at(t1, q) {
                lemma_trimmed_heading(b, q);
                crate::text::lemma_count_trailing_bound(b, crate::text::white_pred());
                if heading_level(t1, q) == lv {
                    lemma_not_found_none(b, heading, q);
                }
            }
        } else if q < p1 {
            lemma_not_heading_at_newline(t1, q);
        } else if q < n1 {
            assert(t1[q - 1] == hh[q - 1 - p1]);
        } else if q == n1 {
            lemma_not_heading_at_newline(t1, q);
        } else if q < n2 {
            lemma_region_line(a2, tc, nl, q - c0);
            lemma_same_heading(t1, q, tc, q - c0);
        } else {
            lemma_not_heading_at_newline(t1, q);
        }
    }
    lemma_single_match(
        crate::parse::sections::heading_pred(t1),
        crate::parse::sections::match_pred(t1, lv, tx),
        p1,
        n,
    );
    assert(crate::parse::sections::is_section_end(t1, p1, lv, n)) by {
        assert forall|q: int|
            #![trigger is_heading_at(t1, q)]
            p1 < q < n && is_heading_at(t1, q) implies heading_level(t1, q) > lv by {
            if q < n1 {
                assert(t1[q - 1] == hh[q - 1 - p1]);
            } else if q == n1 {
                lemma_not_heading_at_newline(t1, q);
            } else if q < n2 {
                lemma_region_line(a2, tc, nl, q - c0);
                lemma_same_heading(t1, q, tc, q - c0);
            } else {
                lemma_not_heading_at_newline(t1, q);
            }
        }
    }
    lemma_section_end_unique(t1, p1, lv, n);
    assert(!starts_with(t1, fence())) by {
        if starts_with(t1, fence()) {
            crate::text::lemma_count_trailing_bound(b, crate::text::white_pred());
            if m0 >= 3 {
                assert(t1.subrange(0, 3) =~= b.subrange(0, 3));
            } else {
                assert(t1.subrange(0, 3)[m0] == t1[m0]);
            }
        }
    }
    law_no_fence_all_body(t1);
    assert(t1.subrange(p1, p1 + (hh + nl).len()) =~= hh + nl);
    lemma_known_line(t1, p1, hh + nl);
    assert(t1.take(p1) =~= a1);
    assert(edited_body(t1, p1, n, content, EditMode::Replace) =~= t1);
}

/// The text rebuilt by the second replacement, and its lack of
/// frontmatter.
proof fn lemma_resettled_text(b: Seq<char>, t1: Seq<char>, p: int, hl: Seq<char>, tc: Seq<char>, suf: Seq<char>)
    requires
        !starts_with(b, fence()),
        0 <= p < b.len(),
        p == 0 || b[p - 1] == '\n',
        b[p] == '#',
        hl.len() > 0,
        hl[0] == '#',
        hl.last() == '\n',
        forall|j: int| 0 <= j < hl.len() - 1 ==> hl[j] != '\n',
        t1 == b.take(p) + hl + tc + seq!['\n'] + suf,
    ensures
        !starts_with(t1, fence()),
        t1.subrange(p, line_after(t1, p)) == hl,
{
    assert(!starts_with(t1, fence())) by {
        if starts_with(t1, fence()) {
            if p >= 3 {
                assert(t1.subrange(0, 3) =~= b.subrange(0, 3));
            } else if p == 0 {
                assert(t1.subrange(0, 3)[0] == hl[0]);
            } else {
                assert(t1[p - 1] == b[p - 1]);
                assert(t1.subrange(0, 3)[p - 1] == t1[p - 1]);
            }
        }
    }
    let n1 = p + hl.len();
    assert(crate::parse::sections::is_line_end(t1, p, n1 - 1)) by {
        assert forall|k: int| p <= k < n1 - 1 implies t1[k] != '\n' by {
            assert(t1[k] == hl[k - p]);
        }
        assert(t1[n1 - 1] == hl[hl.len() - 1]);
    }
    crate::parse::sections::lemma_line_end_unique(t1, p, n1 - 1);
    lemma_line_after(t1, p);
    assert(t1.subrange(p, line_after(t1, p)) =~= hl);
}

/// Replacing a section settles it: `update_section` in `replace` mode, run
/// again with the same heading and content on the text it produced, changes
/// nothing, so it can be called to make sure that a section exists with the
/// given content. Stated for a note with no frontmatter block, for content
/// that holds no heading at or above the section's level, and, where the
/// section does not exist yet, for a heading argument that is a one-line
/// heading naming itself.
pub proof fn law_replace_section_settles(existing: Seq<char>, heading: Seq<char>, content: Seq<char>)
    requires
        !starts_with(existing, fence()),
        section_lookup(existing, heading) is Ok || heading_names_itself(heading),
        only_deeper_headings(trim_end(content), heading_prefix(heading).0),
        update_section_spec(existing, heading, content, replace_word()) is Ok,
    ensures
        update_section_spec(
            update_section_spec(existing, heading, content, replace_word())->Ok_0,
            heading,
            content,
            replace_word(),
        ) == update_section_spec(existing, heading, content, replace_word()),
{
    law_no_fence_all_body(existing);
    assert(replace_word().len() == 7);
    assert(mode_of(replace_word()) == Some(EditMode::Replace));
    match section_lookup(existing, heading) {
        Ok(_) => lemma_resettle_found(existing, heading, content),
        Err(SectionError::NotFound) => lemma_resettle_new(existing, heading, content),
        Err(SectionError::Ambiguous(_)) => {},
    }
}

/// `level` heading marks.
pub open spec fn hashes(level: int) -> Seq<char> {
    Seq::new(level as nat, |i: int| '#')
}

/// No line of `c` opens with `#`.
pub open spec fn no_hash_lines(c: Seq<char>) -> bool {
    forall|q: int| #[trigger] is_line_start(c, q) ==> c[q] != '#'
}

proof fn lemma_trim_after_space(t: Seq<char>)
    requires
        t.len() > 0,
        trim(t) == t,
    ensures
        trim(seq![' '] + t) == t,
{
    let wp = crate::text::white_pred();
    crate::text::lemma_count_leading_bound(t, wp);
    crate::text::lemma_count_trailing_bound(trim_start(t), wp);
    assert(trim_start(t).len() == t.len() - crate::text::count_leading(t, wp));
    assert(trim(t).len() == trim_start(t).len() - crate::text::count_trailing(trim_start(t), wp));
    assert(crate::text::count_leading(t, wp) == 0);
    assert(trim_start(t) =~= t);
    let x = seq![' '] + t;
    assert(x[1] == t[0]);
    assert forall|k: int| 0 <= k < 1 implies #[trigger] wp(x[k]) by {}
    crate::text::lemma_count_leading(x, wp, 1);
    assert(trim_start(x) =~= t);
}

proof fn lemma_plain_heading_names_itself(heading: Seq<char>, level: int, text: Seq<char>)
    requires
        1 <= level <= 6,
        text.len() > 0,
        trim(text) == text,
        forall|i: int| 0 <= i < text.len() ==> text[i] != '\n',
        trim(heading) == hashes(level) + seq![' '] + text,
    ensures
        heading_names_itself(heading),
        heading_prefix(heading).0 == level,
{
    let hp = crate::text::char_pred('#');
    let hh = trim(heading);
    assert forall|k: int| 0 <= k < hh.len() implies hh[k] != '\n' by {
        if k > level {
            assert(hh[k] == text[k - level - 1]);
        }
    }
    assert(crate::parse::sections::is_line_end(hh, 0, hh.len() as int));
    crate::parse::sections::lemma_line_end_unique(hh, 0, hh.len() as int);
    assert(line_content(hh, 0) =~= hh);
    assert forall|k: int| 0 <= k < level implies #[trigger] hp(hh[k]) by {}
    assert(hh[level] == ' ');
    crate::text::lemma_count_leading(hh, hp, level);
    assert(hh.skip(level) =~= seq![' '] + text);
    lemma_trim_after_space(text);
    // the argument itself, before trimming its end
    let wp = crate::text::white_pred();
    let ts = trim_start(heading);
    crate::text::lemma_count_trailing_bound(ts, wp);
    let m = ts.len() - crate::text::count_trailing(ts, wp);
    assert(hh == ts.take(m));
    let w = ts.skip(m);
    assert forall|i: int| 0 <= i < w.len() implies crate::text::is_white(#[trigger] w[i]) by {
        assert(w[i] == ts[m + i]);
        assert(wp(ts[m + i]));
    }
    assert(ts =~= hh + w);
    assert forall|k: int| 0 <= k < level implies #[trigger] hp(ts[k]) by {
        assert(ts[k] == hh[k]);
    }
    assert(ts[level] == hh[level]);
    crate::text::lemma_count_leading(ts, hp, level);
    assert(ts.skip(level) =~= (seq![' '] + text) + w);
    crate::text::lemma_trim_append_white(seq![' '] + text, w);
}

proof fn lemma_no_hash_lines_deeper(content: Seq<char>, level: int)
    requires
        no_hash_lines(content),
    ensures
        only_deeper_headings(trim_end(content), level),
{
    let tc = trim_end(content);
    crate::text::lemma_count_trailing_bound(content, crate::text::white_pred());
    assert forall|q: int| #[trigger] is_heading_at(tc, q) implies heading_level(tc, q) > level by {
        lemma_heading_opens_with_hash(tc, q);
        assert(tc[q] == content[q]);
        if q > 0 {
            assert(tc[q - 1] == content[q - 1]);
        }
        assert(is_line_start(content, q));
    }
}

/// The same settling, for a heading written `## text` (one to six marks, a
/// space, then a non-empty one-line text without surrounding whitespace) and
/// content none of whose lines opens with `#`.
pub proof fn law_replace_plain_section_settles(
    existing: Seq<char>,
    heading: Seq<char>,
    content: Seq<char>,
    level: int,
    text: Seq<char>,
)
    requires
        !starts_with(existing, fence()),
        1 <= level <= 6,
        text.len() > 0,
        trim(text) == text,
        forall|i: int| 0 <= i < text.len() ==> text[i] != '\n',
        trim(heading) == hashes(level) + seq![' '] + text,
        no_hash_lines(content),
        update_section_spec(existing, heading, content, replace_word()) is Ok,
    ensures
        update_section_spec(
            update_section_spec(existing, heading, content, replace_word())->Ok_0,
            heading,
            content,
            replace_word(),
        ) == update_section_spec(existing, heading, content, replace_word()),
{
    lemma_plain_heading_names_itself(heading, level, text);
    lemma_no_hash_lines_deeper(content, heading_prefix(heading).0);
    law_replace_section_settles(existing, heading, content);
}

/// Appends `trim_end(c)` to `out`.
fn push_trim_end(out: &mut Vec<char>, c: &[char])
    ensures
        final(out)@ == old(out)@ + trim_end(c@),
{
    let n = c.len();
    let t = trailing_white(c, 0, n);
    push_range(out, c, 0, n - t);
    assert(c@.subrange(0, n as int) =~= c@);
}

/// The note text `existing` after an update of the section named by
/// `heading` (see `update_section_spec`).
pub fn update_section_content(existing: &str, heading: &str, content: &str, mode: &str) -> (r: Result<
    String,
    UpdateSectionError,
>)
    ensures
        match r {
            Ok(t) => update_section_spec(existing@, heading@, content@, mode@) == Ok::<
                Seq<char>,
                UpdateSectionError,
            >(t@),
            Err(x) => update_section_spec(existing@, heading@, content@, mode@) == Err::<
                Seq<char>,
                UpdateSectionError,
            >(x),
        },
{
    let m = match check_section_request(heading, mode) {
        Ok(m) => m,
        Err(x) => return Err(x),
    };
    let parsed = parse(existing);
    let body = chars_of(parsed.body.as_str());
    let h = chars_of(heading);
    let c = chars_of(content);
    let n = body.len();
    let mut nb: Vec<char> = Vec::new();
    match locate_section(&body, &h) {
        Ok((p, e, _)) => {
            match m {
                EditMode::Replace => {
                    let hle = match find_from(&body, p, &['\n']) {
                        Some(q) => q + 1,
                        None => n,
                    };
                    assert(['\n']@ =~= seq!['\n']);
                    push_range(&mut nb, &body, 0, p);
                    push_range(&mut nb, &body, p, hle);
                    if !(hle > p && body[hle - 1] == '\n') {
                        nb.push('\n');
                    }
                    push_trim_end(&mut nb, &c);
                    nb.push('\n');
                    push_range(&mut nb, &body, e, n);
                    proof {
                        let hl = body@.subrange(p as int, hle as int);
                        if hle > p {
                            assert(hl.last() == body@[hle - 1]);
                        }
                        assert(body@.skip(e as int) =~= body@.subrange(e as int, n as int));
                        if e == n {
                            assert(body@.subrange(e as int, n as int) =~= Seq::<char>::empty());
                        }
                        assert(nb@ =~= edited_body(body@, p as int, e as int, c@, m));
                    }
                },
                EditMode::Append => {
                    push_range(&mut nb, &body, 0, e);
                    if !(e > 0 && body[e - 1] == '\n') {
                        nb.push('\n');
                    }
                    push_trim_end(&mut nb, &c);
                    nb.push('\n');
                    push_range(&mut nb, &body, e, n);
                    proof {
                        assert(body@.skip(e as int) =~= body@.subrange(e as int, n as int));
                        assert(nb@ =~= edited_body(body@, p as int, e as int, c@, m));
                    }
                },
            }
        },
        Err(SectionError::NotFound) => {
            push_trim_end(&mut nb, &body);
            nb.push('\n');
            nb.push('\n');
            let (a, b) = trim_bounds(&h, 0, h.len());
            push_range(&mut nb, &h, a, b);
            nb.push('\n');
            push_trim_end(&mut nb, &c);
            nb.push('\n');
            proof {
                assert(h@.subrange(0, h@.len() as int) =~= h@);
                assert(nb@ =~= body_with_new_section(body@, h@, c@));
            }
        },
        Err(SectionError::Ambiguous(k)) => {
            return Err(UpdateSectionError::Ambiguous(k));
        },
    }
    let out = compose(&parsed.frontmatter, &nb);
    Ok(string_of(&out))
}

/// The text of the section named by `heading`, without trailing whitespace.
pub open spec fn section_text_spec(body: Seq<char>, heading: Seq<char>) -> Result<Seq<char>, SectionError> {
    match section_lookup(body, heading) {
        Ok((p, e, _)) => Ok(trim_end(body.subrange(p, e))),
        Err(x) => Err(x),
    }
}

/// The text of the section of `body` named by `heading`, heading line
/// included, without trailing whitespace.
pub fn section_text(body: &str, heading: &str) -> (r: Result<String, SectionError>)
    ensures
        match r {
            Ok(t) => section_text_spec(body@, heading@) == Ok::<Seq<char>, SectionError>(t@),
            Err(x) => section_text_spec(body@, heading@) == Err::<Seq<char>, SectionError>(x),
        },
{
    let b = chars_of(body);
    let h = chars_of(heading);
    match locate_section(&b, &h) {
        Ok((p, e, _)) => {
            let t = trailing_white(&b, p, e);
            assert(trim_end(b@.subrange(p as int, e as int)) =~= b@.subrange(p as int, e - t));
            Ok(string_of(&b[p..e - t]))
        },
        Err(x) => Err(x),
    }
}

/// `c` with ASCII upper-case letters lowered, as a code point.
pub open spec fn ascii_lower_code(c: char) -> u32 {
    if 'A' <= c <= 'Z' {
        (c as u32 + 32) as u32
    } else {
        c as u32
    }
}

/// `str::eq_ignore_ascii_case`.
pub open spec fn eq_ignore_ascii_case(a: Seq<char>, b: Seq<char>) -> bool {
    a.len() == b.len() && forall|i: int| 0 <= i < a.len() ==> ascii_lower_code(#[trigger] a[i])
        == ascii_lower_code(b[i])
}

fn eq_ignore_case(a: &[char], b: &[char]) -> (r: bool)
    ensures
        r == eq_ignore_ascii_case(a@, b@),
{
    if a.len() != b.len() {
        return false;
    }
    let mut i: usize = 0;
    while i < a.len()
        invariant
            a@.len() == b@.len(),
            i <= a@.len(),
            forall|k: int| 0 <= k < i ==> ascii_lower_code(#[trigger] a@[k]) == ascii_lower_code(b@[k]),
        decreases a@.len() - i,
    {
        let x = a[i];
        let y = b[i];
        let lx: u32 = if 'A' <= x && x <= 'Z' {
            x as u32 + 32
        } else {
            x as u32
        };
        let ly: u32 = if 'A' <= y && y <= 'Z' {
            y as u32 + 32
        } else {
            y as u32
        };
        if lx != ly {
            return false;
        }
        i += 1;
    }
    true
}

pub open spec fn nonempty_pred() -> spec_fn(Seq<char>) -> bool {
    |t: Seq<char>| t.len() > 0
}

pub open spec fn fm_tag_fn() -> spec_fn(Seq<char>) -> Seq<char> {
    |p: Seq<char>| fm_tag(p)
}

/// The non-empty tags of the comma-separated value `v`, in order, repeats
/// kept.
pub open spec fn tag_list(v: Seq<char>) -> Seq<Seq<char>> {
    split_on(v, ',').map_values(fm_tag_fn()).filter(nonempty_pred())
}

pub open spec fn vecs_view(v: Seq<Vec<char>>) -> Seq<Seq<char>> {
    v.map_values(|x: Vec<char>| x@)
}

/// Appends the tag of the piece `v[a..b]` to `list` if it is not empty.
fn push_piece(list: &mut Vec<Vec<char>>, v: &[char], a: usize, b: usize)
    requires
        a <= b <= v@.len(),
    ensures
        vecs_view(final(list)@) == if fm_tag(v@.subrange(a as int, b as int)).len() > 0 {
            vecs_view(old(list)@).push(fm_tag(v@.subrange(a as int, b as int)))
        } else {
            vecs_view(old(list)@)
        },
{
    let (x, y) = trim_bounds(v, a, b);
    let h = leading_char(v, x, y, '#');
    proof {
        let tr = v@.subrange(x as int, y as int);
        assert(strip_leading(tr, '#') =~= v@.subrange(x + h, y as int));
    }
    if x + h < y {
        let t = crate::text::slice_vec(v, x + h, y);
        list.push(t);
        assert(vecs_view(list@) =~= vecs_view(old(list)@).push(t@));
    }
}

/// The tags of the comma-separated value `v` (see `tag_list`).
fn split_tag_list(v: &[char]) -> (r: Vec<Vec<char>>)
    ensures
        vecs_view(r@) == tag_list(v@),
{
    let n = v.len();
    let ghost ps = split_on(v@, ',');
    let ghost mut done: Seq<Seq<char>> = Seq::empty();
    let mut list: Vec<Vec<char>> = Vec::new();
    let mut seg: usize = 0;
    let mut pos: usize = 0;
    assert(v@.skip(0) =~= v@);
    assert(ps =~= done + ps);
    assert(vecs_view(list@) =~= done.map_values(fm_tag_fn()).filter(nonempty_pred()));
    while pos < n
        invariant
            n == v@.len(),
            seg <= pos <= n,
            forall|j: int| seg <= j < pos ==> v@[j] != ',',
            ps == split_on(v@, ','),
            ps == done + split_on(v@.skip(seg as int), ','),
            vecs_view(list@) == done.map_values(fm_tag_fn()).filter(nonempty_pred()),
        decreases n - pos,
    {
        if v[pos] == ',' {
            proof {
                lemma_split_step(v@, seg as int, pos as int);
            }
            push_piece(&mut list, v, seg, pos);
            proof {
                let piece = v@.subrange(seg as int, pos as int);
                assert(done.push(piece).map_values(fm_tag_fn()) =~= done.map_values(fm_tag_fn()).push(
                    fm_tag(piece),
                ));
                done.map_values(fm_tag_fn()).lemma_filter_push(fm_tag(piece), nonempty_pred());
                assert(ps =~= done.push(piece) + split_on(v@.skip(pos + 1), ','));
                done = done.push(piece);
            }
            seg = pos + 1;
        }
        pos += 1;
    }
    proof {
        lemma_split_last(v@, seg as int);
    }
    push_piece(&mut list, v, seg, n);
    proof {
        let piece = v@.subrange(seg as int, n as int);
        assert(done.push(piece).map_values(fm_tag_fn()) =~= done.map_values(fm_tag_fn()).push(
            fm_tag(piece),
        ));
        done.map_values(fm_tag_fn()).lemma_filter_push(fm_tag(piece), nonempty_pred());
        assert(ps =~= done.push(piece));
    }
    list
}

/// Some tag of `l` equals `t` ignoring ASCII case.
pub open spec fn has_tag_ignoring_case(l: Seq<Seq<char>>, t: Seq<char>) -> bool {
    exists|i: int| 0 <= i < l.len() && eq_ignore_ascii_case(#[trigger] l[i], t)
}

/// `i` is the first index of `l` whose tag equals `t` ignoring ASCII case.
pub open spec fn is_first_tag_match(l: Seq<Seq<char>>, t: Seq<char>, i: int) -> bool {
    &&& 0 <= i < l.len()
    &&& eq_ignore_ascii_case(l[i], t)
    &&& forall|j: int| 0 <= j < i ==> !eq_ignore_ascii_case(#[trigger] l[j], t)
}

/// Adds each of `adds` (as a frontmatter tag) that is not yet present,
/// ignoring ASCII case; reports whether any was added.
pub open spec fn add_tags_spec(list: Seq<Seq<char>>, adds: Seq<Seq<char>>) -> (Seq<Seq<char>>, bool)
    decreases adds.len(),
{
    if adds.len() == 0 {
        (list, false)
    } else {
        let (l, ch) = add_tags_spec(list, adds.drop_last());
        let t = fm_tag(adds.last());
        if has_tag_ignoring_case(l, t) {
            (l, ch)
        } else {
            (l.push(t), true)
        }
    }
}

/// Removes, for each of `rems` (as a frontmatter tag), the first tag equal
/// to it ignoring ASCII case; reports whether any was removed.
pub open spec fn remove_tags_spec(list: Seq<Seq<char>>, rems: Seq<Seq<char>>) -> (Seq<Seq<char>>, bool)
    decreases rems.len(),
{
    if rems.len() == 0 {
        (list, false)
    } else {
        let (l, ch) = remove_tags_spec(list, rems.drop_last());
        let t = fm_tag(rems.last());
        if has_tag_ignoring_case(l, t) {
            (l.remove(choose|i: int| is_first_tag_match(l, t, i)), true)
        } else {
            (l, ch)
        }
    }
}

/// Adding tags keeps the tags already there, in order, and afterwards each
/// added tag is present (ignoring ASCII case).
pub proof fn law_added_tags_present(list: Seq<Seq<char>>, adds: Seq<Seq<char>>, i: int)
    requires
        0 <= i < adds.len(),
    ensures
        add_tags_spec(list, adds).0.take(list.len() as int) == list,
        list.len() <= add_tags_spec(list, adds).0.len(),
        has_tag_ignoring_case(add_tags_spec(list, adds).0, fm_tag(adds[i])),
    decreases adds.len(),
{
    lemma_adds_keep(list, adds);
    let rest = adds.drop_last();
    let l = add_tags_spec(list, rest).0;
    let t = fm_tag(adds.last());
    if i < adds.len() - 1 {
        law_added_tags_present(list, rest, i);
        assert(rest[i] == adds[i]);
        if !has_tag_ignoring_case(l, t) {
            let j = choose|j: int| 0 <= j < l.len() && eq_ignore_ascii_case(#[trigger] l[j], fm_tag(adds[i]));
            assert(l.push(t)[j] == l[j]);
        }
    } else {
        if !has_tag_ignoring_case(l, t) {
            assert(l.push(t)[l.len() as int] == t);
            lemma_eq_ignore_case_refl(t);
        }
    }
}

proof fn lemma_adds_keep(list: Seq<Seq<char>>, adds: Seq<Seq<char>>)
    ensures
        add_tags_spec(list, adds).0.take(list.len() as int) == list,
        list.len() <= add_tags_spec(list, adds).0.len(),
    decreases adds.len(),
{
    if adds.len() > 0 {
        lemma_adds_keep(list, adds.drop_last());
        let l = add_tags_spec(list, adds.drop_last()).0;
        assert(l.push(fm_tag(adds.last())).take(list.len() as int) =~= l.take(list.len() as int));
    }
}

proof fn lemma_eq_ignore_case_refl(t: Seq<char>)
    ensures
        eq_ignore_ascii_case(t, t),
{
}

/// No two tags of `l` are equal ignoring ASCII case.
pub open spec fn case_distinct(l: Seq<Seq<char>>) -> bool {
    forall|i: int, j: int| 0 <= i < j < l.len() ==> !eq_ignore_ascii_case(#[trigger] l[i], #[trigger] l[j])
}

proof fn lemma_eq_ignore_case_join(a: Seq<char>, b: Seq<char>, t: Seq<char>)
    requires
        eq_ignore_ascii_case(a, t),
        eq_ignore_ascii_case(b, t),
    ensures
        eq_ignore_ascii_case(a, b),
{
    assert forall|i: int| 0 <= i < a.len() implies ascii_lower_code(#[trigger] a[i]) == ascii_lower_code(b[i]) by {
        assert(ascii_lower_code(a[i]) == ascii_lower_code(t[i]));
        assert(ascii_lower_code(b[i]) == ascii_lower_code(t[i]));
    }
}

proof fn lemma_first_tag_match_from(l: Seq<Seq<char>>, t: Seq<char>, j: int)
    requires
        0 <= j <= l.len(),
        forall|m: int| 0 <= m < j ==> !eq_ignore_ascii_case(#[trigger] l[m], t),
        exists|m: int| j <= m < l.len() && eq_ignore_ascii_case(#[trigger] l[m], t),
    ensures
        exists|k: int| is_first_tag_match(l, t, k),
    decreases l.len() - j,
{
    if eq_ignore_ascii_case(l[j], t) {
        assert(is_first_tag_match(l, t, j));
    } else {
        let m = choose|m: int| j <= m < l.len() && eq_ignore_ascii_case(#[trigger] l[m], t);
        assert(m != j);
        lemma_first_tag_match_from(l, t, j + 1);
    }
}

/// A list holding a tag has a first place where it holds it.
proof fn lemma_first_tag_match_exists(l: Seq<Seq<char>>, t: Seq<char>)
    requires
        has_tag_ignoring_case(l, t),
    ensures
        exists|k: int| is_first_tag_match(l, t, k),
{
    lemma_first_tag_match_from(l, t, 0);
}

/// Removing tags from a list that holds no tag twice (ignoring ASCII case)
/// leaves none of the removed tags in it, and still none twice.
pub proof fn law_removed_tags_gone(list: Seq<Seq<char>>, rems: Seq<Seq<char>>, i: int)
    requires
        case_distinct(list),
        0 <= i < rems.len(),
    ensures
        case_distinct(remove_tags_spec(list, rems).0),
        !has_tag_ignoring_case(remove_tags_spec(list, rems).0, fm_tag(rems[i])),
    decreases rems.len(),
{
    lemma_removal_keeps_distinct(list, rems);
    let rest = rems.drop_last();
    lemma_removal_keeps_distinct(list, rest);
    let l = remove_tags_spec(list, rest).0;
    let t = fm_tag(rems.last());
    let r = remove_tags_spec(list, rems).0;
    if i < rems.len() - 1 {
        law_removed_tags_gone(list, rest, i);
        assert(rest[i] == rems[i]);
        if has_tag_ignoring_case(l, t) {
            lemma_first_tag_match_exists(l, t);
            let k = choose|k: int| is_first_tag_match(l, t, k);
            assert(r == l.remove(k));
            if has_tag_ignoring_case(r, fm_tag(rems[i])) {
                let j = choose|j: int| 0 <= j < r.len() && eq_ignore_ascii_case(#[trigger] r[j], fm_tag(rems[i]));
                if j < k {
                    assert(r[j] == l[j]);
                    assert(has_tag_ignoring_case(l, fm_tag(rest[i])));
                } else {
                    assert(r[j] == l[j + 1]);
                    assert(has_tag_ignoring_case(l, fm_tag(rest[i])));
                }
            }
        }
    } else {
        assert(rems[i] == rems.last());
        if has_tag_ignoring_case(l, t) {
            lemma_first_tag_match_exists(l, t);
            let k = choose|k: int| is_first_tag_match(l, t, k);
            assert(r == l.remove(k));
            if has_tag_ignoring_case(r, t) {
                let j = choose|j: int| 0 <= j < r.len() && eq_ignore_ascii_case(#[trigger] r[j], t);
                if j < k {
                    assert(r[j] == l[j]);
                    lemma_eq_ignore_case_join(l[j], l[k], t);
                } else {
                    assert(r[j] == l[j + 1]);
                    lemma_eq_ignore_case_join(l[k], l[j + 1], t);
                }
            }
        }
    }
}

proof fn lemma_removal_keeps_distinct(list: Seq<Seq<char>>, rems: Seq<Seq<char>>)
    requires
        case_distinct(list),
    ensures
        case_distinct(remove_tags_spec(list, rems).0),
    decreases rems.len(),
{
    if rems.len() > 0 {
        let rest = rems.drop_last();
        lemma_removal_keeps_distinct(list, rest);
        let l = remove_tags_spec(list, rest).0;
        let t = fm_tag(rems.last());
        if has_tag_ignoring_case(l, t) {
            lemma_first_tag_match_exists(l, t);
            let k = choose|k: int| is_first_tag_match(l, t, k);
            let r = l.remove(k);
            assert forall|a: int, b: int| 0 <= a < b < r.len() implies !eq_ignore_ascii_case(
                #[trigger] r[a],
                #[trigger] r[b],
            ) by {
                let a2 = if a < k { a } else { a + 1 };
                let b2 = if b < k { b } else { b + 1 };
                assert(r[a] == l[a2] && r[b] == l[b2]);
            }
        }
    }
}

pub open spec fn tags_key() -> Seq<char> {
    "tags"@
}

/// The frontmatter after adding and removing tags in its `tags` field, and
/// whether that changed the tags. With tags to add or remove, a missing
/// `tags` field is first created empty; the field is rewritten, joined with
/// `", "`, only when a tag was added or removed.
pub open spec fn retag_spec(
    fm: Seq<(Seq<char>, Seq<char>)>,
    adds: Seq<Seq<char>>,
    rems: Seq<Seq<char>>,
) -> (Seq<(Seq<char>, Seq<char>)>, bool) {
    if adds.len() == 0 && rems.len() == 0 {
        (fm, false)
    } else {
        let cur = match fm_get(fm, tags_key()) {
            Some(v) => v,
            None => Seq::empty(),
        };
        let fm1 = if fm_has(fm, tags_key()) {
            fm
        } else {
            fm_insert(fm, tags_key(), Seq::empty())
        };
        let (l1, c1) = add_tags_spec(tag_list(cur), adds);
        let (l2, c2) = remove_tags_spec(l1, rems);
        if c1 || c2 {
            (fm_insert(fm1, tags_key(), join(l2, list_sep())), true)
        } else {
            (fm1, false)
        }
    }
}

fn find_tag_ignoring_case(list: &Vec<Vec<char>>, t: &[char]) -> (r: Option<usize>)
    ensures
        match r {
            Some(i) => is_first_tag_match(vecs_view(list@), t@, i as int),
            None => !has_tag_ignoring_case(vecs_view(list@), t@),
        },
{
    let ghost l = vecs_view(list@);
    let mut i: usize = 0;
    while i < list.len()
        invariant
            i <= list@.len(),
            l == vecs_view(list@),
            forall|j: int| 0 <= j < i ==> !eq_ignore_ascii_case(#[trigger] l[j], t@),
        decreases list@.len() - i,
    {
        if eq_ignore_case(list[i].as_slice(), t) {
            return Some(i);
        }
        i += 1;
    }
    None
}

/// The frontmatter tag of `s`: trimmed, leading `#` removed.
fn fm_tag_of(s: &str) -> (r: Vec<char>)
    ensures
        r@ == fm_tag(s@),
{
    let v = chars_of(s);
    let n = v.len();
    let (x, y) = trim_bounds(&v, 0, n);
    let h = leading_char(&v, x, y, '#');
    proof {
        assert(v@.subrange(0, n as int) =~= v@);
        assert(strip_leading(v@.subrange(x as int, y as int), '#') =~= v@.subrange(x + h, y as int));
    }
    crate::text::slice_vec(&v, x + h, y)
}

/// Adds `add_tags` to and removes `remove_tags` from the `tags` field of
/// `fm`, comparing tags without regard to ASCII case; returns whether the
/// tags changed (see `retag_spec`).
pub fn update_frontmatter_tags(fm: &mut Frontmatter, add_tags: &[String], remove_tags: &[String]) -> (changed: bool)
    ensures
        (final(fm)@, changed) == retag_spec(old(fm)@, strings_view(add_tags@), strings_view(remove_tags@)),
{
    let ghost adds = strings_view(add_tags@);
    let ghost rems = strings_view(remove_tags@);
    if add_tags.len() == 0 && remove_tags.len() == 0 {
        return false;
    }
    proof {
        lemma_fm_get_has(fm@, tags_key());
    }
    let cur: Vec<char> = match fm.get("tags") {
        Some(v) => chars_of(v.as_str()),
        None => {
            fm.insert("tags".to_string(), String::new());
            Vec::new()
        },
    };
    let ghost fm1 = fm@;
    let mut list = split_tag_list(&cur);
    let mut changed = false;
    let mut i: usize = 0;
    while i < add_tags.len()
        invariant
            i <= add_tags@.len(),
            adds == strings_view(add_tags@),
            (vecs_view(list@), changed) == add_tags_spec(tag_list(cur@), adds.take(i as int)),
        decreases add_tags@.len() - i,
    {
        let t = fm_tag_of(add_tags[i].as_str());
        proof {
            assert(adds.take(i + 1).drop_last() =~= adds.take(i as int));
            assert(adds.take(i + 1).last() == add_tags@[i as int]@);
        }
        match find_tag_ignoring_case(&list, &t) {
            Some(_) => {},
            None => {
                let ghost before = vecs_view(list@);
                list.push(t);
                changed = true;
                assert(vecs_view(list@) =~= before.push(t@));
            },
        }
        i += 1;
    }
    assert(adds.take(add_tags@.len() as int) =~= adds);
    let ghost after_add = changed;
    let mut removed = false;
    let mut j: usize = 0;
    while j < remove_tags.len()
        invariant
            j <= remove_tags@.len(),
            rems == strings_view(remove_tags@),
            (vecs_view(list@), removed) == remove_tags_spec(
                add_tags_spec(tag_list(cur@), adds).0,
                rems.take(j as int),
            ),
        decreases remove_tags@.len() - j,
    {
        let t = fm_tag_of(remove_tags[j].as_str());
        proof {
            assert(rems.take(j + 1).drop_last() =~= rems.take(j as int));
            assert(rems.take(j + 1).last() == remove_tags@[j as int]@);
        }
        match find_tag_ignoring_case(&list, &t) {
            Some(pos) => {
                let ghost before = vecs_view(list@);
                proof {
                    let c = choose|c: int| is_first_tag_match(before, t@, c);
                    if c < pos {
                        assert(!eq_ignore_ascii_case(before[c], t@));
                    } else if c > pos {
                        assert(!eq_ignore_ascii_case(before[pos as int], t@));
                    }
                }
                list.remove(pos);
                removed = true;
                assert(vecs_view(list@) =~= before.remove(pos as int));
            },
            None => {},
        }
        j += 1;
    }
    assert(rems.take(remove_tags@.len() as int) =~= rems);
    if changed || removed {
        let mut joined: Vec<char> = Vec::new();
        crate::parse::frontmatter::push_joined(&mut joined, &list, &[',', ' ']);
        proof {
            assert(list@.map_values(|p: Vec<char>| p@) =~= vecs_view(list@));
            assert([',', ' ']@ =~= list_sep());
        }
        fm.insert("tags".to_string(), string_of(&joined));
        return true;
    }
    false
}

/// The note text after `bulk_tag` edits it, or `None` when neither its
/// frontmatter tags nor its inline tags change.
pub open spec fn retag_note_spec(content: Seq<char>, adds: Seq<Seq<char>>, rems: Seq<Seq<char>>) -> Option<
    Seq<char>,
> {
    let (fm, body) = parse_spec(content);
    let (fm2, fm_changed) = retag_spec(fm, adds, rems);
    let (nb, body_changed) = remove_inline_spec(body, rems);
    if fm_changed || body_changed {
        Some(compose_spec(fm2, nb))
    } else {
        None
    }
}

/// Whatever tags are added, a note that `bulk_tag` edits loses every inline
/// tag named for removal and keeps every other one: the edited note is its
/// new frontmatter over a body whose inline tags are those of the old body
/// whose lowercase form is not a removal target. This holds for bodies
/// without code or wikilinks whose every `#` starts the text or follows
/// whitespace.
pub proof fn law_retag_removes_inline(
    content: Seq<char>,
    adds: Seq<Seq<char>>,
    rems: Seq<Seq<char>>,
)
    requires
        plain_tag_text(parse_spec(content).1),
        retag_note_spec(content, adds, rems) is Some,
    ensures
        exists|nb: Seq<char>|
            retag_note_spec(content, adds, rems)->0 == compose_spec(
                retag_spec(parse_spec(content).0, adds, rems).0,
                nb,
            ) && inline_tags(nb) == inline_tags(parse_spec(content).1).filter(
                kept_by(removal_targets(rems)),
            ),
{
    let body = parse_spec(content).1;
    crate::parse::tag_removal::law_removed_tags_gone(body, rems);
    let nb = remove_inline_spec(body, rems).0;
    assert(retag_note_spec(content, adds, rems)->0 == compose_spec(
        retag_spec(parse_spec(content).0, adds, rems).0,
        nb,
    ));
}

/// The new text of a note that `bulk_tag` edits: tags added to and removed
/// from its frontmatter, and removed tags also cut from its body.
pub fn retag_note(content: &str, add_tags: &[String], remove_tags: &[String]) -> (r: Option<String>)
    ensures
        match r {
            Some(t) => retag_note_spec(content@, strings_view(add_tags@), strings_view(remove_tags@))
                == Some(t@),
            None => retag_note_spec(content@, strings_view(add_tags@), strings_view(remove_tags@))
                is None,
        },
{
    let mut parsed = parse(content);
    let fm_changed = update_frontmatter_tags(&mut parsed.frontmatter, add_tags, remove_tags);
    let (new_body, body_changed) = remove_inline_tags(parsed.body.as_str(), remove_tags);
    if fm_changed || body_changed {
        let b = chars_of(new_body.as_str());
        Some(string_of(&compose(&parsed.frontmatter, &b)))
    } else {
        None
    }
}

/// Words never counted as significant.
pub open spec fn stop_words() -> Seq<Seq<char>> {
    seq![
        "the"@,
        "and"@,
        "for"@,
        "are"@,
        "but"@,
        "not"@,
        "you"@,
        "all"@,
        "can"@,
        "had"@,
        "her"@,
        "was"@,
        "one"@,
        "our"@,
        "out"@,
        "has"@,
        "have"@,
        "been"@,
        "some"@,
        "same"@,
        "into"@,
        "than"@,
        "that"@,
        "them"@,
        "then"@,
        "they"@,
        "this"@,
        "just"@,
        "also"@,
        "with"@,
        "very"@,
        "what"@,
        "when"@,
        "from"@,
        "their"@,
        "there"@,
        "which"@,
        "about"@,
        "would"@,
        "could"@,
        "should"@,
        "other"@,
        "after"@,
        "first"@,
        "where"@,
        "these"@,
        "those"@,
        "being"@,
        "while"@,
        "over"@,
        "such"@,
        "each"@,
        "like"@,
        "well"@,
        "make"@,
        "made"@,
        "much"@,
        "more"@,
        "most"@,
        "many"@,
    ]
}

fn is_stop_word(w: &[char]) -> (r: bool)
    ensures
        r == stop_words().contains(w@),
{
    let stops = [
        "the",
        "and",
        "for",
        "are",
        "but",
        "not",
        "you",
        "all",
        "can",
        "had",
        "her",
        "was",
        "one",
        "our",
        "out",
        "has",
        "have",
        "been",
        "some",
        "same",
        "into",
        "than",
        "that",
        "them",
        "then",
        "they",
        "this",
        "just",
        "also",
        "with",
        "very",
        "what",
        "when",
        "from",
        "their",
        "there",
        "which",
        "about",
        "would",
        "could",
        "should",
        "other",
        "after",
        "first",
        "where",
        "these",
        "those",
        "being",
        "while",
        "over",
        "such",
        "each",
        "like",
        "well",
        "make",
        "made",
        "much",
        "more",
        "most",
        "many",
    ];
    assert(stops@.map_values(|x: &str| x@) =~= stop_words());
    let mut i: usize = 0;
    while i < stops.len()
        invariant
            i <= stops@.len(),
            stops@.map_values(|x: &str| x@) == stop_words(),
            forall|j: int| 0 <= j < i ==> stop_words()[j] != w@,
        decreases stops@.len() - i,
    {
        let c = chars_of(stops[i]);
        assert(stop_words()[i as int] == stops@[i as int]@);
        if chars_eq(&c, w) {
            return true;
        }
        i += 1;
    }
    false
}

pub open spec fn word_sep() -> spec_fn(char) -> bool {
    |c: char| !is_alphanumeric(c)
}

/// A word counts when its UTF-8 form has at least three bytes and it is not a
/// stop word.
pub open spec fn is_significant(w: Seq<char>) -> bool {
    byte_len(w) >= 3 && !stop_words().contains(w)
}

pub open spec fn significant_pred() -> spec_fn(Seq<char>) -> bool {
    |w: Seq<char>| is_significant(w)
}

/// The significant words of `text`, lowercased, in order, repeats kept.
pub open spec fn significant_words(text: Seq<char>) -> Seq<Seq<char>> {
    split_where(lowercase(text), word_sep()).filter(significant_pred())
}

/// Counts the significant words among the pieces of `lower`.
fn count_significant(lower: &Vec<char>) -> (r: Vec<(Vec<char>, usize)>)
    requires
        byte_len(lower@) <= isize::MAX,
    ensures
        counts_words(entries_view(r@), split_where(lower@, word_sep()).filter(significant_pred())),
{
    let n = lower.len();
    proof {
        crate::text::lemma_len_le_byte_len(lower@);
    }
    let ghost ps = split_where(lower@, word_sep());
    let ghost mut done: Seq<Seq<char>> = Seq::empty();
    let mut entries: Vec<(Vec<char>, usize)> = Vec::new();
    let mut seg: usize = 0;
    let mut pos: usize = 0;
    assert(lower@.skip(0) =~= lower@);
    assert(ps =~= done + ps);
    proof {
        let ws = done.filter(significant_pred());
        assert(ws =~= Seq::<Seq<char>>::empty());
    }
    while pos < n
        invariant
            n == lower@.len(),
            n <= isize::MAX,
            seg <= pos <= n,
            done.len() <= seg,
            forall|j: int| seg <= j < pos ==> !word_sep()(lower@[j]),
            ps == split_where(lower@, word_sep()),
            ps == done + split_where(lower@.skip(seg as int), word_sep()),
            counts_words(entries_view(entries@), done.filter(significant_pred())),
        decreases n - pos,
    {
        if !alphanumeric(lower[pos]) {
            proof {
                crate::text::lemma_split_where_step(lower@, word_sep(), seg as int, pos as int);
            }
            let w = crate::text::slice_vec(lower, seg, pos);
            let keep = byte_len_at_least(&w, 3) && !is_stop_word(&w);
            proof {
                done.lemma_filter_push(w@, significant_pred());
                done.filter(significant_pred()).lemma_filter_len(significant_pred());
                done.lemma_filter_len(significant_pred());
                assert(ps =~= done.push(w@) + split_where(lower@.skip(pos + 1), word_sep()));
            }
            if keep {
                add_word(&mut entries, w, Ghost(done.filter(significant_pred())));
            }
            proof {
                done = done.push(w@);
            }
            seg = pos + 1;
        }
        pos += 1;
    }
    proof {
        crate::text::lemma_split_where_last(lower@, word_sep(), seg as int);
    }
    let w = crate::text::slice_vec(lower, seg, n);
    let keep = byte_len_at_least(&w, 3) && !is_stop_word(&w);
    proof {
        done.lemma_filter_push(w@, significant_pred());
        done.lemma_filter_len(significant_pred());
        assert(ps =~= done.push(w@));
    }
    if keep {
        add_word(&mut entries, w, Ghost(done.filter(significant_pred())));
    }
    entries
}

/// The `max_words` most frequent significant words of `text` (lowercased;
/// see `significant_words`), most frequent first, ties in alphabetical order.
pub fn extract_significant_words(text: &str, max_words: usize) -> (r: Vec<String>)
    ensures
        is_top_words(significant_words(text@), strings_view(r@), max_words as int),
{
    let t = chars_of(text);
    let lower = to_lowercase(&t);
    let entries = count_significant(&lower);
    let ranked = top_counted(&entries, max_words, Ghost(significant_words(text@)));
    let mut out: Vec<String> = Vec::new();
    let mut a: usize = 0;
    while a < ranked.len()
        invariant
            a <= ranked@.len(),
            strings_view(out@) == ranked@.take(a as int).map_values(|e: (String, usize)| e.0@),
        decreases ranked@.len() - a,
    {
        let ghost before = out@;
        out.push(ranked[a].0.clone());
        proof {
            assert(ranked@.take(a + 1) =~= ranked@.take(a as int).push(ranked@[a as int]));
            assert(strings_view(out@) =~= strings_view(before).push(ranked@[a as int].0@));
        }
        a += 1;
    }
    assert(ranked@.take(ranked@.len() as int) =~= ranked@);
    out
}

} // verus!
