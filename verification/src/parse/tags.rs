//! Inline `#tag`s in note text and `tags` in frontmatter, following
//! Obsidian's tag rules.

use vstd::prelude::*;
use crate::parse::frontmatter::{fm_get, Frontmatter};
use crate::text::{
    is_white, is_whitespace, byte_len, chars_of, find_from, is_first_occurrence, leading_char, matches_at, occurs_at,
    push_range, string_of, strip_leading, trim, trim_bounds,
};

verus! {

/// `regex_syntax::is_word_character`: the Unicode word characters, those
/// that `\w` matches.
pub uninterp spec fn is_word_character(c: char) -> bool;

/// `char::is_alphanumeric`.
pub uninterp spec fn is_alphanumeric(c: char) -> bool;

/// `str::to_lowercase`.
pub uninterp spec fn lowercase(s: Seq<char>) -> Seq<char>;

/// Calls `regex_syntax::is_word_character`; its result is named
/// `is_word_character`.
#[verifier::external_body]
fn word_character(c: char) -> (r: bool)
    ensures
        r == is_word_character(c),
{
    regex_syntax::is_word_character(c)
}

/// Calls `char::is_alphanumeric`; its result is named `is_alphanumeric`.
#[verifier::external_body]
pub(crate) fn alphanumeric(c: char) -> (r: bool)
    ensures
        r == is_alphanumeric(c),
{
    c.is_alphanumeric()
}

/// Calls `str::to_lowercase` on the string made of `s`; its result is named
/// `lowercase`. The result was a `String`, so it occupies at most
/// `isize::MAX` bytes.
#[verifier::external_body]
pub(crate) fn to_lowercase(s: &[char]) -> (r: Vec<char>)
    ensures
        r@ == lowercase(s@),
        byte_len(r@) <= isize::MAX,
{
    s.iter().collect::<String>().to_lowercase().chars().collect()
}

/// A character that may appear in a tag name: a word character, `/` or `-`.
/// No word character is whitespace or `#`; the tag rules rely on that, so it
/// is checked here rather than taken from the character table.
pub open spec fn tag_char(c: char) -> bool {
    !is_white(c) && c != '#' && (is_word_character(c) || c == '/' || c == '-')
}

/// Whether `c` may appear in a tag name (see `tag_char`).
fn is_tag_char(c: char) -> (r: bool)
    ensures
        r == tag_char(c),
{
    !is_whitespace(c) && c != '#' && (word_character(c) || c == '/' || c == '-')
}

/// The four kinds of span that the tag rules recognise.
pub enum Pattern {
    /// A fenced code block: from a ```` ``` ```` to the next ```` ``` ````.
    Fenced,
    /// An inline code span: a backtick, at least one character that is
    /// neither a backtick nor a newline, and a backtick.
    InlineCode,
    /// A wikilink: `[[`, characters other than `]`, and `]]`.
    Wikilink,
    /// A tag: `#` and a maximal run of tag characters.
    Tag,
}

pub open spec fn ticks() -> Seq<char> {
    seq!['`', '`', '`']
}

pub open spec fn open_brackets() -> Seq<char> {
    seq!['[', '[']
}

/// A span of kind `k` that starts at `i` ends at `e` (exclusive).
pub open spec fn is_match_end(k: Pattern, s: Seq<char>, i: int, e: int) -> bool {
    match k {
        Pattern::Fenced => {
            &&& occurs_at(s, ticks(), i)
            &&& i + 6 <= e
            &&& is_first_occurrence(s, ticks(), i + 3, e - 3)
        },
        Pattern::InlineCode => {
            &&& 0 <= i
            &&& i + 3 <= e <= s.len()
            &&& s[i] == '`'
            &&& s[e - 1] == '`'
            &&& forall|m: int| i < m < e - 1 ==> s[m] != '`' && s[m] != '\n'
        },
        Pattern::Wikilink => {
            &&& occurs_at(s, open_brackets(), i)
            &&& i + 4 <= e <= s.len()
            &&& s[e - 2] == ']'
            &&& s[e - 1] == ']'
            &&& forall|m: int| i + 2 <= m < e - 2 ==> s[m] != ']'
        },
        Pattern::Tag => {
            &&& 0 <= i
            &&& i + 2 <= e <= s.len()
            &&& s[i] == '#'
            &&& forall|m: int| i < m < e ==> tag_char(s[m])
            &&& (e == s.len() || !tag_char(s[e]))
        },
    }
}

/// The end of the span of kind `k` starting at `i`, if one starts there.
pub open spec fn match_end(k: Pattern, s: Seq<char>, i: int) -> Option<int> {
    if exists|e: int| is_match_end(k, s, i, e) {
        Some(choose|e: int| is_match_end(k, s, i, e))
    } else {
        None
    }
}

/// `i` is the first index at or after `from` where a span of kind `k` starts.
pub open spec fn is_next_match(k: Pattern, s: Seq<char>, from: int, i: int) -> bool {
    &&& from <= i
    &&& match_end(k, s, i) is Some
    &&& forall|j: int| from <= j < i ==> match_end(k, s, j) is None
}

/// The spans of kind `k` that a left-to-right scan from `from` finds, each
/// search resuming where the previous span ended (`Regex::find_iter`).
#[verifier::opaque]
pub open spec fn scan_spans(k: Pattern, s: Seq<char>, from: int) -> Seq<(int, int)>
    decreases s.len() - from,
{
    if from < 0 || from > s.len() {
        Seq::empty()
    } else if exists|i: int| is_next_match(k, s, from, i) {
        let i = choose|i: int| is_next_match(k, s, from, i);
        let e = match_end(k, s, i)->0;
        if e <= from || e > s.len() {
            Seq::empty()
        } else {
            seq![(i, e)] + scan_spans(k, s, e)
        }
    } else {
        Seq::empty()
    }
}

/// `s` from `from` on with every span of kind `k` replaced by one space
/// (`Regex::replace_all(s, " ")`).
#[verifier::opaque]
pub open spec fn replace_all(k: Pattern, s: Seq<char>, from: int) -> Seq<char>
    decreases s.len() - from,
{
    if from < 0 || from > s.len() {
        Seq::empty()
    } else if exists|i: int| is_next_match(k, s, from, i) {
        let i = choose|i: int| is_next_match(k, s, from, i);
        let e = match_end(k, s, i)->0;
        if e <= from || e > s.len() {
            s.skip(from)
        } else {
            s.subrange(from, i) + seq![' '] + replace_all(k, s, e)
        }
    } else {
        s.skip(from)
    }
}

pub(crate) proof fn lemma_match_end_unique(k: Pattern, s: Seq<char>, i: int, e: int)
    requires
        is_match_end(k, s, i, e),
    ensures
        match_end(k, s, i) == Some(e),
        i < e <= s.len(),
{
    let f = choose|f: int| is_match_end(k, s, i, f);
    assert(is_match_end(k, s, i, f));
    match k {
        Pattern::Fenced => {
            crate::text::lemma_first_occurrence_unique(s, ticks(), i + 3, e - 3, f - 3);
        },
        Pattern::InlineCode => {
            if f < e {
                assert(s[f - 1] == '`');
            } else if e < f {
                assert(s[e - 1] == '`');
            }
        },
        Pattern::Wikilink => {
            if f < e {
                assert(s[f - 2] == ']');
            } else if e < f {
                assert(s[e - 2] == ']');
            }
        },
        Pattern::Tag => {
            if f < e {
                assert(tag_char(s[f]));
            } else if e < f {
                assert(tag_char(s[e]));
            }
        },
    }
}

pub(crate) proof fn lemma_no_match_at_end(k: Pattern, s: Seq<char>, i: int)
    requires
        i >= s.len(),
    ensures
        match_end(k, s, i) is None,
{
    if exists|e: int| is_match_end(k, s, i, e) {
        let e = choose|e: int| is_match_end(k, s, i, e);
        if k is Fenced {
            assert(occurs_at(s, ticks(), i));
        } else if k is Wikilink {
            assert(occurs_at(s, open_brackets(), i));
        }
    }
}

pub(crate) proof fn lemma_scan_step(k: Pattern, s: Seq<char>, from: int, i: int, e: int)
    requires
        0 <= from <= i,
        is_match_end(k, s, i, e),
        forall|j: int| from <= j < i ==> match_end(k, s, j) is None,
    ensures
        scan_spans(k, s, from) == seq![(i, e)] + scan_spans(k, s, e),
        replace_all(k, s, from) == s.subrange(from, i) + seq![' '] + replace_all(k, s, e),
        i < e <= s.len(),
{
    reveal(scan_spans);
    reveal(replace_all);
    lemma_match_end_unique(k, s, i, e);
    assert(is_next_match(k, s, from, i));
    let i2 = choose|i2: int| is_next_match(k, s, from, i2);
    assert(is_next_match(k, s, from, i2));
    if i2 < i {
        assert(match_end(k, s, i2) is None);
    } else if i < i2 {
        assert(match_end(k, s, i) is None);
    }
}

pub(crate) proof fn lemma_scan_done(k: Pattern, s: Seq<char>, from: int)
    requires
        0 <= from <= s.len(),
        forall|j: int| from <= j < s.len() ==> match_end(k, s, j) is None,
    ensures
        scan_spans(k, s, from) == Seq::<(int, int)>::empty(),
        replace_all(k, s, from) == s.skip(from),
{
    reveal(scan_spans);
    reveal(replace_all);
    if exists|i: int| is_next_match(k, s, from, i) {
        let i = choose|i: int| is_next_match(k, s, from, i);
        if i >= s.len() {
            lemma_no_match_at_end(k, s, i);
        }
    }
}

/// Where the span of kind `k` starting at `i` ends, if one starts there.
fn match_end_at(k: &Pattern, s: &[char], i: usize) -> (r: Option<usize>)
    requires
        i < s@.len(),
    ensures
        match r {
            Some(e) => is_match_end(*k, s@, i as int, e as int),
            None => match_end(*k, s@, i as int) is None,
        },
{
    let n = s.len();
    match k {
        Pattern::Fenced => {
            let t = ['`', '`', '`'];
            assert(t@ =~= ticks());
            if !matches_at(s, i, &t) {
                return None;
            }
            match find_from(s, i + 3, &t) {
                Some(j) => Some(j + 3),
                None => {
                    proof {
                        if exists|e: int| is_match_end(*k, s@, i as int, e) {
                            let e = choose|e: int| is_match_end(*k, s@, i as int, e);
                            assert(occurs_at(s@, t@, e - 3));
                        }
                    }
                    None
                },
            }
        },
        Pattern::InlineCode => {
            if s[i] != '`' {
                return None;
            }
            let mut m = i + 1;
            while m < n && s[m] != '`' && s[m] != '\n'
                invariant
                    i < m <= n == s@.len(),
                    forall|j: int| i < j < m ==> s@[j] != '`' && s@[j] != '\n',
                decreases n - m,
            {
                m += 1;
            }
            if m < n && s[m] == '`' && m > i + 1 {
                Some(m + 1)
            } else {
                proof {
                    if exists|e: int| is_match_end(*k, s@, i as int, e) {
                        let e = choose|e: int| is_match_end(*k, s@, i as int, e);
                        if e - 1 > m {
                            assert(s@[m as int] != '`' && s@[m as int] != '\n');
                        } else if e - 1 < m {
                            assert(s@[e - 1] != '`');
                        }
                    }
                }
                None
            }
        },
        Pattern::Wikilink => {
            let o = ['[', '['];
            assert(o@ =~= open_brackets());
            if !matches_at(s, i, &o) {
                return None;
            }
            let mut m = i + 2;
            while m < n && s[m] != ']'
                invariant
                    i + 2 <= m <= n == s@.len(),
                    forall|j: int| i + 2 <= j < m ==> s@[j] != ']',
                decreases n - m,
            {
                m += 1;
            }
            if m < n && n - m > 1 && s[m + 1] == ']' {
                Some(m + 2)
            } else {
                proof {
                    if exists|e: int| is_match_end(*k, s@, i as int, e) {
                        let e = choose|e: int| is_match_end(*k, s@, i as int, e);
                        if e - 2 > m {
                            assert(s@[m as int] != ']');
                        } else if e - 2 < m {
                            assert(s@[e - 2] != ']');
                        }
                    }
                }
                None
            }
        },
        Pattern::Tag => {
            if s[i] != '#' {
                return None;
            }
            let mut m = i + 1;
            while m < n && is_tag_char(s[m])
                invariant
                    i < m <= n == s@.len(),
                    forall|j: int| i < j < m ==> tag_char(s@[j]),
                decreases n - m,
            {
                m += 1;
            }
            if m > i + 1 {
                Some(m)
            } else {
                proof {
                    if exists|e: int| is_match_end(*k, s@, i as int, e) {
                        let e = choose|e: int| is_match_end(*k, s@, i as int, e);
                        assert(tag_char(s@[i + 1]));
                    }
                }
                None
            }
        },
    }
}

pub open spec fn spans_view(v: Seq<(usize, usize)>) -> Seq<(int, int)> {
    v.map_values(|p: (usize, usize)| (p.0 as int, p.1 as int))
}

/// Scans `s` for spans of kind `k`: returns the spans and `s` with each span
/// replaced by one space.
pub(crate) fn scan(k: &Pattern, s: &[char]) -> (r: (Vec<(usize, usize)>, Vec<char>))
    ensures
        spans_view(r.0@) == scan_spans(*k, s@, 0),
        r.1@ == replace_all(*k, s@, 0),
        forall|j: int|
            0 <= j < r.0@.len() ==> is_match_end(*k, s@, #[trigger] r.0@[j].0 as int, r.0@[j].1 as int),
        forall|j1: int, j2: int| 0 <= j1 < j2 < r.0@.len() ==> r.0@[j1].1 <= r.0@[j2].0,
{
    let n = s.len();
    let mut spans: Vec<(usize, usize)> = Vec::new();
    let mut out: Vec<char> = Vec::new();
    let mut seg: usize = 0;
    let mut pos: usize = 0;
    while pos < n
        invariant
            n == s@.len(),
            seg <= pos <= n,
            forall|j: int| seg <= j < pos ==> match_end(*k, s@, j) is None,
            scan_spans(*k, s@, 0) == spans_view(spans@) + scan_spans(*k, s@, seg as int),
            replace_all(*k, s@, 0) == out@ + replace_all(*k, s@, seg as int),
            forall|j: int|
                0 <= j < spans@.len() ==> is_match_end(*k, s@, #[trigger] spans@[j].0 as int, spans@[j].1 as int),
            forall|j: int| 0 <= j < spans@.len() ==> spans@[j].1 <= seg,
            forall|j1: int, j2: int| 0 <= j1 < j2 < spans@.len() ==> spans@[j1].1 <= spans@[j2].0,
        decreases n - pos,
    {
        match match_end_at(k, s, pos) {
            Some(e) => {
                proof {
                    lemma_scan_step(*k, s@, seg as int, pos as int, e as int);
                }
                let ghost old_out = out@;
                push_range(&mut out, s, seg, pos);
                out.push(' ');
                let ghost old_spans = spans@;
                spans.push((pos, e));
                proof {
                    assert(spans_view(spans@) =~= spans_view(old_spans) + seq![
                        (pos as int, e as int),
                    ]);
                    assert(spans_view(spans@) + scan_spans(*k, s@, e as int) =~= spans_view(
                        old_spans,
                    ) + scan_spans(*k, s@, seg as int));
                    assert(out@ + replace_all(*k, s@, e as int) =~= old_out + replace_all(
                        *k,
                        s@,
                        seg as int,
                    ));
                }
                seg = e;
                pos = e;
            },
            None => {
                pos += 1;
            },
        }
    }
    proof {
        lemma_scan_done(*k, s@, seg as int);
        assert(spans_view(spans@) + Seq::<(int, int)>::empty() =~= spans_view(spans@));
        assert(s@.skip(seg as int) =~= s@.subrange(seg as int, n as int));
    }
    push_range(&mut out, s, seg, n);
    (spans, out)
}

/// A set of tag names, kept in the order they were first added.
#[derive(Debug)]
pub struct TagSet {
    items: Vec<String>,
}

impl Clone for TagSet {
    fn clone(&self) -> (r: Self)
        ensures
            r@ == self@,
    {
        proof {
            use_type_invariant(self);
        }
        let items = self.items.clone();
        assert(items@.map_values(|t: String| t@) =~= self@);
        TagSet { items }
    }
}

impl View for TagSet {
    type V = Seq<Seq<char>>;

    closed spec fn view(&self) -> Seq<Seq<char>> {
        self.items@.map_values(|t: String| t@)
    }
}

impl TagSet {
    #[verifier::type_invariant]
    spec fn wf(self) -> bool {
        self@.no_duplicates()
    }

    /// No tags.
    pub fn new() -> (r: TagSet)
        ensures
            r@ == Seq::<Seq<char>>::empty(),
    {
        let r = TagSet { items: Vec::new() };
        assert(r@ =~= Seq::<Seq<char>>::empty());
        r
    }

    /// The number of tags.
    pub fn len(&self) -> (r: usize)
        ensures
            r == self@.len(),
    {
        self.items.len()
    }

    /// No tags at all?
    pub fn is_empty(&self) -> (r: bool)
        ensures
            r == (self@.len() == 0),
    {
        self.items.len() == 0
    }

    /// The tags, each once, in the order they were added.
    pub fn items(&self) -> (r: &Vec<String>)
        ensures
            r@.map_values(|t: String| t@) == self@,
            self@.no_duplicates(),
    {
        proof {
            use_type_invariant(self);
        }
        &self.items
    }

    fn contains_chars(&self, t: &[char]) -> (r: bool)
        ensures
            r == self@.contains(t@),
    {
        let mut i: usize = 0;
        while i < self.items.len()
            invariant
                i <= self.items@.len(),
                self@ == self.items@.map_values(|t: String| t@),
                forall|j: int| 0 <= j < i ==> self@[j] != t@,
            decreases self.items@.len() - i,
        {
            let c = chars_of(self.items[i].as_str());
            if crate::text::chars_eq(&c, t) {
                assert(self@[i as int] == t@);
                return true;
            }
            i += 1;
        }
        false
    }

    /// Is `tag` in the set?
    pub fn contains(&self, tag: &str) -> (r: bool)
        ensures
            r == self@.contains(tag@),
    {
        let t = chars_of(tag);
        self.contains_chars(&t)
    }

    /// Adds the tag made of `t` unless it is present.
    fn insert_chars(&mut self, t: &[char])
        ensures
            final(self)@ == if old(self)@.contains(t@) {
                old(self)@
            } else {
                old(self)@.push(t@)
            },
    {
        if !self.contains_chars(t) {
            proof {
                use_type_invariant(&*self);
            }
            let ghost old_view = self@;
            let mut items: Vec<String> = Vec::new();
            std::mem::swap(&mut items, &mut self.items);
            assert(items@.map_values(|t: String| t@) == old_view);
            items.push(string_of(t));
            assert(items@.map_values(|t: String| t@) =~= old_view.push(t@));
            self.items = items;
        }
    }

    /// Adds `tag` unless it is present.
    pub fn insert(&mut self, tag: &str)
        ensures
            final(self)@ == if old(self)@.contains(tag@) {
                old(self)@
            } else {
                old(self)@.push(tag@)
            },
    {
        let t = chars_of(tag);
        self.insert_chars(&t);
    }
}

/// The text that tags are read from: `c` with fenced code blocks, then
/// inline code spans, then wikilinks each replaced by a space.
pub open spec fn sanitized(c: Seq<char>) -> Seq<char> {
    replace_all(
        Pattern::Wikilink,
        replace_all(Pattern::InlineCode, replace_all(Pattern::Fenced, c, 0), 0),
        0,
    )
}

/// The character before index `i` is a letter, a digit or `_` (never a
/// whitespace character).
pub open spec fn preceded_by_word(s: Seq<char>, i: int) -> bool {
    i > 0 && !is_white(s[i - 1]) && (is_alphanumeric(s[i - 1]) || s[i - 1] == '_')
}

pub open spec fn all_ascii_digits(t: Seq<char>) -> bool {
    forall|k: int| 0 <= k < t.len() ==> '0' <= #[trigger] t[k] <= '9'
}

/// The tag name of a tag span: what follows the `#`.
pub open spec fn tag_of_span(s: Seq<char>, sp: (int, int)) -> Seq<char> {
    s.subrange(sp.0 + 1, sp.1)
}

/// A tag span counts as a tag: it is not glued to a preceding word and its
/// name is not made of digits only.
pub open spec fn accepted_tag(s: Seq<char>, sp: (int, int)) -> bool {
    !preceded_by_word(s, sp.0) && !all_ascii_digits(tag_of_span(s, sp))
}

/// The tags named by the spans `ms[..n]` of `s` that count as tags.
pub open spec fn tags_of_spans(s: Seq<char>, ms: Seq<(int, int)>, n: int) -> Set<Seq<char>> {
    Set::new(
        |t: Seq<char>|
            exists|k: int| 0 <= k < n && accepted_tag(s, ms[k]) && t == tag_of_span(s, ms[k]),
    )
}

/// The inline tags of note text.
pub open spec fn inline_tags(c: Seq<char>) -> Set<Seq<char>> {
    let s = sanitized(c);
    let ms = scan_spans(Pattern::Tag, s, 0);
    tags_of_spans(s, ms, ms.len() as int)
}

pub(crate) proof fn lemma_scan_spans_match(k: Pattern, s: Seq<char>, from: int)
    ensures
        forall|j: int|
            0 <= j < scan_spans(k, s, from).len() ==> is_match_end(
                k,
                s,
                #[trigger] scan_spans(k, s, from)[j].0,
                scan_spans(k, s, from)[j].1,
            ),
    decreases s.len() - from,
{
    reveal(scan_spans);
    if 0 <= from <= s.len() && exists|i: int| is_next_match(k, s, from, i) {
        let i = choose|i: int| is_next_match(k, s, from, i);
        let e = match_end(k, s, i)->0;
        if from < e <= s.len() {
            lemma_scan_spans_match(k, s, e);
            assert(is_match_end(k, s, i, e));
            let all = scan_spans(k, s, from);
            let rest = scan_spans(k, s, e);
            assert(all == seq![(i, e)] + rest);
            assert forall|j: int| 0 <= j < all.len() implies is_match_end(
                k,
                s,
                #[trigger] all[j].0,
                all[j].1,
            ) by {
                if j > 0 {
                    assert(all[j] == rest[j - 1]);
                }
            }
        }
    }
}

/// Every inline tag is a non-empty name made of tag characters (word
/// characters, `/` and `-`), and not of digits alone.
pub proof fn law_inline_tags_well_formed(c: Seq<char>, t: Seq<char>)
    requires
        inline_tags(c).contains(t),
    ensures
        t.len() > 0,
        !all_ascii_digits(t),
        forall|m: int| 0 <= m < t.len() ==> tag_char(#[trigger] t[m]),
{
    let s = sanitized(c);
    let ms = scan_spans(Pattern::Tag, s, 0);
    lemma_scan_spans_match(Pattern::Tag, s, 0);
    let k = choose|k: int| 0 <= k < ms.len() && accepted_tag(s, ms[k]) && t == tag_of_span(s, ms[k]);
    assert(is_match_end(Pattern::Tag, s, ms[k].0, ms[k].1));
    assert forall|m: int| 0 <= m < t.len() implies tag_char(#[trigger] t[m]) by {
        assert(t[m] == s[ms[k].0 + 1 + m]);
    }
}

fn is_ascii_digits(s: &[char], a: usize, b: usize) -> (r: bool)
    requires
        a <= b <= s@.len(),
    ensures
        r == all_ascii_digits(s@.subrange(a as int, b as int)),
{
    let mut i = a;
    while i < b
        invariant
            a <= i <= b <= s@.len(),
            forall|k: int| a <= k < i ==> '0' <= #[trigger] s@[k] <= '9',
        decreases b - i,
    {
        if !('0' <= s[i] && s[i] <= '9') {
            assert(s@.subrange(a as int, b as int)[i - a] == s@[i as int]);
            return false;
        }
        i += 1;
    }
    assert forall|k: int| 0 <= k < b - a implies '0' <= #[trigger] s@.subrange(
        a as int,
        b as int,
    )[k] <= '9' by {
        assert(s@.subrange(a as int, b as int)[k] == s@[a + k]);
    }
    true
}

fn is_preceded_by_word(s: &[char], i: usize) -> (r: bool)
    requires
        i <= s@.len(),
    ensures
        r == preceded_by_word(s@, i as int),
{
    i > 0 && !is_whitespace(s[i - 1]) && (alphanumeric(s[i - 1]) || s[i - 1] == '_')
}

/// Adds to `set` the tags named by the tag spans `ms` of `s`.
fn add_span_tags(set: &mut TagSet, s: &[char], ms: &Vec<(usize, usize)>)
    requires
        forall|j: int|
            0 <= j < ms@.len() ==> is_match_end(
                Pattern::Tag,
                s@,
                #[trigger] ms@[j].0 as int,
                ms@[j].1 as int,
            ),
    ensures
        final(set)@.to_set() == old(set)@.to_set() + tags_of_spans(
            s@,
            spans_view(ms@),
            ms@.len() as int,
        ),
{
    let ghost sv = spans_view(ms@);
    let mut k: usize = 0;
    while k < ms.len()
        invariant
            k <= ms@.len(),
            sv == spans_view(ms@),
            forall|j: int|
                0 <= j < ms@.len() ==> is_match_end(
                    Pattern::Tag,
                    s@,
                    #[trigger] ms@[j].0 as int,
                    ms@[j].1 as int,
                ),
            set@.to_set() == old(set)@.to_set() + tags_of_spans(s@, sv, k as int),
        decreases ms@.len() - k,
    {
        let (i, e) = ms[k];
        assert(is_match_end(Pattern::Tag, s@, ms@[k as int].0 as int, ms@[k as int].1 as int));
        let ghost before = set@;
        let keep = !is_preceded_by_word(s, i) && !is_ascii_digits(s, i + 1, e);
        if keep {
            let t = crate::text::slice_vec(s, i + 1, e);
            set.insert_chars(&t);
            proof {
                before.lemma_push_to_set_commute(t@);
            }
        }
        proof {
            assert(sv[k as int] == (i as int, e as int));
            assert(set@.to_set() =~= old(set)@.to_set() + tags_of_spans(s@, sv, k + 1)) by {
                assert forall|t: Seq<char>|
                    tags_of_spans(s@, sv, k + 1).contains(t) implies #[trigger] set@.to_set().contains(t)
                    || old(set)@.to_set().contains(t) by {
                    let m = choose|m: int|
                        0 <= m < k + 1 && accepted_tag(s@, sv[m]) && t == tag_of_span(s@, sv[m]);
                    if m < k {
                        assert(tags_of_spans(s@, sv, k as int).contains(t));
                    }
                }
                assert forall|t: Seq<char>|
                    tags_of_spans(s@, sv, k as int).contains(t) implies tags_of_spans(
                        s@,
                        sv,
                        k + 1,
                    ).contains(t) by {
                    let m = choose|m: int|
                        0 <= m < k && accepted_tag(s@, sv[m]) && t == tag_of_span(s@, sv[m]);
                }
                if keep {
                    assert(tags_of_spans(s@, sv, k + 1).contains(
                        s@.subrange(i + 1, e as int),
                    ));
                }
            }
        }
        k += 1;
    }
}

/// Extracts inline `#tag` occurrences from note body text, matching
/// Obsidian's own tag rules rather than a bare `#word` scan:
///
/// - Code (fenced ` ``` ` blocks and inline `` `spans` ``) is not scanned —
///   a shell comment or CSS hex color inside code isn't a tag.
/// - `[[wikilink#Heading]]` references are not scanned — the `#Heading`
///   part addresses a section, it isn't a tag.
/// - A `#` glued directly to a preceding word character (e.g. a URL
///   anchor like `page.html#section`) is not a tag; Obsidian requires a
///   tag to start at whitespace, punctuation, or the start of a line.
/// - A tag made up entirely of digits (e.g. `#2024`) is not valid;
///   Obsidian requires at least one non-numeric character.
pub fn extract_tags(content: &str) -> (r: TagSet)
    ensures
        r@.to_set() == inline_tags(content@),
{
    let c = chars_of(content);
    let (_, s1) = scan(&Pattern::Fenced, &c);
    let (_, s2) = scan(&Pattern::InlineCode, &s1);
    let (_, s3) = scan(&Pattern::Wikilink, &s2);
    let (ms, _) = scan(&Pattern::Tag, &s3);
    let mut tags = TagSet::new();
    add_span_tags(&mut tags, &s3, &ms);
    proof {
        assert(Seq::<Seq<char>>::empty().to_set() =~= Set::<Seq<char>>::empty());
        assert(tags@.to_set() =~= inline_tags(content@));
    }
    tags
}

/// A tag as `remove_inline_tags` compares it: trimmed, without leading `#`,
/// lowercased.
pub open spec fn normalize_tag(t: Seq<char>) -> Seq<char> {
    lowercase(strip_leading(trim(t), '#'))
}

/// The character sequences of some strings.
pub open spec fn strings_view(v: Seq<String>) -> Seq<Seq<char>> {
    v.map_values(|t: String| t@)
}

/// The normalized, non-empty names among `rt[..n]`.
pub open spec fn targets_upto(rt: Seq<Seq<char>>, n: int) -> Set<Seq<char>> {
    Set::new(|x: Seq<char>| exists|k: int| 0 <= k < n && x == normalize_tag(rt[k]) && x.len() > 0)
}

/// The normalized, non-empty names among `rt`.
pub open spec fn removal_targets(rt: Seq<Seq<char>>) -> Set<Seq<char>> {
    targets_upto(rt, rt.len() as int)
}

/// `x` is one of the character vectors `v`.
pub open spec fn holds_chars(v: Seq<Vec<char>>, x: Seq<char>) -> bool {
    exists|j: int| 0 <= j < v.len() && v[j]@ == x
}

/// Index `p` lies inside one of the spans `sp`.
pub open spec fn in_some_span(sp: Seq<(int, int)>, p: int) -> bool {
    exists|j: int| 0 <= j < sp.len() && (#[trigger] sp[j]).0 <= p < sp[j].1
}

/// Index `p` of `s` lies inside a code block, a code span or a wikilink.
pub open spec fn protected(s: Seq<char>, p: int) -> bool {
    ||| in_some_span(scan_spans(Pattern::Fenced, s, 0), p)
    ||| in_some_span(scan_spans(Pattern::InlineCode, s, 0), p)
    ||| in_some_span(scan_spans(Pattern::Wikilink, s, 0), p)
}

/// The tag span `sp` of `s` is removed for the targets `tg`.
pub open spec fn removes(s: Seq<char>, tg: Set<Seq<char>>, sp: (int, int)) -> bool {
    &&& !protected(s, sp.0)
    &&& !preceded_by_word(s, sp.0)
    &&& tg.contains(lowercase(tag_of_span(s, sp)))
}

pub open spec fn removes_pred(s: Seq<char>, tg: Set<Seq<char>>) -> spec_fn((int, int)) -> bool {
    |sp: (int, int)| removes(s, tg, sp)
}

/// The range cut out for a removed tag span: the span and one following
/// space, if there is one.
pub open spec fn removal_of(s: Seq<char>, sp: (int, int)) -> (int, int) {
    (
        sp.0,
        if sp.1 < s.len() && s[sp.1] == ' ' {
            sp.1 + 1
        } else {
            sp.1
        },
    )
}

pub open spec fn removal_fn(s: Seq<char>) -> spec_fn((int, int)) -> (int, int) {
    |sp: (int, int)| removal_of(s, sp)
}

/// The ranges of `s` cut out to remove the tags `tg`.
pub open spec fn removals(s: Seq<char>, tg: Set<Seq<char>>) -> Seq<(int, int)> {
    scan_spans(Pattern::Tag, s, 0).filter(removes_pred(s, tg)).map_values(removal_fn(s))
}

pub open spec fn last_end(rs: Seq<(int, int)>) -> int {
    if rs.len() == 0 {
        0
    } else {
        rs.last().1
    }
}

/// The text of `s` before each range of `rs`, after the previous range.
pub open spec fn cut_prefix(s: Seq<char>, rs: Seq<(int, int)>) -> Seq<char>
    decreases rs.len(),
{
    if rs.len() == 0 {
        Seq::empty()
    } else {
        cut_prefix(s, rs.drop_last()) + s.subrange(last_end(rs.drop_last()), rs.last().0)
    }
}

/// `s` with the ranges `rs` cut out.
pub open spec fn cut(s: Seq<char>, rs: Seq<(int, int)>) -> Seq<char> {
    cut_prefix(s, rs) + s.subrange(last_end(rs), s.len() as int)
}

/// The body with the tags named in `rt` removed, and whether any was.
pub open spec fn remove_inline_spec(body: Seq<char>, rt: Seq<Seq<char>>) -> (Seq<char>, bool) {
    let rs = removals(body, removal_targets(rt));
    if rs.len() == 0 {
        (body, false)
    } else {
        (cut(body, rs), true)
    }
}

/// The normalized, non-empty names among `remove_tags`.
fn normalized_targets(remove_tags: &[String]) -> (r: Vec<Vec<char>>)
    ensures
        forall|x: Seq<char>|
            #[trigger] removal_targets(strings_view(remove_tags@)).contains(x)
                <==> holds_chars(r@, x),
{
    let ghost rt = strings_view(remove_tags@);
    let mut r: Vec<Vec<char>> = Vec::new();
    let mut i: usize = 0;
    while i < remove_tags.len()
        invariant
            i <= remove_tags@.len(),
            rt == strings_view(remove_tags@),
            forall|x: Seq<char>| #[trigger] targets_upto(rt, i as int).contains(x) <==> holds_chars(r@, x),
        decreases remove_tags@.len() - i,
    {
        let t = chars_of(remove_tags[i].as_str());
        let n = t.len();
        let (a, b) = trim_bounds(&t, 0, n);
        let h = leading_char(&t, a, b, '#');
        let low = to_lowercase(&t[a + h..b]);
        proof {
            assert(t@.subrange(0, n as int) =~= t@);
            let tr = t@.subrange(a as int, b as int);
            assert(strip_leading(tr, '#') =~= t@.subrange(a + h, b as int));
            assert(rt[i as int] == t@);
            assert(low@ == normalize_tag(rt[i as int]));
        }
        let ghost old_r = r@;
        if low.len() > 0 {
            r.push(low);
        }
        proof {
            assert forall|x: Seq<char>|
                #[trigger] targets_upto(rt, i + 1).contains(x) <==> holds_chars(r@, x) by {
                if targets_upto(rt, i + 1).contains(x) {
                    let k = choose|k: int|
                        0 <= k < i + 1 && x == normalize_tag(rt[k]) && x.len() > 0;
                    if k == i {
                        assert(r@[r@.len() - 1]@ == x);
                    } else {
                        assert(targets_upto(rt, i as int).contains(x));
                        let j = choose|j: int| 0 <= j < old_r.len() && old_r[j]@ == x;
                        assert(r@[j]@ == x);
                    }
                }
                if holds_chars(r@, x) {
                    let j = choose|j: int| 0 <= j < r@.len() && r@[j]@ == x;
                    if j < old_r.len() {
                        assert(old_r[j]@ == x);
                        assert(holds_chars(old_r, x));
                        assert(targets_upto(rt, i as int).contains(x));
                        let k = choose|k: int|
                            0 <= k < i && x == normalize_tag(rt[k]) && x.len() > 0;
                        assert(0 <= k < i + 1 && x == normalize_tag(rt[k]) && x.len() > 0);
                    } else {
                        assert(x == low@);
                        assert(0 <= i < i + 1 && x == normalize_tag(rt[i as int]) && x.len() > 0);
                    }
                }
            }
        }
        i += 1;
    }
    r
}

/// Removing no tag (no names given, or only blank or `#`-only ones) leaves
/// the body as it was and reports no change; and whenever no change is
/// reported, the body is returned as it was.
pub proof fn law_remove_nothing(body: Seq<char>, rt: Seq<Seq<char>>)
    ensures
        removal_targets(rt) == Set::<Seq<char>>::empty() ==> remove_inline_spec(body, rt) == (body, false),
        !remove_inline_spec(body, rt).1 ==> remove_inline_spec(body, rt).0 == body,
{
    if removal_targets(rt) == Set::<Seq<char>>::empty() {
        let tg = removal_targets(rt);
        let kept = scan_spans(Pattern::Tag, body, 0).filter(removes_pred(body, tg));
        if kept.len() > 0 {
            scan_spans(Pattern::Tag, body, 0).lemma_filter_pred(removes_pred(body, tg), 0);
            assert(removes_pred(body, tg)(kept[0]));
        }
    }
}

pub(crate) fn contains_target(targets: &Vec<Vec<char>>, x: &[char]) -> (r: bool)
    ensures
        r == holds_chars(targets@, x@),
{
    let mut j: usize = 0;
    while j < targets.len()
        invariant
            j <= targets@.len(),
            forall|m: int| 0 <= m < j ==> targets@[m]@ != x@,
        decreases targets@.len() - j,
    {
        if crate::text::chars_eq(targets[j].as_slice(), x) {
            return true;
        }
        j += 1;
    }
    false
}

fn in_spans(sp: &Vec<(usize, usize)>, p: usize) -> (r: bool)
    ensures
        r == in_some_span(spans_view(sp@), p as int),
{
    let mut j: usize = 0;
    while j < sp.len()
        invariant
            j <= sp@.len(),
            forall|m: int| 0 <= m < j ==> !((#[trigger] sp@[m]).0 <= p < sp@[m].1),
        decreases sp@.len() - j,
    {
        if sp[j].0 <= p && p < sp[j].1 {
            assert(spans_view(sp@)[j as int] == (sp@[j as int].0 as int, sp@[j as int].1 as int));
            return true;
        }
        j += 1;
    }
    assert forall|m: int| 0 <= m < sp@.len() implies !((#[trigger] spans_view(sp@)[m]).0 <= p
        < spans_view(sp@)[m].1) by {
        assert(spans_view(sp@)[m] == (sp@[m].0 as int, sp@[m].1 as int));
    }
    false
}

/// Removes inline `#tag` occurrences matching (case-insensitively) any of
/// `remove_tags` from `body`, using the same tag-boundary rules as
/// `extract_tags` — so it won't touch text inside code spans/blocks or
/// `[[wikilink#Heading]]` references. Returns the (possibly unchanged)
/// body and whether any removal happened.
pub fn remove_inline_tags(body: &str, remove_tags: &[String]) -> (r: (String, bool))
    ensures
        (r.0@, r.1) == remove_inline_spec(body@, strings_view(remove_tags@)),
{
    let ghost tg = removal_targets(strings_view(remove_tags@));
    let targets = normalized_targets(remove_tags);
    let s = chars_of(body);
    let n = s.len();
    let (fs, _) = scan(&Pattern::Fenced, &s);
    let (cs, _) = scan(&Pattern::InlineCode, &s);
    let (ws, _) = scan(&Pattern::Wikilink, &s);
    let (ms, _) = scan(&Pattern::Tag, &s);
    let ghost msv = spans_view(ms@);
    let ghost pred = removes_pred(s@, tg);
    let ghost f = removal_fn(s@);
    let mut out: Vec<char> = Vec::new();
    let mut rem: Vec<(usize, usize)> = Vec::new();
    let mut last: usize = 0;
    let mut k: usize = 0;
    while k < ms.len()
        invariant
            n == s@.len(),
            k <= ms@.len(),
            msv == spans_view(ms@),
            msv == scan_spans(Pattern::Tag, s@, 0),
            spans_view(fs@) == scan_spans(Pattern::Fenced, s@, 0),
            spans_view(cs@) == scan_spans(Pattern::InlineCode, s@, 0),
            spans_view(ws@) == scan_spans(Pattern::Wikilink, s@, 0),
            pred == removes_pred(s@, tg),
            f == removal_fn(s@),
            forall|x: Seq<char>| #[trigger] tg.contains(x) <==> holds_chars(targets@, x),
            forall|j: int|
                0 <= j < ms@.len() ==> is_match_end(
                    Pattern::Tag,
                    s@,
                    #[trigger] ms@[j].0 as int,
                    ms@[j].1 as int,
                ),
            forall|j1: int, j2: int| 0 <= j1 < j2 < ms@.len() ==> ms@[j1].1 <= ms@[j2].0,
            spans_view(rem@) == msv.take(k as int).filter(pred).map_values(f),
            out@ == cut_prefix(s@, spans_view(rem@)),
            last == last_end(spans_view(rem@)),
            last <= n,
            forall|j: int| k <= j < ms@.len() ==> last <= #[trigger] ms@[j].0,
        decreases ms@.len() - k,
    {
        let (i, e) = ms[k];
        assert(is_match_end(Pattern::Tag, s@, ms@[k as int].0 as int, ms@[k as int].1 as int));
        assert(msv[k as int] == (i as int, e as int));
        let mut hit = false;
        if !in_spans(&fs, i) && !in_spans(&cs, i) && !in_spans(&ws, i) && !is_preceded_by_word(
            &s,
            i,
        ) {
            let low = to_lowercase(&s[i + 1..e]);
            assert(s@.subrange(i + 1, e as int) == tag_of_span(s@, (i as int, e as int)));
            hit = contains_target(&targets, &low);
        }
        assert(hit == pred(msv[k as int]));
        let ghost old_rem = spans_view(rem@);
        let ghost old_out = out@;
        proof {
            assert(msv.take(k + 1) =~= msv.take(k as int).push(msv[k as int]));
            msv.take(k as int).lemma_filter_push(msv[k as int], pred);
        }
        if hit {
            let end = if e < n && s[e] == ' ' {
                e + 1
            } else {
                e
            };
            push_range(&mut out, &s, last, i);
            rem.push((i, end));
            proof {
                assert(spans_view(rem@) =~= old_rem.push((i as int, end as int)));
                assert(f(msv[k as int]) == (i as int, end as int));
                assert(msv.take(k as int).filter(pred).push(msv[k as int]).map_values(f)
                    =~= msv.take(k as int).filter(pred).map_values(f).push(f(msv[k as int])));
                assert(spans_view(rem@).drop_last() =~= old_rem);
                assert forall|j: int| k + 1 <= j < ms@.len() implies end <= #[trigger] ms@[j].0 by {
                    assert(is_match_end(Pattern::Tag, s@, ms@[j].0 as int, ms@[j].1 as int));
                    assert(ms@[k as int].1 <= ms@[j].0);
                }
            }
            last = end;
        }
        k += 1;
    }
    proof {
        assert(msv.take(ms@.len() as int) =~= msv);
    }
    if rem.len() == 0 {
        return (string_of(&s), false);
    }
    push_range(&mut out, &s, last, n);
    (string_of(&out), true)
}

/// `i` is the first index of `s` holding `c`.
pub open spec fn is_first_char(s: Seq<char>, c: char, i: int) -> bool {
    0 <= i < s.len() && s[i] == c && forall|j: int| 0 <= j < i ==> s[j] != c
}

/// The pieces of `s` between occurrences of `c` (`str::split(c)`).
pub open spec fn split_on(s: Seq<char>, c: char) -> Seq<Seq<char>>
    decreases s.len(),
{
    if exists|i: int| is_first_char(s, c, i) {
        let i = choose|i: int| is_first_char(s, c, i);
        seq![s.take(i)] + split_on(s.skip(i + 1), c)
    } else {
        seq![s]
    }
}

/// A frontmatter tag: a piece trimmed and stripped of leading `#`.
pub open spec fn fm_tag(p: Seq<char>) -> Seq<char> {
    strip_leading(trim(p), '#')
}

/// The non-empty tags of the pieces `ps`.
pub open spec fn tags_of_pieces(ps: Seq<Seq<char>>) -> Set<Seq<char>> {
    Set::new(|t: Seq<char>| exists|k: int| 0 <= k < ps.len() && t == fm_tag(ps[k]) && t.len() > 0)
}

/// The non-empty tags among the comma-separated pieces of `v`.
pub open spec fn field_tags(v: Seq<char>) -> Set<Seq<char>> {
    tags_of_pieces(split_on(v, ','))
}

proof fn lemma_tags_of_pieces_push(ps: Seq<Seq<char>>, p: Seq<char>)
    ensures
        tags_of_pieces(ps.push(p)) == tags_of_pieces(ps) + (if fm_tag(p).len() > 0 {
            set![fm_tag(p)]
        } else {
            Set::empty()
        }),
{
    let nd = ps.push(p);
    assert forall|t: Seq<char>| #[trigger] tags_of_pieces(nd).contains(t) implies tags_of_pieces(
        ps,
    ).contains(t) || (fm_tag(p).len() > 0 && t == fm_tag(p)) by {
        let k = choose|k: int| 0 <= k < nd.len() && t == fm_tag(nd[k]) && t.len() > 0;
        if k < ps.len() {
            assert(nd[k] == ps[k]);
        }
    }
    assert forall|t: Seq<char>| #[trigger] tags_of_pieces(ps).contains(t) implies tags_of_pieces(
        nd,
    ).contains(t) by {
        let k = choose|k: int| 0 <= k < ps.len() && t == fm_tag(ps[k]) && t.len() > 0;
        assert(nd[k] == ps[k]);
    }
    if fm_tag(p).len() > 0 {
        assert(nd[ps.len() as int] == p);
        assert(tags_of_pieces(nd).contains(fm_tag(p)));
    }
    assert(tags_of_pieces(nd) =~= tags_of_pieces(ps) + (if fm_tag(p).len() > 0 {
        set![fm_tag(p)]
    } else {
        Set::empty()
    }));
}

pub open spec fn opt_field_tags(v: Option<Seq<char>>) -> Set<Seq<char>> {
    match v {
        Some(v) => field_tags(v),
        None => Set::empty(),
    }
}

/// The tags listed under the frontmatter keys `tags` and `tag`.
pub open spec fn frontmatter_tags(fm: Seq<(Seq<char>, Seq<char>)>) -> Set<Seq<char>> {
    opt_field_tags(fm_get(fm, "tags"@)) + opt_field_tags(fm_get(fm, "tag"@))
}

pub proof fn lemma_split_step(v: Seq<char>, seg: int, pos: int)
    requires
        0 <= seg <= pos < v.len(),
        v[pos] == ',',
        forall|j: int| seg <= j < pos ==> v[j] != ',',
    ensures
        split_on(v.skip(seg), ',') == seq![v.subrange(seg, pos)] + split_on(v.skip(pos + 1), ','),
{
    let t = v.skip(seg);
    assert(is_first_char(t, ',', pos - seg));
    let i = choose|i: int| is_first_char(t, ',', i);
    if i < pos - seg {
        assert(t[i] == v[seg + i]);
    } else if i > pos - seg {
        assert(t[pos - seg] == v[pos]);
    }
    assert(t.take(pos - seg) =~= v.subrange(seg, pos));
    assert(t.skip(pos - seg + 1) =~= v.skip(pos + 1));
}

pub proof fn lemma_split_last(v: Seq<char>, seg: int)
    requires
        0 <= seg <= v.len(),
        forall|j: int| seg <= j < v.len() ==> v[j] != ',',
    ensures
        split_on(v.skip(seg), ',') == seq![v.subrange(seg, v.len() as int)],
{
    let t = v.skip(seg);
    if exists|i: int| is_first_char(t, ',', i) {
        let i = choose|i: int| is_first_char(t, ',', i);
        assert(t[i] == v[seg + i]);
    }
    assert(t =~= v.subrange(seg, v.len() as int));
}

/// Adds the tag of the piece `v[a..b]`, if it is not empty.
pub fn add_piece_tag(set: &mut TagSet, v: &[char], a: usize, b: usize)
    requires
        a <= b <= v@.len(),
    ensures
        final(set)@.to_set() == old(set)@.to_set() + (if fm_tag(v@.subrange(a as int, b as int)).len()
            > 0 {
            set![fm_tag(v@.subrange(a as int, b as int))]
        } else {
            Set::empty()
        }),
{
    let (x, y) = trim_bounds(v, a, b);
    let h = leading_char(v, x, y, '#');
    proof {
        let tr = v@.subrange(x as int, y as int);
        assert(strip_leading(tr, '#') =~= v@.subrange(x + h, y as int));
    }
    if x + h < y {
        let t = crate::text::slice_vec(v, x + h, y);
        let ghost before = set@;
        set.insert_chars(&t);
        proof {
            before.lemma_push_to_set_commute(t@);
            assert(set@.to_set() =~= old(set)@.to_set() + set![t@]);
        }
    } else {
        assert(old(set)@.to_set() + Set::<Seq<char>>::empty() =~= old(set)@.to_set());
    }
}

/// Adds the tags listed in the comma-separated value `v`.
fn add_field_tags(set: &mut TagSet, v: &[char])
    ensures
        final(set)@.to_set() == old(set)@.to_set() + field_tags(v@),
{
    let n = v.len();
    let ghost ps = split_on(v@, ',');
    let ghost mut done: Seq<Seq<char>> = Seq::empty();
    let mut seg: usize = 0;
    let mut pos: usize = 0;
    assert(v@.skip(0) =~= v@);
    assert(ps =~= done + ps);
    assert(old(set)@.to_set() + tags_of_pieces(done) =~= old(set)@.to_set());
    while pos < n
        invariant
            n == v@.len(),
            seg <= pos <= n,
            forall|j: int| seg <= j < pos ==> v@[j] != ',',
            ps == split_on(v@, ','),
            ps == done + split_on(v@.skip(seg as int), ','),
            set@.to_set() == old(set)@.to_set() + tags_of_pieces(done),
        decreases n - pos,
    {
        if v[pos] == ',' {
            proof {
                lemma_split_step(v@, seg as int, pos as int);
            }
            add_piece_tag(set, v, seg, pos);
            proof {
                let piece = v@.subrange(seg as int, pos as int);
                lemma_tags_of_pieces_push(done, piece);
                assert(ps =~= done.push(piece) + split_on(v@.skip(pos + 1), ','));
                assert(set@.to_set() =~= old(set)@.to_set() + tags_of_pieces(done.push(piece)));
                done = done.push(piece);
            }
            seg = pos + 1;
        }
        pos += 1;
    }
    proof {
        lemma_split_last(v@, seg as int);
    }
    add_piece_tag(set, v, seg, n);
    proof {
        let piece = v@.subrange(seg as int, n as int);
        lemma_tags_of_pieces_push(done, piece);
        assert(ps =~= done.push(piece));
        assert(set@.to_set() =~= old(set)@.to_set() + field_tags(v@));
    }
}

/// Adds the tags listed under the frontmatter keys `tags` and `tag`.
fn add_frontmatter_tags(set: &mut TagSet, frontmatter: &Frontmatter)
    ensures
        final(set)@.to_set() == old(set)@.to_set() + frontmatter_tags(frontmatter@),
{
    let ghost start = set@.to_set();
    match frontmatter.get("tags") {
        Some(v) => {
            let c = chars_of(v.as_str());
            add_field_tags(set, &c);
        },
        None => {},
    }
    let ghost mid = set@.to_set();
    match frontmatter.get("tag") {
        Some(v) => {
            let c = chars_of(v.as_str());
            add_field_tags(set, &c);
        },
        None => {},
    }
    assert(set@.to_set() =~= start + frontmatter_tags(frontmatter@));
}

/// The tags listed in the frontmatter fields `tags` and `tag`, comma
/// separated, each trimmed and stripped of leading `#`.
pub fn extract_tags_from_frontmatter(frontmatter: &Frontmatter) -> (r: TagSet)
    ensures
        r@.to_set() == frontmatter_tags(frontmatter@),
{
    let mut tags = TagSet::new();
    add_frontmatter_tags(&mut tags, frontmatter);
    assert(Seq::<Seq<char>>::empty().to_set() =~= Set::<Seq<char>>::empty());
    assert(tags@.to_set() =~= frontmatter_tags(frontmatter@));
    tags
}

/// The inline tags of `content` together with the frontmatter tags.
pub fn all_tags(content: &str, frontmatter: &Frontmatter) -> (r: TagSet)
    ensures
        r@.to_set() == inline_tags(content@) + frontmatter_tags(frontmatter@),
{
    let mut tags = extract_tags(content);
    add_frontmatter_tags(&mut tags, frontmatter);
    tags
}

} // verus!
