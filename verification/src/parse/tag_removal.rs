//! What removing inline tags leaves of a note's tags.

use vstd::prelude::*;
use crate::parse::tags::{
    accepted_tag, all_ascii_digits, cut, cut_prefix, inline_tags, is_match_end, is_next_match,
    last_end, lemma_match_end_unique, lemma_scan_done, lemma_scan_spans_match, lemma_scan_step,
    lowercase, match_end, open_brackets, preceded_by_word, removal_of, removal_targets, removals,
    remove_inline_spec, removes, removes_pred, replace_all, sanitized, scan_spans, tag_char,
    tag_of_span, ticks, Pattern,
};
use crate::text::is_white;

verus! {

/// No backtick occurs in `s`.
pub open spec fn no_backticks(s: Seq<char>) -> bool {
    forall|i: int| 0 <= i < s.len() ==> #[trigger] s[i] != '`'
}

/// No `[[` occurs in `s`.
pub open spec fn no_open_brackets(s: Seq<char>) -> bool {
    forall|i: int| 0 <= i < s.len() - 1 ==> !(#[trigger] s[i] == '[' && s[i + 1] == '[')
}

/// Every `#` of `s` starts the text or follows a whitespace character.
pub open spec fn hashes_after_white(s: Seq<char>) -> bool {
    forall|i: int| 0 < i < s.len() && #[trigger] s[i] == '#' ==> is_white(s[i - 1])
}

/// Text without code or wikilinks whose every `#` starts the text or follows
/// whitespace: the text in which tag removal is stated exactly.
pub open spec fn plain_tag_text(s: Seq<char>) -> bool {
    &&& no_backticks(s)
    &&& no_open_brackets(s)
    &&& hashes_after_white(s)
}

/// The names of the tag spans of `x` that are not made of digits only.
pub open spec fn span_names(x: Seq<char>) -> Set<Seq<char>> {
    Set::new(
        |t: Seq<char>|
            exists|i: int, e: int|
                #![trigger is_match_end(Pattern::Tag, x, i, e)]
                is_match_end(Pattern::Tag, x, i, e) && t == x.subrange(i + 1, e)
                    && !all_ascii_digits(t),
    )
}

proof fn lemma_no_code(k: Pattern, x: Seq<char>)
    requires
        !(k is Tag),
        no_backticks(x),
        no_open_brackets(x),
    ensures
        scan_spans(k, x, 0) == Seq::<(int, int)>::empty(),
        replace_all(k, x, 0) == x,
{
    assert forall|j: int| 0 <= j < x.len() implies match_end(k, x, j) is None by {
        if exists|e: int| is_match_end(k, x, j, e) {
            let e = choose|e: int| is_match_end(k, x, j, e);
            match k {
                Pattern::Fenced => {
                    assert(x.subrange(j, j + 3)[0] == x[j]);
                    assert(ticks()[0] == '`');
                },
                Pattern::InlineCode => {
                    assert(x[j] == '`');
                },
                Pattern::Wikilink => {
                    assert(x.subrange(j, j + 2)[0] == x[j]);
                    assert(x.subrange(j, j + 2)[1] == x[j + 1]);
                    assert(open_brackets()[0] == '[' && open_brackets()[1] == '[');
                },
                Pattern::Tag => {},
            }
        }
    }
    lemma_scan_done(k, x, 0);
    assert(x.skip(0) =~= x);
}

proof fn lemma_sanitized_plain(x: Seq<char>)
    requires
        no_backticks(x),
        no_open_brackets(x),
    ensures
        sanitized(x) == x,
        scan_spans(Pattern::Fenced, x, 0).len() == 0,
        scan_spans(Pattern::InlineCode, x, 0).len() == 0,
        scan_spans(Pattern::Wikilink, x, 0).len() == 0,
{
    lemma_no_code(Pattern::Fenced, x);
    lemma_no_code(Pattern::InlineCode, x);
    lemma_no_code(Pattern::Wikilink, x);
}

/// Some tag span starts at or after `from` when one starts at `i >= from`.
proof fn lemma_first_match(x: Seq<char>, from: int, i: int)
    requires
        from <= i,
        match_end(Pattern::Tag, x, i) is Some,
    ensures
        exists|i0: int| is_next_match(Pattern::Tag, x, from, i0),
    decreases i - from,
{
    if exists|j: int| from <= j < i && match_end(Pattern::Tag, x, j) is Some {
        let j = choose|j: int| from <= j < i && match_end(Pattern::Tag, x, j) is Some;
        lemma_first_match(x, from, j);
    } else {
        assert(is_next_match(Pattern::Tag, x, from, i));
    }
}

/// The scan from `from` finds every tag span that starts at or after `from`.
proof fn lemma_scan_finds(x: Seq<char>, from: int, i: int, e: int)
    requires
        0 <= from <= i,
        is_match_end(Pattern::Tag, x, i, e),
    ensures
        scan_spans(Pattern::Tag, x, from).contains((i, e)),
    decreases x.len() - from,
{
    lemma_match_end_unique(Pattern::Tag, x, i, e);
    lemma_first_match(x, from, i);
    let i0 = choose|i0: int| is_next_match(Pattern::Tag, x, from, i0);
    let e0 = match_end(Pattern::Tag, x, i0)->0;
    assert(is_match_end(Pattern::Tag, x, i0, e0));
    lemma_scan_step(Pattern::Tag, x, from, i0, e0);
    let all = scan_spans(Pattern::Tag, x, from);
    let rest = scan_spans(Pattern::Tag, x, e0);
    if i == i0 {
        lemma_match_end_unique(Pattern::Tag, x, i0, e0);
        assert(all[0] == (i, e));
    } else {
        assert(i > i0);
        if i < e0 {
            assert(tag_char(x[i]));
        }
        lemma_scan_finds(x, e0, i, e);
        let k = choose|k: int| 0 <= k < rest.len() && rest[k] == (i, e);
        assert(all[k + 1] == (i, e));
    }
}

/// In plain tag text the inline tags are the names of its tag spans.
proof fn lemma_inline_tags_plain(x: Seq<char>)
    requires
        plain_tag_text(x),
    ensures
        inline_tags(x) == span_names(x),
{
    lemma_sanitized_plain(x);
    let ms = scan_spans(Pattern::Tag, x, 0);
    lemma_scan_spans_match(Pattern::Tag, x, 0);
    assert forall|t: Seq<char>| inline_tags(x).contains(t) implies span_names(x).contains(t) by {
        let k = choose|k: int| 0 <= k < ms.len() && accepted_tag(x, ms[k]) && t == tag_of_span(x, ms[k]);
        assert(is_match_end(Pattern::Tag, x, ms[k].0, ms[k].1));
    }
    assert forall|t: Seq<char>| span_names(x).contains(t) implies inline_tags(x).contains(t) by {
        let (i, e) = choose|i: int, e: int|
            is_match_end(Pattern::Tag, x, i, e) && t == x.subrange(i + 1, e) && !all_ascii_digits(t);
        lemma_scan_finds(x, 0, i, e);
        let k = choose|k: int| 0 <= k < ms.len() && ms[k] == (i, e);
        assert(!preceded_by_word(x, i));
        assert(accepted_tag(x, ms[k]));
    }
    assert(inline_tags(x) =~= span_names(x));
}

/// No tag span of `y + z` can cross from `y` into `z`, and a span of `y`
/// that ends with `y` ends there in `y + z` too: `y` ends in a character
/// that is neither a tag character nor `#`, or `z` starts with one that is
/// not a tag character (or either is empty).
pub open spec fn clean_seam(y: Seq<char>, z: Seq<char>) -> bool {
    ||| y.len() == 0
    ||| z.len() == 0
    ||| (!tag_char(y.last()) && y.last() != '#')
    ||| !tag_char(z[0])
}

proof fn lemma_split_names(y: Seq<char>, z: Seq<char>)
    requires
        clean_seam(y, z),
    ensures
        span_names(y + z) == span_names(y).union(span_names(z)),
{
    let x = y + z;
    let n = y.len() as int;
    assert forall|t: Seq<char>| span_names(x).contains(t) implies span_names(y).union(
        span_names(z),
    ).contains(t) by {
        let (i, e) = choose|i: int, e: int|
            is_match_end(Pattern::Tag, x, i, e) && t == x.subrange(i + 1, e) && !all_ascii_digits(t);
        if i < n {
            if e > n {
                assert(x[n - 1] == y.last());
                if n - 1 > i {
                    assert(tag_char(x[n - 1]));
                }
                if n < x.len() {
                    assert(tag_char(x[n]));
                    assert(x[n] == z[0]);
                }
            }
            assert forall|m: int| i < m < e implies tag_char(y[m]) by {
                assert(x[m] == y[m]);
                assert(tag_char(x[m]));
            }
            if e < n {
                assert(x[e] == y[e]);
            }
            assert(y[i] == x[i]);
            assert(is_match_end(Pattern::Tag, y, i, e));
            assert(y.subrange(i + 1, e) =~= x.subrange(i + 1, e));
        } else {
            let zi = i - n;
            let ze = e - n;
            assert forall|m: int| zi < m < ze implies tag_char(z[m]) by {
                assert(x[m + n] == z[m]);
                assert(tag_char(x[m + n]));
            }
            if e < x.len() {
                assert(x[e] == z[ze]);
            }
            assert(z[zi] == x[i]);
            assert(is_match_end(Pattern::Tag, z, zi, ze));
            assert(z.subrange(zi + 1, ze) =~= x.subrange(i + 1, e));
        }
    }
    assert forall|t: Seq<char>| span_names(y).contains(t) implies span_names(x).contains(t) by {
        let (i, e) = choose|i: int, e: int|
            is_match_end(Pattern::Tag, y, i, e) && t == y.subrange(i + 1, e) && !all_ascii_digits(t);
        assert forall|m: int| i < m < e implies tag_char(x[m]) by {
            assert(x[m] == y[m]);
            assert(tag_char(y[m]));
        }
        if e < n {
            assert(x[e] == y[e]);
        } else if z.len() > 0 {
            assert(tag_char(y[e - 1]));
            assert(y[e - 1] == y.last());
            assert(x[e] == z[0]);
        }
        assert(x[i] == y[i]);
        assert(is_match_end(Pattern::Tag, x, i, e));
        assert(y.subrange(i + 1, e) =~= x.subrange(i + 1, e));
    }
    assert forall|t: Seq<char>| span_names(z).contains(t) implies span_names(x).contains(t) by {
        let (i, e) = choose|i: int, e: int|
            is_match_end(Pattern::Tag, z, i, e) && t == z.subrange(i + 1, e) && !all_ascii_digits(t);
        assert forall|m: int| i + n < m < e + n implies tag_char(x[m]) by {
            assert(x[m] == z[m - n]);
            assert(tag_char(z[m - n]));
        }
        if e < z.len() {
            assert(x[e + n] == z[e]);
        }
        assert(x[i + n] == z[i]);
        assert(is_match_end(Pattern::Tag, x, i + n, e + n));
        assert(z.subrange(i + 1, e) =~= x.subrange(i + n + 1, e + n));
    }
    assert(span_names(x) =~= span_names(y).union(span_names(z)));
}

/// A tag span of the piece `s[lo..hi]` is one of `s` where it does not end
/// with the piece, or where the piece ends with `s` or before a character
/// that is not a tag character.
proof fn lemma_piece_match(s: Seq<char>, lo: int, hi: int, i: int, e: int)
    requires
        0 <= lo <= hi <= s.len(),
        is_match_end(Pattern::Tag, s.subrange(lo, hi), i, e),
        e < hi - lo || hi == s.len() || !tag_char(s[hi]),
    ensures
        is_match_end(Pattern::Tag, s, lo + i, lo + e),
        s.subrange(lo, hi).subrange(i + 1, e) == s.subrange(lo + i + 1, lo + e),
{
    let y = s.subrange(lo, hi);
    assert forall|m: int| lo + i < m < lo + e implies tag_char(s[m]) by {
        assert(y[m - lo] == s[m]);
        assert(tag_char(y[m - lo]));
    }
    if e < hi - lo {
        assert(y[e] == s[lo + e]);
    }
    assert(y[i] == s[lo + i]);
    assert(y.subrange(i + 1, e) =~= s.subrange(lo + i + 1, lo + e));
}

/// The spans come in order and do not overlap.
pub open spec fn ordered_spans(ms: Seq<(int, int)>) -> bool {
    forall|j1: int, j2: int| 0 <= j1 < j2 < ms.len() ==> (#[trigger] ms[j1]).1 <= (#[trigger] ms[j2]).0
}

proof fn lemma_scan_ordered(x: Seq<char>, from: int)
    ensures
        ordered_spans(scan_spans(Pattern::Tag, x, from)),
        forall|j: int|
            0 <= j < scan_spans(Pattern::Tag, x, from).len() ==> from <= (
            #[trigger] scan_spans(Pattern::Tag, x, from)[j]).0,
    decreases x.len() - from,
{
    reveal(scan_spans);
    if 0 <= from <= x.len() && exists|i: int| is_next_match(Pattern::Tag, x, from, i) {
        let i = choose|i: int| is_next_match(Pattern::Tag, x, from, i);
        let e = match_end(Pattern::Tag, x, i)->0;
        if from < e <= x.len() {
            lemma_scan_ordered(x, e);
            let all = scan_spans(Pattern::Tag, x, from);
            let rest = scan_spans(Pattern::Tag, x, e);
            assert(all == seq![(i, e)] + rest);
            assert forall|j1: int, j2: int| 0 <= j1 < j2 < all.len() implies (#[trigger] all[j1]).1
                <= (#[trigger] all[j2]).0 by {
                assert(all[j2] == rest[j2 - 1]);
                if j1 > 0 {
                    assert(all[j1] == rest[j1 - 1]);
                }
            }
            assert forall|j: int| 0 <= j < all.len() implies from <= (#[trigger] all[j]).0 by {
                if j > 0 {
                    assert(all[j] == rest[j - 1]);
                }
            }
        }
    }
}

proof fn lemma_filter_ordered(ms: Seq<(int, int)>, p: spec_fn((int, int)) -> bool)
    requires
        ordered_spans(ms),
    ensures
        ordered_spans(ms.filter(p)),
        forall|j: int| 0 <= j < ms.filter(p).len() ==> ms.contains(#[trigger] ms.filter(p)[j]),
    decreases ms.len(),
{
    reveal(Seq::filter);
    if ms.len() > 0 {
        let d = ms.drop_last();
        assert(ordered_spans(d)) by {
            assert forall|j1: int, j2: int| 0 <= j1 < j2 < d.len() implies (#[trigger] d[j1]).1 <= (
            #[trigger] d[j2]).0 by {
                assert(d[j1] == ms[j1] && d[j2] == ms[j2]);
            }
        }
        lemma_filter_ordered(d, p);
        let fd = d.filter(p);
        let f = ms.filter(p);
        let last = ms.last();
        assert forall|j: int| 0 <= j < fd.len() implies ms.contains(#[trigger] fd[j]) by {
            let idx = choose|idx: int| 0 <= idx < d.len() && d[idx] == fd[j];
            assert(ms[idx] == fd[j]);
        }
        if p(last) {
            assert(f == fd.push(last));
            assert forall|j1: int, j2: int| 0 <= j1 < j2 < f.len() implies (#[trigger] f[j1]).1 <= (
            #[trigger] f[j2]).0 by {
                if j2 < fd.len() {
                    assert(f[j1] == fd[j1] && f[j2] == fd[j2]);
                } else {
                    assert(f[j1] == fd[j1]);
                    assert(ms.contains(fd[j1]));
                    let idx = choose|idx: int| 0 <= idx < ms.len() && ms[idx] == fd[j1];
                    let idx2 = choose|idx2: int| 0 <= idx2 < d.len() && d[idx2] == fd[j1];
                    assert(ms[idx2] == fd[j1]);
                    assert(ms[ms.len() - 1] == last);
                    assert(ms[idx2].1 <= ms[ms.len() - 1].0);
                }
            }
            assert forall|j: int| 0 <= j < f.len() implies ms.contains(#[trigger] f[j]) by {
                if j < fd.len() {
                    assert(f[j] == fd[j]);
                } else {
                    assert(ms[ms.len() - 1] == f[j]);
                }
            }
        } else {
            assert(f == fd);
            assert forall|j1: int, j2: int| 0 <= j1 < j2 < f.len() implies (#[trigger] f[j1]).1 <= (
            #[trigger] f[j2]).0 by {
                let i1 = choose|idx: int| 0 <= idx < d.len() && d[idx] == fd[j1];
                let i2 = choose|idx: int| 0 <= idx < d.len() && d[idx] == fd[j2];
                assert(f[j1] == fd[j1] && f[j2] == fd[j2]);
            }
        }
    }
}

/// Every piece of plain tag text is plain tag text.
proof fn lemma_plain_piece(s: Seq<char>, lo: int, hi: int)
    requires
        plain_tag_text(s),
        0 <= lo <= hi <= s.len(),
    ensures
        plain_tag_text(s.subrange(lo, hi)),
{
    let y = s.subrange(lo, hi);
    assert forall|i: int| 0 <= i < y.len() implies #[trigger] y[i] != '`' by {
        assert(y[i] == s[lo + i]);
    }
    assert forall|i: int| 0 <= i < y.len() - 1 implies !(#[trigger] y[i] == '[' && y[i + 1] == '[') by {
        assert(y[i] == s[lo + i] && y[i + 1] == s[lo + i + 1]);
    }
    assert forall|i: int| 0 < i < y.len() && #[trigger] y[i] == '#' implies is_white(y[i - 1]) by {
        assert(y[i] == s[lo + i] && y[i - 1] == s[lo + i - 1]);
    }
}

/// Plain tag text followed, after whitespace, by plain tag text is plain.
proof fn lemma_plain_join(y: Seq<char>, z: Seq<char>)
    requires
        plain_tag_text(y),
        plain_tag_text(z),
        y.len() == 0 || is_white(y.last()),
    ensures
        plain_tag_text(y + z),
{
    let x = y + z;
    let n = y.len() as int;
    assert forall|i: int| 0 <= i < x.len() implies #[trigger] x[i] != '`' by {
        if i < n {
            assert(x[i] == y[i]);
        } else {
            assert(x[i] == z[i - n]);
        }
    }
    assert forall|i: int| 0 <= i < x.len() - 1 implies !(#[trigger] x[i] == '[' && x[i + 1] == '[') by {
        if i < n - 1 {
            assert(x[i] == y[i] && x[i + 1] == y[i + 1]);
        } else if i == n - 1 {
            assert(x[i] == y.last());
        } else {
            assert(x[i] == z[i - n] && x[i + 1] == z[i - n + 1]);
        }
    }
    assert forall|i: int| 0 < i < x.len() && #[trigger] x[i] == '#' implies is_white(x[i - 1]) by {
        if i < n {
            assert(x[i] == y[i] && x[i - 1] == y[i - 1]);
        } else if i == n {
            assert(x[i - 1] == y.last());
        } else {
            assert(x[i] == z[i - n] && x[i - 1] == z[i - n - 1]);
        }
    }
}

/// A tag name is kept when its lowercase form is not one of the targets.
pub open spec fn kept_by(tg: Set<Seq<char>>) -> spec_fn(Seq<char>) -> bool {
    |n: Seq<char>| !tg.contains(lowercase(n))
}

/// What the removal of the tags `tg` from plain tag text rests on: the tag
/// spans removed are, in order, exactly the tag spans whose lowercase name is
/// a target, each cut out with the space that follows it, if any.
proof fn lemma_removals(s: Seq<char>, tg: Set<Seq<char>>)
    requires
        plain_tag_text(s),
    ensures
        ({
            let f = scan_spans(Pattern::Tag, s, 0).filter(removes_pred(s, tg));
            let rs = removals(s, tg);
            &&& rs.len() == f.len()
            &&& ordered_spans(rs)
            &&& forall|j: int|
                0 <= j < f.len() ==> is_match_end(Pattern::Tag, s, (#[trigger] f[j]).0, f[j].1)
                    && tg.contains(lowercase(s.subrange(f[j].0 + 1, f[j].1))) && rs[j]
                    == removal_of(s, f[j])
            &&& forall|i: int, e: int|
                is_match_end(Pattern::Tag, s, i, e) && tg.contains(
                    lowercase(#[trigger] s.subrange(i + 1, e)),
                ) ==> exists|j: int| 0 <= j < f.len() && f[j] == (i, e)
        }),
{
    let ms = scan_spans(Pattern::Tag, s, 0);
    let p = removes_pred(s, tg);
    let f = ms.filter(p);
    let rs = removals(s, tg);
    lemma_sanitized_plain(s);
    lemma_scan_spans_match(Pattern::Tag, s, 0);
    lemma_scan_ordered(s, 0);
    lemma_filter_ordered(ms, p);
    assert forall|j: int| 0 <= j < f.len() implies is_match_end(
        Pattern::Tag,
        s,
        (#[trigger] f[j]).0,
        f[j].1,
    ) && tg.contains(lowercase(s.subrange(f[j].0 + 1, f[j].1))) && rs[j] == removal_of(s, f[j]) by {
        assert(ms.contains(f[j]));
        let idx = choose|idx: int| 0 <= idx < ms.len() && ms[idx] == f[j];
        assert(is_match_end(Pattern::Tag, s, ms[idx].0, ms[idx].1));
        ms.lemma_filter_pred(p, j);
        assert(removes(s, tg, f[j]));
    }
    assert(ordered_spans(rs)) by {
        assert forall|j1: int, j2: int| 0 <= j1 < j2 < rs.len() implies (#[trigger] rs[j1]).1 <= (
        #[trigger] rs[j2]).0 by {
            assert(f[j1].1 <= f[j2].0);
            assert(is_match_end(Pattern::Tag, s, f[j2].0, f[j2].1));
            assert(s[f[j2].0] == '#');
        }
    }
    assert forall|i: int, e: int|
        is_match_end(Pattern::Tag, s, i, e) && tg.contains(
            lowercase(#[trigger] s.subrange(i + 1, e)),
        ) implies exists|j: int| 0 <= j < f.len() && f[j] == (i, e) by {
        lemma_scan_finds(s, 0, i, e);
        let idx = choose|idx: int| 0 <= idx < ms.len() && ms[idx] == (i, e);
        if i > 0 {
            assert(is_white(s[i - 1]));
        }
        assert(!preceded_by_word(s, i));
        assert(tag_of_span(s, (i, e)) == s.subrange(i + 1, e));
        assert(removes(s, tg, ms[idx]));
        ms.lemma_filter_contains(p, idx);
    }
}

/// A tag span that no removal starts at keeps its name.
proof fn lemma_not_removed(s: Seq<char>, tg: Set<Seq<char>>, i: int, e: int)
    requires
        plain_tag_text(s),
        is_match_end(Pattern::Tag, s, i, e),
        forall|j: int| 0 <= j < removals(s, tg).len() ==> (#[trigger] removals(s, tg)[j]).0 != i,
    ensures
        !tg.contains(lowercase(s.subrange(i + 1, e))),
{
    lemma_removals(s, tg);
    let f = scan_spans(Pattern::Tag, s, 0).filter(removes_pred(s, tg));
    if tg.contains(lowercase(s.subrange(i + 1, e))) {
        let j = choose|j: int| 0 <= j < f.len() && f[j] == (i, e);
        assert(removals(s, tg)[j] == removal_of(s, f[j]));
    }
}

/// The piece cut out for a removed tag span names only that tag.
proof fn lemma_removed_piece(s: Seq<char>, a: int, e: int)
    requires
        plain_tag_text(s),
        is_match_end(Pattern::Tag, s, a, e),
    ensures
        forall|t: Seq<char>|
            #[trigger] span_names(s.subrange(a, removal_of(s, (a, e)).1)).contains(t) ==> t
                == s.subrange(a + 1, e),
{
    let b = removal_of(s, (a, e)).1;
    let y = s.subrange(a, b);
    assert forall|m: int| 0 < m < e - a implies tag_char(#[trigger] y[m]) by {
        assert(y[m] == s[a + m]);
    }
    if e - a < y.len() {
        assert(y[e - a] == s[e]);
    }
    assert(y[0] == s[a]);
    assert(is_match_end(Pattern::Tag, y, 0, e - a));
    assert forall|t: Seq<char>| #[trigger] span_names(y).contains(t) implies t == s.subrange(a + 1, e) by {
        let (i, f) = choose|i: int, f: int|
            is_match_end(Pattern::Tag, y, i, f) && t == y.subrange(i + 1, f) && !all_ascii_digits(t);
        if i > 0 {
            if i < e - a {
                assert(tag_char(y[i]));
            } else {
                assert(y[i] == s[e]);
            }
        }
        lemma_match_end_unique(Pattern::Tag, y, 0, e - a);
        lemma_match_end_unique(Pattern::Tag, y, 0, f);
        assert(y.subrange(1, e - a) =~= s.subrange(a + 1, e));
    }
}

/// After the first `k` removals: the text kept so far holds exactly the kept
/// names of the text it came from, and joins cleanly to what follows.
#[verifier::rlimit(100)]
#[verifier::spinoff_prover]
proof fn lemma_prefix(s: Seq<char>, tg: Set<Seq<char>>, k: int)
    requires
        plain_tag_text(s),
        0 <= k <= removals(s, tg).len(),
    ensures
        ({
            let rs = removals(s, tg);
            let cp = cut_prefix(s, rs.take(k));
            let le = last_end(rs.take(k));
            &&& 0 <= le <= s.len()
            &&& plain_tag_text(cp)
            &&& cp.len() == 0 || is_white(cp.last())
            &&& span_names(cp) == span_names(s.take(le)).filter(kept_by(tg))
            &&& (le == 0 || s[le - 1] == ' ' || le == s.len() || !tag_char(s[le]))
            &&& (k < rs.len() ==> le <= rs[k].0)
            &&& forall|j: int| 0 <= j < k ==> (#[trigger] rs[j]).0 < le
        }),
    decreases k,
{
    let rs = removals(s, tg);
    let f = scan_spans(Pattern::Tag, s, 0).filter(removes_pred(s, tg));
    lemma_removals(s, tg);
    if k == 0 {
        let cp = cut_prefix(s, rs.take(0));
        assert(cp.len() == 0);
        assert(span_names(cp) =~= Set::empty()) by {
            assert forall|t: Seq<char>| !span_names(cp).contains(t) by {
                if span_names(cp).contains(t) {
                    let (i, e) = choose|i: int, e: int|
                        is_match_end(Pattern::Tag, cp, i, e) && t == cp.subrange(i + 1, e)
                            && !all_ascii_digits(t);
                }
            }
        }
        let s0 = s.take(0);
        assert(span_names(s0) =~= Set::empty()) by {
            assert forall|t: Seq<char>| !span_names(s0).contains(t) by {
                if span_names(s0).contains(t) {
                    let (i, e) = choose|i: int, e: int|
                        is_match_end(Pattern::Tag, s0, i, e) && t == s0.subrange(i + 1, e)
                            && !all_ascii_digits(t);
                }
            }
        }
        assert(span_names(s0).filter(kept_by(tg)) =~= Set::empty());
        if rs.len() > 0 {
            assert(rs[0].0 >= 0) by {
                assert(is_match_end(Pattern::Tag, s, f[0].0, f[0].1));
            }
        }
    } else {
        lemma_prefix(s, tg, k - 1);
        let rk1 = rs.take(k - 1);
        let rk = rs.take(k);
        assert(rk.drop_last() =~= rk1);
        assert(rk.last() == rs[k - 1]);
        let cp1 = cut_prefix(s, rk1);
        let cp = cut_prefix(s, rk);
        let le = last_end(rk1);
        let a = rs[k - 1].0;
        let b = rs[k - 1].1;
        let e = f[k - 1].1;
        assert(is_match_end(Pattern::Tag, s, a, e));
        assert(tg.contains(lowercase(s.subrange(a + 1, e))));
        assert(rs[k - 1] == removal_of(s, f[k - 1]));
        assert(cp == cp1 + s.subrange(le, a));
        assert(last_end(rk) == b);
        let pc = s.subrange(le, a);
        let rc = s.subrange(a, b);
        assert(s.take(a) =~= s.take(le) + pc);
        assert(s.take(b) =~= s.take(a) + rc);
        // the seams
        if le > 0 && s[le - 1] == ' ' {
            assert(s.take(le).last() == ' ');
        }
        if le < s.len() && !tag_char(s[le]) && pc.len() > 0 {
            assert(pc[0] == s[le]);
        }
        assert(clean_seam(s.take(le), pc));
        lemma_split_names(s.take(le), pc);
        if a > 0 {
            assert(s[a] == '#');
            assert(is_white(s[a - 1]));
            assert(s.take(a).last() == s[a - 1]);
        }
        assert(clean_seam(s.take(a), rc));
        lemma_split_names(s.take(a), rc);
        assert(clean_seam(cp1, pc));
        lemma_split_names(cp1, pc);
        // names between the removals are kept
        assert forall|t: Seq<char>| #[trigger] span_names(pc).contains(t) implies kept_by(tg)(t) by {
            let (i, e2) = choose|i: int, e2: int|
                is_match_end(Pattern::Tag, pc, i, e2) && t == pc.subrange(i + 1, e2)
                    && !all_ascii_digits(t);
            assert(s[a] == '#');
            lemma_piece_match(s, le, a, i, e2);
            assert forall|j: int| 0 <= j < rs.len() implies (#[trigger] rs[j]).0 != le + i by {
                if j >= k {
                    assert(rs[k - 1].1 <= rs[j].0);
                    assert(rs[k - 1].0 < rs[k - 1].1);
                }
            }
            lemma_not_removed(s, tg, le + i, le + e2);
        }
        // the removed name is not kept
        lemma_removed_piece(s, a, e);
        assert forall|t: Seq<char>| #[trigger] span_names(rc).contains(t) implies !kept_by(tg)(t) by {
        }
        assert(span_names(cp) =~= span_names(s.take(b)).filter(kept_by(tg)));
        lemma_plain_piece(s, le, a);
        lemma_plain_join(cp1, pc);
        if pc.len() > 0 {
            assert(cp.last() == pc.last());
            assert(pc.last() == s[a - 1]);
            assert(s[a] == '#');
        } else {
            assert(cp =~= cp1);
        }
        if k < rs.len() {
            assert(rs[k - 1].1 <= rs[k].0);
        }
        assert forall|j: int| 0 <= j < k implies (#[trigger] rs[j]).0 < b by {
            if j < k - 1 {
                assert(rs[j].0 < le);
            }
            assert(is_match_end(Pattern::Tag, s, f[k - 1].0, f[k - 1].1));
        }
    }
}

/// Removing inline tags from text without code, wikilinks or `#` glued to
/// a preceding character removes exactly those tags: the inline tags of the
/// result are the inline tags of the body whose lowercase form is not one of
/// the normalized targets (a removed tag is gone, every other tag stays).
pub proof fn law_removed_tags_gone(body: Seq<char>, rt: Seq<Seq<char>>)
    requires
        plain_tag_text(body),
    ensures
        inline_tags(remove_inline_spec(body, rt).0) == inline_tags(body).filter(
            kept_by(removal_targets(rt)),
        ),
{
    let s = body;
    let tg = removal_targets(rt);
    let rs = removals(s, tg);
    let n = rs.len() as int;
    lemma_prefix(s, tg, n);
    assert(rs.take(n) =~= rs);
    let cp = cut_prefix(s, rs);
    let le = last_end(rs);
    let q = s.subrange(le, s.len() as int);
    let t = cut(s, rs);
    assert(t == cp + q);
    if n == 0 {
        assert(cp.len() == 0);
        assert(t =~= s);
    }
    assert(remove_inline_spec(body, rt).0 == t);
    assert(s =~= s.take(le) + q);
    if le > 0 && s[le - 1] == ' ' {
        assert(s.take(le).last() == ' ');
    }
    if le < s.len() && !tag_char(s[le]) {
        assert(q[0] == s[le]);
    }
    assert(clean_seam(s.take(le), q));
    lemma_split_names(s.take(le), q);
    assert(clean_seam(cp, q));
    lemma_split_names(cp, q);
    assert forall|x: Seq<char>| #[trigger] span_names(q).contains(x) implies kept_by(tg)(x) by {
        let (i, e) = choose|i: int, e: int|
            is_match_end(Pattern::Tag, q, i, e) && x == q.subrange(i + 1, e) && !all_ascii_digits(x);
        lemma_piece_match(s, le, s.len() as int, i, e);
        lemma_not_removed(s, tg, le + i, le + e);
    }
    lemma_plain_piece(s, le, s.len() as int);
    lemma_plain_join(cp, q);
    lemma_inline_tags_plain(t);
    lemma_inline_tags_plain(s);
    assert(span_names(t) =~= span_names(s).filter(kept_by(tg)));
}

} // verus!
