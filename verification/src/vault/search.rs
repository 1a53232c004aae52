//! Finding notes by text, by tag and by frontmatter field, and counting the
//! tags of the vault.

use vstd::prelude::*;
use crate::parse::frontmatter::{entry_view, fm_get, Frontmatter};
use crate::parse::tags::{contains_target, holds_chars, lowercase, strings_view, to_lowercase, TagSet};
use crate::ranking::{
    add_word, count_of, counts_words, entries_view, is_top_words, lemma_entry_count, top_counted,
};
use crate::text::{
    char_pred, chars_eq, chars_of, contains, count_leading, count_trailing, find_from, leading_char,
    occurs_at, string_of, strip_leading, trim, trim_bounds, trim_end, trim_start, white_pred,
};

verus! {

/// `content` holds `query`, both lowercased.
pub open spec fn matches_query(content: Seq<char>, query: Seq<char>) -> bool {
    contains(lowercase(content), lowercase(query))
}

/// Does the note text hold the query, case aside? (`search_notes`)
pub fn content_matches_query(content: &str, query: &str) -> (r: bool)
    ensures
        r == matches_query(content@, query@),
{
    let c = to_lowercase(&chars_of(content));
    let q = to_lowercase(&chars_of(query));
    match find_from(&c, 0, &q) {
        Some(i) => {
            assert(occurs_at(c@, q@, i as int));
            true
        },
        None => {
            assert(!contains(c@, q@)) by {
                assert forall|j: int| !occurs_at(c@, q@, j) by {
                    if 0 <= j {
                        assert(!occurs_at(c@, q@, j));
                    }
                }
            }
            false
        },
    }
}

/// A tag as searched for: trimmed, without leading `#`s, lowercased.
pub open spec fn search_tag(t: Seq<char>) -> Seq<char> {
    lowercase(strip_leading(trim(t), '#'))
}

/// The searched-for tags, normalized (see `search_tag`).
pub fn normalize_search_tags(tags: &[String]) -> (r: Vec<String>)
    ensures
        strings_view(r@) == strings_view(tags@).map_values(|t: Seq<char>| search_tag(t)),
{
    let mut out: Vec<String> = Vec::new();
    let mut i: usize = 0;
    while i < tags.len()
        invariant
            i <= tags@.len(),
            strings_view(out@) == strings_view(tags@.take(i as int)).map_values(
                |t: Seq<char>| search_tag(t),
            ),
        decreases tags@.len() - i,
    {
        let t = chars_of(tags[i].as_str());
        let n = t.len();
        let (a, b) = trim_bounds(&t, 0, n);
        let h = leading_char(&t, a, b, '#');
        proof {
            assert(t@.subrange(0, n as int) =~= t@);
            let x = t@.subrange(a as int, b as int);
            assert(x.skip(h as int) =~= t@.subrange(a + h, b as int));
        }
        let low = to_lowercase(&t.as_slice()[a + h..b]);
        let ghost before = out@;
        out.push(string_of(&low));
        proof {
            assert(tags@.take(i + 1) =~= tags@.take(i as int).push(tags@[i as int]));
            assert(strings_view(tags@.take(i + 1)) =~= strings_view(tags@.take(i as int)).push(
                tags@[i as int]@,
            ));
            assert(strings_view(out@) =~= strings_view(before).push(low@));
        }
        i += 1;
    }
    assert(tags@.take(tags@.len() as int) =~= tags@);
    out
}

/// A searched-for tag may be written with or without its `#`: the two
/// spellings search for the same tag.
pub proof fn law_hash_prefix_ignored(t: Seq<char>)
    requires
        trim(t) == t,
    ensures
        search_tag(seq!['#'] + t) == search_tag(t),
{
    let x = seq!['#'] + t;
    crate::text::lemma_count_leading_bound(t, white_pred());
    crate::text::lemma_count_trailing_bound(trim_start(t), white_pred());
    assert(count_leading(t, white_pred()) == 0);
    assert(trim_start(t) =~= t);
    assert(count_leading(x, white_pred()) == 0);
    assert(trim_start(x) =~= x);
    if t.len() > 0 {
        assert(count_trailing(t, white_pred()) == 0);
        assert(x.last() == t.last());
    }
    assert(count_trailing(x, white_pred()) == 0);
    assert(trim_end(x) =~= x);
    assert(x.drop_first() =~= t);
    assert(count_leading(x, char_pred('#')) == 1 + count_leading(t, char_pred('#')));
    crate::text::lemma_count_leading_bound(t, char_pred('#'));
    assert(strip_leading(x, '#') =~= strip_leading(t, '#'));
}

/// The tags, lowercased.
pub open spec fn lowered_tags(tags: Seq<Seq<char>>) -> Seq<Seq<char>> {
    tags.map_values(|t: Seq<char>| lowercase(t))
}

/// The match mode that asks for every tag.
pub open spec fn is_all_mode(m: Seq<char>) -> bool {
    m == seq!['a', 'l', 'l']
}

/// The note's tags, lowercased, hold every wanted tag (`all`) or one of them.
pub open spec fn tags_match_spec(note: Seq<Seq<char>>, wanted: Seq<Seq<char>>, all: bool) -> bool {
    if all {
        forall|i: int| 0 <= i < wanted.len() ==> lowered_tags(note).contains(#[trigger] wanted[i])
    } else {
        exists|i: int| 0 <= i < wanted.len() && lowered_tags(note).contains(#[trigger] wanted[i])
    }
}

/// Does a note with `note_tags` match the normalized `wanted` tags? With
/// `match_mode` `"all"` it must carry every one, with any other mode one.
pub fn matches_tags(note_tags: &TagSet, wanted: &Vec<String>, match_mode: &str) -> (r: bool)
    ensures
        r == tags_match_spec(note_tags@, strings_view(wanted@), is_all_mode(match_mode@)),
{
    let items = note_tags.items();
    let ghost low = lowered_tags(note_tags@);
    let mut lowered: Vec<Vec<char>> = Vec::new();
    let mut i: usize = 0;
    while i < items.len()
        invariant
            i <= items@.len(),
            items@.map_values(|t: String| t@) == note_tags@,
            low == lowered_tags(note_tags@),
            lowered@.len() == i,
            forall|k: int| 0 <= k < i ==> #[trigger] lowered@[k]@ == low[k],
        decreases items@.len() - i,
    {
        let l = to_lowercase(&chars_of(items[i].as_str()));
        assert(note_tags@[i as int] == items@[i as int]@);
        lowered.push(l);
        i += 1;
    }
    assert forall|x: Seq<char>| holds_chars(lowered@, x) <==> low.contains(x) by {
        if low.contains(x) {
            let k = choose|k: int| 0 <= k < low.len() && low[k] == x;
            assert(lowered@[k]@ == low[k]);
        }
        if holds_chars(lowered@, x) {
            let k = choose|k: int| 0 <= k < lowered@.len() && lowered@[k]@ == x;
            assert(low[k] == x);
        }
    }
    let m = chars_of(match_mode);
    assert(m@ == match_mode@);
    let all_word = ['a', 'l', 'l'];
    assert(all_word@ =~= seq!['a', 'l', 'l']);
    let all = chars_eq(&m, &all_word);
    let ghost w = strings_view(wanted@);
    let mut j: usize = 0;
    while j < wanted.len()
        invariant
            j <= wanted@.len(),
            w == strings_view(wanted@),
            all == is_all_mode(match_mode@),
            forall|x: Seq<char>| holds_chars(lowered@, x) <==> low.contains(x),
            low == lowered_tags(note_tags@),
            all ==> forall|k: int| 0 <= k < j ==> low.contains(#[trigger] w[k]),
            !all ==> forall|k: int| 0 <= k < j ==> !low.contains(#[trigger] w[k]),
        decreases wanted@.len() - j,
    {
        let x = chars_of(wanted[j].as_str());
        let found = contains_target(&lowered, &x);
        assert(w[j as int] == x@);
        if all && !found {
            assert(!low.contains(w[j as int]));
            return false;
        }
        if !all && found {
            assert(low.contains(w[j as int]));
            return true;
        }
        j += 1;
    }
    all
}

/// Every filter field is set in `fm` to the same value.
pub open spec fn fields_match(fm: Seq<(Seq<char>, Seq<char>)>, filters: Seq<(Seq<char>, Seq<char>)>) -> bool {
    forall|i: int| 0 <= i < filters.len() ==> fm_get(fm, #[trigger] filters[i].0) == Some(filters[i].1)
}

/// Does the frontmatter carry every field of `filters` with its value?
/// (`search_by_frontmatter`)
pub fn frontmatter_matches(fm: &Frontmatter, filters: &Frontmatter) -> (r: bool)
    ensures
        r == fields_match(fm@, filters@),
{
    let es = filters.entries();
    let ghost f = filters@;
    let mut i: usize = 0;
    while i < es.len()
        invariant
            i <= es@.len(),
            f == es@.map_values(|e: (String, String)| entry_view(e)),
            f == filters@,
            forall|k: int| 0 <= k < i ==> fm_get(fm@, #[trigger] f[k].0) == Some(f[k].1),
        decreases es@.len() - i,
    {
        assert(f[i as int] == entry_view(es@[i as int]));
        match fm.get(es[i].0.as_str()) {
            Some(v) => {
                if !chars_eq(&chars_of(v.as_str()), &chars_of(es[i].1.as_str())) {
                    assert(fm_get(fm@, f[i as int].0) != Some(f[i as int].1));
                    return false;
                }
            },
            None => {
                assert(fm_get(fm@, f[i as int].0) != Some(f[i as int].1));
                return false;
            },
        }
        i += 1;
    }
    true
}

/// Every tag of every note, note by note.
pub open spec fn concat_tags(notes: Seq<Seq<Seq<char>>>) -> Seq<Seq<char>>
    decreases notes.len(),
{
    if notes.len() == 0 {
        Seq::empty()
    } else {
        concat_tags(notes.drop_last()) + notes.last()
    }
}

pub open spec fn tag_sets_view(notes: Seq<TagSet>) -> Seq<Seq<Seq<char>>> {
    notes.map_values(|t: TagSet| t@)
}

proof fn lemma_concat_tags_prefix(notes: Seq<Seq<Seq<char>>>, i: int)
    requires
        0 <= i <= notes.len(),
    ensures
        concat_tags(notes.take(i)).len() <= concat_tags(notes).len(),
    decreases notes.len() - i,
{
    if i < notes.len() {
        lemma_concat_tags_prefix(notes, i + 1);
        assert(notes.take(i + 1).drop_last() =~= notes.take(i));
    } else {
        assert(notes.take(i) =~= notes);
    }
}

/// Each tag of the vault with the number of notes that carry it, most used
/// first, ties in alphabetical order. (`list_tags`)
pub fn tag_counts(notes: &Vec<TagSet>) -> (r: Vec<(String, usize)>)
    requires
        concat_tags(tag_sets_view(notes@)).len() < usize::MAX,
    ensures
        is_top_words(
            concat_tags(tag_sets_view(notes@)),
            r@.map_values(|e: (String, usize)| e.0@),
            concat_tags(tag_sets_view(notes@)).to_set().len() as int,
        ),
        forall|a: int|
            0 <= a < r@.len() ==> #[trigger] r@[a].1 == count_of(
                concat_tags(tag_sets_view(notes@)),
                r@[a].0@,
            ),
{
    let ghost all = tag_sets_view(notes@);
    let mut entries: Vec<(Vec<char>, usize)> = Vec::new();
    let mut i: usize = 0;
    while i < notes.len()
        invariant
            i <= notes@.len(),
            all == tag_sets_view(notes@),
            concat_tags(all).len() < usize::MAX,
            counts_words(entries_view(entries@), concat_tags(all.take(i as int))),
        decreases notes@.len() - i,
    {
        let items = notes[i].items();
        let ghost done = concat_tags(all.take(i as int));
        proof {
            lemma_concat_tags_prefix(all, i + 1);
            assert(all.take(i + 1).drop_last() =~= all.take(i as int));
            assert(all.take(i + 1).last() == all[i as int]);
            assert(all[i as int] == notes@[i as int]@);
        }
        let mut j: usize = 0;
        while j < items.len()
            invariant
                i < notes@.len(),
                j <= items@.len(),
                items@.map_values(|t: String| t@) == all[i as int],
                done + all[i as int] == concat_tags(all.take(i + 1)),
                concat_tags(all.take(i + 1)).len() < usize::MAX,
                counts_words(entries_view(entries@), done + all[i as int].take(j as int)),
            decreases items@.len() - j,
        {
            let w = chars_of(items[j].as_str());
            proof {
                assert(all[i as int][j as int] == items@[j as int]@);
                assert((done + all[i as int].take(j as int)).len() < usize::MAX);
            }
            add_word(&mut entries, w, Ghost(done + all[i as int].take(j as int)));
            proof {
                assert(done + all[i as int].take(j + 1) =~= (done + all[i as int].take(j as int)).push(
                    all[i as int][j as int],
                ));
            }
            j += 1;
        }
        proof {
            assert(all[i as int].take(items@.len() as int) =~= all[i as int]);
        }
        i += 1;
    }
    proof {
        assert(all.take(notes@.len() as int) =~= all);
        lemma_entry_count(entries_view(entries@), concat_tags(all));
    }
    let n = entries.len();
    top_counted(&entries, n, Ghost(concat_tags(all)))
}

pub open spec fn carries(t: Seq<char>) -> spec_fn(Seq<Seq<char>>) -> bool {
    |n: Seq<Seq<char>>| n.contains(t)
}

/// The number of notes whose tags include `t`.
pub open spec fn notes_carrying(notes: Seq<Seq<Seq<char>>>, t: Seq<char>) -> int {
    notes.filter(carries(t)).len() as int
}

proof fn lemma_count_in_distinct(l: Seq<Seq<char>>, t: Seq<char>)
    requires
        l.no_duplicates(),
    ensures
        count_of(l, t) == if l.contains(t) {
            1int
        } else {
            0int
        },
    decreases l.len(),
{
    if l.len() > 0 {
        let d = l.drop_last();
        assert(d.no_duplicates()) by {
            assert forall|i: int, j: int| 0 <= i < d.len() && 0 <= j < d.len() && i != j implies d[i]
                != d[j] by {
                assert(l[i] != l[j]);
            }
        }
        lemma_count_in_distinct(d, t);
        assert(d.push(l.last()) =~= l);
        d.lemma_filter_push(l.last(), crate::ranking::eq_pred(t));
        if d.contains(t) && l.last() == t {
            let i = choose|i: int| 0 <= i < d.len() && d[i] == t;
            assert(l[i] == l[l.len() - 1]);
        }
        if l.contains(t) && l.last() != t {
            let i = choose|i: int| 0 <= i < l.len() && l[i] == t;
            assert(d[i] == t);
        }
    }
}

/// The count `list_tags` reports for a tag is the number of notes that
/// carry it: a note's tags name each tag once.
pub proof fn law_tag_count_is_note_count(notes: Seq<Seq<Seq<char>>>, t: Seq<char>)
    requires
        forall|i: int| 0 <= i < notes.len() ==> (#[trigger] notes[i]).no_duplicates(),
    ensures
        count_of(concat_tags(notes), t) == notes_carrying(notes, t),
    decreases notes.len(),
{
    if notes.len() > 0 {
        let d = notes.drop_last();
        law_tag_count_is_note_count(d, t);
        Seq::filter_distributes_over_add(concat_tags(d), notes.last(), crate::ranking::eq_pred(t));
        lemma_count_in_distinct(notes.last(), t);
        assert(d.push(notes.last()) =~= notes);
        d.lemma_filter_push(notes.last(), carries(t));
    }
}

} // verus!
