//! Linking a note to the notes that share the most significant words with it.

use vstd::prelude::*;
use crate::parse::frontmatter::Frontmatter;
use crate::parse::tags::{lowercase, strings_view, to_lowercase};
use crate::ranking::{is_top_scored, rank_by_key};
use crate::text::{
    chars_of, contains, ends_with, find_from, matches_at, occurs_at, push_all, push_range,
    string_of, trim, trim_bounds,
};
use crate::vault::{compose, compose_spec};

verus! {

pub open spec fn md_suffix() -> Seq<char> {
    seq!['.', 'm', 'd']
}

/// `s` without any number of trailing `.md` (`trim_end_matches(".md")`).
pub open spec fn strip_md_all(s: Seq<char>) -> Seq<char>
    decreases s.len(),
{
    if s.len() >= 3 && ends_with(s, md_suffix()) {
        strip_md_all(s.take(s.len() - 3))
    } else {
        s
    }
}

/// `s` without one trailing `.md`, if it has one (`strip_suffix(".md")`).
pub open spec fn strip_md_once(s: Seq<char>) -> Seq<char> {
    if s.len() >= 3 && ends_with(s, md_suffix()) {
        s.take(s.len() - 3)
    } else {
        s
    }
}

/// The key that identifies a note path whether or not it names the `.md`
/// extension: the path without trailing `.md`s.
pub fn note_key(path: &str) -> (r: String)
    ensures
        r@ == strip_md_all(path@),
{
    let s = chars_of(path);
    let md = ['.', 'm', 'd'];
    assert(md@ =~= md_suffix());
    let mut j = s.len();
    assert(s@.take(j as int) =~= s@);
    while j >= 3 && matches_at(&s, j - 3, &md)
        invariant
            j <= s@.len(),
            md@ == md_suffix(),
            strip_md_all(s@) == strip_md_all(s@.take(j as int)),
        decreases j,
    {
        proof {
            let t = s@.take(j as int);
            assert(t.subrange(j - 3, j as int) =~= s@.subrange(j - 3, j as int));
            assert(ends_with(t, md_suffix()));
            assert(t.take(j - 3) =~= s@.take(j - 3));
        }
        j -= 3;
    }
    proof {
        let t = s@.take(j as int);
        if j >= 3 {
            assert(t.subrange(j - 3, j as int) =~= s@.subrange(j - 3, j as int));
        }
    }
    string_of(&s.as_slice()[0..j])
}

/// The wikilink target of a note path: the path without its `.md`.
pub fn link_target(path: &str) -> (r: String)
    ensures
        r@ == strip_md_once(path@),
{
    let s = chars_of(path);
    let md = ['.', 'm', 'd'];
    assert(md@ =~= md_suffix());
    let n = s.len();
    if n >= 3 && matches_at(&s, n - 3, &md) {
        string_of(&s.as_slice()[0..n - 3])
    } else {
        proof {
            if n >= 3 {
                assert(!occurs_at(s@, md@, n - 3));
            }
        }
        string_of(&s)
    }
}

pub open spec fn found_in(text: Seq<char>) -> spec_fn(Seq<char>) -> bool {
    |w: Seq<char>| contains(text, w)
}

/// How many of `words` occur in the lowercased `body`.
pub open spec fn relatedness_spec(words: Seq<Seq<char>>, body: Seq<char>) -> nat {
    words.filter(found_in(lowercase(body))).len()
}

/// The score of a note for `link_related_notes`: how many of the
/// significant `words` its body holds, case aside.
pub fn relatedness(words: &Vec<String>, body: &str) -> (r: usize)
    ensures
        r == relatedness_spec(strings_view(words@), body@),
{
    let low = to_lowercase(&chars_of(body));
    let ghost ws = strings_view(words@);
    let ghost p = found_in(lowercase(body@));
    let mut count: usize = 0;
    let mut i: usize = 0;
    while i < words.len()
        invariant
            i <= words@.len(),
            ws == strings_view(words@),
            p == found_in(lowercase(body@)),
            low@ == lowercase(body@),
            count == ws.take(i as int).filter(p).len(),
            count <= i,
        decreases words@.len() - i,
    {
        let w = chars_of(words[i].as_str());
        let found = match find_from(&low, 0, &w) {
            Some(k) => {
                assert(occurs_at(low@, w@, k as int));
                true
            },
            None => {
                assert(!contains(low@, w@)) by {
                    assert forall|j: int| !occurs_at(low@, w@, j) by {
                        if 0 <= j {
                            assert(!occurs_at(low@, w@, j));
                        }
                    }
                }
                false
            },
        };
        proof {
            assert(ws.take(i + 1) =~= ws.take(i as int).push(ws[i as int]));
            ws.take(i as int).lemma_filter_push(ws[i as int], p);
            assert(ws[i as int] == w@);
        }
        if found {
            count += 1;
        }
        i += 1;
    }
    assert(ws.take(words@.len() as int) =~= ws);
    count
}

/// The scores of the candidates.
pub open spec fn candidate_scores(c: Seq<(String, usize)>) -> Seq<i128> {
    c.map_values(|x: (String, usize)| x.1 as i128)
}

/// The targets of the `max` best scored candidates, best first, equal
/// scores in the order the candidates came.
pub fn related_targets(candidates: &Vec<(String, usize)>, max: usize) -> (r: Vec<String>)
    ensures
        exists|idx: Seq<usize>|
            #[trigger] is_top_scored(candidate_scores(candidates@), idx, max as int)
                && strings_view(r@) == idx.map_values(|i: usize| candidates@[i as int].0@),
{
    let mut scores: Vec<i128> = Vec::new();
    let mut i: usize = 0;
    while i < candidates.len()
        invariant
            i <= candidates@.len(),
            scores@ == candidates@.take(i as int).map_values(|c: (String, usize)| c.1 as i128),
        decreases candidates@.len() - i,
    {
        scores.push(candidates[i].1 as i128);
        assert(candidates@.take(i + 1) =~= candidates@.take(i as int).push(candidates@[i as int]));
        i += 1;
    }
    assert(candidates@.take(candidates@.len() as int) =~= candidates@);
    assert(scores@ == candidate_scores(candidates@));
    let idx = rank_by_key(&scores, max);
    let mut out: Vec<String> = Vec::new();
    let mut a: usize = 0;
    while a < idx.len()
        invariant
            a <= idx@.len(),
            scores@.len() == candidates@.len(),
            forall|b: int| 0 <= b < idx@.len() ==> idx@[b] < scores@.len(),
            strings_view(out@) == idx@.take(a as int).map_values(
                |i: usize| candidates@[i as int].0@,
            ),
        decreases idx@.len() - a,
    {
        let i = idx[a];
        let ghost before = out@;
        out.push(candidates[i].0.clone());
        proof {
            assert(idx@.take(a + 1) =~= idx@.take(a as int).push(i));
            assert(strings_view(out@) =~= strings_view(before).push(candidates@[i as int].0@));
        }
        a += 1;
    }
    assert(idx@.take(idx@.len() as int) =~= idx@);
    assert(is_top_scored(candidate_scores(candidates@), idx@, max as int));
    out
}

pub open spec fn related_heading() -> Seq<char> {
    seq!['#', '#', ' ', 'R', 'e', 'l', 'a', 't', 'e', 'd']
}

/// One `- [[target]]` line per target.
pub open spec fn link_lines(ts: Seq<Seq<char>>) -> Seq<char>
    decreases ts.len(),
{
    if ts.len() == 0 {
        Seq::empty()
    } else {
        link_lines(ts.drop_last()) + seq!['-', ' ', '[', '['] + ts.last() + seq![']', ']', '\n']
    }
}

/// The note text after `link_related_notes`, or `None` when nothing is
/// written: no related notes, or a `## Related` section already there.
/// Otherwise the trimmed body gets a `## Related` section listing a link to
/// each target; the frontmatter is kept.
pub open spec fn related_content_spec(
    fm: Seq<(Seq<char>, Seq<char>)>,
    body: Seq<char>,
    targets: Seq<Seq<char>>,
) -> Option<Seq<char>> {
    let b = trim(body);
    if targets.len() == 0 || contains(b, related_heading()) {
        None
    } else {
        Some(
            compose_spec(
                fm,
                b + seq!['\n', '\n'] + related_heading() + seq!['\n', '\n'] + link_lines(targets),
            ),
        )
    }
}

/// The new text of a note that links to `targets` (see
/// `related_content_spec`).
pub fn related_note_content(fm: &Frontmatter, body: &str, targets: &Vec<String>) -> (r: Option<String>)
    ensures
        match r {
            Some(t) => related_content_spec(fm@, body@, strings_view(targets@)) == Some(t@),
            None => related_content_spec(fm@, body@, strings_view(targets@)) is None,
        },
{
    if targets.len() == 0 {
        return None;
    }
    let b = chars_of(body);
    let n = b.len();
    let (lo, hi) = trim_bounds(&b, 0, n);
    assert(b@.subrange(0, n as int) =~= b@);
    let mut out: Vec<char> = Vec::new();
    push_range(&mut out, &b, lo, hi);
    let heading = ['#', '#', ' ', 'R', 'e', 'l', 'a', 't', 'e', 'd'];
    assert(heading@ =~= related_heading());
    match find_from(&out, 0, &heading) {
        Some(k) => {
            assert(occurs_at(out@, heading@, k as int));
            return None;
        },
        None => {
            assert(!contains(out@, heading@)) by {
                assert forall|j: int| !occurs_at(out@, heading@, j) by {
                    if 0 <= j {
                        assert(!occurs_at(out@, heading@, j));
                    }
                }
            }
        },
    }
    let ghost trimmed = out@;
    push_all(&mut out, &['\n', '\n']);
    push_all(&mut out, &heading);
    push_all(&mut out, &['\n', '\n']);
    let ghost ts = strings_view(targets@);
    let ghost head = out@;
    let mut i: usize = 0;
    while i < targets.len()
        invariant
            i <= targets@.len(),
            ts == strings_view(targets@),
            out@ == head + link_lines(ts.take(i as int)),
        decreases targets@.len() - i,
    {
        proof {
            assert(ts.take(i + 1).drop_last() =~= ts.take(i as int));
            assert(ts.take(i + 1).last() == targets@[i as int]@);
        }
        push_all(&mut out, &['-', ' ', '[', '[']);
        push_all(&mut out, &chars_of(targets[i].as_str()));
        push_all(&mut out, &[']', ']', '\n']);
        proof {
            assert(out@ =~= head + link_lines(ts.take(i + 1)));
        }
        i += 1;
    }
    proof {
        assert(ts.take(targets@.len() as int) =~= ts);
        assert(out@ =~= trimmed + seq!['\n', '\n'] + related_heading() + seq!['\n', '\n'] + link_lines(ts));
    }
    Some(string_of(&compose(fm, &out)))
}

/// No words score nothing.
pub proof fn law_relatedness_no_words(body: Seq<char>)
    ensures
        relatedness_spec(Seq::empty(), body) == 0,
{
    reveal(Seq::filter);
}

/// One more word adds one to the score exactly when it occurs anywhere in
/// the lowercased body.
pub proof fn law_relatedness_one_more(words: Seq<Seq<char>>, w: Seq<char>, body: Seq<char>)
    ensures
        relatedness_spec(words.push(w), body) == relatedness_spec(words, body) + if contains(
            lowercase(body),
            w,
        ) {
            1int
        } else {
            0int
        },
{
    reveal(Seq::filter);
    assert(words.push(w).drop_last() =~= words);
    assert(words.push(w).last() == w);
}

} // verus!
