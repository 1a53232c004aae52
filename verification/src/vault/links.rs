//! The links between notes: who links to a note, which notes nothing links
//! to, and relinking after a rename.

use vstd::prelude::*;
use crate::parse::tags::strings_view;
use crate::parse::wikilink::Wikilink;
use crate::text::{
    chars_eq, chars_of, find_from, find_from_spec, is_first_occurrence, push_all,
    push_range, string_of,
};

verus! {

/// A path component that names something: not empty, not `.`.
pub open spec fn named_component(c: Seq<char>) -> bool {
    c.len() > 0 && c != seq!['.']
}

/// Reading `p` left to right: the last complete component that names
/// something so far, and the component being read.
pub open spec fn component_scan(p: Seq<char>) -> (Option<Seq<char>>, Seq<char>)
    decreases p.len(),
{
    if p.len() == 0 {
        (None, Seq::empty())
    } else {
        let (last, cur) = component_scan(p.drop_last());
        if p.last() == '/' {
            (if named_component(cur) { Some(cur) } else { last }, Seq::empty())
        } else {
            (last, cur.push(p.last()))
        }
    }
}

/// The file name of `p` (`Path::file_name`): its last component, skipping
/// empty and `.` components; none when that component is `..` or there is
/// none.
pub open spec fn file_name_spec(p: Seq<char>) -> Option<Seq<char>> {
    let (last, cur) = component_scan(p);
    let name = if named_component(cur) { Some(cur) } else { last };
    match name {
        Some(n) => if n == seq!['.', '.'] { None } else { Some(n) },
        None => None,
    }
}

/// `k` is the last `.` of `n`.
pub open spec fn last_dot(n: Seq<char>, k: int) -> bool {
    &&& 0 <= k < n.len()
    &&& n[k] == '.'
    &&& forall|j: int| k < j < n.len() ==> n[j] != '.'
}

/// The stem of a file name: before its last `.`, unless that `.` opens the
/// name.
pub open spec fn stem_of_name(n: Seq<char>) -> Seq<char> {
    if exists|k: int| last_dot(n, k) && k > 0 {
        n.take(choose|k: int| last_dot(n, k) && k > 0)
    } else {
        n
    }
}

/// The file stem of the path `p` (`Path::file_stem`), or `p` itself when it
/// has no file name.
pub open spec fn file_stem_spec(p: Seq<char>) -> Seq<char> {
    match file_name_spec(p) {
        Some(n) => stem_of_name(n),
        None => p,
    }
}

/// Where the file name of `p` lies, if it has one (see `file_name_spec`).
fn file_name_range(p: &[char]) -> (r: Option<(usize, usize)>)
    ensures
        match r {
            Some((a, b)) => a <= b <= p@.len() && file_name_spec(p@) == Some(p@.subrange(a as int, b as int)),
            None => file_name_spec(p@) is None,
        },
{
    let n = p.len();
    let mut last: Option<(usize, usize)> = None;
    let mut cs: usize = 0;
    let mut i: usize = 0;
    while i < n
        invariant
            n == p@.len(),
            cs <= i <= n,
            match last {
                Some((a, b)) => a <= b <= n && component_scan(p@.take(i as int)).0 == Some(
                    p@.subrange(a as int, b as int),
                ),
                None => component_scan(p@.take(i as int)).0 is None,
            },
            component_scan(p@.take(i as int)).1 == p@.subrange(cs as int, i as int),
        decreases n - i,
    {
        proof {
            assert(p@.take(i + 1).drop_last() =~= p@.take(i as int));
            assert(p@.take(i + 1).last() == p@[i as int]);
        }
        if p[i] == '/' {
            let keep = names_something(p, cs, i);
            if keep {
                last = Some((cs, i));
            }
            cs = i + 1;
            proof {
                assert(p@.subrange(cs as int, i + 1) =~= Seq::<char>::empty());
            }
        } else {
            proof {
                assert(p@.subrange(cs as int, i + 1) =~= p@.subrange(cs as int, i as int).push(p@[i as int]));
            }
        }
        i += 1;
    }
    assert(p@.take(n as int) =~= p@);
    let cur_named = names_something(p, cs, n);
    let name: Option<(usize, usize)> = if cur_named {
        Some((cs, n))
    } else {
        last
    };
    proof {
        let sc = component_scan(p@);
        assert(sc.1 == p@.subrange(cs as int, n as int));
        let sname = if named_component(sc.1) { Some(sc.1) } else { sc.0 };
        match name {
            Some((a, b)) => {
                assert(sname == Some(p@.subrange(a as int, b as int)));
            },
            None => {
                assert(sname is None);
            },
        }
    }
    match name {
        None => None,
        Some((a, b)) => {
            let ghost nm = p@.subrange(a as int, b as int);
            if b - a == 2 && p[a] == '.' && p[a + 1] == '.' {
                assert(nm =~= seq!['.', '.']);
                None
            } else {
                proof {
                    if nm == seq!['.', '.'] {
                        assert(nm.len() == 2);
                        assert(nm[0] == p@[a as int]);
                        assert(nm[1] == p@[a + 1]);
                    }
                }
                Some((a, b))
            }
        },
    }
}

/// Does `p[a..b]` name something (see `named_component`)?
fn names_something(p: &[char], a: usize, b: usize) -> (r: bool)
    requires
        a <= b <= p@.len(),
    ensures
        r == named_component(p@.subrange(a as int, b as int)),
{
    let cur = Ghost(p@.subrange(a as int, b as int));
    if b - a == 1 {
        proof {
            if p@[a as int] == '.' {
                assert(cur@ =~= seq!['.']);
            }
            if cur@ == seq!['.'] {
                assert(cur@[0] == p@[a as int]);
            }
        }
        p[a] != '.'
    } else {
        proof {
            if b - a > 1 {
                assert(cur@.len() != 1);
            }
        }
        b > a
    }
}

/// The end of the stem of the file name `p[a..b]` (see `stem_of_name`).
fn stem_end(p: &[char], a: usize, b: usize) -> (r: usize)
    requires
        a <= b <= p@.len(),
    ensures
        a <= r <= b,
        p@.subrange(a as int, r as int) == stem_of_name(p@.subrange(a as int, b as int)),
{
    let ghost nm = p@.subrange(a as int, b as int);
    let mut k = b;
    while k > a && p[k - 1] != '.'
        invariant
            a <= k <= b <= p@.len(),
            forall|j: int| k <= j < b ==> p@[j] != '.',
        decreases k,
    {
        k -= 1;
    }
    if k - a > 1 {
        proof {
            let d = k - 1 - a;
            assert(last_dot(nm, d));
            let c = choose|c: int| last_dot(nm, c) && c > 0;
            if c < d {
                assert(nm[d] == p@[k - 1]);
            } else if c > d {
                assert(nm[c] == p@[a + c]);
            }
            assert(nm.take(d) =~= p@.subrange(a as int, k - 1));
        }
        k - 1
    } else {
        proof {
            if exists|c: int| last_dot(nm, c) && c > 0 {
                let c = choose|c: int| last_dot(nm, c) && c > 0;
                assert(nm[c] == p@[a + c]);
            }
        }
        b
    }
}

/// The file stem of a path: its last component without the extension, as
/// links and notes are compared (`note1.md`, `sub/note1` and `note1` all
/// have the stem `note1`); the path itself when it has no file name.
pub fn file_stem(path: &str) -> (r: String)
    ensures
        r@ == file_stem_spec(path@),
{
    let p = chars_of(path);
    match file_name_range(&p) {
        None => string_of(&p),
        Some((a, b)) => {
            let e = stem_end(&p, a, b);
            string_of(&p.as_slice()[a..e])
        },
    }
}

/// `s` from `i` on with every occurrence of `pat` replaced by `to`, found
/// left to right without overlap (`str::replace`, for a non-empty pattern).
pub open spec fn replace_from(s: Seq<char>, pat: Seq<char>, to: Seq<char>, i: int) -> Seq<char>
    decreases s.len() - i,
{
    if pat.len() == 0 || i < 0 || i > s.len() {
        s.skip(i)
    } else {
        match find_from_spec(s, pat, i) {
            Some(j) => if i <= j && j + pat.len() <= s.len() {
                s.subrange(i, j) + to + replace_from(s, pat, to, j + pat.len())
            } else {
                s.skip(i)
            },
            None => s.skip(i),
        }
    }
}

/// `s` with every occurrence of the non-empty `pat` replaced by `to`.
pub fn replace_text(s: &[char], pat: &[char], to: &[char]) -> (r: Vec<char>)
    requires
        pat@.len() > 0,
    ensures
        r@ == replace_from(s@, pat@, to@, 0),
{
    let n = s.len();
    let mut out: Vec<char> = Vec::new();
    let mut i: usize = 0;
    loop
        invariant
            i <= n == s@.len(),
            pat@.len() > 0,
            out@ + replace_from(s@, pat@, to@, i as int) == replace_from(s@, pat@, to@, 0),
        decreases n - i,
    {
        match find_from(s, i, pat) {
            Some(j) => {
                let ghost before = out@;
                push_range(&mut out, s, i, j);
                push_all(&mut out, to);
                proof {
                    assert(is_first_occurrence(s@, pat@, i as int, j as int));
                    assert(out@ + replace_from(s@, pat@, to@, j + pat@.len()) =~= before
                        + replace_from(s@, pat@, to@, i as int));
                }
                i = j + pat.len();
            },
            None => {
                push_range(&mut out, s, i, n);
                assert(s@.skip(i as int) =~= s@.subrange(i as int, n as int));
                return out;
            },
        }
    }
}

/// The text of a link to `target` that shows `alias`, if any.
pub open spec fn link_text(target: Seq<char>, alias: Option<Seq<char>>) -> Seq<char> {
    match alias {
        Some(a) => seq!['[', '['] + target + seq!['|'] + a + seq![']', ']'],
        None => seq!['[', '['] + target + seq![']', ']'],
    }
}

pub open spec fn alias_view(a: Option<String>) -> Option<Seq<char>> {
    match a {
        Some(s) => Some(s@),
        None => None,
    }
}

/// The note text after its links whose target has the stem `old_stem` are
/// pointed at `new_target` (each link's text replaced everywhere, alias
/// kept), and whether any link was.
pub open spec fn relink_spec(
    content: Seq<char>,
    links: Seq<Wikilink>,
    old_stem: Seq<char>,
    new_target: Seq<char>,
) -> (Seq<char>, bool)
    decreases links.len(),
{
    if links.len() == 0 {
        (content, false)
    } else {
        let (c, changed) = relink_spec(content, links.drop_last(), old_stem, new_target);
        let l = links.last();
        if file_stem_spec(l.target@) == old_stem {
            (replace_from(c, l.raw@, link_text(new_target, alias_view(l.alias)), 0), true)
        } else {
            (c, changed)
        }
    }
}

/// Points the links of a note at a renamed note: the links whose target has
/// the file stem `old_stem` get `new_target` (see `relink_spec`).
pub fn relinked_content(
    content: &str,
    links: &Vec<Wikilink>,
    old_stem: &str,
    new_target: &str,
) -> (r: (String, bool))
    requires
        forall|i: int| 0 <= i < links@.len() ==> (#[trigger] links@[i]).raw@.len() > 0,
    ensures
        (r.0@, r.1) == relink_spec(content@, links@, old_stem@, new_target@),
{
    let mut text = chars_of(content);
    let mut changed = false;
    let old = chars_of(old_stem);
    let tgt = chars_of(new_target);
    let mut i: usize = 0;
    while i < links.len()
        invariant
            i <= links@.len(),
            old@ == old_stem@,
            tgt@ == new_target@,
            forall|m: int| 0 <= m < links@.len() ==> (#[trigger] links@[m]).raw@.len() > 0,
            (text@, changed) == relink_spec(content@, links@.take(i as int), old_stem@, new_target@),
        decreases links@.len() - i,
    {
        proof {
            assert(links@.take(i + 1).drop_last() =~= links@.take(i as int));
            assert(links@.take(i + 1).last() == links@[i as int]);
        }
        let stem = file_stem(links[i].target.as_str());
        if chars_eq(&chars_of(stem.as_str()), &old) {
            let mut rep: Vec<char> = Vec::new();
            push_all(&mut rep, &['[', '[']);
            push_all(&mut rep, &tgt);
            match &links[i].alias {
                Some(a) => {
                    rep.push('|');
                    push_all(&mut rep, &chars_of(a.as_str()));
                },
                None => {},
            }
            push_all(&mut rep, &[']', ']']);
            assert(rep@ =~= link_text(new_target@, alias_view(links@[i as int].alias)));
            let raw = chars_of(links[i].raw.as_str());
            text = replace_text(&text, &raw, &rep);
            changed = true;
        }
        i += 1;
    }
    assert(links@.take(links@.len() as int) =~= links@);
    (string_of(&text), changed)
}

/// Some link target has the file stem `stem`: how `backlinks` finds the
/// notes that link to a note, comparing stems rather than whole paths, so
/// that `[[note1]]`, `[[note1.md]]` and `[[sub/note1]]` all link to `note1`.
pub fn links_to(targets: &Vec<String>, stem: &str) -> (r: bool)
    ensures
        r == exists|i: int| 0 <= i < targets@.len() && file_stem_spec(#[trigger] targets@[i]@) == stem@,
{
    let s = chars_of(stem);
    let mut i: usize = 0;
    while i < targets.len()
        invariant
            i <= targets@.len(),
            s@ == stem@,
            forall|k: int| 0 <= k < i ==> file_stem_spec(#[trigger] targets@[k]@) != stem@,
        decreases targets@.len() - i,
    {
        let t = file_stem(targets[i].as_str());
        if chars_eq(&chars_of(t.as_str()), &s) {
            return true;
        }
        i += 1;
    }
    false
}

/// The notes that nothing links to: of the note paths, in order, those
/// whose file stem is the file stem of no link target.
pub open spec fn orphans_spec(notes: Seq<String>, targets: Seq<String>) -> Seq<Seq<char>>
    decreases notes.len(),
{
    if notes.len() == 0 {
        Seq::empty()
    } else {
        let rest = orphans_spec(notes.drop_last(), targets);
        if exists|i: int|
            0 <= i < targets.len() && file_stem_spec(#[trigger] targets[i]@) == file_stem_spec(
                notes.last()@,
            ) {
            rest
        } else {
            rest.push(notes.last()@)
        }
    }
}

/// The paths of the notes that no link points at (`find_orphan_notes`):
/// `notes` are the notes' paths, `targets` the targets of every link in the
/// vault.
pub fn orphan_notes(notes: &Vec<String>, targets: &Vec<String>) -> (r: Vec<String>)
    ensures
        strings_view(r@) == orphans_spec(notes@, targets@),
{
    let mut out: Vec<String> = Vec::new();
    let mut i: usize = 0;
    while i < notes.len()
        invariant
            i <= notes@.len(),
            strings_view(out@) == orphans_spec(notes@.take(i as int), targets@),
        decreases notes@.len() - i,
    {
        proof {
            assert(notes@.take(i + 1).drop_last() =~= notes@.take(i as int));
            assert(notes@.take(i + 1).last() == notes@[i as int]);
        }
        let stem = file_stem(notes[i].as_str());
        if !links_to(targets, stem.as_str()) {
            let ghost before = out@;
            out.push(notes[i].clone());
            assert(strings_view(out@) =~= strings_view(before).push(notes@[i as int]@));
        }
        i += 1;
    }
    assert(notes@.take(notes@.len() as int) =~= notes@);
    out
}

} // verus!
