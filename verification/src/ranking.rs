//! Counting words and ranking them by count, most frequent first, ties in
//! alphabetical order.

use vstd::prelude::*;
use crate::parse::tags::strings_view;

verus! {

/// `a` sorts before `b` as `String`s do: code point by code point, a proper
/// prefix first.
pub open spec fn lex_lt(a: Seq<char>, b: Seq<char>) -> bool
    decreases a.len(),
{
    if a.len() == 0 {
        b.len() > 0
    } else if b.len() == 0 {
        false
    } else if (a[0] as u32) < (b[0] as u32) {
        true
    } else if a[0] == b[0] {
        lex_lt(a.drop_first(), b.drop_first())
    } else {
        false
    }
}

pub proof fn lemma_lex_irreflexive(a: Seq<char>)
    ensures
        !lex_lt(a, a),
    decreases a.len(),
{
    if a.len() > 0 {
        lemma_lex_irreflexive(a.drop_first());
    }
}

pub proof fn lemma_lex_transitive(a: Seq<char>, b: Seq<char>, c: Seq<char>)
    requires
        lex_lt(a, b),
        lex_lt(b, c),
    ensures
        lex_lt(a, c),
    decreases a.len(),
{
    if a.len() > 0 && b.len() > 0 && c.len() > 0 {
        if a[0] == b[0] && b[0] == c[0] {
            lemma_lex_transitive(a.drop_first(), b.drop_first(), c.drop_first());
        }
    }
}

pub proof fn lemma_lex_total(a: Seq<char>, b: Seq<char>)
    requires
        a != b,
    ensures
        lex_lt(a, b) || lex_lt(b, a),
    decreases a.len(),
{
    if a.len() == 0 {
        assert(b.len() > 0) by {
            if b.len() == 0 {
                assert(a =~= b);
            }
        }
    } else if b.len() > 0 {
        if a[0] == b[0] {
            if a.drop_first() == b.drop_first() {
                assert(a.len() == b.len()) by {
                    assert(a.drop_first().len() == b.drop_first().len());
                }
                assert(a =~= b) by {
                    assert forall|i: int| 0 <= i < a.len() implies a[i] == b[i] by {
                        if i > 0 {
                            assert(a[i] == a.drop_first()[i - 1]);
                            assert(b[i] == b.drop_first()[i - 1]);
                        }
                    }
                }
            }
            lemma_lex_total(a.drop_first(), b.drop_first());
        } else {
            assert((a[0] as u32) != (b[0] as u32)) by {
                vstd::utf8::char_u32_cast(a[0], a[0] as u32);
                vstd::utf8::char_u32_cast(b[0], b[0] as u32);
            }
        }
    }
}

proof fn lemma_lex_skip(a: Seq<char>, b: Seq<char>, i: int)
    requires
        0 <= i <= a.len(),
        i <= b.len(),
        a.take(i) == b.take(i),
    ensures
        lex_lt(a, b) == lex_lt(a.skip(i), b.skip(i)),
    decreases i,
{
    if i > 0 {
        assert(a[0] == a.take(i)[0]);
        assert(b[0] == b.take(i)[0]);
        assert(a.drop_first().take(i - 1) =~= a.take(i).drop_first());
        assert(b.drop_first().take(i - 1) =~= b.take(i).drop_first());
        lemma_lex_skip(a.drop_first(), b.drop_first(), i - 1);
        assert(a.drop_first().skip(i - 1) =~= a.skip(i));
        assert(b.drop_first().skip(i - 1) =~= b.skip(i));
    } else {
        assert(a.skip(0) =~= a);
        assert(b.skip(0) =~= b);
    }
}

/// Does `a` sort before `b` (see `lex_lt`)?
pub fn lex_less(a: &[char], b: &[char]) -> (r: bool)
    ensures
        r == lex_lt(a@, b@),
{
    let mut i: usize = 0;
    while i < a.len() && i < b.len() && a[i] == b[i]
        invariant
            i <= a@.len(),
            i <= b@.len(),
            a@.take(i as int) == b@.take(i as int),
        decreases a@.len() - i,
    {
        assert(a@.take(i + 1) =~= a@.take(i as int).push(a@[i as int]));
        assert(b@.take(i + 1) =~= b@.take(i as int).push(b@[i as int]));
        i += 1;
    }
    proof {
        lemma_lex_skip(a@, b@, i as int);
    }
    if i == a.len() {
        i < b.len()
    } else if i == b.len() {
        false
    } else {
        let x = a[i];
        let y = b[i];
        proof {
            assert(a@.skip(i as int)[0] == x);
            assert(b@.skip(i as int)[0] == y);
        }
        (x as u32) < (y as u32)
    }
}

/// `x` ranks before `y`: a higher count, or the same count and a word that
/// sorts first.
pub open spec fn ranks_before(x: (Seq<char>, int), y: (Seq<char>, int)) -> bool {
    x.1 > y.1 || (x.1 == y.1 && lex_lt(x.0, y.0))
}

pub proof fn lemma_ranks_transitive(x: (Seq<char>, int), y: (Seq<char>, int), z: (Seq<char>, int))
    requires
        ranks_before(x, y),
        ranks_before(y, z),
    ensures
        ranks_before(x, z),
{
    if x.1 == y.1 && y.1 == z.1 {
        lemma_lex_transitive(x.0, y.0, z.0);
    }
}

pub proof fn lemma_ranks_total(x: (Seq<char>, int), y: (Seq<char>, int))
    requires
        x.0 != y.0,
    ensures
        ranks_before(x, y) || ranks_before(y, x),
{
    lemma_lex_total(x.0, y.0);
}

pub proof fn lemma_ranks_irreflexive(x: (Seq<char>, int), y: (Seq<char>, int))
    requires
        ranks_before(x, y),
    ensures
        !ranks_before(y, x),
{
    if x.1 == y.1 && lex_lt(y.0, x.0) {
        lemma_lex_transitive(x.0, y.0, x.0);
        lemma_lex_irreflexive(x.0);
    }
}

pub open spec fn entries_view(v: Seq<(Vec<char>, usize)>) -> Seq<(Seq<char>, int)> {
    v.map_values(|e: (Vec<char>, usize)| (e.0@, e.1 as int))
}

/// No word occurs twice among the entries.
pub open spec fn words_distinct(ev: Seq<(Seq<char>, int)>) -> bool {
    forall|i: int, j: int| 0 <= i < j < ev.len() ==> ev[i].0 != ev[j].0
}

/// `r` lists indices of `ev`: the first `r.len()` entries in rank order.
pub open spec fn is_top_ranking(ev: Seq<(Seq<char>, int)>, r: Seq<usize>) -> bool {
    &&& forall|a: int| 0 <= a < r.len() ==> r[a] < ev.len()
    &&& r.no_duplicates()
    &&& forall|a: int, b: int| 0 <= a < b < r.len() ==> ranks_before(ev[r[a] as int], ev[r[b] as int])
    &&& forall|j: int, a: int|
        0 <= j < ev.len() && !r.contains(j as usize) && 0 <= a < r.len() ==> #[trigger] ranks_before(
            ev[r[a] as int],
            ev[j],
        )
}

/// The indices of the first `min(max, n)` entries in rank order.
pub fn rank_by_count(entries: &Vec<(Vec<char>, usize)>, max: usize) -> (r: Vec<usize>)
    requires
        words_distinct(entries_view(entries@)),
    ensures
        is_top_ranking(entries_view(entries@), r@),
        r@.len() == if max < entries@.len() {
            max as int
        } else {
            entries@.len() as int
        },
{
    let ghost ev = entries_view(entries@);
    let n = entries.len();
    let mut taken: Vec<bool> = Vec::new();
    let mut i: usize = 0;
    while i < n
        invariant
            i <= n == entries@.len(),
            taken@.len() == i,
            forall|k: int| 0 <= k < i ==> !taken@[k],
        decreases n - i,
    {
        taken.push(false);
        i += 1;
    }
    let mut res: Vec<usize> = Vec::new();
    proof {
        lemma_count_true_none(taken@);
    }
    while res.len() < max && res.len() < n
        invariant
            n == entries@.len(),
            ev == entries_view(entries@),
            words_distinct(ev),
            taken@.len() == n,
            res@.len() <= n,
            res@.len() <= max,
            forall|k: int| 0 <= k < n ==> (taken@[k] <==> res@.contains(k as usize)),
            count_true(taken@) == res@.len(),
            is_top_ranking(ev, res@),
        decreases n - res@.len(),
    {
        // Some entry is still free: fewer taken than entries.
        let mut best: usize = n;
        let mut j: usize = 0;
        while j < n
            invariant
                n == entries@.len(),
                ev == entries_view(entries@),
                taken@.len() == n,
                j <= n,
                best == n || (best < j && !taken@[best as int]),
                best == n ==> forall|k: int| 0 <= k < j ==> taken@[k],
                best < n ==> forall|k: int|
                    0 <= k < j && !taken@[k] ==> !ranks_before(ev[k], ev[best as int]),
            decreases n - j,
        {
            if !taken[j] {
                if best == n {
                    best = j;
                    proof {
                        lemma_ranks_irreflexive_self(ev[j as int]);
                    }
                } else {
                    let a = &entries[j];
                    let b = &entries[best];
                    assert(ev[j as int] == (a.0@, a.1 as int));
                    assert(ev[best as int] == (b.0@, b.1 as int));
                    if a.1 > b.1 || (a.1 == b.1 && lex_less(a.0.as_slice(), b.0.as_slice())) {
                        proof {
                            let old_best = best as int;
                            assert forall|k: int|
                                0 <= k < j + 1 && !taken@[k] implies !ranks_before(
                                ev[k],
                                ev[j as int],
                            ) by {
                                if k == j {
                                    lemma_ranks_irreflexive_self(ev[j as int]);
                                } else if ranks_before(ev[k], ev[j as int]) {
                                    lemma_ranks_transitive(ev[k], ev[j as int], ev[old_best]);
                                }
                            }
                        }
                        best = j;
                    }
                }
            }
            j += 1;
        }
        proof {
            if best == n {
                lemma_count_true_all(taken@);
            }
        }
        let ghost old_res = res@;
        proof {
            lemma_count_true_set(taken@, best as int);
        }
        res.push(best);
        taken.set(best, true);
        proof {
            assert forall|k: int| 0 <= k < n && !taken@[k] implies ranks_before(
                ev[best as int],
                ev[k],
            ) by {
                assert(k != best);
                assert(!ranks_before(ev[k], ev[best as int]));
                assert(ev[k].0 != ev[best as int].0) by {
                    if k < best {
                        assert(ev[k].0 != ev[best as int].0);
                    } else {
                        assert(ev[best as int].0 != ev[k].0);
                    }
                }
                lemma_ranks_total(ev[k], ev[best as int]);
            }
            assert forall|k: int| 0 <= k < n implies (taken@[k] <==> res@.contains(
                k as usize,
            )) by {
                if k == best {
                    assert(res@[res@.len() - 1] == best);
                } else {
                    if old_res.contains(k as usize) {
                        let a = choose|a: int| 0 <= a < old_res.len() && old_res[a] == k as usize;
                        assert(res@[a] == k as usize);
                    }
                    if res@.contains(k as usize) {
                        let a = choose|a: int| 0 <= a < res@.len() && res@[a] == k as usize;
                        assert(a < old_res.len());
                        assert(old_res[a] == k as usize);
                    }
                }
            }
            assert(!old_res.contains(best));
            assert(res@.no_duplicates()) by {
                assert forall|a: int, b: int|
                    0 <= a < res@.len() && 0 <= b < res@.len() && a != b implies res@[a]
                    != res@[b] by {
                    if a == old_res.len() {
                        assert(old_res.contains(res@[b]));
                    } else if b == old_res.len() {
                        assert(old_res.contains(res@[a]));
                    } else {
                        assert(old_res[a] != old_res[b]);
                    }
                }
            }
            assert forall|a: int, b: int| 0 <= a < b < res@.len() implies ranks_before(
                ev[res@[a] as int],
                ev[res@[b] as int],
            ) by {
                if b == old_res.len() {
                    assert(!old_res.contains(best));
                    assert(!taken@[best as int] || true);
                }
            }
            assert forall|j2: int, a: int|
                0 <= j2 < ev.len() && !res@.contains(j2 as usize) && 0 <= a < res@.len()
                    implies #[trigger] ranks_before(ev[res@[a] as int], ev[j2]) by {
                assert(!taken@[j2]);
                if a < old_res.len() {
                    assert(!old_res.contains(j2 as usize)) by {
                        if old_res.contains(j2 as usize) {
                            let c = choose|c: int|
                                0 <= c < old_res.len() && old_res[c] == j2 as usize;
                            assert(res@[c] == j2 as usize);
                        }
                    }
                }
            }
        }
    }
    res
}

proof fn lemma_ranks_irreflexive_self(x: (Seq<char>, int))
    ensures
        !ranks_before(x, x),
{
    lemma_lex_irreflexive(x.0);
}

/// The number of `true` entries.
pub open spec fn count_true(s: Seq<bool>) -> nat
    decreases s.len(),
{
    if s.len() == 0 {
        0
    } else {
        count_true(s.drop_last()) + if s.last() {
            1nat
        } else {
            0nat
        }
    }
}

pub(crate) proof fn lemma_count_true_all(s: Seq<bool>)
    requires
        forall|k: int| 0 <= k < s.len() ==> s[k],
    ensures
        count_true(s) == s.len(),
    decreases s.len(),
{
    if s.len() > 0 {
        lemma_count_true_all(s.drop_last());
    }
}

pub(crate) proof fn lemma_count_true_none(s: Seq<bool>)
    requires
        forall|k: int| 0 <= k < s.len() ==> !s[k],
    ensures
        count_true(s) == 0,
    decreases s.len(),
{
    if s.len() > 0 {
        lemma_count_true_none(s.drop_last());
    }
}

pub(crate) proof fn lemma_count_true_set(s: Seq<bool>, i: int)
    requires
        0 <= i < s.len(),
        !s[i],
    ensures
        count_true(s.update(i, true)) == count_true(s) + 1,
    decreases s.len(),
{
    let t = s.update(i, true);
    if i == s.len() - 1 {
        assert(t.drop_last() =~= s.drop_last());
    } else {
        assert(t.drop_last() =~= s.drop_last().update(i, true));
        lemma_count_true_set(s.drop_last(), i);
    }
}

/// How often `w` occurs in `ws`.
pub open spec fn count_of(ws: Seq<Seq<char>>, w: Seq<char>) -> int {
    ws.filter(eq_pred(w)).len() as int
}

pub open spec fn eq_pred(w: Seq<char>) -> spec_fn(Seq<char>) -> bool {
    |x: Seq<char>| x == w
}

/// `ev` counts the words of `ws`: one entry per distinct word, with its
/// number of occurrences.
pub open spec fn counts_words(ev: Seq<(Seq<char>, int)>, ws: Seq<Seq<char>>) -> bool {
    &&& words_distinct(ev)
    &&& forall|k: int| 0 <= k < ev.len() ==> #[trigger] ev[k].1 == count_of(ws, ev[k].0)
    &&& forall|w: Seq<char>| #[trigger] ws.contains(w) <==> exists|k: int| 0 <= k < ev.len() && ev[k].0 == w
}

proof fn lemma_count_push(ws: Seq<Seq<char>>, w: Seq<char>, x: Seq<char>)
    ensures
        count_of(ws.push(w), x) == count_of(ws, x) + if w == x {
            1int
        } else {
            0int
        },
        count_of(ws, x) <= ws.len(),
{
    ws.lemma_filter_push(w, eq_pred(x));
    ws.lemma_filter_len(eq_pred(x));
}

/// Counts one more occurrence of `w`.
pub(crate) fn add_word(entries: &mut Vec<(Vec<char>, usize)>, w: Vec<char>, Ghost(ws): Ghost<Seq<Seq<char>>>)
    requires
        counts_words(entries_view(old(entries)@), ws),
        ws.len() < usize::MAX,
    ensures
        counts_words(entries_view(final(entries)@), ws.push(w@)),
{
    let ghost old_ev = entries_view(entries@);
    let mut k: usize = 0;
    while k < entries.len()
        invariant
            k <= entries@.len(),
            entries@ == old(entries)@,
            old_ev == entries_view(entries@),
            counts_words(old_ev, ws),
            ws.len() < usize::MAX,
            forall|j: int| 0 <= j < k ==> old_ev[j].0 != w@,
        decreases entries@.len() - k,
    {
        if crate::text::chars_eq(entries[k].0.as_slice(), w.as_slice()) {
            assert(old_ev[k as int] == (entries@[k as int].0@, entries@[k as int].1 as int));
            proof {
                lemma_count_push(ws, w@, w@);
                assert(old_ev[k as int].1 == count_of(ws, old_ev[k as int].0));
            }
            let c = entries[k].1;
            let word = entries[k].0.clone();
            entries.set(k, (word, c + 1));
            proof {
                let ev = entries_view(entries@);
                assert(ev =~= old_ev.update(k as int, (w@, c + 1)));
                assert forall|j: int| 0 <= j < ev.len() implies #[trigger] ev[j].1 == count_of(
                    ws.push(w@),
                    ev[j].0,
                ) by {
                    lemma_count_push(ws, w@, ev[j].0);
                    assert(old_ev[j].1 == count_of(ws, old_ev[j].0));
                    if j != k {
                        if j < k {
                            assert(old_ev[j].0 != old_ev[k as int].0);
                        } else {
                            assert(old_ev[k as int].0 != old_ev[j].0);
                        }
                        assert(ev[j] == old_ev[j]);
                    }
                }
                assert forall|x: Seq<char>| #[trigger] ws.push(w@).contains(x) <==> exists|j: int|
                    0 <= j < ev.len() && ev[j].0 == x by {
                    if ws.push(w@).contains(x) {
                        let i = choose|i: int| 0 <= i < ws.len() + 1 && ws.push(w@)[i] == x;
                        if i < ws.len() {
                            assert(ws[i] == x);
                            assert(ws.contains(x));
                            let j = choose|j: int| 0 <= j < old_ev.len() && old_ev[j].0 == x;
                            if j == k {
                                assert(ev[k as int].0 == x);
                            } else {
                                assert(ev[j].0 == x);
                            }
                        } else {
                            assert(ev[k as int].0 == x);
                        }
                    }
                    if exists|j: int| 0 <= j < ev.len() && ev[j].0 == x {
                        let j = choose|j: int| 0 <= j < ev.len() && ev[j].0 == x;
                        if j == k {
                            assert(ws.push(w@)[ws.len() as int] == x);
                        } else {
                            assert(old_ev[j].0 == x);
                            assert(ws.contains(x));
                            let i = choose|i: int| 0 <= i < ws.len() && ws[i] == x;
                            assert(ws.push(w@)[i] == x);
                        }
                    }
                }
            }
            return;
        }
        k += 1;
    }
    proof {
        lemma_count_push(ws, w@, w@);
        assert(!ws.contains(w@));
        assert(count_of(ws, w@) == 0) by {
            if count_of(ws, w@) > 0 {
                let f = ws.filter(eq_pred(w@));
                ws.lemma_filter_pred(eq_pred(w@), 0);
                ws.lemma_filter_contains_rev(eq_pred(w@), f[0]);
                assert(f.contains(f[0]));
            }
        }
    }
    let ghost wv = w@;
    entries.push((w, 1));
    proof {
        let ev = entries_view(entries@);
        assert(ev =~= old_ev.push((wv, 1)));
        assert forall|j: int| 0 <= j < ev.len() implies #[trigger] ev[j].1 == count_of(
            ws.push(wv),
            ev[j].0,
        ) by {
            lemma_count_push(ws, wv, ev[j].0);
        }
        assert forall|x: Seq<char>| #[trigger] ws.push(wv).contains(x) <==> exists|j: int|
            0 <= j < ev.len() && ev[j].0 == x by {
            if ws.push(wv).contains(x) {
                let i = choose|i: int| 0 <= i < ws.len() + 1 && ws.push(wv)[i] == x;
                if i < ws.len() {
                    assert(ws[i] == x);
                    assert(ws.contains(x));
                    let j = choose|j: int| 0 <= j < old_ev.len() && old_ev[j].0 == x;
                    assert(ev[j].0 == x);
                } else {
                    assert(ev[old_ev.len() as int].0 == x);
                }
            }
            if exists|j: int| 0 <= j < ev.len() && ev[j].0 == x {
                let j = choose|j: int| 0 <= j < ev.len() && ev[j].0 == x;
                if j == old_ev.len() {
                    assert(ws.push(wv)[ws.len() as int] == x);
                } else {
                    assert(old_ev[j].0 == x);
                    assert(ws.contains(x));
                    let i = choose|i: int| 0 <= i < ws.len() && ws[i] == x;
                    assert(ws.push(wv)[i] == x);
                }
            }
        }
        assert(words_distinct(ev)) by {
            assert forall|i: int, j: int| 0 <= i < j < ev.len() implies ev[i].0 != ev[j].0 by {
                if j == old_ev.len() {
                    if ev[i].0 == wv {
                        assert(ws.contains(wv));
                    }
                }
            }
        }
    }
}

/// `r` holds the `max` (or all, if fewer) most frequent words of `ws`, most
/// frequent first and ties in alphabetical order.
pub open spec fn is_top_words(ws: Seq<Seq<char>>, r: Seq<Seq<char>>, max: int) -> bool {
    &&& r.no_duplicates()
    &&& forall|a: int| 0 <= a < r.len() ==> ws.contains(#[trigger] r[a])
    &&& forall|a: int, b: int|
        0 <= a < b < r.len() ==> ranks_before(
            (r[a], count_of(ws, r[a])),
            (r[b], count_of(ws, r[b])),
        )
    &&& forall|w: Seq<char>, a: int|
        ws.contains(w) && !r.contains(w) && 0 <= a < r.len() ==> #[trigger] ranks_before(
            (r[a], count_of(ws, r[a])),
            (w, count_of(ws, w)),
        )
    &&& r.len() == if max < ws.to_set().len() {
        max
    } else {
        ws.to_set().len() as int
    }
}

/// The words of `ev` name the same set as `ws` and are distinct, so there
/// are as many entries as distinct words.
pub(crate) proof fn lemma_entry_count(ev: Seq<(Seq<char>, int)>, ws: Seq<Seq<char>>)
    requires
        counts_words(ev, ws),
    ensures
        ev.len() == ws.to_set().len(),
{
    let words = ev.map_values(|e: (Seq<char>, int)| e.0);
    assert(words.no_duplicates()) by {
        assert forall|i: int, j: int|
            0 <= i < words.len() && 0 <= j < words.len() && i != j implies words[i] != words[j] by {
            if i < j {
                assert(ev[i].0 != ev[j].0);
            } else {
                assert(ev[j].0 != ev[i].0);
            }
        }
    }
    words.unique_seq_to_set();
    assert(words.to_set() =~= ws.to_set()) by {
        assert forall|w: Seq<char>| words.to_set().contains(w) implies ws.to_set().contains(w) by {
            let i = choose|i: int| 0 <= i < words.len() && words[i] == w;
            assert(ev[i].0 == w);
            assert(ws.contains(w));
        }
        assert forall|w: Seq<char>| ws.to_set().contains(w) implies words.to_set().contains(w) by {
            assert(ws.contains(w));
            let k = choose|k: int| 0 <= k < ev.len() && ev[k].0 == w;
            assert(words[k] == w);
        }
    }
}

/// The entries ranked: the first `min(max, n)` of them in rank order, each
/// word with its count.
pub(crate) fn top_counted(entries: &Vec<(Vec<char>, usize)>, max: usize, Ghost(ws): Ghost<Seq<Seq<char>>>) -> (r: Vec<(String, usize)>)
    requires
        counts_words(entries_view(entries@), ws),
    ensures
        is_top_words(ws, r@.map_values(|e: (String, usize)| e.0@), max as int),
        forall|a: int| 0 <= a < r@.len() ==> #[trigger] r@[a].1 == count_of(ws, r@[a].0@),
{
    let ghost ev = entries_view(entries@);
    let n_entries = entries.len();
    let idx = rank_by_count(entries, max);
    let mut out: Vec<(String, usize)> = Vec::new();
    let mut a: usize = 0;
    while a < idx.len()
        invariant
            a <= idx@.len(),
            ev == entries_view(entries@),
            forall|b: int| 0 <= b < idx@.len() ==> idx@[b] < entries@.len(),
            out@.map_values(|e: (String, usize)| (e.0@, e.1 as int)) == idx@.take(a as int).map_values(
                |i: usize| ev[i as int],
            ),
        decreases idx@.len() - a,
    {
        let i = idx[a];
        let ghost before = out@;
        out.push((crate::text::string_of(entries[i].0.as_slice()), entries[i].1));
        proof {
            assert(ev[i as int] == (entries@[i as int].0@, entries@[i as int].1 as int));
            assert(out@.map_values(|e: (String, usize)| (e.0@, e.1 as int)) =~= before.map_values(
                |e: (String, usize)| (e.0@, e.1 as int),
            ).push(ev[i as int]));
            assert(idx@.take(a + 1) =~= idx@.take(a as int).push(i));
            assert(idx@.take(a + 1).map_values(|i: usize| ev[i as int]) =~= idx@.take(
                a as int,
            ).map_values(|i: usize| ev[i as int]).push(ev[i as int]));
        }
        a += 1;
    }
    proof {
        assert(idx@.take(idx@.len() as int) =~= idx@);
        let ov = out@.map_values(|e: (String, usize)| (e.0@, e.1 as int));
        let r = out@.map_values(|e: (String, usize)| e.0@);
        let rr = idx@;
        assert(ov =~= rr.map_values(|i: usize| ev[i as int]));
        assert(ov.len() == rr.len() && r.len() == rr.len() && out@.len() == rr.len());
        assert forall|a: int| 0 <= a < r.len() implies r[a] == ev[rr[a] as int].0 by {
            assert(ov[a] == ev[rr[a] as int]);
        }
        assert forall|a: int| 0 <= a < out@.len() implies #[trigger] out@[a].1 == count_of(ws, out@[a].0@) by {
            assert(ov[a] == ev[rr[a] as int]);
            assert(ov[a] == (out@[a].0@, out@[a].1 as int));
            assert(ev[rr[a] as int].1 == count_of(ws, ev[rr[a] as int].0));
        }
        lemma_entry_count(ev, ws);
        assert forall|a: int| 0 <= a < r.len() implies ws.contains(#[trigger] r[a]) by {
            assert(r[a] == ev[rr[a] as int].0);
            assert(ev[rr[a] as int].0 == ev[rr[a] as int].0);
        }
        assert(r.no_duplicates()) by {
            assert forall|a: int, b: int| 0 <= a < r.len() && 0 <= b < r.len() && a != b implies r[a]
                != r[b] by {
                assert(rr[a] != rr[b]);
                if rr[a] < rr[b] {
                    assert(ev[rr[a] as int].0 != ev[rr[b] as int].0);
                } else {
                    assert(ev[rr[b] as int].0 != ev[rr[a] as int].0);
                }
            }
        }
        assert forall|a: int, b: int| 0 <= a < b < r.len() implies ranks_before(
            (r[a], count_of(ws, r[a])),
            (r[b], count_of(ws, r[b])),
        ) by {
            assert(ev[rr[a] as int].1 == count_of(ws, ev[rr[a] as int].0));
            assert(ev[rr[b] as int].1 == count_of(ws, ev[rr[b] as int].0));
        }
        assert forall|w: Seq<char>, a: int|
            ws.contains(w) && !r.contains(w) && 0 <= a < r.len() implies #[trigger] ranks_before(
            (r[a], count_of(ws, r[a])),
            (w, count_of(ws, w)),
        ) by {
            let j = choose|j: int| 0 <= j < ev.len() && ev[j].0 == w;
            assert(ev.len() == entries@.len());
            assert(entries@.len() == n_entries);
            assert((j as usize) as int == j);
            if rr.contains(j as usize) {
                let c = choose|c: int| 0 <= c < rr.len() && rr[c] == j as usize;
                assert(r[c] == ev[rr[c] as int].0);
                assert(r[c] == w);
            }
            assert(ranks_before(ev[rr[a] as int], ev[j]));
            assert(ev[rr[a] as int].1 == count_of(ws, ev[rr[a] as int].0));
            assert(ev[j].1 == count_of(ws, ev[j].0));
        }
    }
    out
}

/// Entry `i` ranks before entry `j`: a higher score, or the same score and an
/// earlier place (the order a stable sort by descending score gives).
pub open spec fn score_before(s: Seq<i128>, i: int, j: int) -> bool {
    s[i] > s[j] || (s[i] == s[j] && i < j)
}

/// `r` lists the indices of the first `min(max, n)` scores, in the order of
/// a stable sort by descending score.
pub open spec fn is_top_scored(s: Seq<i128>, r: Seq<usize>, max: int) -> bool {
    &&& forall|a: int| 0 <= a < r.len() ==> r[a] < s.len()
    &&& r.no_duplicates()
    &&& forall|a: int, b: int| 0 <= a < b < r.len() ==> score_before(s, r[a] as int, r[b] as int)
    &&& forall|j: int, a: int|
        0 <= j < s.len() && !r.contains(j as usize) && 0 <= a < r.len() ==> #[trigger] score_before(
            s,
            r[a] as int,
            j,
        )
    &&& r.len() == if max < s.len() {
        max
    } else {
        s.len() as int
    }
}

/// The indices of the `max` highest keys (all, if fewer), highest first,
/// equal keys in the order they come: the first `max` places of a stable
/// sort by descending key.
pub fn rank_by_key(scores: &Vec<i128>, max: usize) -> (r: Vec<usize>)
    ensures
        is_top_scored(scores@, r@, max as int),
{
    let ghost s = scores@;
    let n = scores.len();
    let mut taken: Vec<bool> = Vec::new();
    let mut i: usize = 0;
    while i < n
        invariant
            i <= n == scores@.len(),
            taken@.len() == i,
            forall|k: int| 0 <= k < i ==> !taken@[k],
        decreases n - i,
    {
        taken.push(false);
        i += 1;
    }
    let mut res: Vec<usize> = Vec::new();
    proof {
        lemma_count_true_none(taken@);
    }
    while res.len() < max && res.len() < n
        invariant
            n == scores@.len(),
            s == scores@,
            taken@.len() == n,
            res@.len() <= n,
            res@.len() <= max,
            forall|k: int| 0 <= k < n ==> (taken@[k] <==> res@.contains(k as usize)),
            count_true(taken@) == res@.len(),
            forall|a: int| 0 <= a < res@.len() ==> res@[a] < n,
            res@.no_duplicates(),
            forall|a: int, b: int| 0 <= a < b < res@.len() ==> score_before(s, res@[a] as int, res@[b] as int),
            forall|j: int, a: int|
                0 <= j < n && !taken@[j] && 0 <= a < res@.len() ==> #[trigger] score_before(
                    s,
                    res@[a] as int,
                    j,
                ),
        decreases n - res@.len(),
    {
        let mut best: usize = n;
        let mut j: usize = 0;
        while j < n
            invariant
                n == scores@.len(),
                s == scores@,
                taken@.len() == n,
                j <= n,
                best == n || (best < j && !taken@[best as int]),
                best == n ==> forall|k: int| 0 <= k < j ==> taken@[k],
                best < n ==> forall|k: int|
                    0 <= k < j && !taken@[k] && k != best ==> score_before(s, best as int, k),
            decreases n - j,
        {
            if !taken[j] {
                if best == n || scores[j] > scores[best] {
                    best = j;
                }
            }
            j += 1;
        }
        proof {
            if best == n {
                lemma_count_true_all(taken@);
            }
        }
        let ghost old_res = res@;
        proof {
            lemma_count_true_set(taken@, best as int);
        }
        res.push(best);
        taken.set(best, true);
        proof {
            assert forall|k: int| 0 <= k < n implies (taken@[k] <==> res@.contains(
                k as usize,
            )) by {
                if k == best {
                    assert(res@[res@.len() - 1] == best);
                } else {
                    if old_res.contains(k as usize) {
                        let a = choose|a: int| 0 <= a < old_res.len() && old_res[a] == k as usize;
                        assert(res@[a] == k as usize);
                    }
                    if res@.contains(k as usize) {
                        let a = choose|a: int| 0 <= a < res@.len() && res@[a] == k as usize;
                        assert(a < old_res.len());
                        assert(old_res[a] == k as usize);
                    }
                }
            }
            assert(!old_res.contains(best));
            assert(res@.no_duplicates()) by {
                assert forall|a: int, b: int|
                    0 <= a < res@.len() && 0 <= b < res@.len() && a != b implies res@[a]
                    != res@[b] by {
                    if a == old_res.len() {
                        assert(old_res.contains(res@[b]));
                    } else if b == old_res.len() {
                        assert(old_res.contains(res@[a]));
                    } else {
                        assert(old_res[a] != old_res[b]);
                    }
                }
            }
            assert forall|a: int, b: int| 0 <= a < b < res@.len() implies score_before(
                s,
                res@[a] as int,
                res@[b] as int,
            ) by {
                if b == old_res.len() {
                    assert(res@[a] == old_res[a]);
                }
            }
            assert forall|j2: int, a: int|
                0 <= j2 < n && !taken@[j2] && 0 <= a < res@.len() implies #[trigger] score_before(
                s,
                res@[a] as int,
                j2,
            ) by {
                if a < old_res.len() {
                    assert(res@[a] == old_res[a]);
                }
            }
        }
    }
    proof {
        assert forall|j2: int, a: int|
            0 <= j2 < s.len() && !res@.contains(j2 as usize) && 0 <= a < res@.len() implies #[trigger] score_before(
            s,
            res@[a] as int,
            j2,
        ) by {
            assert(!taken@[j2]);
        }
    }
    res
}

/// No name sorts before an earlier one.
pub open spec fn names_sorted(s: Seq<Seq<char>>) -> bool {
    forall|i: int, j: int| 0 <= i < j < s.len() ==> !lex_lt(#[trigger] s[j], #[trigger] s[i])
}

/// The names in ascending order, as `String`s sort (`sort`).
pub fn sort_names(names: &Vec<String>) -> (r: Vec<String>)
    ensures
        strings_view(r@).to_multiset() == strings_view(names@).to_multiset(),
        names_sorted(strings_view(r@)),
{
    let mut out: Vec<String> = Vec::new();
    let mut i: usize = 0;
    proof {
        assert(strings_view(out@) =~= strings_view(names@.take(0)));
    }
    while i < names.len()
        invariant
            i <= names@.len(),
            strings_view(out@).to_multiset() == strings_view(names@.take(i as int)).to_multiset(),
            names_sorted(strings_view(out@)),
        decreases names@.len() - i,
    {
        let x = names[i].clone();
        let xc = crate::text::chars_of(x.as_str());
        let ghost o = strings_view(out@);
        let mut p: usize = 0;
        while p < out.len() && !lex_less(xc.as_slice(), crate::text::chars_of(out[p].as_str()).as_slice())
            invariant
                p <= out@.len(),
                o == strings_view(out@),
                forall|k: int| 0 <= k < p ==> !lex_lt(xc@, #[trigger] o[k]),
            decreases out@.len() - p,
        {
            p += 1;
        }
        proof {
            assert(o.len() == out@.len());
        }
        out.insert(p, x);
        proof {
            let n = strings_view(out@);
            assert(n =~= o.insert(p as int, xc@));
            assert(strings_view(names@.take(i + 1)) =~= strings_view(names@.take(i as int)).push(xc@));
            vstd::seq_lib::to_multiset_insert(o, p as int, xc@);
            vstd::seq_lib::to_multiset_build(strings_view(names@.take(i as int)), xc@);
            assert forall|a: int, b: int| 0 <= a < b < n.len() implies !lex_lt(#[trigger] n[b], #[trigger] n[a]) by {
                if b < p {
                    assert(n[a] == o[a] && n[b] == o[b]);
                } else if b == p {
                    assert(n[a] == o[a]);
                } else if a == p {
                    assert(n[b] == o[b - 1]);
                    if p < o.len() {
                        assert(lex_lt(xc@, o[p as int]));
                        if b - 1 > p {
                            assert(!lex_lt(o[b - 1], o[p as int]));
                        }
                        if lex_lt(o[b - 1], xc@) {
                            lemma_lex_transitive(o[b - 1], xc@, o[p as int]);
                            if b - 1 == p {
                                lemma_lex_irreflexive(o[p as int]);
                            }
                        }
                    }
                } else if a < p {
                    assert(n[a] == o[a] && n[b] == o[b - 1]);
                } else {
                    assert(n[a] == o[a - 1] && n[b] == o[b - 1]);
                }
            }
        }
        i += 1;
    }
    assert(names@.take(names@.len() as int) =~= names@);
    out
}

} // verus!
