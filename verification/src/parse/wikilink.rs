//! `[[wikilinks]]` between notes.

use vstd::prelude::*;
use crate::parse::tags::{is_match_end, scan, scan_spans, spans_view, Pattern};
use crate::text::{chars_of, string_of};

verus! {

/// A `[[target]]` or `[[target|alias]]` link as written in a note.
#[derive(Debug, Clone)]
pub struct Wikilink {
    /// The link as it stands in the text, brackets included.
    pub raw: String,
    /// What the link points at.
    pub target: String,
    /// The text shown in place of the target, if any.
    pub alias: Option<String>,
}

/// `k` is the first `|` of `inner`.
pub open spec fn first_bar(inner: Seq<char>, k: int) -> bool {
    &&& 0 <= k < inner.len()
    &&& inner[k] == '|'
    &&& forall|m: int| 0 <= m < k ==> inner[m] != '|'
}

/// Target and alias of a link's inner text: split at the first `|`, if any.
pub open spec fn link_parts(inner: Seq<char>) -> (Seq<char>, Option<Seq<char>>) {
    if exists|k: int| first_bar(inner, k) {
        let k = choose|k: int| first_bar(inner, k);
        (inner.take(k), Some(inner.skip(k + 1)))
    } else {
        (inner, None)
    }
}

/// The link written at the span `sp` of `c`, as (raw, target, alias).
pub open spec fn link_of_span(c: Seq<char>, sp: (int, int)) -> (Seq<char>, Seq<char>, Option<Seq<char>>) {
    let parts = link_parts(c.subrange(sp.0 + 2, sp.1 - 2));
    (c.subrange(sp.0, sp.1), parts.0, parts.1)
}

pub open spec fn link_view(l: Wikilink) -> (Seq<char>, Seq<char>, Option<Seq<char>>) {
    (
        l.raw@,
        l.target@,
        match l.alias {
            Some(a) => Some(a@),
            None => None,
        },
    )
}

/// The links of note text: each `[[...]]` without `]` inside, left to right.
pub open spec fn links_of(c: Seq<char>) -> Seq<(Seq<char>, Seq<char>, Option<Seq<char>>)> {
    scan_spans(Pattern::Wikilink, c, 0).map_values(|sp: (int, int)| link_of_span(c, sp))
}

/// The wikilinks of note text, in order.
pub fn extract_wikilinks(content: &str) -> (r: Vec<Wikilink>)
    ensures
        r@.map_values(|l: Wikilink| link_view(l)) == links_of(content@),
{
    let c = chars_of(content);
    let (spans, _) = scan(&Pattern::Wikilink, &c);
    let ghost sv = scan_spans(Pattern::Wikilink, c@, 0);
    let mut out: Vec<Wikilink> = Vec::new();
    let mut j: usize = 0;
    while j < spans.len()
        invariant
            j <= spans@.len(),
            sv == spans_view(spans@),
            forall|m: int|
                0 <= m < spans@.len() ==> is_match_end(
                    Pattern::Wikilink,
                    c@,
                    #[trigger] spans@[m].0 as int,
                    spans@[m].1 as int,
                ),
            out@.map_values(|l: Wikilink| link_view(l)) == sv.take(j as int).map_values(
                |sp: (int, int)| link_of_span(c@, sp),
            ),
        decreases spans@.len() - j,
    {
        let (i, e) = spans[j];
        assert(is_match_end(Pattern::Wikilink, c@, i as int, e as int));
        let a = i + 2;
        let b = e - 2;
        let ghost inner = c@.subrange(a as int, b as int);
        let mut k = a;
        while k < b && c[k] != '|'
            invariant
                a <= k <= b,
                b <= c@.len(),
                inner == c@.subrange(a as int, b as int),
                forall|m: int| a <= m < k ==> c@[m] != '|',
            decreases b - k,
        {
            k += 1;
        }
        let (target, alias) = if k < b {
            proof {
                assert(first_bar(inner, k - a));
                let q = choose|q: int| first_bar(inner, q);
                if q < k - a {
                    assert(inner[q] == c@[a + q]);
                } else if q > k - a {
                    assert(inner[k - a] == c@[k as int]);
                }
                assert(inner.take(k - a) =~= c@.subrange(a as int, k as int));
                assert(inner.skip(k - a + 1) =~= c@.subrange(k + 1, b as int));
            }
            (string_of(&c.as_slice()[a..k]), Some(string_of(&c.as_slice()[k + 1..b])))
        } else {
            proof {
                assert forall|q: int| !first_bar(inner, q) by {
                    if 0 <= q < inner.len() {
                        assert(inner[q] == c@[a + q]);
                    }
                }
            }
            (string_of(&c.as_slice()[a..b]), None)
        };
        let raw = string_of(&c.as_slice()[i..e]);
        let ghost before = out@;
        out.push(Wikilink { raw, target, alias });
        proof {
            assert(sv[j as int] == (i as int, e as int));
            assert(sv.take(j + 1) =~= sv.take(j as int).push(sv[j as int]));
            assert(out@.map_values(|l: Wikilink| link_view(l)) =~= before.map_values(
                |l: Wikilink| link_view(l),
            ).push(link_of_span(c@, (i as int, e as int))));
        }
        j += 1;
    }
    assert(sv.take(spans@.len() as int) =~= sv);
    out
}

} // verus!
