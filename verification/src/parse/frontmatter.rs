//! YAML frontmatter at the top of a note, delimited by `---` lines.

use vstd::prelude::*;
use crate::vault::{compose_spec, serialize_spec};
use crate::text::{
    contains,    byte_len, char_pred, count_leading, is_first_occurrence, lemma_byte_len_push, lemma_count_leading_bound, lemma_encode_utf8_concat,
    lemma_find_from_spec, lemma_first_occurrence_unique, occurs_at, chars_of, find_from, find_from_spec, int_text, is_white, leading_char,
    lemma_byte_len_subrange, matches_at, push_all, push_i64, starts_with, string_of,
    strip_leading,
};

verus! {

/// Frontmatter larger than this many bytes is not parsed.
pub const MAX_FRONTMATTER_BYTES: usize = 8192;

/// Keys and values of a note's frontmatter, in document order; no key occurs
/// twice.
#[derive(Debug)]
pub struct Frontmatter {
    entries: Vec<(String, String)>,
}

/// No key occurs twice among `es`.
pub open spec fn keys_distinct(es: Seq<(Seq<char>, Seq<char>)>) -> bool {
    forall|i: int, j: int| 0 <= i < j < es.len() ==> es[i].0 != es[j].0
}

/// The value stored under `k`.
pub open spec fn fm_get(es: Seq<(Seq<char>, Seq<char>)>, k: Seq<char>) -> Option<Seq<char>>
    decreases es.len(),
{
    if es.len() == 0 {
        None
    } else if es.last().0 == k {
        Some(es.last().1)
    } else {
        fm_get(es.drop_last(), k)
    }
}

/// `k` is a key of `es`.
pub open spec fn fm_has(es: Seq<(Seq<char>, Seq<char>)>, k: Seq<char>) -> bool {
    exists|i: int| 0 <= i < es.len() && es[i].0 == k
}

/// Sets `k` to `v`: an existing entry keeps its place, a new one goes last.
pub open spec fn fm_insert(es: Seq<(Seq<char>, Seq<char>)>, k: Seq<char>, v: Seq<char>) -> Seq<
    (Seq<char>, Seq<char>),
> {
    if fm_has(es, k) {
        es.update(choose|i: int| 0 <= i < es.len() && es[i].0 == k, (k, v))
    } else {
        es.push((k, v))
    }
}

pub open spec fn entry_view(e: (String, String)) -> (Seq<char>, Seq<char>) {
    (e.0@, e.1@)
}

impl View for Frontmatter {
    type V = Seq<(Seq<char>, Seq<char>)>;

    closed spec fn view(&self) -> Seq<(Seq<char>, Seq<char>)> {
        self.entries@.map_values(|e: (String, String)| entry_view(e))
    }
}

pub proof fn lemma_fm_get_has(es: Seq<(Seq<char>, Seq<char>)>, k: Seq<char>)
    ensures
        fm_get(es, k) is Some <==> fm_has(es, k),
        fm_get(es, k) matches Some(v) ==> exists|i: int|
            0 <= i < es.len() && es[i] == (k, v),
    decreases es.len(),
{
    if es.len() > 0 {
        let t = es.drop_last();
        lemma_fm_get_has(t, k);
        if es.last().0 == k {
            assert(es[es.len() - 1] == (k, es.last().1));
        } else {
            if fm_has(es, k) {
                let i = choose|i: int| 0 <= i < es.len() && es[i].0 == k;
                assert(t[i].0 == k);
            }
            if fm_has(t, k) {
                let i = choose|i: int| 0 <= i < t.len() && t[i].0 == k;
                assert(es[i].0 == k);
            }
            if let Some(v) = fm_get(t, k) {
                let i = choose|i: int| 0 <= i < t.len() && t[i] == (k, v);
                assert(es[i] == (k, v));
            }
        }
    }
}

/// With distinct keys, the entry that holds `k` gives its value.
pub proof fn lemma_fm_get_at(es: Seq<(Seq<char>, Seq<char>)>, i: int)
    requires
        keys_distinct(es),
        0 <= i < es.len(),
    ensures
        fm_get(es, es[i].0) == Some(es[i].1),
    decreases es.len(),
{
    if i < es.len() - 1 {
        assert(es[i].0 != es.last().0);
        lemma_fm_get_at(es.drop_last(), i);
    }
}

/// Read after write: once `k` is set to `v`, reading `k` gives `v`, every
/// other key reads as before, and no key occurs twice.
pub proof fn law_insert_then_get(es: Seq<(Seq<char>, Seq<char>)>, k: Seq<char>, v: Seq<char>, other: Seq<char>)
    requires
        keys_distinct(es),
    ensures
        keys_distinct(fm_insert(es, k, v)),
        fm_get(fm_insert(es, k, v), k) == Some(v),
        other != k ==> fm_get(fm_insert(es, k, v), other) == fm_get(es, other),
{
    let t = fm_insert(es, k, v);
    lemma_fm_get_has(es, other);
    if fm_has(es, k) {
        let i = choose|i: int| 0 <= i < es.len() && es[i].0 == k;
        assert(t == es.update(i, (k, v)));
        assert(keys_distinct(t)) by {
            assert forall|a: int, b: int| 0 <= a < b < t.len() implies t[a].0 != t[b].0 by {
                assert(es[a].0 != es[b].0);
            }
        }
        lemma_fm_get_at(t, i);
        if other != k {
            lemma_fm_get_has(t, other);
            if let Some(w) = fm_get(es, other) {
                let j = choose|j: int| 0 <= j < es.len() && es[j] == (other, w);
                assert(t[j] == es[j]);
                lemma_fm_get_at(t, j);
            } else {
                if fm_has(t, other) {
                    let j = choose|j: int| 0 <= j < t.len() && t[j].0 == other;
                    assert(es[j].0 == other);
                }
            }
        }
    } else {
        assert(t == es.push((k, v)));
        assert(t.drop_last() =~= es);
        assert(keys_distinct(t)) by {
            assert forall|a: int, b: int| 0 <= a < b < t.len() implies t[a].0 != t[b].0 by {
                if b == es.len() {
                    assert(es[a].0 != k);
                } else {
                    assert(es[a].0 != es[b].0);
                }
            }
        }
    }
}

impl Clone for Frontmatter {
    fn clone(&self) -> (r: Self)
        ensures
            r@ == self@,
    {
        proof {
            use_type_invariant(self);
        }
        let mut entries: Vec<(String, String)> = Vec::new();
        let mut i: usize = 0;
        while i < self.entries.len()
            invariant
                i <= self.entries@.len(),
                keys_distinct(self@),
                self@ == self.entries@.map_values(|e: (String, String)| entry_view(e)),
                entries@.map_values(|e: (String, String)| entry_view(e)) == self@.take(i as int),
            decreases self.entries@.len() - i,
        {
            let k = self.entries[i].0.clone();
            let v = self.entries[i].1.clone();
            assert(self@[i as int] == entry_view(self.entries@[i as int]));
            assert(k@ == self@[i as int].0);
            assert(v@ == self@[i as int].1);
            let ghost prev = entries@;
            entries.push((k, v));
            assert(entries@.map_values(|e: (String, String)| entry_view(e)) =~= prev.map_values(
                |e: (String, String)| entry_view(e),
            ).push(self@[i as int]));
            assert(entries@.map_values(|e: (String, String)| entry_view(e)) =~= self@.take(i + 1));
            i += 1;
        }
        assert(self@.take(self@.len() as int) =~= self@);
        Frontmatter { entries }
    }
}

impl Frontmatter {
    #[verifier::type_invariant]
    spec fn wf(self) -> bool {
        keys_distinct(self@)
    }

    /// No entries.
    pub fn new() -> (r: Frontmatter)
        ensures
            r@ == Seq::<(Seq<char>, Seq<char>)>::empty(),
    {
        let r = Frontmatter { entries: Vec::new() };
        assert(r@ =~= Seq::<(Seq<char>, Seq<char>)>::empty());
        r
    }

    /// The number of entries.
    pub fn len(&self) -> (r: usize)
        ensures
            r == self@.len(),
    {
        self.entries.len()
    }

    /// No entries at all?
    pub fn is_empty(&self) -> (r: bool)
        ensures
            r == (self@.len() == 0),
    {
        self.entries.len() == 0
    }

    /// The entries, in order.
    pub fn entries(&self) -> (r: &Vec<(String, String)>)
        ensures
            r@.map_values(|e: (String, String)| entry_view(e)) == self@,
            keys_distinct(self@),
    {
        proof {
            use_type_invariant(self);
        }
        &self.entries
    }

    /// Index of the entry whose key is `key`.
    fn position(&self, key: &[char]) -> (r: Option<usize>)
        ensures
            match r {
                Some(i) => i < self@.len() && self@[i as int].0 == key@,
                None => !fm_has(self@, key@),
            },
    {
        let mut i: usize = 0;
        while i < self.entries.len()
            invariant
                i <= self.entries@.len(),
                self@ == self.entries@.map_values(|e: (String, String)| entry_view(e)),
                forall|j: int| 0 <= j < i ==> self@[j].0 != key@,
            decreases self.entries@.len() - i,
        {
            let k = chars_of(self.entries[i].0.as_str());
            if crate::text::chars_eq(&k, key) {
                return Some(i);
            }
            i += 1;
        }
        None
    }

    /// The value stored under `key`.
    pub fn get(&self, key: &str) -> (r: Option<&String>)
        ensures
            match r {
                Some(v) => fm_get(self@, key@) == Some(v@),
                None => fm_get(self@, key@) is None,
            },
    {
        proof {
            use_type_invariant(self);
            lemma_fm_get_has(self@, key@);
        }
        let k = chars_of(key);
        match self.position(&k) {
            Some(i) => {
                proof {
                    if let Some(v) = fm_get(self@, key@) {
                        let j = choose|j: int| 0 <= j < self@.len() && self@[j] == (key@, v);
                        if j != i {
                            if j < i {
                                assert(self@[j].0 != self@[i as int].0);
                            } else {
                                assert(self@[i as int].0 != self@[j].0);
                            }
                        }
                    }
                }
                Some(&self.entries[i].1)
            },
            None => None,
        }
    }

    /// Sets `key` to `value`, keeping the entry's place if the key is present.
    pub fn insert(&mut self, key: String, value: String)
        ensures
            final(self)@ == fm_insert(old(self)@, key@, value@),
    {
        proof {
            use_type_invariant(&*self);
        }
        let ghost old_view = self@;
        let k = chars_of(key.as_str());
        let pos = self.position(&k);
        let mut entries: Vec<(String, String)> = Vec::new();
        std::mem::swap(&mut entries, &mut self.entries);
        assert(entries@.map_values(|e: (String, String)| entry_view(e)) == old_view);
        match pos {
            Some(i) => {
                entries.set(i, (key, value));
                proof {
                    let idx = choose|j: int| 0 <= j < old_view.len() && old_view[j].0 == key@;
                    if idx != i {
                        if idx < i {
                            assert(old_view[idx].0 != old_view[i as int].0);
                        } else {
                            assert(old_view[i as int].0 != old_view[idx].0);
                        }
                    }
                    assert(entries@.map_values(|e: (String, String)| entry_view(e)) =~= fm_insert(
                        old_view,
                        key@,
                        value@,
                    ));
                }
            },
            None => {
                entries.push((key, value));
                assert(entries@.map_values(|e: (String, String)| entry_view(e)) =~= fm_insert(
                    old_view,
                    key@,
                    value@,
                ));
            },
        }
        self.entries = entries;
    }
}

/// The note split into frontmatter and body.
#[derive(Debug, Clone)]
pub struct NoteContent {
    pub frontmatter: Frontmatter,
    pub body: String,
}
pub enum YamlValue {
    Str(String),
    Int(i64),
    /// A floating-point scalar, kept as written.
    Real(String),
    Bool(bool),
    Null,
    List(Vec<YamlValue>),
    /// A mapping's entries, in document order.
    Mapping(Vec<(YamlValue, YamlValue)>),
    /// An alias or an invalid node.
    Other,
}

/// `parts` joined with `sep` between neighbours (`[String]::join`).
pub open spec fn join(parts: Seq<Seq<char>>, sep: Seq<char>) -> Seq<char>
    decreases parts.len(),
{
    if parts.len() == 0 {
        Seq::empty()
    } else if parts.len() == 1 {
        parts[0]
    } else {
        join(parts.drop_last(), sep) + sep + parts.last()
    }
}

pub open spec fn true_text() -> Seq<char> {
    seq!['t', 'r', 'u', 'e']
}

pub open spec fn false_text() -> Seq<char> {
    seq!['f', 'a', 'l', 's', 'e']
}

pub open spec fn list_sep() -> Seq<char> {
    seq![',', ' ']
}

/// The frontmatter text of a YAML value: scalars as written, `null` as the
/// empty string, lists as their convertible items joined with `", "`;
/// mappings and other nodes have none.
pub open spec fn yaml_text(v: YamlValue) -> Option<Seq<char>>
    decreases v,
{
    match v {
        YamlValue::Str(s) => Some(s@),
        YamlValue::Int(i) => Some(int_text(i as int)),
        YamlValue::Real(r) => Some(r@),
        YamlValue::Bool(b) => Some(
            if b {
                true_text()
            } else {
                false_text()
            },
        ),
        YamlValue::Null => Some(Seq::empty()),
        YamlValue::List(items) => Some(join(list_texts(items@), list_sep())),
        YamlValue::Mapping(_) => None,
        YamlValue::Other => None,
    }
}

/// The texts of the items that have one, in order.
pub open spec fn list_texts(items: Seq<YamlValue>) -> Seq<Seq<char>>
    decreases items,
{
    if items.len() == 0 {
        Seq::empty()
    } else {
        let prev = list_texts(items.drop_last());
        match yaml_text(items.last()) {
            Some(t) => prev.push(t),
            None => prev,
        }
    }
}

/// A list of two strings reads as the two joined with `", "`.
pub proof fn law_list_of_two(v: YamlValue, a: String, b: String)
    requires
        v is List,
        v->List_0@ == seq![YamlValue::Str(a), YamlValue::Str(b)],
    ensures
        yaml_text(v) == Some(a@ + seq![',', ' '] + b@),
{
    let items = v->List_0@;
    let one = seq![YamlValue::Str(a)];
    assert(items.drop_last() =~= one);
    assert(items.last() == YamlValue::Str(b));
    assert(one.drop_last() =~= Seq::<YamlValue>::empty());
    assert(one.last() == YamlValue::Str(a));
    assert(list_texts(Seq::<YamlValue>::empty()) == Seq::<Seq<char>>::empty());
    assert(yaml_text(YamlValue::Str(a)) == Some(a@));
    assert(yaml_text(YamlValue::Str(b)) == Some(b@));
    assert(list_texts(one) =~= seq![a@]);
    assert(list_texts(items) =~= seq![a@, b@]);
    assert(seq![a@, b@].drop_last() =~= seq![a@]);
    assert(join(seq![a@], list_sep()) == a@);
    assert(seq![a@, b@].last() == b@);
    assert(join(seq![a@, b@], list_sep()) == join(seq![a@], list_sep()) + list_sep() + b@);
    assert(list_sep() =~= seq![',', ' ']);
}

proof fn lemma_list_texts_has(items: Seq<YamlValue>, k: int)
    requires
        0 <= k < items.len(),
        yaml_text(items[k]) is Some,
    ensures
        exists|j: int|
            0 <= j < list_texts(items).len() && list_texts(items)[j] == yaml_text(items[k])->0,
    decreases items.len(),
{
    let prev = list_texts(items.drop_last());
    if k < items.len() - 1 {
        assert(items.drop_last()[k] == items[k]);
        lemma_list_texts_has(items.drop_last(), k);
        let j = choose|j: int| 0 <= j < prev.len() && prev[j] == yaml_text(items[k])->0;
        match yaml_text(items.last()) {
            Some(t) => {
                assert(list_texts(items) == prev.push(t));
                assert(list_texts(items)[j] == prev[j]);
            },
            None => {
                assert(list_texts(items) == prev);
            },
        }
        assert(0 <= j < list_texts(items).len() && list_texts(items)[j] == yaml_text(items[k])->0);
    } else {
        assert(items.last() == items[k]);
        assert(list_texts(items) == prev.push(yaml_text(items[k])->0));
        assert(list_texts(items)[prev.len() as int] == yaml_text(items[k])->0);
    }
}

proof fn lemma_join_has(parts: Seq<Seq<char>>, sep: Seq<char>, j: int)
    requires
        0 <= j < parts.len(),
    ensures
        contains(join(parts, sep), parts[j]),
    decreases parts.len(),
{
    let jn = join(parts, sep);
    if parts.len() == 1 {
        assert(jn.subrange(0, parts[0].len() as int) =~= parts[0]);
        assert(occurs_at(jn, parts[j], 0));
    } else if j == parts.len() - 1 {
        let at = jn.len() - parts.last().len();
        assert(jn.subrange(at, jn.len() as int) =~= parts.last());
        assert(occurs_at(jn, parts[j], at));
    } else {
        let d = parts.drop_last();
        assert(d[j] == parts[j]);
        lemma_join_has(d, sep, j);
        let jd = join(d, sep);
        let i = choose|i: int| occurs_at(jd, parts[j], i);
        assert(jn.subrange(i, i + parts[j].len()) =~= jd.subrange(i, i + parts[j].len()));
        assert(occurs_at(jn, parts[j], i));
    }
}

/// The text of a list keeps the text of every item that has one.
pub proof fn law_list_keeps_items(v: YamlValue, k: int)
    requires
        v is List,
        0 <= k < v->List_0@.len(),
        yaml_text(v->List_0@[k]) is Some,
    ensures
        yaml_text(v) is Some,
        contains(yaml_text(v)->0, yaml_text(v->List_0@[k])->0),
{
    let items = v->List_0@;
    lemma_list_texts_has(items, k);
    let j = choose|j: int|
        0 <= j < list_texts(items).len() && list_texts(items)[j] == yaml_text(items[k])->0;
    lemma_join_has(list_texts(items), list_sep(), j);
}

/// Appends `parts` joined with `sep` to `out`.
pub fn push_joined(out: &mut Vec<char>, parts: &Vec<Vec<char>>, sep: &[char])
    ensures
        final(out)@ == old(out)@ + join(parts@.map_values(|p: Vec<char>| p@), sep@),
{
    let ghost ps = parts@.map_values(|p: Vec<char>| p@);
    let mut k: usize = 0;
    while k < parts.len()
        invariant
            k <= parts@.len(),
            ps == parts@.map_values(|p: Vec<char>| p@),
            out@ == old(out)@ + join(ps.take(k as int), sep@),
        decreases parts@.len() - k,
    {
        proof {
            assert(ps.take(k + 1).drop_last() =~= ps.take(k as int));
            assert(ps.take(k + 1).last() == parts@[k as int]@);
            if k == 0 {
                assert(ps.take(0) =~= Seq::<Seq<char>>::empty());
            }
        }
        if k > 0 {
            push_all(out, sep);
        }
        push_all(out, parts[k].as_slice());
        proof {
            if k == 0 {
                assert(join(ps.take(1), sep@) == ps.take(1)[0]);
            }
            assert(out@ =~= old(out)@ + join(ps.take(k + 1), sep@));
        }
        k += 1;
    }
    assert(ps.take(parts@.len() as int) =~= ps);
}

/// The frontmatter text of a YAML value (see `yaml_text`).
pub fn yaml_to_text(v: &YamlValue) -> (r: Option<Vec<char>>)
    ensures
        match r {
            Some(t) => yaml_text(*v) == Some(t@),
            None => yaml_text(*v) is None,
        },
    decreases v,
{
    match v {
        YamlValue::Str(s) => Some(chars_of(s.as_str())),
        YamlValue::Int(i) => {
            let mut out = Vec::new();
            push_i64(&mut out, *i);
            assert(out@ =~= int_text(*i as int));
            Some(out)
        },
        YamlValue::Real(r) => Some(chars_of(r.as_str())),
        YamlValue::Bool(b) => {
            if *b {
                let t = vec!['t', 'r', 'u', 'e'];
                assert(t@ =~= true_text());
                Some(t)
            } else {
                let f = vec!['f', 'a', 'l', 's', 'e'];
                assert(f@ =~= false_text());
                Some(f)
            }
        },
        YamlValue::Null => Some(Vec::new()),
        YamlValue::List(items) => {
            let mut texts: Vec<Vec<char>> = Vec::new();
            let mut k: usize = 0;
            while k < items.len()
                invariant
                    k <= items@.len(),
                    *v == YamlValue::List(*items),
                    texts@.map_values(|p: Vec<char>| p@) == list_texts(items@.take(k as int)),
                decreases items@.len() - k,
            {
                proof {
                    assert(decreases_to!(*v => (*v)->List_0));
                    assert((*v)->List_0 == *items);
                    assert(decreases_to!(*items => items@));
                    assert(decreases_to!(items@ => items@[k as int]));
                    assert(decreases_to!(*v => items@[k as int]));
                }
                let t = yaml_to_text(&items[k]);
                proof {
                    assert(items@.take(k + 1).drop_last() =~= items@.take(k as int));
                    assert(items@.take(k + 1).last() == items@[k as int]);
                }
                match t {
                    Some(t) => {
                        texts.push(t);
                        assert(texts@.map_values(|p: Vec<char>| p@) =~= list_texts(
                            items@.take(k + 1),
                        ));
                    },
                    None => {},
                }
                k += 1;
            }
            assert(items@.take(items@.len() as int) =~= items@);
            let mut out = Vec::new();
            let sep = [',', ' '];
            assert(sep@ =~= list_sep());
            push_joined(&mut out, &texts, &sep);
            assert(out@ =~= join(list_texts(items@), list_sep()));
            Some(out)
        },
        YamlValue::Mapping(_) => None,
        YamlValue::Other => None,
    }
}

/// Frontmatter from the entries of a YAML mapping: each entry whose key is a
/// string and whose value has a text (see `yaml_text`) is set in order, a
/// later entry overriding an earlier one with the same key.
pub open spec fn fm_from_entries(es: Seq<(YamlValue, YamlValue)>) -> Seq<(Seq<char>, Seq<char>)>
    decreases es.len(),
{
    if es.len() == 0 {
        Seq::empty()
    } else {
        let prev = fm_from_entries(es.drop_last());
        match (es.last().0, yaml_text(es.last().1)) {
            (YamlValue::Str(k), Some(t)) => fm_insert(prev, k@, t),
            _ => prev,
        }
    }
}

/// Frontmatter from the top-level entries of a YAML document (see
/// `fm_from_entries`).
pub fn frontmatter_from_yaml(entries: &Vec<(YamlValue, YamlValue)>) -> (r: Frontmatter)
    ensures
        r@ == fm_from_entries(entries@),
{
    let mut fm = Frontmatter::new();
    let mut k: usize = 0;
    while k < entries.len()
        invariant
            k <= entries@.len(),
            fm@ == fm_from_entries(entries@.take(k as int)),
        decreases entries@.len() - k,
    {
        proof {
            assert(entries@.take(k + 1).drop_last() =~= entries@.take(k as int));
            assert(entries@.take(k + 1).last() == entries@[k as int]);
        }
        let (key, value) = &entries[k];
        match key {
            YamlValue::Str(ks) => {
                match yaml_to_text(value) {
                    Some(t) => {
                        fm.insert(ks.clone(), string_of(t.as_slice()));
                    },
                    None => {},
                }
            },
            _ => {},
        }
        k += 1;
    }
    assert(entries@.take(entries@.len() as int) =~= entries@);
    fm
}

/// `c` may open a YAML anchor (`&name`) or alias (`*name`) at index `i`: the
/// marker follows the start of the text or whitespace and is followed by a
/// name character.
pub open spec fn anchor_or_alias_at(s: Seq<char>, i: int) -> bool {
    &&& 0 <= i
    &&& i + 1 < s.len()
    &&& (i == 0 || is_white(s[i - 1]))
    &&& (s[i] == '&' || s[i] == '*')
    &&& anchor_name_char(s[i + 1])
}

pub open spec fn anchor_name_char(c: char) -> bool {
    ||| 'A' <= c <= 'Z'
    ||| 'a' <= c <= 'z'
    ||| '0' <= c <= '9'
    ||| c == '_'
    ||| c == '-'
}

/// The text holds a YAML anchor or alias.
pub open spec fn has_anchor_or_alias(s: Seq<char>) -> bool {
    exists|i: int| anchor_or_alias_at(s, i)
}

/// The pattern that finds anchors and aliases.
pub open spec fn anchor_pattern() -> Seq<char> {
    "(?m)(^|\\s)[&*][A-Za-z0-9_-]+"@
}

/// Calls `regex::Regex::is_match` for the anchor/alias pattern. By the
/// `regex` syntax (multi-line `^`, Unicode `\s`), the pattern matches exactly
/// where a `&` or `*` that starts the text or follows a whitespace character
/// is followed by an ASCII letter, digit, `_` or `-`.
#[verifier::external_body]
fn regex_is_match(pattern: &str, haystack: &str) -> (r: bool)
    requires
        pattern@ == anchor_pattern(),
    ensures
        r == has_anchor_or_alias(haystack@),
{
    regex::Regex::new(pattern).unwrap().is_match(haystack)
}

/// An ASCII letter.
pub open spec fn ascii_letter(c: char) -> bool {
    ('a' <= c <= 'z') || ('A' <= c <= 'Z')
}

/// The plain words that YAML's core schema reads as null or as a boolean.
pub open spec fn schema_word(w: Seq<char>) -> bool {
    ||| w == seq!['n', 'u', 'l', 'l']
    ||| w == seq!['t', 'r', 'u', 'e']
    ||| w == seq!['T', 'r', 'u', 'e']
    ||| w == seq!['T', 'R', 'U', 'E']
    ||| w == seq!['f', 'a', 'l', 's', 'e']
    ||| w == seq!['F', 'a', 'l', 's', 'e']
    ||| w == seq!['F', 'A', 'L', 'S', 'E']
}

/// A word that YAML reads back as the same string: one or more ASCII letters,
/// and not a word that the core schema reads as null or a boolean.
pub open spec fn plain_word(w: Seq<char>) -> bool {
    &&& w.len() > 0
    &&& forall|i: int| 0 <= i < w.len() ==> ascii_letter(#[trigger] w[i])
    &&& !schema_word(w)
}

/// Frontmatter entries that survive being written as `key: value` lines and
/// read back as YAML: at least one entry, no key twice, and every key and
/// value a plain word.
pub open spec fn plain_entries(es: Seq<(Seq<char>, Seq<char>)>) -> bool {
    &&& es.len() > 0
    &&& keys_distinct(es)
    &&& plain_words(es)
}

/// Every key and value of `es` is a plain word.
pub open spec fn plain_words(es: Seq<(Seq<char>, Seq<char>)>) -> bool {
    forall|i: int| 0 <= i < es.len() ==> plain_word(#[trigger] es[i].0) && plain_word(es[i].1)
}

/// `docs` is a single YAML mapping whose entries are, in order, the string
/// keys and string values of `es`.
pub open spec fn plain_mapping_of(docs: Seq<YamlValue>, es: Seq<(Seq<char>, Seq<char>)>) -> bool {
    &&& docs.len() == 1
    &&& docs[0] matches YamlValue::Mapping(ms)
    &&& string_pairs(ms@, es)
}

/// The entries `ms` are, in order, string keys and string values equal to
/// those of `es`.
pub open spec fn string_pairs(ms: Seq<(YamlValue, YamlValue)>, es: Seq<(Seq<char>, Seq<char>)>) -> bool {
    &&& ms.len() == es.len()
    &&& forall|i: int| 0 <= i < es.len() ==> string_pair(#[trigger] ms[i], es[i])
}

/// A YAML entry with a string key and a string value equal to `e`'s.
pub open spec fn string_pair(m: (YamlValue, YamlValue), e: (Seq<char>, Seq<char>)) -> bool {
    match m {
        (YamlValue::Str(k), YamlValue::Str(v)) => k@ == e.0 && v@ == e.1,
        _ => false,
    }
}

proof fn lemma_string_pairs_frontmatter(ms: Seq<(YamlValue, YamlValue)>, es: Seq<(Seq<char>, Seq<char>)>)
    requires
        string_pairs(ms, es),
        keys_distinct(es),
    ensures
        fm_from_entries(ms) == es,
    decreases es.len(),
{
    if es.len() > 0 {
        let n = es.len() - 1;
        assert(string_pairs(ms.drop_last(), es.drop_last())) by {
            assert forall|i: int| 0 <= i < es.drop_last().len() implies string_pair(
                #[trigger] ms.drop_last()[i],
                es.drop_last()[i],
            ) by {
                assert(ms.drop_last()[i] == ms[i]);
                assert(string_pair(ms[i], es[i]));
            }
        }
        lemma_string_pairs_frontmatter(ms.drop_last(), es.drop_last());
        assert(string_pair(ms[n as int], es[n as int]));
        assert(ms.last() == ms[n as int]);
        assert(!fm_has(es.drop_last(), es[n as int].0)) by {
            if fm_has(es.drop_last(), es[n as int].0) {
                let j = choose|j: int| 0 <= j < es.drop_last().len() && es.drop_last()[j].0 == es[n as int].0;
                assert(es[j].0 == es[n as int].0);
            }
        }
        assert(es.drop_last().push(es[n as int]) =~= es);
    }
}

/// What `yaml_rust2::YamlLoader::load_from_str` yields for `source`: its
/// documents, or `None` when loading fails.
pub uninterp spec fn yaml_documents(source: Seq<char>) -> Option<Seq<YamlValue>>;

/// `yaml_rust2::Yaml`, a YAML node, seen only by the conversion below.
#[verifier::external_type_specification]
#[verifier::external_body]
pub struct ExYaml(yaml_rust2::Yaml);

/// Converts a `yaml_rust2::Yaml` node into a `YamlValue`, variant by variant.
#[verifier::external_body]
fn yaml_value(y: &yaml_rust2::Yaml) -> YamlValue {
    match y {
        yaml_rust2::Yaml::String(s) => YamlValue::Str(s.clone()),
        yaml_rust2::Yaml::Integer(i) => YamlValue::Int(*i),
        yaml_rust2::Yaml::Real(r) => YamlValue::Real(r.clone()),
        yaml_rust2::Yaml::Boolean(b) => YamlValue::Bool(*b),
        yaml_rust2::Yaml::Null => YamlValue::Null,
        yaml_rust2::Yaml::Array(a) => YamlValue::List(a.iter().map(yaml_value).collect()),
        yaml_rust2::Yaml::Hash(h) => YamlValue::Mapping(
            h.iter().map(|(k, v)| (yaml_value(k), yaml_value(v))).collect(),
        ),
        _ => YamlValue::Other,
    }
}

/// Calls `yaml_rust2::YamlLoader::load_from_str` and hands back its
/// documents (see `yaml_documents`). Beyond naming the result, it states one
/// fact that the loader's source shows: a newline followed by `key: value`
/// lines of plain words (see `plain_entries`) loads as one mapping of those
/// strings, in order, since each plain scalar goes through `Yaml::from_str`,
/// which keeps letters-only words other than the null and boolean words as
/// strings, and a mapping keeps its insertion order. What it returns for
/// other texts is left unsaid.
#[verifier::external_body]
fn load_yaml(source: &str) -> (r: Option<Vec<YamlValue>>)
    ensures
        match r {
            Some(v) => yaml_documents(source@) == Some(v@),
            None => yaml_documents(source@) is None,
        },
        forall|es: Seq<(Seq<char>, Seq<char>)>|
            #[trigger] plain_entries(es) && source@ == seq!['\n'] + serialize_spec(es)
                ==> r is Some && plain_mapping_of(r->0@, es),
{
    match yaml_rust2::YamlLoader::load_from_str(source) {
        Ok(docs) => Some(docs.iter().map(yaml_value).collect()),
        Err(_) => None,
    }
}

/// The frontmatter that YAML documents give: the entries of the first
/// document when it is a mapping (see `fm_from_entries`), else none.
pub open spec fn frontmatter_of_documents(docs: Seq<YamlValue>) -> Seq<(Seq<char>, Seq<char>)> {
    if docs.len() > 0 {
        match docs[0] {
            YamlValue::Mapping(es) => fm_from_entries(es@),
            _ => Seq::empty(),
        }
    } else {
        Seq::empty()
    }
}

/// The frontmatter of a YAML text.
pub open spec fn frontmatter_of_yaml(yaml: Seq<char>) -> Seq<(Seq<char>, Seq<char>)> {
    match yaml_documents(yaml) {
        Some(docs) => frontmatter_of_documents(docs),
        None => Seq::empty(),
    }
}

/// The frontmatter that loaded YAML documents give (see
/// `frontmatter_of_documents`).
pub fn frontmatter_from_documents(docs: &Vec<YamlValue>) -> (r: Frontmatter)
    ensures
        r@ == frontmatter_of_documents(docs@),
{
    if docs.len() == 0 {
        return Frontmatter::new();
    }
    match &docs[0] {
        YamlValue::Mapping(es) => frontmatter_from_yaml(es),
        _ => Frontmatter::new(),
    }
}

fn parse_yaml(yaml: &str) -> (r: Frontmatter)
    ensures
        r@ == frontmatter_of_yaml(yaml@),
        forall|es: Seq<(Seq<char>, Seq<char>)>|
            plain_entries(es) && yaml@ == seq!['\n'] + serialize_spec(es) ==> r@ == es,
{
    let loaded = load_yaml(yaml);
    match loaded {
        Some(docs) => {
            let r = frontmatter_from_documents(&docs);
            proof {
                assert forall|es: Seq<(Seq<char>, Seq<char>)>|
                    plain_entries(es) && yaml@ == seq!['\n'] + serialize_spec(es) implies r@ == es by {
                    assert(plain_mapping_of(docs@, es));
                    let ms = docs@[0]->Mapping_0;
                    lemma_string_pairs_frontmatter(ms@, es);
                }
            }
            r
        },
        None => Frontmatter::new(),
    }
}

pub open spec fn fence() -> Seq<char> {
    seq!['-', '-', '-']
}

/// Where the frontmatter of `c` ends: the first `---` after the opening one,
/// provided `c` opens with `---`.
pub open spec fn frontmatter_close(c: Seq<char>) -> Option<int> {
    if starts_with(c, fence()) {
        find_from_spec(c, fence(), 3)
    } else {
        None
    }
}

/// The split of a note into frontmatter entries and body. A note opening with
/// `---` and holding a second `---` has the text between them read as YAML,
/// and the body is what follows the second `---` with its leading newlines
/// removed; but YAML text over `MAX_FRONTMATTER_BYTES` bytes, or holding an
/// anchor or alias, is not read, and then, as when there is no frontmatter,
/// the whole note is the body.
pub open spec fn parse_spec(c: Seq<char>) -> (Seq<(Seq<char>, Seq<char>)>, Seq<char>) {
    match frontmatter_close(c) {
        Some(e) => {
            let yaml = c.subrange(3, e);
            if byte_len(yaml) > MAX_FRONTMATTER_BYTES || has_anchor_or_alias(yaml) {
                (Seq::empty(), c)
            } else {
                (frontmatter_of_yaml(yaml), strip_leading(c.skip(e + 3), '\n'))
            }
        },
        None => (Seq::empty(), c),
    }
}

/// A note that does not open with `---` has no frontmatter: all of it is
/// body.
pub proof fn law_no_fence_all_body(c: Seq<char>)
    requires
        !starts_with(c, fence()),
    ensures
        parse_spec(c) == (Seq::<(Seq<char>, Seq<char>)>::empty(), c),
{
}

/// `c` is the note that `es` and `b` make (see `compose_spec`), where `es`
/// are plain entries whose `key: value` lines take fewer than
/// `MAX_FRONTMATTER_BYTES` bytes.
pub open spec fn plain_note(c: Seq<char>, es: Seq<(Seq<char>, Seq<char>)>, b: Seq<char>) -> bool {
    &&& plain_entries(es)
    &&& byte_len(serialize_spec(es)) < MAX_FRONTMATTER_BYTES
    &&& c == compose_spec(es, b)
}

/// A character of `key: value` lines of plain words.
pub open spec fn line_char(c: char) -> bool {
    ascii_letter(c) || c == ':' || c == ' ' || c == '\n'
}

proof fn lemma_plain_lines(es: Seq<(Seq<char>, Seq<char>)>)
    requires
        plain_words(es),
    ensures
        forall|k: int| 0 <= k < serialize_spec(es).len() ==> line_char(#[trigger] serialize_spec(es)[k]),
    decreases es.len(),
{
    if es.len() > 0 {
        let d = es.drop_last();
        assert(plain_words(d)) by {
            assert forall|i: int| 0 <= i < d.len() implies plain_word(#[trigger] d[i].0) && plain_word(d[i].1) by {
                assert(d[i] == es[i]);
            }
        }
        lemma_plain_lines(d);
        let n: int = es.len() - 1;
        let e = es[n];
        assert(plain_words(es));
        assert(0 <= n < es.len());
        assert(plain_word(es[n].0));
        assert(plain_word(e.1));
        assert(es.last() == e);
        let l0 = serialize_spec(d);
        let l = serialize_spec(es);
        assert(l == l0 + e.0 + seq![':', ' '] + e.1 + seq!['\n']);
        assert forall|k: int| 0 <= k < l.len() implies line_char(#[trigger] l[k]) by {
            if k < l0.len() {
                assert(l[k] == l0[k]);
            } else if k < l0.len() + e.0.len() {
                assert(l[k] == e.0[k - l0.len()]);
            } else if k < l0.len() + e.0.len() + 2 {
            } else if k < l0.len() + e.0.len() + 2 + e.1.len() {
                assert(l[k] == e.1[k - l0.len() - e.0.len() - 2]);
            } else {
            }
        }
    }
}

/// The note that plain entries `es` and a body `b` make opens with `---`,
/// holds the `key: value` lines up to the next `---`, within the size limit
/// and free of anchors, and after that `---` holds a newline and then `b`.
proof fn lemma_plain_note(es: Seq<(Seq<char>, Seq<char>)>, b: Seq<char>)
    requires
        plain_entries(es),
        byte_len(serialize_spec(es)) < MAX_FRONTMATTER_BYTES,
    ensures
        ({
            let c = compose_spec(es, b);
            let l = serialize_spec(es);
            let e: int = 4 + l.len() as int;
            &&& starts_with(c, fence())
            &&& is_first_occurrence(c, fence(), 3, e)
            &&& find_from_spec(c, fence(), 3) == Some(e)
            &&& c.subrange(3, e) == seq!['\n'] + l
            &&& byte_len(seq!['\n'] + l) <= MAX_FRONTMATTER_BYTES
            &&& !has_anchor_or_alias(seq!['\n'] + l)
            &&& strip_leading(c.skip(e + 3), '\n') == strip_leading(b, '\n')
        }),
{
    let c = compose_spec(es, b);
    let l = serialize_spec(es);
    let e: int = 4 + l.len() as int;
    let y = seq!['\n'] + l;
    lemma_plain_lines(es);
    assert(c == seq!['-', '-', '-', '\n'] + l + seq!['-', '-', '-', '\n'] + b);
    assert(c.subrange(0, 3) =~= fence());
    assert(c.subrange(e, e + 3) =~= fence());
    assert forall|j: int| 3 <= j < e implies !occurs_at(c, fence(), j) by {
        if occurs_at(c, fence(), j) {
            assert(c.subrange(j, j + 3)[0] == c[j]);
            if j > 3 {
                assert(c[j] == l[j - 4]);
                assert(line_char(l[j - 4]));
            }
        }
    }
    assert(is_first_occurrence(c, fence(), 3, e));
    lemma_find_from_spec(c, fence(), 3, e);
    assert(c.subrange(3, e) =~= y);
    lemma_encode_utf8_concat(seq!['\n'], l);
    assert(seq!['\n'].drop_first() =~= Seq::<char>::empty());
    lemma_byte_len_push(Seq::<char>::empty(), '\n');
    assert(Seq::<char>::empty().push('\n') =~= seq!['\n']);
    assert(('\n' as u32) == 10u32);
    assert(byte_len(seq!['\n']) == 1);
    assert(!has_anchor_or_alias(y)) by {
        if has_anchor_or_alias(y) {
            let i = choose|i: int| anchor_or_alias_at(y, i);
            if i > 0 {
                assert(y[i] == l[i - 1]);
                assert(line_char(l[i - 1]));
            }
        }
    }
    let t = c.skip(e + 3);
    assert(t =~= seq!['\n'] + b);
    assert(t.drop_first() =~= b);
    assert(count_leading(t, char_pred('\n')) == 1 + count_leading(b, char_pred('\n')));
    lemma_count_leading_bound(b, char_pred('\n'));
    assert(t.skip(1 + count_leading(b, char_pred('\n')) as int) =~= b.skip(count_leading(b, char_pred('\n')) as int));
}

/// Splits a note into its frontmatter and its body (see `parse_spec`).
/// A note that `build_note_content` writes from plain entries (see
/// `plain_note`) reads back as those entries and the body without its
/// leading newlines.
pub fn parse(content: &str) -> (r: NoteContent)
    ensures
        (r.frontmatter@, r.body@) == parse_spec(content@),
        forall|es: Seq<(Seq<char>, Seq<char>)>, b: Seq<char>|
            #[trigger] plain_note(content@, es, b)
                ==> r.frontmatter@ == es && r.body@ == strip_leading(b, '\n'),
{
    let s = chars_of(content);
    let n = s.len();
    let dashes = ['-', '-', '-'];
    assert(dashes@ =~= fence());
    if matches_at(&s, 0, &dashes) {
        match find_from(&s, 3, &dashes) {
            Some(e) => {
                let yaml = string_of(&s[3..e]);
                proof {
                    lemma_byte_len_subrange(s@, 3, e as int);
                }
                let too_big = yaml.as_str().len() > MAX_FRONTMATTER_BYTES;
                if too_big || regex_is_match("(?m)(^|\\s)[&*][A-Za-z0-9_-]+", yaml.as_str()) {
                    proof {
                        assert forall|es: Seq<(Seq<char>, Seq<char>)>, b: Seq<char>|
                            #[trigger] plain_note(content@, es, b) implies false by {
                            lemma_plain_note(es, b);
                            lemma_first_occurrence_unique(s@, fence(), 3, e as int, 4 + serialize_spec(es).len() as int);
                        }
                    }
                    return NoteContent { frontmatter: Frontmatter::new(), body: string_of(&s) };
                }
                let b = e + 3 + leading_char(&s, e + 3, n, '\n');
                proof {
                    let t = s@.skip(e + 3);
                    assert(s@.subrange(e + 3, n as int) =~= t);
                    assert(strip_leading(t, '\n') =~= s@.subrange(b as int, n as int));
                }
                let body = string_of(&s[b..n]);
                let frontmatter = parse_yaml(yaml.as_str());
                proof {
                    assert forall|es: Seq<(Seq<char>, Seq<char>)>, bd: Seq<char>|
                        #[trigger] plain_note(content@, es, bd) implies frontmatter@ == es
                            && body@ == strip_leading(bd, '\n') by {
                        lemma_plain_note(es, bd);
                        lemma_first_occurrence_unique(s@, fence(), 3, e as int, 4 + serialize_spec(es).len() as int);
                    }
                }
                return NoteContent { frontmatter, body };
            },
            None => {
                proof {
                    assert forall|es: Seq<(Seq<char>, Seq<char>)>, b: Seq<char>|
                        #[trigger] plain_note(content@, es, b) implies false by {
                        lemma_plain_note(es, b);
                    }
                }
            },
        }
    } else {
        proof {
            assert forall|es: Seq<(Seq<char>, Seq<char>)>, b: Seq<char>|
                #[trigger] plain_note(content@, es, b) implies false by {
                lemma_plain_note(es, b);
            }
        }
    }
    NoteContent { frontmatter: Frontmatter::new(), body: string_of(&s) }
}

} // verus!
