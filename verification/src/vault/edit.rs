//! Whole-note edits: appending, replacing the body, setting frontmatter
//! fields, applying a template and merging two notes.

use vstd::prelude::*;
use crate::parse::frontmatter::{
    entry_view, fm_get, fm_insert, keys_distinct, law_insert_then_get, parse, parse_spec, Frontmatter,
};
use crate::text::{chars_of, ends_with, starts_with, push_all, string_of, trim, trim_bounds, trim_end, push_range, trailing_white};
use crate::vault::{compose, compose_spec, EditMode};

verus! {

/// The note text after `update_note`: `content` appended on a new line, or
/// the body replaced by `content` with the frontmatter kept.
pub open spec fn updated_note_spec(existing: Seq<char>, content: Seq<char>, mode: EditMode) -> Seq<char> {
    match mode {
        EditMode::Append => existing + seq!['\n'] + content,
        EditMode::Replace => compose_spec(parse_spec(existing).0, content),
    }
}

/// The text of a note after `update_note` with `mode`.
pub fn update_note_content(existing: &str, content: &str, mode: EditMode) -> (r: String)
    ensures
        r@ == updated_note_spec(existing@, content@, mode),
{
    match mode {
        EditMode::Append => {
            let mut out = chars_of(existing);
            out.push('\n');
            let c = chars_of(content);
            push_all(&mut out, &c);
            string_of(&out)
        },
        EditMode::Replace => {
            let parsed = parse(existing);
            let c = chars_of(content);
            string_of(&compose(&parsed.frontmatter, &c))
        },
    }
}

/// `base` with each entry of `adds` set in turn (see `fm_insert`).
pub open spec fn fm_merge(base: Seq<(Seq<char>, Seq<char>)>, adds: Seq<(Seq<char>, Seq<char>)>) -> Seq<
    (Seq<char>, Seq<char>),
>
    decreases adds.len(),
{
    if adds.len() == 0 {
        base
    } else {
        fm_insert(fm_merge(base, adds.drop_last()), adds.last().0, adds.last().1)
    }
}

/// Merging fields: a field that `adds` sets reads as `adds` gives it (the
/// last value given, if it is given twice), any other as `base` has it; and
/// no key occurs twice. So in `set_frontmatter` the given fields win over
/// the note's, and in `apply_template` the note's fields win over the
/// template's.
pub proof fn law_merge_then_get(base: Seq<(Seq<char>, Seq<char>)>, adds: Seq<(Seq<char>, Seq<char>)>, k: Seq<char>)
    requires
        keys_distinct(base),
    ensures
        keys_distinct(fm_merge(base, adds)),
        fm_get(fm_merge(base, adds), k) == match fm_get(adds, k) {
            Some(v) => Some(v),
            None => fm_get(base, k),
        },
    decreases adds.len(),
{
    if adds.len() > 0 {
        let rest = adds.drop_last();
        law_merge_then_get(base, rest, k);
        law_insert_then_get(fm_merge(base, rest), adds.last().0, adds.last().1, k);
    }
}

/// Sets every field of `fields` in `fm`, in order.
pub fn merge_fields(fm: &mut Frontmatter, fields: &Frontmatter)
    ensures
        final(fm)@ == fm_merge(old(fm)@, fields@),
{
    let es = fields.entries();
    let ghost v = fields@;
    let mut i: usize = 0;
    while i < es.len()
        invariant
            i <= es@.len(),
            v == es@.map_values(|e: (String, String)| entry_view(e)),
            fm@ == fm_merge(old(fm)@, v.take(i as int)),
        decreases es@.len() - i,
    {
        proof {
            assert(v.take(i + 1).drop_last() =~= v.take(i as int));
            assert(v.take(i + 1).last() == entry_view(es@[i as int]));
        }
        let k = es[i].0.clone();
        let val = es[i].1.clone();
        fm.insert(k, val);
        i += 1;
    }
    assert(v.take(es@.len() as int) =~= v);
}

/// The note text after `set_frontmatter`: the fields merged into the
/// frontmatter; a note left with no frontmatter at all is unchanged.
pub open spec fn with_fields_spec(content: Seq<char>, fields: Seq<(Seq<char>, Seq<char>)>) -> Seq<char> {
    let (fm, body) = parse_spec(content);
    let merged = fm_merge(fm, fields);
    if merged.len() == 0 {
        content
    } else {
        compose_spec(merged, body)
    }
}

/// The text of a note after `set_frontmatter` with `fields`.
pub fn set_fields_content(content: &str, fields: &Frontmatter) -> (r: String)
    ensures
        r@ == with_fields_spec(content@, fields@),
{
    let mut parsed = parse(content);
    merge_fields(&mut parsed.frontmatter, fields);
    if parsed.frontmatter.is_empty() {
        string_of(&chars_of(content))
    } else {
        let b = chars_of(parsed.body.as_str());
        string_of(&compose(&parsed.frontmatter, &b))
    }
}

/// The note text after `apply_template`: the template's frontmatter with the
/// note's own fields set over it, and the note's body, or the template's
/// when the note's body is blank.
pub open spec fn template_applied_spec(existing: Seq<char>, template: Seq<char>) -> Seq<char> {
    let (efm, ebody) = parse_spec(existing);
    let (tfm, tbody) = parse_spec(template);
    let body = if trim(ebody).len() == 0 {
        tbody
    } else {
        ebody
    };
    compose_spec(fm_merge(tfm, efm), body)
}

/// The text of a note after `template` is applied to it (`existing` is empty
/// for a note that does not exist yet).
pub fn template_applied(existing: &str, template: &str) -> (r: String)
    ensures
        r@ == template_applied_spec(existing@, template@),
{
    let parsed_existing = parse(existing);
    let parsed_template = parse(template);
    let mut merged = parsed_template.frontmatter;
    merge_fields(&mut merged, &parsed_existing.frontmatter);
    let eb = chars_of(parsed_existing.body.as_str());
    let n = eb.len();
    let (lo, hi) = trim_bounds(&eb, 0, n);
    proof {
        assert(eb@.subrange(0, n as int) =~= eb@);
    }
    let body = if lo == hi {
        chars_of(parsed_template.body.as_str())
    } else {
        eb
    };
    string_of(&compose(&merged, &body))
}

pub open spec fn merged_heading() -> Seq<char> {
    seq!['\n', '\n', '#', '#', ' ', 'M', 'e', 'r', 'g', 'e', 'd', ' ', 'f', 'r', 'o', 'm', ' ']
}

/// The destination note after `merge_notes`: its text without trailing
/// whitespace, a `## Merged from <name>` heading, then the source's body
/// trimmed.
pub open spec fn merged_note_spec(dest: Seq<char>, source_name: Seq<char>, source: Seq<char>) -> Seq<char> {
    trim_end(dest) + merged_heading() + source_name + seq!['\n', '\n'] + trim(parse_spec(source).1)
}

/// The text of `dest` once the note `source` (named `source_name`) is
/// merged into it.
pub fn merged_note(dest: &str, source_name: &str, source: &str) -> (r: String)
    ensures
        r@ == merged_note_spec(dest@, source_name@, source@),
{
    let d = chars_of(dest);
    let nd = d.len();
    let t = trailing_white(&d, 0, nd);
    let mut out: Vec<char> = Vec::new();
    push_range(&mut out, &d, 0, nd - t);
    proof {
        assert(d@.subrange(0, nd as int) =~= d@);
        assert(out@ =~= trim_end(dest@));
    }
    let h = ['\n', '\n', '#', '#', ' ', 'M', 'e', 'r', 'g', 'e', 'd', ' ', 'f', 'r', 'o', 'm', ' '];
    push_all(&mut out, &h);
    push_all(&mut out, &chars_of(source_name));
    push_all(&mut out, &['\n', '\n']);
    let parsed = parse(source);
    let b = chars_of(parsed.body.as_str());
    let nb = b.len();
    let (lo, hi) = trim_bounds(&b, 0, nb);
    push_range(&mut out, &b, lo, hi);
    proof {
        assert(b@.subrange(0, nb as int) =~= b@);
        assert(h@ =~= merged_heading());
        assert(out@ =~= merged_note_spec(dest@, source_name@, source@));
    }
    string_of(&out)
}

/// Applying a template to a note whose body is not blank keeps that body:
/// the result ends with the note's body, and the template's body has no
/// bearing on the result (two templates with the same frontmatter give the
/// same note). A note with a blank body takes the template's body instead.
pub proof fn law_template_keeps_body(existing: Seq<char>, template: Seq<char>, other: Seq<char>)
    requires
        parse_spec(template).0 == parse_spec(other).0,
    ensures
        trim(parse_spec(existing).1).len() > 0 ==> ends_with(
            template_applied_spec(existing, template),
            parse_spec(existing).1,
        ),
        trim(parse_spec(existing).1).len() > 0 ==> template_applied_spec(existing, template)
            == template_applied_spec(existing, other),
        trim(parse_spec(existing).1).len() == 0 ==> ends_with(
            template_applied_spec(existing, template),
            parse_spec(template).1,
        ),
{
    let r = template_applied_spec(existing, template);
    let body = if trim(parse_spec(existing).1).len() == 0 {
        parse_spec(template).1
    } else {
        parse_spec(existing).1
    };
    lemma_compose_ends_with(fm_merge(parse_spec(template).0, parse_spec(existing).0), body);
}

proof fn lemma_compose_ends_with(fm: Seq<(Seq<char>, Seq<char>)>, body: Seq<char>)
    ensures
        ends_with(compose_spec(fm, body), body),
{
    let c = compose_spec(fm, body);
    assert(c.subrange(c.len() - body.len(), c.len() as int) =~= body);
}

/// Merging keeps both notes whole: the result starts with the destination
/// note (trailing whitespace aside), ends with the source's whole body
/// (surrounding whitespace aside), and between them holds only the
/// `## Merged from <name>` heading and a blank line.
pub proof fn law_merge_keeps_both(dest: Seq<char>, source_name: Seq<char>, source: Seq<char>)
    ensures
        starts_with(merged_note_spec(dest, source_name, source), trim_end(dest)),
        ends_with(merged_note_spec(dest, source_name, source), trim(parse_spec(source).1)),
        merged_note_spec(dest, source_name, source).len() == trim_end(dest).len() + 17
            + source_name.len() + 2 + trim(parse_spec(source).1).len(),
{
    let m = merged_note_spec(dest, source_name, source);
    let d = trim_end(dest);
    let b = trim(parse_spec(source).1);
    assert(m.subrange(0, d.len() as int) =~= d);
    assert(m.subrange(m.len() - b.len(), m.len() as int) =~= b);
}

} // verus!
