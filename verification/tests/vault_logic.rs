use obsidian_mcp::parse::frontmatter::{frontmatter_from_documents, parse, Frontmatter, YamlValue};
use obsidian_mcp::parse::sections::SectionError;
use obsidian_mcp::parse::tags::{extract_tags, remove_inline_tags, TagSet};
use obsidian_mcp::parse::wikilink::extract_wikilinks;
use obsidian_mcp::ranking::{rank_by_key, sort_names};
use obsidian_mcp::vault::daily::{daily_note_text, validate_date, DateError};
use obsidian_mcp::vault::edit::{merged_note, set_fields_content, template_applied, update_note_content};
use obsidian_mcp::vault::files::{
    check_note_path, entry_label, is_within, md_file, slashed_path, trash_name, walk_depth, PathError,
};
use obsidian_mcp::vault::links::{file_stem, links_to, orphan_notes, relinked_content, replace_text};
use obsidian_mcp::vault::related::{link_target, note_key, related_note_content, related_targets, relatedness};
use obsidian_mcp::vault::search::{
    content_matches_query, frontmatter_matches, matches_tags, normalize_search_tags, tag_counts,
};
use obsidian_mcp::vault::templates::{configured_templates_folder, templates_folder_of, JsonValue};
use obsidian_mcp::vault::{
    build_note_content, edit_mode, extract_significant_words, retag_note, section_text,
    update_frontmatter_tags, update_section_content, EditMode, UpdateSectionError,
};

fn fm(pairs: &[(&str, &str)]) -> Frontmatter {
    let mut f = Frontmatter::new();
    for (k, v) in pairs {
        f.insert(k.to_string(), v.to_string());
    }
    f
}

fn tag_set(tags: &[&str]) -> TagSet {
    let mut t = TagSet::new();
    for x in tags {
        t.insert(x);
    }
    t
}

fn strings(v: &[&str]) -> Vec<String> {
    v.iter().map(|s| s.to_string()).collect()
}

#[test]
fn update_note_appends_on_new_line() {
    let r = update_note_content("Original content", "Appended content", EditMode::Append);
    assert_eq!(r, "Original content\nAppended content");
}

#[test]
fn update_note_replace_keeps_frontmatter() {
    let r = update_note_content("---\ntitle: A\n---\nold body", "new", EditMode::Replace);
    assert_eq!(r, "---\ntitle: A\n---\nnew");
    let r = update_note_content("plain old body", "new", EditMode::Replace);
    assert_eq!(r, "new");
}

#[test]
fn edit_mode_names() {
    assert_eq!(edit_mode("append"), Some(EditMode::Append));
    assert_eq!(edit_mode("replace"), Some(EditMode::Replace));
    assert_eq!(edit_mode("bogus"), None);
}

#[test]
fn set_fields_adds_frontmatter_that_reads_back() {
    let r = set_fields_content("Test content", &fm(&[("priority", "high")]));
    assert_eq!(r, "---\npriority: high\n---\nTest content");
    let parsed = parse(&r);
    assert_eq!(parsed.frontmatter.get("priority").unwrap(), "high");
    assert_eq!(parsed.body, "Test content");
}

#[test]
fn set_fields_overrides_and_keeps_order() {
    let r = set_fields_content("---\na: 1\nb: 2\n---\nbody", &fm(&[("b", "3"), ("c", "4")]));
    assert_eq!(r, "---\na: 1\nb: 3\nc: 4\n---\nbody");
}

#[test]
fn set_no_fields_on_plain_note_leaves_it() {
    let r = set_fields_content("---\n---\nbody", &Frontmatter::new());
    assert_eq!(r, "---\n---\nbody");
}

#[test]
fn template_fills_an_empty_note() {
    let r = template_applied("", "---\ntype: meeting\n---\n# Meeting\n");
    assert_eq!(r, "---\ntype: meeting\n---\n# Meeting\n");
}

#[test]
fn template_keeps_note_fields_and_body() {
    let r = template_applied("---\ntype: own\n---\nMy body", "---\ntype: meeting\nday: mon\n---\n# Meeting\n");
    assert_eq!(r, "---\ntype: own\nday: mon\n---\nMy body");
    let r = template_applied("  \n", "# Meeting\n");
    assert_eq!(r, "# Meeting\n");
}

#[test]
fn merge_appends_source_under_heading() {
    let r = merged_note("Content from dest\n\n", "_test-merge-source", "---\nx: 1\n---\n  Content from source \n");
    assert_eq!(r, "Content from dest\n\n## Merged from _test-merge-source\n\nContent from source");
}

#[test]
fn build_note_content_with_and_without_fields() {
    assert_eq!(build_note_content("body", None), "body");
    assert_eq!(build_note_content("body", Some(&Frontmatter::new())), "body");
    assert_eq!(build_note_content("body", Some(&fm(&[("k", "v")]))), "---\nk: v\n---\nbody");
}

#[test]
fn query_matching_ignores_case() {
    assert!(content_matches_query("Hello World", "world"));
    assert!(content_matches_query("Hello World", ""));
    assert!(!content_matches_query("abc", "xyz"));
}

#[test]
fn search_tags_are_normalized() {
    let r = normalize_search_tags(&strings(&["#project", " Project ", "##A", "  "]));
    assert_eq!(r, strings(&["project", "project", "a", ""]));
}

#[test]
fn tag_matching_all_and_any() {
    let note = tag_set(&["Project", "test"]);
    assert!(matches_tags(&note, &strings(&["project"]), "any"));
    assert!(!matches_tags(&note, &strings(&["project", "other"]), "all"));
    assert!(matches_tags(&note, &strings(&["project", "other"]), "any"));
    assert!(matches_tags(&note, &strings(&["project", "test"]), "all"));
    assert!(matches_tags(&note, &Vec::new(), "all"));
    assert!(!matches_tags(&note, &Vec::new(), "any"));
}

#[test]
fn frontmatter_filters() {
    let f = fm(&[("status", "done"), ("tags", "x")]);
    assert!(frontmatter_matches(&f, &fm(&[("status", "done")])));
    assert!(!frontmatter_matches(&f, &fm(&[("status", "open")])));
    assert!(!frontmatter_matches(&f, &fm(&[("missing", "x")])));
    assert!(frontmatter_matches(&f, &Frontmatter::new()));
}

#[test]
fn tag_counts_rank_by_notes_then_name() {
    let notes = vec![tag_set(&["project", "test"]), tag_set(&["test"]), tag_set(&["alpha"])];
    let r = tag_counts(&notes);
    assert_eq!(
        r,
        vec![("test".to_string(), 2), ("alpha".to_string(), 1), ("project".to_string(), 1)]
    );
}

#[test]
fn note_keys_and_link_targets() {
    assert_eq!(note_key("a.md.md"), "a");
    assert_eq!(note_key("note"), "note");
    assert_eq!(link_target("dir/a.md"), "dir/a");
    assert_eq!(link_target("a.md.md"), "a.md");
    assert_eq!(link_target("md"), "md");
}

#[test]
fn relatedness_counts_words_found() {
    let words = strings(&["machine", "learning", "zephyr"]);
    assert_eq!(relatedness(&words, "About Machine LEARNING."), 2);
    assert_eq!(relatedness(&words, "nothing"), 0);
}

#[test]
fn related_targets_best_first_stable() {
    let c = vec![
        ("a".to_string(), 1),
        ("b".to_string(), 3),
        ("c".to_string(), 3),
        ("d".to_string(), 2),
    ];
    assert_eq!(related_targets(&c, 2), strings(&["b", "c"]));
    assert_eq!(related_targets(&c, 5), strings(&["b", "c", "d", "a"]));
}

#[test]
fn related_section_is_added_once() {
    let r = related_note_content(&Frontmatter::new(), "  body text \n", &strings(&["x", "y"]));
    assert_eq!(r, Some("body text\n\n## Related\n\n- [[x]]\n- [[y]]\n".to_string()));
    let r = related_note_content(&fm(&[("k", "v")]), "body", &strings(&["x"]));
    assert_eq!(r, Some("---\nk: v\n---\nbody\n\n## Related\n\n- [[x]]\n".to_string()));
    assert_eq!(related_note_content(&Frontmatter::new(), "a\n## Related\n", &strings(&["x"])), None);
    assert_eq!(related_note_content(&Frontmatter::new(), "body", &Vec::new()), None);
}

#[test]
fn significant_words_rank_frequency_over_alphabet() {
    let text = "apple banana cherry dolphin eagle falcon giraffe hedgehog iguana jellyfish zephyr. Zephyr is the topic. This note is about zephyr.";
    let w = extract_significant_words(text, 10);
    assert_eq!(w.len(), 10);
    assert_eq!(w[0], "zephyr");
    assert!(!w.contains(&"the".to_string()));
}

#[test]
fn dates_are_checked() {
    assert_eq!(validate_date("2024-03-05"), Ok(()));
    assert_eq!(validate_date("2024-3-05"), Err(DateError::Format));
    assert_eq!(validate_date("20240-3-01"), Err(DateError::Format));
    assert_eq!(validate_date("abcd-ef-gh"), Err(DateError::Format));
    assert_eq!(validate_date("2024-13-01"), Err(DateError::OutOfRange));
    assert_eq!(validate_date("2024-00-10"), Err(DateError::OutOfRange));
    assert_eq!(validate_date("2024-01-32"), Err(DateError::OutOfRange));
    assert_eq!(validate_date("1899-01-01"), Err(DateError::OutOfRange));
    assert_eq!(validate_date("1900-12-31"), Ok(()));
}

#[test]
fn daily_note_starts_with_date_heading() {
    assert_eq!(daily_note_text("2024-03-05"), "# 2024-03-05\n\n");
}

#[test]
fn file_names() {
    assert_eq!(md_file("note"), "note.md");
    assert_eq!(trash_name("_test-trash-collide", 1, ".md"), "_test-trash-collide (1).md");
    assert_eq!(trash_name("n", 12, ""), "n (12)");
    assert_eq!(walk_depth(None), 10);
    assert_eq!(walk_depth(Some(5)), 5);
    assert_eq!(walk_depth(Some(50)), 20);
}

#[test]
fn list_entries() {
    assert_eq!(entry_label("dir\\sub", true, false), Some("dir/sub/".to_string()));
    assert_eq!(entry_label("a.md", false, true), Some("a.md".to_string()));
    assert_eq!(entry_label("x.png", false, false), None);
    assert_eq!(entry_label("", true, false), None);
}

#[test]
fn paths_within_vault() {
    assert!(is_within(&strings(&["home", "v", "a"]), &strings(&["home", "v"])));
    assert!(is_within(&strings(&["home", "v"]), &strings(&["home", "v"])));
    assert!(!is_within(&strings(&["home", "vault2"]), &strings(&["home", "v"])));
    assert!(!is_within(&strings(&["home"]), &strings(&["home", "v"])));
}

#[test]
fn templates_folder_from_settings() {
    assert_eq!(configured_templates_folder("{\"folder\": \"tpl\"}"), Some("tpl".to_string()));
    assert_eq!(configured_templates_folder("{\"other\": 1, \"folder\": \"x/y\"}"), Some("x/y".to_string()));
    assert_eq!(configured_templates_folder("{\"folder\": 3}"), None);
    assert_eq!(configured_templates_folder("not json"), None);
    assert_eq!(configured_templates_folder("[1]"), None);
}

#[test]
fn keys_rank_highest_first_stable() {
    assert_eq!(rank_by_key(&vec![5, 9, 5, 1], 3), vec![1, 0, 2]);
    assert_eq!(rank_by_key(&vec![-3, 7], 10), vec![1, 0]);
    assert_eq!(rank_by_key(&vec![], 2), Vec::<usize>::new());
}

#[test]
fn names_sort_like_strings() {
    let r = sort_names(&strings(&["b", "a", "B", "ab", "a"]));
    assert_eq!(r, strings(&["B", "a", "a", "ab", "b"]));
}

#[test]
fn text_replacement() {
    let s: Vec<char> = "aXbXXc".chars().collect();
    let r = replace_text(&s, &['X'], &['-', '-']);
    assert_eq!(r.iter().collect::<String>(), "a--b----c");
    let s: Vec<char> = "aaaa".chars().collect();
    let r = replace_text(&s, &['a', 'a', 'a'], &['b']);
    assert_eq!(r.iter().collect::<String>(), "ba");
}

#[test]
fn relinking_after_rename() {
    let content = "See [[old]] and [[old|Alias]] and [[other]].";
    let links = extract_wikilinks(content);
    let (r, changed) = relinked_content(content, &links, "old", "new/place");
    assert!(changed);
    assert_eq!(r, "See [[new/place]] and [[new/place|Alias]] and [[other]].");
    let (r, changed) = relinked_content(content, &links, "absent", "x");
    assert!(!changed);
    assert_eq!(r, content);
}

#[test]
fn backlinks_and_orphans() {
    assert!(links_to(&strings(&["note1", "x"]), "note1"));
    assert!(links_to(&strings(&["note1.md"]), "note1"));
    assert!(links_to(&strings(&["sub/note1"]), "note1"));
    assert!(!links_to(&strings(&["note10"]), "note1"));
    let notes = strings(&["a.md", "b.md", "dir/c.md"]);
    assert_eq!(orphan_notes(&notes, &strings(&["b", "other/c.md"])), strings(&["a.md"]));
}

#[test]
fn file_stems_like_paths() {
    assert_eq!(file_stem("note1.md"), "note1");
    assert_eq!(file_stem("sub/note1"), "note1");
    assert_eq!(file_stem(".hidden"), ".hidden");
    assert_eq!(file_stem("a.b.c"), "a.b");
    assert_eq!(file_stem("note."), "note");
    assert_eq!(file_stem("..."), "..");
    assert_eq!(file_stem("dir/"), "dir");
    assert_eq!(file_stem("a//b/./"), "b");
    assert_eq!(file_stem("a/.."), "a/..");
    assert_eq!(file_stem(""), "");
}

#[test]
fn section_replace_keeps_other_sections() {
    let r = update_section_content(
        "# Title\n\n## Tasks\n\n- old\n\n## Notes\n\nUnrelated.\n",
        "## Tasks",
        "- new",
        "replace",
    );
    assert_eq!(r, Ok("# Title\n\n## Tasks\n- new\n## Notes\n\nUnrelated.\n".to_string()));
}

#[test]
fn section_append_goes_before_next_heading() {
    let r = update_section_content("## Tasks\n\n- one\n\n## Notes\n\nUnrelated.\n", "## Tasks", "- two", "append");
    assert_eq!(r, Ok("## Tasks\n\n- one\n\n- two\n## Notes\n\nUnrelated.\n".to_string()));
}

#[test]
fn section_append_keeps_subheadings() {
    let r = update_section_content(
        "## Tasks\n\n### Subtask\n\nDetail.\n\n## Notes\n\nOther.\n",
        "## Tasks",
        "- appended",
        "append",
    );
    assert_eq!(
        r,
        Ok("## Tasks\n\n### Subtask\n\nDetail.\n\n- appended\n## Notes\n\nOther.\n".to_string())
    );
}

#[test]
fn section_missing_is_created_at_end() {
    let r = update_section_content("# Title\n\nBody text.\n", "## Tasks", "- new task", "append");
    assert_eq!(r, Ok("# Title\n\nBody text.\n\n## Tasks\n- new task\n".to_string()));
}

#[test]
fn section_replace_at_end_without_newline() {
    let r = update_section_content("## Tasks", "## Tasks", "- new", "replace");
    assert_eq!(r, Ok("## Tasks\n- new\n".to_string()));
}

#[test]
fn section_update_errors() {
    assert_eq!(
        update_section_content("## Tasks\n\n- one\n", "## Tasks", "x", "bogus"),
        Err(UpdateSectionError::InvalidMode)
    );
    assert_eq!(
        update_section_content("# Title\n\nBody.\n", "Tasks", "content", "append"),
        Err(UpdateSectionError::MissingHeadingMarker)
    );
    assert_eq!(
        update_section_content("## Notes\n\nFirst.\n\n## Other\n\nMiddle.\n\n## Notes\n\nSecond.\n", "## Notes", "x", "append"),
        Err(UpdateSectionError::Ambiguous(2))
    );
}

#[test]
fn section_update_keeps_frontmatter() {
    let r = update_section_content("---\nk: v\n---\n## Tasks\n- a\n", "## Tasks", "- b", "replace");
    assert_eq!(r, Ok("---\nk: v\n---\n## Tasks\n- b\n".to_string()));
}

#[test]
fn section_text_reads_one_section() {
    let body = "# Title\n\n## Tasks\n\n- one\n- two\n\n## Notes\n\nSome notes.\n";
    assert_eq!(section_text(body, "## Tasks"), Ok("## Tasks\n\n- one\n- two".to_string()));
    assert_eq!(section_text(body, "## Nonexistent"), Err(SectionError::NotFound));
}

#[test]
fn retag_adds_frontmatter_tag() {
    let r = retag_note("bulk-taggable content", &strings(&["new-tag"]), &[]);
    assert_eq!(r, Some("---\ntags: new-tag\n---\nbulk-taggable content".to_string()));
    let parsed = parse(&r.unwrap());
    assert_eq!(parsed.frontmatter.get("tags").unwrap(), "new-tag");
}

#[test]
fn retag_removes_case_insensitively_and_inline() {
    let r = retag_note("---\ntags: Project\n---\nbody #project here", &[], &strings(&["project"]));
    assert_eq!(r, Some("---\ntags: \n---\nbody here".to_string()));
    assert_eq!(retag_note("no tags here", &[], &[]), None);
}

#[test]
fn frontmatter_tags_update() {
    let mut f = fm(&[("tags", "a, #b")]);
    assert!(update_frontmatter_tags(&mut f, &strings(&["B", "c"]), &strings(&["A"])));
    assert_eq!(f.get("tags").unwrap(), "b, c");
    let mut g = fm(&[("x", "1")]);
    assert!(!update_frontmatter_tags(&mut g, &[], &[]));
    assert!(g.get("tags").is_none());
}

#[test]
fn inline_removal_without_targets_is_identity() {
    assert_eq!(remove_inline_tags("a #x b", &strings(&["  ", "#"])), ("a #x b".to_string(), false));
    assert_eq!(remove_inline_tags("a #x b", &strings(&["X"])), ("a b".to_string(), true));
}

#[test]
fn insert_then_get_reads_back() {
    let mut f = fm(&[("a", "1"), ("b", "2")]);
    f.insert("a".to_string(), "9".to_string());
    assert_eq!(f.get("a").unwrap(), "9");
    assert_eq!(f.get("b").unwrap(), "2");
    assert_eq!(f.len(), 2);
}

#[test]
fn extracted_tags_are_well_formed() {
    let tags = obsidian_mcp::parse::tags::extract_tags("#2024 #ok #a-b/c x#no #");
    assert!(tags.contains("ok"));
    assert!(tags.contains("a-b/c"));
    assert!(!tags.contains("2024"));
    assert!(!tags.contains("no"));
    assert_eq!(tags.len(), 2);
}

#[test]
fn note_paths_are_checked() {
    assert_eq!(check_note_path(".obsidian/graph.json"), Err(PathError::Hidden));
    assert_eq!(check_note_path("notes/.trash/x.md"), Err(PathError::Hidden));
    assert_eq!(check_note_path(""), Err(PathError::Empty));
    assert_eq!(check_note_path("  "), Err(PathError::Empty));
    assert_eq!(check_note_path("./_test-dotslash.md"), Ok(()));
    assert_eq!(check_note_path("../x.md"), Ok(()));
    assert_eq!(check_note_path("a/b.c/d.md"), Ok(()));
    assert_eq!(check_note_path("."), Ok(()));
}

#[test]
fn relative_paths_use_slashes() {
    assert_eq!(slashed_path("a\\b\\c.md"), "a/b/c.md");
    assert_eq!(slashed_path("plain"), "plain");
}

#[test]
fn replacing_a_section_twice_settles() {
    for existing in ["# Title\n\nBody\n", "## Tasks\n- old\n## Notes\nx\n", "## Tasks"] {
        let once = update_section_content(existing, "## Tasks", "- a\n### Sub\n", "replace").unwrap();
        let twice = update_section_content(&once, "## Tasks", "- a\n### Sub\n", "replace").unwrap();
        assert_eq!(once, twice);
    }
}

#[test]
fn hash_prefix_does_not_change_a_search() {
    let r = normalize_search_tags(&strings(&["#Project", "Project"]));
    assert_eq!(r[0], r[1]);
}

#[test]
fn trash_names_never_repeat() {
    let names: Vec<String> = (1..=12).map(|c| trash_name("note", c, ".md")).collect();
    for (i, a) in names.iter().enumerate() {
        assert_ne!(a, "note.md");
        for b in &names[i + 1..] {
            assert_ne!(a, b);
        }
    }
}

#[test]
fn removed_frontmatter_tags_are_gone() {
    let mut f = fm(&[("tags", "Alpha, beta, gamma")]);
    assert!(update_frontmatter_tags(&mut f, &[], &strings(&["alpha", "#GAMMA"])));
    assert_eq!(f.get("tags").unwrap(), "beta");
}

#[test]
fn templates_folder_from_parsed_settings() {
    let doc = JsonValue::Object(vec![
        ("a".to_string(), JsonValue::Null),
        ("folder".to_string(), JsonValue::Str("tpl".to_string())),
    ]);
    assert_eq!(templates_folder_of(&doc), Some("tpl".to_string()));
    assert_eq!(templates_folder_of(&JsonValue::Array(vec![])), None);
    let doc = JsonValue::Object(vec![("folder".to_string(), JsonValue::Bool(true))]);
    assert_eq!(templates_folder_of(&doc), None);
}

#[test]
fn frontmatter_comes_from_the_first_mapping_document() {
    let first = YamlValue::Mapping(vec![
        (YamlValue::Str("k".to_string()), YamlValue::Int(3)),
        (YamlValue::Int(1), YamlValue::Str("skipped".to_string())),
        (YamlValue::Str("m".to_string()), YamlValue::Mapping(vec![])),
    ]);
    let second = YamlValue::Mapping(vec![(YamlValue::Str("x".to_string()), YamlValue::Null)]);
    let fm = frontmatter_from_documents(&vec![first, second]);
    assert_eq!(fm.len(), 1);
    assert_eq!(fm.get("k").unwrap(), "3");
    assert!(frontmatter_from_documents(&vec![YamlValue::Str("a".to_string())]).is_empty());
    assert!(frontmatter_from_documents(&vec![]).is_empty());
}

#[test]
fn built_note_parses_back_to_its_fields_and_body() {
    let f = fm(&[("title", "Plan"), ("status", "draft"), ("Owner", "Ada")]);
    let note = build_note_content("\n\n# Heading\nText", Some(&f));
    let parsed = parse(&note);
    assert_eq!(parsed.frontmatter.entries(), f.entries());
    assert_eq!(parsed.body, "# Heading\nText");
}

#[test]
fn built_note_with_schema_words_does_not_keep_them_as_text() {
    let f = fm(&[("done", "true"), ("gone", "null")]);
    let note = build_note_content("x", Some(&f));
    let parsed = parse(&note);
    assert_eq!(parsed.frontmatter.get("done").unwrap(), "true");
    assert_eq!(parsed.frontmatter.get("gone").unwrap(), "");
}

#[test]
fn removed_inline_tags_are_gone_and_others_stay() {
    let body = "#Alpha intro #beta\tand #ALPHA again #gamma/sub #x-1";
    let (out, changed) = remove_inline_tags(body, &["alpha".to_string(), "#X-1".to_string()]);
    assert!(changed);
    let after = extract_tags(&out);
    let mut names: Vec<String> = after.items().clone();
    names.sort();
    assert_eq!(names, vec!["beta".to_string(), "gamma/sub".to_string()]);
    let before = extract_tags(body);
    for t in before.items() {
        let removed = t.to_lowercase() == "alpha" || t.to_lowercase() == "x-1";
        assert_eq!(after.contains(t), !removed);
    }
}
