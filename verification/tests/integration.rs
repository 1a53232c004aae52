use obsidian_mcp::parse::frontmatter::Frontmatter;

#[test]
fn test_frontmatter_parsing() {
    let content = "---\ntags: project, test\nstatus: active\n---\n# Note 1\n\nBody here.";
    let parsed = obsidian_mcp::parse::frontmatter::parse(content);
    assert_eq!(parsed.frontmatter.get("tags").unwrap(), "project, test");
    assert_eq!(parsed.frontmatter.get("status").unwrap(), "active");
    assert!(parsed.body.contains("# Note 1"));
}

#[test]
fn test_frontmatter_rejects_yaml_anchors_and_aliases() {
    // A small anchor/alias-based YAML payload amplifies into millions of
    // elements ("billion laughs"). Frontmatter containing anchors/aliases
    // must be treated as absent (same fallback as oversized frontmatter),
    // not parsed.
    let content = "---\na: &a [\"x\",\"x\"]\nb: [*a,*a]\n---\n# Note\n\nBody.";
    let parsed = obsidian_mcp::parse::frontmatter::parse(content);
    assert!(parsed.frontmatter.is_empty(), "anchor/alias frontmatter should be rejected, not parsed: {:?}", parsed.frontmatter);
}

#[test]
fn test_frontmatter_anchor_alias_amplification_is_bounded() {
    let mut yaml = String::new();
    yaml.push_str("a: &a [\"x\",\"x\",\"x\",\"x\",\"x\",\"x\",\"x\",\"x\",\"x\",\"x\"]\n");
    let mut prev = 'a';
    for cur in ['b', 'c', 'd', 'e', 'f', 'g'] {
        yaml.push_str(&format!(
            "{}: &{} [*{},*{},*{},*{},*{},*{},*{},*{},*{},*{}]\n",
            cur, cur, prev, prev, prev, prev, prev, prev, prev, prev, prev, prev
        ));
        prev = cur;
    }
    assert!(yaml.len() < 8192);
    let content = format!("---\n{}---\n# Body\n", yaml);

    let start = std::time::Instant::now();
    let parsed = obsidian_mcp::parse::frontmatter::parse(&content);
    let elapsed = start.elapsed();

    assert!(parsed.frontmatter.is_empty());
    assert!(elapsed.as_millis() < 500, "amplification payload took {:?}, expected near-instant rejection", elapsed);
}

#[test]
fn test_frontmatter_no_frontmatter() {
    let content = "# Just a heading\n\nNo frontmatter.";
    let parsed = obsidian_mcp::parse::frontmatter::parse(content);
    assert!(parsed.frontmatter.is_empty());
    assert!(parsed.body.contains("# Just a heading"));
}

#[test]
fn test_wikilink_extraction() {
    let content = "Link to [[note2]] and [[note3|Note Three]].";
    let links = obsidian_mcp::parse::wikilink::extract_wikilinks(content);
    assert_eq!(links.len(), 2);
    assert_eq!(links[0].target, "note2");
    assert_eq!(links[0].alias, None);
    assert_eq!(links[1].target, "note3");
    assert_eq!(links[1].alias, Some("Note Three".to_string()));
}

#[test]
fn test_tag_extraction() {
    let content = "Some text #project #test/tags here.";
    let tags = obsidian_mcp::parse::tags::extract_tags(content);
    assert!(tags.contains("project"));
    assert!(tags.contains("test/tags"));
}

#[test]
fn test_tag_extraction_from_frontmatter() {
    let mut fm = Frontmatter::new();
    fm.insert("tags".to_string(), "alpha, beta".to_string());
    let tags = obsidian_mcp::parse::tags::extract_tags_from_frontmatter(&fm);
    assert!(tags.contains("alpha"));
    assert!(tags.contains("beta"));
}

#[test]
fn test_tag_extraction_ignores_wikilink_heading_refs() {
    let content = "See [[Project Plan#Milestones]] for details.";
    let tags = obsidian_mcp::parse::tags::extract_tags(content);
    assert!(!tags.contains("Milestones"), "wikilink heading ref falsely extracted as tag: {:?}", tags);
}

#[test]
fn test_tag_extraction_ignores_url_anchors() {
    let content = "Source: https://example.com/page#section-two";
    let tags = obsidian_mcp::parse::tags::extract_tags(content);
    assert!(!tags.contains("section-two"), "URL anchor falsely extracted as tag: {:?}", tags);
}

#[test]
fn test_tag_extraction_ignores_code_blocks() {
    let content = "Inline `#ffffff` color and:\n```\n#include <stdio.h>\n```\nreal #tag here.";
    let tags = obsidian_mcp::parse::tags::extract_tags(content);
    assert!(!tags.contains("ffffff"), "inline code hash falsely extracted as tag: {:?}", tags);
    assert!(!tags.contains("include"), "fenced code hash falsely extracted as tag: {:?}", tags);
    assert!(tags.contains("tag"), "real tag missed: {:?}", tags);
}

#[test]
fn test_tag_extraction_rejects_numeric_only_tags() {
    let content = "Filed under #2024 and #project2024.";
    let tags = obsidian_mcp::parse::tags::extract_tags(content);
    assert!(!tags.contains("2024"), "purely numeric tag should be invalid: {:?}", tags);
    assert!(tags.contains("project2024"));
}

#[test]
fn test_find_section_basic() {
    let body = "# Title\n\n## Tasks\n\n- one\n- two\n\n## Notes\n\nSome notes.\n";
    let section = obsidian_mcp::parse::sections::find_section(body, "## Tasks").unwrap();
    let text = &body[section.start..section.end];
    assert!(text.contains("- one"));
    assert!(text.contains("- two"));
    assert!(!text.contains("Some notes"));
}

#[test]
fn test_find_section_not_found() {
    let body = "# Title\n\n## Tasks\n\nContent.\n";
    let err = obsidian_mcp::parse::sections::find_section(body, "## Nonexistent").unwrap_err();
    assert_eq!(err, obsidian_mcp::parse::sections::SectionError::NotFound);
}

#[test]
fn test_find_section_ambiguous() {
    let body = "## Notes\n\nFirst.\n\n## Other\n\nMiddle.\n\n## Notes\n\nSecond.\n";
    let err = obsidian_mcp::parse::sections::find_section(body, "## Notes").unwrap_err();
    assert_eq!(err, obsidian_mcp::parse::sections::SectionError::Ambiguous(2));
}

#[test]
fn test_find_section_nested_subheadings_included() {
    let body = "## Tasks\n\n### Subtask A\n\nDetail.\n\n## Notes\n\nOther.\n";
    let section = obsidian_mcp::parse::sections::find_section(body, "## Tasks").unwrap();
    let text = &body[section.start..section.end];
    assert!(text.contains("### Subtask A"));
    assert!(text.contains("Detail."));
    assert!(!text.contains("## Notes"));
}

#[test]
fn test_find_section_end_of_document() {
    let body = "# Title\n\n## Tasks\n\nOnly section, runs to EOF.\n";
    let section = obsidian_mcp::parse::sections::find_section(body, "## Tasks").unwrap();
    assert_eq!(section.end, body.len());
}

#[test]
fn test_find_section_ignores_hashtag_without_space() {
    // A line starting with '#project' (no space) is an inline Obsidian tag,
    // not a heading, and must not be mistaken for a level-1 heading with
    // text "project".
    let body = "#project\n\n## Tasks\n\nContent.\n";
    let err = obsidian_mcp::parse::sections::find_section(body, "# project").unwrap_err();
    assert_eq!(err, obsidian_mcp::parse::sections::SectionError::NotFound);
}
