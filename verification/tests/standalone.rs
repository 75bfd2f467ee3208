//! Reading the elements of a note.
use turbovault::prose::Frontmatter;
use turbovault::standalone::{LinkKind, ParseOptions, ParsedContent};

#[test]
fn test_parse_complete() {
    let content = r#"---
title: Test Note
tags: [test]
---

# Heading 1

This has [[WikiLink]] and [markdown](url).

## Heading 2

- [ ] Task 1
- [x] Task 2 #tag

> [!NOTE]
> Callout content

![[image.png]]
"#;

    let parsed = ParsedContent::parse(content);

    assert!(parsed.frontmatter.is_some());
    assert_eq!(parsed.headings.len(), 2);
    assert_eq!(parsed.wikilinks.len(), 1);
    assert_eq!(parsed.markdown_links.len(), 1);
    assert_eq!(parsed.tasks.len(), 2);
    assert_eq!(parsed.tags.len(), 1);
    assert_eq!(parsed.callouts.len(), 1);
    assert_eq!(parsed.embeds.len(), 1);
}

#[test]
fn test_all_links() {
    let content = "[[wiki]] and [md](url) and ![[embed]]";
    let parsed = ParsedContent::parse(content);
    assert_eq!(parsed.all_links().iter().count(), 3);
    assert_eq!(parsed.link_count(), 3);
    assert!(parsed.has_links());
}

#[test]
fn each_kind_of_link_counts_alone() {
    for content in ["[[wiki]]", "![[embed]]", "[md](url)"] {
        let parsed = ParsedContent::parse(content);
        assert!(parsed.has_links(), "{content}");
        assert_eq!(parsed.link_count(), 1, "{content}");
        assert_eq!(parsed.all_links().len(), 1, "{content}");
        assert!(!parsed.is_empty(), "{content}");
    }
    let parsed = ParsedContent::parse("# Heading");
    assert!(!parsed.has_links());
    assert_eq!(parsed.link_count(), 0);
    assert!(!parsed.is_empty());
}

#[test]
fn test_empty_content() {
    let parsed = ParsedContent::parse("");
    assert!(parsed.frontmatter.is_none());
    assert!(parsed.headings.is_empty());
    assert!(!parsed.has_links());
    assert!(parsed.is_empty());
}

#[test]
fn test_parse_options_none() {
    let content = "# Title\n\n[[Link]] #tag";
    let parsed = ParsedContent::parse_with_options(content, ParseOptions::none());

    assert!(parsed.frontmatter.is_none());
    assert!(parsed.headings.is_empty());
    assert!(parsed.wikilinks.is_empty());
    assert!(parsed.tags.is_empty());
}

#[test]
fn test_parse_options_links_only() {
    let content = "# Title\n\n[[Link]] #tag";
    let parsed = ParsedContent::parse_with_options(content, ParseOptions::links_only());

    assert!(parsed.headings.is_empty());
    assert_eq!(parsed.wikilinks.len(), 1);
    assert!(parsed.tags.is_empty());
}

#[test]
fn test_parse_options_treemd() {
    let content = r#"# Title

[[Link]] #tag

> [!NOTE] Title
> Content here
"#;
    let parsed = ParsedContent::parse_with_options(content, ParseOptions::treemd());

    assert_eq!(parsed.headings.len(), 1);
    assert_eq!(parsed.wikilinks.len(), 1);
    assert!(parsed.tags.is_empty());
    assert_eq!(parsed.callouts.len(), 1);
    assert_eq!(parsed.callouts[0].content, "Content here");
}

#[test]
fn test_full_callouts() {
    let content = r#"> [!WARNING] Important
> Line 1
> Line 2"#;

    let simple = ParsedContent::parse_with_options(content, ParseOptions::all());
    let full = ParsedContent::parse_with_options(content, ParseOptions::all().with_full_callouts());

    assert!(simple.callouts[0].content.is_empty());
    assert_eq!(full.callouts[0].content, "Line 1\nLine 2");
}

#[test]
fn test_frontmatter_parsing() {
    let content = r#"---
title: Test
author: Alice
---

Content here"#;

    let parsed = ParsedContent::parse(content);
    let fm = parsed.frontmatter.unwrap();
    assert_eq!(fm.get("title").and_then(|v| v.text.as_deref()), Some("Test"));
    assert_eq!(fm.get("author").and_then(|v| v.text.as_deref()), Some("Alice"));
}

#[test]
fn test_position_tracking() {
    let content = "Line 1\n[[Link]] on line 2";
    let parsed = ParsedContent::parse(content);

    assert_eq!(parsed.wikilinks[0].position.line, 2);
    assert_eq!(parsed.wikilinks[0].position.column, 1);
}

#[test]
fn test_code_block_awareness() {
    let content = r#"
Normal [[Valid Link]] here.

```rust
// This is a code block
let link = "[[Fake Link Inside Code]]";
```

Also valid: [[Another Valid Link]]
"#;

    let parsed = ParsedContent::parse(content);

    assert_eq!(parsed.wikilinks.len(), 2);
    assert_eq!(parsed.wikilinks[0].target, "Valid Link");
    assert_eq!(parsed.wikilinks[1].target, "Another Valid Link");
}

#[test]
fn a_short_note_holds_one_of_each() {
    let content = "---\ntitle: My Note\n---\n\n# Heading\n\n[[WikiLink]] and [markdown](link) with #tag\n\n> [!NOTE] A callout\n> With content\n";
    let parsed = ParsedContent::parse(content);
    assert!(parsed.frontmatter.is_some());
    assert_eq!(parsed.wikilinks.len(), 1);
    assert_eq!(parsed.markdown_links.len(), 1);
    assert_eq!(parsed.tags.len(), 1);
    assert_eq!(parsed.headings[0].text, "Heading");
    assert_eq!(parsed.headings[0].level, 1);
    assert_eq!(parsed.headings[0].position.line, 5);
    assert_eq!(parsed.callouts[0].kind, "NOTE");
    assert_eq!(parsed.callouts[0].title.as_deref(), Some("A callout"));
}

#[test]
fn only_front_matter_is_read_when_only_it_is_asked_for() {
    let options = ParseOptions::none().with_frontmatter();
    let parsed = ParsedContent::parse_with_options("# Title\n\n[[Link]] and #tag", options);
    assert!(parsed.headings.is_empty());
    assert!(parsed.frontmatter.is_none());
    let parsed = ParsedContent::parse_with_options("---\na: 'b c'\n---\n# T", options);
    assert_eq!(parsed.frontmatter.unwrap().get("a").unwrap().text.as_deref(), Some("b c"));
    assert!(parsed.headings.is_empty());
}

#[test]
fn default_options_ask_for_everything() {
    assert_eq!(ParseOptions::default(), ParseOptions::all());
    assert!(ParsedContent::default().is_empty());
}

#[test]
fn wikilinks_have_targets_aliases_and_kinds() {
    let parsed = ParsedContent::parse("[[a]] [[b|shown]] [[c#part]] [[d#^block]] ![[e.png|200]]");
    let kinds: Vec<LinkKind> = parsed.wikilinks.iter().map(|l| l.kind).collect();
    assert_eq!(
        kinds,
        vec![LinkKind::Wikilink, LinkKind::Wikilink, LinkKind::HeadingRef, LinkKind::BlockRef]
    );
    assert_eq!(parsed.wikilinks[1].target, "b");
    assert_eq!(parsed.wikilinks[1].display.as_deref(), Some("shown"));
    assert_eq!(parsed.wikilinks[2].target, "c#part");
    assert_eq!(parsed.wikilinks[0].display, None);
    assert_eq!(parsed.embeds.len(), 1);
    assert_eq!(parsed.embeds[0].kind, LinkKind::Embed);
    assert_eq!(parsed.embeds[0].target, "e.png");
    assert_eq!(parsed.embeds[0].position.column, 43);
}

#[test]
fn inline_code_and_escapes_hide_links() {
    let parsed = ParsedContent::parse("`[[code]]` \\[[not]] ``a ` [[b]]`` [[yes]] ` [[open]]");
    let targets: Vec<&str> = parsed.wikilinks.iter().map(|l| l.target.as_str()).collect();
    assert_eq!(targets, vec!["yes", "open"]);
}

#[test]
fn images_are_not_links_and_boxes_are_not_link_texts() {
    let parsed = ParsedContent::parse("![alt](pic.png) [ ] [text](target here) [[]] [a]");
    assert_eq!(parsed.markdown_links.len(), 1);
    assert_eq!(parsed.markdown_links[0].target, "target here");
    assert_eq!(parsed.markdown_links[0].display.as_deref(), Some("text"));
    assert_eq!(parsed.markdown_links[0].kind, LinkKind::Markdown);
    assert!(parsed.wikilinks.is_empty());
}

#[test]
fn tags_are_names_behind_white_space() {
    let parsed = ParsedContent::parse("#one a#no #123 #par/child-2 x #y1");
    let names: Vec<&str> = parsed.tags.iter().map(|t| t.name.as_str()).collect();
    assert_eq!(names, vec!["one", "par/child-2", "y1"]);
    assert_eq!(parsed.tags[1].position.column, 16);
}

#[test]
fn tasks_are_bullets_with_a_box() {
    let parsed = ParsedContent::parse("- [ ] open\n  * [X] done\n- [y] no\n-[ ] no\n+ [x]");
    assert_eq!(parsed.tasks.len(), 3);
    assert_eq!(parsed.tasks[0].content, "open");
    assert!(!parsed.tasks[0].is_completed);
    assert_eq!(parsed.tasks[1].content, "done");
    assert!(parsed.tasks[1].is_completed);
    assert_eq!(parsed.tasks[1].position.line, 2);
    assert_eq!(parsed.tasks[2].content, "");
}

#[test]
fn a_callout_ends_with_its_quotation() {
    let content = "> [!tip]- Folded\n> one\n>two\n\n> apart\n> [!note]\n> three";
    let parsed = ParsedContent::parse_with_options(content, ParseOptions::treemd());
    assert_eq!(parsed.callouts.len(), 2);
    assert_eq!(parsed.callouts[0].kind, "tip");
    assert!(parsed.callouts[0].is_foldable);
    assert_eq!(parsed.callouts[0].title.as_deref(), Some("Folded"));
    assert_eq!(parsed.callouts[0].content, "one\ntwo");
    assert_eq!(parsed.callouts[1].title, None);
    assert_eq!(parsed.callouts[1].content, "three");
    assert_eq!(parsed.callouts[1].position.line, 6);
}

#[test]
fn front_matter_is_yaml() {
    let content = "---\ntitle: Test # c\ntags:\n  - one\n  - 2\n  - three\nabout: |\n  first\n  second\ndraft: true\n---\nbody";
    let front = ParsedContent::parse(content).frontmatter.unwrap();
    assert_eq!(front.title().as_deref(), Some("Test"));
    assert_eq!(front.tags(), vec!["one", "three"]);
    assert_eq!(front.get("tags").unwrap().json, "[\"one\",2,\"three\"]");
    assert_eq!(front.get("about").unwrap().text.as_deref(), Some("first\nsecond\n"));
    assert_eq!(front.get("draft").unwrap().text, None);
    assert_eq!(front.get("draft").unwrap().json, "true");

    let front = ParsedContent::parse("---\ntags: single\ntitle: 7\n---\n").frontmatter.unwrap();
    assert_eq!(front.tags(), vec!["single"]);
    assert_eq!(front.title(), None);

    for broken in ["- a\n- b\n", "a: [\n", ""] {
        let front = ParsedContent::parse(&format!("---\n{broken}---\n")).frontmatter.unwrap();
        assert_eq!(front.text, broken);
        assert!(front.data.is_empty());
        assert!(front.tags().is_empty());
    }
    let given = Frontmatter::with_fields("x".to_string(), None);
    assert!(given.data.is_empty());
}

#[test]
fn front_matter_needs_both_borders() {
    let parsed = ParsedContent::parse("---\ntitle: open\n\n# Heading");
    assert!(parsed.frontmatter.is_none());
    assert_eq!(parsed.headings.len(), 1);
    let parsed = ParsedContent::parse("---\n\"k\": \"v: w\"\nlist:\n  - x: 1\n# note: no\n---\n");
    let front = parsed.frontmatter.unwrap();
    assert_eq!(front.get("k").unwrap().text.as_deref(), Some("v: w"));
    let list = front.get("list").unwrap();
    assert_eq!(list.text, None);
    assert_eq!(list.items, Some(vec![None]));
    assert_eq!(list.json, "[{\"x\":1}]");
    assert!(front.get("note").is_none());
    assert_eq!(front.data.len(), 2);
    assert!(parsed.headings.is_empty());
}
