use mdbook_diataxis::{BookItem, Chapter, ConfigEntry, ConfigValue, DiataxisPreprocessor};

fn chapter(name: &str, content: &str, source_path: Option<&str>, sub_items: Vec<BookItem>) -> Chapter {
    Chapter {
        name: name.to_string(),
        content: content.to_string(),
        source_path: source_path.map(|p| p.to_string()),
        sub_items,
    }
}

fn entry(key: &str, value: ConfigValue) -> ConfigEntry {
    ConfigEntry { key: key.to_string(), value }
}

fn text(value: &str) -> ConfigValue {
    ConfigValue::Str(value.to_string())
}

fn section(prefix: &str, link: &str) -> ConfigValue {
    ConfigValue::Table(vec![
        entry("title", text(&format!("{prefix}-title"))),
        entry("description", text(&format!("{prefix}-description"))),
        entry("link", text(link)),
    ])
}

fn configured_table() -> Vec<ConfigEntry> {
    vec![entry(
        "compass",
        ConfigValue::Table(vec![
            entry("tutorials", section("custom-tutorials", "custom-tutorials/README.md")),
            entry("how-to-guides", section("custom-how-to-guides", "custom-how-to-guides-link.md")),
            entry("reference", section("custom-reference", "custom-reference-link.md")),
            entry("explanation", section("custom-explanation", "custom-explanation-link.md")),
        ]),
    )]
}

fn run_book(
    config: Option<&Vec<ConfigEntry>>,
    items: &mut Vec<BookItem>,
) -> Result<Vec<String>, mdbook_diataxis::PreprocessError> {
    let mut diags = Vec::new();
    DiataxisPreprocessor::new().run(config, items, &mut diags).map(|()| diags)
}

fn run_one(config: &Vec<ConfigEntry>, item: Chapter) -> Chapter {
    let mut items = vec![BookItem::Chapter(item)];
    run_book(Some(config), &mut items).unwrap();
    match items.remove(0) {
        BookItem::Chapter(chapter) => chapter,
        _ => panic!("unexpected first item"),
    }
}

fn compass_chapter() -> Chapter {
    chapter("Chapter 1", "# Chapter 1\n{{#diataxis compass}}", Some("chapter_1.md"), vec![])
}

fn toc_chapter() -> Chapter {
    chapter(
        "Chapter 1",
        "# Chapter 1\n{{#diataxis table-of-contents}}",
        Some("chapter_1/README.md"),
        vec![
            BookItem::Chapter(chapter(
                "Non-draft sub-chapter",
                "non-draft sub content",
                Some("chapter_1/dir/non_draft_sub.md"),
                vec![],
            )),
            BookItem::Chapter(chapter("Draft sub-chapter", "draft sub content", None, vec![])),
        ],
    )
}

fn check_default_compass(content: &str) {
    assert!(content.contains("Tutorials"));
    assert!(content.contains("How-to guides"));
    assert!(content.contains("Reference"));
    assert!(content.contains("Explanation"));
}

fn check_configured_compass(content: &str) {
    assert!(content.contains("custom-tutorials-title"));
    assert!(content.contains("custom-tutorials-description"));
    assert!(content.contains(r#"href="custom-tutorials/index.html""#));
    assert!(content.contains("custom-how-to-guides-title"));
    assert!(content.contains("custom-how-to-guides-description"));
    assert!(content.contains(r#"href="custom-how-to-guides-link.html""#));
    assert!(content.contains("custom-reference-title"));
    assert!(content.contains("custom-reference-description"));
    assert!(content.contains(r#"href="custom-reference-link.html""#));
    assert!(content.contains("custom-explanation-title"));
    assert!(content.contains("custom-explanation-description"));
    assert!(content.contains(r#"href="custom-explanation-link.html""#));
}

fn check_toc(content: &str) {
    assert!(content.contains("- [Non-draft sub-chapter](dir/non_draft_sub.md)"));
    assert!(content.contains("- Draft sub-chapter"));
}

#[test]
fn lib_default() {
    let chapter = run_one(&vec![], compass_chapter());
    check_default_compass(&chapter.content);
}

#[test]
fn lib_configured() {
    let chapter = run_one(&configured_table(), compass_chapter());
    check_configured_compass(&chapter.content);
}

#[test]
fn lib_toc_default() {
    let chapter = run_one(&vec![], toc_chapter());
    check_toc(&chapter.content);
}

#[test]
fn preprocessor_default() {
    let chapter = run_one(&vec![], compass_chapter());
    check_default_compass(&chapter.content);
}

#[test]
fn preprocessor_configured() {
    let chapter = run_one(&configured_table(), compass_chapter());
    check_configured_compass(&chapter.content);
}

#[test]
fn preprocessor_toc_default() {
    let chapter = run_one(&vec![], toc_chapter());
    check_toc(&chapter.content);
}

#[test]
fn compass_scenario_has_four_default_cards_in_order() {
    let mut items = vec![BookItem::Chapter(chapter(
        "Ch1",
        "# Ch1\n{{#diataxis compass}}",
        Some("ch1.md"),
        vec![],
    ))];
    let diags = run_book(None, &mut items).unwrap();
    assert!(diags.is_empty());
    let content = match &items[0] {
        BookItem::Chapter(c) => c.content.clone(),
        _ => panic!("unexpected first item"),
    };
    assert_eq!(content.matches("diataxis-card-header").count(), 4);
    let cards = [
        r#"<a href="./tutorials/index.html">Tutorials</a>"#,
        r#"<a href="./how-to/index.html">How-to guides</a>"#,
        r#"<a href="./explanations/index.html">Explanation</a>"#,
        r#"<a href="./reference-materials/index.html">Reference</a>"#,
    ];
    let positions: Vec<usize> = cards.iter().map(|c| content.find(c).expect(c)).collect();
    assert!(positions.windows(2).all(|w| w[0] < w[1]));
    assert!(content.contains("# Ch1"));
    assert!(!content.contains("{{#diataxis"));
}

#[test]
fn toc_scenario_links_sub_chapter_and_lists_draft() {
    let mut items = vec![BookItem::Chapter(chapter(
        "A",
        "{{#diataxis table-of-contents}}",
        Some("a/README.md"),
        vec![
            BookItem::Chapter(chapter("x", "", Some("a/dir/x.md"), vec![])),
            BookItem::Separator,
            BookItem::Chapter(chapter("draft name", "", None, vec![])),
        ],
    ))];
    run_book(None, &mut items).unwrap();
    let content = match &items[0] {
        BookItem::Chapter(c) => c.content.clone(),
        _ => panic!("unexpected first item"),
    };
    let link = content.find("- [x](dir/x.md)").expect("link line");
    let draft = content.find("- draft name").expect("draft line");
    assert!(link < draft);
    assert!(!content.contains("[draft name]"));
}

#[test]
fn nested_chapters_are_rewritten() {
    let inner = chapter("Inner", "{{#diataxis compass}}", Some("outer/inner.md"), vec![]);
    let outer = chapter("Outer", "Outer text", Some("outer/README.md"), vec![BookItem::Chapter(inner)]);
    let mut items = vec![BookItem::PartTitle("Part".to_string()), BookItem::Chapter(outer)];
    run_book(None, &mut items).unwrap();
    assert!(matches!(&items[0], BookItem::PartTitle(t) if t == "Part"));
    let outer = match &items[1] {
        BookItem::Chapter(c) => c,
        _ => panic!("unexpected second item"),
    };
    assert_eq!(outer.name, "Outer");
    let inner = match &outer.sub_items[0] {
        BookItem::Chapter(c) => c,
        _ => panic!("unexpected sub-item"),
    };
    assert!(inner.content.contains("diataxis-card-header"));
    assert!(!inner.content.contains("{{#diataxis"));
}

#[test]
fn structure_around_directive_is_kept() {
    let chapter = run_one(
        &vec![],
        chapter(
            "Ch",
            "# Title\n\nSome *emphasis* and `code` then {{#diataxis table-of-contents}} end.\n",
            Some("ch/README.md"),
            vec![BookItem::Chapter(chapter("Sub", "", Some("ch/sub.md"), vec![]))],
        ),
    );
    assert!(chapter.content.contains("# Title"));
    assert!(chapter.content.contains("*emphasis*"));
    assert!(chapter.content.contains("`code`"));
    assert!(chapter.content.contains("[Sub](sub.md)"));
    assert!(chapter.content.contains("end."));
}

#[test]
fn malformed_directive_is_kept_and_reported() {
    let mut items = vec![BookItem::Chapter(chapter(
        "Ch",
        "Before {{#diataxis unknown}} after",
        Some("ch.md"),
        vec![],
    ))];
    let diags = run_book(None, &mut items).unwrap();
    assert_eq!(diags, vec!["ch.md".to_string()]);
    let content = match &items[0] {
        BookItem::Chapter(c) => c.content.clone(),
        _ => panic!("unexpected first item"),
    };
    assert!(content.contains("{{#diataxis unknown}}"));
}

#[test]
fn wrong_config_shape_stops_before_rewriting() {
    let content = "{{#diataxis compass}}";
    let mut items = vec![BookItem::Chapter(chapter("Ch", content, Some("ch.md"), vec![]))];
    let table = vec![entry("compass", text("not a table"))];
    let result = run_book(Some(&table), &mut items);
    assert!(matches!(
        result,
        Err(mdbook_diataxis::PreprocessError::Config(mdbook_diataxis::ConfigError::CompassNotTable))
    ));
    match &items[0] {
        BookItem::Chapter(c) => assert_eq!(c.content, content),
        _ => panic!("unexpected first item"),
    }
}

#[test]
fn supports_only_html() {
    let p = DiataxisPreprocessor::new();
    assert!(p.supports_renderer("html"));
    assert!(!p.supports_renderer("pdf"));
    assert!(!p.supports_renderer("htm"));
    assert_eq!(p.name(), "mdbook-diataxis");
}

#[test]
fn deeply_nested_chapters_are_all_visited() {
    let leaf = chapter("Leaf", "{{#diataxis compass}}", Some("a/b/c/leaf.md"), vec![]);
    let mid = chapter("Mid", "{{#diataxis table-of-contents}}", Some("a/b/README.md"), vec![BookItem::Chapter(leaf)]);
    let top = chapter("Top", "top", Some("a/README.md"), vec![BookItem::Chapter(mid), BookItem::Separator]);
    let mut items = vec![BookItem::Chapter(top)];
    run_book(None, &mut items).unwrap();
    let top = match &items[0] {
        BookItem::Chapter(c) => c,
        _ => panic!("unexpected first item"),
    };
    assert_eq!(top.sub_items.len(), 2);
    assert!(matches!(top.sub_items[1], BookItem::Separator));
    let mid = match &top.sub_items[0] {
        BookItem::Chapter(c) => c,
        _ => panic!("unexpected sub-item"),
    };
    assert!(mid.content.contains("[Leaf](c/leaf.md)"));
    let leaf = match &mid.sub_items[0] {
        BookItem::Chapter(c) => c,
        _ => panic!("unexpected sub-item"),
    };
    assert!(leaf.content.contains("diataxis-card-header"));
}

#[test]
fn directive_in_code_span_is_left_alone() {
    let mut items = vec![BookItem::Chapter(chapter(
        "Ch",
        "Use `{{#diataxis compass}}` to get the compass.\n",
        Some("ch.md"),
        vec![],
    ))];
    let diags = run_book(None, &mut items).unwrap();
    assert!(diags.is_empty());
    match &items[0] {
        BookItem::Chapter(c) => {
            assert!(c.content.contains("`{{#diataxis compass}}`"));
            assert!(!c.content.contains("diataxis-card-header"));
        }
        _ => panic!("unexpected first item"),
    }
}

#[test]
fn separators_and_part_titles_pass_through() {
    let mut items = vec![BookItem::Separator, BookItem::PartTitle("{{#diataxis compass}}".to_string())];
    let diags = run_book(None, &mut items).unwrap();
    assert!(diags.is_empty());
    assert!(matches!(items[0], BookItem::Separator));
    assert!(matches!(&items[1], BookItem::PartTitle(t) if t == "{{#diataxis compass}}"));
}

#[test]
fn draft_chapter_with_malformed_directive_is_refused_unchanged() {
    let content = "Draft {{#diataxis oops}}";
    let draft = chapter("Draft", content, None, vec![]);
    let mut items = vec![BookItem::Chapter(chapter("Top", "top", Some("top.md"), vec![BookItem::Chapter(draft)]))];
    let result = run_book(None, &mut items);
    assert!(matches!(result, Err(mdbook_diataxis::PreprocessError::DraftDirective(ref name)) if name == "Draft"));
    match &items[0] {
        BookItem::Chapter(top) => match &top.sub_items[0] {
            BookItem::Chapter(d) => assert_eq!(d.content, content),
            _ => panic!("unexpected sub-item"),
        },
        _ => panic!("unexpected first item"),
    }
}

#[test]
fn diagnostics_follow_depth_first_order() {
    let inner = chapter("Inner", "{{#diataxis x}}", Some("a/inner.md"), vec![]);
    let outer = chapter("Outer", "{{#diataxis y}} and {{#diataxis z}}", Some("a/README.md"), vec![BookItem::Chapter(inner)]);
    let last = chapter("Last", "{{#diataxis", Some("last.md"), vec![]);
    let mut items = vec![BookItem::Chapter(outer), BookItem::Chapter(last)];
    let diags = run_book(None, &mut items).unwrap();
    assert_eq!(diags, vec!["a/README.md", "a/README.md", "a/inner.md", "last.md"]);
}

#[test]
fn diagnostics_met_before_a_refusal_are_kept() {
    let first = chapter("First", "{{#diataxis bad}}", Some("first.md"), vec![]);
    let draft = chapter("Draft", "{{#diataxis worse}}", None, vec![]);
    let mut items = vec![BookItem::Chapter(first), BookItem::Chapter(draft)];
    let mut diags = Vec::new();
    let result = DiataxisPreprocessor::new().run(None, &mut items, &mut diags);
    assert!(matches!(result, Err(mdbook_diataxis::PreprocessError::DraftDirective(ref n)) if n == "Draft"));
    assert_eq!(diags, vec!["first.md".to_string()]);
}
