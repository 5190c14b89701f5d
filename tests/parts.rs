use mdbook_diataxis::config::{Config, ConfigEntry, ConfigError, ConfigValue, Section, SectionField};
use mdbook_diataxis::directive::{DirectiveMatcher, Replacement};
use mdbook_diataxis::paths::{normalized_link, path_components, relative_to};
use mdbook_diataxis::render::ReplacementCtx;
use mdbook_diataxis::{BookItem, Chapter, DiataxisPreprocessor};

fn entry(key: &str, value: ConfigValue) -> ConfigEntry {
    ConfigEntry { key: key.to_string(), value }
}

fn text(value: &str) -> ConfigValue {
    ConfigValue::Str(value.to_string())
}

fn plain_chapter(source_path: Option<&str>, sub_items: Vec<BookItem>) -> Chapter {
    Chapter {
        name: "Ch".to_string(),
        content: String::new(),
        source_path: source_path.map(|p| p.to_string()),
        sub_items,
    }
}

fn expand(text: &str, config: &Config, chapter: &Chapter) -> (String, Vec<String>) {
    let matcher = DirectiveMatcher::new();
    let ctx = ReplacementCtx { config, chapter };
    let mut diags = Vec::new();
    let out = DiataxisPreprocessor::new().preprocess_text(&matcher, text, &ctx, &mut diags);
    (out, diags)
}

#[test]
fn relative_link_from_index_to_nested_file() {
    assert_eq!(relative_to("a/README.md", "a/b/c.md"), "b/c.md");
    assert_eq!(relative_to("chapter_1/README.md", "chapter_1/dir/non_draft_sub.md"), "dir/non_draft_sub.md");
    assert_eq!(relative_to("a/README.md", "a/x.md"), "x.md");
}

#[test]
fn relative_link_past_source_uses_parent_sentinel() {
    assert_eq!(relative_to("a", "a/../x"), "x");
    assert_eq!(relative_to("", "x/y.md"), "x/y.md");
    assert_eq!(relative_to("a/b.md", "c/d.md"), "c/d.md");
}

#[test]
fn components_follow_path_rules() {
    assert_eq!(path_components("a//b/./c/"), vec!["a", "b", "c"]);
    assert_eq!(path_components("./a"), vec![".", "a"]);
    assert_eq!(path_components("/a/../b"), vec!["/", "a", "..", "b"]);
    assert!(path_components("").is_empty());
}

#[test]
fn link_normalization() {
    assert_eq!(normalized_link("custom-tutorials/README.md"), "custom-tutorials/index.html");
    assert_eq!(normalized_link("README.md"), "index.html");
    assert_eq!(normalized_link("foo.md"), "foo.html");
    assert_eq!(normalized_link("dir/page.markdown"), "dir/page.html");
    assert_eq!(normalized_link("dir/page"), "dir/page.html");
    assert_eq!(normalized_link(".hidden"), ".hidden.html");
    assert_eq!(normalized_link("a.b.md"), "a.b.html");
    assert_eq!(normalized_link("docs/"), "docs.html");
    assert_eq!(normalized_link("a/."), "a.html");
    assert_eq!(normalized_link("a/b.md/./"), "a/b.html");
    assert_eq!(normalized_link("x/README.md/"), "x/index.html");
    assert_eq!(normalized_link("./"), "./");
    assert_eq!(normalized_link("/"), "/");
    assert_eq!(normalized_link(""), "");
    assert_eq!(normalized_link(".."), "..");
    assert_eq!(normalized_link("a/.."), "a/..");
}

#[test]
fn config_defaults_without_overrides() {
    let config = Config::new(&vec![]).unwrap();
    assert_eq!(config.tutorials_title(), "Tutorials");
    assert_eq!(config.tutorials_description(), "Hands-on lessons");
    assert_eq!(config.tutorials_link(), "./tutorials/index.html");
    assert_eq!(config.how_to_guides_title(), "How-to guides");
    assert_eq!(config.how_to_guides_description(), "Step-by-step instructions for common tasks");
    assert_eq!(config.how_to_guides_link(), "./how-to/index.html");
    assert_eq!(config.reference_title(), "Reference");
    assert_eq!(config.reference_description(), "Technical information");
    assert_eq!(config.reference_link(), "./reference-materials/index.html");
    assert_eq!(config.explanation_title(), "Explanation");
    assert_eq!(config.explanation_description(), "Long-form discussion of key topics");
    assert_eq!(config.explanation_link(), "./explanations/index.html");
}

#[test]
fn config_partial_override_keeps_other_defaults() {
    let raw = vec![entry(
        "compass",
        ConfigValue::Table(vec![entry(
            "reference",
            ConfigValue::Table(vec![entry("link", text("api/README.md"))]),
        )]),
    )];
    let config = Config::new(&raw).unwrap();
    assert_eq!(config.reference_link(), "api/index.html");
    assert_eq!(config.reference_title(), "Reference");
    assert_eq!(config.tutorials_link(), "./tutorials/index.html");
    assert_eq!(config.get(Section::Explanation, SectionField::Title), "Explanation");
}

#[test]
fn config_errors() {
    let compass = vec![entry("compass", ConfigValue::Other)];
    assert!(matches!(Config::new(&compass), Err(ConfigError::CompassNotTable)));

    let section = vec![entry("compass", ConfigValue::Table(vec![entry("how-to-guides", text("x"))]))];
    assert!(matches!(Config::new(&section), Err(ConfigError::SectionNotTable(Section::HowToGuides))));

    let field = |name: &str| {
        vec![entry(
            "compass",
            ConfigValue::Table(vec![entry(
                "explanation",
                ConfigValue::Table(vec![entry(name, ConfigValue::Other)]),
            )]),
        )]
    };
    assert!(matches!(
        Config::new(&field("title")),
        Err(ConfigError::FieldNotString(Section::Explanation, SectionField::Title))
    ));
    assert!(matches!(
        Config::new(&field("description")),
        Err(ConfigError::FieldNotString(Section::Explanation, SectionField::Description))
    ));
    assert!(matches!(
        Config::new(&field("link")),
        Err(ConfigError::FieldNotString(Section::Explanation, SectionField::Link))
    ));
}

#[test]
fn first_section_error_in_order_wins() {
    let raw = vec![entry(
        "compass",
        ConfigValue::Table(vec![
            entry("reference", ConfigValue::Other),
            entry("tutorials", ConfigValue::Other),
        ]),
    )];
    assert!(matches!(Config::new(&raw), Err(ConfigError::SectionNotTable(Section::Tutorials))));
}

#[test]
fn patterns_and_kinds() {
    let patterns = Replacement::patterns();
    assert_eq!(patterns, ["{{#diataxis compass}}", "{{#diataxis table-of-contents}}", "{{#diataxis"]);
    assert_eq!(Replacement::from_pattern_index(0), Replacement::Compass);
    assert_eq!(Replacement::from_pattern_index(1), Replacement::Toc);
    assert_eq!(Replacement::from_pattern_index(2), Replacement::Malformed);
    assert!(Replacement::Malformed.is_malformed());
    assert!(!Replacement::Compass.is_malformed());
}

#[test]
fn compass_marker_is_not_malformed() {
    let config = Config::defaults();
    let chapter = plain_chapter(Some("ch.md"), vec![]);
    let (out, diags) = expand("x{{#diataxis compass}}y", &config, &chapter);
    assert!(diags.is_empty());
    assert!(out.starts_with("x&#8288;<div class=\"quote-grid\">\n"));
    assert!(out.ends_with("</div>\ny"));
    assert!(!out.contains("{{#diataxis"));
}

#[test]
fn expansion_twice_changes_nothing() {
    let config = Config::defaults();
    let sub = Chapter { name: "S".to_string(), content: String::new(), source_path: Some("s.md".to_string()), sub_items: vec![] };
    let chapter = plain_chapter(Some("README.md"), vec![BookItem::Chapter(sub)]);
    let (once, _) = expand("a {{#diataxis compass}} b {{#diataxis table-of-contents}} c", &config, &chapter);
    let (twice, diags) = expand(&once, &config, &chapter);
    assert_eq!(once, twice);
    assert!(diags.is_empty());
    assert!(once.contains("- [S](s.md)\n c"));
}

#[test]
fn empty_table_of_contents_can_join_a_marker() {
    let config = Config::defaults();
    let chapter = plain_chapter(Some("ch.md"), vec![]);
    let (once, diags) = expand("{{#dia{{#diataxis table-of-contents}}taxis compass}}", &config, &chapter);
    assert_eq!(once, "{{#diataxis compass}}");
    assert!(diags.is_empty());
}

#[test]
fn malformed_marker_is_passed_through() {
    let config = Config::defaults();
    let chapter = plain_chapter(Some("m.md"), vec![]);
    let (out, diags) = expand("{{#diataxis}} and {{#diataxis compass", &config, &chapter);
    assert_eq!(out, "{{#diataxis}} and {{#diataxis compass");
    assert_eq!(diags, vec!["m.md", "m.md"]);
}

#[test]
fn draft_chapter_has_empty_table_of_contents() {
    let config = Config::defaults();
    let sub = plain_chapter(Some("x.md"), vec![]);
    let chapter = plain_chapter(None, vec![BookItem::Chapter(sub)]);
    let (out, _) = expand("[{{#diataxis table-of-contents}}]", &config, &chapter);
    assert_eq!(out, "[]");
}

#[test]
fn text_without_directives_is_unchanged() {
    let config = Config::defaults();
    let chapter = plain_chapter(Some("ch.md"), vec![]);
    let (out, diags) = expand("plain {{ text }} with ünïcode", &config, &chapter);
    assert_eq!(out, "plain {{ text }} with ünïcode");
    assert!(diags.is_empty());
}

#[test]
fn empty_text_expands_to_empty() {
    let config = Config::defaults();
    let chapter = plain_chapter(Some("ch.md"), vec![]);
    let (out, diags) = expand("", &config, &chapter);
    assert_eq!(out, "");
    assert!(diags.is_empty());
}

#[test]
fn non_ascii_text_around_directives_is_kept() {
    let config = Config::defaults();
    let sub = Chapter { name: "Ünter".to_string(), content: String::new(), source_path: Some("dir/ü.md".to_string()), sub_items: vec![] };
    let chapter = plain_chapter(Some("dir/README.md"), vec![BookItem::Chapter(sub)]);
    let (out, diags) = expand("été → {{#diataxis table-of-contents}} ← fin {{#diataxis", &config, &chapter);
    assert_eq!(out, "été → - [Ünter](ü.md)\n ← fin {{#diataxis");
    assert_eq!(diags, vec!["dir/README.md".to_string()]);
}

#[test]
fn configured_compass_values_reach_the_cards() {
    let raw = vec![entry(
        "compass",
        ConfigValue::Table(vec![entry(
            "tutorials",
            ConfigValue::Table(vec![
                entry("title", text("Learn")),
                entry("description", text("Start here")),
                entry("link", text("learn/README.md")),
            ]),
        )]),
    )];
    let config = Config::new(&raw).unwrap();
    let chapter = plain_chapter(Some("ch.md"), vec![]);
    let (out, _) = expand("{{#diataxis compass}}", &config, &chapter);
    assert!(out.contains("<a href=\"learn/index.html\">Learn</a>\n            </div>\n            Start here\n"));
    assert!(out.contains("<a href=\"./how-to/index.html\">How-to guides</a>"));
}
