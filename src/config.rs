//! Per-section settings of the compass: title, description and link of each of
//! the four sections, each overridable from the book's configuration table and
//! otherwise fixed defaults.

use vstd::prelude::*;
use vstd::string::*;

use crate::paths::{normalize_link, normalized_link};

verus! {

/// A value of the configuration table, as far as the settings read it.
pub enum ConfigValue {
    Str(String),
    Table(Vec<ConfigEntry>),
    /// Any other kind of value: a number, a boolean, an array, a date.
    Other,
}

/// One key of a configuration table with its value.
pub struct ConfigEntry {
    pub key: String,
    pub value: ConfigValue,
}

/// The value of the first entry of `entries` under `key`.
pub open spec fn lookup(entries: Seq<ConfigEntry>, key: Seq<char>) -> Option<ConfigValue>
    decreases entries.len(),
{
    if entries.len() == 0 {
        None
    } else if entries[0].key@ == key {
        Some(entries[0].value)
    } else {
        lookup(entries.skip(1), key)
    }
}

/// Finds the value under `key`, as `lookup` describes.
pub fn find_entry<'a>(entries: &'a Vec<ConfigEntry>, key: &str) -> (r: Option<&'a ConfigValue>)
    ensures
        match r {
            Some(v) => lookup(entries@, key@) == Some(*v),
            None => lookup(entries@, key@) is None,
        },
{
    let mut i: usize = 0;
    assert(entries@.skip(0) =~= entries@);
    while i < entries.len()
        invariant
            i <= entries@.len(),
            lookup(entries@, key@) == lookup(entries@.skip(i as int), key@),
        decreases entries@.len() - i,
    {
        assert(entries@.skip(i as int).skip(1) =~= entries@.skip(i + 1));
        if crate::paths::same_text(entries[i].key.as_str(), key) {
            return Some(&entries[i].value);
        }
        i = i + 1;
    }
    None
}

/// The four sections of the documentation.
#[derive(Clone, Copy, PartialEq, Eq, Structural, Debug)]
pub enum Section {
    Tutorials,
    HowToGuides,
    Reference,
    Explanation,
}

/// The three settings of one section.
#[derive(Clone, Copy, PartialEq, Eq, Structural, Debug)]
pub enum SectionField {
    Title,
    Description,
    Link,
}

pub open spec fn section_key(s: Section) -> Seq<char> {
    match s {
        Section::Tutorials => "tutorials"@,
        Section::HowToGuides => "how-to-guides"@,
        Section::Reference => "reference"@,
        Section::Explanation => "explanation"@,
    }
}

pub open spec fn field_key(f: SectionField) -> Seq<char> {
    match f {
        SectionField::Title => "title"@,
        SectionField::Description => "description"@,
        SectionField::Link => "link"@,
    }
}

/// The built-in value of a setting.
pub open spec fn default_value(s: Section, f: SectionField) -> Seq<char> {
    match (s, f) {
        (Section::Tutorials, SectionField::Title) => "Tutorials"@,
        (Section::Tutorials, SectionField::Description) => "Hands-on lessons"@,
        (Section::Tutorials, SectionField::Link) => "./tutorials/index.html"@,
        (Section::HowToGuides, SectionField::Title) => "How-to guides"@,
        (Section::HowToGuides, SectionField::Description) => "Step-by-step instructions for common tasks"@,
        (Section::HowToGuides, SectionField::Link) => "./how-to/index.html"@,
        (Section::Reference, SectionField::Title) => "Reference"@,
        (Section::Reference, SectionField::Description) => "Technical information"@,
        (Section::Reference, SectionField::Link) => "./reference-materials/index.html"@,
        (Section::Explanation, SectionField::Title) => "Explanation"@,
        (Section::Explanation, SectionField::Description) => "Long-form discussion of key topics"@,
        (Section::Explanation, SectionField::Link) => "./explanations/index.html"@,
    }
}

impl Section {
    /// The key of this section under `compass`.
    pub fn key(&self) -> (r: &'static str)
        ensures
            r@ == section_key(*self),
    {
        match self {
            Section::Tutorials => "tutorials",
            Section::HowToGuides => "how-to-guides",
            Section::Reference => "reference",
            Section::Explanation => "explanation",
        }
    }

    /// The built-in value of `field` for this section.
    pub fn default_value(&self, field: SectionField) -> (r: &'static str)
        ensures
            r@ == default_value(*self, field),
    {
        match (self, field) {
            (Section::Tutorials, SectionField::Title) => "Tutorials",
            (Section::Tutorials, SectionField::Description) => "Hands-on lessons",
            (Section::Tutorials, SectionField::Link) => "./tutorials/index.html",
            (Section::HowToGuides, SectionField::Title) => "How-to guides",
            (Section::HowToGuides, SectionField::Description) => "Step-by-step instructions for common tasks",
            (Section::HowToGuides, SectionField::Link) => "./how-to/index.html",
            (Section::Reference, SectionField::Title) => "Reference",
            (Section::Reference, SectionField::Description) => "Technical information",
            (Section::Reference, SectionField::Link) => "./reference-materials/index.html",
            (Section::Explanation, SectionField::Title) => "Explanation",
            (Section::Explanation, SectionField::Description) => "Long-form discussion of key topics",
            (Section::Explanation, SectionField::Link) => "./explanations/index.html",
        }
    }
}

impl SectionField {
    /// The key of this setting in a section's table.
    pub fn key(&self) -> (r: &'static str)
        ensures
            r@ == field_key(*self),
    {
        match self {
            SectionField::Title => "title",
            SectionField::Description => "description",
            SectionField::Link => "link",
        }
    }
}

/// Why a configuration table was refused.
#[derive(Clone, Copy, PartialEq, Eq, Structural, Debug)]
pub enum ConfigError {
    /// `compass` is present but is not a table.
    CompassNotTable,
    /// `compass.<section>` is present but is not a table.
    SectionNotTable(Section),
    /// `compass.<section>.<field>` is present but is not a string.
    FieldNotString(Section, SectionField),
}

/// Whether a present setting has the wrong shape.
pub open spec fn field_malformed(table: Seq<ConfigEntry>, f: SectionField) -> bool {
    match lookup(table, field_key(f)) {
        Some(ConfigValue::Str(_)) => false,
        Some(_) => true,
        None => false,
    }
}

/// The first setting of a section's table, in the order title, description,
/// link, that has the wrong shape.
pub open spec fn section_error(table: Seq<ConfigEntry>) -> Option<SectionField> {
    if field_malformed(table, SectionField::Title) {
        Some(SectionField::Title)
    } else if field_malformed(table, SectionField::Description) {
        Some(SectionField::Description)
    } else if field_malformed(table, SectionField::Link) {
        Some(SectionField::Link)
    } else {
        None
    }
}

/// The override that a section's table gives for `f`; a link is normalized.
pub open spec fn field_override(table: Seq<ConfigEntry>, f: SectionField) -> Option<Seq<char>> {
    match lookup(table, field_key(f)) {
        Some(ConfigValue::Str(v)) => Some(
            if f == SectionField::Link {
                normalize_link(v@)
            } else {
                v@
            },
        ),
        _ => None,
    }
}

pub open spec fn opt_view(o: Option<String>) -> Option<Seq<char>> {
    match o {
        Some(s) => Some(s@),
        None => None,
    }
}

/// The overrides of one section.
pub struct SectionConfig {
    pub title_override: Option<String>,
    pub description_override: Option<String>,
    pub link_override: Option<String>,
}

impl SectionConfig {
    pub open spec fn override_of(&self, f: SectionField) -> Option<Seq<char>> {
        match f {
            SectionField::Title => opt_view(self.title_override),
            SectionField::Description => opt_view(self.description_override),
            SectionField::Link => opt_view(self.link_override),
        }
    }

    /// No overrides: every setting takes its default.
    pub fn empty() -> (r: SectionConfig)
        ensures
            forall|f: SectionField| r.override_of(f) is None,
    {
        SectionConfig { title_override: None, description_override: None, link_override: None }
    }

    fn read_field(table: &Vec<ConfigEntry>, field: SectionField) -> (r: Result<
        Option<String>,
        SectionField,
    >)
        ensures
            match r {
                Ok(o) => !field_malformed(table@, field) && opt_view(o) == match lookup(
                    table@,
                    field_key(field),
                ) {
                    Some(ConfigValue::Str(v)) => Some(v@),
                    _ => None,
                },
                Err(e) => field_malformed(table@, field) && e == field,
            },
    {
        match find_entry(table, field.key()) {
            None => Ok(None),
            Some(ConfigValue::Str(s)) => Ok(Some(s.clone())),
            Some(_) => Err(field),
        }
    }

    /// Reads the overrides of a section's table; the error names the first
    /// setting, in the order title, description, link, that is not a string.
    pub fn new(table: &Vec<ConfigEntry>) -> (r: Result<SectionConfig, SectionField>)
        ensures
            match r {
                Ok(c) => section_error(table@) is None && forall|f: SectionField|
                    #[trigger] c.override_of(f) == field_override(table@, f),
                Err(e) => section_error(table@) == Some(e),
            },
    {
        let title_override = match Self::read_field(table, SectionField::Title) {
            Ok(o) => o,
            Err(e) => return Err(e),
        };
        let description_override = match Self::read_field(table, SectionField::Description) {
            Ok(o) => o,
            Err(e) => return Err(e),
        };
        let link_override = match Self::read_field(table, SectionField::Link) {
            Ok(o) => o,
            Err(e) => return Err(e),
        };
        let link_override = match link_override {
            Some(link) => Some(normalized_link(link.as_str())),
            None => None,
        };
        let c = SectionConfig { title_override, description_override, link_override };
        assert forall|f: SectionField| #[trigger] c.override_of(f) == field_override(table@, f) by {
            match f {
                SectionField::Title => {},
                SectionField::Description => {},
                SectionField::Link => {},
            }
        }
        Ok(c)
    }
}

/// The table of `s` under `compass`, where both are tables.
pub open spec fn section_table(raw: Seq<ConfigEntry>, s: Section) -> Option<Seq<ConfigEntry>> {
    match lookup(raw, "compass"@) {
        Some(ConfigValue::Table(compass)) => match lookup(compass@, section_key(s)) {
            Some(ConfigValue::Table(t)) => Some(t@),
            _ => None,
        },
        _ => None,
    }
}

/// What is wrong with the section `s` of a `compass` table, if anything.
pub open spec fn section_problem(compass: Seq<ConfigEntry>, s: Section) -> Option<ConfigError> {
    match lookup(compass, section_key(s)) {
        Some(ConfigValue::Table(t)) => match section_error(t@) {
            Some(f) => Some(ConfigError::FieldNotString(s, f)),
            None => None,
        },
        Some(_) => Some(ConfigError::SectionNotTable(s)),
        None => None,
    }
}

/// The first problem of a configuration table: `compass` itself, then the
/// sections in the order tutorials, how-to guides, explanation, reference.
pub open spec fn config_error(raw: Seq<ConfigEntry>) -> Option<ConfigError> {
    match lookup(raw, "compass"@) {
        Some(ConfigValue::Table(compass)) => {
            let c = compass@;
            if section_problem(c, Section::Tutorials) is Some {
                section_problem(c, Section::Tutorials)
            } else if section_problem(c, Section::HowToGuides) is Some {
                section_problem(c, Section::HowToGuides)
            } else if section_problem(c, Section::Explanation) is Some {
                section_problem(c, Section::Explanation)
            } else {
                section_problem(c, Section::Reference)
            }
        },
        Some(_) => Some(ConfigError::CompassNotTable),
        None => None,
    }
}

/// The override that the configuration table gives for a setting.
pub open spec fn configured_override(raw: Seq<ConfigEntry>, s: Section, f: SectionField) -> Option<
    Seq<char>,
> {
    match section_table(raw, s) {
        Some(t) => field_override(t, f),
        None => None,
    }
}

/// The resolved settings of the four sections.
pub struct Config {
    pub tutorials: SectionConfig,
    pub how_to_guides: SectionConfig,
    pub reference: SectionConfig,
    pub explanation: SectionConfig,
}

impl Config {
    pub open spec fn section_spec(&self, s: Section) -> SectionConfig {
        match s {
            Section::Tutorials => self.tutorials,
            Section::HowToGuides => self.how_to_guides,
            Section::Reference => self.reference,
            Section::Explanation => self.explanation,
        }
    }

    /// The value that rendering uses for a setting: its override, else the default.
    pub open spec fn value(&self, s: Section, f: SectionField) -> Seq<char> {
        match self.section_spec(s).override_of(f) {
            Some(v) => v,
            None => default_value(s, f),
        }
    }

    /// The settings of a book without configuration: all defaults.
    pub fn defaults() -> (r: Config)
        ensures
            forall|s: Section, f: SectionField| #[trigger] r.section_spec(s).override_of(f) is None,
            forall|s: Section, f: SectionField| #[trigger] r.value(s, f) == default_value(s, f),
    {
        Config {
            tutorials: SectionConfig::empty(),
            how_to_guides: SectionConfig::empty(),
            reference: SectionConfig::empty(),
            explanation: SectionConfig::empty(),
        }
    }

    fn section_overrides(compass: &Vec<ConfigEntry>, section: Section) -> (r: Result<
        SectionConfig,
        ConfigError,
    >)
        ensures
            match r {
                Ok(c) => section_problem(compass@, section) is None && forall|f: SectionField|
                    #[trigger] c.override_of(f) == match lookup(compass@, section_key(section)) {
                        Some(ConfigValue::Table(t)) => field_override(t@, f),
                        _ => None,
                    },
                Err(e) => section_problem(compass@, section) == Some(e),
            },
    {
        match find_entry(compass, section.key()) {
            None => Ok(SectionConfig::empty()),
            Some(ConfigValue::Table(t)) => match SectionConfig::new(t) {
                Ok(c) => Ok(c),
                Err(f) => Err(ConfigError::FieldNotString(section, f)),
            },
            Some(_) => Err(ConfigError::SectionNotTable(section)),
        }
    }

    /// Resolves the settings from the preprocessor's configuration table.
    ///
    /// Fails with the first problem that `config_error` names; otherwise each
    /// setting is overridden exactly where the table gives a string for it.
    pub fn new(raw: &Vec<ConfigEntry>) -> (r: Result<Config, ConfigError>)
        ensures
            match r {
                Ok(c) => config_error(raw@) is None && forall|s: Section, f: SectionField|
                    #[trigger] c.section_spec(s).override_of(f) == configured_override(raw@, s, f),
                Err(e) => config_error(raw@) == Some(e),
            },
    {
        let compass = match find_entry(raw, "compass") {
            None => {
                let c = Config::defaults();
                return Ok(c);
            },
            Some(ConfigValue::Table(t)) => t,
            Some(_) => return Err(ConfigError::CompassNotTable),
        };
        let tutorials = match Self::section_overrides(compass, Section::Tutorials) {
            Ok(c) => c,
            Err(e) => return Err(e),
        };
        let how_to_guides = match Self::section_overrides(compass, Section::HowToGuides) {
            Ok(c) => c,
            Err(e) => return Err(e),
        };
        let explanation = match Self::section_overrides(compass, Section::Explanation) {
            Ok(c) => c,
            Err(e) => return Err(e),
        };
        let reference = match Self::section_overrides(compass, Section::Reference) {
            Ok(c) => c,
            Err(e) => return Err(e),
        };
        let c = Config { tutorials, how_to_guides, reference, explanation };
        assert forall|s: Section, f: SectionField|
            #[trigger] c.section_spec(s).override_of(f) == configured_override(raw@, s, f) by {
            match s {
                Section::Tutorials => {},
                Section::HowToGuides => {},
                Section::Reference => {},
                Section::Explanation => {},
            }
        }
        Ok(c)
    }

    /// The section's settings.
    pub fn section(&self, s: Section) -> (r: &SectionConfig)
        ensures
            *r == self.section_spec(s),
    {
        match s {
            Section::Tutorials => &self.tutorials,
            Section::HowToGuides => &self.how_to_guides,
            Section::Reference => &self.reference,
            Section::Explanation => &self.explanation,
        }
    }

    /// The value of a setting: its override, else the default.
    pub fn get(&self, s: Section, f: SectionField) -> (r: &str)
        ensures
            r@ == self.value(s, f),
    {
        let sc = self.section(s);
        let o = match f {
            SectionField::Title => &sc.title_override,
            SectionField::Description => &sc.description_override,
            SectionField::Link => &sc.link_override,
        };
        match o {
            Some(v) => v.as_str(),
            None => s.default_value(f),
        }
    }

    pub fn tutorials_title(&self) -> (r: &str)
        ensures
            r@ == self.value(Section::Tutorials, SectionField::Title),
    {
        self.get(Section::Tutorials, SectionField::Title)
    }

    pub fn tutorials_description(&self) -> (r: &str)
        ensures
            r@ == self.value(Section::Tutorials, SectionField::Description),
    {
        self.get(Section::Tutorials, SectionField::Description)
    }

    pub fn tutorials_link(&self) -> (r: &str)
        ensures
            r@ == self.value(Section::Tutorials, SectionField::Link),
    {
        self.get(Section::Tutorials, SectionField::Link)
    }

    pub fn how_to_guides_title(&self) -> (r: &str)
        ensures
            r@ == self.value(Section::HowToGuides, SectionField::Title),
    {
        self.get(Section::HowToGuides, SectionField::Title)
    }

    pub fn how_to_guides_description(&self) -> (r: &str)
        ensures
            r@ == self.value(Section::HowToGuides, SectionField::Description),
    {
        self.get(Section::HowToGuides, SectionField::Description)
    }

    pub fn how_to_guides_link(&self) -> (r: &str)
        ensures
            r@ == self.value(Section::HowToGuides, SectionField::Link),
    {
        self.get(Section::HowToGuides, SectionField::Link)
    }

    pub fn explanation_title(&self) -> (r: &str)
        ensures
            r@ == self.value(Section::Explanation, SectionField::Title),
    {
        self.get(Section::Explanation, SectionField::Title)
    }

    pub fn explanation_description(&self) -> (r: &str)
        ensures
            r@ == self.value(Section::Explanation, SectionField::Description),
    {
        self.get(Section::Explanation, SectionField::Description)
    }

    pub fn explanation_link(&self) -> (r: &str)
        ensures
            r@ == self.value(Section::Explanation, SectionField::Link),
    {
        self.get(Section::Explanation, SectionField::Link)
    }

    pub fn reference_title(&self) -> (r: &str)
        ensures
            r@ == self.value(Section::Reference, SectionField::Title),
    {
        self.get(Section::Reference, SectionField::Title)
    }

    pub fn reference_description(&self) -> (r: &str)
        ensures
            r@ == self.value(Section::Reference, SectionField::Description),
    {
        self.get(Section::Reference, SectionField::Description)
    }

    pub fn reference_link(&self) -> (r: &str)
        ensures
            r@ == self.value(Section::Reference, SectionField::Link),
    {
        self.get(Section::Reference, SectionField::Link)
    }
}

/// A setting for which the configuration table supplies no override takes
/// its built-in default: there is no `compass` table, or no table for the
/// section, or no entry for the setting in it.
pub proof fn lemma_absent_setting_uses_default(
    raw: Seq<ConfigEntry>,
    c: Config,
    s: Section,
    f: SectionField,
)
    requires
        forall|s2: Section, f2: SectionField| #[trigger]
            c.section_spec(s2).override_of(f2) == configured_override(raw, s2, f2),
        match section_table(raw, s) {
            Some(t) => lookup(t, field_key(f)) is None,
            None => true,
        },
    ensures
        c.value(s, f) == default_value(s, f),
{
    assert(c.section_spec(s).override_of(f) == configured_override(raw, s, f));
}

} // verus!
