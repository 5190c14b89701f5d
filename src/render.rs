//! What each directive expands to: the compass of the four sections, the list
//! of a chapter's sub-chapters, or the unrecognised marker itself.

use vstd::prelude::*;
use vstd::string::*;

use crate::book::{BookItem, Chapter};
use crate::config::{Config, Section, SectionField};
use crate::directive::{pattern_of, Replacement};
use crate::paths::{relative_path, relative_to};

verus! {

// The word joiner keeps the block from starting with `<`, which the markdown
// writer would escape and so break the outer tag.
pub const GRID_OPEN: &'static str = "&#8288;<div class=\"quote-grid\">\n";

pub const GRID_CLOSE: &'static str = "</div>\n";

pub const CARD_OPEN: &'static str = "    <blockquote>\n        <p>\n            <div class=\"diataxis-card-header\">\n                <a href=\"";

pub const CARD_LINK_CLOSE: &'static str = "\">";

pub const CARD_TITLE_CLOSE: &'static str = "</a>\n            </div>\n            ";

pub const CARD_CLOSE: &'static str = "\n        </p>\n    </blockquote>\n";

/// One card of the compass: a header link to the section, then its description.
pub open spec fn card(link: Seq<char>, title: Seq<char>, description: Seq<char>) -> Seq<char> {
    CARD_OPEN@ + link + CARD_LINK_CLOSE@ + title + CARD_TITLE_CLOSE@ + description + CARD_CLOSE@
}

pub open spec fn section_card(config: Config, s: Section) -> Seq<char> {
    card(
        config.value(s, SectionField::Link),
        config.value(s, SectionField::Title),
        config.value(s, SectionField::Description),
    )
}

/// The compass: the cards of tutorials, how-to guides, explanation and
/// reference, in that order, in one grid.
pub open spec fn compass_markup(config: Config) -> Seq<char> {
    GRID_OPEN@ + section_card(config, Section::Tutorials) + section_card(
        config,
        Section::HowToGuides,
    ) + section_card(config, Section::Explanation) + section_card(config, Section::Reference)
        + GRID_CLOSE@
}

/// The line that lists one sub-item of the chapter at `base`: a link for a
/// chapter with a file, its bare name for a draft, nothing for other items.
pub open spec fn toc_entry(item: BookItem, base: Seq<char>) -> Seq<char> {
    match item {
        BookItem::Chapter(c) => match c.source_path {
            Some(p) => "- ["@ + c.name@ + "]("@ + relative_path(base, p@) + ")\n"@,
            None => "- "@ + c.name@ + "\n"@,
        },
        _ => Seq::empty(),
    }
}

pub open spec fn toc_entries(items: Seq<BookItem>, base: Seq<char>) -> Seq<char>
    decreases items.len(),
{
    if items.len() == 0 {
        Seq::empty()
    } else {
        toc_entries(items.drop_last(), base) + toc_entry(items.last(), base)
    }
}

/// The table of contents of a chapter: one line per direct sub-chapter, in
/// order; nothing for a draft chapter.
pub open spec fn toc_markup(chapter: Chapter) -> Seq<char> {
    match chapter.source_path {
        Some(p) => toc_entries(chapter.sub_items@, p@),
        None => Seq::empty(),
    }
}

/// What a directive of kind `r` expands to, given the compass and the table of
/// contents of the chapter.
pub open spec fn replacement_text(r: Replacement, compass: Seq<char>, toc: Seq<char>) -> Seq<
    char,
> {
    match r {
        Replacement::Compass => compass,
        Replacement::Toc => toc,
        Replacement::Malformed => pattern_of(Replacement::Malformed),
    }
}

/// The settings and the chapter that a directive is expanded for.
pub struct ReplacementCtx<'ctx> {
    pub config: &'ctx Config,
    pub chapter: &'ctx Chapter,
}

fn write_card(buf: &mut String, config: &Config, s: Section)
    ensures
        final(buf)@ == old(buf)@ + section_card(*config, s),
{
    buf.append(CARD_OPEN);
    buf.append(config.get(s, SectionField::Link));
    buf.append(CARD_LINK_CLOSE);
    buf.append(config.get(s, SectionField::Title));
    buf.append(CARD_TITLE_CLOSE);
    buf.append(config.get(s, SectionField::Description));
    buf.append(CARD_CLOSE);
}

fn write_toc_entry(buf: &mut String, item: &BookItem, base: &str)
    ensures
        final(buf)@ == old(buf)@ + toc_entry(*item, base@),
{
    match item {
        BookItem::Chapter(child) => match &child.source_path {
            Some(path) => {
                buf.append("- [");
                buf.append(child.name.as_str());
                buf.append("](");
                let link = relative_to(base, path.as_str());
                buf.append(link.as_str());
                buf.append(")\n");
            },
            None => {
                buf.append("- ");
                buf.append(child.name.as_str());
                buf.append("\n");
            },
        },
        _ => {},
    }
}

impl Replacement {
    /// Appends what this directive expands to.
    pub fn write_to(&self, buf: &mut String, ctx: &ReplacementCtx)
        ensures
            final(buf)@ == old(buf)@ + replacement_text(
                *self,
                compass_markup(*ctx.config),
                toc_markup(*ctx.chapter),
            ),
    {
        match self {
            Self::Compass => self.write_compass_to(buf, ctx),
            Self::Toc => self.write_toc_to(buf, ctx),
            Self::Malformed => buf.append(self.pattern()),
        }
    }

    /// Appends the compass of the configured sections.
    pub fn write_compass_to(&self, buf: &mut String, ctx: &ReplacementCtx)
        ensures
            final(buf)@ == old(buf)@ + compass_markup(*ctx.config),
    {
        buf.append(GRID_OPEN);
        write_card(buf, ctx.config, Section::Tutorials);
        write_card(buf, ctx.config, Section::HowToGuides);
        write_card(buf, ctx.config, Section::Explanation);
        write_card(buf, ctx.config, Section::Reference);
        buf.append(GRID_CLOSE);
        assert(final(buf)@ =~= old(buf)@ + compass_markup(*ctx.config));
    }

    /// Appends the table of contents of the chapter.
    pub fn write_toc_to(&self, buf: &mut String, ctx: &ReplacementCtx)
        ensures
            final(buf)@ == old(buf)@ + toc_markup(*ctx.chapter),
    {
        let chapter_path = match &ctx.chapter.source_path {
            Some(path) => path.as_str(),
            None => {
                assert(old(buf)@ + Seq::<char>::empty() =~= old(buf)@);
                return;
            },
        };
        let items = &ctx.chapter.sub_items;
        let ghost start = buf@;
        let mut i: usize = 0;
        assert(items@.take(0) =~= Seq::<BookItem>::empty());
        assert(start + Seq::<char>::empty() =~= start);
        while i < items.len()
            invariant
                i <= items@.len(),
                buf@ == start + toc_entries(items@.take(i as int), chapter_path@),
            decreases items@.len() - i,
        {
            assert(items@.take(i + 1).drop_last() =~= items@.take(i as int));
            write_toc_entry(buf, &items[i], chapter_path);
            assert(start + toc_entries(items@.take(i as int), chapter_path@) + toc_entry(
                items@[i as int],
                chapter_path@,
            ) =~= start + toc_entries(items@.take(i + 1), chapter_path@));
            i = i + 1;
        }
        assert(items@.take(items@.len() as int) =~= items@);
    }
}

} // verus!
