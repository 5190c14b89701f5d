//! The rewrite: every directive in the text of every chapter is expanded, and
//! the chapter's markdown is written back with its structure untouched.

use vstd::prelude::*;
use vstd::string::*;

use crate::book::{BookItem, Chapter};
use crate::config::{
    config_error,
    configured_override,
    Config,
    ConfigEntry,
    ConfigError,
    Section,
    SectionField,
};
use crate::directive::{lemma_no_match, lemma_reported_match, DirectiveMatcher, Replacement};
use crate::expansion::{
    expand,
    inert,
    lemma_expand_idempotent,
    lemma_expand_none,
    lemma_expand_step,
    malformed_count,
};
use crate::markdown::{markdown_texts, markdown_with_texts, parse_texts, string_views, write_with_texts};
use crate::paths::same_text;
use crate::render::{compass_markup, toc_markup, ReplacementCtx};

verus! {

broadcast use vstd::std_specs::vec::group_vec_axioms;

/// Each text expanded with the given compass and table of contents.
pub open spec fn expanded_texts(texts: Seq<Seq<char>>, compass: Seq<char>, toc: Seq<char>) -> Seq<
    Seq<char>,
> {
    texts.map_values(|t: Seq<char>| expand(t, compass, toc))
}

/// The content that the rewrite gives a chapter: its markdown with every text
/// node expanded and every other event kept; `None` where the markdown writer
/// refuses it.
pub open spec fn rewritten_content(chapter: Chapter, config: Config) -> Option<Seq<char>> {
    markdown_with_texts(
        chapter.content@,
        expanded_texts(
            markdown_texts(chapter.content@),
            compass_markup(config),
            toc_markup(chapter),
        ),
    )
}

/// Whether chapter `y` is chapter `x` with its content rewritten: the same
/// name and source path, and the rewritten content; where `complete` is false
/// the content may also be the old one.
pub open spec fn chapter_step(x: Chapter, y: Chapter, config: Config, complete: bool) -> bool {
    &&& x.name@ == y.name@
    &&& x.source_path == y.source_path
    &&& (rewritten_content(x, config) == Some(y.content@) || (!complete && y.content == x.content))
}

/// Whether the items `ys` are the items `xs` rewritten: the same outline at
/// every depth (kinds, names, source paths, order), and every chapter at every
/// depth rewritten as `chapter_step` says.
pub open spec fn rewritten_items(
    xs: Seq<BookItem>,
    ys: Seq<BookItem>,
    config: Config,
    complete: bool,
) -> bool
    decreases xs,
{
    &&& xs.len() == ys.len()
    &&& xs.len() > 0 ==> {
        &&& rewritten_items(xs.drop_last(), ys.drop_last(), config, complete)
        &&& match xs.last() {
            BookItem::Chapter(x) => match ys.last() {
                BookItem::Chapter(y) => {
                    &&& chapter_step(x, y, config, complete)
                    &&& rewritten_items(x.sub_items@, y.sub_items@, config, complete)
                },
                _ => false,
            },
            BookItem::Separator => ys.last() is Separator,
            BookItem::PartTitle(t) => match ys.last() {
                BookItem::PartTitle(u) => t@ == u@,
                _ => false,
            },
        }
    }
}

/// Whether item `b` is item `a` rewritten, as `rewritten_items` says.
pub open spec fn rewritten_item(a: BookItem, b: BookItem, config: Config, complete: bool) -> bool {
    match a {
        BookItem::Chapter(x) => match b {
            BookItem::Chapter(y) => {
                &&& chapter_step(x, y, config, complete)
                &&& rewritten_items(x.sub_items@, y.sub_items@, config, complete)
            },
            _ => false,
        },
        BookItem::Separator => b is Separator,
        BookItem::PartTitle(t) => match b {
            BookItem::PartTitle(u) => t@ == u@,
            _ => false,
        },
    }
}

proof fn lemma_rewritten_push(
    xs: Seq<BookItem>,
    ys: Seq<BookItem>,
    a: BookItem,
    b: BookItem,
    config: Config,
    complete: bool,
)
    requires
        rewritten_items(xs, ys, config, complete),
        rewritten_item(a, b, config, complete),
    ensures
        rewritten_items(xs.push(a), ys.push(b), config, complete),
{
    assert(xs.push(a).drop_last() =~= xs);
    assert(ys.push(b).drop_last() =~= ys);
}

/// Items are their own incomplete rewrite.
proof fn lemma_rewritten_refl(xs: Seq<BookItem>, config: Config)
    ensures
        rewritten_items(xs, xs, config, false),
    decreases xs,
{
    if xs.len() > 0 {
        lemma_rewritten_refl(xs.drop_last(), config);
        if let BookItem::Chapter(x) = xs.last() {
            lemma_rewritten_refl(x.sub_items@, config);
        }
    }
}

/// An item is its own incomplete rewrite.
proof fn lemma_rewritten_item_refl(a: BookItem, config: Config)
    ensures
        rewritten_item(a, a, config, false),
{
    if let BookItem::Chapter(x) = a {
        lemma_rewritten_refl(x.sub_items@, config);
    }
}

/// A rewritten prefix followed by items left as they were is an incomplete
/// rewrite of the whole.
proof fn lemma_rewritten_extend(xs: Seq<BookItem>, ys: Seq<BookItem>, k: int, config: Config)
    requires
        0 <= k <= xs.len(),
        xs.len() == ys.len(),
        rewritten_items(xs.take(k), ys.take(k), config, false),
        forall|j: int| k <= j < xs.len() ==> ys[j] == xs[j],
    ensures
        rewritten_items(xs, ys, config, false),
    decreases xs.len() - k,
{
    if k == xs.len() {
        assert(xs.take(k) =~= xs);
        assert(ys.take(k) =~= ys);
    } else {
        lemma_rewritten_item_refl(xs[k], config);
        lemma_rewritten_push(xs.take(k), ys.take(k), xs[k], ys[k], config, false);
        assert(xs.take(k + 1) =~= xs.take(k).push(xs[k]));
        assert(ys.take(k + 1) =~= ys.take(k).push(ys[k]));
        lemma_rewritten_extend(xs, ys, k + 1, config);
    }
}

/// A complete rewrite is also an incomplete one.
proof fn lemma_rewritten_weaken(xs: Seq<BookItem>, ys: Seq<BookItem>, config: Config)
    requires
        rewritten_items(xs, ys, config, true),
    ensures
        rewritten_items(xs, ys, config, false),
    decreases xs,
{
    if xs.len() > 0 {
        lemma_rewritten_weaken(xs.drop_last(), ys.drop_last(), config);
        if let BookItem::Chapter(x) = xs.last() {
            if let BookItem::Chapter(y) = ys.last() {
                lemma_rewritten_weaken(x.sub_items@, y.sub_items@, config);
            }
        }
    }
}

/// Rewriting a rewritten chapter changes nothing, wherever its text nodes
/// hold no malformed directive, both expansions are inert, and the markdown
/// round trip is faithful: the written content parses back into the texts it
/// was written with, and writing a content with its own texts gives it back.
pub proof fn lemma_chapter_rewrite_idempotent(chapter: Chapter, config: Config, s: Seq<char>)
    requires
        rewritten_content(chapter, config) == Some(s),
        forall|j: int|
            0 <= j < markdown_texts(chapter.content@).len() ==> malformed_count(
                #[trigger] markdown_texts(chapter.content@)[j],
            ) == 0,
        inert(compass_markup(config)),
        inert(toc_markup(chapter)),
        markdown_texts(s) == expanded_texts(
            markdown_texts(chapter.content@),
            compass_markup(config),
            toc_markup(chapter),
        ),
        markdown_with_texts(s, markdown_texts(s)) == Some(s),
    ensures
        forall|c: Chapter|
            #![trigger rewritten_content(c, config)]
            c.content@ == s && c.source_path == chapter.source_path && c.sub_items
                == chapter.sub_items ==> rewritten_content(c, config) == Some(s),
{
    let compass = compass_markup(config);
    let toc = toc_markup(chapter);
    let texts = markdown_texts(chapter.content@);
    assert forall|c: Chapter|
        #![trigger rewritten_content(c, config)]
        c.content@ == s && c.source_path == chapter.source_path && c.sub_items
            == chapter.sub_items implies rewritten_content(c, config) == Some(s) by {
        assert(toc_markup(c) == toc);
        let again = expanded_texts(markdown_texts(s), compass, toc);
        assert forall|j: int| 0 <= j < again.len() implies #[trigger] again[j] == markdown_texts(
            s,
        )[j] by {
            assert(markdown_texts(s)[j] == expand(texts[j], compass, toc));
            lemma_expand_idempotent(texts[j], compass, toc);
        }
        assert(again =~= markdown_texts(s));
    }
}

/// Whether the chapter is a draft whose text nodes hold a malformed
/// directive, which the rewrite refuses.
pub open spec fn draft_holds_malformed(c: Chapter) -> bool {
    &&& c.source_path is None
    &&& exists|j: int|
        0 <= j < markdown_texts(c.content@).len() && malformed_count(
            #[trigger] markdown_texts(c.content@)[j],
        ) > 0
}

/// Whether the rewrite of the chapter's own content succeeds: it is no draft
/// holding a malformed directive, and the markdown writer accepts it.
pub open spec fn chapter_succeeds(c: Chapter, config: Config) -> bool {
    !draft_holds_malformed(c) && rewritten_content(c, config) is Some
}

pub open spec fn succeeds(config: Config) -> spec_fn(Chapter) -> bool {
    |c: Chapter| chapter_succeeds(c, config)
}

/// Holds of every chapter but a draft named `name` holding a malformed
/// directive.
pub open spec fn not_refused_draft(name: Seq<char>) -> spec_fn(Chapter) -> bool {
    |c: Chapter| !(draft_holds_malformed(c) && c.name@ == name)
}

/// Holds of every chapter but one named `name` that the markdown writer
/// refuses.
pub open spec fn not_refused_by_writer(config: Config, name: Seq<char>) -> spec_fn(Chapter) -> bool {
    |c: Chapter| !(rewritten_content(c, config) is None && c.name@ == name)
}

/// Whether every chapter among `items`, at every depth, satisfies `p`.
pub open spec fn every_chapter(items: Seq<BookItem>, p: spec_fn(Chapter) -> bool) -> bool
    decreases items,
{
    items.len() > 0 ==> {
        &&& every_chapter(items.drop_last(), p)
        &&& match items.last() {
            BookItem::Chapter(x) => p(x) && every_chapter(x.sub_items@, p),
            _ => true,
        }
    }
}

/// Whether the item, where it is a chapter, and every chapter under it
/// satisfy `p`.
pub open spec fn item_every(item: BookItem, p: spec_fn(Chapter) -> bool) -> bool {
    match item {
        BookItem::Chapter(x) => p(x) && every_chapter(x.sub_items@, p),
        _ => true,
    }
}

proof fn lemma_every_index(items: Seq<BookItem>, p: spec_fn(Chapter) -> bool, i: int)
    requires
        every_chapter(items, p),
        0 <= i < items.len(),
    ensures
        item_every(items[i], p),
    decreases items.len(),
{
    if i < items.len() - 1 {
        assert(items.drop_last()[i] == items[i]);
        lemma_every_index(items.drop_last(), p, i);
    }
}

proof fn lemma_every_push(items: Seq<BookItem>, a: BookItem, p: spec_fn(Chapter) -> bool)
    requires
        every_chapter(items, p),
        item_every(a, p),
    ensures
        every_chapter(items.push(a), p),
{
    assert(items.push(a).drop_last() =~= items);
}

/// The configuration table as its entries.
pub open spec fn raw_table(raw: Option<&Vec<ConfigEntry>>) -> Option<Seq<ConfigEntry>> {
    match raw {
        Some(t) => Some(t@),
        None => None,
    }
}

/// Whether `c` holds the settings that the table gives: each override exactly
/// where the table gives a string for it, none without a table.
pub open spec fn resolves(c: Config, raw: Option<Seq<ConfigEntry>>) -> bool {
    forall|s: Section, f: SectionField| #[trigger]
        c.section_spec(s).override_of(f) == match raw {
            Some(t) => configured_override(t, s, f),
            None => None,
        }
}

/// The source paths that a list of diagnostics names.
pub open spec fn diag_views(d: Seq<String>) -> Seq<Seq<char>> {
    d.map_values(|s: String| s@)
}

/// The source path of a chapter, empty for a draft.
pub open spec fn source_text(c: Chapter) -> Seq<char> {
    match c.source_path {
        Some(p) => p@,
        None => Seq::empty(),
    }
}

/// `n` copies of `path`.
pub open spec fn repeated(path: Seq<char>, n: nat) -> Seq<Seq<char>> {
    Seq::new(n, |k: int| path)
}

/// How many malformed directives the texts hold, all together.
pub open spec fn texts_malformed(texts: Seq<Seq<char>>) -> nat
    decreases texts.len(),
{
    if texts.len() == 0 {
        0
    } else {
        texts_malformed(texts.drop_last()) + malformed_count(texts.last())
    }
}

/// The diagnostics of a rewrite of `items`, depth first: for each chapter, its
/// source path once per malformed directive in its text nodes, then those of
/// the chapters under it.
pub open spec fn tree_diags(items: Seq<BookItem>) -> Seq<Seq<char>>
    decreases items,
{
    if items.len() == 0 {
        Seq::empty()
    } else {
        tree_diags(items.drop_last()) + match items.last() {
            BookItem::Chapter(x) => repeated(
                source_text(x),
                texts_malformed(markdown_texts(x.content@)),
            ) + tree_diags(x.sub_items@),
            _ => Seq::empty(),
        }
    }
}

/// The diagnostics of a rewrite of one item, as `tree_diags` says.
pub open spec fn item_diags(item: BookItem) -> Seq<Seq<char>> {
    match item {
        BookItem::Chapter(x) => repeated(
            source_text(x),
            texts_malformed(markdown_texts(x.content@)),
        ) + tree_diags(x.sub_items@),
        _ => Seq::empty(),
    }
}

/// Whether `text` holds a malformed directive.
fn holds_malformed(matcher: &DirectiveMatcher, text: &str) -> (r: bool)
    ensures
        r == (malformed_count(text@) > 0),
{
    let mut rest: &str = text;
    loop
        invariant
            malformed_count(rest@) == malformed_count(text@),
        decreases rest@.len(),
    {
        match matcher.first_directive(rest) {
            None => {
                proof {
                    lemma_no_match(rest@);
                    lemma_expand_none(rest@, Seq::empty(), Seq::empty());
                }
                return false;
            },
            Some((before, index, after)) => {
                let replacement = Replacement::from_pattern_index(index);
                proof {
                    lemma_reported_match(rest@, before@, index as int, after@);
                    lemma_expand_step(
                        rest@,
                        before@,
                        replacement,
                        after@,
                        Seq::empty(),
                        Seq::empty(),
                    );
                }
                if replacement.is_malformed() {
                    return true;
                }
                rest = after;
            },
        }
    }
}

/// Why a rewrite stopped.
#[derive(Debug)]
pub enum PreprocessError {
    /// The configuration table has the wrong shape.
    Config(ConfigError),
    /// The rewritten events of the named chapter could not be written back as
    /// markdown.
    Markdown(String),
    /// The named draft chapter holds a malformed directive, which cannot be
    /// reported: a draft has no source path.
    DraftDirective(String),
}

/// The preprocessor.
pub struct DiataxisPreprocessor;

impl DiataxisPreprocessor {
    pub fn new() -> Self {
        DiataxisPreprocessor
    }

    /// The name the preprocessor is registered under.
    pub fn name(&self) -> (r: &'static str)
        ensures
            r@ == "mdbook-diataxis"@,
    {
        "mdbook-diataxis"
    }

    /// Only the HTML renderer shows the generated markup.
    pub fn supports_renderer(&self, renderer: &str) -> (r: bool)
        ensures
            r == (renderer@ == "html"@),
    {
        same_text(renderer, "html")
    }

    /// Expands every directive of `text`; for each malformed one, the chapter's
    /// source path is added to `diags`. A draft chapter, which has no source
    /// path, must hold no malformed directive.
    pub fn preprocess_text(
        &self,
        matcher: &DirectiveMatcher,
        text: &str,
        ctx: &ReplacementCtx,
        diags: &mut Vec<String>,
    ) -> (r: String)
        requires
            ctx.chapter.source_path is Some || malformed_count(text@) == 0,
        ensures
            r@ == expand(text@, compass_markup(*ctx.config), toc_markup(*ctx.chapter)),
            diag_views(final(diags)@) == diag_views(old(diags)@) + repeated(
                source_text(*ctx.chapter),
                malformed_count(text@),
            ),
    {
        let ghost compass = compass_markup(*ctx.config);
        let ghost toc = toc_markup(*ctx.chapter);
        let ghost path = source_text(*ctx.chapter);
        let ghost start = diags@;
        let mut ret = String::new();
        let mut rest: &str = text;
        assert(diag_views(start) + repeated(path, 0) =~= diag_views(start));
        assert(Seq::<char>::empty() + expand(rest@, compass, toc) =~= expand(text@, compass, toc));
        loop
            invariant_except_break
                ret@ + expand(rest@, compass, toc) == expand(text@, compass, toc),
            invariant
                diag_views(diags@) == diag_views(start) + repeated(
                    path,
                    (malformed_count(text@) - malformed_count(rest@)) as nat,
                ),
                malformed_count(rest@) <= malformed_count(text@),
                compass == compass_markup(*ctx.config),
                toc == toc_markup(*ctx.chapter),
                path == source_text(*ctx.chapter),
                ctx.chapter.source_path is Some || malformed_count(text@) == 0,
            ensures
                ret@ == expand(text@, compass, toc),
                diag_views(diags@) == diag_views(start) + repeated(path, malformed_count(text@)),
            decreases rest@.len(),
        {
            match matcher.first_directive(rest) {
                None => {
                    proof {
                        lemma_no_match(rest@);
                        lemma_expand_none(rest@, compass, toc);
                    }
                    ret.append(rest);
                    break ;
                },
                Some((before, index, after)) => {
                    let replacement = Replacement::from_pattern_index(index);
                    proof {
                        lemma_reported_match(rest@, before@, index as int, after@);
                        lemma_expand_step(rest@, before@, replacement, after@, compass, toc);
                    }
                    let ghost ret0 = ret@;
                    ret.append(before);
                    replacement.write_to(&mut ret, ctx);
                    assert(ret0 + expand(rest@, compass, toc) =~= ret@ + expand(
                        after@,
                        compass,
                        toc,
                    ));
                    if replacement.is_malformed() {
                        let ghost d0 = diags@;
                        let ghost n = (malformed_count(text@) - malformed_count(rest@)) as nat;
                        match &ctx.chapter.source_path {
                            Some(source_path) => {
                                diags.push(source_path.clone());
                                assert(diag_views(diags@) =~= diag_views(d0).push(path));
                                assert(repeated(path, n + 1) =~= repeated(path, n).push(path));
                                assert(diag_views(start) + repeated(path, n + 1) =~= (diag_views(
                                    start,
                                ) + repeated(path, n)).push(path));
                            },
                            None => {},
                        }
                    }
                    rest = after;
                },
            }
        }
        ret
    }

    /// Expands the directives of every text.
    pub fn preprocess_texts(
        &self,
        matcher: &DirectiveMatcher,
        texts: &mut Vec<String>,
        ctx: &ReplacementCtx,
        diags: &mut Vec<String>,
    )
        requires
            ctx.chapter.source_path is Some || forall|j: int|
                0 <= j < old(texts)@.len() ==> malformed_count(#[trigger] old(texts)@[j]@) == 0,
        ensures
            final(texts)@.len() == old(texts)@.len(),
            string_views(final(texts)@) == expanded_texts(
                string_views(old(texts)@),
                compass_markup(*ctx.config),
                toc_markup(*ctx.chapter),
            ),
            diag_views(final(diags)@) == diag_views(old(diags)@) + repeated(
                source_text(*ctx.chapter),
                texts_malformed(string_views(old(texts)@)),
            ),
    {
        let ghost old_texts = texts@;
        let ghost d_start = diags@;
        let ghost path = source_text(*ctx.chapter);
        assert(string_views(old_texts).take(0) =~= Seq::<Seq<char>>::empty());
        assert(diag_views(d_start) + repeated(path, 0) =~= diag_views(d_start));
        let ghost compass = compass_markup(*ctx.config);
        let ghost toc = toc_markup(*ctx.chapter);
        let mut i: usize = 0;
        while i < texts.len()
            invariant
                i <= texts@.len(),
                texts@.len() == old_texts.len(),
                compass == compass_markup(*ctx.config),
                toc == toc_markup(*ctx.chapter),
                forall|j: int| i <= j < texts@.len() ==> texts@[j] == old_texts[j],
                forall|j: int|
                    0 <= j < i ==> #[trigger] texts@[j]@ == expand(old_texts[j]@, compass, toc),
                path == source_text(*ctx.chapter),
                ctx.chapter.source_path is Some || forall|j: int|
                    0 <= j < old_texts.len() ==> malformed_count(#[trigger] old_texts[j]@) == 0,
                diag_views(diags@) == diag_views(d_start) + repeated(
                    path,
                    texts_malformed(string_views(old_texts).take(i as int)),
                ),
            decreases texts@.len() - i,
        {
            let ghost views = string_views(old_texts);
            let ghost n = texts_malformed(views.take(i as int));
            assert(views.take(i + 1).drop_last() =~= views.take(i as int));
            assert(views.take(i + 1).last() == old_texts[i as int]@);
            let expanded = self.preprocess_text(matcher, texts[i].as_str(), ctx, diags);
            assert(repeated(path, n) + repeated(path, malformed_count(old_texts[i as int]@))
                =~= repeated(path, n + malformed_count(old_texts[i as int]@)));
            assert(diag_views(d_start) + repeated(path, n) + repeated(
                path,
                malformed_count(old_texts[i as int]@),
            ) =~= diag_views(d_start) + (repeated(path, n) + repeated(
                path,
                malformed_count(old_texts[i as int]@),
            )));
            texts[i] = expanded;
            i = i + 1;
        }
        assert(string_views(old_texts).take(old_texts.len() as int) =~= string_views(old_texts));
        assert(string_views(texts@) =~= expanded_texts(string_views(old_texts), compass, toc));
    }

    /// Rewrites the chapter's content and then that of every chapter nested
    /// under it, depth first: every text node has its directives expanded,
    /// every other markdown event is kept. Where the markdown writer refuses the
    /// chapter, nothing of it changes. The outline is kept at every depth, and
    /// on success every chapter under it is rewritten too.
    pub fn preprocess_chapter(
        &self,
        matcher: &DirectiveMatcher,
        chapter: &mut Chapter,
        config: &Config,
        diags: &mut Vec<String>,
    ) -> (r: Result<(), PreprocessError>)
        ensures
            rewritten_item(
                BookItem::Chapter(*old(chapter)),
                BookItem::Chapter(*final(chapter)),
                *config,
                r is Ok,
            ),
            rewritten_content(*old(chapter), *config) is None ==> r is Err && *final(chapter)
                == *old(chapter),
            r is Ok ==> diag_views(final(diags)@) == diag_views(old(diags)@) + item_diags(
                BookItem::Chapter(*old(chapter)),
            ),
            old(chapter).source_path is None && (exists|j: int|
                0 <= j < markdown_texts(old(chapter).content@).len() && malformed_count(
                    #[trigger] markdown_texts(old(chapter).content@)[j],
                ) > 0) ==> (r matches Err(PreprocessError::DraftDirective(_))) && *final(chapter)
                == *old(chapter),
            item_every(BookItem::Chapter(*old(chapter)), succeeds(*config)) ==> r is Ok,
            r matches Err(PreprocessError::DraftDirective(n)) ==> !item_every(
                BookItem::Chapter(*old(chapter)),
                not_refused_draft(n@),
            ),
            r matches Err(PreprocessError::Markdown(n)) ==> !item_every(
                BookItem::Chapter(*old(chapter)),
                not_refused_by_writer(*config, n@),
            ),
            r matches Err(e) ==> e is Markdown || e is DraftDirective,
        decreases *old(chapter), 0nat,
    {
        let ghost old_chapter = *chapter;
        let ghost d0 = diags@;
        let texts = {
            let mut texts = parse_texts(chapter.content.as_str());
            assert(texts@.len() == string_views(texts@).len());
            if chapter.source_path.is_none() {
                let mut j: usize = 0;
                while j < texts.len()
                    invariant
                        j <= texts@.len(),
                        forall|k: int| 0 <= k < j ==> malformed_count(#[trigger] texts@[k]@) == 0,
                        string_views(texts@) == markdown_texts(chapter.content@),
                        chapter.source_path is None,
                        old_chapter == *chapter,
                    decreases texts@.len() - j,
                {
                    if holds_malformed(matcher, texts[j].as_str()) {
                        proof {
                            lemma_rewritten_refl(chapter.sub_items@, *config);
                            assert(string_views(texts@)[j as int] == texts@[j as int]@);
                            assert(malformed_count(markdown_texts(old_chapter.content@)[j as int])
                                > 0);
                            assert(draft_holds_malformed(old_chapter));
                        }
                        let name = chapter.name.clone();
                        assert(!not_refused_draft(name@)(old_chapter));
                        return Err(PreprocessError::DraftDirective(name));
                    }
                    j = j + 1;
                }
                assert forall|k: int| 0 <= k < markdown_texts(chapter.content@).len() implies
                    malformed_count(#[trigger] markdown_texts(chapter.content@)[k]) == 0 by {
                    assert(string_views(texts@)[k] == texts@[k]@);
                }
            }
            let ctx = ReplacementCtx { config, chapter: &*chapter };
            self.preprocess_texts(matcher, &mut texts, &ctx, diags);
            texts
        };
        let new_content = match write_with_texts(chapter.content.as_str(), texts) {
            Ok(content) => content,
            Err(_) => {
                proof {
                    lemma_rewritten_refl(chapter.sub_items@, *config);
                }
                let name = chapter.name.clone();
                assert(!not_refused_by_writer(*config, name@)(old_chapter));
                return Err(PreprocessError::Markdown(name));
            },
        };
        chapter.content = new_content;
        proof {
            assert(decreases_to!(old_chapter => old_chapter.sub_items));
        }
        let ghost d1 = diags@;
        let result = self.preprocess_items(matcher, &mut chapter.sub_items, config, diags);
        assert(result is Ok ==> diag_views(diags@) == diag_views(d0) + item_diags(
            BookItem::Chapter(old_chapter),
        )) by {
            assert(diag_views(d1) + tree_diags(old_chapter.sub_items@) =~= diag_views(d0) + (
            repeated(
                source_text(old_chapter),
                texts_malformed(markdown_texts(old_chapter.content@)),
            ) + tree_diags(old_chapter.sub_items@)));
        }
        result
    }

    /// Rewrites the item where it is a chapter; other items are left alone.
    pub fn preprocess_bookitem(
        &self,
        matcher: &DirectiveMatcher,
        item: &mut BookItem,
        config: &Config,
        diags: &mut Vec<String>,
    ) -> (r: Result<(), PreprocessError>)
        ensures
            rewritten_item(*old(item), *final(item), *config, r is Ok),
            !(*old(item) is Chapter) ==> r is Ok,
            item_every(*old(item), succeeds(*config)) ==> r is Ok,
            r matches Err(PreprocessError::DraftDirective(n)) ==> !item_every(
                *old(item),
                not_refused_draft(n@),
            ),
            r matches Err(PreprocessError::Markdown(n)) ==> !item_every(
                *old(item),
                not_refused_by_writer(*config, n@),
            ),
            r is Ok ==> diag_views(final(diags)@) == diag_views(old(diags)@) + item_diags(
                *old(item),
            ),
            r matches Err(e) ==> e is Markdown || e is DraftDirective,
        decreases *old(item), 0nat,
    {
        match item {
            BookItem::Chapter(chapter) => self.preprocess_chapter(matcher, chapter, config, diags),
            _ => {
                assert(diag_views(diags@) + Seq::<Seq<char>>::empty() =~= diag_views(
                    diags@,
                ));
                Ok(())
            },
        }
    }

    /// Rewrites every chapter among `items` and under them, in order.
    pub fn preprocess_items(
        &self,
        matcher: &DirectiveMatcher,
        items: &mut Vec<BookItem>,
        config: &Config,
        diags: &mut Vec<String>,
    ) -> (r: Result<(), PreprocessError>)
        ensures
            rewritten_items(old(items)@, final(items)@, *config, r is Ok),
            r is Ok ==> diag_views(final(diags)@) == diag_views(old(diags)@) + tree_diags(
                old(items)@,
            ),
            every_chapter(old(items)@, succeeds(*config)) ==> r is Ok,
            r matches Err(PreprocessError::DraftDirective(n)) ==> !every_chapter(
                old(items)@,
                not_refused_draft(n@),
            ),
            r matches Err(PreprocessError::Markdown(n)) ==> !every_chapter(
                old(items)@,
                not_refused_by_writer(*config, n@),
            ),
            r matches Err(e) ==> e is Markdown || e is DraftDirective,
        decreases *old(items), 0nat,
    {
        let ghost items0 = items@;
        let ghost d0 = diags@;
        assert(diag_views(d0) + tree_diags(items0.take(0)) =~= diag_views(d0));
        let mut i: usize = 0;
        assert(items0.take(0) =~= Seq::<BookItem>::empty());
        assert(items@.take(0) =~= Seq::<BookItem>::empty());
        while i < items.len()
            invariant
                i <= items@.len(),
                items@.len() == items0.len(),
                items0 == old(items)@,
                forall|j: int| i <= j < items0.len() ==> items@[j] == items0[j],
                rewritten_items(items0.take(i as int), items@.take(i as int), *config, true),
                diag_views(diags@) == diag_views(d0) + tree_diags(items0.take(i as int)),
            decreases items@.len() - i,
        {
            proof {
                assert(decreases_to!(*old(items) => old(items)@));
                assert(decreases_to!(old(items)@ => old(items)@[i as int]));
            }
            let ghost before = items@;
            let ghost dbefore = diags@;
            proof {
                if every_chapter(items0, succeeds(*config)) {
                    lemma_every_index(items0, succeeds(*config), i as int);
                }
            }
            let result = self.preprocess_bookitem(matcher, &mut items[i], config, diags);
            proof {
                assert(items0.take(i + 1) =~= items0.take(i as int).push(items0[i as int]));
                assert(items@.take(i as int) =~= before.take(i as int));
                assert(items@.take(i + 1) =~= items@.take(i as int).push(items@[i as int]));
            }
            match result {
                Ok(()) => {
                    proof {
                        assert(items0.take(i + 1).drop_last() =~= items0.take(i as int));
                        assert(diag_views(d0) + tree_diags(items0.take(i as int)) + item_diags(
                            items0[i as int],
                        ) =~= diag_views(d0) + (tree_diags(items0.take(i as int)) + item_diags(
                            items0[i as int],
                        )));
                        lemma_rewritten_push(
                            items0.take(i as int),
                            items@.take(i as int),
                            items0[i as int],
                            items@[i as int],
                            *config,
                            true,
                        );
                    }
                },
                Err(e) => {
                    proof {
                        lemma_rewritten_weaken(items0.take(i as int), items@.take(i as int), *config);
                        lemma_rewritten_push(
                            items0.take(i as int),
                            items@.take(i as int),
                            items0[i as int],
                            items@[i as int],
                            *config,
                            false,
                        );
                        lemma_rewritten_extend(items0, items@, i + 1, *config);
                        if e is DraftDirective {
                            let n = e->DraftDirective_0;
                            if every_chapter(items0, not_refused_draft(n@)) {
                                lemma_every_index(items0, not_refused_draft(n@), i as int);
                            }
                        }
                        if e is Markdown {
                            let n = e->Markdown_0;
                            if every_chapter(items0, not_refused_by_writer(*config, n@)) {
                                lemma_every_index(items0, not_refused_by_writer(*config, n@), i as int);
                            }
                        }
                    }
                    return Err(e);
                },
            }
            i = i + 1;
        }
        assert(items0.take(items0.len() as int) =~= items0);
        assert(items@.take(items@.len() as int) =~= items@);
        Ok(())
    }

    /// Runs the preprocessor over the book's items, with the preprocessor's
    /// configuration table where the book has one.
    ///
    /// A table of the wrong shape stops the run before any chapter is touched.
    /// Otherwise every chapter at every depth is rewritten in place with the
    /// resolved settings, as `rewritten_items` says, and the run succeeds
    /// wherever every chapter's rewrite does. It stops at the first chapter, in
    /// depth-first order, that is a draft holding a malformed directive or that
    /// the markdown writer refuses, and names it; the chapters before it are
    /// rewritten and those after it unchanged. For each malformed directive
    /// met, the source path of its chapter is added to `diags` as it is met:
    /// all of them, in depth-first order, where the run succeeds.
    pub fn run(
        &self,
        raw_config: Option<&Vec<ConfigEntry>>,
        items: &mut Vec<BookItem>,
        diags: &mut Vec<String>,
    ) -> (r: Result<(), PreprocessError>)
        ensures
            match raw_config {
                Some(raw) => match config_error(raw@) {
                    Some(e) => r == Err::<(), PreprocessError>(PreprocessError::Config(e))
                        && *final(items) == *old(items) && *final(diags) == *old(diags),
                    None => !(r matches Err(PreprocessError::Config(_))),
                },
                None => !(r matches Err(PreprocessError::Config(_))),
            },
            r is Ok ==> diag_views(final(diags)@) == diag_views(old(diags)@) + tree_diags(
                old(items)@,
            ),
            (match raw_config {
                Some(raw) => config_error(raw@) is None,
                None => true,
            }) && (forall|c: Config| #[trigger]
                resolves(c, raw_table(raw_config)) ==> every_chapter(old(items)@, succeeds(c)))
                ==> r is Ok,
            r matches Err(PreprocessError::DraftDirective(n)) ==> !every_chapter(
                old(items)@,
                not_refused_draft(n@),
            ),
            r matches Err(PreprocessError::Markdown(n)) ==> exists|c: Config| #[trigger]
                resolves(c, raw_table(raw_config)) && !every_chapter(
                    old(items)@,
                    not_refused_by_writer(c, n@),
                ),
            !(r matches Err(PreprocessError::Config(_))) ==> exists|c: Config|
                #[trigger] resolves(c, raw_table(raw_config)) && rewritten_items(
                    old(items)@,
                    final(items)@,
                    c,
                    r is Ok,
                ),
    {
        let config = match raw_config {
            Some(raw) => match Config::new(raw) {
                Ok(c) => c,
                Err(e) => {
                    return Err(PreprocessError::Config(e));
                },
            },
            None => Config::defaults(),
        };
        assert(resolves(config, raw_table(raw_config)));
        let matcher = DirectiveMatcher::new();
        self.preprocess_items(&matcher, items, &config, diags)
    }
}

} // verus!
