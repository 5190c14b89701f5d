//! What a rewrite does to one text: every directive replaced, scanning left to
//! right, and when a second rewrite of the result changes nothing.

use vstd::prelude::*;

use crate::config::{Config, Section, SectionField};
use crate::directive::{
    directive_at,
    first_directive_from,
    lemma_directive_starts_with_marker,
    lemma_first_directive_found,
    lemma_first_directive_none,
    lemma_longest_occurs,
    longest_at,
    lemma_no_match,
    lemma_pattern_facts,
    no_directive_in,
    occurs_at,
    pattern_of,
    scan_result,
    Replacement,
};
use crate::book::{BookItem, Chapter};
use crate::paths::{
    common_prefix_from,
    components,
    is_rooted,
    join_path,
    kept_segments,
    relative_path,
    root_dir,
    source_component,
    split_segments,
};
use crate::render::{
    compass_markup,
    toc_entries,
    toc_entry,
    toc_markup,
    replacement_text,
    section_card,
    CARD_CLOSE,
    CARD_LINK_CLOSE,
    CARD_OPEN,
    CARD_TITLE_CLOSE,
    GRID_CLOSE,
    GRID_OPEN,
};

verus! {

/// Where the first directive of `text` starts and ends, when there is one.
pub proof fn lemma_scan_bounds(text: Seq<char>)
    ensures
        scan_result(text) matches Some((i, r)) ==> {
            &&& 0 <= i
            &&& i + pattern_of(r).len() <= text.len()
            &&& pattern_of(r).len() > 0
        },
{
    if let Some((i, _)) = scan_result(text) {
        lemma_first_directive_found(text, 0);
        lemma_longest_occurs(text, i);
    }
}

/// `text` with every directive replaced, scanning left to right: the first
/// marker, the longest one at its position, is replaced, and the scan goes on
/// after it.
#[verifier::opaque]
pub open spec fn expand(text: Seq<char>, compass: Seq<char>, toc: Seq<char>) -> Seq<char>
    decreases text.len(),
{
    match scan_result(text) {
        None => text,
        Some((i, r)) => {
            proof {
                lemma_scan_bounds(text);
            }
            text.take(i) + replacement_text(r, compass, toc) + expand(
                text.skip(i + pattern_of(r).len()),
                compass,
                toc,
            )
        },
    }
}

/// How many of the directives that `expand` replaces are malformed.
#[verifier::opaque]
pub open spec fn malformed_count(text: Seq<char>) -> nat
    decreases text.len(),
{
    match scan_result(text) {
        None => 0,
        Some((i, r)) => {
            proof {
                lemma_scan_bounds(text);
            }
            (if r == Replacement::Malformed {
                1nat
            } else {
                0nat
            }) + malformed_count(text.skip(i + pattern_of(r).len()))
        },
    }
}

/// One step of the scan: the text before the first directive, what the
/// directive expands to, then the expansion of the rest.
pub proof fn lemma_expand_step(
    text: Seq<char>,
    before: Seq<char>,
    r: Replacement,
    after: Seq<char>,
    compass: Seq<char>,
    toc: Seq<char>,
)
    requires
        scan_result(text) == Some((before.len() as int, r)),
        text == before + pattern_of(r) + after,
        after == text.skip((before.len() + pattern_of(r).len()) as int),
    ensures
        expand(text, compass, toc) == before + replacement_text(r, compass, toc) + expand(
            after,
            compass,
            toc,
        ),
        malformed_count(text) == (if r == Replacement::Malformed {
            1nat
        } else {
            0nat
        }) + malformed_count(after),
        after.len() < text.len(),
{
    lemma_scan_bounds(text);
    assert(text.take(before.len() as int) =~= before);
    reveal(expand);
    reveal(malformed_count);
}

/// A text without directives expands to itself.
pub proof fn lemma_expand_none(text: Seq<char>, compass: Seq<char>, toc: Seq<char>)
    requires
        scan_result(text) is None,
    ensures
        expand(text, compass, toc) == text,
        malformed_count(text) == 0,
{
    reveal(expand);
    reveal(malformed_count);
}

/// No malformed marker, and so no directive, starts anywhere in `s`.
pub open spec fn marker_free(s: Seq<char>) -> bool {
    forall|p: int| !#[trigger] occurs_at(s, p, pattern_of(Replacement::Malformed))
}

/// An expansion that no scan can read a marker into: it is not empty, holds
/// no `{`, and does not start with any character of the marker after its
/// first.
pub open spec fn inert(r: Seq<char>) -> bool {
    &&& r.len() > 0
    &&& forall|j: int| 0 <= j < r.len() ==> #[trigger] r[j] != '{'
    &&& forall|k: int|
        1 <= k < pattern_of(Replacement::Malformed).len() ==> r[0] != #[trigger] pattern_of(
            Replacement::Malformed,
        )[k]
}

proof fn lemma_concat_marker_free(a: Seq<char>, r: Seq<char>, b: Seq<char>)
    requires
        forall|p: int|
            p + pattern_of(Replacement::Malformed).len() <= a.len() ==> !#[trigger] occurs_at(
                a,
                p,
                pattern_of(Replacement::Malformed),
            ),
        inert(r),
        marker_free(b),
    ensures
        marker_free(a + r + b),
{
    lemma_pattern_facts();
    let m = pattern_of(Replacement::Malformed);
    let s = a + r + b;
    assert forall|p: int| !#[trigger] occurs_at(s, p, m) by {
        if occurs_at(s, p, m) {
            let sub = s.subrange(p, p + m.len());
            if p + m.len() <= a.len() {
                assert(a.subrange(p, p + m.len()) =~= sub);
                assert(occurs_at(a, p, m));
            } else if p < a.len() {
                let k = a.len() - p;
                assert(sub[k] == s[a.len() as int]);
                assert(s[a.len() as int] == r[0]);
                assert(m[k] == r[0]);
            } else if p < a.len() + r.len() {
                assert(sub[0] == s[p]);
                assert(s[p] == r[p - a.len()]);
                assert(r[p - a.len()] != '{');
            } else {
                let q = p - a.len() - r.len();
                assert(b.subrange(q, q + m.len()) =~= sub);
                assert(occurs_at(b, q, m));
            }
        }
    }
}

/// Where no malformed directive is met and both expansions are inert, the
/// expansion holds no marker at all.
pub proof fn lemma_expand_marker_free(text: Seq<char>, compass: Seq<char>, toc: Seq<char>)
    requires
        malformed_count(text) == 0,
        inert(compass),
        inert(toc),
    ensures
        marker_free(expand(text, compass, toc)),
    decreases text.len(),
{
    reveal(expand);
    reveal(malformed_count);
    let m = pattern_of(Replacement::Malformed);
    match scan_result(text) {
        None => {
            lemma_first_directive_none(text, 0);
            lemma_pattern_facts();
            assert forall|p: int| !#[trigger] occurs_at(text, p, m) by {
                if occurs_at(text, p, m) {
                    assert(directive_at(text, p));
                }
            }
        },
        Some((i, r)) => {
            lemma_scan_bounds(text);
            lemma_first_directive_found(text, 0);
            let after = text.skip(i + pattern_of(r).len());
            let before = text.take(i);
            assert(first_directive_from(text, 0) == Some(i));
            assert(no_directive_in(text, 0, i));
            lemma_expand_marker_free(after, compass, toc);
            assert forall|p: int| p + m.len() <= before.len() implies !#[trigger] occurs_at(
                before,
                p,
                m,
            ) by {
                lemma_pattern_facts();
                if occurs_at(before, p, m) {
                    assert(text.subrange(p, p + m.len()) =~= before.subrange(p, p + m.len()));
                    assert(occurs_at(text, p, m));
                    assert(directive_at(text, p));
                    assert(0 <= p < i);
                }
            }
            lemma_concat_marker_free(
                before,
                replacement_text(r, compass, toc),
                expand(after, compass, toc),
            );
        },
    }
}

/// Rewriting twice is rewriting once, for every text in which no malformed
/// directive is met and with expansions that no scan can read a marker into:
/// the first pass consumes every marker, so the second finds none.
pub proof fn lemma_expand_idempotent(text: Seq<char>, compass: Seq<char>, toc: Seq<char>)
    requires
        malformed_count(text) == 0,
        inert(compass),
        inert(toc),
    ensures
        expand(expand(text, compass, toc), compass, toc) == expand(text, compass, toc),
{
    let out = expand(text, compass, toc);
    lemma_expand_marker_free(text, compass, toc);
    assert forall|j: int| 0 <= j < out.len() implies !#[trigger] directive_at(
        out,
        j,
    ) by {
        if directive_at(out, j) {
            lemma_directive_starts_with_marker(out, j);
        }
    }
    lemma_no_match(out);
    lemma_expand_none(out, compass, toc);
}

/// No `{` anywhere in `s`.
pub open spec fn brace_free(s: Seq<char>) -> bool {
    forall|j: int| 0 <= j < s.len() ==> #[trigger] s[j] != '{'
}

proof fn lemma_brace_free_concat(a: Seq<char>, b: Seq<char>)
    requires
        brace_free(a),
        brace_free(b),
    ensures
        brace_free(a + b),
{
    assert forall|j: int| 0 <= j < (a + b).len() implies #[trigger] (a + b)[j] != '{' by {
        if j >= a.len() {
            assert((a + b)[j] == b[j - a.len()]);
        }
    }
}

proof fn lemma_card_brace_free(config: Config, s: Section)
    requires
        brace_free(config.value(s, SectionField::Link)),
        brace_free(config.value(s, SectionField::Title)),
        brace_free(config.value(s, SectionField::Description)),
    ensures
        brace_free(section_card(config, s)),
{
    reveal_strlit("    <blockquote>\n        <p>\n            <div class=\"diataxis-card-header\">\n                <a href=\"");
    reveal_strlit("\">");
    reveal_strlit("</a>\n            </div>\n            ");
    reveal_strlit("\n        </p>\n    </blockquote>\n");
    let link = config.value(s, SectionField::Link);
    let title = config.value(s, SectionField::Title);
    let description = config.value(s, SectionField::Description);
    assert(brace_free(CARD_OPEN@));
    assert(brace_free(CARD_LINK_CLOSE@));
    assert(brace_free(CARD_TITLE_CLOSE@));
    assert(brace_free(CARD_CLOSE@));
    lemma_brace_free_concat(CARD_OPEN@, link);
    lemma_brace_free_concat(CARD_OPEN@ + link, CARD_LINK_CLOSE@);
    lemma_brace_free_concat(CARD_OPEN@ + link + CARD_LINK_CLOSE@, title);
    lemma_brace_free_concat(CARD_OPEN@ + link + CARD_LINK_CLOSE@ + title, CARD_TITLE_CLOSE@);
    lemma_brace_free_concat(
        CARD_OPEN@ + link + CARD_LINK_CLOSE@ + title + CARD_TITLE_CLOSE@,
        description,
    );
    lemma_brace_free_concat(
        CARD_OPEN@ + link + CARD_LINK_CLOSE@ + title + CARD_TITLE_CLOSE@ + description,
        CARD_CLOSE@,
    );
}

/// With settings that hold no `{`, the compass is an expansion that no scan
/// can read a marker into, so the idempotence of `expand` applies to it.
pub proof fn lemma_compass_inert(config: Config)
    requires
        forall|s: Section, f: SectionField| brace_free(#[trigger] config.value(s, f)),
    ensures
        inert(compass_markup(config)),
{
    reveal_strlit("&#8288;<div class=\"quote-grid\">\n");
    reveal_strlit("</div>\n");
    reveal_strlit("{{#diataxis");
    let sections = seq![Section::Tutorials, Section::HowToGuides, Section::Explanation, Section::Reference];
    assert forall|i: int| 0 <= i < 4 implies brace_free(#[trigger] section_card(config, sections[i])) by {
        let s = sections[i];
        assert(brace_free(config.value(s, SectionField::Link)));
        assert(brace_free(config.value(s, SectionField::Title)));
        assert(brace_free(config.value(s, SectionField::Description)));
        lemma_card_brace_free(config, s);
    }
    let t = section_card(config, Section::Tutorials);
    let h = section_card(config, Section::HowToGuides);
    let e = section_card(config, Section::Explanation);
    let r = section_card(config, Section::Reference);
    assert(brace_free(t) && brace_free(h) && brace_free(e) && brace_free(r)) by {
        assert(section_card(config, sections[0]) == t);
        assert(section_card(config, sections[1]) == h);
        assert(section_card(config, sections[2]) == e);
        assert(section_card(config, sections[3]) == r);
    }
    assert(brace_free(GRID_OPEN@));
    assert(brace_free(GRID_CLOSE@));
    lemma_brace_free_concat(GRID_OPEN@, t);
    lemma_brace_free_concat(GRID_OPEN@ + t, h);
    lemma_brace_free_concat(GRID_OPEN@ + t + h, e);
    lemma_brace_free_concat(GRID_OPEN@ + t + h + e, r);
    lemma_brace_free_concat(GRID_OPEN@ + t + h + e + r, GRID_CLOSE@);
    let c = compass_markup(config);
    assert(c[0] == '&');
}

/// An occurrence in a prefix of `text` is one in `text` that fits in the
/// prefix.
proof fn lemma_prefix_occurs(text: Seq<char>, n: int, p: int, pat: Seq<char>)
    requires
        0 <= n <= text.len(),
    ensures
        occurs_at(text.take(n), p, pat) <==> (occurs_at(text, p, pat) && p + pat.len() <= n),
{
    if 0 <= p && p + pat.len() <= n {
        assert(text.take(n).subrange(p, p + pat.len()) =~= text.subrange(p, p + pat.len()));
    }
}

/// No marker has `{{` after its first character, and none ends with `{`.
proof fn lemma_no_inner_open(r: Replacement, k: int)
    requires
        0 <= k < pattern_of(r).len(),
        pattern_of(r)[k] == '{',
        k >= 1,
    ensures
        k + 1 < pattern_of(r).len() ==> pattern_of(r)[k + 1] != '{',
        k + 1 < pattern_of(r).len(),
{
    reveal_strlit("{{#diataxis compass}}");
    reveal_strlit("{{#diataxis table-of-contents}}");
    reveal_strlit("{{#diataxis");
}

/// Every compass marker of a text is expanded as the compass: the text before
/// it and the text after it expand on their own, and the marker becomes the
/// compass, counted as no malformed directive. No earlier directive can reach
/// into it, since no marker holds `{{` past its start.
pub proof fn lemma_compass_expanded(text: Seq<char>, i: int, compass: Seq<char>, toc: Seq<char>)
    requires
        occurs_at(text, i, pattern_of(Replacement::Compass)),
    ensures
        expand(text, compass, toc) == expand(text.take(i), compass, toc) + compass + expand(
            text.skip(i + pattern_of(Replacement::Compass).len()),
            compass,
            toc,
        ),
        malformed_count(text) == malformed_count(text.take(i)) + malformed_count(
            text.skip(i + pattern_of(Replacement::Compass).len()),
        ),
    decreases text.len(),
{
    lemma_pattern_facts();
    let c = pattern_of(Replacement::Compass);
    crate::directive::lemma_compass_never_malformed(text, i);
    if first_directive_from(text, 0) is None {
        lemma_first_directive_none(text, 0);
        assert(!directive_at(text, i));
    }
    lemma_first_directive_found(text, 0);
    let j = first_directive_from(text, 0)->0;
    let r = longest_at(text, j);
    let l = pattern_of(r).len() as int;
    lemma_longest_occurs(text, j);
    assert(j <= i) by {
        if j > i {
            assert(!directive_at(text, i));
        }
    }
    let prefix = text.take(i);
    if j == i {
        assert forall|p: int| 0 <= p < prefix.len() implies !#[trigger] directive_at(prefix, p) by {
            lemma_prefix_occurs(text, i, p, pattern_of(Replacement::Compass));
            lemma_prefix_occurs(text, i, p, pattern_of(Replacement::Toc));
            lemma_prefix_occurs(text, i, p, pattern_of(Replacement::Malformed));
            assert(!directive_at(text, p));
        }
        crate::directive::lemma_first_directive_from(prefix, 0, prefix.len() as int);
        lemma_expand_none(prefix, compass, toc);
        let after = text.skip(i + c.len());
        assert(text =~= prefix + c + after);
        lemma_expand_step(text, prefix, Replacement::Compass, after, compass, toc);
    } else {
        // The directive at `j` ends before `i`.
        assert(j + l <= i) by {
            if j + l > i {
                let k = i - j;
                reveal_strlit("{{#diataxis compass}}");
                assert(c[0] == '{' && c[1] == '{');
                assert(occurs_at(text, j, pattern_of(r)));
                assert(text.subrange(j, j + l) == pattern_of(r));
                assert(text.subrange(j, j + l)[k] == text[i]);
                assert(text.subrange(i, i + c.len())[0] == text[i]);
                assert(text.subrange(i, i + c.len())[1] == text[i + 1]);
                lemma_no_inner_open(r, k);
                assert(text.subrange(j, j + l)[k + 1] == text[i + 1]);
            }
        }
        let before = text.take(j);
        let pat = pattern_of(r);
        let rest = text.skip(j + l);
        let i2 = i - (j + l);
        assert(text =~= before + pat + rest);
        assert(rest.subrange(i2, i2 + c.len()) =~= text.subrange(i, i + c.len()));
        lemma_compass_expanded(rest, i2, compass, toc);
        lemma_expand_step(text, before, r, rest, compass, toc);
        // The prefix up to `i` scans the same way up to `j`.
        assert forall|p: int| 0 <= p < j implies !#[trigger] directive_at(prefix, p) by {
            lemma_prefix_occurs(text, i, p, pattern_of(Replacement::Compass));
            lemma_prefix_occurs(text, i, p, pattern_of(Replacement::Toc));
            lemma_prefix_occurs(text, i, p, pattern_of(Replacement::Malformed));
            assert(!directive_at(text, p));
        }
        lemma_prefix_occurs(text, i, j, pattern_of(Replacement::Compass));
        lemma_prefix_occurs(text, i, j, pattern_of(Replacement::Toc));
        lemma_prefix_occurs(text, i, j, pattern_of(Replacement::Malformed));
        assert(directive_at(prefix, j));
        crate::directive::lemma_first_directive_from(prefix, 0, j);
        assert(longest_at(prefix, j) == r);
        let rest_prefix = rest.take(i2);
        assert(prefix =~= before + pat + rest_prefix);
        assert(rest_prefix =~= prefix.skip(j + l));
        lemma_expand_step(prefix, before, r, rest_prefix, compass, toc);
        assert(rest.skip(i2 + c.len()) =~= text.skip(i + c.len()));
    }
}

proof fn lemma_segments_nonempty(p: Seq<char>)
    ensures
        split_segments(p).len() >= 1,
    decreases p.len(),
{
    if p.len() > 0 {
        lemma_segments_nonempty(p.drop_last());
    }
}

proof fn lemma_segments_brace_free(p: Seq<char>)
    requires
        brace_free(p),
    ensures
        forall|k: int| 0 <= k < split_segments(p).len() ==> brace_free(#[trigger] split_segments(p)[k]),
    decreases p.len(),
{
    if p.len() > 0 {
        let q = p.drop_last();
        assert(brace_free(q)) by {
            assert forall|j: int| 0 <= j < q.len() implies #[trigger] q[j] != '{' by {
                assert(q[j] == p[j]);
            }
        }
        lemma_segments_brace_free(q);
        lemma_segments_nonempty(q);
        let prev = split_segments(q);
        assert(p.last() == p[p.len() - 1]);
        if p.last() == '/' {
            assert forall|k: int| 0 <= k < prev.len() + 1 implies brace_free(
                #[trigger] prev.push(Seq::<char>::empty())[k],
            ) by {
                if k < prev.len() {
                    assert(prev.push(Seq::<char>::empty())[k] == prev[k]);
                }
            }
        } else {
            assert forall|k: int| 0 <= k < prev.len() implies brace_free(
                #[trigger] prev.update(prev.len() - 1, prev.last().push(p.last()))[k],
            ) by {
                if k != prev.len() - 1 {
                    assert(prev.update(prev.len() - 1, prev.last().push(p.last()))[k] == prev[k]);
                } else {
                    let l = prev.last();
                    assert(brace_free(prev[prev.len() - 1]));
                    assert forall|j: int| 0 <= j < l.push(p.last()).len() implies #[trigger] l.push(
                        p.last(),
                    )[j] != '{' by {
                        if j < l.len() {
                            assert(l.push(p.last())[j] == l[j]);
                        }
                    }
                }
            }
        }
    }
}

proof fn lemma_kept_brace_free(segs: Seq<Seq<char>>, rooted: bool)
    requires
        forall|k: int| 0 <= k < segs.len() ==> brace_free(#[trigger] segs[k]),
    ensures
        forall|k: int|
            0 <= k < kept_segments(segs, rooted).len() ==> brace_free(
                #[trigger] kept_segments(segs, rooted)[k],
            ),
    decreases segs.len(),
{
    if segs.len() > 0 {
        let q = segs.drop_last();
        assert forall|k: int| 0 <= k < q.len() implies brace_free(#[trigger] q[k]) by {
            assert(q[k] == segs[k]);
        }
        lemma_kept_brace_free(q, rooted);
        assert(brace_free(segs[segs.len() - 1]));
        let prev = kept_segments(q, rooted);
        assert forall|k: int| 0 <= k < prev.len() + 1 implies brace_free(
            #[trigger] prev.push(segs.last())[k],
        ) by {
            if k < prev.len() {
                assert(prev.push(segs.last())[k] == prev[k]);
            }
        }
    }
}

proof fn lemma_join_brace_free(cs: Seq<Seq<char>>)
    requires
        forall|k: int| 0 <= k < cs.len() ==> brace_free(#[trigger] cs[k]),
    ensures
        brace_free(join_path(cs)),
    decreases cs.len(),
{
    if cs.len() > 0 {
        let q = cs.drop_last();
        assert forall|k: int| 0 <= k < q.len() implies brace_free(#[trigger] q[k]) by {
            assert(q[k] == cs[k]);
        }
        lemma_join_brace_free(q);
        assert(brace_free(cs[cs.len() - 1]));
        let acc = join_path(q);
        assert(brace_free(seq!['/']));
        lemma_brace_free_concat(acc, seq!['/']);
        lemma_brace_free_concat(acc, cs.last());
        lemma_brace_free_concat(acc + seq!['/'], cs.last());
    }
}

/// A relative link to a target without `{` holds none.
proof fn lemma_relative_path_brace_free(source: Seq<char>, target: Seq<char>)
    requires
        brace_free(target),
    ensures
        brace_free(relative_path(source, target)),
{
    lemma_segments_brace_free(target);
    let rooted = is_rooted(target);
    lemma_kept_brace_free(split_segments(target), rooted);
    let t = components(target);
    let kept = kept_segments(split_segments(target), rooted);
    assert forall|k: int| 0 <= k < t.len() implies brace_free(#[trigger] t[k]) by {
        if rooted {
            if k > 0 {
                assert(t[k] == kept[k - 1]);
            } else {
                assert(brace_free(root_dir()));
            }
        }
    }
    let s = components(source);
    let start = common_prefix_from(t, s, 0);
    lemma_common_prefix_in_range(t, s, 0);
    let rest = t.subrange(start, t.len() as int);
    assert forall|k: int| 0 <= k < rest.len() implies brace_free(#[trigger] rest[k]) by {
        assert(rest[k] == t[start + k]);
    }
    lemma_join_brace_free(rest);
}

proof fn lemma_common_prefix_in_range(t: Seq<Seq<char>>, s: Seq<Seq<char>>, i: int)
    requires
        0 <= i <= t.len(),
    ensures
        i <= common_prefix_from(t, s, i) <= t.len(),
    decreases t.len() - i,
{
    if i < t.len() && t[i] == source_component(s, i) {
        lemma_common_prefix_in_range(t, s, i + 1);
    }
}

/// Whether every chapter among `items` has a name and a source path without
/// `{`.
pub open spec fn toc_items_brace_free(items: Seq<BookItem>) -> bool {
    forall|j: int|
        0 <= j < items.len() ==> match #[trigger] items[j] {
            BookItem::Chapter(c) => brace_free(c.name@) && match c.source_path {
                Some(p) => brace_free(p@),
                None => true,
            },
            _ => true,
        }
}

proof fn lemma_toc_entries(items: Seq<BookItem>, base: Seq<char>)
    requires
        toc_items_brace_free(items),
    ensures
        brace_free(toc_entries(items, base)),
        toc_entries(items, base).len() > 0 ==> toc_entries(items, base)[0] == '-',
        (exists|j: int| 0 <= j < items.len() && #[trigger] items[j] is Chapter) ==> toc_entries(
            items,
            base,
        ).len() > 0,
    decreases items.len(),
{
    reveal_strlit("- [");
    reveal_strlit("](");
    reveal_strlit(")\n");
    reveal_strlit("- ");
    reveal_strlit("\n");
    if items.len() > 0 {
        let q = items.drop_last();
        assert forall|j: int| 0 <= j < q.len() implies match #[trigger] q[j] {
            BookItem::Chapter(c) => brace_free(c.name@) && match c.source_path {
                Some(p) => brace_free(p@),
                None => true,
            },
            _ => true,
        } by {
            assert(q[j] == items[j]);
        }
        lemma_toc_entries(q, base);
        let last = items[items.len() - 1];
        let prev = toc_entries(q, base);
        let e = toc_entry(last, base);
        assert(brace_free(e) && (e.len() > 0 ==> e[0] == '-') && (last is Chapter ==> e.len() > 0)) by {
            if let BookItem::Chapter(c) = last {
                assert(brace_free(c.name@));
                match c.source_path {
                    Some(p) => {
                        assert(brace_free(p@));
                        lemma_relative_path_brace_free(base, p@);
                        let r = relative_path(base, p@);
                        lemma_brace_free_concat("- ["@, c.name@);
                        lemma_brace_free_concat("- ["@ + c.name@, "]("@);
                        lemma_brace_free_concat("- ["@ + c.name@ + "]("@, r);
                        lemma_brace_free_concat("- ["@ + c.name@ + "]("@ + r, ")\n"@);
                    },
                    None => {
                        lemma_brace_free_concat("- "@, c.name@);
                        lemma_brace_free_concat("- "@ + c.name@, "\n"@);
                    },
                }
            } else {
                assert(e.len() == 0);
            }
        }
        lemma_brace_free_concat(prev, e);
        if exists|j: int| 0 <= j < items.len() && #[trigger] items[j] is Chapter {
            let j = choose|j: int| 0 <= j < items.len() && #[trigger] items[j] is Chapter;
            if j < q.len() {
                assert(q[j] == items[j]);
            }
        }
    }
}

/// The table of contents of a chapter with a source path and at least one
/// sub-chapter, whose sub-chapters have names and source paths without `{`,
/// is an expansion that no scan can read a marker into, so the idempotence of
/// `expand` applies to it.
pub proof fn lemma_toc_inert(chapter: Chapter)
    requires
        chapter.source_path is Some,
        exists|j: int| 0 <= j < chapter.sub_items@.len() && #[trigger] chapter.sub_items@[j] is Chapter,
        toc_items_brace_free(chapter.sub_items@),
    ensures
        inert(toc_markup(chapter)),
{
    reveal_strlit("{{#diataxis");
    lemma_toc_entries(chapter.sub_items@, chapter.source_path->0@);
}

} // verus!
