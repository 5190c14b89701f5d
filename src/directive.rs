//! The directives: their literal markers, how a text is scanned for them
//! (leftmost, then longest), and the compiled matcher that finds them.

use aho_corasick::{AhoCorasick, BuildError, MatchKind};
use vstd::prelude::*;

verus! {

#[verifier::external_type_specification]
#[verifier::external_body]
pub struct ExAhoCorasick(AhoCorasick);

#[verifier::external_type_specification]
#[verifier::external_body]
pub struct ExBuildError(BuildError);

/// The kinds of directive.
#[derive(Clone, Copy, PartialEq, Eq, Structural, Debug)]
pub enum Replacement {
    /// `{{#diataxis compass}}`: the four-card navigation block.
    Compass,
    /// `{{#diataxis table-of-contents}}`: a list of the chapter's sub-chapters.
    Toc,
    /// `{{#diataxis` followed by anything else: kept as it is.
    Malformed,
}

/// The marker of each kind of directive.
pub open spec fn pattern_of(r: Replacement) -> Seq<char> {
    match r {
        Replacement::Compass => "{{#diataxis compass}}"@,
        Replacement::Toc => "{{#diataxis table-of-contents}}"@,
        Replacement::Malformed => "{{#diataxis"@,
    }
}

/// The kind of the pattern at `index` in `Replacement::patterns`.
pub open spec fn replacement_at(index: int) -> Replacement {
    if index == 0 {
        Replacement::Compass
    } else if index == 1 {
        Replacement::Toc
    } else {
        Replacement::Malformed
    }
}

/// Whether `pat` stands in `text` starting at `i`.
pub open spec fn occurs_at(text: Seq<char>, i: int, pat: Seq<char>) -> bool {
    0 <= i && i + pat.len() <= text.len() && text.subrange(i, i + pat.len()) == pat
}

/// Whether some directive marker starts at `i`.
pub open spec fn directive_at(text: Seq<char>, i: int) -> bool {
    ||| occurs_at(text, i, pattern_of(Replacement::Compass))
    ||| occurs_at(text, i, pattern_of(Replacement::Toc))
    ||| occurs_at(text, i, pattern_of(Replacement::Malformed))
}

/// The longest marker that starts at `i`, where one does.
pub open spec fn longest_at(text: Seq<char>, i: int) -> Replacement {
    if occurs_at(text, i, pattern_of(Replacement::Toc)) {
        Replacement::Toc
    } else if occurs_at(text, i, pattern_of(Replacement::Compass)) {
        Replacement::Compass
    } else {
        Replacement::Malformed
    }
}

/// The first position at or after `i` where a directive marker starts.
pub open spec fn first_directive_from(text: Seq<char>, i: int) -> Option<int>
    decreases text.len() - i,
{
    if i < 0 || i >= text.len() {
        None
    } else if directive_at(text, i) {
        Some(i)
    } else {
        first_directive_from(text, i + 1)
    }
}

pub proof fn lemma_pattern_facts()
    ensures
        pattern_of(Replacement::Compass).len() == 21,
        pattern_of(Replacement::Toc).len() == 31,
        pattern_of(Replacement::Malformed).len() == 11,
        pattern_of(Replacement::Compass).take(11) == pattern_of(Replacement::Malformed),
        pattern_of(Replacement::Toc).take(11) == pattern_of(Replacement::Malformed),
        pattern_of(Replacement::Compass)[12] != pattern_of(Replacement::Toc)[12],
        pattern_of(Replacement::Malformed)[0] == '{',
{
    reveal_strlit("{{#diataxis compass}}");
    reveal_strlit("{{#diataxis table-of-contents}}");
    reveal_strlit("{{#diataxis");
    assert(pattern_of(Replacement::Compass).take(11) =~= pattern_of(Replacement::Malformed));
    assert(pattern_of(Replacement::Toc).take(11) =~= pattern_of(Replacement::Malformed));
}

/// The marker of the longest kind at a position is there in the text.
pub proof fn lemma_longest_occurs(text: Seq<char>, i: int)
    requires
        directive_at(text, i),
    ensures
        occurs_at(text, i, pattern_of(longest_at(text, i))),
        i + pattern_of(longest_at(text, i)).len() <= text.len(),
        pattern_of(longest_at(text, i)).len() > 0,
{
    lemma_pattern_facts();
}

/// No marker starts in `[from, to)`.
pub open spec fn no_directive_in(text: Seq<char>, from: int, to: int) -> bool {
    forall|j: int| from <= j < to ==> !#[trigger] directive_at(text, j)
}

pub proof fn lemma_first_directive_from(text: Seq<char>, i: int, n: int)
    requires
        0 <= i <= n <= text.len(),
        no_directive_in(text, i, n),
    ensures
        n < text.len() && directive_at(text, n) ==> first_directive_from(text, i) == Some(n),
        n == text.len() ==> first_directive_from(text, i) is None,
    decreases n - i,
{
    if i < n {
        assert(!directive_at(text, i));
        lemma_first_directive_from(text, i + 1, n);
    }
}

pub proof fn lemma_first_directive_found(text: Seq<char>, i: int)
    requires
        0 <= i,
        first_directive_from(text, i) is Some,
    ensures
        i <= first_directive_from(text, i)->0 < text.len(),
        directive_at(text, first_directive_from(text, i)->0),
        no_directive_in(text, i, first_directive_from(text, i)->0),
    decreases text.len() - i,
{
    if i < text.len() && !directive_at(text, i) {
        lemma_first_directive_found(text, i + 1);
    }
}

/// Where the scan from `i` finds nothing, no marker starts from `i` on.
pub proof fn lemma_first_directive_none(text: Seq<char>, i: int)
    requires
        0 <= i,
        first_directive_from(text, i) is None,
    ensures
        no_directive_in(text, i, text.len() as int),
    decreases text.len() - i,
{
    if i < text.len() {
        lemma_first_directive_none(text, i + 1);
    }
}

/// The first marker that a scan of `text` finds: its position and kind.
pub open spec fn scan_result(text: Seq<char>) -> Option<(int, Replacement)> {
    match first_directive_from(text, 0) {
        Some(i) => Some((i, longest_at(text, i))),
        None => None,
    }
}

impl Replacement {
    /// The markers, in the order of the pattern indices.
    pub fn patterns() -> (r: [&'static str; 3])
        ensures
            r@.len() == 3,
            forall|k: int| 0 <= k < 3 ==> #[trigger] r@[k]@ == pattern_of(replacement_at(k)),
    {
        [Self::Compass.pattern(), Self::Toc.pattern(), Self::Malformed.pattern()]
    }

    /// This kind's marker.
    pub fn pattern(&self) -> (r: &'static str)
        ensures
            r@ == pattern_of(*self),
    {
        match self {
            Self::Compass => "{{#diataxis compass}}",
            Self::Toc => "{{#diataxis table-of-contents}}",
            Self::Malformed => "{{#diataxis",
        }
    }

    /// The kind of the pattern at `index` in `patterns`.
    pub fn from_pattern_index(index: usize) -> (r: Self)
        requires
            index < 3,
        ensures
            r == replacement_at(index as int),
    {
        if index == 0 {
            Self::Compass
        } else if index == 1 {
            Self::Toc
        } else {
            Self::Malformed
        }
    }

    pub fn is_malformed(&self) -> (r: bool)
        ensures
            r == (*self == Replacement::Malformed),
    {
        matches!(self, Self::Malformed)
    }
}

/// Relies on `AhoCorasickBuilder::build` with `MatchKind::LeftmostLongest`:
/// compiles the patterns into one automaton. `BuildError` documents that a
/// build fails only where a limit on the number of states, the number of
/// patterns or the length of a pattern is exceeded; the three directive
/// markers, of at most 31 bytes each, exceed none of them.
#[verifier::external_body]
fn build_leftmost_longest(patterns: [&'static str; 3]) -> (r: Result<AhoCorasick, BuildError>)
    requires
        forall|k: int| 0 <= k < 3 ==> #[trigger] patterns@[k]@ == pattern_of(replacement_at(k)),
    ensures
        r is Ok,
{
    AhoCorasick::builder().match_kind(MatchKind::LeftmostLongest).build(patterns)
}

/// The directive markers compiled once into a leftmost-longest automaton, to
/// be searched in any number of texts.
pub struct DirectiveMatcher {
    automaton: AhoCorasick,
}

impl DirectiveMatcher {
    /// Compiles the markers of `Replacement::patterns`.
    pub fn new() -> (r: DirectiveMatcher) {
        let automaton = build_leftmost_longest(Replacement::patterns()).unwrap();
        DirectiveMatcher { automaton }
    }

    /// Relies on `AhoCorasick::find` on the automaton that `new` builds from
    /// `Replacement::patterns` with leftmost-longest semantics: the match
    /// starts at the leftmost position where a marker starts, and is the
    /// longest marker there. Splits `text` at that match into the text before
    /// it, the pattern index, and the text after it; the markers are ASCII, so
    /// both ends of a match fall on character boundaries.
    #[verifier::external_body]
    pub(crate) fn first_directive<'a>(&self, text: &'a str) -> (r: Option<(&'a str, usize, &'a str)>)
        ensures
            match r {
                None => no_directive_in(text@, 0, text@.len() as int),
                Some((before, k, after)) => {
                    &&& k < 3
                    &&& text@ == before@ + pattern_of(replacement_at(k as int)) + after@
                    &&& no_directive_in(text@, 0, before@.len() as int)
                    &&& forall|k2: int|
                        0 <= k2 < 3 && occurs_at(
                            text@,
                            before@.len() as int,
                            #[trigger] pattern_of(replacement_at(k2)),
                        ) ==> pattern_of(replacement_at(k2)).len() <= pattern_of(
                            replacement_at(k as int),
                        ).len()
                },
            },
    {
        match self.automaton.find(text) {
            Some(m) => Some((&text[..m.start()], m.pattern().as_usize(), &text[m.end()..])),
            None => None,
        }
    }
}

/// What a match that `first_directive` reports means for the scan of `text`:
/// it is the first marker, and the longest one at its position.
pub proof fn lemma_reported_match(text: Seq<char>, before: Seq<char>, k: int, after: Seq<char>)
    requires
        0 <= k < 3,
        text == before + pattern_of(replacement_at(k)) + after,
        no_directive_in(text, 0, before.len() as int),
        forall|k2: int|
            0 <= k2 < 3 && occurs_at(text, before.len() as int, #[trigger] pattern_of(
                replacement_at(k2),
            )) ==> pattern_of(replacement_at(k2)).len() <= pattern_of(replacement_at(k)).len(),
    ensures
        scan_result(text) == Some((before.len() as int, replacement_at(k))),
        after == text.skip((before.len() + pattern_of(replacement_at(k)).len()) as int),
{
    lemma_pattern_facts();
    let n = before.len() as int;
    let p = pattern_of(replacement_at(k));
    assert(text.subrange(n, n + p.len()) =~= p);
    assert(occurs_at(text, n, p));
    assert(directive_at(text, n));
    lemma_first_directive_from(text, 0, n);
    assert(after =~= text.skip(n + p.len()));
    let c = pattern_of(Replacement::Compass);
    let t = pattern_of(Replacement::Toc);
    if occurs_at(text, n, t) && occurs_at(text, n, c) {
        assert(text[n + 12] == t[12]);
        assert(text[n + 12] == c[12]);
    }
    assert(pattern_of(replacement_at(0)) == c);
    assert(pattern_of(replacement_at(1)) == t);
    assert(pattern_of(replacement_at(2)) == pattern_of(Replacement::Malformed));
}

/// Where `first_directive` reports none, the scan finds none.
pub proof fn lemma_no_match(text: Seq<char>)
    requires
        no_directive_in(text, 0, text.len() as int),
    ensures
        scan_result(text) is None,
{
    lemma_first_directive_from(text, 0, text.len() as int);
}

/// A compass marker is classified as a compass, never as a malformed
/// directive, although the malformed marker is a prefix of it: at its
/// position the longest marker wins, and where the scan stops there it reports
/// a compass.
pub proof fn lemma_compass_never_malformed(text: Seq<char>, i: int)
    requires
        occurs_at(text, i, pattern_of(Replacement::Compass)),
    ensures
        directive_at(text, i),
        longest_at(text, i) == Replacement::Compass,
        scan_result(text) matches Some((j, r)) ==> (j == i ==> r == Replacement::Compass),
{
    lemma_pattern_facts();
    let c = pattern_of(Replacement::Compass);
    let t = pattern_of(Replacement::Toc);
    if occurs_at(text, i, t) {
        assert(text.subrange(i, i + c.len())[12] == text[i + 12]);
        assert(text.subrange(i, i + t.len())[12] == text[i + 12]);
    }
}

/// Every directive marker starts with the malformed marker.
pub proof fn lemma_directive_starts_with_marker(text: Seq<char>, i: int)
    requires
        directive_at(text, i),
    ensures
        occurs_at(text, i, pattern_of(Replacement::Malformed)),
{
    lemma_pattern_facts();
    let m = pattern_of(Replacement::Malformed);
    let c = pattern_of(Replacement::Compass);
    let t = pattern_of(Replacement::Toc);
    if occurs_at(text, i, c) {
        assert(text.subrange(i, i + m.len()) =~= c.take(11));
    }
    if occurs_at(text, i, t) {
        assert(text.subrange(i, i + m.len()) =~= t.take(11));
    }
}

} // verus!
