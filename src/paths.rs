//! Paths as text: splitting into components, joining, and relative links
//! between chapters of one document tree. `/` is the separator.

use vstd::prelude::*;
use vstd::string::*;

verus! {

/// The characters of a component list, one view per component.
pub open spec fn text_views(v: Seq<&str>) -> Seq<Seq<char>> {
    v.map_values(|s: &str| s@)
}

/// The pieces of `p` between separators, empty pieces included.
pub open spec fn split_segments(p: Seq<char>) -> Seq<Seq<char>>
    decreases p.len(),
{
    if p.len() == 0 {
        seq![Seq::empty()]
    } else {
        let prev = split_segments(p.drop_last());
        if p.last() == '/' {
            prev.push(Seq::empty())
        } else {
            prev.update(prev.len() - 1, prev.last().push(p.last()))
        }
    }
}

pub open spec fn is_rooted(p: Seq<char>) -> bool {
    p.len() > 0 && p[0] == '/'
}

pub open spec fn cur_dir() -> Seq<char> {
    seq!['.']
}

pub open spec fn parent_dir() -> Seq<char> {
    seq!['.', '.']
}

pub open spec fn root_dir() -> Seq<char> {
    seq!['/']
}

/// Whether the piece at index `j` is a component: empty pieces never are, and
/// `.` only as the first piece of a path that is not rooted.
pub open spec fn keeps_segment(s: Seq<char>, j: int, rooted: bool) -> bool {
    s.len() > 0 && (s != cur_dir() || (j == 0 && !rooted))
}

pub open spec fn kept_segments(segs: Seq<Seq<char>>, rooted: bool) -> Seq<Seq<char>>
    decreases segs.len(),
{
    if segs.len() == 0 {
        Seq::empty()
    } else {
        let prev = kept_segments(segs.drop_last(), rooted);
        if keeps_segment(segs.last(), segs.len() - 1, rooted) {
            prev.push(segs.last())
        } else {
            prev
        }
    }
}

/// The components of a path: `/` first for a rooted path, then the non-empty
/// pieces between separators, with `.` dropped except at the very start.
pub open spec fn components(p: Seq<char>) -> Seq<Seq<char>> {
    if is_rooted(p) {
        seq![root_dir()] + kept_segments(split_segments(p), true)
    } else {
        kept_segments(split_segments(p), false)
    }
}

/// Components joined with `/`, with no separator after one that ends in `/`.
pub open spec fn join_path(cs: Seq<Seq<char>>) -> Seq<char>
    decreases cs.len(),
{
    if cs.len() == 0 {
        Seq::empty()
    } else {
        let acc = join_path(cs.drop_last());
        if acc.len() == 0 || acc.last() == '/' {
            acc + cs.last()
        } else {
            acc + seq!['/'] + cs.last()
        }
    }
}

/// The component of the source at `i`, or `..` past its end.
pub open spec fn source_component(s: Seq<Seq<char>>, i: int) -> Seq<char> {
    if i < s.len() {
        s[i]
    } else {
        parent_dir()
    }
}

/// The length of the common prefix of `t` and the source components `s`
/// extended with an endless run of `..`, counted from `i`.
pub open spec fn common_prefix_from(t: Seq<Seq<char>>, s: Seq<Seq<char>>, i: int) -> int
    decreases t.len() - i,
{
    if i < 0 || i >= t.len() {
        t.len() as int
    } else if t[i] == source_component(s, i) {
        common_prefix_from(t, s, i + 1)
    } else {
        i
    }
}

/// The path of `target` relative to the directory that holds `source`.
pub open spec fn relative_path(source: Seq<char>, target: Seq<char>) -> Seq<char> {
    let t = components(target);
    let s = components(source);
    join_path(t.subrange(common_prefix_from(t, s, 0), t.len() as int))
}

/// Whether two texts hold the same characters.
pub fn same_text(a: &str, b: &str) -> (r: bool)
    ensures
        r == (a@ == b@),
{
    let n = a.unicode_len();
    if n != b.unicode_len() {
        return false;
    }
    let mut i: usize = 0;
    while i < n
        invariant
            n == a@.len(),
            n == b@.len(),
            i <= n,
            forall|j: int| 0 <= j < i ==> a@[j] == b@[j],
        decreases n - i,
    {
        if a.get_char(i) != b.get_char(i) {
            return false;
        }
        i = i + 1;
    }
    assert(a@ =~= b@);
    true
}

/// The pieces of `p` between separators, in order, empty pieces included.
fn segments_of<'a>(p: &'a str) -> (r: Vec<&'a str>)
    ensures
        text_views(r@) == split_segments(p@),
{
    let n = p.unicode_len();
    let mut segs: Vec<&'a str> = Vec::new();
    let mut start: usize = 0;
    let mut i: usize = 0;
    assert(p@.take(0) =~= Seq::<char>::empty());
    assert(p@.subrange(0, 0) =~= Seq::<char>::empty());
    assert(text_views(segs@) =~= Seq::<Seq<char>>::empty());
    while i < n
        invariant
            n == p@.len(),
            start <= i <= n,
            split_segments(p@.take(i as int)) == text_views(segs@).push(
                p@.subrange(start as int, i as int),
            ),
        decreases n - i,
    {
        let c = p.get_char(i);
        let ghost prefix = p@.take(i as int);
        assert(p@.take(i + 1).drop_last() =~= prefix);
        if c == '/' {
            let seg = p.substring_char(start, i);
            segs.push(seg);
            assert(text_views(segs@) =~= text_views(segs@.drop_last()).push(seg@));
            assert(p@.subrange(i + 1, i + 1) =~= Seq::<char>::empty());
            start = i + 1;
        } else {
            assert(p@.subrange(start as int, i + 1) =~= p@.subrange(start as int, i as int).push(c));
        }
        i = i + 1;
    }
    let last = p.substring_char(start, n);
    segs.push(last);
    assert(p@.take(n as int) =~= p@);
    assert(text_views(segs@) =~= text_views(segs@.drop_last()).push(last@));
    segs
}

fn is_cur_dir(s: &str) -> (r: bool)
    ensures
        r == (s@ == cur_dir()),
{
    if s.unicode_len() == 1 && s.get_char(0) == '.' {
        assert(s@ =~= cur_dir());
        true
    } else {
        false
    }
}

/// The components of `p`, as `components` describes them.
pub fn path_components<'a>(p: &'a str) -> (r: Vec<&'a str>)
    ensures
        text_views(r@) == components(p@),
{
    let segs = segments_of(p);
    let rooted = p.unicode_len() > 0 && p.get_char(0) == '/';
    let mut out: Vec<&'a str> = Vec::new();
    if rooted {
        let root = "/";
        proof {
            reveal_strlit("/");
        }
        assert(root@ =~= root_dir());
        out.push(root);
        assert(text_views(out@) =~= seq![root_dir()]);
    }
    let ghost base = text_views(out@);
    let mut j: usize = 0;
    assert(text_views(segs@).take(0) =~= Seq::<Seq<char>>::empty());
    assert(base + Seq::<Seq<char>>::empty() =~= base);
    while j < segs.len()
        invariant
            j <= segs@.len(),
            rooted == is_rooted(p@),
            text_views(segs@) == split_segments(p@),
            base == (if rooted { seq![root_dir()] } else { Seq::<Seq<char>>::empty() }),
            text_views(out@) == base + kept_segments(
                text_views(segs@).take(j as int),
                rooted,
            ),
        decreases segs@.len() - j,
    {
        let seg = segs[j];
        let ghost views = text_views(segs@);
        assert(views.take(j + 1).drop_last() =~= views.take(j as int));
        assert(views.take(j + 1).last() == seg@);
        let ghost before = text_views(out@);
        let ghost kept = kept_segments(views.take(j as int), rooted);
        if seg.unicode_len() > 0 && (!is_cur_dir(seg) || (j == 0 && !rooted)) {
            out.push(seg);
            assert(text_views(out@) =~= before.push(seg@));
            assert(base + kept.push(seg@) =~= (base + kept).push(seg@));
        }
        j = j + 1;
    }
    assert(text_views(segs@).take(segs@.len() as int) =~= text_views(segs@));
    out
}

/// Components joined as `join_path` describes.
fn join_components(cs: &Vec<&str>, from: usize) -> (r: String)
    requires
        from <= cs@.len(),
    ensures
        r@ == join_path(text_views(cs@).subrange(from as int, cs@.len() as int)),
{
    let mut out = String::new();
    let mut j: usize = from;
    while j < cs.len()
        invariant
            from <= j <= cs@.len(),
            out@ == join_path(text_views(cs@).subrange(from as int, j as int)),
        decreases cs@.len() - j,
    {
        let ghost views = text_views(cs@);
        assert(views.subrange(from as int, j + 1).drop_last() =~= views.subrange(
            from as int,
            j as int,
        ));
        let n = out.as_str().unicode_len();
        if n > 0 && out.as_str().get_char(n - 1) != '/' {
            let sep = "/";
            proof {
                reveal_strlit("/");
            }
            out.append(sep);
        }
        out.append(cs[j]);
        j = j + 1;
    }
    out
}

/// Computes the path of `target` relative to `source`.
///
/// `target` must be a sibling of `source` or be in a child directory which is a
/// sibling of `source`; on other paths the result is still the one that
/// `relative_path` gives. Symlinks are not resolved.
pub fn relative_to(source: &str, target: &str) -> (r: String)
    ensures
        r@ == relative_path(source@, target@),
{
    let t = path_components(target);
    let s = path_components(source);
    let parent = "..";
    proof {
        reveal_strlit("..");
        assert(parent@ =~= parent_dir());
    }
    let mut i: usize = 0;
    while i < t.len()
        invariant_except_break
            i <= t@.len(),
            parent@ == parent_dir(),
            common_prefix_from(text_views(t@), text_views(s@), 0) == common_prefix_from(
                text_views(t@),
                text_views(s@),
                i as int,
            ),
        ensures
            i <= t@.len(),
            common_prefix_from(text_views(t@), text_views(s@), 0) == i,
        decreases t@.len() - i,
    {
        let other = if i < s.len() {
            s[i]
        } else {
            parent
        };
        assert(i < s@.len() ==> text_views(s@)[i as int] == s@[i as int]@);
        assert(other@ == source_component(text_views(s@), i as int));
        assert(text_views(t@)[i as int] == t@[i as int]@);
        if !same_text(t[i], other) {
            break;
        }
        i = i + 1;
    }
    join_components(&t, i)
}

/// Where the file name of `p` starts: just past its last `/`, or at 0.
pub open spec fn file_name_start(p: Seq<char>) -> int
    decreases p.len(),
{
    if p.len() == 0 {
        0
    } else if p.last() == '/' {
        p.len() as int
    } else {
        file_name_start(p.drop_last())
    }
}

/// The index of the last `.` in `f`, or -1.
pub open spec fn last_dot(f: Seq<char>) -> int
    decreases f.len(),
{
    if f.len() == 0 {
        -1
    } else if f.last() == '.' {
        f.len() - 1
    } else {
        last_dot(f.drop_last())
    }
}

/// A file name without its extension; a leading `.` starts no extension.
pub open spec fn file_stem(f: Seq<char>) -> Seq<char> {
    if last_dot(f) > 0 {
        f.take(last_dot(f))
    } else {
        f
    }
}

/// Whether the text after the last `/` names a file (not empty, `.` or `..`).
pub open spec fn names_file(f: Seq<char>) -> bool {
    f.len() > 0 && f != cur_dir() && f != parent_dir()
}

/// `p` without trailing separators and trailing `.` components, which name no
/// file: `docs/` and `docs/.` both end in the file name `docs`.
pub open spec fn trim_trailing(p: Seq<char>) -> Seq<char>
    decreases p.len(),
{
    if p.len() > 0 && p.last() == '/' {
        trim_trailing(p.drop_last())
    } else if p.len() >= 2 && p.last() == '.' && p[p.len() - 2] == '/' {
        trim_trailing(p.drop_last())
    } else {
        p
    }
}

/// A link to a rendered page. Its file name is the last piece after trailing
/// separators and `.` components are set aside: a file name `README.md`
/// becomes the directory's `index.html`, any other file name gets the
/// extension `html` (and what trailed it is dropped). A link with no file name
/// (empty, `/`, `.`, or ending in `..`) stays as it is.
pub open spec fn normalize_link(p: Seq<char>) -> Seq<char> {
    let t = trim_trailing(p);
    let start = file_name_start(t);
    let dir = t.take(start);
    let f = t.skip(start);
    if f == "README.md"@ {
        dir + "index.html"@
    } else if names_file(f) {
        dir + file_stem(f) + ".html"@
    } else {
        p
    }
}

proof fn lemma_file_name_start_bounds(p: Seq<char>)
    ensures
        0 <= file_name_start(p) <= p.len(),
    decreases p.len(),
{
    if p.len() > 0 {
        lemma_file_name_start_bounds(p.drop_last());
    }
}

/// The link that a configured `link` renders as, per `normalize_link`.
pub fn normalized_link(link: &str) -> (r: String)
    ensures
        r@ == normalize_link(link@),
{
    let mut len: usize = link.unicode_len();
    assert(link@.take(len as int) =~= link@);
    while len > 0
        invariant
            len <= link@.len(),
            trim_trailing(link@.take(len as int)) == trim_trailing(link@),
        ensures
            trim_trailing(link@) == link@.take(len as int),
        decreases len,
    {
        let ghost prefix = link@.take(len as int);
        assert(prefix.drop_last() =~= link@.take(len - 1));
        let c = link.get_char(len - 1);
        if c == '/' {
            len = len - 1;
        } else if c == '.' && len >= 2 && link.get_char(len - 2) == '/' {
            assert(prefix[prefix.len() - 2] == link@[len - 2]);
            len = len - 1;
        } else {
            if len >= 2 {
                assert(prefix[prefix.len() - 2] == link@[len - 2]);
            }
            break;
        }
    }
    let trimmed = link.substring_char(0, len);
    let n = len;
    let mut start: usize = 0;
    let mut i: usize = 0;
    assert(trimmed@.take(0) =~= Seq::<char>::empty());
    while i < n
        invariant
            n == trimmed@.len(),
            i <= n,
            start == file_name_start(trimmed@.take(i as int)),
        decreases n - i,
    {
        assert(trimmed@.take(i + 1).drop_last() =~= trimmed@.take(i as int));
        proof {
            lemma_file_name_start_bounds(trimmed@.take(i as int));
        }
        if trimmed.get_char(i) == '/' {
            start = i + 1;
        }
        i = i + 1;
    }
    assert(trimmed@.take(n as int) =~= trimmed@);
    proof {
        lemma_file_name_start_bounds(trimmed@);
    }
    let dir = trimmed.substring_char(0, start);
    let file = trimmed.substring_char(start, n);
    assert(file@ =~= trimmed@.skip(start as int));
    let readme = "README.md";
    let parent = "..";
    if same_text(file, readme) {
        let mut out = String::from_str(dir);
        out.append("index.html");
        return out;
    }
    let m = file.unicode_len();
    if m == 0 || is_cur_dir(file) || same_text(file, parent) {
        proof {
            reveal_strlit("..");
            assert(parent@ =~= parent_dir());
        }
        return String::from_str(link);
    }
    proof {
        reveal_strlit("..");
        assert(parent@ =~= parent_dir());
    }
    let mut dot: usize = 0;
    let mut found = false;
    let mut j: usize = 0;
    assert(file@.take(0) =~= Seq::<char>::empty());
    while j < m
        invariant
            m == file@.len(),
            j <= m,
            found ==> dot < j,
            (if found { dot as int } else { -1 }) == last_dot(file@.take(j as int)),
        decreases m - j,
    {
        assert(file@.take(j + 1).drop_last() =~= file@.take(j as int));
        if file.get_char(j) == '.' {
            dot = j;
            found = true;
        }
        j = j + 1;
    }
    assert(file@.take(m as int) =~= file@);
    let stem = if found && dot > 0 {
        file.substring_char(0, dot)
    } else {
        file
    };
    let mut out = String::from_str(dir);
    out.append(stem);
    out.append(".html");
    out
}

proof fn lemma_file_name_start_append(dir: Seq<char>, file: Seq<char>)
    requires
        dir.len() == 0 || dir.last() == '/',
        forall|j: int| 0 <= j < file.len() ==> file[j] != '/',
    ensures
        file_name_start(dir + file) == dir.len(),
    decreases file.len(),
{
    if file.len() == 0 {
        assert(dir + file =~= dir);
        if dir.len() > 0 {
            assert(file_name_start(dir) == dir.len());
        }
    } else {
        assert((dir + file).drop_last() =~= dir + file.drop_last());
        lemma_file_name_start_append(dir, file.drop_last());
    }
}

proof fn lemma_last_dot_append(stem: Seq<char>, ext: Seq<char>)
    requires
        forall|j: int| 0 <= j < ext.len() ==> ext[j] != '.',
    ensures
        last_dot(stem + seq!['.'] + ext) == stem.len(),
    decreases ext.len(),
{
    if ext.len() == 0 {
        assert(stem + seq!['.'] + ext =~= stem.push('.'));
    } else {
        assert((stem + seq!['.'] + ext).drop_last() =~= stem + seq!['.'] + ext.drop_last());
        lemma_last_dot_append(stem, ext.drop_last());
    }
}

/// A configured link whose file name is `README.md` renders as the
/// directory's `index.html`.
pub proof fn lemma_readme_link_becomes_index(dir: Seq<char>)
    requires
        dir.len() == 0 || dir.last() == '/',
    ensures
        normalize_link(dir + "README.md"@) == dir + "index.html"@,
{
    reveal_strlit("README.md");
    let p = dir + "README.md"@;
    lemma_file_name_start_append(dir, "README.md"@);
    assert(p.take(dir.len() as int) =~= dir);
    assert(p.skip(dir.len() as int) =~= "README.md"@);
}

/// A configured link to a markdown file `<stem>.md` renders as `<stem>.html`.
pub proof fn lemma_md_link_becomes_html(dir: Seq<char>, stem: Seq<char>)
    requires
        dir.len() == 0 || dir.last() == '/',
        stem.len() > 0,
        forall|j: int| 0 <= j < stem.len() ==> stem[j] != '/',
        stem != "README"@,
    ensures
        normalize_link(dir + stem + ".md"@) == dir + stem + ".html"@,
{
    reveal_strlit(".md");
    reveal_strlit("README.md");
    reveal_strlit("README");
    let file = stem + ".md"@;
    let p = dir + file;
    assert(dir + stem + ".md"@ =~= p);
    assert forall|j: int| 0 <= j < file.len() implies file[j] != '/' by {
        if j >= stem.len() {
            assert(file[j] == (".md"@)[j - stem.len()]);
        }
    }
    lemma_file_name_start_append(dir, file);
    assert(p.take(dir.len() as int) =~= dir);
    assert(p.skip(dir.len() as int) =~= file);
    if file == "README.md"@ {
        assert(stem =~= file.take(stem.len() as int));
        assert(stem.len() == 6);
        assert(stem =~= "README"@);
    }
    assert(file =~= stem + seq!['.'] + seq!['m', 'd']);
    lemma_last_dot_append(stem, seq!['m', 'd']);
    assert(file.take(stem.len() as int) =~= stem);
    if file == cur_dir() || file == parent_dir() {
        assert(file.len() >= 4);
    }
    assert(dir + file_stem(file) + ".html"@ =~= dir + stem + ".html"@);
}

} // verus!
