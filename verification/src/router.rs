//! The route index: an immutable mapping from URL path to on-disk file path.
//!
//! The index is built once, from the list of file paths found by a walk of
//! the `pages/` directory (the walk itself is unverified glue; it hands the
//! paths in visit order). Key formation follows the
//! "directory-equals-page" rule: `index.html` files map to their containing
//! directory's URL, other `*.html` files lose the `.html` suffix, and any
//! other file keeps its path verbatim, in each case with the leading `pages`
//! segment replaced so the key begins with `/`.

use vstd::prelude::*;

verus! {

/// True when `pat` occurs in `s` starting at index `i`.
pub open spec fn match_at(s: Seq<char>, pat: Seq<char>, i: int) -> bool {
    0 <= i && i + pat.len() <= s.len() && s.subrange(i, i + pat.len() as int) == pat
}

/// The least index at which `pat` occurs in `s`, or `None` when it never does.
pub open spec fn spec_find(s: Seq<char>, pat: Seq<char>) -> Option<int>
    decreases s.len(),
{
    if pat.len() <= s.len() && s.take(pat.len() as int) == pat {
        Some(0int)
    } else if s.len() == 0 {
        None
    } else {
        match spec_find(s.skip(1), pat) {
            Some(i) => Some(i + 1),
            None => None,
        }
    }
}

/// `s` with every leading repetition of `pat` removed.
pub open spec fn spec_trim_prefix(s: Seq<char>, pat: Seq<char>) -> Seq<char>
    decreases s.len(),
{
    if pat.len() == 0 {
        s
    } else if pat.len() <= s.len() && s.take(pat.len() as int) == pat {
        spec_trim_prefix(s.skip(pat.len() as int), pat)
    } else {
        s
    }
}

/// What `remove_first_occurrence` returns: everything before the first
/// occurrence of `pat` is dropped, the leading repetitions of `pat` are
/// stripped from the rest, and an empty remainder becomes `/`. When `pat`
/// does not occur at all, `s` is returned unchanged.
pub open spec fn spec_remove_first(s: Seq<char>, pat: Seq<char>) -> Seq<char> {
    match spec_find(s, pat) {
        None => s,
        Some(i) => {
            let rest = spec_trim_prefix(s.skip(i), pat);
            if rest.len() == 0 {
                seq!['/']
            } else {
                rest
            }
        },
    }
}

/// `spec_find` really is the least match index.
proof fn lemma_spec_find_correct(s: Seq<char>, pat: Seq<char>)
    ensures
        match spec_find(s, pat) {
            Some(i) => match_at(s, pat, i) && (forall|j: int| 0 <= j < i ==> !match_at(s, pat, j)),
            None => forall|j: int| !match_at(s, pat, j),
        },
    decreases s.len(),
{
    if pat.len() <= s.len() && s.take(pat.len() as int) == pat {
        assert(s.subrange(0, pat.len() as int) == s.take(pat.len() as int));
    } else if s.len() == 0 {
        assert(forall|j: int| !match_at(s, pat, j));
    } else {
        lemma_spec_find_correct(s.skip(1), pat);
        assert forall|j: int| 1 <= j implies #[trigger] match_at(s, pat, j) == match_at(
            s.skip(1),
            pat,
            j - 1,
        ) by {
            if j + pat.len() <= s.len() {
                assert(s.subrange(j, j + pat.len() as int) =~= s.skip(1).subrange(
                    j - 1,
                    j - 1 + pat.len() as int,
                ));
            }
        }
        match spec_find(s.skip(1), pat) {
            Some(i) => {
                assert(match_at(s, pat, i + 1));
                assert forall|j: int| 0 <= j < i + 1 implies !match_at(s, pat, j) by {
                    if j == 0 {
                        if match_at(s, pat, 0) {
                            assert(s.subrange(0, pat.len() as int) == s.take(pat.len() as int));
                        }
                    } else {
                        assert(!match_at(s.skip(1), pat, j - 1));
                    }
                }
            },
            None => {
                assert forall|j: int| true implies !match_at(s, pat, j) by {
                    if j == 0 {
                        if match_at(s, pat, 0) {
                            assert(s.subrange(0, pat.len() as int) == s.take(pat.len() as int));
                        }
                    } else if j >= 1 {
                        assert(!match_at(s.skip(1), pat, j - 1));
                    }
                }
            },
        }
    }
}

/// Character-by-character equality of two string slices.
pub(crate) fn str_eq(a: &str, b: &str) -> (r: bool)
    ensures
        r == (a@ == b@),
{
    let na = a.unicode_len();
    let nb = b.unicode_len();
    if na != nb {
        return false;
    }
    let mut i: usize = 0;
    while i < na
        invariant
            na == a@.len(),
            nb == b@.len(),
            na == nb,
            0 <= i <= na,
            forall|k: int| 0 <= k < i ==> a@[k] == b@[k],
        decreases na - i,
    {
        if a.get_char(i) != b.get_char(i) {
            return false;
        }
        i += 1;
    }
    proof {
        assert(a@ =~= b@);
    }
    true
}

/// Does `pat` occur in `s` starting at `i`? Checked character by character.
fn match_at_exec(s: &str, pat: &str, i: usize) -> (r: bool)
    requires
        i + pat@.len() <= s@.len(),
    ensures
        r == match_at(s@, pat@, i as int),
{
    let n = s.unicode_len();
    let m = pat.unicode_len();
    let mut j: usize = 0;
    while j < m
        invariant
            n == s@.len(),
            m == pat@.len(),
            i + m <= n,
            0 <= j <= m,
            forall|k: int| 0 <= k < j ==> s@[i + k] == pat@[k],
        decreases m - j,
    {
        if s.get_char(i + j) != pat.get_char(j) {
            proof {
                assert(s@.subrange(i as int, i + m as int)[j as int] == s@[i + j]);
            }
            return false;
        }
        j += 1;
    }
    proof {
        assert(s@.subrange(i as int, i + m as int) =~= pat@);
    }
    true
}

/// The least index at which `pat` occurs in `s`, or `None`.
fn find_first(s: &str, pat: &str) -> (r: Option<usize>)
    ensures
        match r {
            Some(i) => Some(i as int) == spec_find(s@, pat@),
            None => spec_find(s@, pat@) is None,
        },
{
    let n = s.unicode_len();
    let m = pat.unicode_len();
    if m == 0 {
        proof {
            assert(s@.take(0) =~= pat@);
        }
        return Some(0);
    }
    if m > n {
        proof {
            lemma_spec_find_correct(s@, pat@);
            if spec_find(s@, pat@) is Some {
                assert(match_at(s@, pat@, spec_find(s@, pat@)->Some_0));
            }
        }
        return None;
    }
    let mut i: usize = 0;
    while i <= n - m
        invariant
            n == s@.len(),
            m == pat@.len(),
            1 <= m <= n,
            0 <= i <= n - m + 1,
            forall|j: int| 0 <= j < i ==> !match_at(s@, pat@, j),
        decreases n - i,
    {
        if match_at_exec(s, pat, i) {
            proof {
                lemma_spec_find_correct(s@, pat@);
                match spec_find(s@, pat@) {
                    Some(k) => {
                        assert(!(k < i)) by {
                            if k < i {
                                assert(!match_at(s@, pat@, k));
                            }
                        }
                        assert(k == i);
                    },
                    None => {
                        assert(!match_at(s@, pat@, i as int));
                    },
                }
            }
            return Some(i);
        }
        i += 1;
    }
    proof {
        lemma_spec_find_correct(s@, pat@);
        assert(forall|j: int| j + pat@.len() > s@.len() ==> !match_at(s@, pat@, j));
        if spec_find(s@, pat@) is Some {
            let k = spec_find(s@, pat@)->Some_0;
            assert(match_at(s@, pat@, k));
            assert(!match_at(s@, pat@, k));
        }
    }
    None
}

/// Remove the first occurrence of `pattern` from `input`.
///
/// Everything before the first occurrence is discarded, leading repetitions
/// of the pattern are stripped from what follows, and an empty remainder is
/// rendered as `/`. When the pattern does not occur, the input is returned
/// unchanged.
pub fn remove_first_occurrence(input: &str, pattern: &str) -> (r: String)
    ensures
        r@ == spec_remove_first(input@, pattern@),
{
    let n = input.unicode_len();
    let m = pattern.unicode_len();
    match find_first(input, pattern) {
        None => input.to_owned(),
        Some(i) => {
            if m == 0 {
                // The empty pattern matches at index 0 and trimming it
                // changes nothing.
                if n == 0 {
                    let r = String::from_str("/");
                    proof {
                        reveal_strlit("/");
                        assert(input@.take(0) =~= pattern@);
                        assert(input@.skip(0) =~= input@);
                        assert(r@ =~= seq!['/']);
                    }
                    r
                } else {
                    proof {
                        assert(input@.take(0) =~= pattern@);
                        assert(input@.skip(0) =~= input@);
                    }
                    input.to_owned()
                }
            } else {
                let mut pos = i;
                proof {
                    lemma_spec_find_correct(input@, pattern@);
                    assert(match_at(input@, pattern@, i as int));
                    assert(input@.skip(i as int) =~= input@.skip(pos as int));
                }
                while pos <= n - m && match_at_exec(input, pattern, pos)
                    invariant
                        n == input@.len(),
                        m == pattern@.len(),
                        1 <= m <= n,
                        pos <= n,
                        spec_trim_prefix(input@.skip(i as int), pattern@) == spec_trim_prefix(
                            input@.skip(pos as int),
                            pattern@,
                        ),
                    decreases n - pos,
                {
                    proof {
                        let rest = input@.skip(pos as int);
                        assert(rest.take(m as int) =~= input@.subrange(
                            pos as int,
                            pos + m as int,
                        ));
                        assert(rest.skip(m as int) =~= input@.skip(pos + m as int));
                    }
                    pos += m;
                }
                proof {
                    let rest = input@.skip(pos as int);
                    if pos <= n - m {
                        // the loop stopped on a mismatch
                        assert(rest.take(m as int) =~= input@.subrange(
                            pos as int,
                            pos + m as int,
                        ));
                    }
                    assert(spec_trim_prefix(rest, pattern@) == rest);
                }
                if pos == n {
                    let r = String::from_str("/");
                    proof {
                        reveal_strlit("/");
                        assert(input@.skip(pos as int).len() == 0);
                        assert(r@ =~= seq!['/']);
                    }
                    r
                } else {
                    let rest = input.substring_char(pos, n);
                    proof {
                        assert(rest@ =~= input@.skip(pos as int));
                    }
                    rest.to_owned()
                }
            }
        },
    }
}

/// The characters of the literal `pages`, the root directory's name.
pub open spec fn pages_seq() -> Seq<char> {
    seq!['p', 'a', 'g', 'e', 's']
}

/// The characters of the literal `index.html`.
pub open spec fn index_html_seq() -> Seq<char> {
    seq!['i', 'n', 'd', 'e', 'x', '.', 'h', 't', 'm', 'l']
}

/// The characters of the literal `.html`.
pub open spec fn html_suffix() -> Seq<char> {
    seq!['.', 'h', 't', 'm', 'l']
}

/// The index just after the last `/` in `p`, or `0` when `p` has no `/`.
pub open spec fn basename_start(p: Seq<char>) -> int
    decreases p.len(),
{
    if p.len() == 0 {
        0
    } else if p[p.len() - 1] == '/' {
        p.len() as int
    } else {
        basename_start(p.drop_last())
    }
}

proof fn lemma_basename_start_bounds(p: Seq<char>)
    ensures
        0 <= basename_start(p) <= p.len(),
    decreases p.len(),
{
    if p.len() > 0 && p[p.len() - 1] != '/' {
        lemma_basename_start_bounds(p.drop_last());
    }
}

/// The part of `p` after its last `/` (the whole of `p` when it has none).
pub open spec fn file_name(p: Seq<char>) -> Seq<char> {
    p.skip(basename_start(p))
}

/// The part of `p` before its last `/`, without that `/` (empty when `p`
/// has no `/`).
pub open spec fn dir_path(p: Seq<char>) -> Seq<char> {
    if basename_start(p) > 0 {
        p.take(basename_start(p) - 1)
    } else {
        Seq::<char>::empty()
    }
}

/// The URL form of a working-directory-relative path: the leading `pages`
/// segment is removed, so `pages` itself becomes `/` and `pages/a/b`
/// becomes `/a/b`.
pub open spec fn url_key(x: Seq<char>) -> Seq<char> {
    spec_remove_first(x, pages_seq())
}

/// Does `name` end in `.html`?
pub open spec fn ends_with_html(name: Seq<char>) -> bool {
    name.len() >= 5 && name.skip(name.len() - 5) == html_suffix()
}

/// The URL key under which the file at `p` is indexed:
/// - a file named exactly `index.html` is indexed under its containing
///   directory's URL;
/// - any other `*.html` file is indexed under its URL with the `.html`
///   suffix removed;
/// - any other file is indexed under its URL verbatim.
pub open spec fn spec_route_key(p: Seq<char>) -> Seq<char> {
    if file_name(p) == index_html_seq() {
        url_key(dir_path(p))
    } else if ends_with_html(file_name(p)) {
        url_key(p.take(p.len() - 5))
    } else {
        url_key(p)
    }
}

/// Compute the index just after the last `/` in `path`.
fn basename_start_exec(path: &str) -> (r: usize)
    ensures
        r == basename_start(path@),
{
    let n = path.unicode_len();
    let mut bs: usize = n;
    proof {
        assert(path@.take(n as int) =~= path@);
    }
    while bs > 0 && path.get_char(bs - 1) != '/'
        invariant
            n == path@.len(),
            0 <= bs <= n,
            basename_start(path@) == basename_start(path@.take(bs as int)),
        decreases bs,
    {
        proof {
            assert(path@.take(bs as int).drop_last() =~= path@.take(bs - 1));
            assert(path@.take(bs as int).last() == path@[bs - 1]);
        }
        bs -= 1;
    }
    proof {
        if bs > 0 {
            assert(path@.take(bs as int).last() == path@[bs - 1]);
        } else {
            assert(path@.take(0).len() == 0);
        }
    }
    bs
}

/// Compute the URL key for the file at `path`.
pub fn route_key(path: &str) -> (r: String)
    ensures
        r@ == spec_route_key(path@),
{
    let n = path.unicode_len();
    let bs = basename_start_exec(path);
    proof {
        lemma_basename_start_bounds(path@);
        reveal_strlit("pages");
        reveal_strlit("index.html");
        reveal_strlit(".html");
        reveal_strlit("");
        assert("pages"@ =~= pages_seq());
        assert("index.html"@ =~= index_html_seq());
        assert(".html"@ =~= html_suffix());
    }
    let name = path.substring_char(bs, n);
    proof {
        assert(name@ =~= path@.skip(bs as int));
    }
    if str_eq(name, "index.html") {
        if bs > 0 {
            let dir = path.substring_char(0, bs - 1);
            proof {
                assert(dir@ =~= path@.take(bs - 1));
            }
            remove_first_occurrence(dir, "pages")
        } else {
            proof {
                assert(""@ =~= Seq::<char>::empty());
            }
            remove_first_occurrence("", "pages")
        }
    } else {
        let name_len = name.unicode_len();
        let is_html = if name_len >= 5 {
            let suffix = name.substring_char(name_len - 5, name_len);
            proof {
                assert(suffix@ =~= name@.skip(name@.len() - 5));
            }
            str_eq(suffix, ".html")
        } else {
            false
        };
        if is_html {
            let stem = path.substring_char(0, n - 5);
            proof {
                assert(stem@ =~= path@.take(path@.len() - 5));
            }
            remove_first_occurrence(stem, "pages")
        } else {
            remove_first_occurrence(path, "pages")
        }
    }
}

/// The route index. It maps URL paths (always beginning with `/`) to
/// on-disk file paths (beginning with `pages/`), is built once from the
/// walk of the `pages/` directory, and is never mutated afterwards.
pub struct Router {
    routes: Vec<(String, String)>,
}

/// The mapping that a sequence of `(key, path)` entries denotes: a later
/// entry with the same key wins.
pub open spec fn entries_map(es: Seq<(String, String)>) -> Map<Seq<char>, Seq<char>>
    decreases es.len(),
{
    if es.len() == 0 {
        Map::<Seq<char>, Seq<char>>::empty()
    } else {
        entries_map(es.drop_last()).insert(es.last().0@, es.last().1@)
    }
}

/// The route map built from the walked file paths, in visit order: each
/// file is indexed under its route key, and a later file with the same key
/// wins.
pub open spec fn spec_routes(files: Seq<Seq<char>>) -> Map<Seq<char>, Seq<char>>
    decreases files.len(),
{
    if files.len() == 0 {
        Map::<Seq<char>, Seq<char>>::empty()
    } else {
        spec_routes(files.drop_last()).insert(spec_route_key(files.last()), files.last())
    }
}

impl View for Router {
    type V = Map<Seq<char>, Seq<char>>;

    closed spec fn view(&self) -> Map<Seq<char>, Seq<char>> {
        entries_map(self.routes@)
    }
}

impl Router {
    /// Build the route index from the file paths found by the walk of the
    /// `pages/` directory, given in visit order.
    pub fn new(files: &Vec<String>) -> (r: Router)
        ensures
            r@ == spec_routes(files.deep_view()),
    {
        let mut routes: Vec<(String, String)> = Vec::new();
        let mut i: usize = 0;
        while i < files.len()
            invariant
                0 <= i <= files@.len(),
                entries_map(routes@) == spec_routes(files.deep_view().take(i as int)),
            decreases files@.len() - i,
        {
            let key = route_key(files[i].as_str());
            let ghost prev = routes@;
            routes.push((key, files[i].clone()));
            proof {
                assert(routes@.drop_last() =~= prev);
                assert(files.deep_view().take(i + 1).drop_last() =~= files.deep_view().take(
                    i as int,
                ));
                assert(files.deep_view().take(i + 1).last() == files@[i as int]@);
            }
            i += 1;
        }
        proof {
            assert(files.deep_view().take(files@.len() as int) =~= files.deep_view());
        }
        Router { routes }
    }

    /// The entries backing the index, in insertion order; they denote
    /// exactly the index's mapping.
    pub fn get_routes(&self) -> (r: &Vec<(String, String)>)
        ensures
            entries_map(r@) == self@,
    {
        &self.routes
    }

    /// Exact-match lookup of a request path: the mapped file path, or
    /// `None` when the key is not in the index.
    pub fn lookup(&self, path: &str) -> (r: Option<&String>)
        ensures
            match r {
                Some(v) => self@.contains_key(path@) && v@ == self@[path@],
                None => !self@.contains_key(path@),
            },
    {
        let mut i: usize = self.routes.len();
        proof {
            assert(self.routes@.take(i as int) =~= self.routes@);
        }
        while i > 0
            invariant
                0 <= i <= self.routes@.len(),
                entries_map(self.routes@).contains_key(path@) == entries_map(
                    self.routes@.take(i as int),
                ).contains_key(path@),
                entries_map(self.routes@.take(i as int)).contains_key(path@) ==> entries_map(
                    self.routes@,
                )[path@] == entries_map(self.routes@.take(i as int))[path@],
            decreases i,
        {
            proof {
                assert(self.routes@.take(i as int).drop_last() =~= self.routes@.take(i - 1));
                assert(self.routes@.take(i as int).last() == self.routes@[i - 1]);
            }
            if str_eq(self.routes[i - 1].0.as_str(), path) {
                return Some(&self.routes[i - 1].1);
            }
            i -= 1;
        }
        None
    }
}

/// The characters of the literal `pages/`.
pub open spec fn pages_slash() -> Seq<char> {
    seq!['p', 'a', 'g', 'e', 's', '/']
}

/// The characters of the literal `pages/index.html`.
pub open spec fn root_index_path() -> Seq<char> {
    seq!['p', 'a', 'g', 'e', 's', '/', 'i', 'n', 'd', 'e', 'x', '.', 'h', 't', 'm', 'l']
}

/// The shape of every path the walk of the `pages/` directory can hand in:
/// it begins with `pages/` followed by a first component that is not
/// another separator, and it is not the degenerate name `pages/.html`
/// (whose whole file name is the `.html` suffix).
pub open spec fn walked_page_file(p: Seq<char>) -> bool {
    &&& p.len() > 6
    &&& p.take(6) == pages_slash()
    &&& p[6] != '/'
    &&& p != seq!['p', 'a', 'g', 'e', 's', '/', '.', 'h', 't', 'm', 'l']
}

/// A key is in the built index exactly when some walked file produces it.
pub proof fn lemma_route_index_complete(files: Seq<Seq<char>>, k: Seq<char>)
    ensures
        spec_routes(files).contains_key(k) <==> exists|i: int|
            0 <= i < files.len() && spec_route_key(#[trigger] files[i]) == k,
    decreases files.len(),
{
    if files.len() > 0 {
        lemma_route_index_complete(files.drop_last(), k);
        if spec_routes(files).contains_key(k) {
            if spec_route_key(files.last()) == k {
                assert(spec_route_key(files[files.len() - 1]) == k);
            } else {
                let i = choose|i: int|
                    0 <= i < files.drop_last().len() && spec_route_key(
                        #[trigger] files.drop_last()[i],
                    ) == k;
                assert(spec_route_key(files[i]) == k);
            }
        }
        if exists|i: int| 0 <= i < files.len() && spec_route_key(#[trigger] files[i]) == k {
            let i = choose|i: int|
                0 <= i < files.len() && spec_route_key(#[trigger] files[i]) == k;
            if i < files.len() - 1 {
                assert(spec_route_key(files.drop_last()[i]) == k);
            }
        }
    }
}

/// Last writer wins: a walked file whose key no later file reuses is the
/// one the index maps that key to.
pub proof fn lemma_route_index_last_writer(files: Seq<Seq<char>>, i: int)
    requires
        0 <= i < files.len(),
        forall|j: int|
            i < j < files.len() ==> spec_route_key(#[trigger] files[j]) != spec_route_key(
                files[i],
            ),
    ensures
        spec_routes(files).contains_key(spec_route_key(files[i])),
        spec_routes(files)[spec_route_key(files[i])] == files[i],
    decreases files.len(),
{
    if i == files.len() - 1 {
    } else {
        assert(spec_route_key(files[files.len() - 1]) != spec_route_key(files[i]));
        assert(files.drop_last()[i] == files[i]);
        assert(forall|j: int|
            i < j < files.drop_last().len() ==> spec_route_key(#[trigger] files.drop_last()[j])
                != spec_route_key(files.drop_last()[i]));
        lemma_route_index_last_writer(files.drop_last(), i);
    }
}

/// A slash at index `k` pushes the base name past `k`.
proof fn lemma_basename_start_after_slash(p: Seq<char>, k: int)
    requires
        0 <= k < p.len(),
        p[k] == '/',
    ensures
        basename_start(p) >= k + 1,
    decreases p.len(),
{
    if p[p.len() - 1] != '/' {
        lemma_basename_start_after_slash(p.drop_last(), k);
    }
}

/// The character just before the base name is a slash.
proof fn lemma_basename_start_slash(p: Seq<char>)
    ensures
        basename_start(p) > 0 ==> p[basename_start(p) - 1] == '/',
    decreases p.len(),
{
    if p.len() > 0 && p[p.len() - 1] != '/' {
        lemma_basename_start_slash(p.drop_last());
        lemma_basename_start_bounds(p.drop_last());
    }
}

/// Where the slash positions are known, the base-name start is determined.
proof fn lemma_basename_start_at(p: Seq<char>, k: int)
    requires
        0 <= k <= p.len(),
        k == 0 || p[k - 1] == '/',
        forall|j: int| k <= j < p.len() ==> p[j] != '/',
    ensures
        basename_start(p) == k,
    decreases p.len(),
{
    if p.len() == 0 {
    } else if p[p.len() - 1] == '/' {
        assert(k == p.len());
    } else {
        assert(k < p.len());
        lemma_basename_start_at(p.drop_last(), k);
    }
}

/// The key-formation rule, stated over the paths the walk produces: the
/// directory `pages` itself maps to the URL `/`, and a path `pages/X`
/// maps to `/X` — exactly one leading `pages` segment is removed and the
/// separator after it is kept.
pub proof fn lemma_url_key_pages_prefix(x: Seq<char>)
    requires
        x.len() >= 5,
        x.take(5) == pages_seq(),
        x.len() > 5 ==> x[5] == '/',
    ensures
        x.len() == 5 ==> url_key(x) == seq!['/'],
        x.len() > 5 ==> url_key(x) == x.skip(5),
{
    assert(spec_find(x, pages_seq()) == Some(0int));
    assert(x.skip(0) =~= x);
    let rest = x.skip(5);
    assert(spec_trim_prefix(x, pages_seq()) == spec_trim_prefix(rest, pages_seq()));
    if x.len() == 5 {
        assert(rest.len() == 0);
        assert(spec_trim_prefix(rest, pages_seq()) == rest);
    } else {
        assert(rest[0] == '/');
        if 5 <= rest.len() && rest.take(5) == pages_seq() {
            assert(rest.take(5)[0] == '/');
            assert(pages_seq()[0] == 'p');
            assert(false);
        }
        assert(spec_trim_prefix(rest, pages_seq()) == rest);
        assert(rest.len() > 0);
    }
}

/// Among walked files, `pages/index.html` is the only one whose route key
/// is the root key `/`.
proof fn lemma_route_key_root(p: Seq<char>)
    requires
        walked_page_file(p),
    ensures
        (spec_route_key(p) == seq!['/']) <==> (p == root_index_path()),
{
    assert(p[5] == pages_slash()[5]) by {
        assert(p.take(6)[5] == p[5]);
    }
    assert(p[5] == '/');
    assert(p.take(5) =~= pages_seq()) by {
        assert(forall|j: int| 0 <= j < 5 ==> p.take(6)[j] == p[j]);
    }
    lemma_basename_start_bounds(p);
    lemma_basename_start_after_slash(p, 5);
    lemma_basename_start_slash(p);
    let bs = basename_start(p);
    assert(6 <= bs <= p.len());
    let name = file_name(p);
    if p == root_index_path() {
        assert(forall|j: int| 6 <= j < p.len() ==> p[j] != '/') by {
            assert(forall|j: int|
                6 <= j < 16 ==> root_index_path()[j] != '/');
        }
        lemma_basename_start_at(p, 6);
        assert(name =~= index_html_seq());
        let dir = dir_path(p);
        assert(dir =~= pages_seq());
        assert(dir.take(5) =~= pages_seq());
        lemma_url_key_pages_prefix(dir);
        assert(spec_route_key(p) == seq!['/']);
    }
    if spec_route_key(p) == seq!['/'] && p != root_index_path() {
        if name == index_html_seq() {
            let dir = dir_path(p);
            assert(dir == p.take(bs - 1));
            if bs == 6 {
                assert(dir =~= pages_seq());
                assert(p =~= p.take(6) + p.skip(6));
                assert(p.skip(6) == name) by {
                    assert(p.skip(6) =~= p.skip(bs));
                }
                assert(p =~= root_index_path()) by {
                    assert(pages_slash() + index_html_seq() =~= root_index_path());
                }
                assert(false);
            } else {
                // the containing directory is `pages/…`, whose key keeps
                // at least one character after the slash
                assert(dir.len() >= 6);
                assert(dir.take(5) =~= p.take(5));
                assert(dir[5] == p[5]);
                lemma_url_key_pages_prefix(dir);
                assert(spec_route_key(p) == dir.skip(5));
                if dir.len() == 6 {
                    assert(p[bs - 1] == '/');
                    assert(bs - 1 == 6);
                    assert(false);
                }
                assert(dir.skip(5).len() >= 2);
                assert(false);
            }
        } else if ends_with_html(name) {
            assert(name.len() >= 5);
            assert(p.len() >= bs + 5);
            let x = p.take(p.len() - 5);
            assert(x.len() >= 6);
            assert(x.take(5) =~= p.take(5));
            assert(x[5] == p[5]);
            lemma_url_key_pages_prefix(x);
            assert(spec_route_key(p) == x.skip(5));
            if x.len() == 6 {
                // then the whole file name is `.html`, which is excluded
                assert(p.len() == 11);
                assert(name.len() == p.len() - bs);
                assert(bs == 6);
                assert(name =~= p.skip(6));
                assert(name =~= html_suffix()) by {
                    assert(name.skip(name.len() - 5) =~= name);
                }
                assert(p =~= p.take(6) + p.skip(6));
                assert(p =~= seq!['p', 'a', 'g', 'e', 's', '/', '.', 'h', 't', 'm', 'l']) by {
                    assert(pages_slash() + html_suffix() =~= seq![
                        'p', 'a', 'g', 'e', 's', '/', '.', 'h', 't', 'm', 'l',
                    ]);
                }
                assert(false);
            }
            assert(x.skip(5).len() >= 2);
            assert(false);
        } else {
            lemma_url_key_pages_prefix(p);
            assert(spec_route_key(p) == p.skip(5));
            assert(p.skip(5).len() >= 2);
            assert(false);
        }
    }
}

/// The root URL key `/` is in the index exactly when the walk found the
/// file `pages/index.html`.
pub proof fn lemma_root_key_iff_root_index(files: Seq<Seq<char>>)
    requires
        forall|i: int| 0 <= i < files.len() ==> walked_page_file(#[trigger] files[i]),
    ensures
        spec_routes(files).contains_key(seq!['/']) <==> files.contains(root_index_path()),
    decreases files.len(),
{
    if files.len() > 0 {
        lemma_root_key_iff_root_index(files.drop_last());
        lemma_route_key_root(files.last());
        if spec_routes(files).contains_key(seq!['/']) {
            if spec_route_key(files.last()) == seq!['/'] {
                assert(files[files.len() - 1] == root_index_path());
            } else {
                assert(files.drop_last().contains(root_index_path()));
                let i = choose|i: int|
                    0 <= i < files.drop_last().len() && files.drop_last()[i]
                        == root_index_path();
                assert(files[i] == root_index_path());
            }
        }
        if files.contains(root_index_path()) {
            let i = choose|i: int| 0 <= i < files.len() && files[i] == root_index_path();
            if i < files.len() - 1 {
                assert(files.drop_last()[i] == root_index_path());
                assert(files.drop_last().contains(root_index_path()));
            } else {
                assert(spec_route_key(files.last()) == seq!['/']);
            }
        }
    }
}

} // verus!
