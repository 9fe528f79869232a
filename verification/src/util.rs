//! Text and path helpers: character classes, display emphasis, tilde
//! expansion, path prefix stripping, and the root-resolution used by the
//! filesystem completers.

use vstd::prelude::*;

verus! {

use vstd::string::StrSliceExecFns;
use vstd::string::StringExecFns;

/// What case folding yields for one character; a character may fold to
/// several. The full Unicode mapping would take pages to write down, and
/// it is a fixed function of the character alone, so it carries a name
/// here; `lowercase_char` below computes it.
pub uninterp spec fn lower_of(c: char) -> Seq<char>;

/// Case-insensitive character equality: the two characters' lower-case
/// foldings agree.
pub open spec fn eq_ci(a: char, b: char) -> bool {
    lower_of(a) == lower_of(b)
}

/// Relies on `char::to_lowercase`: the Unicode lowercase mapping of the
/// character, a function of the character alone.
#[verifier::external_body]
fn lowercase_char(c: char) -> (r: String)
    ensures
        r@ == lower_of(c),
{
    c.to_lowercase().collect()
}

/// Case-insensitive character comparison.
pub fn chars_eq_ci(a: char, b: char) -> (r: bool)
    ensures
        r == eq_ci(a, b),
{
    let la = lowercase_char(a);
    let lb = lowercase_char(b);
    la == lb
}

/// Whether a character separates tokens: ASCII whitespace or punctuation.
pub open spec fn spec_is_separator(c: char) -> bool {
    ||| c as u32 == 9
    ||| c as u32 == 10
    ||| c as u32 == 13
    ||| c as u32 == 32
    ||| 33 <= c as u32 <= 47
    ||| 58 <= c as u32 <= 64
    ||| 91 <= c as u32 <= 96
    ||| 123 <= c as u32 <= 126
}

pub fn is_separator(c: char) -> (r: bool)
    ensures
        r == spec_is_separator(c),
{
    let u = c as u32;
    u == 9 || u == 10 || u == 13 || u == 32 || (33 <= u && u <= 47) || (58 <= u && u <= 64) || (91
        <= u && u <= 96) || (123 <= u && u <= 126)
}

/// Relies on `String::push`: appends exactly the given character.
#[verifier::external_body]
pub fn push_char(s: &mut String, c: char)
    ensures
        final(s)@ == old(s)@.push(c),
{
    s.push(c);
}

/// The characters of a string slice, in order.
pub fn chars_of(s: &str) -> (r: Vec<char>)
    ensures
        r@ == s@,
{
    let n = s.unicode_len();
    let mut r: Vec<char> = Vec::new();
    let mut i: usize = 0;
    while i < n
        invariant
            i <= n,
            n == s@.len(),
            r@ == s@.take(i as int),
        decreases n - i,
    {
        let c = s.get_char(i);
        r.push(c);
        proof {
            assert(r@ =~= s@.take(i + 1 as int));
        }
        i = i + 1;
    }
    proof {
        assert(r@ =~= s@);
    }
    r
}

/// A string holding exactly the characters of `cs`.
pub fn string_of(cs: &Vec<char>) -> (r: String)
    ensures
        r@ == cs@,
{
    let mut r = String::new();
    let mut i: usize = 0;
    while i < cs.len()
        invariant
            i <= cs@.len(),
            r@ == cs@.take(i as int),
        decreases cs@.len() - i,
    {
        push_char(&mut r, cs[i]);
        proof {
            assert(r@ =~= cs@.take(i + 1 as int));
        }
        i = i + 1;
    }
    proof {
        assert(r@ =~= cs@);
    }
    r
}

/// Joining a directory and a relative path: a separator goes between them
/// unless the directory already ends with one.
pub open spec fn spec_join(dir: Seq<char>, rest: Seq<char>) -> Seq<char> {
    if dir.len() > 0 && dir[dir.len() - 1] == '/' {
        dir + rest
    } else {
        dir + seq!['/'] + rest
    }
}

/// Tilde expansion: a leading "~/" is replaced by the home directory, when
/// one is known; any other path is left as it is.
pub open spec fn spec_expand_user(path: Seq<char>, home: Option<Seq<char>>) -> Seq<char> {
    if path.len() >= 2 && path[0] == '~' && path[1] == '/' && home is Some {
        spec_join(home->0, path.skip(2))
    } else {
        path
    }
}

/// Expands a leading "~/" to the given home directory.
pub fn expand_user(path: &str, home: Option<&String>) -> (r: String)
    ensures
        r@ == spec_expand_user(path@, match home {
            None => None,
            Some(h) => Some(h@),
        }),
{
    let n = path.unicode_len();
    if n >= 2 && path.get_char(0) == '~' && path.get_char(1) == '/' {
        if let Some(h) = home {
            let mut r = h.clone();
            let hn = h.as_str().unicode_len();
            if !(hn > 0 && r.as_str().get_char(hn - 1) == '/') {
                push_char(&mut r, '/');
            }
            let rest = path.substring_char(2, n);
            r.append(rest);
            proof {
                assert(rest@ =~= path@.skip(2));
                assert(r@ =~= spec_expand_user(path@, Some(h@)));
            }
            return r;
        }
    }
    path.to_owned()
}

/// Stripping a root prefix: the path relative to `root` when `root` is a
/// prefix of `path` ending at a separator, else the path unchanged.
pub open spec fn spec_strip_root(root: Seq<char>, path: Seq<char>) -> Seq<char> {
    if root.len() == 0 {
        path
    } else if path == root {
        Seq::<char>::empty()
    } else if root[root.len() - 1] == '/' && path.len() >= root.len() && path.take(root.len() as int)
        == root {
        path.skip(root.len() as int)
    } else if path.len() > root.len() && path.take(root.len() as int) == root && path[root.len() as int]
        == '/' {
        path.skip(root.len() + 1 as int)
    } else {
        path
    }
}

/// The path made relative to `root`, when `root` is a leading directory of
/// it; otherwise the path unchanged.
pub fn strip_root(root: &str, path: &str) -> (r: String)
    ensures
        r@ == spec_strip_root(root@, path@),
{
    let rn = root.unicode_len();
    let pn = path.unicode_len();
    if rn == 0 {
        return path.to_owned();
    }
    if pn < rn {
        proof {
            lemma_prefix_bridge(root@, path@);
        }
        return path.to_owned();
    }
    let prefix_eq = substring_eq(root, path, 0, rn);
    proof {
        lemma_prefix_bridge(root@, path@);
        assert(prefix_eq == (path@.take(rn as int) == root@));
    }
    if rn == pn && prefix_eq {
        proof {
            assert(path@.take(rn as int) =~= path@);
        }
        return String::new();
    }
    if root.get_char(rn - 1) == '/' && prefix_eq {
        let r = path.substring_char(rn, pn).to_owned();
        proof {
            assert(r@ =~= path@.skip(rn as int));
        }
        return r;
    }
    if pn > rn && prefix_eq && path.get_char(rn) == '/' {
        let r = path.substring_char(rn + 1, pn).to_owned();
        proof {
            assert(r@ =~= path@.skip(rn + 1 as int));
        }
        return r;
    }
    path.to_owned()
}

/// Bridges the prefix comparisons of `strip_root` with its specification:
/// subranges against takes, and equal takes against whole-sequence equality.
proof fn lemma_prefix_bridge(root: Seq<char>, path: Seq<char>)
    requires
        root.len() >= 1,
    ensures
        path.len() >= root.len() ==> (path.subrange(0, root.len() as int) == root.subrange(
            0,
            root.len() as int,
        ) <==> path.take(root.len() as int) == root),
        path.len() < root.len() ==> path != root && !(path.len() >= root.len()),
{
    if path.len() >= root.len() {
        assert(root.subrange(0, root.len() as int) =~= root);
        assert(path.subrange(0, root.len() as int) =~= path.take(root.len() as int));
    }
}

/// Whether the first `n` characters of `a` and of `b` agree.
fn substring_eq(a: &str, b: &str, from: usize, n: usize) -> (r: bool)
    requires
        from <= n,
        n <= a@.len(),
        n <= b@.len(),
    ensures
        r == (a@.subrange(from as int, n as int) == b@.subrange(from as int, n as int)),
{
    let mut i: usize = from;
    while i < n
        invariant
            from <= i <= n,
            n <= a@.len(),
            n <= b@.len(),
            forall|j: int| from <= j < i ==> a@[j] == b@[j],
        decreases n - i,
    {
        if a.get_char(i) != b.get_char(i) {
            assert(a@.subrange(from as int, n as int)[i - from] != b@.subrange(
                from as int,
                n as int,
            )[i - from]);
            return false;
        }
        i = i + 1;
    }
    proof {
        assert(a@.subrange(from as int, n as int) =~= b@.subrange(from as int, n as int));
    }
    true
}

/// The parent of a path string: trailing separators are dropped, then the
/// path is cut at the last separator. The root and the empty path have no
/// parent; a bare name's parent is the empty path.
pub open spec fn spec_rstrip_slashes(s: Seq<char>) -> Seq<char>
    decreases s.len(),
{
    if s.len() > 0 && s[s.len() - 1] == '/' {
        spec_rstrip_slashes(s.drop_last())
    } else {
        s
    }
}

pub open spec fn spec_parent(path: Seq<char>) -> Option<Seq<char>> {
    let t = spec_rstrip_slashes(path);
    if path.len() == 0 {
        None
    } else if t.len() == 0 {
        // the path is nothing but separators: the filesystem root
        None
    } else if forall|j: int| 0 <= j < t.len() ==> t[j] != '/' {
        Some(Seq::<char>::empty())
    } else {
        let p = spec_rstrip_slashes(t.take(last_slash(t) + 1));
        if p.len() == 0 {
            // the kept prefix was nothing but separators: the root
            Some(seq!['/'])
        } else {
            Some(p)
        }
    }
}

/// The index of the last separator of `s`, or -1 when there is none.
pub open spec fn last_slash(s: Seq<char>) -> int
    decreases s.len(),
{
    if s.len() == 0 {
        -1
    } else if s[s.len() - 1] == '/' {
        s.len() - 1
    } else {
        last_slash(s.drop_last())
    }
}

/// The parent directory of a path string, or `None` for the root and the
/// empty path.
pub fn parent_of(path: &str) -> (r: Option<String>)
    ensures
        match r {
            None => spec_parent(path@) is None,
            Some(p) => spec_parent(path@) == Some(p@),
        },
{
    let cs = chars_of(path);
    let mut t = cs.len();
    proof {
        assert(path@.take(t as int) =~= path@);
    }
    while t > 0 && cs[t - 1] == '/'
        invariant
            t <= cs@.len(),
            cs@ == path@,
            spec_rstrip_slashes(path@) == spec_rstrip_slashes(path@.take(t as int)),
            forall|j: int| t <= j < cs@.len() ==> cs@[j] == '/',
        decreases t,
    {
        proof {
            assert(path@.take(t as int).drop_last() =~= path@.take(t - 1 as int));
        }
        t = t - 1;
    }
    proof {
        assert(spec_rstrip_slashes(path@.take(t as int)) == path@.take(t as int));
        assert(cs@.take(t as int) =~= path@.take(t as int));
    }
    let ghost trimmed = path@.take(t as int);
    if cs.len() == 0 {
        return None;
    }
    if t == 0 {
        return None;
    }
    let mut k = t;
    proof {
        assert(trimmed.take(k as int) =~= trimmed);
    }
    while k > 0 && cs[k - 1] != '/'
        invariant
            k <= t,
            t <= cs@.len(),
            cs@ == path@,
            trimmed == path@.take(t as int),
            trimmed.len() == t,
            forall|j: int| k <= j < t ==> cs@[j] != '/',
            last_slash(trimmed) == last_slash(trimmed.take(k as int)),
        decreases k,
    {
        proof {
            assert(trimmed.take(k as int).drop_last() =~= trimmed.take(k - 1 as int));
        }
        k = k - 1;
    }
    if k == 0 {
        proof {
            assert(trimmed.take(0int) =~= Seq::<char>::empty());
            assert(last_slash(trimmed) == -1);
            assert(forall|j: int| 0 <= j < trimmed.len() ==> trimmed[j] != '/');
        }
        return Some(String::new());
    }
    proof {
        assert(trimmed.take(k as int).drop_last() =~= trimmed.take(k - 1 as int));
        assert(trimmed.take(k as int)[k - 1] == cs@[k - 1]);
        assert(last_slash(trimmed) == k - 1);
        assert(trimmed[k - 1] == '/');
        assert(!(forall|j: int| 0 <= j < trimmed.len() ==> trimmed[j] != '/'));
    }
    // drop the trailing separators of the kept prefix as well
    let mut e = k;
    proof {
        assert(trimmed.take(k as int).take(e as int) =~= trimmed.take(k as int));
    }
    while e > 0 && cs[e - 1] == '/'
        invariant
            e <= k,
            k <= t <= cs@.len(),
            cs@ == path@,
            trimmed == path@.take(t as int),
            trimmed.len() == t,
            spec_rstrip_slashes(trimmed.take(k as int)) == spec_rstrip_slashes(
                trimmed.take(k as int).take(e as int),
            ),
            forall|j: int| e <= j < k ==> cs@[j] == '/',
        decreases e,
    {
        proof {
            assert(trimmed.take(k as int).take(e as int).drop_last() =~= trimmed.take(
                k as int,
            ).take(e - 1 as int));
        }
        e = e - 1;
    }
    proof {
        assert(trimmed.take(k as int).take(e as int) =~= trimmed.take(e as int));
        assert(spec_rstrip_slashes(trimmed.take(e as int)) == trimmed.take(e as int));
    }
    if e == 0 {
        proof {
            reveal_strlit("/");
            assert(trimmed.take(0int) =~= Seq::<char>::empty());
            assert("/"@ =~= seq!['/']);
        }
        return Some("/".to_owned());
    }
    proof {
        assert(spec_parent(path@) == Some(trimmed.take(e as int)));
    }
    let mut out: Vec<char> = Vec::new();
    let mut i: usize = 0;
    while i < e
        invariant
            i <= e,
            e <= cs@.len(),
            cs@ == path@,
            out@ == path@.take(e as int).take(i as int),
        decreases e - i,
    {
        out.push(cs[i]);
        proof {
            assert(out@ =~= path@.take(e as int).take(i + 1 as int));
        }
        i = i + 1;
    }
    proof {
        assert(out@ =~= path@.take(e as int));
    }
    Some(string_of(&out))
}

/// The display form of a path; with paths carried as plain strings this
/// is a copy of the text.
pub fn path_string(path: &str) -> (r: String)
    ensures
        r@ == path@,
{
    path.to_owned()
}

/// Relies on `Path::canonicalize`: resolves an existing path to its
/// absolute, symlink-free form; when resolution fails (for instance because
/// the file does not exist) the path is returned unchanged, as the result
/// depends on the filesystem nothing further is promised.
#[verifier::external_body]
pub fn canonicalize(path: &str) -> (r: String) {
    match std::path::Path::new(path).canonicalize() {
        Ok(c) => c.to_string_lossy().to_string(),
        Err(_) => path.to_string(),
    }
}

/// Relies on `Path::is_dir`: queries the filesystem; the answer depends on
/// the machine's state, so nothing is promised of it.
#[verifier::external_body]
pub fn path_is_dir(path: &str) -> (r: bool) {
    std::path::Path::new(path).is_dir()
}

/// The root-resolution decision, once the filesystem has been asked: the
/// resolved path itself when it is a directory, else its parent when that
/// is a directory, else the current directory.
pub open spec fn spec_resolve_root(expanded: Seq<char>, expanded_is_dir: bool, parent_is_dir: bool)
    -> Seq<char> {
    if expanded_is_dir {
        expanded
    } else if spec_parent(expanded) is Some && parent_is_dir {
        spec_parent(expanded)->0
    } else {
        "."@
    }
}

/// Picks the search root from the resolved query and the two directory
/// answers.
pub fn resolve_root(expanded: String, expanded_is_dir: bool, parent_is_dir: bool) -> (r: String)
    ensures
        r@ == spec_resolve_root(expanded@, expanded_is_dir, parent_is_dir),
{
    if expanded_is_dir {
        return expanded;
    }
    match parent_of(expanded.as_str()) {
        Some(p) => {
            if parent_is_dir {
                return p;
            }
        },
        None => {},
    }
    ".".to_owned()
}

/// The directory a completion request scans and caches under: the query,
/// tilde-expanded and canonicalized, when it is a directory; else its
/// parent when that is a directory; else the current directory. The
/// filesystem answers come through `canonicalize` and `path_is_dir`, so
/// only the decision itself is promised, through `resolve_root`.
pub fn search_root(path: &str, home: Option<&String>) -> (r: String) {
    let expanded = expand_user(path, home);
    let canon = canonicalize(expanded.as_str());
    let canon_is_dir = path_is_dir(canon.as_str());
    let parent_is_dir = match parent_of(canon.as_str()) {
        Some(p) => path_is_dir(p.as_str()),
        None => false,
    };
    resolve_root(canon, canon_is_dir, parent_is_dir)
}

/// The markup that wraps one matched character: colored, underlined, bold,
/// then both reset.
pub open spec fn emph_seq(c: char) -> Seq<char> {
    "\u{1b}[38;5;2m\u{1b}[4m\u{1b}[1m"@ + seq![c] + "\u{1b}[39m\u{1b}[m"@
}

/// Wraps a character in the display-emphasis markup used for matched
/// characters.
pub fn emphasize(c: char) -> (r: String)
    ensures
        r@ == emph_seq(c),
{
    let mut s = "\u{1b}[38;5;2m\u{1b}[4m\u{1b}[1m".to_owned();
    push_char(&mut s, c);
    s.append("\u{1b}[39m\u{1b}[m");
    proof {
        assert(s@ =~= emph_seq(c));
    }
    s
}

} // verus!
