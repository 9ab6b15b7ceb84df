//! File-system paths, handled as text: joining a file name to a directory,
//! naming the backup of a file, and the decisions that locate the app's
//! install root among candidate directories (the probing of the disk itself is
//! left to the caller).
use vstd::prelude::*;

verus! {

/// A file or directory name that `Path::join` simply appends: not empty, not
/// `.` or `..`, and without separators or drive colons.
pub open spec fn plain_name(name: Seq<char>) -> bool {
    &&& name.len() > 0
    &&& name != seq!['.']
    &&& name != seq!['.', '.']
    &&& forall|i: int| 0 <= i < name.len() ==> #[trigger] name[i] != '/' && name[i] != '\\' && name[i] != ':'
}

/// A bare drive such as `C:`: one ASCII letter and a colon.
pub open spec fn bare_drive(base: Seq<char>) -> bool {
    base.len() == 2 && (('a' <= base[0] <= 'z') || ('A' <= base[0] <= 'Z')) && base[1] == ':'
}

/// A base that a name is joined to after a separator: not empty, not ending in
/// `/` or `\`, and not a bare drive.
pub open spec fn needs_separator(base: Seq<char>) -> bool {
    &&& base.len() > 0
    &&& base.last() != '/'
    &&& base.last() != '\\'
    &&& !bare_drive(base)
}

/// `joined` is `base` with `name` adjoined after exactly one separator (`/`
/// or `\`, as the platform has it) when the base needs one; otherwise
/// directly or after one separator (whether `\` or a bare drive counts as an
/// end differs between platforms).
pub open spec fn is_joined(base: Seq<char>, name: Seq<char>, joined: Seq<char>) -> bool {
    if needs_separator(base) {
        ||| joined == base + seq!['/'] + name
        ||| joined == base + seq!['\\'] + name
    } else {
        ||| joined == base + name
        ||| joined == base + seq!['/'] + name
        ||| joined == base + seq!['\\'] + name
    }
}

/// A path with a Windows verbatim prefix (`\\?\`), whose components
/// `PathBuf::push` normalises when it adds one.
pub open spec fn verbatim(p: Seq<char>) -> bool {
    p.len() >= 4 && p[0] == '\\' && p[1] == '\\' && p[2] == '?' && p[3] == '\\'
}

/// `std::path::Path::join` for a plain name, as text (`to_string_lossy` of a
/// path made from text gives that text back). What is claimed: unless the base
/// has a verbatim prefix, the name is appended to the base as `is_joined` says:
/// after one separator when the base is not empty, does not end in `/` or `\`
/// and is not a bare drive (`PathBuf::push` adds one exactly when the base does
/// not end in a separator and is not a bare drive prefix). Which separator is
/// platform behaviour and is not stated; nor is the result for a verbatim base,
/// which `push` normalises (removing `.` and `..` components).
#[verifier::external_body]
pub(crate) fn path_join(base: &str, name: &str) -> (r: String)
    requires
        plain_name(name@),
    ensures
        !verbatim(base@) ==> is_joined(base@, name@, r@),
{
    std::path::Path::new(base).join(name).to_string_lossy().into_owned()
}

/// `r` is `root` joined with `resources` (giving `a`), `desktop-dist` (giving
/// `b`) and `index.html`, each step as `path_join` states it.
pub open spec fn root_index_steps(root: Seq<char>, a: Seq<char>, b: Seq<char>, r: Seq<char>) -> bool {
    &&& !verbatim(root) ==> is_joined(root, "resources"@, a)
    &&& !verbatim(a) ==> is_joined(a, "desktop-dist"@, b)
    &&& !verbatim(b) ==> is_joined(b, "index.html"@, r)
}

/// `r` is `dir` joined with `desktop-dist` (giving `a`) and `index.html`.
pub open spec fn dist_index_steps(dir: Seq<char>, a: Seq<char>, r: Seq<char>) -> bool {
    &&& !verbatim(dir) ==> is_joined(dir, "desktop-dist"@, a)
    &&& !verbatim(a) ==> is_joined(a, "index.html"@, r)
}

/// `root/resources/desktop-dist/index.html`: the file whose presence marks an
/// install root.
pub fn root_index_path(root: &str) -> (r: String)
    ensures
        exists|a: Seq<char>, b: Seq<char>| #[trigger] root_index_steps(root@, a, b, r@),
{
    proof {
        reveal_strlit("resources");
        reveal_strlit("desktop-dist");
        reveal_strlit("index.html");
    }
    assert("resources"@.len() == 9);
    assert(plain_name("resources"@));
    assert(plain_name("desktop-dist"@));
    assert(plain_name("index.html"@));
    let a = path_join(root, "resources");
    let b = path_join(a.as_str(), "desktop-dist");
    let r = path_join(b.as_str(), "index.html");
    assert(root_index_steps(root@, a@, b@, r@));
    r
}

/// `dir/desktop-dist/index.html`: the file whose presence marks a `resources`
/// directory (or a directory that holds the app's pages itself).
pub fn dist_index_path(dir: &str) -> (r: String)
    ensures
        exists|a: Seq<char>| #[trigger] dist_index_steps(dir@, a, r@),
{
    proof {
        reveal_strlit("desktop-dist");
        reveal_strlit("index.html");
    }
    assert("desktop-dist"@.len() == 12);
    assert(plain_name("desktop-dist"@));
    assert("index.html"@.len() == 10);
    assert(plain_name("index.html"@));
    let a = path_join(dir, "desktop-dist");
    let r = path_join(a.as_str(), "index.html");
    assert(dist_index_steps(dir@, a@, r@));
    r
}

/// Suffix of the backup copy made before a file is first changed.
pub const BACKUP_SUFFIX: &'static str = ".wallpaper-bak";

/// The backup path of a file: its path with `.wallpaper-bak` appended.
pub fn backup_path(css: &str) -> (r: String)
    ensures
        r@ == css@ + BACKUP_SUFFIX@,
{
    let mut s = String::from_str(css);
    s.append(BACKUP_SUFFIX);
    s
}

/// What probing one directory on the way up from the user's choice found.
#[derive(Clone, Copy, Debug, PartialEq, Eq)]
pub struct RootProbe {
    /// `resources/desktop-dist/index.html` exists below it (it is an install root).
    pub is_root: bool,
    /// `desktop-dist/index.html` exists below it.
    pub has_dist: bool,
    /// Its own name is `resources`.
    pub named_resources: bool,
    /// It has a parent directory.
    pub has_parent: bool,
}

/// How many directories, starting from the user's choice and going up, are looked at.
pub const ROOT_SEARCH_LEVELS: usize = 5;

/// Which ancestor of the starting directory is the install root: the first
/// directory (at most five levels up) that is a root itself, or the parent of
/// a directory named `resources` that holds `desktop-dist` (that parent holds
/// `resources/desktop-dist`, so it is a root too). A directory holding
/// `desktop-dist` under another name is no root, and the walk goes on above
/// it. `levels[i]` describes the `i`-th directory on the way up, the start
/// being 0; the walk also stops where there is no parent. The answer counts
/// levels up from the start.
pub open spec fn root_level(levels: Seq<RootProbe>, i: int) -> Option<int>
    decreases levels.len() - i,
{
    if i < 0 || i >= levels.len() || i >= ROOT_SEARCH_LEVELS {
        None
    } else if levels[i].is_root {
        Some(i)
    } else if levels[i].has_dist && levels[i].named_resources && levels[i].has_parent {
        Some(i + 1)
    } else if !levels[i].has_parent {
        None
    } else {
        root_level(levels, i + 1)
    }
}

/// What `root_level` finds is a root: a level probed as one, or the parent of
/// a `resources` directory that holds `desktop-dist`.
pub proof fn lemma_root_level_is_root(levels: Seq<RootProbe>, i: int)
    ensures
        root_level(levels, i) matches Some(k) ==> {
            ||| 0 <= k < levels.len() && levels[k].is_root
            ||| 1 <= k && k - 1 < levels.len() && levels[k - 1].has_dist && levels[k - 1].named_resources
                && levels[k - 1].has_parent
        },
    decreases levels.len() - i,
{
    if 0 <= i < levels.len() && i < ROOT_SEARCH_LEVELS && !levels[i].is_root && !(levels[i].has_dist
        && levels[i].named_resources && levels[i].has_parent) && levels[i].has_parent {
        lemma_root_level_is_root(levels, i + 1);
    }
}

/// Decides which directory on the way up is the install root (see
/// [`root_level`]); `None` when none qualifies. The answer is always a root.
pub fn normalize_root(levels: &Vec<RootProbe>) -> (r: Option<usize>)
    ensures
        match r {
            Some(k) => root_level(levels@, 0) == Some(k as int),
            None => root_level(levels@, 0) is None,
        },
        r matches Some(k) ==> {
            ||| k < levels@.len() && levels@[k as int].is_root
            ||| 1 <= k && levels@[k - 1].has_dist && levels@[k - 1].named_resources
        },
{
    proof {
        lemma_root_level_is_root(levels@, 0);
    }
    let mut i: usize = 0;
    while i < levels.len() && i < ROOT_SEARCH_LEVELS
        invariant
            i <= levels@.len(),
            i <= ROOT_SEARCH_LEVELS,
            root_level(levels@, 0) == root_level(levels@, i as int),
        decreases levels@.len() - i,
    {
        let p = levels[i];
        if p.is_root {
            return Some(i);
        }
        if p.has_dist && p.named_resources && p.has_parent {
            return Some(i + 1);
        }
        if !p.has_parent {
            return None;
        }
        i = i + 1;
    }
    None
}

/// The first index at or after `i` whose candidate is valid.
pub open spec fn first_valid(valid: Seq<bool>, i: int) -> Option<int>
    decreases valid.len() - i,
{
    if i < 0 || i >= valid.len() {
        None
    } else if valid[i] {
        Some(i)
    } else {
        first_valid(valid, i + 1)
    }
}

/// Chooses the install path among candidates given in order of preference (the
/// registry's answer first, then the usual install directories): the first
/// that is a valid root.
pub fn detect_install_path(valid: &Vec<bool>) -> (r: Option<usize>)
    ensures
        match r {
            Some(k) => first_valid(valid@, 0) == Some(k as int),
            None => first_valid(valid@, 0) is None,
        },
{
    let mut i: usize = 0;
    while i < valid.len()
        invariant
            i <= valid@.len(),
            first_valid(valid@, 0) == first_valid(valid@, i as int),
        decreases valid@.len() - i,
    {
        if valid[i] {
            return Some(i);
        }
        i = i + 1;
    }
    None
}

} // verus!
