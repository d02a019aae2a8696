//! The configuration: which files tomb manages and where the inbox is.
//! Paths are held as text.
use vstd::prelude::*;

use crate::home::{home_dir, HomeDir};
use crate::model::opt_view;
use crate::text::{chars_eq, chars_of};

verus! {

#[derive(Debug, Clone, PartialEq)]
pub enum FileEntry {
    Path { path: String, context: Option<String> },
    Glob { glob: String, context: Option<String> },
}

#[derive(Debug, Clone, PartialEq)]
pub struct InboxEntry {
    pub path: String,
}

#[derive(Debug, Default, Clone, PartialEq)]
pub struct Config {
    pub files: Vec<FileEntry>,
    pub inbox: Vec<InboxEntry>,
    /// Directory containing the config file, used as base for relative paths
    pub root_dir: Option<String>,
}

#[derive(Debug, Clone, PartialEq)]
pub struct ResolvedFile {
    pub path: String,
    pub context: Option<String>,
}

// ---------------------------------------------------------------------------
// Paths

/// What `Path::new(raw).strip_prefix("~")` gives: the rest of the path when
/// its first component is `~`.
pub uninterp spec fn std_strip_tilde(raw: Seq<char>) -> Option<Seq<char>>;

/// What `Path::is_relative` answers.
pub uninterp spec fn std_is_relative(raw: Seq<char>) -> bool;

/// What `Path::join` gives.
pub uninterp spec fn std_path_join(base: Seq<char>, raw: Seq<char>) -> Seq<char>;

/// `Path::strip_prefix("~")`, the rest converted to text; the contract
/// names the result (component rules are not restated).
#[verifier::external_body]
fn strip_tilde(raw: &str) -> (r: Option<String>)
    ensures
        opt_view(r) == std_strip_tilde(raw@),
{
    match std::path::Path::new(raw).strip_prefix("~") {
        Ok(rest) => Some(rest.to_string_lossy().into_owned()),
        Err(_) => None,
    }
}

/// `Path::is_relative`; the contract names the result (it differs between
/// platforms).
#[verifier::external_body]
fn is_relative(raw: &str) -> (b: bool)
    ensures
        b == std_is_relative(raw@),
{
    std::path::Path::new(raw).is_relative()
}

/// `Path::join`, converted to text; the contract names the result.
#[verifier::external_body]
fn path_join(base: &str, raw: &str) -> (r: String)
    ensures
        r@ == std_path_join(base@, raw@),
{
    std::path::Path::new(base).join(raw).to_string_lossy().into_owned()
}

/// What `Path::components` gives, collected back into a `PathBuf`, as
/// text: the path in component form (repeated and trailing separators and
/// inner `.` components gone).
pub uninterp spec fn std_path_key(p: Seq<char>) -> Seq<char>;

/// `Path::components` collected into a `PathBuf`, converted to text; the
/// contract names the result.
#[verifier::external_body]
fn path_key(p: &str) -> (r: String)
    ensures
        r@ == std_path_key(p@),
{
    std::path::Path::new(p).components().collect::<std::path::PathBuf>().to_string_lossy().into_owned()
}

/// A path with a leading `~` component taken under the home directory (left
/// as it is when there is none), a relative path taken under `base`, an
/// absolute path as it is.
pub open spec fn resolve_path_with(home: Option<Seq<char>>, base: Seq<char>, raw: Seq<char>) -> Seq<
    char,
> {
    match std_strip_tilde(raw) {
        Some(suffix) => match home {
            Some(h) => std_path_join(h, suffix),
            None => raw,
        },
        None => if std_is_relative(raw) {
            std_path_join(base, raw)
        } else {
            raw
        },
    }
}

/// A path whose first component is `~` is the home directory joined with
/// the rest of the path whenever there is a home directory; it stays as it
/// is only when there is none.
pub proof fn lemma_tilde_paths_go_home(home: Option<Seq<char>>, base: Seq<char>, raw: Seq<char>)
    requires
        std_strip_tilde(raw) is Some,
    ensures
        home matches Some(h) ==> resolve_path_with(home, base, raw) == std_path_join(
            h,
            std_strip_tilde(raw)->0,
        ),
        home is None ==> resolve_path_with(home, base, raw) == raw,
{
}

/// `resolve_path` with the home directory given.
pub fn resolve_path_with_home(home: &HomeDir, base: &str, raw: &str) -> (r: String)
    ensures
        r@ == resolve_path_with(home@, base@, raw@),
{
    match strip_tilde(raw) {
        Some(suffix) => match home.dir() {
            Some(h) => path_join(h.as_str(), suffix.as_str()),
            None => raw.to_owned(),
        },
        None => if is_relative(raw) {
            path_join(base, raw)
        } else {
            raw.to_owned()
        },
    }
}

/// Expand `~` prefix to the user's home directory and resolve relative
/// paths against `base`.
///
/// - `~/foo` becomes `/home/user/foo`
/// - `foo/bar` becomes `base/foo/bar`
/// - `/absolute/path` stays as-is
pub fn resolve_path(base: &str, raw: &str) -> (r: String)
    ensures
        exists|h: Option<Seq<char>>| r@ == resolve_path_with(h, base@, raw@),
        std_strip_tilde(raw@) is None ==> r@ == resolve_path_with(None, base@, raw@),
{
    let home = home_dir();
    let r = resolve_path_with_home(&home, base, raw);
    assert(r@ == resolve_path_with(home@, base@, raw@));
    r
}

pub fn clone_opt_string(o: &Option<String>) -> (r: Option<String>)
    ensures
        r == *o,
{
    match o {
        Some(s) => Some(s.clone()),
        None => None,
    }
}

/// A path resolved against `base` with some home directory, as
/// `resolve_path` gives it.
pub open spec fn path_resolved(base: Seq<char>, raw: Seq<char>, new: Seq<char>) -> bool {
    &&& exists|h: Option<Seq<char>>| new == resolve_path_with(h, base, raw)
    &&& std_strip_tilde(raw) is None ==> new == resolve_path_with(None, base, raw)
}

pub open spec fn entry_resolved(base: Seq<char>, old: FileEntry, new: FileEntry) -> bool {
    match old {
        FileEntry::Path { path, context } => match new {
            FileEntry::Path { path: p2, context: c2 } => c2 == context && path_resolved(
                base,
                path@,
                p2@,
            ),
            _ => false,
        },
        FileEntry::Glob { .. } => new == old,
    }
}

/// An entry resolved against `base` with the home directory `home`: a path
/// entry's path as `resolve_path_with` gives it, its context kept; a glob
/// entry as it is.
pub open spec fn entry_resolved_with(
    home: Option<Seq<char>>,
    base: Seq<char>,
    before: FileEntry,
    after: FileEntry,
) -> bool {
    match before {
        FileEntry::Path { path, context } => after == FileEntry::Path {
            path: after->Path_path,
            context,
        } && after->Path_path@ == resolve_path_with(home, base, path@),
        FileEntry::Glob { .. } => after == before,
    }
}

/// A path resolved with a known home directory is resolved as
/// `path_resolved` says.
proof fn lemma_path_resolved_with(home: Option<Seq<char>>, base: Seq<char>, raw: Seq<char>)
    ensures
        path_resolved(base, raw, resolve_path_with(home, base, raw)),
{
}

/// The base for relative paths: the config's directory, or the empty path.
pub open spec fn config_base(c: Config) -> Seq<char> {
    match c.root_dir {
        Some(d) => d@,
        None => Seq::empty(),
    }
}

/// Apply path resolution to all entries in a parsed config.
/// Call resolve_path on every FileEntry::Path and InboxEntry path
/// using config.root_dir as the base. Every path is resolved with the one
/// home directory that the environment gives, which is returned.
pub fn resolve_paths(config: &mut Config) -> (home: HomeDir)
    ensures
        forall|i: int|
            0 <= i < old(config).files.len() ==> entry_resolved_with(
                home@,
                config_base(*old(config)),
                #[trigger] old(config).files@[i],
                final(config).files@[i],
            ),
        forall|i: int|
            0 <= i < old(config).inbox.len() ==> #[trigger] final(config).inbox@[i].path@
                == resolve_path_with(home@, config_base(*old(config)), old(config).inbox@[i].path@),
        final(config).root_dir == old(config).root_dir,
        final(config).files.len() == old(config).files.len(),
        forall|i: int|
            0 <= i < old(config).files.len() ==> entry_resolved(
                config_base(*old(config)),
                #[trigger] old(config).files@[i],
                final(config).files@[i],
            ),
        final(config).inbox.len() == old(config).inbox.len(),
        forall|i: int|
            0 <= i < old(config).inbox.len() ==> path_resolved(
                config_base(*old(config)),
                #[trigger] old(config).inbox@[i].path@,
                final(config).inbox@[i].path@,
            ),
{
    let base = match &config.root_dir {
        Some(d) => d.clone(),
        None => String::new(),
    };
    assert(base@ == config_base(*config));
    let home = home_dir();
    let mut files: Vec<FileEntry> = Vec::new();
    let mut i: usize = 0;
    while i < config.files.len()
        invariant
            i <= config.files.len(),
            config == old(config),
            base@ == config_base(*old(config)),
            files.len() == i,
            forall|j: int|
                0 <= j < i ==> entry_resolved_with(
                    home@,
                    base@,
                    #[trigger] config.files@[j],
                    files@[j],
                ) && entry_resolved(base@, config.files@[j], files@[j]),
        decreases config.files.len() - i,
    {
        let entry = match &config.files[i] {
            FileEntry::Path { path, context } => {
                let p = resolve_path_with_home(&home, base.as_str(), path.as_str());
                proof {
                    lemma_path_resolved_with(home@, base@, path@);
                }
                FileEntry::Path { path: p, context: clone_opt_string(context) }
            },
            FileEntry::Glob { glob, context } => FileEntry::Glob {
                glob: glob.clone(),
                context: clone_opt_string(context),
            },
        };
        files.push(entry);
        i += 1;
    }
    let mut inbox: Vec<InboxEntry> = Vec::new();
    let mut k: usize = 0;
    while k < config.inbox.len()
        invariant
            k <= config.inbox.len(),
            config == old(config),
            base@ == config_base(*old(config)),
            inbox.len() == k,
            forall|j: int|
                0 <= j < k ==> #[trigger] inbox@[j].path@ == resolve_path_with(
                    home@,
                    base@,
                    config.inbox@[j].path@,
                ) && path_resolved(base@, config.inbox@[j].path@, inbox@[j].path@),
        decreases config.inbox.len() - k,
    {
        let p = resolve_path_with_home(&home, base.as_str(), config.inbox[k].path.as_str());
        proof {
            lemma_path_resolved_with(home@, base@, config.inbox@[k as int].path@);
        }
        inbox.push(InboxEntry { path: p });
        k += 1;
    }
    config.files = files;
    config.inbox = inbox;
    home
}

impl Config {
    /// The config there is when no config file is found: no files, no
    /// inbox, no directory.
    pub fn empty() -> (c: Config)
        ensures
            c.files@.len() == 0,
            c.inbox@.len() == 0,
            c.root_dir is None,
    {
        Config { files: Vec::new(), inbox: Vec::new(), root_dir: None }
    }

    /// Return the first configured inbox entry, or None.
    pub fn inbox(&self) -> (r: Option<&InboxEntry>)
        ensures
            self.inbox.len() == 0 ==> r is None,
            self.inbox.len() > 0 ==> r == Some(&self.inbox@[0]),
    {
        if self.inbox.len() > 0 {
            Some(&self.inbox[0])
        } else {
            None
        }
    }
}

// ---------------------------------------------------------------------------
// Expanding the file entries

/// A file of the expansion: its path, its context, and whether a path entry
/// (rather than a glob) gave it.
pub open spec fn item_view(x: (String, Option<String>, bool)) -> (Seq<char>, Option<Seq<char>>, bool) {
    (x.0@, opt_view(x.1), x.2)
}

pub open spec fn items_view(v: Seq<(String, Option<String>, bool)>) -> Seq<
    (Seq<char>, Option<Seq<char>>, bool),
> {
    v.map_values(|x: (String, Option<String>, bool)| item_view(x))
}

/// A resolved file as plain values: its path and its context.
pub open spec fn resolved_view(f: ResolvedFile) -> (Seq<char>, Option<Seq<char>>) {
    (f.path@, opt_view(f.context))
}

pub open spec fn resolved_files_view(v: Seq<ResolvedFile>) -> Seq<(Seq<char>, Option<Seq<char>>)> {
    v.map_values(|f: ResolvedFile| resolved_view(f))
}

/// The matches given for entry `i` (none when `matches` is shorter).
pub open spec fn matches_at(matches: Seq<Seq<String>>, i: int) -> Seq<Seq<char>> {
    if 0 <= i < matches.len() {
        matches[i].map_values(|s: String| s@)
    } else {
        Seq::empty()
    }
}

/// The files of one entry: a path entry's own path, a glob entry's matches;
/// each with the entry's context.
pub open spec fn entry_files(e: FileEntry, m: Seq<Seq<char>>) -> Seq<(Seq<char>, Option<Seq<char>>, bool)> {
    match e {
        FileEntry::Path { path, context } => seq![(path@, opt_view(context), true)],
        FileEntry::Glob { context, .. } => m.map_values(|p: Seq<char>| (p, opt_view(context), false)),
    }
}

/// The files of the first `n` entries, in entry order.
pub open spec fn expand_entries(
    files: Seq<FileEntry>,
    matches: Seq<Seq<String>>,
    n: int,
) -> Seq<(Seq<char>, Option<Seq<char>>, bool)>
    decreases n,
{
    if n <= 0 {
        Seq::empty()
    } else {
        expand_entries(files, matches, n - 1) + entry_files(files[n - 1], matches_at(matches, n - 1))
    }
}

/// Two paths are the same as `PathBuf`s compare them: component by
/// component, which their component forms show.
pub open spec fn same_path(a: Seq<char>, b: Seq<char>) -> bool {
    std_path_key(a) == std_path_key(b)
}

/// File `k` of the expansion is kept: one that a path entry gave, unless an
/// earlier path entry gave the same path; a glob match, unless some path
/// entry gives the same path or an earlier file has it. Path entries win
/// over glob matches, and otherwise the first file with a path wins.
pub open spec fn kept_at(s: Seq<(Seq<char>, Option<Seq<char>>, bool)>, k: int) -> bool {
    if s[k].2 {
        !exists|j: int| 0 <= j < k && (#[trigger] s[j]).2 && same_path(s[j].0, s[k].0)
    } else {
        &&& !exists|j: int| 0 <= j < s.len() && (#[trigger] s[j]).2 && same_path(s[j].0, s[k].0)
        &&& !exists|j: int| 0 <= j < k && same_path((#[trigger] s[j]).0, s[k].0)
    }
}

/// The kept files among the first `n`, in order, with path and context.
pub open spec fn kept_files(s: Seq<(Seq<char>, Option<Seq<char>>, bool)>, n: int) -> Seq<
    (Seq<char>, Option<Seq<char>>),
>
    decreases n,
{
    if n <= 0 {
        Seq::empty()
    } else {
        kept_files(s, n - 1) + if kept_at(s, n - 1) {
            seq![(s[n - 1].0, s[n - 1].1)]
        } else {
            Seq::empty()
        }
    }
}

/// Some file of `s` has path `p` (the same path as `PathBuf`s compare).
pub open spec fn has_path(s: Seq<(Seq<char>, Option<Seq<char>>)>, p: Seq<char>) -> bool {
    exists|i: int| 0 <= i < s.len() && same_path(s[i].0, p)
}

proof fn lemma_kept_files_from(s: Seq<(Seq<char>, Option<Seq<char>>, bool)>, n: int, x: (Seq<char>, Option<Seq<char>>))
    requires
        0 <= n <= s.len(),
    ensures
        kept_files(s, n).contains(x) <==> exists|k: int| 0 <= k < n && kept_at(s, k) && x == (#[trigger] s[k].0, s[k].1),
    decreases n,
{
    if n > 0 {
        lemma_kept_files_from(s, n - 1, x);
        let d = kept_files(s, n - 1);
        let f = kept_files(s, n);
        if f.contains(x) {
            let i = choose|i: int| 0 <= i < f.len() && f[i] == x;
            if i < d.len() {
                assert(d[i] == x);
                assert(d.contains(x));
            } else {
                assert(kept_at(s, n - 1) && x == (s[n - 1].0, s[n - 1].1));
            }
        }
        if exists|k: int| 0 <= k < n && kept_at(s, k) && x == (#[trigger] s[k].0, s[k].1) {
            let k = choose|k: int| 0 <= k < n && kept_at(s, k) && x == (#[trigger] s[k].0, s[k].1);
            if k < n - 1 {
                assert(d.contains(x));
                let i = choose|i: int| 0 <= i < d.len() && d[i] == x;
                assert(f[i] == x);
            } else {
                assert(f[f.len() - 1] == x);
            }
        }
    }
}

/// No path is resolved twice.
pub proof fn lemma_resolved_paths_unique(s: Seq<(Seq<char>, Option<Seq<char>>, bool)>, n: int)
    requires
        0 <= n <= s.len(),
    ensures
        forall|i: int, j: int|
            0 <= i < j < kept_files(s, n).len() ==> !same_path(
                (#[trigger] kept_files(s, n)[i]).0,
                (#[trigger] kept_files(s, n)[j]).0,
            ),
    decreases n,
{
    if n > 0 {
        lemma_resolved_paths_unique(s, n - 1);
        let d = kept_files(s, n - 1);
        let f = kept_files(s, n);
        if kept_at(s, n - 1) {
            assert forall|i: int, j: int| 0 <= i < j < f.len() implies !same_path((#[trigger] f[i]).0, (#[trigger] f[j]).0) by {
                if j < d.len() {
                    assert(f[i] == d[i] && f[j] == d[j]);
                } else {
                    assert(f[i] == d[i]);
                    if same_path(d[i].0, s[n - 1].0) {
                        assert(d.contains(d[i]));
                        lemma_kept_files_from(s, n - 1, d[i]);
                        let k = choose|k: int| 0 <= k < n - 1 && kept_at(s, k) && d[i] == (#[trigger] s[k].0, s[k].1);
                        if s[n - 1].2 {
                            if s[k].2 {
                                assert(same_path(s[k].0, s[n - 1].0));
                            } else {
                                assert(s[n - 1].2 && same_path(s[n - 1].0, s[k].0));
                            }
                        } else {
                            assert(same_path(s[k].0, s[n - 1].0));
                        }
                    }
                }
            }
        } else {
            assert(f =~= d);
        }
    }
}

proof fn lemma_first_explicit(s: Seq<(Seq<char>, Option<Seq<char>>, bool)>, j: int) -> (k: int)
    requires
        0 <= j < s.len(),
        s[j].2,
    ensures
        0 <= k <= j,
        s[k].2,
        same_path(s[k].0, s[j].0),
        kept_at(s, k),
    decreases j,
{
    if exists|i: int| 0 <= i < j && (#[trigger] s[i]).2 && same_path(s[i].0, s[j].0) {
        let i = choose|i: int| 0 <= i < j && (#[trigger] s[i]).2 && same_path(s[i].0, s[j].0);
        lemma_first_explicit(s, i)
    } else {
        j
    }
}

proof fn lemma_first_with_path(s: Seq<(Seq<char>, Option<Seq<char>>, bool)>, j: int) -> (k: int)
    requires
        0 <= j < s.len(),
    ensures
        0 <= k <= j,
        same_path(s[k].0, s[j].0),
        !exists|i: int| 0 <= i < k && same_path((#[trigger] s[i]).0, s[j].0),
    decreases j,
{
    if exists|i: int| 0 <= i < j && same_path((#[trigger] s[i]).0, s[j].0) {
        let i = choose|i: int| 0 <= i < j && same_path((#[trigger] s[i]).0, s[j].0);
        lemma_first_with_path(s, i)
    } else {
        j
    }
}

/// File `j` comes from the first path entry that gives its path.
pub open spec fn first_path_entry(s: Seq<(Seq<char>, Option<Seq<char>>, bool)>, j: int) -> bool {
    s[j].2 && !exists|i: int| 0 <= i < j && (#[trigger] s[i]).2 && same_path(s[i].0, s[j].0)
}

/// Every path of the expansion is resolved, and no other; when a path entry
/// gives a path, the path is resolved with the context of the first path
/// entry that gives it.
pub proof fn lemma_resolved_paths(s: Seq<(Seq<char>, Option<Seq<char>>, bool)>, p: Seq<char>)
    ensures
        has_path(kept_files(s, s.len() as int), p) <==> exists|k: int| 0 <= k < s.len() && same_path((#[trigger] s[k]).0, p),
        forall|j: int|
            0 <= j < s.len() && #[trigger] first_path_entry(s, j) ==> kept_files(
                s,
                s.len() as int,
            ).contains((s[j].0, s[j].1)),
{
    let f = kept_files(s, s.len() as int);
    if has_path(f, p) {
        let i = choose|i: int| 0 <= i < f.len() && same_path(f[i].0, p);
        assert(f.contains(f[i]));
        lemma_kept_files_from(s, s.len() as int, f[i]);
        let k = choose|k: int| 0 <= k < s.len() && kept_at(s, k) && f[i] == (#[trigger] s[k].0, s[k].1);
        assert(same_path(s[k].0, p));
    }
    if exists|k: int| 0 <= k < s.len() && same_path((#[trigger] s[k]).0, p) {
        let k = choose|k: int| 0 <= k < s.len() && same_path((#[trigger] s[k]).0, p);
        let w = if exists|j: int| 0 <= j < s.len() && (#[trigger] s[j]).2 && same_path(s[j].0, p) {
            let j = choose|j: int| 0 <= j < s.len() && (#[trigger] s[j]).2 && same_path(s[j].0, p);
            lemma_first_explicit(s, j)
        } else {
            let w = lemma_first_with_path(s, k);
            assert(kept_at(s, w));
            w
        };
        lemma_kept_files_from(s, s.len() as int, (s[w].0, s[w].1));
        assert(f.contains((s[w].0, s[w].1)));
        let i = choose|i: int| 0 <= i < f.len() && f[i] == (s[w].0, s[w].1);
        assert(same_path(f[i].0, p));
    }
    assert forall|j: int| 0 <= j < s.len() && #[trigger] first_path_entry(s, j) implies f.contains(
        (s[j].0, s[j].1),
    ) by {
        assert(kept_at(s, j));
        lemma_kept_files_from(s, s.len() as int, (s[j].0, s[j].1));
    }
}

fn clone_strings(v: &Vec<String>) -> (r: Vec<String>)
    ensures
        r@.map_values(|s: String| s@) == v@.map_values(|s: String| s@),
{
    let mut r: Vec<String> = Vec::new();
    let mut k: usize = 0;
    while k < v.len()
        invariant
            k <= v.len(),
            r@.map_values(|s: String| s@) == v@.take(k as int).map_values(|s: String| s@),
        decreases v.len() - k,
    {
        let ghost r0 = r@;
        let c = v[k].clone();
        r.push(c);
        assert(r@ == r0.push(c));
        assert(v@.take(k + 1) =~= v@.take(k as int).push(v@[k as int]));
        assert(r@.map_values(|s: String| s@) =~= r0.map_values(|s: String| s@).push(c@));
        assert(v@.take(k + 1).map_values(|s: String| s@) =~= v@.take(k as int).map_values(|s: String| s@).push(v@[k as int]@));
        k += 1;
    }
    assert(v@.take(k as int) =~= v@);
    r
}

/// The files of the entries, in entry order: what `expand_entries` says.
fn expand(files: &Vec<FileEntry>, glob_matches: &Vec<Vec<String>>) -> (r: Vec<(String, Option<String>, bool)>)
    ensures
        items_view(r@) == expand_entries(files@, glob_matches@.map_values(|v: Vec<String>| v@), files.len() as int),
{
    let ghost gm = glob_matches@.map_values(|v: Vec<String>| v@);
    let mut out: Vec<(String, Option<String>, bool)> = Vec::new();
    let mut i: usize = 0;
    while i < files.len()
        invariant
            i <= files.len(),
            gm == glob_matches@.map_values(|v: Vec<String>| v@),
            items_view(out@) == expand_entries(files@, gm, i as int),
        decreases files.len() - i,
    {
        let ghost before = items_view(out@);
        let (paths, context, explicit): (Vec<String>, &Option<String>, bool) = match &files[i] {
            FileEntry::Path { path, context } => (vec![path.clone()], context, true),
            FileEntry::Glob { context, .. } => {
                if i < glob_matches.len() {
                    (clone_strings(&glob_matches[i]), context, false)
                } else {
                    (Vec::new(), context, false)
                }
            },
        };
        let ghost ef = paths@.map_values(|s: String| (s@, opt_view(*context), explicit));
        proof {
            assert(entry_files(files@[i as int], matches_at(gm, i as int)) =~= ef);
        }
        let mut j: usize = 0;
        while j < paths.len()
            invariant
                j <= paths.len(),
                ef == paths@.map_values(|s: String| (s@, opt_view(*context), explicit)),
                items_view(out@) == before + ef.take(j as int),
            decreases paths.len() - j,
        {
            let ghost o0 = items_view(out@);
            out.push((paths[j].clone(), clone_opt_string(context), explicit));
            assert(items_view(out@) =~= o0.push(ef[j as int]));
            assert(ef.take(j + 1) =~= ef.take(j as int).push(ef[j as int]));
            j += 1;
        }
        assert(ef.take(paths.len() as int) =~= ef);
        i += 1;
    }
    out
}

impl Config {
    /// Expands the file entries into files: a path entry gives its path, a
    /// glob entry the paths that `glob_matches` holds for it (at the entry's
    /// index); each file has its entry's context. A path comes out once
    /// (paths compared as `PathBuf`s compare them): path entries win over
    /// glob matches, and otherwise the first file with the path wins. The
    /// order of the entries is kept.
    pub fn resolve_files(&self, glob_matches: &Vec<Vec<String>>) -> (r: Vec<ResolvedFile>)
        ensures
            resolved_files_view(r@) == ({
                let s = expand_entries(self.files@, glob_matches@.map_values(|v: Vec<String>| v@), self.files.len() as int);
                kept_files(s, s.len() as int)
            }),
    {
        let all = expand(&self.files, glob_matches);
        let ghost s = items_view(all@);
        let mut keys: Vec<Vec<char>> = Vec::new();
        let mut m: usize = 0;
        while m < all.len()
            invariant
                m <= all.len(),
                s == items_view(all@),
                keys.len() == m,
                forall|i: int| 0 <= i < m ==> (#[trigger] keys@[i])@ == std_path_key(s[i].0),
            decreases all.len() - m,
        {
            let key = path_key(all[m].0.as_str());
            keys.push(chars_of(key.as_str()));
            m += 1;
        }
        let mut out: Vec<ResolvedFile> = Vec::new();
        let mut k: usize = 0;
        while k < all.len()
            invariant
                k <= all.len(),
                s == items_view(all@),
                s.len() == all.len(),
                resolved_files_view(out@) == kept_files(s, k as int),
                keys.len() == all.len(),
                forall|i: int| 0 <= i < keys.len() ==> (#[trigger] keys@[i])@ == std_path_key(s[i].0),
            decreases all.len() - k,
        {
            let p = &keys[k];
            let keep = if all[k].2 {
                // no earlier path entry gives the path
                let mut m: usize = 0;
                let mut seen = false;
                while m < k
                    invariant
                        m <= k < all.len(),
                        s == items_view(all@),
                        p@ == std_path_key(s[k as int].0),
                        keys.len() == all.len(),
                        forall|i: int| 0 <= i < keys.len() ==> (#[trigger] keys@[i])@ == std_path_key(s[i].0),
                        seen <==> exists|j: int| 0 <= j < m && (#[trigger] s[j]).2 && same_path(s[j].0, s[k as int].0),
                    decreases k - m,
                {
                    if all[m].2 && chars_eq(&keys[m], p) {
                        seen = true;
                    }
                    proof {
                        if seen {
                            if !(exists|j: int| 0 <= j < m && (#[trigger] s[j]).2 && same_path(s[j].0, s[k as int].0)) {
                                assert(s[m as int].2 && same_path(s[m as int].0, s[k as int].0));
                            }
                        }
                    }
                    m += 1;
                }
                !seen
            } else {
                // no path entry gives the path, and no earlier file has it
                let mut m: usize = 0;
                let mut seen = false;
                while m < all.len()
                    invariant
                        m <= all.len(),
                        k < all.len(),
                        s == items_view(all@),
                        s.len() == all.len(),
                        p@ == std_path_key(s[k as int].0),
                        keys.len() == all.len(),
                        forall|i: int| 0 <= i < keys.len() ==> (#[trigger] keys@[i])@ == std_path_key(s[i].0),
                        seen <==> exists|j: int|
                            0 <= j < m && ((#[trigger] s[j]).2 || j < k) && same_path(s[j].0, s[k as int].0),
                    decreases all.len() - m,
                {
                    if (all[m].2 || m < k) && chars_eq(&keys[m], p) {
                        seen = true;
                    }
                    proof {
                        if seen {
                            if !(exists|j: int| 0 <= j < m && ((#[trigger] s[j]).2 || j < k) && same_path(s[j].0, s[k as int].0)) {
                                assert((s[m as int].2 || m < k) && same_path(s[m as int].0, s[k as int].0));
                            }
                        }
                    }
                    m += 1;
                }
                proof {
                    if !seen {
                        assert(!exists|j: int| 0 <= j < s.len() && (#[trigger] s[j]).2 && same_path(s[j].0, s[k as int].0));
                        assert(!exists|j: int| 0 <= j < k && same_path((#[trigger] s[j]).0, s[k as int].0));
                    } else {
                        let j = choose|j: int| 0 <= j < all.len() && ((#[trigger] s[j]).2 || j < k) && same_path(s[j].0, s[k as int].0);
                        assert(s[j].2 || j < k);
                    }
                }
                !seen
            };
            assert(keep == kept_at(s, k as int));
            let ghost o0 = resolved_files_view(out@);
            if keep {
                out.push(ResolvedFile { path: all[k].0.clone(), context: clone_opt_string(&all[k].1) });
                assert(resolved_files_view(out@) =~= o0.push((s[k as int].0, s[k as int].1)));
            }
            assert(kept_files(s, k + 1) =~= kept_files(s, k as int) + if kept_at(s, k as int) {
                seq![(s[k as int].0, s[k as int].1)]
            } else {
                Seq::empty()
            });
            k += 1;
        }
        out
    }
}

// ---------------------------------------------------------------------------
// Choosing the config file

/// Where the config comes from.
#[derive(Debug, Clone, Copy, PartialEq, Eq, Structural)]
pub enum ConfigSource {
    /// The `.tomb.toml` of the ancestor directory with this index (0 is the
    /// start directory).
    Ancestor(usize),
    /// `~/.tomb.toml`.
    Home,
    /// `tomb/config.toml` in the platform's config directory.
    Platform,
}

/// What a look at one ancestor directory found: whether it holds one of the
/// root markers, and whether it holds a `.tomb.toml` file.
#[derive(Debug, Clone, Copy, PartialEq, Eq, Structural)]
pub struct DirProbe {
    pub has_root_marker: bool,
    pub has_config: bool,
}

/// The nearest ancestor, from `i` up, with a `.tomb.toml`; the walk stops
/// before a directory with a root marker and no `.tomb.toml`.
pub open spec fn repo_config_from(dirs: Seq<DirProbe>, i: int) -> Option<int>
    decreases dirs.len() - i,
{
    if i < 0 || i >= dirs.len() {
        None
    } else if dirs[i].has_config {
        Some(i)
    } else if dirs[i].has_root_marker {
        None
    } else {
        repo_config_from(dirs, i + 1)
    }
}

/// The config to read: the nearest repository one, else the home one when
/// it is a file, else the platform one when it is a file; none when there
/// is none of them.
pub open spec fn config_source(dirs: Seq<DirProbe>, home_is_file: bool, platform_is_file: bool) -> Option<
    ConfigSource,
> {
    match repo_config_from(dirs, 0) {
        Some(i) => Some(ConfigSource::Ancestor(i as usize)),
        None => if home_is_file {
            Some(ConfigSource::Home)
        } else if platform_is_file {
            Some(ConfigSource::Platform)
        } else {
            None
        },
    }
}

/// Directory `i` is the nearest with a `.tomb.toml` that the walk up
/// reaches: it holds one, and no directory below it holds one or a root
/// marker.
pub open spec fn nearest_config(dirs: Seq<DirProbe>, i: int) -> bool {
    &&& 0 <= i < dirs.len()
    &&& dirs[i].has_config
    &&& forall|j: int| 0 <= j < i ==> !(#[trigger] dirs[j]).has_config && !dirs[j].has_root_marker
}

proof fn lemma_repo_config_from(dirs: Seq<DirProbe>, k: int, i: int)
    requires
        0 <= k,
        forall|j: int| 0 <= j < k ==> !(#[trigger] dirs[j]).has_config && !dirs[j].has_root_marker,
    ensures
        repo_config_from(dirs, k) == Some(i) <==> nearest_config(dirs, i),
    decreases dirs.len() - k,
{
    if k < dirs.len() && !dirs[k].has_config && !dirs[k].has_root_marker {
        lemma_repo_config_from(dirs, k + 1, i);
    }
}

/// The search order of the config file: the nearest ancestor directory with
/// a `.tomb.toml` (the walk up stopping at a root marker), else
/// `~/.tomb.toml` when it is a file, whatever the platform config is, else
/// the platform config when it is a file; no config file only when there is
/// none of the three.
pub proof fn lemma_config_search_order(dirs: Seq<DirProbe>, home_is_file: bool, platform_is_file: bool)
    requires
        dirs.len() <= usize::MAX,
    ensures
        forall|i: int|
            #[trigger] nearest_config(dirs, i) ==> config_source(dirs, home_is_file, platform_is_file)
                == Some(ConfigSource::Ancestor(i as usize)),
        forall|i: usize|
            config_source(dirs, home_is_file, platform_is_file) == Some(ConfigSource::Ancestor(i))
                ==> #[trigger] nearest_config(dirs, i as int),
        (forall|i: int| !#[trigger] nearest_config(dirs, i)) && home_is_file ==> config_source(
            dirs,
            home_is_file,
            platform_is_file,
        ) == Some(ConfigSource::Home),
        (forall|i: int| !#[trigger] nearest_config(dirs, i)) && !home_is_file && platform_is_file
            ==> config_source(dirs, home_is_file, platform_is_file) == Some(ConfigSource::Platform),
        config_source(dirs, home_is_file, platform_is_file) is None <==> (forall|i: int|
            !#[trigger] nearest_config(dirs, i)) && !home_is_file && !platform_is_file,
{
    assert forall|i: int| repo_config_from(dirs, 0) == Some(i) <==> #[trigger] nearest_config(dirs, i) by {
        lemma_repo_config_from(dirs, 0, i);
    }
    match repo_config_from(dirs, 0) {
        Some(i) => {
            assert(nearest_config(dirs, i));
            assert(0 <= i < dirs.len());
        },
        None => {},
    }
}

/// Chooses the config file from what the directories hold: `dirs` walks up
/// from the start directory, `home_is_file` and `platform_is_file` say
/// whether `~/.tomb.toml` and the platform's `tomb/config.toml` are files.
/// Without any, there is no config file and the config is the default,
/// empty one.
pub fn select_config(dirs: &Vec<DirProbe>, home_is_file: bool, platform_is_file: bool) -> (r: Option<
    ConfigSource,
>)
    ensures
        r == config_source(dirs@, home_is_file, platform_is_file),
        r matches Some(ConfigSource::Ancestor(i)) ==> nearest_config(dirs@, i as int),
        (forall|i: int| !#[trigger] nearest_config(dirs@, i)) && home_is_file ==> r == Some(
            ConfigSource::Home,
        ),
        r is None <==> (forall|i: int| !#[trigger] nearest_config(dirs@, i)) && !home_is_file
            && !platform_is_file,
{
    proof {
        assert(dirs@.len() == dirs.len());
        lemma_config_search_order(dirs@, home_is_file, platform_is_file);
    }
    let r = config_choice(dirs, home_is_file, platform_is_file);
    r
}

fn config_choice(dirs: &Vec<DirProbe>, home_is_file: bool, platform_is_file: bool) -> (r: Option<
    ConfigSource,
>)
    ensures
        r == config_source(dirs@, home_is_file, platform_is_file),
{
    let mut i: usize = 0;
    while i < dirs.len()
        invariant
            i <= dirs.len(),
            repo_config_from(dirs@, 0) == repo_config_from(dirs@, i as int),
        ensures
            repo_config_from(dirs@, 0) is None,
        decreases dirs.len() - i,
    {
        if dirs[i].has_config {
            return Some(ConfigSource::Ancestor(i));
        }
        if dirs[i].has_root_marker {
            break;
        }
        i += 1;
    }
    if home_is_file {
        Some(ConfigSource::Home)
    } else if platform_is_file {
        Some(ConfigSource::Platform)
    } else {
        None
    }
}

} // verus!
