use vstd::prelude::*;
use vstd::pervasive::VecAdditionalExecFns;

use crate::error::{ErrorView, HuntersMarkError};

verus! {

/// Earliest timestamp (seconds since the Unix epoch) that the store
/// handles: 0000-01-01T00:00:00Z, the first instant whose RFC 3339
/// rendering carries a plain four-digit year. Only such renderings are read
/// back by a strict RFC 3339 parser, so the rendering round-trips exactly
/// on this range.
pub const TS_MIN: i64 = -62_167_219_200;

/// Latest timestamp (seconds since the Unix epoch) that the store handles:
/// 9999-12-31T23:59:59Z, the last instant whose RFC 3339 rendering carries
/// a plain four-digit year.
pub const TS_MAX: i64 = 253_402_300_799;

/// Whether a character counts as alphanumeric for mark-name validation.
/// Defined by the standard library's Unicode tables.
pub uninterp spec fn is_alnum(c: char) -> bool;

/// Relies on `char::is_alphanumeric`: the result is a function of the
/// character alone; every ASCII letter and digit is alphanumeric, and
/// space, dot, slash and at-sign are not (they are neither Unicode letters
/// nor numbers).
#[verifier::external_body]
fn char_is_alphanumeric(c: char) -> (r: bool)
    ensures
        r == is_alnum(c),
        ('a' <= c && c <= 'z') || ('A' <= c && c <= 'Z') || ('0' <= c && c <= '9') ==> r,
        c == ' ' || c == '.' || c == '/' || c == '@' ==> !r,
{
    c.is_alphanumeric()
}

/// A character allowed in a mark name: alphanumeric, hyphen or underscore.
pub open spec fn valid_name_char(c: char) -> bool {
    is_alnum(c) || c == '-' || c == '_'
}

/// A valid mark name is non-empty and made of allowed characters only.
pub open spec fn valid_mark_name(s: Seq<char>) -> bool {
    s.len() > 0 && (forall|i: int| 0 <= i < s.len() ==> valid_name_char(s[i]))
}

/// A few separator characters that a mark name must never contain.
pub open spec fn forbidden_name_char(c: char) -> bool {
    c == ' ' || c == '.' || c == '/' || c == '@'
}

/// The ASCII characters that are always allowed in a mark name.
pub open spec fn ascii_name_char(c: char) -> bool {
    ('a' <= c && c <= 'z') || ('A' <= c && c <= 'Z') || ('0' <= c && c <= '9') || c == '-' || c
        == '_'
}

/// Validate that a mark name is non-empty and contains only alphanumeric
/// characters, hyphens and underscores. A name with a space, dot, slash or
/// at-sign is always rejected; a non-empty name of ASCII letters, digits,
/// hyphens and underscores is always accepted.
pub fn is_valid_mark_name(name: &str) -> (r: bool)
    ensures
        r == valid_mark_name(name@),
        (exists|i: int| 0 <= i < name@.len() && forbidden_name_char(name@[i])) ==> !r,
        (name@.len() > 0 && (forall|i: int| 0 <= i < name@.len() ==> ascii_name_char(name@[i])))
            ==> r,
{
    let n = name.unicode_len();
    if n == 0 {
        return false;
    }
    let mut i: usize = 0;
    while i < n
        invariant
            n == name@.len(),
            i <= n,
            forall|k: int| 0 <= k < i ==> valid_name_char(name@[k]),
            forall|k: int| 0 <= k < i ==> !forbidden_name_char(name@[k]),
        decreases n - i,
    {
        let c = name.get_char(i);
        let alnum = char_is_alphanumeric(c);
        if !(alnum || c == '-' || c == '_') {
            assert(!valid_name_char(name@[i as int]));
            assert(!ascii_name_char(name@[i as int]));
            return false;
        }
        assert(valid_name_char(name@[i as int]));
        assert(!forbidden_name_char(name@[i as int]));
        i += 1;
    }
    true
}

/// Default used for the settings flag: shell-integration init scripts run
/// unless switched off.
pub fn default_true() -> (r: bool)
    ensures
        r,
{
    true
}

/// Global settings persisted beside the marks.
#[derive(Debug)]
pub struct Settings {
    pub run_init_scripts: bool,
}

impl Clone for Settings {
    fn clone(&self) -> (r: Self)
        ensures
            r == *self,
    {
        Settings { run_init_scripts: self.run_init_scripts }
    }
}

impl Default for Settings {
    fn default() -> (r: Self)
        ensures
            r.run_init_scripts,
    {
        Settings { run_init_scripts: default_true() }
    }
}

/// One bookmarked directory: a memorable name, tags used for list filtering,
/// and two timestamps in seconds since the Unix epoch.
#[derive(Debug)]
pub struct Mark {
    pub name: String,
    pub tags: Vec<String>,
    pub last_accessed: i64,
    pub created_at: i64,
}

/// Mathematical image of a `Mark`.
#[verifier::ext_equal]
pub ghost struct MarkView {
    pub name: Seq<char>,
    pub tags: Seq<Seq<char>>,
    pub last_accessed: int,
    pub created_at: int,
}

/// The views of the strings held in a vector.
pub open spec fn strings_view(v: Seq<String>) -> Seq<Seq<char>> {
    Seq::new(v.len(), |i: int| v[i]@)
}

impl View for Mark {
    type V = MarkView;

    open spec fn view(&self) -> MarkView {
        MarkView {
            name: self.name@,
            tags: strings_view(self.tags@),
            last_accessed: self.last_accessed as int,
            created_at: self.created_at as int,
        }
    }
}

/// Clone a vector of strings, preserving every element.
pub(crate) fn clone_string_vec(v: &Vec<String>) -> (r: Vec<String>)
    ensures
        r@ =~= v@,
{
    let mut r: Vec<String> = Vec::new();
    let mut i: usize = 0;
    while i < v.len()
        invariant
            i <= v@.len(),
            r@ =~= v@.take(i as int),
        decreases v@.len() - i,
    {
        r.push(v[i].clone());
        assert(r@ =~= v@.take(i + 1));
        i += 1;
    }
    assert(v@.take(v@.len() as int) =~= v@);
    r
}

impl Clone for Mark {
    fn clone(&self) -> (r: Self)
        ensures
            r@ == self@,
    {
        let r = Mark {
            name: self.name.clone(),
            tags: clone_string_vec(&self.tags),
            last_accessed: self.last_accessed,
            created_at: self.created_at,
        };
        assert(r@ == self@) by {
            assert(strings_view(r.tags@) =~= strings_view(self.tags@));
        }
        r
    }
}

/// One store entry: the canonical absolute path (the unique key) and the
/// mark attached to it.
#[derive(Debug)]
pub struct MarkEntry {
    pub path: String,
    pub mark: Mark,
}

/// Mathematical image of a `MarkEntry`.
#[verifier::ext_equal]
pub ghost struct EntryView {
    pub path: Seq<char>,
    pub mark: MarkView,
}

impl View for MarkEntry {
    type V = EntryView;

    open spec fn view(&self) -> EntryView {
        EntryView { path: self.path@, mark: self.mark@ }
    }
}

impl Clone for MarkEntry {
    fn clone(&self) -> (r: Self)
        ensures
            r@ == self@,
    {
        MarkEntry { path: self.path.clone(), mark: self.mark.clone() }
    }
}

/// The views of the entries held in a vector.
pub open spec fn entry_views(s: Seq<MarkEntry>) -> Seq<EntryView> {
    Seq::new(s.len(), |i: int| s[i]@)
}

/// The mark store: every mark, keyed by canonical absolute path, plus the
/// global settings.
#[derive(Debug)]
pub struct Config {
    pub marks: Vec<MarkEntry>,
    pub settings: Settings,
}

/// Mathematical image of the store.
#[verifier::ext_equal]
pub ghost struct ConfigView {
    pub marks: Seq<EntryView>,
    pub run_init_scripts: bool,
}

impl View for Config {
    type V = ConfigView;

    open spec fn view(&self) -> ConfigView {
        ConfigView {
            marks: entry_views(self.marks@),
            run_init_scripts: self.settings.run_init_scripts,
        }
    }
}

impl Default for Config {
    fn default() -> (r: Self)
        ensures
            r@.marks == Seq::<EntryView>::empty(),
            r@.run_init_scripts,
    {
        let r = Config { marks: Vec::new(), settings: Settings::default() };
        assert(r@.marks =~= Seq::<EntryView>::empty());
        r
    }
}

/// Some entry carries this path.
pub open spec fn has_path(marks: Seq<EntryView>, path: Seq<char>) -> bool {
    exists|i: int| 0 <= i < marks.len() && marks[i].path == path
}

/// No two entries share a path: a directory has at most one mark.
pub open spec fn unique_paths(marks: Seq<EntryView>) -> bool {
    forall|i: int, j: int| 0 <= i < j < marks.len() ==> marks[i].path != marks[j].path
}

/// Every timestamp lies in the range the store handles.
pub open spec fn times_in_range(marks: Seq<EntryView>) -> bool {
    forall|i: int|
        0 <= i < marks.len() ==> TS_MIN <= marks[i].mark.created_at
            && marks[i].mark.created_at <= TS_MAX && TS_MIN <= marks[i].mark.last_accessed
            && marks[i].mark.last_accessed <= TS_MAX
}

/// Every mark was accessed no earlier than it was created.
pub open spec fn times_ordered(marks: Seq<EntryView>) -> bool {
    forall|i: int|
        0 <= i < marks.len() ==> marks[i].mark.created_at <= marks[i].mark.last_accessed
}

/// The reason reported with every invalid-name error.
pub open spec fn invalid_name_reason() -> Seq<char> {
    "Mark names must contain only alphanumeric characters, hyphens, and underscores"@
}

/// The entry as it looks after a successful resolution at time `now`:
/// the last-access time moves forward to `now`, and never backward.
pub open spec fn touched(e: EntryView, now: int) -> EntryView {
    EntryView {
        path: e.path,
        mark: MarkView {
            name: e.mark.name,
            tags: e.mark.tags,
            last_accessed: if now > e.mark.last_accessed {
                now
            } else {
                e.mark.last_accessed
            },
            created_at: e.mark.created_at,
        },
    }
}

/// After a successful add, the store holds a mark at the added path whose
/// name and tags are the given ones and whose creation and last-access
/// times are equal.
pub proof fn lemma_added_mark_present(
    pre: Seq<EntryView>,
    post: Seq<EntryView>,
    name: Seq<char>,
    path: Seq<char>,
    tags: Seq<Seq<char>>,
    now: int,
)
    requires
        post == pre.push(
            EntryView {
                path,
                mark: MarkView { name, tags, last_accessed: now, created_at: now },
            },
        ),
    ensures
        has_path(post, path),
        exists|i: int|
            0 <= i < post.len() && post[i].path == path && post[i].mark.name == name
                && post[i].mark.tags == tags && post[i].mark.created_at
                == post[i].mark.last_accessed,
{
    assert(post[post.len() - 1].path == path);
}

/// Compare two string slices character by character.
pub(crate) fn str_eq(a: &str, b: &str) -> (r: bool)
    ensures
        r == (a@ == b@),
{
    let na = a.unicode_len();
    let nb = b.unicode_len();
    if na != nb {
        return false;
    }
    let mut i: usize = 0;
    while i < na
        invariant
            na == a@.len(),
            nb == b@.len(),
            na == nb,
            i <= na,
            forall|k: int| 0 <= k < i ==> a@[k] == b@[k],
        decreases na - i,
    {
        if a.get_char(i) != b.get_char(i) {
            assert(a@[i as int] != b@[i as int]);
            return false;
        }
        i += 1;
    }
    assert(a@ =~= b@);
    true
}

/// Find the first entry carrying `path`, if any.
pub(crate) fn find_path_index(marks: &Vec<MarkEntry>, path: &str) -> (r: Option<usize>)
    ensures
        r matches Some(i) ==> i < marks@.len() && entry_views(marks@)[i as int].path == path@ && (
        forall|k: int| 0 <= k < i ==> entry_views(marks@)[k].path != path@),
        r is None ==> !has_path(entry_views(marks@), path@),
{
    let n = marks.len();
    let mut i: usize = 0;
    while i < n
        invariant
            n == marks@.len(),
            i <= n,
            forall|k: int| 0 <= k < i ==> entry_views(marks@)[k].path != path@,
        decreases n - i,
    {
        if str_eq(marks[i].path.as_str(), path) {
            assert(entry_views(marks@)[i as int].path == path@);
            return Some(i);
        }
        assert(entry_views(marks@)[i as int].path != path@);
        i += 1;
    }
    assert(!has_path(entry_views(marks@), path@));
    None
}

/// Touching a mark moves its last-access time monotonically: the new value
/// is at least the previous one, and stays at or after the creation time.
pub proof fn lemma_touched_monotone(e: EntryView, now: int)
    requires
        e.mark.created_at <= e.mark.last_accessed,
    ensures
        touched(e, now).mark.last_accessed >= e.mark.last_accessed,
        touched(e, now).mark.last_accessed >= touched(e, now).mark.created_at,
        touched(e, now).mark.created_at == e.mark.created_at,
        touched(e, now).path == e.path,
{
}

impl Config {
    /// Add a new mark for `path` (already canonicalized by the caller), named
    /// `name` and tagged `tags`, created now. `path_exists` reports whether
    /// the directory currently exists on disk. Fails, in this order of
    /// precedence, when the name is invalid, when the path already carries a
    /// mark, and when the directory is missing; on success the new mark is
    /// appended with equal creation and last-access times.
    pub fn add_mark(
        &mut self,
        name: String,
        path: String,
        tags: Vec<String>,
        now: i64,
        path_exists: bool,
    ) -> (r: Result<(), HuntersMarkError>)
        requires
            TS_MIN <= now <= TS_MAX,
        ensures
            !valid_mark_name(name@) ==> (r matches Err(e) && e@ == ErrorView::InvalidMarkName(
                name@,
                invalid_name_reason(),
            ) && final(self)@ == old(self)@),
            valid_mark_name(name@) && has_path(old(self)@.marks, path@) ==> (r matches Err(e)
                && e@ == ErrorView::MarkAlreadyExists(name@, path@) && final(self)@ == old(
                self,
            )@),
            valid_mark_name(name@) && !has_path(old(self)@.marks, path@) && !path_exists ==> (
            r matches Err(e) && e@ == ErrorView::DirectoryNotFound(path@) && final(self)@ == old(
                self,
            )@),
            valid_mark_name(name@) && !has_path(old(self)@.marks, path@) && path_exists ==> (
            r is Ok && final(self)@.marks == old(self)@.marks.push(
                EntryView {
                    path: path@,
                    mark: MarkView {
                        name: name@,
                        tags: strings_view(tags@),
                        last_accessed: now as int,
                        created_at: now as int,
                    },
                },
            ) && final(self)@.run_init_scripts == old(self)@.run_init_scripts),
            unique_paths(old(self)@.marks) ==> unique_paths(final(self)@.marks),
            times_in_range(old(self)@.marks) ==> times_in_range(final(self)@.marks),
            times_ordered(old(self)@.marks) ==> times_ordered(final(self)@.marks),
    {
        if !is_valid_mark_name(name.as_str()) {
            return Err(
                HuntersMarkError::InvalidMarkName(
                    name,
                    String::from_str(
                        "Mark names must contain only alphanumeric characters, hyphens, and underscores",
                    ),
                ),
            );
        }
        if let Some(i) = find_path_index(&self.marks, path.as_str()) {
            assert(self@.marks[i as int].path == path@);
            assert(has_path(self@.marks, path@));
            return Err(HuntersMarkError::MarkAlreadyExists(name, path));
        }
        assert(!has_path(self@.marks, path@));
        if !path_exists {
            return Err(HuntersMarkError::DirectoryNotFound(path));
        }
        let ghost pre = self@.marks;
        let entry = MarkEntry {
            path,
            mark: Mark { name, tags, last_accessed: now, created_at: now },
        };
        let ghost ev = entry@;
        self.marks.push(entry);
        assert(self@.marks =~= pre.push(ev));
        assert forall|i2: int, j2: int|
            0 <= i2 < j2 < self@.marks.len() && unique_paths(pre) implies self@.marks[i2].path
            != self@.marks[j2].path by {
            if j2 == pre.len() {
                assert(!has_path(pre, ev.path));
            }
        }
        Ok(())
    }

    /// Remove the mark at `path`. Fails with a not-found error when no entry
    /// carries that path; otherwise deletes exactly the first entry carrying
    /// it and nothing else.
    pub fn remove_mark(&mut self, path: &str) -> (r: Result<(), HuntersMarkError>)
        ensures
            !has_path(old(self)@.marks, path@) ==> (r matches Err(e) && e@ == ErrorView::MarkNotFound(
                path@,
            ) && final(self)@ == old(self)@),
            has_path(old(self)@.marks, path@) ==> (r is Ok && exists|i: int|
                0 <= i < old(self)@.marks.len() && old(self)@.marks[i].path == path@ && (
                forall|k: int| 0 <= k < i ==> old(self)@.marks[k].path != path@) && final(self)@.marks == old(self)@.marks.remove(i) && final(self)@.run_init_scripts == old(
                    self,
                )@.run_init_scripts),
            unique_paths(old(self)@.marks) ==> unique_paths(final(self)@.marks),
            times_in_range(old(self)@.marks) ==> times_in_range(final(self)@.marks),
            times_ordered(old(self)@.marks) ==> times_ordered(final(self)@.marks),
    {
        if let Some(i) = find_path_index(&self.marks, path) {
            let ghost pre = self@.marks;
            let ghost idx = i as int;
            assert(pre[idx].path == path@);
            self.marks.remove(i);
            assert(self@.marks =~= pre.remove(idx));
            assert forall|i2: int, j2: int|
                0 <= i2 < j2 < self@.marks.len() && unique_paths(pre) implies self@.marks[i2].path
                != self@.marks[j2].path by {}
            return Ok(());
        }
        assert(!has_path(self@.marks, path@));
        Err(HuntersMarkError::MarkNotFound(path.to_owned()))
    }

    /// Look up the mark at exactly `path` (no fuzzy matching).
    pub fn get(&self, path: &str) -> (r: Option<&Mark>)
        ensures
            r is Some <==> has_path(self@.marks, path@),
            r matches Some(m) ==> exists|i: int|
                0 <= i < self@.marks.len() && self@.marks[i].path == path@ && m@ == self@.marks[i].mark,
    {
        if let Some(i) = find_path_index(&self.marks, path) {
            assert(self@.marks[i as int].path == path@);
            assert(has_path(self@.marks, path@));
            return Some(&self.marks[i].mark);
        }
        None
    }

    /// Record a successful resolution of the mark at `path`: move its
    /// last-access time forward to `now` (never backward). Returns whether a
    /// mark was found at that path; everything else is left untouched.
    pub fn touch(&mut self, path: &str, now: i64) -> (r: bool)
        requires
            TS_MIN <= now <= TS_MAX,
        ensures
            r == has_path(old(self)@.marks, path@),
            !r ==> final(self)@ == old(self)@,
            r ==> exists|i: int|
                0 <= i < old(self)@.marks.len() && old(self)@.marks[i].path == path@ && (
                forall|k: int| 0 <= k < i ==> old(self)@.marks[k].path != path@) && final(self)@.marks == old(self)@.marks.update(i, touched(old(self)@.marks[i], now as int))
                && final(self)@.run_init_scripts == old(self)@.run_init_scripts,
            unique_paths(old(self)@.marks) ==> unique_paths(final(self)@.marks),
            times_in_range(old(self)@.marks) ==> times_in_range(final(self)@.marks),
            times_ordered(old(self)@.marks) ==> times_ordered(final(self)@.marks),
    {
        if let Some(i) = find_path_index(&self.marks, path) {
            let ghost pre = self@.marks;
            let ghost idx = i as int;
            assert(pre[idx].path == path@);
            let e = &self.marks[i];
            let cur = e.mark.last_accessed;
            let new_mark = Mark {
                name: e.mark.name.clone(),
                tags: clone_string_vec(&e.mark.tags),
                last_accessed: if now > cur {
                    now
                } else {
                    cur
                },
                created_at: e.mark.created_at,
            };
            let new_entry = MarkEntry { path: e.path.clone(), mark: new_mark };
            assert(new_entry@ == touched(pre[idx], now as int)) by {
                assert(strings_view(new_entry.mark.tags@) =~= pre[idx].mark.tags);
            }
            self.marks.set(i, new_entry);
            assert(self@.marks =~= pre.update(idx, touched(pre[idx], now as int)));
            assert forall|i2: int, j2: int|
                0 <= i2 < j2 < self@.marks.len() && unique_paths(pre) implies self@.marks[i2].path
                != self@.marks[j2].path by {}
            return true;
        }
        assert(!has_path(self@.marks, path@));
        false
    }
}

} // verus!
