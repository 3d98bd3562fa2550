use vstd::prelude::*;

use crate::global::{
    clone_string_vec, entry_views, find_path_index, strings_view, times_in_range, unique_paths,
    Config, EntryView, Mark, MarkEntry, MarkView, Settings, TS_MAX, TS_MIN,
};

verus! {

/// The RFC 3339 rendering (UTC, whole seconds, `Z` suffix) of a timestamp
/// given in seconds since the Unix epoch. The exact characters are left to
/// the datetime library.
pub uninterp spec fn rfc3339_of(t: i64) -> Seq<char>;

/// What parsing a string as an RFC 3339 date-and-time yields: the instant's
/// timestamp in seconds since the Unix epoch, or nothing when the string is
/// not a valid RFC 3339 date-and-time.
pub uninterp spec fn rfc3339_parse(s: Seq<char>) -> Option<i64>;

/// Relies on chrono's `DateTime::from_timestamp` (in range, it always
/// succeeds) and `DateTime::to_rfc3339_opts`: the rendering is a function of
/// the timestamp alone. In the handled range the year has four digits, so
/// the rendering is a plain RFC 3339 date-and-time.
#[verifier::external_body]
fn format_timestamp(t: i64) -> (r: String)
    requires
        TS_MIN <= t && t <= TS_MAX,
    ensures
        r@ == rfc3339_of(t),
{
    let dt = chrono::DateTime::from_timestamp(t, 0).unwrap();
    dt.to_rfc3339_opts(chrono::SecondsFormat::Secs, true)
}

/// Relies on chrono's `DateTime::parse_from_rfc3339` and
/// `DateTime::timestamp`: the result depends on the string alone, and for
/// timestamps in the handled range — whose rendering has a plain four-digit
/// year, the only form the strict parser reads — parsing the rendering is
/// guaranteed to round-trip back to the same instant.
#[verifier::external_body]
fn parse_timestamp(s: &str) -> (r: Option<i64>)
    ensures
        r == rfc3339_parse(s@),
        forall|t: i64| TS_MIN <= t <= TS_MAX && s@ == rfc3339_of(t) ==> r == Some(t),
{
    match chrono::DateTime::parse_from_rfc3339(s) {
        Ok(dt) => Some(dt.timestamp()),
        Err(_) => None,
    }
}

/// Render a timestamp for display: its RFC 3339 date-and-time.
pub fn render_timestamp(t: i64) -> (r: String)
    requires
        TS_MIN <= t && t <= TS_MAX,
    ensures
        r@ == rfc3339_of(t),
{
    format_timestamp(t)
}

/// One mark as it stands in the persisted document: every field a plain
/// string, the two timestamps rendered as RFC 3339 date-and-time strings.
#[derive(Debug)]
pub struct RawMark {
    pub path: String,
    pub name: String,
    pub tags: Vec<String>,
    pub created_at: String,
    pub last_accessed: String,
}

/// Mathematical image of a `RawMark`.
#[verifier::ext_equal]
pub ghost struct RawMarkView {
    pub path: Seq<char>,
    pub name: Seq<char>,
    pub tags: Seq<Seq<char>>,
    pub created_at: Seq<char>,
    pub last_accessed: Seq<char>,
}

impl View for RawMark {
    type V = RawMarkView;

    open spec fn view(&self) -> RawMarkView {
        RawMarkView {
            path: self.path@,
            name: self.name@,
            tags: strings_view(self.tags@),
            created_at: self.created_at@,
            last_accessed: self.last_accessed@,
        }
    }
}

/// The views of the document marks held in a vector.
pub open spec fn raw_views(s: Seq<RawMark>) -> Seq<RawMarkView> {
    Seq::new(s.len(), |i: int| s[i]@)
}

/// The whole persisted document, as plain values.
#[derive(Debug)]
pub struct RawConfig {
    pub marks: Vec<RawMark>,
    pub run_init_scripts: bool,
}

/// The document mark that a store entry renders to.
pub open spec fn raw_of_entry(e: EntryView) -> RawMarkView {
    RawMarkView {
        path: e.path,
        name: e.mark.name,
        tags: e.mark.tags,
        created_at: rfc3339_of(e.mark.created_at as i64),
        last_accessed: rfc3339_of(e.mark.last_accessed as i64),
    }
}

/// The document marks that a store renders to, in store order.
pub open spec fn raw_of_marks(marks: Seq<EntryView>) -> Seq<RawMarkView> {
    Seq::new(marks.len(), |i: int| raw_of_entry(marks[i]))
}

/// Both timestamps of a document mark parse and lie in the handled range.
pub open spec fn raw_times_ok(rm: RawMarkView) -> bool {
    &&& rfc3339_parse(rm.created_at) matches Some(t) && TS_MIN <= t <= TS_MAX
    &&& rfc3339_parse(rm.last_accessed) matches Some(t) && TS_MIN <= t <= TS_MAX
}

/// The store entry that a document mark decodes to (meaningful when its
/// timestamps parse).
pub open spec fn decoded_entry(rm: RawMarkView) -> EntryView {
    EntryView {
        path: rm.path,
        mark: MarkView {
            name: rm.name,
            tags: rm.tags,
            last_accessed: rfc3339_parse(rm.last_accessed)->0 as int,
            created_at: rfc3339_parse(rm.created_at)->0 as int,
        },
    }
}

/// No two document marks share a path.
pub open spec fn raw_unique_paths(s: Seq<RawMarkView>) -> bool {
    forall|i: int, j: int| 0 <= i < j < s.len() ==> s[i].path != s[j].path
}

/// Why a persisted document does not decode to a store.
#[derive(Debug)]
pub enum RawConfigError {
    /// The held string is not an RFC 3339 date-and-time in the handled
    /// range.
    InvalidTimestamp(String),
    /// The held path appears more than once.
    DuplicatePath(String),
}

/// Indexing into the rendering of a store picks out the rendering of the
/// corresponding entry.
proof fn lemma_raw_index(rv: Seq<RawMarkView>, cv: Seq<EntryView>, i: int)
    requires
        rv == raw_of_marks(cv),
        0 <= i < rv.len(),
    ensures
        cv.len() == rv.len(),
        rv[i] == raw_of_entry(cv[i]),
{
    assert(raw_of_marks(cv).len() == cv.len());
    assert(rv[i] == raw_of_marks(cv)[i]);
    assert(raw_of_marks(cv)[i] == raw_of_entry(cv[i]));
}

impl Config {
    /// Render the store as the persisted document: one document mark per
    /// store entry, in store order, timestamps rendered as RFC 3339.
    pub fn to_raw(&self) -> (r: RawConfig)
        requires
            times_in_range(self@.marks),
        ensures
            raw_views(r.marks@) == raw_of_marks(self@.marks),
            r.run_init_scripts == self@.run_init_scripts,
    {
        let mut out: Vec<RawMark> = Vec::new();
        let n = self.marks.len();
        let mut i: usize = 0;
        while i < n
            invariant
                n == self.marks@.len(),
                i <= n,
                times_in_range(entry_views(self.marks@)),
                raw_views(out@) =~= raw_of_marks(entry_views(self.marks@)).take(i as int),
            decreases n - i,
        {
            let e = &self.marks[i];
            let ghost pre = raw_views(out@);
            proof {
                let ev = entry_views(self.marks@);
                assert(ev[i as int].mark.created_at == e.mark.created_at as int);
                assert(ev[i as int].mark.last_accessed == e.mark.last_accessed as int);
                assert(TS_MIN <= e.mark.created_at && e.mark.created_at <= TS_MAX);
                assert(TS_MIN <= e.mark.last_accessed && e.mark.last_accessed <= TS_MAX);
            }
            let rm = RawMark {
                path: e.path.clone(),
                name: e.mark.name.clone(),
                tags: clone_string_vec(&e.mark.tags),
                created_at: format_timestamp(e.mark.created_at),
                last_accessed: format_timestamp(e.mark.last_accessed),
            };
            let ghost rv = rm@;
            out.push(rm);
            proof {
                let ev = entry_views(self.marks@);
                assert(rv =~= raw_of_entry(ev[i as int]));
                assert(raw_views(out@) =~= pre.push(rv));
                assert(raw_views(out@) =~= raw_of_marks(ev).take(i + 1));
            }
            i += 1;
        }
        proof {
            let ro = raw_of_marks(entry_views(self.marks@));
            assert(ro.take(n as int) =~= ro);
        }
        RawConfig { marks: out, run_init_scripts: self.settings.run_init_scripts }
    }

    /// Decode a persisted document into a store. Succeeds exactly when every
    /// timestamp is a valid in-range RFC 3339 date-and-time and no path is
    /// repeated; the resulting store holds the decoded entries in document
    /// order. Decoding the document that `to_raw` renders restores the store
    /// exactly: re-saving a freshly loaded store keeps it unchanged.
    pub fn from_raw(raw: &RawConfig) -> (r: Result<Config, RawConfigError>)
        ensures
            r is Ok <==> (forall|i: int|
                0 <= i < raw.marks@.len() ==> raw_times_ok(raw_views(raw.marks@)[i]))
                && raw_unique_paths(raw_views(raw.marks@)),
            r matches Ok(c) ==> c@.marks.len() == raw.marks@.len() && (forall|i: int|
                0 <= i < raw.marks@.len() ==> c@.marks[i] == decoded_entry(
                    raw_views(raw.marks@)[i],
                )) && c@.run_init_scripts == raw.run_init_scripts && unique_paths(c@.marks)
                && times_in_range(c@.marks),
            r matches Err(e) ==> (e is InvalidTimestamp ==> exists|i: int|
                0 <= i < raw.marks@.len() && !raw_times_ok(raw_views(raw.marks@)[i])) && (
            e is DuplicatePath ==> !raw_unique_paths(raw_views(raw.marks@))),
            forall|cv: Seq<EntryView>|
                unique_paths(cv) && times_in_range(cv) && raw_views(raw.marks@) == #[trigger] raw_of_marks(cv)
                    ==> (r matches Ok(c) && c@.marks == cv),
    {
        let rn = raw.marks.len();
        let mut out: Vec<MarkEntry> = Vec::new();
        let mut k: usize = 0;
        while k < rn
            invariant
                rn == raw.marks@.len(),
                k <= rn,
                entry_views(out@).len() == k,
                forall|i: int| 0 <= i < k ==> raw_times_ok(#[trigger] raw_views(raw.marks@)[i]),
                forall|i: int|
                    0 <= i < k ==> #[trigger] entry_views(out@)[i] == decoded_entry(
                        raw_views(raw.marks@)[i],
                    ),
                unique_paths(entry_views(out@)),
                times_in_range(entry_views(out@)),
                forall|i: int, t: i64|
                    #![trigger raw_views(raw.marks@)[i], rfc3339_of(t)]
                    0 <= i < k && TS_MIN <= t <= TS_MAX && raw_views(raw.marks@)[i].created_at
                        == rfc3339_of(t) ==> rfc3339_parse(raw_views(raw.marks@)[i].created_at)
                        == Some(t),
                forall|i: int, t: i64|
                    #![trigger raw_views(raw.marks@)[i], rfc3339_of(t)]
                    0 <= i < k && TS_MIN <= t <= TS_MAX && raw_views(raw.marks@)[i].last_accessed
                        == rfc3339_of(t) ==> rfc3339_parse(raw_views(raw.marks@)[i].last_accessed)
                        == Some(t),
            decreases rn - k,
        {
            let rm = &raw.marks[k];
            let ca_opt = parse_timestamp(rm.created_at.as_str());
            let bad_ca = match ca_opt {
                Some(t) => t < TS_MIN || t > TS_MAX,
                None => true,
            };
            if bad_ca {
                proof {
                    let rv = raw_views(raw.marks@);
                    assert(rv[k as int].created_at == rm@.created_at);
                    assert(!raw_times_ok(rv[k as int]));
                    assert forall|cv: Seq<EntryView>|
                        unique_paths(cv) && times_in_range(cv) implies rv != #[trigger] raw_of_marks(
                        cv,
                    ) by {
                        if rv == raw_of_marks(cv) {
                            lemma_raw_index(rv, cv, k as int);
                            assert(TS_MIN as int <= cv[k as int].mark.created_at <= TS_MAX as int);
                            let ct: i64 = cv[k as int].mark.created_at as i64;
                            assert(TS_MIN <= ct <= TS_MAX);
                            assert(rm@.created_at == rfc3339_of(ct));
                            assert(ca_opt == Some(ct));
                        }
                    }
                }
                return Err(RawConfigError::InvalidTimestamp(rm.created_at.clone()));
            }
            let ca = match ca_opt {
                Some(t) => t,
                None => 0,
            };
            let la_opt = parse_timestamp(rm.last_accessed.as_str());
            let bad_la = match la_opt {
                Some(t) => t < TS_MIN || t > TS_MAX,
                None => true,
            };
            if bad_la {
                proof {
                    let rv = raw_views(raw.marks@);
                    assert(rv[k as int].last_accessed == rm@.last_accessed);
                    assert(!raw_times_ok(rv[k as int]));
                    assert forall|cv: Seq<EntryView>|
                        unique_paths(cv) && times_in_range(cv) implies rv != #[trigger] raw_of_marks(
                        cv,
                    ) by {
                        if rv == raw_of_marks(cv) {
                            lemma_raw_index(rv, cv, k as int);
                            assert(TS_MIN as int <= cv[k as int].mark.last_accessed <= TS_MAX as int);
                            let lt: i64 = cv[k as int].mark.last_accessed as i64;
                            assert(TS_MIN <= lt <= TS_MAX);
                            assert(rm@.last_accessed == rfc3339_of(lt));
                            assert(la_opt == Some(lt));
                        }
                    }
                }
                return Err(RawConfigError::InvalidTimestamp(rm.last_accessed.clone()));
            }
            let la = match la_opt {
                Some(t) => t,
                None => 0,
            };
            if let Some(j) = find_path_index(&out, rm.path.as_str()) {
                proof {
                    let rv = raw_views(raw.marks@);
                    let jj = j as int;
                    assert(entry_views(out@)[jj].path == rv[k as int].path);
                    assert(entry_views(out@)[jj] == decoded_entry(rv[jj]));
                    assert(rv[jj].path == rv[k as int].path);
                    assert(!raw_unique_paths(rv));
                    lemma_dup_refutes_encoding(raw.marks@, jj, k as int);
                }
                return Err(RawConfigError::DuplicatePath(rm.path.clone()));
            }
            let ghost pre = entry_views(out@);
            let entry = MarkEntry {
                path: rm.path.clone(),
                mark: Mark {
                    name: rm.name.clone(),
                    tags: clone_string_vec(&rm.tags),
                    last_accessed: la,
                    created_at: ca,
                },
            };
            let ghost ev = entry@;
            out.push(entry);
            proof {
                let rv = raw_views(raw.marks@);
                assert(ev =~= decoded_entry(rv[k as int]));
                assert(entry_views(out@) =~= pre.push(ev));
                assert forall|i2: int, j2: int|
                    0 <= i2 < j2 < entry_views(out@).len() implies entry_views(out@)[i2].path
                    != entry_views(out@)[j2].path by {
                    if j2 == pre.len() {
                        assert(!crate::global::has_path(pre, ev.path));
                    }
                }
            }
            k += 1;
        }
        let c = Config { marks: out, settings: Settings { run_init_scripts: raw.run_init_scripts } };
        proof {
            let rv = raw_views(raw.marks@);
            // every document path reappears as the decoded entry's path, so
            // uniqueness of the decoded paths carries back to the document
            assert forall|i2: int, j2: int| 0 <= i2 < j2 < rv.len() implies rv[i2].path
                != rv[j2].path by {
                assert(entry_views(c.marks@)[i2] == decoded_entry(rv[i2]));
                assert(entry_views(c.marks@)[j2] == decoded_entry(rv[j2]));
            }
            // decoding inverts the rendering
            assert forall|cv: Seq<EntryView>|
                unique_paths(cv) && times_in_range(cv) && rv == #[trigger] raw_of_marks(cv) implies entry_views(
                c.marks@,
            ) == cv by {
                assert(raw_of_marks(cv).len() == cv.len());
                assert(rv.len() == cv.len());
                assert forall|i: int| 0 <= i < cv.len() implies entry_views(c.marks@)[i]
                    == cv[i] by {
                    lemma_raw_index(rv, cv, i);
                    assert(TS_MIN as int <= cv[i].mark.created_at <= TS_MAX as int);
                    assert(TS_MIN as int <= cv[i].mark.last_accessed <= TS_MAX as int);
                    let ct: i64 = cv[i].mark.created_at as i64;
                    let lt: i64 = cv[i].mark.last_accessed as i64;
                    assert(rv[i].created_at == rfc3339_of(ct));
                    assert(rv[i].last_accessed == rfc3339_of(lt));
                    assert(rfc3339_parse(rv[i].created_at) == Some(ct));
                    assert(rfc3339_parse(rv[i].last_accessed) == Some(lt));
                    assert(entry_views(c.marks@)[i] == decoded_entry(rv[i]));
                    assert(decoded_entry(rv[i]) =~= cv[i]);
                }
                assert(entry_views(c.marks@) =~= cv);
            }
        }
        Ok(c)
    }
}

/// A document with a repeated path is the rendering of no well-formed store.
proof fn lemma_dup_refutes_encoding(raw: Seq<RawMark>, i: int, j: int)
    requires
        0 <= i < j < raw.len(),
        raw_views(raw)[i].path == raw_views(raw)[j].path,
    ensures
        forall|cv: Seq<EntryView>|
            unique_paths(cv) && times_in_range(cv) ==> raw_views(raw) != #[trigger] raw_of_marks(
                cv,
            ),
{
    assert forall|cv: Seq<EntryView>|
        unique_paths(cv) && times_in_range(cv) implies raw_views(raw) != raw_of_marks(cv) by {
        if raw_views(raw) == raw_of_marks(cv) {
            lemma_raw_index(raw_views(raw), cv, i);
            lemma_raw_index(raw_views(raw), cv, j);
            assert(cv[i].path == cv[j].path);
        }
    }
}

} // verus!
