use vstd::prelude::*;

use crate::global::{entry_views, str_eq, Config, EntryView, Mark, MarkEntry, MarkView};

verus! {

/// Lexicographic order on character sequences, by code point.
pub open spec fn lex_le(a: Seq<char>, b: Seq<char>) -> bool
    decreases a.len(),
{
    if a.len() == 0 {
        true
    } else if b.len() == 0 {
        false
    } else if a[0] == b[0] {
        lex_le(a.drop_first(), b.drop_first())
    } else {
        a[0] < b[0]
    }
}

/// Skipping a common prefix does not change the lexicographic comparison.
proof fn lemma_lex_skip(a: Seq<char>, b: Seq<char>, i: int)
    requires
        0 <= i <= a.len(),
        i <= b.len(),
        forall|k: int| 0 <= k < i ==> a[k] == b[k],
    ensures
        lex_le(a, b) == lex_le(a.skip(i), b.skip(i)),
    decreases i,
{
    if i > 0 {
        assert(a[0] == b[0]);
        assert(a.len() > 0 && b.len() > 0);
        lemma_lex_skip(a.drop_first(), b.drop_first(), i - 1);
        assert(a.drop_first().skip(i - 1) =~= a.skip(i));
        assert(b.drop_first().skip(i - 1) =~= b.skip(i));
    } else {
        assert(a.skip(0) =~= a);
        assert(b.skip(0) =~= b);
    }
}

/// The lexicographic order is total.
proof fn lemma_lex_total(a: Seq<char>, b: Seq<char>)
    ensures
        lex_le(a, b) || lex_le(b, a),
    decreases a.len(),
{
    if a.len() > 0 && b.len() > 0 && a[0] == b[0] {
        lemma_lex_total(a.drop_first(), b.drop_first());
    }
}

/// The lexicographic order is transitive.
proof fn lemma_lex_trans(a: Seq<char>, b: Seq<char>, c: Seq<char>)
    requires
        lex_le(a, b),
        lex_le(b, c),
    ensures
        lex_le(a, c),
    decreases a.len(),
{
    if a.len() > 0 {
        assert(b.len() > 0);
        assert(c.len() > 0);
        if a[0] == b[0] && b[0] == c[0] {
            lemma_lex_trans(a.drop_first(), b.drop_first(), c.drop_first());
        }
    }
}

/// Compare two string slices lexicographically by code point.
pub fn str_le(a: &str, b: &str) -> (r: bool)
    ensures
        r == lex_le(a@, b@),
{
    let na = a.unicode_len();
    let nb = b.unicode_len();
    let mut i: usize = 0;
    while i < na && i < nb
        invariant
            na == a@.len(),
            nb == b@.len(),
            i <= na,
            i <= nb,
            forall|k: int| 0 <= k < i ==> a@[k] == b@[k],
        decreases na - i,
    {
        let ca = a.get_char(i);
        let cb = b.get_char(i);
        if ca != cb {
            proof {
                lemma_lex_skip(a@, b@, i as int);
                assert(a@.skip(i as int)[0] == a@[i as int]);
                assert(b@.skip(i as int)[0] == b@[i as int]);
            }
            return ca < cb;
        }
        i += 1;
    }
    proof {
        lemma_lex_skip(a@, b@, i as int);
        if i < nb {
            assert(a@.skip(i as int).len() == 0);
        } else if i < na {
            assert(b@.skip(i as int).len() == 0);
            assert(a@.skip(i as int).len() > 0);
        } else {
            assert(a@.skip(i as int).len() == 0);
        }
    }
    na <= nb
}

/// A mark carries the tag `t`.
pub open spec fn has_tag(m: MarkView, t: Seq<char>) -> bool {
    exists|i: int| 0 <= i < m.tags.len() && m.tags[i] == t
}

/// Whether a mark carries the given tag.
pub fn mark_has_tag(m: &Mark, t: &String) -> (r: bool)
    ensures
        r == has_tag(m@, t@),
{
    let n = m.tags.len();
    let mut i: usize = 0;
    while i < n
        invariant
            n == m.tags@.len(),
            i <= n,
            forall|k: int| 0 <= k < i ==> m@.tags[k] != t@,
        decreases n - i,
    {
        if str_eq(m.tags[i].as_str(), t.as_str()) {
            assert(m@.tags[i as int] == t@);
            return true;
        }
        assert(m@.tags[i as int] != t@);
        i += 1;
    }
    false
}

/// The tag a listing is narrowed to, if any.
pub open spec fn tag_filter_view(tag: Option<&String>) -> Option<Seq<char>> {
    match tag {
        Some(s) => Some(s@),
        None => None,
    }
}

/// Whether a listing narrowed to `t` keeps the entry.
pub open spec fn tag_keep(t: Option<Seq<char>>, e: EntryView) -> bool {
    match t {
        Some(ts) => has_tag(e.mark, ts),
        None => true,
    }
}

/// The listing order: most recently accessed first when `recent` is set,
/// otherwise by name, lexicographically.
pub open spec fn list_le(recent: bool, a: EntryView, b: EntryView) -> bool {
    if recent {
        a.mark.last_accessed >= b.mark.last_accessed
    } else {
        lex_le(a.mark.name, b.mark.name)
    }
}

/// The entries stand in listing order.
pub open spec fn sorted_for_listing(recent: bool, s: Seq<EntryView>) -> bool {
    forall|i: int, j: int| 0 <= i < j < s.len() ==> list_le(recent, s[i], s[j])
}

/// The listing order is total.
proof fn lemma_list_le_total(recent: bool, a: EntryView, b: EntryView)
    ensures
        list_le(recent, a, b) || list_le(recent, b, a),
{
    if !recent {
        lemma_lex_total(a.mark.name, b.mark.name);
    }
}

/// The listing order is transitive.
proof fn lemma_list_le_trans(recent: bool, a: EntryView, b: EntryView, c: EntryView)
    requires
        list_le(recent, a, b),
        list_le(recent, b, c),
    ensures
        list_le(recent, a, c),
{
    if !recent {
        lemma_lex_trans(a.mark.name, b.mark.name, c.mark.name);
    }
}

/// Whether entry `a` comes no later than entry `b` in the listing order.
fn le_entry(recent: bool, a: &MarkEntry, b: &MarkEntry) -> (r: bool)
    ensures
        r == list_le(recent, a@, b@),
{
    if recent {
        a.mark.last_accessed >= b.mark.last_accessed
    } else {
        str_le(a.mark.name.as_str(), b.mark.name.as_str())
    }
}

/// The position at which an entry is inserted to keep the listing order.
fn list_insert_pos(recent: bool, out: &Vec<MarkEntry>, m: &MarkEntry) -> (j: usize)
    requires
        sorted_for_listing(recent, entry_views(out@)),
    ensures
        j <= out@.len(),
        forall|k: int| 0 <= k < j ==> list_le(recent, entry_views(out@)[k], m@),
        j < out@.len() ==> !list_le(recent, entry_views(out@)[j as int], m@),
{
    let mut j: usize = 0;
    while j < out.len()
        invariant
            j <= out@.len(),
            forall|k: int| 0 <= k < j ==> list_le(recent, entry_views(out@)[k], m@),
        decreases out@.len() - j,
    {
        if !le_entry(recent, &out[j], m) {
            return j;
        }
        j += 1;
    }
    j
}

/// Order entries for listing; the result holds exactly the given entries.
fn sort_entries(recent: bool, v: &Vec<MarkEntry>) -> (r: Vec<MarkEntry>)
    ensures
        entry_views(r@).to_multiset() == entry_views(v@).to_multiset(),
        sorted_for_listing(recent, entry_views(r@)),
{
    let mut out: Vec<MarkEntry> = Vec::new();
    let mut i: usize = 0;
    proof {
        assert(entry_views(out@) =~= Seq::<EntryView>::empty());
        assert(entry_views(v@.take(0)) =~= Seq::<EntryView>::empty());
    }
    while i < v.len()
        invariant
            i <= v@.len(),
            entry_views(out@).to_multiset() == entry_views(v@.take(i as int)).to_multiset(),
            sorted_for_listing(recent, entry_views(out@)),
        decreases v@.len() - i,
    {
        let m = v[i].clone();
        let j = list_insert_pos(recent, &out, &m);
        let ghost pre = entry_views(out@);
        let ghost jj = j as int;
        let ghost mv = m@;
        out.insert(j, m);
        proof {
            broadcast use vstd::seq_lib::group_to_multiset_ensures;
            broadcast use vstd::seq_lib::to_multiset_insert;

            let nv = entry_views(out@);
            assert(nv =~= pre.insert(jj, mv));
            assert forall|a: int, b: int| 0 <= a < b < nv.len() implies list_le(
                recent,
                nv[a],
                nv[b],
            ) by {
                if jj < pre.len() {
                    lemma_list_le_total(recent, pre[jj], mv);
                }
                if b > jj && jj < pre.len() {
                    assert(!list_le(recent, pre[jj], mv));
                    assert(list_le(recent, mv, pre[jj]));
                    if b - 1 > jj {
                        assert(list_le(recent, pre[jj], pre[b - 1]));
                        lemma_list_le_trans(recent, mv, pre[jj], pre[b - 1]);
                    }
                    if a < jj {
                        assert(list_le(recent, pre[a], mv));
                        lemma_list_le_trans(recent, pre[a], mv, nv[b]);
                    }
                }
            }
            assert(v@.take(i + 1) =~= v@.take(i as int).push(v@[i as int]));
            assert(entry_views(v@.take(i + 1)) =~= entry_views(v@.take(i as int)).push(
                v@[i as int]@,
            ));
            assert(nv.to_multiset() =~= entry_views(v@.take(i + 1)).to_multiset());
        }
        i += 1;
    }
    proof {
        assert(v@.take(v@.len() as int) =~= v@);
    }
    out
}

/// The entries shown by a listing: those carrying the given tag (all of
/// them when no tag is given), in listing order — most recently accessed
/// first when `recent` is set, otherwise by name.
pub fn list_marks(config: &Config, tag: Option<&String>, recent: bool) -> (r: Vec<MarkEntry>)
    ensures
        entry_views(r@).to_multiset() == config@.marks.filter(
            |e: EntryView| tag_keep(tag_filter_view(tag), e),
        ).to_multiset(),
        sorted_for_listing(recent, entry_views(r@)),
{
    let mut kept: Vec<MarkEntry> = Vec::new();
    let n = config.marks.len();
    let mut i: usize = 0;
    proof {
        let p = |e: EntryView| tag_keep(tag_filter_view(tag), e);
        assert(entry_views(kept@) =~= entry_views(config.marks@).take(0).filter(p)) by {
            assert(entry_views(config.marks@).take(0).filter(p) =~= Seq::<EntryView>::empty());
        }
    }
    while i < n
        invariant
            n == config.marks@.len(),
            i <= n,
            entry_views(kept@) =~= entry_views(config.marks@).take(i as int).filter(
                |e: EntryView| tag_keep(tag_filter_view(tag), e),
            ),
        decreases n - i,
    {
        let e = &config.marks[i];
        let keep = match tag {
            Some(t) => mark_has_tag(&e.mark, t),
            None => true,
        };
        let ghost pre = entry_views(kept@);
        if keep {
            kept.push(e.clone());
        }
        proof {
            let p = |e2: EntryView| tag_keep(tag_filter_view(tag), e2);
            let cv = entry_views(config.marks@);
            assert(cv.take(i + 1).drop_last() =~= cv.take(i as int));
            assert(cv.take(i + 1).last() == cv[i as int]);
            reveal_with_fuel(Seq::filter, 2);
            assert(p(cv[i as int]) == keep);
            if keep {
                assert(entry_views(kept@) =~= pre.push(cv[i as int]));
            }
            assert(entry_views(kept@) =~= cv.take(i + 1).filter(p));
        }
        i += 1;
    }
    proof {
        let p = |e2: EntryView| tag_keep(tag_filter_view(tag), e2);
        let cv = entry_views(config.marks@);
        assert(cv.take(n as int) =~= cv);
        assert(entry_views(kept@) =~= cv.filter(p));
    }
    sort_entries(recent, &kept)
}

/// Whole days between two timestamps, truncated toward zero.
pub open spec fn days_of(now: int, then: int) -> int {
    if now >= then {
        (now - then) / 86400
    } else {
        -((then - now) / 86400)
    }
}

/// The number of whole days from `then` to `now`, as a day counter on
/// seconds-since-epoch timestamps: truncated toward zero, negative when
/// `then` lies in the future.
pub fn days_between(now: i64, then: i64) -> (r: i64)
    requires
        crate::global::TS_MIN <= now <= crate::global::TS_MAX,
        crate::global::TS_MIN <= then <= crate::global::TS_MAX,
    ensures
        r == days_of(now as int, then as int),
{
    if now >= then {
        let diff = (now as i128) - (then as i128);
        let q = (diff as u128) / 86400;
        q as i64
    } else {
        let diff = (then as i128) - (now as i128);
        let q = (diff as u128) / 86400;
        let qi = q as i64;
        -qi
    }
}

} // verus!
