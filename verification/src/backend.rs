use vstd::prelude::*;
use vstd::multiset::Multiset;

use crate::error::{ErrorView, HuntersMarkError};
use crate::fuzzy::{fuzzy_score, skim_score};
use crate::global::{entry_views, Config, EntryView, Mark, MarkEntry, MarkView};

verus! {

/// One scored candidate produced by the resolution engine: the marked path,
/// a copy of its mark, and the fuzzy score of the mark's name against the
/// query.
#[derive(Debug)]
pub struct Match {
    pub path: String,
    pub mark: Mark,
    pub score: i64,
}

/// Mathematical image of a `Match`.
#[verifier::ext_equal]
pub ghost struct MatchView {
    pub path: Seq<char>,
    pub mark: MarkView,
    pub score: int,
}

impl View for Match {
    type V = MatchView;

    open spec fn view(&self) -> MatchView {
        MatchView { path: self.path@, mark: self.mark@, score: self.score as int }
    }
}

impl Clone for Match {
    fn clone(&self) -> (r: Self)
        ensures
            r@ == self@,
    {
        Match { path: self.path.clone(), mark: self.mark.clone(), score: self.score }
    }
}

/// The views of the matches held in a vector.
pub open spec fn match_views(s: Seq<Match>) -> Seq<MatchView> {
    Seq::new(s.len(), |i: int| s[i]@)
}

/// The scored candidates of a store against `pattern`, in store order: every
/// entry whose name the fuzzy scorer matches, paired with its score; entries
/// that do not match at all are left out.
pub open spec fn scored_matches(marks: Seq<EntryView>, pattern: Seq<char>) -> Seq<MatchView>
    decreases marks.len(),
{
    if marks.len() == 0 {
        Seq::empty()
    } else {
        let rest = scored_matches(marks.drop_last(), pattern);
        match skim_score(marks.last().mark.name, pattern) {
            Some(s) => rest.push(
                MatchView { path: marks.last().path, mark: marks.last().mark, score: s as int },
            ),
            None => rest,
        }
    }
}

/// The candidates are ordered by non-increasing score.
pub open spec fn sorted_desc(s: Seq<MatchView>) -> bool {
    forall|i: int, j: int| 0 <= i < j < s.len() ==> s[i].score >= s[j].score
}

/// Every entry of the store as a candidate with score zero, in store order.
pub open spec fn zero_scored(marks: Seq<EntryView>) -> Seq<MatchView> {
    Seq::new(marks.len(), |i: int| MatchView { path: marks[i].path, mark: marks[i].mark, score: 0 })
}

/// A candidate is within `distance` of the score `best`.
pub open spec fn within_band(best: int, distance: int, m: MatchView) -> bool {
    best - m.score <= distance
}

/// Filtering a sequence commutes with taking its multiset.
proof fn lemma_filter_to_multiset(s: Seq<MatchView>, p: spec_fn(MatchView) -> bool)
    ensures
        s.filter(p).to_multiset() == s.to_multiset().filter(p),
    decreases s.len(),
{
    broadcast use vstd::seq_lib::group_to_multiset_ensures;
    broadcast use vstd::multiset::group_multiset_axioms;

    reveal_with_fuel(Seq::filter, 2);
    if s.len() == 0 {
        assert(s.to_multiset() =~= Multiset::<MatchView>::empty());
        assert(s.filter(p).to_multiset() =~= s.to_multiset().filter(p));
    } else {
        let dl = s.drop_last();
        let x = s.last();
        lemma_filter_to_multiset(dl, p);
        assert(s =~= dl.push(x));
        assert(s.to_multiset() =~= dl.to_multiset().insert(x));
        if p(x) {
            assert(s.filter(p) == dl.filter(p).push(x));
            assert(s.filter(p).to_multiset() =~= dl.filter(p).to_multiset().insert(x));
        } else {
            assert(s.filter(p) == dl.filter(p));
        }
        assert(s.filter(p).to_multiset() =~= s.to_multiset().filter(p));
    }
}

/// Filtering keeps a non-increasing ordering.
proof fn lemma_filter_sorted(s: Seq<MatchView>, p: spec_fn(MatchView) -> bool)
    requires
        sorted_desc(s),
    ensures
        sorted_desc(s.filter(p)),
    decreases s.len(),
{
    broadcast use vstd::seq_lib::group_to_multiset_ensures;
    broadcast use vstd::multiset::group_multiset_axioms;

    reveal_with_fuel(Seq::filter, 2);
    if s.len() > 0 {
        let dl = s.drop_last();
        let x = s.last();
        assert(sorted_desc(dl)) by {
            assert forall|i: int, j: int| 0 <= i < j < dl.len() implies dl[i].score
                >= dl[j].score by {
                assert(s[i].score >= s[j].score);
            }
        }
        lemma_filter_sorted(dl, p);
        if p(x) {
            let f = dl.filter(p);
            assert(s.filter(p) == f.push(x));
            lemma_filter_to_multiset(dl, p);
            assert forall|i: int, j: int| 0 <= i < j < f.push(x).len() implies f.push(x)[i].score
                >= f.push(x)[j].score by {
                if j < f.len() {
                    assert(f[i].score >= f[j].score);
                } else {
                    assert(f.contains(f[i]));
                    assert(f.to_multiset().count(f[i]) > 0);
                    assert(dl.to_multiset().count(f[i]) > 0);
                    assert(dl.contains(f[i]));
                    let k = choose|k: int| 0 <= k < dl.len() && dl[k] == f[i];
                    assert(dl[k] == s[k]);
                    assert(s[k].score >= s[s.len() - 1].score);
                }
            }
        }
    }
}

/// When the first element passes the filter, it stays first.
proof fn lemma_filter_first(s: Seq<MatchView>, p: spec_fn(MatchView) -> bool)
    requires
        s.len() > 0,
        p(s[0]),
    ensures
        s.filter(p).len() > 0,
        s.filter(p)[0] == s[0],
    decreases s.len(),
{
    reveal_with_fuel(Seq::filter, 2);
    if s.len() == 1 {
        assert(s.drop_last().filter(p) =~= Seq::<MatchView>::empty());
        assert(s.filter(p) == s.drop_last().filter(p).push(s[0]));
    } else {
        let dl = s.drop_last();
        assert(dl[0] == s[0]);
        lemma_filter_first(dl, p);
    }
}

/// The position at which a candidate with the given score is inserted to
/// keep a non-increasing ordering: after every at-least-as-good candidate.
fn insert_pos(out: &Vec<Match>, score: i64) -> (j: usize)
    requires
        sorted_desc(match_views(out@)),
    ensures
        j <= out@.len(),
        forall|k: int| 0 <= k < j ==> match_views(out@)[k].score >= score,
        j < out@.len() ==> match_views(out@)[j as int].score < score,
{
    let mut j: usize = 0;
    while j < out.len()
        invariant
            j <= out@.len(),
            forall|k: int| 0 <= k < j ==> match_views(out@)[k].score >= score,
        decreases out@.len() - j,
    {
        if out[j].score < score {
            return j;
        }
        j += 1;
    }
    j
}

/// Order candidates by non-increasing score; the result holds exactly the
/// given candidates.
fn sort_matches_desc(v: &Vec<Match>) -> (r: Vec<Match>)
    ensures
        match_views(r@).to_multiset() == match_views(v@).to_multiset(),
        sorted_desc(match_views(r@)),
{
    let mut out: Vec<Match> = Vec::new();
    let mut i: usize = 0;
    proof {
        assert(match_views(out@) =~= Seq::<MatchView>::empty());
        assert(match_views(v@.take(0)) =~= Seq::<MatchView>::empty());
    }
    while i < v.len()
        invariant
            i <= v@.len(),
            match_views(out@).to_multiset() == match_views(v@.take(i as int)).to_multiset(),
            sorted_desc(match_views(out@)),
        decreases v@.len() - i,
    {
        let m = v[i].clone();
        let j = insert_pos(&out, m.score);
        let ghost pre = match_views(out@);
        let ghost jj = j as int;
        out.insert(j, m);
        proof {
            broadcast use vstd::seq_lib::group_to_multiset_ensures;
            broadcast use vstd::seq_lib::to_multiset_insert;

            let nv = match_views(out@);
            assert(nv =~= pre.insert(jj, m@));
            assert forall|a: int, b: int| 0 <= a < b < nv.len() implies nv[a].score
                >= nv[b].score by {
                if b > jj && jj < pre.len() {
                    assert(pre[jj].score < m@.score);
                }
                if a < jj && b == jj {
                    assert(pre[a].score >= m@.score);
                }
            }
            assert(v@.take(i + 1) =~= v@.take(i as int).push(v@[i as int]));
            assert(match_views(v@.take(i + 1)) =~= match_views(v@.take(i as int)).push(
                v@[i as int]@,
            ));
            assert(nv.to_multiset() =~= match_views(v@.take(i + 1)).to_multiset());
        }
        i += 1;
    }
    proof {
        assert(v@.take(v@.len() as int) =~= v@);
    }
    out
}

/// The effective score of a store entry against a pattern: the fuzzy score
/// when the name matches, and zero when it does not.
pub open spec fn eff_score(e: EntryView, pattern: Seq<char>) -> int {
    match skim_score(e.mark.name, pattern) {
        Some(s) => s as int,
        None => 0,
    }
}

/// Copy a string slice into an owned string.
fn str_to_owned(s: &str) -> (r: String)
    ensures
        r@ == s@,
{
    s.to_owned()
}

impl Config {
    /// Score every mark's name against `pattern` with the fuzzy scorer and
    /// return all matching marks as candidates, ordered by non-increasing
    /// score. Marks whose name does not match at all are left out.
    pub fn match_all(&self, pattern: &str) -> (r: Vec<Match>)
        ensures
            match_views(r@).to_multiset() == scored_matches(self@.marks, pattern@).to_multiset(),
            sorted_desc(match_views(r@)),
    {
        let mut found: Vec<Match> = Vec::new();
        let n = self.marks.len();
        let mut i: usize = 0;
        proof {
            assert(match_views(found@) =~= scored_matches(
                entry_views(self.marks@).take(0),
                pattern@,
            ));
        }
        while i < n
            invariant
                n == self.marks@.len(),
                i <= n,
                match_views(found@) =~= scored_matches(
                    entry_views(self.marks@).take(i as int),
                    pattern@,
                ),
            decreases n - i,
        {
            let e = &self.marks[i];
            let score_opt = fuzzy_score(e.mark.name.as_str(), pattern);
            let ghost pre = match_views(found@);
            let ghost m = entry_views(self.marks@);
            match score_opt {
                Some(score) => {
                    found.push(Match { path: e.path.clone(), mark: e.mark.clone(), score });
                    proof {
                        assert(match_views(found@) =~= pre.push(
                            MatchView {
                                path: m[i as int].path,
                                mark: m[i as int].mark,
                                score: score as int,
                            },
                        ));
                    }
                },
                None => {},
            }
            proof {
                assert(m.take(i + 1).drop_last() =~= m.take(i as int));
                assert(m.take(i + 1).last() == m[i as int]);
                assert(match_views(found@) =~= scored_matches(m.take(i + 1), pattern@));
            }
            i += 1;
        }
        proof {
            assert(entry_views(self.marks@).take(n as int) =~= entry_views(self.marks@));
        }
        sort_matches_desc(&found)
    }

    /// The index of the single best mark for `pattern`: the first entry
    /// attaining the highest positive score. Fails with a not-found error
    /// exactly when no mark scores positively.
    pub fn match_mark_mut(&self, pattern: &str) -> (r: Result<usize, HuntersMarkError>)
        ensures
            r matches Err(e) ==> e@ == ErrorView::MarkNotFound(pattern@),
            r is Err <==> (forall|j: int|
                0 <= j < self@.marks.len() ==> eff_score(self@.marks[j], pattern@) <= 0),
            r matches Ok(i) ==> i < self@.marks.len() && eff_score(self@.marks[i as int], pattern@)
                > 0 && (forall|j: int|
                0 <= j < self@.marks.len() ==> eff_score(self@.marks[j], pattern@) <= eff_score(
                    self@.marks[i as int],
                    pattern@,
                )) && (forall|j: int|
                0 <= j < i ==> eff_score(self@.marks[j], pattern@) < eff_score(
                    self@.marks[i as int],
                    pattern@,
                )),
    {
        let n = self.marks.len();
        let mut best: Option<usize> = None;
        let mut best_score: i64 = 0;
        let mut i: usize = 0;
        while i < n
            invariant
                n == self.marks@.len(),
                i <= n,
                best is None ==> best_score == 0 && (forall|k: int|
                    0 <= k < i ==> eff_score(entry_views(self.marks@)[k], pattern@) <= 0),
                best matches Some(b) ==> b < i && best_score > 0 && eff_score(
                    entry_views(self.marks@)[b as int],
                    pattern@,
                ) == best_score && (forall|k: int|
                    0 <= k < i ==> eff_score(entry_views(self.marks@)[k], pattern@) <= best_score)
                    && (forall|k: int|
                    0 <= k < b ==> eff_score(entry_views(self.marks@)[k], pattern@) < best_score),
            decreases n - i,
        {
            let e = &self.marks[i];
            match fuzzy_score(e.mark.name.as_str(), pattern) {
                Some(s) => {
                    if s > best_score {
                        best = Some(i);
                        best_score = s;
                    }
                },
                None => {},
            }
            i += 1;
        }
        match best {
            Some(b) => {
                proof {
                    assert(eff_score(self@.marks[b as int], pattern@) == best_score as int);
                    assert(eff_score(self@.marks[b as int], pattern@) > 0);
                }
                Ok(b)
            },
            None => Err(HuntersMarkError::MarkNotFound(str_to_owned(pattern))),
        }
    }
}

/// Move the candidates at the preferred path to the front, keeping the
/// relative order of both groups: a stable partition of the candidates.
pub fn prioritize_path(v: &Vec<Match>, preferred: &str) -> (r: Vec<Match>)
    ensures
        match_views(r@) == match_views(v@).filter(|m: MatchView| m.path == preferred@)
            + match_views(v@).filter(|m: MatchView| m.path != preferred@),
{
    let mut front: Vec<Match> = Vec::new();
    let mut back: Vec<Match> = Vec::new();
    let n = v.len();
    let mut i: usize = 0;
    proof {
        let vv = match_views(v@);
        assert(match_views(front@) =~= vv.take(0).filter(|m: MatchView| m.path == preferred@))
            by {
            assert(vv.take(0).filter(|m: MatchView| m.path == preferred@) =~= Seq::<
                MatchView,
            >::empty());
        }
        assert(match_views(back@) =~= vv.take(0).filter(|m: MatchView| m.path != preferred@)) by {
            assert(vv.take(0).filter(|m: MatchView| m.path != preferred@) =~= Seq::<
                MatchView,
            >::empty());
        }
    }
    while i < n
        invariant
            n == v@.len(),
            i <= n,
            match_views(front@) =~= match_views(v@).take(i as int).filter(
                |m: MatchView| m.path == preferred@,
            ),
            match_views(back@) =~= match_views(v@).take(i as int).filter(
                |m: MatchView| m.path != preferred@,
            ),
        decreases n - i,
    {
        let ghost pre_front = match_views(front@);
        let ghost pre_back = match_views(back@);
        let is_preferred = crate::global::str_eq(v[i].path.as_str(), preferred);
        if is_preferred {
            front.push(v[i].clone());
        } else {
            back.push(v[i].clone());
        }
        proof {
            let vv = match_views(v@);
            let pe = |m: MatchView| m.path == preferred@;
            let pn = |m: MatchView| m.path != preferred@;
            assert(vv.take(i + 1).drop_last() =~= vv.take(i as int));
            assert(vv.take(i + 1).last() == vv[i as int]);
            reveal_with_fuel(Seq::filter, 2);
            assert(pe(vv[i as int]) == is_preferred);
            assert(pn(vv[i as int]) == !is_preferred);
            if is_preferred {
                assert(match_views(front@) =~= pre_front.push(vv[i as int]));
            } else {
                assert(match_views(back@) =~= pre_back.push(vv[i as int]));
            }
            assert(match_views(front@) =~= vv.take(i + 1).filter(pe));
            assert(match_views(back@) =~= vv.take(i + 1).filter(pn));
        }
        i += 1;
    }
    let ghost front_views = match_views(front@);
    let mut r = front;
    let nb = back.len();
    let mut j: usize = 0;
    while j < nb
        invariant
            nb == back@.len(),
            j <= nb,
            match_views(r@) =~= front_views + match_views(back@).take(j as int),
        decreases nb - j,
    {
        let ghost pre = match_views(r@);
        r.push(back[j].clone());
        proof {
            assert(match_views(r@) =~= pre.push(match_views(back@)[j as int]));
            assert(match_views(back@).take(j + 1) =~= match_views(back@).take(j as int).push(
                match_views(back@)[j as int],
            ));
            assert(match_views(r@) =~= front_views + match_views(back@).take(j + 1));
        }
        j += 1;
    }
    proof {
        let vv = match_views(v@);
        assert(vv.take(n as int) =~= vv);
        assert(match_views(back@).take(nb as int) =~= match_views(back@));
    }
    r
}

/// The path of the store's file inside a given configuration directory.
pub fn config_file(config_dir: &str) -> (r: String)
    ensures
        r@ == config_dir@ + "/config.toml"@,
{
    crate::paths::config_file(config_dir)
}

/// The engine around a loaded store: where the store's file lives, and the
/// store itself.
#[derive(Debug)]
pub struct Backend {
    pub config_path: String,
    pub config: Config,
}

impl Backend {
    /// Wrap a store loaded from `config_path`.
    pub fn new(config_path: String, config: Config) -> (r: Backend)
        ensures
            r.config_path@ == config_path@,
            r.config@ == config@,
    {
        Backend { config_path, config }
    }

    /// Score every mark against `pattern`; candidates come back ordered by
    /// non-increasing score.
    pub fn match_all(&self, pattern: &str) -> (r: Vec<Match>)
        ensures
            match_views(r@).to_multiset() == scored_matches(self.config@.marks, pattern@)
                .to_multiset(),
            sorted_desc(match_views(r@)),
    {
        self.config.match_all(pattern)
    }

    /// Every mark as a candidate with score zero, in store order.
    pub fn empty_match_all(&self) -> (r: Vec<Match>)
        ensures
            match_views(r@) == zero_scored(self.config@.marks),
    {
        let mut out: Vec<Match> = Vec::new();
        let n = self.config.marks.len();
        let mut i: usize = 0;
        while i < n
            invariant
                n == self.config.marks@.len(),
                i <= n,
                match_views(out@) =~= zero_scored(entry_views(self.config.marks@)).take(i as int),
            decreases n - i,
        {
            let e = &self.config.marks[i];
            let ghost pre = match_views(out@);
            let m = Match { path: e.path.clone(), mark: e.mark.clone(), score: 0 };
            let ghost mv = m@;
            out.push(m);
            proof {
                let ev = entry_views(self.config.marks@);
                let z = zero_scored(ev);
                assert(pre.len() == i as int);
                assert(mv == z[i as int]);
                assert(match_views(out@) =~= pre.push(z[i as int]));
                assert(match_views(out@) =~= z.take(i + 1));
            }
            i += 1;
        }
        proof {
            let z = zero_scored(entry_views(self.config.marks@));
            assert(z.take(n as int) =~= z);
        }
        out
    }

    /// The banded candidate set for `pattern`: every matching mark whose
    /// score is within `distance` of the best score, ordered by
    /// non-increasing score. The best-scoring mark always survives, so a
    /// successful result is never empty. Fails with a not-found error
    /// exactly when no mark matches the pattern at all.
    pub fn close_to_best_matches(&self, pattern: &str, distance: i64) -> (r: Result<
        Vec<Match>,
        HuntersMarkError,
    >)
        requires
            distance >= 0,
        ensures
            r is Err <==> scored_matches(self.config@.marks, pattern@).len() == 0,
            r matches Err(e) ==> e@ == ErrorView::MarkNotFound(pattern@),
            r matches Ok(v) ==> v@.len() >= 1 && sorted_desc(match_views(v@)) && (forall|i: int|
                0 <= i < scored_matches(self.config@.marks, pattern@).len() ==> scored_matches(
                    self.config@.marks,
                    pattern@,
                )[i].score <= match_views(v@)[0].score) && match_views(v@).to_multiset()
                == scored_matches(self.config@.marks, pattern@).to_multiset().filter(
                |m: MatchView| within_band(match_views(v@)[0].score, distance as int, m),
            ),
    {
        let ghost scored = scored_matches(self.config@.marks, pattern@);
        let all = self.match_all(pattern);
        let ghost av = match_views(all@);
        proof {
            broadcast use vstd::seq_lib::group_to_multiset_ensures;

            assert(av.len() == av.to_multiset().len());
            assert(scored.len() == scored.to_multiset().len());
        }
        if all.len() == 0 {
            return Err(HuntersMarkError::MarkNotFound(str_to_owned(pattern)));
        }
        let best = all[0].score;
        proof {
            broadcast use vstd::seq_lib::group_to_multiset_ensures;

            assert forall|i: int| 0 <= i < scored.len() implies scored[i].score
                <= best as int by {
                assert(scored.to_multiset().count(scored[i]) > 0) by {
                    assert(scored.contains(scored[i]));
                }
                assert(av.contains(scored[i])) by {
                    assert(av.to_multiset().count(scored[i]) > 0);
                }
                let j = choose|j: int| 0 <= j < av.len() && av[j] == scored[i];
                if j > 0 {
                    assert(av[0].score >= av[j].score);
                }
            }
        }
        let mut out: Vec<Match> = Vec::new();
        let n = all.len();
        let mut i: usize = 0;
        proof {
            assert(match_views(out@) =~= av.take(0).filter(
                |m: MatchView| within_band(best as int, distance as int, m),
            )) by {
                assert(av.take(0).filter(
                    |m: MatchView| within_band(best as int, distance as int, m),
                ) =~= Seq::<MatchView>::empty());
            }
        }
        while i < n
            invariant
                n == all@.len(),
                n >= 1,
                i <= n,
                best == all@[0]@.score,
                distance >= 0,
                av == match_views(all@),
                match_views(out@) =~= av.take(i as int).filter(
                    |m: MatchView| within_band(best as int, distance as int, m),
                ),
                sorted_desc(av),
            decreases n - i,
        {
            let keep = (best as i128) - (all[i].score as i128) <= (distance as i128);
            let ghost pre = match_views(out@);
            if keep {
                out.push(all[i].clone());
            }
            proof {
                let p = |m: MatchView| within_band(best as int, distance as int, m);
                assert(av.take(i + 1).drop_last() =~= av.take(i as int));
                assert(av.take(i + 1).last() == av[i as int]);
                reveal_with_fuel(Seq::filter, 2);
                assert(p(av[i as int]) == keep);
                if keep {
                    assert(match_views(out@) =~= pre.push(av[i as int]));
                }
                assert(match_views(out@) =~= av.take(i + 1).filter(p));
            }
            i += 1;
        }
        proof {
            let p = |m: MatchView| within_band(best as int, distance as int, m);
            assert(av.take(n as int) =~= av);
            assert(match_views(out@) =~= av.filter(p));
            assert(p(av[0]));
            lemma_filter_first(av, p);
            lemma_filter_sorted(av, p);
            lemma_filter_to_multiset(av, p);
            assert(match_views(out@)[0] == av[0]);
            assert(match_views(out@).to_multiset() == scored.to_multiset().filter(p));
        }
        Ok(out)
    }
}

} // verus!
