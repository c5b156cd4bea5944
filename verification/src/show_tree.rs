//! Hydrated records of a work: its base attributes, sub-works, and the
//! aggregated credit of every person who worked on it, together with
//! the credit-merging passes that build them from raw credit edges and
//! the finalize pass that scores each credit.

use vstd::prelude::*;

use crate::compare::{best_idx, job_weight, job_buff, best_job};
use crate::strutil::str_eq;

verus! {

/// The dataset's null marker: a field holding this value carries no
/// information and is discarded.
pub open spec fn is_null(s: Seq<char>) -> bool {
    s == "\\N"@
}

/// A raw credit edge joined to the person's display name, as the
/// catalog store returns it.
pub struct CreditRow {
    pub peep_id: u64,
    pub category: String,
    pub job: String,
    pub name: String,
}

/// Base attributes of a work, as the catalog store returns them.
pub struct ShowRow {
    pub title: String,
    pub start_year: String,
    pub title_type: String,
    pub genres: String,
    pub rating: Option<String>,
}

/// One person's aggregated credit on a work.
pub struct ShowPeepRecord {
    pub id: u64,
    pub name: String,
    pub jobs: Vec<String>,
    pub root_credit: bool,
    pub episode_count: usize,
    pub stylistic: bool,
    pub score: u64,
}

/// A fully hydrated work record.
pub struct ShowRecord {
    pub id: u64,
    pub title: String,
    pub start_year: String,
    pub title_type: String,
    pub genres: String,
    pub rating: Option<String>,
    pub peeps: Vec<ShowPeepRecord>,
    pub episodes: Vec<u64>,
}

/// Mathematical model of a credit edge.
pub ghost struct CreditRowModel {
    pub peep_id: u64,
    pub category: Seq<char>,
    pub job: Seq<char>,
    pub name: Seq<char>,
}

/// Mathematical model of a person's credit.
pub ghost struct PeepModel {
    pub id: u64,
    pub name: Seq<char>,
    pub jobs: Seq<Seq<char>>,
    pub root_credit: bool,
    pub episode_count: nat,
    pub stylistic: bool,
    pub score: u64,
}

/// Mathematical model of a work record.
pub ghost struct ShowModel {
    pub id: u64,
    pub title: Seq<char>,
    pub start_year: Seq<char>,
    pub title_type: Seq<char>,
    pub genres: Seq<char>,
    pub rating: Option<Seq<char>>,
    pub peeps: Seq<PeepModel>,
    pub episodes: Seq<u64>,
}

impl View for CreditRow {
    type V = CreditRowModel;

    open spec fn view(&self) -> CreditRowModel {
        CreditRowModel {
            peep_id: self.peep_id,
            category: self.category@,
            job: self.job@,
            name: self.name@,
        }
    }
}

impl DeepView for CreditRow {
    type V = CreditRowModel;

    open spec fn deep_view(&self) -> CreditRowModel {
        self.view()
    }
}

impl View for ShowPeepRecord {
    type V = PeepModel;

    open spec fn view(&self) -> PeepModel {
        PeepModel {
            id: self.id,
            name: self.name@,
            jobs: self.jobs.deep_view(),
            root_credit: self.root_credit,
            episode_count: self.episode_count as nat,
            stylistic: self.stylistic,
            score: self.score,
        }
    }
}

impl DeepView for ShowPeepRecord {
    type V = PeepModel;

    open spec fn deep_view(&self) -> PeepModel {
        self.view()
    }
}

impl View for ShowRecord {
    type V = ShowModel;

    open spec fn view(&self) -> ShowModel {
        ShowModel {
            id: self.id,
            title: self.title@,
            start_year: self.start_year@,
            title_type: self.title_type@,
            genres: self.genres@,
            rating: self.rating.deep_view(),
            peeps: self.peeps.deep_view(),
            episodes: self.episodes@,
        }
    }
}

impl DeepView for ShowRecord {
    type V = ShowModel;

    open spec fn deep_view(&self) -> ShowModel {
        self.view()
    }
}

/// Appending a job string to a job list: the null marker and exact
/// duplicates are suppressed, anything else goes to the end.
pub open spec fn add_job(jobs: Seq<Seq<char>>, s: Seq<char>) -> Seq<Seq<char>> {
    if is_null(s) || jobs.contains(s) {
        jobs
    } else {
        jobs.push(s)
    }
}

/// Both job fields of a credit edge added to a job list, category
/// first.
pub open spec fn row_jobs_added(jobs: Seq<Seq<char>>, row: CreditRowModel) -> Seq<Seq<char>> {
    add_job(add_job(jobs, row.category), row.job)
}

/// Index of the first credit with the given person identifier, or -1.
pub open spec fn find_peep(peeps: Seq<PeepModel>, id: u64) -> int
    decreases peeps.len(),
{
    if peeps.len() == 0 {
        -1
    } else if peeps[0].id == id {
        0
    } else {
        let r = find_peep(peeps.skip(1), id);
        if r < 0 {
            -1
        } else {
            r + 1
        }
    }
}

pub proof fn lemma_find_peep(peeps: Seq<PeepModel>, id: u64)
    ensures
        find_peep(peeps, id) < 0 ==> forall|k: int|
            0 <= k < peeps.len() ==> (#[trigger] peeps[k]).id != id,
        find_peep(peeps, id) >= 0 ==> {
            let r = find_peep(peeps, id);
            &&& 0 <= r < peeps.len()
            &&& peeps[r].id == id
            &&& forall|k: int| 0 <= k < r ==> (#[trigger] peeps[k]).id != id
        },
    decreases peeps.len(),
{
    if peeps.len() == 0 {
    } else if peeps[0].id == id {
        assert(find_peep(peeps, id) == 0);
    } else {
        lemma_find_peep(peeps.skip(1), id);
        let rs = find_peep(peeps.skip(1), id);
        assert(forall|k: int|
            0 <= k < peeps.len() - 1 ==> #[trigger] peeps.skip(1)[k] == peeps[k + 1]);
        if rs < 0 {
            assert(find_peep(peeps, id) == -1);
            assert forall|k: int| 0 <= k < peeps.len() implies (#[trigger] peeps[k]).id
                != id by {
                if k > 0 {
                    assert(peeps.skip(1)[k - 1].id != id);
                }
            }
        } else {
            assert(find_peep(peeps, id) == rs + 1);
            assert(peeps.skip(1)[rs].id == id);
            assert forall|k: int| 0 <= k < rs + 1 implies (#[trigger] peeps[k]).id != id by {
                if k > 0 {
                    assert(peeps.skip(1)[k - 1].id != id);
                }
            }
        }
    }
}

/// A fresh credit for a person first seen on this work.
pub open spec fn new_peep(id: u64, name: Seq<char>) -> PeepModel {
    PeepModel {
        id: id,
        name: name,
        jobs: Seq::empty(),
        root_credit: false,
        episode_count: 0,
        stylistic: false,
        score: 0,
    }
}

/// Merging one direct credit edge: create the person's credit or
/// union in the edge's jobs, and mark the credit as direct.
pub open spec fn apply_direct_row(peeps: Seq<PeepModel>, row: CreditRowModel) -> Seq<PeepModel> {
    let j = find_peep(peeps, row.peep_id);
    if j < 0 {
        peeps.push(
            PeepModel {
                jobs: row_jobs_added(Seq::empty(), row),
                root_credit: true,
                ..new_peep(row.peep_id, row.name)
            },
        )
    } else {
        let p = peeps[j];
        peeps.update(
            j,
            PeepModel { jobs: row_jobs_added(p.jobs, row), root_credit: true, ..p },
        )
    }
}

/// Merging one sub-work credit edge: create the person's credit if it
/// is not there (a non-direct credit), count one more credited
/// sub-work, and union in the edge's jobs.
pub open spec fn apply_episode_row(peeps: Seq<PeepModel>, row: CreditRowModel) -> Seq<PeepModel> {
    let j = find_peep(peeps, row.peep_id);
    if j < 0 {
        peeps.push(
            PeepModel {
                jobs: row_jobs_added(Seq::empty(), row),
                episode_count: 1,
                ..new_peep(row.peep_id, row.name)
            },
        )
    } else {
        let p = peeps[j];
        peeps.update(
            j,
            PeepModel {
                jobs: row_jobs_added(p.jobs, row),
                episode_count: p.episode_count + 1,
                ..p
            },
        )
    }
}

/// All direct credit edges merged, in order.
pub open spec fn apply_direct_rows(
    peeps: Seq<PeepModel>,
    rows: Seq<CreditRowModel>,
) -> Seq<PeepModel>
    decreases rows.len(),
{
    if rows.len() == 0 {
        peeps
    } else {
        apply_direct_row(apply_direct_rows(peeps, rows.drop_last()), rows.last())
    }
}

/// All sub-work credit edges merged, in order.
pub open spec fn apply_episode_rows(
    peeps: Seq<PeepModel>,
    rows: Seq<CreditRowModel>,
) -> Seq<PeepModel>
    decreases rows.len(),
{
    if rows.len() == 0 {
        peeps
    } else {
        apply_episode_row(apply_episode_rows(peeps, rows.drop_last()), rows.last())
    }
}

/// Well-formed job list: no null marker, no duplicates.
pub open spec fn jobs_wf(jobs: Seq<Seq<char>>) -> bool {
    &&& forall|i: int| 0 <= i < jobs.len() ==> !is_null(#[trigger] jobs[i])
    &&& forall|i: int, j: int| 0 <= i < j < jobs.len() ==> jobs[i] != jobs[j]
}

/// Well-formed credit list: person identifiers unique, job lists
/// well formed.
pub open spec fn peeps_wf(peeps: Seq<PeepModel>) -> bool {
    &&& forall|i: int, j: int|
        0 <= i < j < peeps.len() ==> (#[trigger] peeps[i]).id != (#[trigger] peeps[j]).id
    &&& forall|i: int| 0 <= i < peeps.len() ==> jobs_wf((#[trigger] peeps[i]).jobs)
}

proof fn lemma_add_job_wf(jobs: Seq<Seq<char>>, s: Seq<char>)
    requires
        jobs_wf(jobs),
    ensures
        jobs_wf(add_job(jobs, s)),
{
    if !(is_null(s) || jobs.contains(s)) {
        assert(forall|i: int| 0 <= i < jobs.len() ==> jobs[i] == #[trigger] jobs.push(s)[i]);
        assert(jobs.push(s)[jobs.len() as int] == s);
    }
}

proof fn lemma_apply_row_wf(peeps: Seq<PeepModel>, row: CreditRowModel)
    requires
        peeps_wf(peeps),
    ensures
        peeps_wf(apply_direct_row(peeps, row)),
        peeps_wf(apply_episode_row(peeps, row)),
{
    lemma_find_peep(peeps, row.peep_id);
    lemma_add_job_wf(Seq::empty(), row.category);
    lemma_add_job_wf(add_job(Seq::empty(), row.category), row.job);
    let j = find_peep(peeps, row.peep_id);
    if j >= 0 {
        lemma_add_job_wf(peeps[j].jobs, row.category);
        lemma_add_job_wf(add_job(peeps[j].jobs, row.category), row.job);
    }
}

pub proof fn lemma_apply_direct_rows_wf(peeps: Seq<PeepModel>, rows: Seq<CreditRowModel>)
    requires
        peeps_wf(peeps),
    ensures
        peeps_wf(apply_direct_rows(peeps, rows)),
    decreases rows.len(),
{
    if rows.len() > 0 {
        lemma_apply_direct_rows_wf(peeps, rows.drop_last());
        lemma_apply_row_wf(apply_direct_rows(peeps, rows.drop_last()), rows.last());
    }
}

pub proof fn lemma_apply_episode_rows_wf(peeps: Seq<PeepModel>, rows: Seq<CreditRowModel>)
    requires
        peeps_wf(peeps),
    ensures
        peeps_wf(apply_episode_rows(peeps, rows)),
    decreases rows.len(),
{
    if rows.len() > 0 {
        lemma_apply_episode_rows_wf(peeps, rows.drop_last());
        lemma_apply_row_wf(apply_episode_rows(peeps, rows.drop_last()), rows.last());
    }
}

/// Whether a job list already holds exactly this string.
pub(crate) fn jobs_contain_exec(jobs: &Vec<String>, s: &str) -> (r: bool)
    ensures
        r == jobs.deep_view().contains(s@),
{
    let mut i: usize = 0;
    while i < jobs.len()
        invariant
            i <= jobs@.len(),
            forall|k: int| 0 <= k < i ==> jobs.deep_view()[k] != s@,
        decreases jobs@.len() - i,
    {
        if str_eq(jobs[i].as_str(), s) {
            assert(jobs.deep_view()[i as int] == s@);
            return true;
        }
        i = i + 1;
    }
    false
}

/// Appends a job string, suppressing the null marker and duplicates.
fn push_job(jobs: &mut Vec<String>, s: &String)
    ensures
        final(jobs).deep_view() == add_job(old(jobs).deep_view(), s@),
{
    if str_eq(s.as_str(), "\\N") {
        return ;
    }
    if jobs_contain_exec(jobs, s.as_str()) {
        return ;
    }
    let ghost oldjobs = jobs.deep_view();
    jobs.push(s.clone());
    proof {
        assert(jobs.deep_view() =~= oldjobs.push(s@));
    }
}

/// Index of the first credit for this person, if any.
pub(crate) fn find_peep_idx(peeps: &Vec<ShowPeepRecord>, id: u64) -> (r: Option<usize>)
    ensures
        match r {
            Some(j) => j < peeps@.len() && find_peep(peeps.deep_view(), id) == j as int,
            None => find_peep(peeps.deep_view(), id) < 0,
        },
{
    proof {
        lemma_find_peep(peeps.deep_view(), id);
    }
    let mut i: usize = 0;
    while i < peeps.len()
        invariant
            i <= peeps@.len(),
            forall|k: int| 0 <= k < i ==> (#[trigger] peeps.deep_view()[k]).id != id,
        decreases peeps@.len() - i,
    {
        if peeps[i].id == id {
            proof {
                lemma_find_peep(peeps.deep_view(), id);
                assert(peeps.deep_view()[i as int].id == id);
            }
            return Some(i);
        }
        i = i + 1;
    }
    proof {
        lemma_find_peep(peeps.deep_view(), id);
    }
    None
}

/// Merges a batch of direct credit edges into a credit list: each
/// edge creates or updates its person's credit, marks it direct, and
/// unions in the edge's non-null job strings.
pub fn apply_direct_credits(peeps: &mut Vec<ShowPeepRecord>, rows: &Vec<CreditRow>)
    ensures
        final(peeps).deep_view() == apply_direct_rows(old(peeps).deep_view(), rows.deep_view()),
{
    let ghost orig = old(peeps).deep_view();
    let ghost rowsm = rows.deep_view();
    let mut i: usize = 0;
    while i < rows.len()
        invariant
            i <= rows@.len(),
            orig == old(peeps).deep_view(),
            rowsm == rows.deep_view(),
            peeps.deep_view() == apply_direct_rows(orig, rowsm.subrange(0, i as int)),
        decreases rows@.len() - i,
    {
        let ghost pre = peeps.deep_view();
        let row = &rows[i];
        match find_peep_idx(peeps, row.peep_id) {
            None => {
                let mut jobs: Vec<String> = Vec::new();
                proof {
                    assert(jobs.deep_view() =~= Seq::<Seq<char>>::empty());
                }
                push_job(&mut jobs, &row.category);
                push_job(&mut jobs, &row.job);
                let p = ShowPeepRecord {
                    id: row.peep_id,
                    name: row.name.clone(),
                    jobs: jobs,
                    root_credit: true,
                    episode_count: 0,
                    stylistic: false,
                    score: 0,
                };
                peeps.push(p);
                proof {
                    assert(peeps.deep_view() =~= apply_direct_row(pre, rowsm[i as int]));
                }
            },
            Some(j) => {
                let p = &mut peeps[j];
                push_job(&mut p.jobs, &row.category);
                push_job(&mut p.jobs, &row.job);
                p.root_credit = true;
                proof {
                    assert(peeps.deep_view() =~= apply_direct_row(pre, rowsm[i as int]));
                }
            },
        }
        proof {
            assert(rowsm.subrange(0, i + 1).drop_last() =~= rowsm.subrange(0, i as int));
            assert(rowsm.subrange(0, i + 1).last() == rowsm[i as int]);
        }
        i = i + 1;
    }
    proof {
        assert(rowsm.subrange(0, rows@.len() as int) =~= rowsm);
    }
}

/// Scores are kept in thousandths of a weight unit.
pub const SCORE_SCALE: u64 = 1000;

/// Weight of a credit's best-weighted job; a credit whose job list is
/// empty counts as uncategorized and gets the minimum weight.
pub open spec fn best_weight(jobs: Seq<Seq<char>>) -> u64 {
    if jobs.len() == 0 {
        1
    } else {
        job_weight(jobs[best_idx(jobs)])
    }
}

/// A credit's score, in thousandths of a weight unit: the weight of
/// the best job, scaled by min(1, 2 * episode_count / sub_works) when
/// the work has sub-works and the person is credited on some —
/// crediting on at least half the sub-works keeps the full weight.
pub open spec fn scaled_score(w: u64, ep: nat, subs: nat) -> int {
    if subs > 0 && ep > 0 {
        (w * SCORE_SCALE * vstd::math::min(2 * ep as int, subs as int)) / (subs as int)
    } else {
        (w * SCORE_SCALE) as int
    }
}

pub proof fn lemma_role_weight_bounds(r: crate::compare::Role)
    ensures
        1 <= crate::compare::role_weight(r) <= 60,
{
}

pub proof fn lemma_scaled_score_bounds(w: u64, ep: nat, subs: nat)
    requires
        1 <= w <= 60,
    ensures
        0 <= scaled_score(w, ep, subs) <= 60000,
{
    if subs > 0 && ep > 0 {
        let m = vstd::math::min(2 * ep as int, subs as int);
        assert(1 <= m <= subs);
        assert(w * SCORE_SCALE * m >= 0) by (nonlinear_arith)
            requires
                m >= 1,
                w >= 1,
        ;
        assert(w * SCORE_SCALE * m <= w * SCORE_SCALE * subs) by (nonlinear_arith)
            requires
                m <= subs,
                w >= 1,
        ;
        vstd::arithmetic::div_mod::lemma_div_pos_is_pos(w * SCORE_SCALE * m, subs as int);
        vstd::arithmetic::div_mod::lemma_div_is_ordered(
            w * SCORE_SCALE * m,
            w * SCORE_SCALE * subs,
            subs as int,
        );
        vstd::arithmetic::div_mod::lemma_div_by_multiple(w * SCORE_SCALE, subs as int);
        assert((w * SCORE_SCALE * subs) / (subs as int) == w * SCORE_SCALE);
    }
}

/// Law: episode-proportion scaling. On a work with sub-works, a
/// person credited on at least half of them keeps the full weight;
/// one credited on fewer gets it scaled linearly by twice the
/// credited fraction.
pub proof fn lemma_episode_scaling(w: u64, ep: nat, subs: nat)
    requires
        subs > 0,
        ep > 0,
    ensures
        2 * ep >= subs ==> scaled_score(w, ep, subs) == w * SCORE_SCALE,
        2 * ep <= subs ==> scaled_score(w, ep, subs) == (w * SCORE_SCALE * 2 * ep) / (
        subs as int),
{
    if 2 * ep >= subs {
        assert(vstd::math::min(2 * ep as int, subs as int) == subs as int);
        vstd::arithmetic::div_mod::lemma_div_by_multiple(w * SCORE_SCALE, subs as int);
        assert((w * SCORE_SCALE * subs) / (subs as int) == w * SCORE_SCALE);
    }
    if 2 * ep <= subs {
        assert(vstd::math::min(2 * ep as int, subs as int) == 2 * ep);
        assert(w * SCORE_SCALE * (2 * ep) == w * SCORE_SCALE * 2 * ep) by (nonlinear_arith);
    }
}

/// Law: the stylistic boundary. A finalized credit is stylistic
/// exactly when its best job's weight exceeds the minimum weight; in
/// particular a credit whose only job is uncategorized is never
/// stylistic.
pub proof fn lemma_stylistic_boundary(p: PeepModel, subs: nat)
    ensures
        finalize_peep(p, subs).stylistic <==> best_weight(p.jobs) > 1,
        p.jobs.len() == 1 && crate::compare::classify(p.jobs[0]) == crate::compare::Role::Other
            ==> !finalize_peep(p, subs).stylistic,
{
    if p.jobs.len() == 1 {
        assert(best_idx(p.jobs) == 0);
    }
}

/// A credit after the finalize pass: the stylistic flag marks a best
/// weight above the minimum, the score is the scaled best weight.
pub open spec fn finalize_peep(p: PeepModel, subs: nat) -> PeepModel {
    PeepModel {
        stylistic: best_weight(p.jobs) > 1,
        score: scaled_score(best_weight(p.jobs), p.episode_count, subs) as u64,
        ..p
    }
}

pub open spec fn finalize_peeps(peeps: Seq<PeepModel>, subs: nat) -> Seq<PeepModel> {
    peeps.map_values(|p: PeepModel| finalize_peep(p, subs))
}

/// Weight of the best job in a job list; the minimum weight if the
/// list is empty.
pub fn best_weight_exec(jobs: &Vec<String>) -> (r: u64)
    ensures
        r == best_weight(jobs.deep_view()),
        1 <= r <= 60,
{
    if jobs.len() == 0 {
        1
    } else {
        let b = best_job(jobs);
        proof {
            let bi = best_idx(jobs.deep_view());
            assert(jobs.deep_view()[bi] == jobs@[bi]@);
            lemma_role_weight_bounds(crate::compare::classify(jobs.deep_view()[bi]));
        }
        job_buff(b.as_str())
    }
}

/// Finalize pass over a hydrated record: computes every credit's
/// stylistic flag and score from its jobs, its credited sub-work
/// count, and the work's sub-work count.
pub fn score_peeps(show: &mut ShowRecord)
    ensures
        final(show)@ == (ShowModel {
            peeps: finalize_peeps(old(show)@.peeps, old(show)@.episodes.len()),
            ..old(show)@
        }),
{
    let ghost orig = show@;
    let subs: usize = show.episodes.len();
    let n = show.peeps.len();
    let mut i: usize = 0;
    while i < n
        invariant
            orig == old(show)@,
            subs == orig.episodes.len(),
            n == show.peeps@.len(),
            n == orig.peeps.len(),
            i <= n,
            show.id == old(show).id,
            show.title == old(show).title,
            show.start_year == old(show).start_year,
            show.title_type == old(show).title_type,
            show.genres == old(show).genres,
            show.rating == old(show).rating,
            show.episodes == old(show).episodes,
            forall|k: int|
                0 <= k < i ==> show.peeps.deep_view()[k] == finalize_peep(
                    orig.peeps[k],
                    subs as nat,
                ),
            forall|k: int| i <= k < n ==> show.peeps.deep_view()[k] == orig.peeps[k],
        decreases n - i,
    {
        let w = best_weight_exec(&show.peeps[i].jobs);
        let ep: usize = show.peeps[i].episode_count;
        proof {
            assert(show.peeps.deep_view()[i as int] == show.peeps@[i as int].deep_view());
            lemma_scaled_score_bounds(w, ep as nat, subs as nat);
        }
        let sc: u64 = if subs > 0 && ep > 0 {
            let e2: u128 = 2 * (ep as u128);
            let m: u128 = if e2 < (subs as u128) {
                e2
            } else {
                subs as u128
            };
            proof {
                assert((w as int) * (SCORE_SCALE as int) * (m as int) <= 60000 * (m as int))
                    by (nonlinear_arith)
                    requires
                        1 <= w <= 60,
                        SCORE_SCALE == 1000,
                        m >= 0,
                ;
                assert(60000 * (m as int) <= 60000 * (usize::MAX as int)) by (nonlinear_arith)
                    requires
                        0 <= m <= usize::MAX as int,
                ;
            }
            (((w as u128) * (SCORE_SCALE as u128) * m) / (subs as u128)) as u64
        } else {
            w * SCORE_SCALE
        };
        assert(sc == scaled_score(w, ep as nat, subs as nat));
        let ghost pre = show.peeps.deep_view();
        let p = &mut show.peeps[i];
        p.stylistic = w > 1;
        p.score = sc;
        proof {
            assert(forall|k: int|
                0 <= k < n && k != i ==> #[trigger] show.peeps.deep_view()[k] == pre[k]);
            assert(show.peeps.deep_view()[i as int] == finalize_peep(
                orig.peeps[i as int],
                subs as nat,
            ));
        }
        i = i + 1;
    }
    proof {
        assert(show.peeps.deep_view() =~= finalize_peeps(orig.peeps, subs as nat));
        assert(show@ =~= (ShowModel {
            peeps: finalize_peeps(old(show)@.peeps, old(show)@.episodes.len()),
            ..old(show)@
        }));
    }
}

/// Identifiers of the credits marked stylistic, in credit order.
pub open spec fn stylistic_ids(peeps: Seq<PeepModel>) -> Seq<u64>
    decreases peeps.len(),
{
    if peeps.len() == 0 {
        Seq::empty()
    } else {
        let pre = stylistic_ids(peeps.drop_last());
        if peeps.last().stylistic {
            pre.push(peeps.last().id)
        } else {
            pre
        }
    }
}

/// One record's ignored jobs added to an accumulator: jobs at the
/// minimum weight, first occurrence kept, duplicates suppressed.
pub open spec fn add_ignored_jobs(acc: Seq<Seq<char>>, jobs: Seq<Seq<char>>) -> Seq<Seq<char>>
    decreases jobs.len(),
{
    if jobs.len() == 0 {
        acc
    } else {
        let a = add_ignored_jobs(acc, jobs.drop_last());
        if job_weight(jobs.last()) <= 1 && !a.contains(jobs.last()) {
            a.push(jobs.last())
        } else {
            a
        }
    }
}

/// All ignored jobs of a credit list, in first-occurrence order.
pub open spec fn ignored_jobs_model(peeps: Seq<PeepModel>) -> Seq<Seq<char>>
    decreases peeps.len(),
{
    if peeps.len() == 0 {
        Seq::empty()
    } else {
        add_ignored_jobs(ignored_jobs_model(peeps.drop_last()), peeps.last().jobs)
    }
}

/// Everything the ignored-jobs accumulator gathers is at the minimum
/// weight.
pub proof fn lemma_add_ignored_jobs_weights(acc: Seq<Seq<char>>, jobs: Seq<Seq<char>>)
    requires
        forall|k: int| 0 <= k < acc.len() ==> job_weight(#[trigger] acc[k]) <= 1,
    ensures
        forall|k: int|
            0 <= k < add_ignored_jobs(acc, jobs).len() ==> job_weight(
                #[trigger] add_ignored_jobs(acc, jobs)[k],
            ) <= 1,
    decreases jobs.len(),
{
    if jobs.len() > 0 {
        lemma_add_ignored_jobs_weights(acc, jobs.drop_last());
        let a = add_ignored_jobs(acc, jobs.drop_last());
        if job_weight(jobs.last()) <= 1 && !a.contains(jobs.last()) {
            assert forall|k: int| 0 <= k < a.push(jobs.last()).len() implies job_weight(
                #[trigger] a.push(jobs.last())[k],
            ) <= 1 by {
                if k < a.len() {
                    assert(a.push(jobs.last())[k] == a[k]);
                } else {
                    assert(a.push(jobs.last())[k] == jobs.last());
                }
            }
        }
    }
}

/// Every ignored job of a credit list is at the minimum weight.
pub proof fn lemma_ignored_jobs_model_weights(peeps: Seq<PeepModel>)
    ensures
        forall|k: int|
            0 <= k < ignored_jobs_model(peeps).len() ==> job_weight(
                #[trigger] ignored_jobs_model(peeps)[k],
            ) <= 1,
    decreases peeps.len(),
{
    if peeps.len() > 0 {
        lemma_ignored_jobs_model_weights(peeps.drop_last());
        lemma_add_ignored_jobs_weights(ignored_jobs_model(peeps.drop_last()), peeps.last().jobs);
    }
}

impl ShowRecord {
    /// Identifiers of the persons whose credit on this work is
    /// stylistic.
    pub fn stylistic_peeps(&self) -> (r: Vec<u64>)
        ensures
            r@ == stylistic_ids(self@.peeps),
    {
        let mut r: Vec<u64> = Vec::new();
        let mut i: usize = 0;
        while i < self.peeps.len()
            invariant
                i <= self.peeps@.len(),
                r@ == stylistic_ids(self@.peeps.subrange(0, i as int)),
            decreases self.peeps@.len() - i,
        {
            if self.peeps[i].stylistic {
                r.push(self.peeps[i].id);
            }
            proof {
                assert(self@.peeps.subrange(0, i + 1).drop_last() =~= self@.peeps.subrange(
                    0,
                    i as int,
                ));
                assert(self@.peeps.subrange(0, i + 1).last() == self@.peeps[i as int]);
                assert(self@.peeps[i as int] == self.peeps@[i as int].deep_view());
            }
            i = i + 1;
        }
        proof {
            assert(self@.peeps.subrange(0, self.peeps@.len() as int) =~= self@.peeps);
        }
        r
    }

    /// The job strings on this work that carry no weight: every job
    /// whose canonical role is at the minimum weight, deduplicated,
    /// in first-occurrence order.
    pub fn ignored_jobs(&self) -> (r: Vec<String>)
        ensures
            r.deep_view() == ignored_jobs_model(self@.peeps),
    {
        let mut r: Vec<String> = Vec::new();
        proof {
            assert(r.deep_view() =~= Seq::<Seq<char>>::empty());
        }
        let mut i: usize = 0;
        while i < self.peeps.len()
            invariant
                i <= self.peeps@.len(),
                r.deep_view() == ignored_jobs_model(self@.peeps.subrange(0, i as int)),
            decreases self.peeps@.len() - i,
        {
            let jobs = &self.peeps[i].jobs;
            let ghost base = r.deep_view();
            let mut j: usize = 0;
            while j < jobs.len()
                invariant
                    j <= jobs@.len(),
                    r.deep_view() == add_ignored_jobs(base, jobs.deep_view().subrange(0, j as int)),
                decreases jobs@.len() - j,
            {
                let w = job_buff(jobs[j].as_str());
                let ghost prejobs = r.deep_view();
                if w <= 1 {
                    if !jobs_contain_exec(&r, jobs[j].as_str()) {
                        r.push(jobs[j].clone());
                        proof {
                            assert(r.deep_view() =~= prejobs.push(jobs.deep_view()[j as int]));
                        }
                    }
                }
                proof {
                    assert(jobs.deep_view().subrange(0, j + 1).drop_last() =~= jobs.deep_view()
                        .subrange(0, j as int));
                    assert(jobs.deep_view().subrange(0, j + 1).last() == jobs.deep_view()[j as int]);
                    assert(jobs.deep_view()[j as int] == jobs@[j as int]@);
                }
                j = j + 1;
            }
            proof {
                assert(jobs.deep_view().subrange(0, jobs@.len() as int) =~= jobs.deep_view());
                assert(self@.peeps.subrange(0, i + 1).drop_last() =~= self@.peeps.subrange(
                    0,
                    i as int,
                ));
                assert(self@.peeps.subrange(0, i + 1).last() == self@.peeps[i as int]);
                assert(self@.peeps[i as int] == self.peeps@[i as int].deep_view());
                assert(self@.peeps[i as int].jobs == jobs.deep_view());
            }
            i = i + 1;
        }
        proof {
            assert(self@.peeps.subrange(0, self.peeps@.len() as int) =~= self@.peeps);
        }
        r
    }
}

/// Every sub-work count in the credit list has room to grow by `n`.
pub open spec fn counts_headroom(peeps: Seq<PeepModel>, n: nat) -> bool {
    forall|k: int|
        0 <= k < peeps.len() ==> (#[trigger] peeps[k]).episode_count + n <= usize::MAX
}

/// Sub-work counts grow by at most one per merged edge.
proof fn lemma_apply_episode_rows_count_bound(peeps: Seq<PeepModel>, rows: Seq<CreditRowModel>)
    ensures
        apply_episode_rows(peeps, rows).len() >= peeps.len(),
        forall|k: int|
            0 <= k < apply_episode_rows(peeps, rows).len()
                ==> (#[trigger] apply_episode_rows(peeps, rows)[k]).episode_count <= (if k
                < peeps.len() {
                peeps[k].episode_count
            } else {
                0
            }) + rows.len(),
    decreases rows.len(),
{
    if rows.len() > 0 {
        lemma_apply_episode_rows_count_bound(peeps, rows.drop_last());
        let pre = apply_episode_rows(peeps, rows.drop_last());
        lemma_find_peep(pre, rows.last().peep_id);
    }
}

/// Merges a batch of sub-work credit edges into a credit list: each
/// edge creates or updates its person's credit, counts one more
/// credited sub-work, and unions in the edge's non-null job strings.
pub fn apply_episode_credits(peeps: &mut Vec<ShowPeepRecord>, rows: &Vec<CreditRow>)
    requires
        counts_headroom(old(peeps).deep_view(), rows.deep_view().len()),
    ensures
        final(peeps).deep_view() == apply_episode_rows(old(peeps).deep_view(), rows.deep_view()),
{
    let ghost orig = old(peeps).deep_view();
    let ghost rowsm = rows.deep_view();
    let mut i: usize = 0;
    while i < rows.len()
        invariant
            i <= rows@.len(),
            orig == old(peeps).deep_view(),
            rowsm == rows.deep_view(),
            counts_headroom(orig, rowsm.len()),
            peeps.deep_view() == apply_episode_rows(orig, rowsm.subrange(0, i as int)),
        decreases rows@.len() - i,
    {
        let ghost pre = peeps.deep_view();
        let row = &rows[i];
        match find_peep_idx(peeps, row.peep_id) {
            None => {
                let mut jobs: Vec<String> = Vec::new();
                proof {
                    assert(jobs.deep_view() =~= Seq::<Seq<char>>::empty());
                }
                push_job(&mut jobs, &row.category);
                push_job(&mut jobs, &row.job);
                let p = ShowPeepRecord {
                    id: row.peep_id,
                    name: row.name.clone(),
                    jobs: jobs,
                    root_credit: false,
                    episode_count: 1,
                    stylistic: false,
                    score: 0,
                };
                peeps.push(p);
                proof {
                    assert(peeps.deep_view() =~= apply_episode_row(pre, rowsm[i as int]));
                }
            },
            Some(j) => {
                proof {
                    lemma_apply_episode_rows_count_bound(orig, rowsm.subrange(0, i as int));
                    assert(pre[j as int].episode_count <= (if (j as int) < orig.len() {
                        orig[j as int].episode_count
                    } else {
                        0
                    }) + i);
                    if (j as int) < orig.len() {
                        assert(orig[j as int].episode_count + rowsm.len() <= usize::MAX);
                        assert(pre[j as int].episode_count < usize::MAX);
                    } else {
                        assert(pre[j as int].episode_count <= i);
                        assert(i < rows@.len() <= usize::MAX);
                    }
                    assert(peeps@[j as int].deep_view() == pre[j as int]);
                    assert(peeps@[j as int].episode_count < usize::MAX);
                }
                let p = &mut peeps[j];
                p.episode_count = p.episode_count + 1;
                push_job(&mut p.jobs, &row.category);
                push_job(&mut p.jobs, &row.job);
                proof {
                    assert(peeps.deep_view() =~= apply_episode_row(pre, rowsm[i as int]));
                }
            },
        }
        proof {
            assert(rowsm.subrange(0, i + 1).drop_last() =~= rowsm.subrange(0, i as int));
            assert(rowsm.subrange(0, i + 1).last() == rowsm[i as int]);
        }
        i = i + 1;
    }
    proof {
        assert(rowsm.subrange(0, rows@.len() as int) =~= rowsm);
    }
}

/// Merging direct credit edges never touches a sub-work count.
proof fn lemma_direct_counts_zero(peeps: Seq<PeepModel>, rows: Seq<CreditRowModel>)
    requires
        forall|k: int| 0 <= k < peeps.len() ==> (#[trigger] peeps[k]).episode_count == 0,
    ensures
        forall|k: int|
            0 <= k < apply_direct_rows(peeps, rows).len() ==> (#[trigger] apply_direct_rows(
                peeps,
                rows,
            )[k]).episode_count == 0,
    decreases rows.len(),
{
    if rows.len() > 0 {
        lemma_direct_counts_zero(peeps, rows.drop_last());
        let pre = apply_direct_rows(peeps, rows.drop_last());
        lemma_find_peep(pre, rows.last().peep_id);
    }
}

/// The finalize pass keeps identifiers and job lists, so it keeps
/// well-formedness.
pub proof fn lemma_finalize_wf(peeps: Seq<PeepModel>, subs: nat)
    requires
        peeps_wf(peeps),
    ensures
        peeps_wf(finalize_peeps(peeps, subs)),
{
    assert(forall|k: int|
        0 <= k < peeps.len() ==> (#[trigger] finalize_peeps(peeps, subs)[k]).id == peeps[k].id
            && finalize_peeps(peeps, subs)[k].jobs == peeps[k].jobs);
}

/// A fully hydrated and scored record: what the three hydration
/// phases followed by the finalize pass produce from some batch of
/// direct and sub-work credit edges.
pub open spec fn hydrated(m: ShowModel) -> bool {
    exists|drows: Seq<CreditRowModel>, eprows: Seq<CreditRowModel>|
        m.peeps == finalize_peeps(
            apply_episode_rows(apply_direct_rows(Seq::empty(), drows), eprows),
            m.episodes.len(),
        )
}

/// Hydrates one work: base attributes, sub-works, direct credits,
/// sub-work credits, then the finalize pass. Fails with
/// `WorkNotFound` exactly when the store has no row for the work, and
/// with `StoreUnavailable` when a query fails.
pub fn fetch_show_record(db: &rusqlite::Connection, show_id: u64) -> (r: Result<
    ShowRecord,
    crate::SearchError,
>)
    ensures
        match r {
            Ok(rec) => rec@.id == show_id && peeps_wf(rec@.peeps) && hydrated(rec@),
            Err(e) => match e {
                crate::SearchError::WorkNotFound(i) => i == show_id,
                crate::SearchError::StoreUnavailable => true,
                crate::SearchError::MalformedIdentifier(_) => false,
            },
        },
{
    let base = match crate::store::query_show_row(db, show_id) {
        Err(_) => {
            return Err(crate::SearchError::StoreUnavailable);
        },
        Ok(None) => {
            return Err(crate::SearchError::WorkNotFound(show_id));
        },
        Ok(Some(b)) => b,
    };
    let episodes = match crate::store::query_episode_ids(db, show_id) {
        Err(_) => {
            return Err(crate::SearchError::StoreUnavailable);
        },
        Ok(v) => v,
    };
    let mut show = ShowRecord {
        id: show_id,
        title: base.title,
        start_year: base.start_year,
        title_type: base.title_type,
        genres: base.genres,
        rating: base.rating,
        peeps: Vec::new(),
        episodes: episodes,
    };
    let drows = match crate::store::query_direct_credits(db, show_id) {
        Err(_) => {
            return Err(crate::SearchError::StoreUnavailable);
        },
        Ok(v) => v,
    };
    proof {
        assert(show.peeps.deep_view() =~= Seq::<PeepModel>::empty());
    }
    apply_direct_credits(&mut show.peeps, &drows);
    let eprows = match crate::store::query_subwork_credits(db, &show.episodes) {
        Err(_) => {
            return Err(crate::SearchError::StoreUnavailable);
        },
        Ok(v) => v,
    };
    let epn = eprows.len();
    proof {
        lemma_direct_counts_zero(Seq::empty(), drows.deep_view());
        assert(eprows.deep_view().len() == eprows@.len());
        assert(eprows@.len() == epn);
        assert(forall|k: int|
            0 <= k < show.peeps.deep_view().len() ==> (#[trigger] show.peeps.deep_view()[
            k]).episode_count == 0);
        assert(counts_headroom(show.peeps.deep_view(), eprows.deep_view().len()));
    }
    apply_episode_credits(&mut show.peeps, &eprows);
    score_peeps(&mut show);
    proof {
        assert(peeps_wf(Seq::<PeepModel>::empty()));
        lemma_apply_direct_rows_wf(Seq::empty(), drows.deep_view());
        lemma_apply_episode_rows_wf(
            apply_direct_rows(Seq::empty(), drows.deep_view()),
            eprows.deep_view(),
        );
        lemma_finalize_wf(
            apply_episode_rows(
                apply_direct_rows(Seq::empty(), drows.deep_view()),
                eprows.deep_view(),
            ),
            show@.episodes.len(),
        );
        assert(show@.peeps == finalize_peeps(
            apply_episode_rows(
                apply_direct_rows(Seq::empty(), drows.deep_view()),
                eprows.deep_view(),
            ),
            show@.episodes.len(),
        ));
    }
    Ok(show)
}

} // verus!
