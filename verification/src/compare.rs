//! Role classifier: maps free-text job descriptions onto a closed,
//! weighted taxonomy of canonical roles, and picks the best-weighted
//! job out of a credit's job list.

use vstd::prelude::*;

use crate::strutil::{contains_seq, lower_seq, contains_chars, lower_str, lex_le, str_lex_le, lemma_lex_le_total, lemma_lex_le_trans};

verus! {

/// The closed set of canonical roles.
#[derive(Clone, Copy, PartialEq, Eq, Structural, Debug)]
pub enum Role {
    WrittenBy,
    CastingDirector,
    ProductionDesigner,
    Editor,
    Composer,
    Cinematographer,
    Producer,
    BasedOn,
    Director,
    Other,
}

/// Keyword group for the written-by role.
pub open spec fn group_written(s: Seq<char>) -> bool {
    contains_seq(s, "written"@) || contains_seq(s, "script"@) || contains_seq(s, "writer"@)
        || contains_seq(s, "developed"@) || contains_seq(s, "created"@) || contains_seq(
        s,
        "story"@,
    ) || contains_seq(s, "screenplay"@) || contains_seq(s, "writing"@) || contains_seq(
        s,
        "adapted"@,
    ) || contains_seq(s, "devise"@) || contains_seq(s, "idea"@)
}

pub open spec fn group_casting(s: Seq<char>) -> bool {
    contains_seq(s, "casting"@)
}

pub open spec fn group_designer(s: Seq<char>) -> bool {
    contains_seq(s, "designer"@)
}

pub open spec fn group_editor(s: Seq<char>) -> bool {
    contains_seq(s, "editor"@)
}

pub open spec fn group_composer(s: Seq<char>) -> bool {
    contains_seq(s, "composer"@)
}

pub open spec fn group_cinematographer(s: Seq<char>) -> bool {
    contains_seq(s, "cinematographer"@) || contains_seq(s, "photograph"@)
}

pub open spec fn group_producer(s: Seq<char>) -> bool {
    contains_seq(s, "producer"@)
}

pub open spec fn group_based(s: Seq<char>) -> bool {
    contains_seq(s, "based"@) || contains_seq(s, "original"@) || contains_seq(s, "novel"@)
}

pub open spec fn group_director(s: Seq<char>) -> bool {
    contains_seq(s, "director"@) || contains_seq(s, "showrunner"@)
}

/// Classification of a raw job string: case-insensitive substring
/// match against the keyword groups, in a fixed order; the first
/// matching group wins. Case folding is ASCII letter folding — the
/// keyword table is all ASCII, so only an exotic uppercase letter
/// inside a keyword-like word could ever classify differently.
pub open spec fn classify(job: Seq<char>) -> Role {
    let l = lower_seq(job);
    if group_written(l) {
        Role::WrittenBy
    } else if group_casting(l) {
        Role::CastingDirector
    } else if group_designer(l) {
        Role::ProductionDesigner
    } else if group_editor(l) {
        Role::Editor
    } else if group_composer(l) {
        Role::Composer
    } else if group_cinematographer(l) {
        Role::Cinematographer
    } else if group_producer(l) {
        Role::Producer
    } else if group_based(l) {
        Role::BasedOn
    } else if group_director(l) {
        Role::Director
    } else {
        Role::Other
    }
}

/// Whether a lowercased job string matches a role's keyword group.
/// `Other` has no keywords.
pub open spec fn group_matches(r: Role, l: Seq<char>) -> bool {
    match r {
        Role::WrittenBy => group_written(l),
        Role::CastingDirector => group_casting(l),
        Role::ProductionDesigner => group_designer(l),
        Role::Editor => group_editor(l),
        Role::Composer => group_composer(l),
        Role::Cinematographer => group_cinematographer(l),
        Role::Producer => group_producer(l),
        Role::BasedOn => group_based(l),
        Role::Director => group_director(l),
        Role::Other => false,
    }
}

/// The order in which the keyword groups are checked.
pub open spec fn group_rank(r: Role) -> int {
    match r {
        Role::WrittenBy => 0,
        Role::CastingDirector => 1,
        Role::ProductionDesigner => 2,
        Role::Editor => 3,
        Role::Composer => 4,
        Role::Cinematographer => 5,
        Role::Producer => 6,
        Role::BasedOn => 7,
        Role::Director => 8,
        Role::Other => 9,
    }
}

/// Law: the first matching keyword group wins. A raw job string that
/// matches a role's keyword group, and no group checked before it,
/// is classified as that role.
pub proof fn lemma_normalize_first_match(job: Seq<char>, r: Role)
    requires
        r != Role::Other,
        group_matches(r, lower_seq(job)),
        forall|r2: Role| group_rank(r2) < group_rank(r) ==> !group_matches(r2, lower_seq(job)),
    ensures
        classify(job) == r,
{
    let l = lower_seq(job);
    if group_rank(Role::WrittenBy) < group_rank(r) {
        assert(!group_matches(Role::WrittenBy, l));
    }
    if group_rank(Role::CastingDirector) < group_rank(r) {
        assert(!group_matches(Role::CastingDirector, l));
    }
    if group_rank(Role::ProductionDesigner) < group_rank(r) {
        assert(!group_matches(Role::ProductionDesigner, l));
    }
    if group_rank(Role::Editor) < group_rank(r) {
        assert(!group_matches(Role::Editor, l));
    }
    if group_rank(Role::Composer) < group_rank(r) {
        assert(!group_matches(Role::Composer, l));
    }
    if group_rank(Role::Cinematographer) < group_rank(r) {
        assert(!group_matches(Role::Cinematographer, l));
    }
    if group_rank(Role::Producer) < group_rank(r) {
        assert(!group_matches(Role::Producer, l));
    }
    if group_rank(Role::BasedOn) < group_rank(r) {
        assert(!group_matches(Role::BasedOn, l));
    }
}

/// Importance weight of a canonical role. `Other` carries the minimum
/// weight 1.
pub open spec fn role_weight(r: Role) -> u64 {
    match r {
        Role::Cinematographer => 60,
        Role::Composer => 60,
        Role::Director => 50,
        Role::WrittenBy => 40,
        Role::ProductionDesigner => 30,
        Role::Editor => 20,
        Role::BasedOn => 20,
        Role::Producer => 20,
        Role::CastingDirector => 10,
        Role::Other => 1,
    }
}

/// Weight of a raw job string: the weight of its canonical role.
pub open spec fn job_weight(job: Seq<char>) -> u64 {
    role_weight(classify(job))
}

/// Display name of a canonical role; an unmatched job keeps its raw
/// string.
pub open spec fn normalize_spec(job: Seq<char>) -> Seq<char> {
    match classify(job) {
        Role::WrittenBy => "written by"@,
        Role::CastingDirector => "casting_director"@,
        Role::ProductionDesigner => "production_designer"@,
        Role::Editor => "editor"@,
        Role::Composer => "composer"@,
        Role::Cinematographer => "cinematographer"@,
        Role::Producer => "producer"@,
        Role::BasedOn => "based on"@,
        Role::Director => "director"@,
        Role::Other => job,
    }
}

/// Classifies a raw job string into its canonical role.
pub fn classify_job(role: &str) -> (r: Role)
    ensures
        r == classify(role@),
{
    let l = lower_str(role);
    if contains_chars(&l, "written") || contains_chars(&l, "script") || contains_chars(
        &l,
        "writer",
    ) || contains_chars(&l, "developed") || contains_chars(&l, "created") || contains_chars(
        &l,
        "story",
    ) || contains_chars(&l, "screenplay") || contains_chars(&l, "writing") || contains_chars(
        &l,
        "adapted",
    ) || contains_chars(&l, "devise") || contains_chars(&l, "idea") {
        Role::WrittenBy
    } else if contains_chars(&l, "casting") {
        Role::CastingDirector
    } else if contains_chars(&l, "designer") {
        Role::ProductionDesigner
    } else if contains_chars(&l, "editor") {
        Role::Editor
    } else if contains_chars(&l, "composer") {
        Role::Composer
    } else if contains_chars(&l, "cinematographer") || contains_chars(&l, "photograph") {
        Role::Cinematographer
    } else if contains_chars(&l, "producer") {
        Role::Producer
    } else if contains_chars(&l, "based") || contains_chars(&l, "original") || contains_chars(
        &l,
        "novel",
    ) {
        Role::BasedOn
    } else if contains_chars(&l, "director") || contains_chars(&l, "showrunner") {
        Role::Director
    } else {
        Role::Other
    }
}

/// Canonical display form of a raw job string.
pub fn normalize_job(role: &str) -> (r: &str)
    ensures
        r@ == normalize_spec(role@),
{
    match classify_job(role) {
        Role::WrittenBy => "written by",
        Role::CastingDirector => "casting_director",
        Role::ProductionDesigner => "production_designer",
        Role::Editor => "editor",
        Role::Composer => "composer",
        Role::Cinematographer => "cinematographer",
        Role::Producer => "producer",
        Role::BasedOn => "based on",
        Role::Director => "director",
        Role::Other => role,
    }
}

/// Importance weight of a raw job string.
pub fn job_buff(role: &str) -> (r: u64)
    ensures
        r == job_weight(role@),
{
    match classify_job(role) {
        Role::Cinematographer => 60,
        Role::Composer => 60,
        Role::Director => 50,
        Role::WrittenBy => 40,
        Role::ProductionDesigner => 30,
        Role::Editor => 20,
        Role::BasedOn => 20,
        Role::Producer => 20,
        Role::CastingDirector => 10,
        Role::Other => 1,
    }
}

/// Index of the best-weighted job in a job list: a strictly greater
/// weight displaces the current best, an equal weight never does, so
/// the first of the best-weighted jobs is kept.
pub open spec fn best_idx(jobs: Seq<Seq<char>>) -> int
    decreases jobs.len(),
{
    if jobs.len() <= 1 {
        0
    } else {
        let p = best_idx(jobs.drop_last());
        if job_weight(jobs.last()) > job_weight(jobs[p]) {
            jobs.len() - 1
        } else {
            p
        }
    }
}

/// The job list's best-weighted job (ties keep the earlier job).
pub fn best_job(roles: &Vec<String>) -> (r: &String)
    requires
        roles@.len() > 0,
    ensures
        r == roles@[best_idx(roles.deep_view())],
        0 <= best_idx(roles.deep_view()) < roles@.len(),
{
    let ghost jobs = roles.deep_view();
    let mut best: usize = 0;
    let mut best_w: u64 = job_buff(roles[0].as_str());
    let mut i: usize = 1;
    while i < roles.len()
        invariant
            roles@.len() > 0,
            jobs == roles.deep_view(),
            1 <= i <= roles@.len(),
            best == best_idx(jobs.subrange(0, i as int)),
            0 <= best < i,
            best_w == job_weight(jobs[best as int]),
        decreases roles@.len() - i,
    {
        let w = job_buff(roles[i].as_str());
        proof {
            assert(jobs.subrange(0, i + 1).drop_last() =~= jobs.subrange(0, i as int));
            assert(jobs[i as int] == roles@[i as int]@);
        }
        if w > best_w {
            best = i;
            best_w = w;
        }
        i = i + 1;
    }
    proof {
        assert(jobs.subrange(0, roles@.len() as int) =~= jobs);
    }
    &roles[best]
}

/// One overlapping person in an affinity result, with everything the
/// report needs: who, the jobs and episode fractions on both sides,
/// and the widths of the two overlap bars.
pub struct AffinityCredit {
    pub person_id: u64,
    pub name: String,
    pub root_title: String,
    pub root_jobs: Vec<String>,
    pub root_episode_count: usize,
    pub root_episode_total: usize,
    pub candidate_jobs: Vec<String>,
    pub candidate_episode_count: usize,
    pub candidate_episode_total: usize,
    pub bar_left: usize,
    pub bar_right: usize,
}

/// Mathematical model of an overlap line.
pub ghost struct AffinityCreditModel {
    pub person_id: u64,
    pub name: Seq<char>,
    pub root_title: Seq<char>,
    pub root_jobs: Seq<Seq<char>>,
    pub root_episode_count: nat,
    pub root_episode_total: nat,
    pub candidate_jobs: Seq<Seq<char>>,
    pub candidate_episode_count: nat,
    pub candidate_episode_total: nat,
    pub bar_left: int,
    pub bar_right: int,
}

impl View for AffinityCredit {
    type V = AffinityCreditModel;

    open spec fn view(&self) -> AffinityCreditModel {
        AffinityCreditModel {
            person_id: self.person_id,
            name: self.name@,
            root_title: self.root_title@,
            root_jobs: self.root_jobs.deep_view(),
            root_episode_count: self.root_episode_count as nat,
            root_episode_total: self.root_episode_total as nat,
            candidate_jobs: self.candidate_jobs.deep_view(),
            candidate_episode_count: self.candidate_episode_count as nat,
            candidate_episode_total: self.candidate_episode_total as nat,
            bar_left: self.bar_left as int,
            bar_right: self.bar_right as int,
        }
    }
}

impl DeepView for AffinityCredit {
    type V = AffinityCreditModel;

    open spec fn deep_view(&self) -> AffinityCreditModel {
        self.view()
    }
}

/// A scored candidate: the candidate's record, the scalar affinity
/// score, and one overlap line per shared person per root work.
pub struct ShowAffinity {
    pub show: crate::show_tree::ShowRecord,
    pub score: u128,
    pub credits: Vec<AffinityCredit>,
}

/// Mathematical model of a scored candidate.
pub ghost struct ShowAffinityModel {
    pub show: crate::show_tree::ShowModel,
    pub score: u128,
    pub credits: Seq<AffinityCreditModel>,
}

impl View for ShowAffinity {
    type V = ShowAffinityModel;

    open spec fn view(&self) -> ShowAffinityModel {
        ShowAffinityModel { show: self.show@, score: self.score, credits: self.credits.deep_view() }
    }
}

impl DeepView for ShowAffinity {
    type V = ShowAffinityModel;

    open spec fn deep_view(&self) -> ShowAffinityModel {
        self.view()
    }
}

/// An episode count used as a bar denominator or numerator is clamped
/// to 10 when it is 0, keeping the bar width stable and the division
/// meaningful.
pub open spec fn clamp_eps(x: nat) -> int {
    if x == 0 {
        10
    } else {
        x as int
    }
}

/// Width of a 10-character overlap bar: the credited fraction of the
/// sub-works, rounded up to the next character, capped at 10.
pub open spec fn bar_chars(peep: nat, eps: nat) -> int {
    vstd::math::min(10, (10 * clamp_eps(peep) + clamp_eps(eps) - 1) / clamp_eps(eps))
}

/// Widths of the two sides of an overlap bar: left the root side,
/// right the candidate side.
pub fn calc_overlap_bar(l_eps: usize, l_peep_eps: usize, r_eps: usize, r_peep_eps: usize) -> (r: (
    usize,
    usize,
))
    ensures
        r.0 == bar_chars(l_peep_eps as nat, l_eps as nat),
        r.1 == bar_chars(r_peep_eps as nat, r_eps as nat),
        0 <= r.0 <= 10,
        0 <= r.1 <= 10,
{
    let le: u128 = if l_eps == 0 {
        10
    } else {
        l_eps as u128
    };
    let lp: u128 = if l_peep_eps == 0 {
        10
    } else {
        l_peep_eps as u128
    };
    let re: u128 = if r_eps == 0 {
        10
    } else {
        r_eps as u128
    };
    let rp: u128 = if r_peep_eps == 0 {
        10
    } else {
        r_peep_eps as u128
    };
    let lceil: u128 = (10 * lp + le - 1) / le;
    let l: usize = if lceil < 10 {
        lceil as usize
    } else {
        10
    };
    let rceil: u128 = (10 * rp + re - 1) / re;
    let rr: usize = if rceil < 10 {
        rceil as usize
    } else {
        10
    };
    proof {
        vstd::arithmetic::div_mod::lemma_div_pos_is_pos(
            10 * clamp_eps(l_peep_eps as nat) + clamp_eps(l_eps as nat) - 1,
            clamp_eps(l_eps as nat),
        );
        vstd::arithmetic::div_mod::lemma_div_pos_is_pos(
            10 * clamp_eps(r_peep_eps as nat) + clamp_eps(r_eps as nat) - 1,
            clamp_eps(r_eps as nat),
        );
    }
    (l, rr)
}

/// The overlap line for one root-side credit against the candidate.
pub open spec fn credit_model(
    root: crate::show_tree::ShowModel,
    rp: crate::show_tree::PeepModel,
    cp: crate::show_tree::PeepModel,
    cand: crate::show_tree::ShowModel,
) -> AffinityCreditModel {
    AffinityCreditModel {
        person_id: rp.id,
        name: rp.name,
        root_title: root.title,
        root_jobs: rp.jobs,
        root_episode_count: rp.episode_count,
        root_episode_total: root.episodes.len(),
        candidate_jobs: cp.jobs,
        candidate_episode_count: cp.episode_count,
        candidate_episode_total: cand.episodes.len(),
        bar_left: bar_chars(rp.episode_count, root.episodes.len()),
        bar_right: bar_chars(cp.episode_count, cand.episodes.len()),
    }
}

/// What one root-side credit contributes to the score: the product of
/// the two scores when the person is also credited on the candidate,
/// else nothing.
pub open spec fn peep_pair_score(
    rp: crate::show_tree::PeepModel,
    cand_peeps: Seq<crate::show_tree::PeepModel>,
) -> nat {
    let j = crate::show_tree::find_peep(cand_peeps, rp.id);
    if j >= 0 {
        (rp.score * cand_peeps[j].score) as nat
    } else {
        0
    }
}

/// Score contribution of one root work: the sum over its credits.
pub open spec fn root_score(
    peeps: Seq<crate::show_tree::PeepModel>,
    cand_peeps: Seq<crate::show_tree::PeepModel>,
) -> nat
    decreases peeps.len(),
{
    if peeps.len() == 0 {
        0
    } else {
        root_score(peeps.drop_last(), cand_peeps) + peep_pair_score(peeps.last(), cand_peeps)
    }
}

/// The affinity score: every shared person on every root work
/// contributes independently and additively.
pub open spec fn affinity_score(
    roots: Seq<crate::show_tree::ShowModel>,
    cand_peeps: Seq<crate::show_tree::PeepModel>,
) -> nat
    decreases roots.len(),
{
    if roots.len() == 0 {
        0
    } else {
        affinity_score(roots.drop_last(), cand_peeps) + root_score(
            roots.last().peeps,
            cand_peeps,
        )
    }
}

/// Law: scoring additivity over credits — what one root work
/// contributes is the sum of its credits' contributions, so unrelated
/// persons' scores sum independently.
pub proof fn lemma_root_score_additive(
    peeps1: Seq<crate::show_tree::PeepModel>,
    peeps2: Seq<crate::show_tree::PeepModel>,
    cand_peeps: Seq<crate::show_tree::PeepModel>,
)
    ensures
        root_score(peeps1 + peeps2, cand_peeps) == root_score(peeps1, cand_peeps) + root_score(
            peeps2,
            cand_peeps,
        ),
    decreases peeps2.len(),
{
    if peeps2.len() == 0 {
        assert(peeps1 + peeps2 =~= peeps1);
    } else {
        lemma_root_score_additive(peeps1, peeps2.drop_last(), cand_peeps);
        assert((peeps1 + peeps2).drop_last() =~= peeps1 + peeps2.drop_last());
        assert((peeps1 + peeps2).last() == peeps2.last());
    }
}

/// Law: scoring additivity over root works — the affinity score
/// against a concatenation of root sets is the sum of the scores
/// against each, so every root work crediting a shared person
/// contributes independently and additively.
pub proof fn lemma_affinity_additive(
    roots1: Seq<crate::show_tree::ShowModel>,
    roots2: Seq<crate::show_tree::ShowModel>,
    cand_peeps: Seq<crate::show_tree::PeepModel>,
)
    ensures
        affinity_score(roots1 + roots2, cand_peeps) == affinity_score(roots1, cand_peeps)
            + affinity_score(roots2, cand_peeps),
    decreases roots2.len(),
{
    if roots2.len() == 0 {
        assert(roots1 + roots2 =~= roots1);
    } else {
        lemma_affinity_additive(roots1, roots2.drop_last(), cand_peeps);
        assert((roots1 + roots2).drop_last() =~= roots1 + roots2.drop_last());
        assert((roots1 + roots2).last() == roots2.last());
    }
}

/// A mathematical score clamped into a machine word.
pub open spec fn sat_u128(x: nat) -> u128 {
    if x > u128::MAX {
        u128::MAX
    } else {
        x as u128
    }
}

/// The overlap lines of one root work against the candidate, in
/// credit order.
pub open spec fn root_credits(
    root: crate::show_tree::ShowModel,
    peeps: Seq<crate::show_tree::PeepModel>,
    cand: crate::show_tree::ShowModel,
) -> Seq<AffinityCreditModel>
    decreases peeps.len(),
{
    if peeps.len() == 0 {
        Seq::empty()
    } else {
        let pre = root_credits(root, peeps.drop_last(), cand);
        let j = crate::show_tree::find_peep(cand.peeps, peeps.last().id);
        if j >= 0 {
            pre.push(credit_model(root, peeps.last(), cand.peeps[j], cand))
        } else {
            pre
        }
    }
}

/// All overlap lines, root works in order.
pub open spec fn all_credits(
    roots: Seq<crate::show_tree::ShowModel>,
    cand: crate::show_tree::ShowModel,
) -> Seq<AffinityCreditModel>
    decreases roots.len(),
{
    if roots.len() == 0 {
        Seq::empty()
    } else {
        all_credits(roots.drop_last(), cand) + root_credits(
            roots.last(),
            roots.last().peeps,
            cand,
        )
    }
}

/// Overlap lines ordered by the person's display name.
pub open spec fn credits_sorted(s: Seq<AffinityCreditModel>) -> bool {
    forall|i: int, j: int|
        0 <= i < j < s.len() ==> lex_le((#[trigger] s[i]).name, (#[trigger] s[j]).name)
}

/// Stable insertion of an overlap line: it goes after every line with
/// an equal or smaller name.
pub open spec fn insert_credit(
    s: Seq<AffinityCreditModel>,
    c: AffinityCreditModel,
) -> Seq<AffinityCreditModel>
    decreases s.len(),
{
    if s.len() == 0 {
        seq![c]
    } else if !lex_le(s.last().name, c.name) {
        insert_credit(s.drop_last(), c).push(s.last())
    } else {
        s.push(c)
    }
}

/// Overlap lines sorted by the person's display name, stably.
pub open spec fn sort_credits(s: Seq<AffinityCreditModel>) -> Seq<AffinityCreditModel>
    decreases s.len(),
{
    if s.len() == 0 {
        Seq::empty()
    } else {
        insert_credit(sort_credits(s.drop_last()), s.last())
    }
}

proof fn lemma_insert_credit_shape(s: Seq<AffinityCreditModel>, c: AffinityCreditModel, pos: int)
    requires
        credits_sorted(s),
        0 <= pos <= s.len(),
        forall|k: int| 0 <= k < pos ==> lex_le((#[trigger] s[k]).name, c.name),
        forall|k: int| pos <= k < s.len() ==> !lex_le((#[trigger] s[k]).name, c.name),
    ensures
        insert_credit(s, c) == s.subrange(0, pos).push(c) + s.subrange(pos, s.len() as int),
        credits_sorted(insert_credit(s, c)),
    decreases s.len(),
{
    if s.len() == 0 {
        assert(insert_credit(s, c) =~= s.subrange(0, pos).push(c) + s.subrange(
            pos,
            s.len() as int,
        ));
    } else if !lex_le(s.last().name, c.name) {
        assert(pos < s.len());
        assert(forall|k: int|
            0 <= k < s.len() - 1 ==> #[trigger] s.drop_last()[k] == s[k]);
        lemma_insert_credit_shape(s.drop_last(), c, pos);
        assert(insert_credit(s, c) =~= s.subrange(0, pos).push(c) + s.subrange(
            pos,
            s.len() as int,
        ));
        let r = insert_credit(s, c);
        assert forall|i: int, j: int| 0 <= i < j < r.len() implies lex_le(
            (#[trigger] r[i]).name,
            (#[trigger] r[j]).name,
        ) by {
            let ins = insert_credit(s.drop_last(), c);
            assert(r == ins.push(s.last()));
            if j < r.len() - 1 {
                assert(lex_le(ins[i].name, ins[j].name));
            } else {
                if i < pos {
                    assert(r[i] == s[i]);
                    assert(lex_le(s[i].name, s[s.len() - 1].name));
                } else if i == pos {
                    assert(r[i] == c);
                    lemma_lex_le_total(s.last().name, c.name);
                    assert(lex_le(c.name, s.last().name));
                } else {
                    assert(r[i] == s[i - 1]);
                    assert(lex_le(s[i - 1].name, s[s.len() - 1].name));
                }
            }
        }
    } else {
        if pos < s.len() {
            assert(!lex_le(s[s.len() - 1].name, c.name));
            assert(false);
        }
        assert(pos == s.len());
        assert(insert_credit(s, c) =~= s.subrange(0, pos).push(c) + s.subrange(
            pos,
            s.len() as int,
        ));
    }
}

/// Inserts an overlap line into a name-sorted list, keeping it sorted
/// and placing it after equal names.
fn insert_credit_exec(out: &mut Vec<AffinityCredit>, c: AffinityCredit)
    requires
        credits_sorted(old(out).deep_view()),
    ensures
        final(out).deep_view() == insert_credit(old(out).deep_view(), c@),
        credits_sorted(final(out).deep_view()),
{
    let ghost s = out.deep_view();
    let n = out.len();
    let mut pos: usize = 0;
    while pos < n && str_lex_le(out[pos].name.as_str(), c.name.as_str())
        invariant
            s == out.deep_view(),
            n == out@.len(),
            0 <= pos <= n,
            forall|k: int| 0 <= k < pos ==> lex_le((#[trigger] s[k]).name, c@.name),
        decreases n - pos,
    {
        proof {
            assert(s[pos as int] == out@[pos as int].deep_view());
        }
        pos = pos + 1;
    }
    proof {
        assert(forall|k: int|
            pos <= k < n ==> (#[trigger] s[k]).name == out@[k].deep_view().name);
        assert forall|k: int| pos <= k < n implies !lex_le((#[trigger] s[k]).name, c@.name) by {
            if k == pos {
                assert(s[pos as int].name == out@[pos as int].deep_view().name);
            } else {
                assert(credits_sorted(s));
                assert(lex_le(s[pos as int].name, s[k].name));
                if lex_le(s[k].name, c@.name) {
                    lemma_lex_le_trans(s[pos as int].name, s[k].name, c@.name);
                }
            }
        }
        lemma_insert_credit_shape(s, c@, pos as int);
    }
    out.insert(pos, c);
    proof {
        assert(out.deep_view() =~= s.subrange(0, pos as int).push(c@) + s.subrange(
            pos as int,
            s.len() as int,
        ));
    }
}

/// A fresh copy of a job list.
fn clone_jobs(v: &Vec<String>) -> (r: Vec<String>)
    ensures
        r.deep_view() == v.deep_view(),
{
    let mut r: Vec<String> = Vec::new();
    let mut i: usize = 0;
    while i < v.len()
        invariant
            i <= v@.len(),
            r@.len() == i,
            r.deep_view() =~= v.deep_view().subrange(0, i as int),
        decreases v@.len() - i,
    {
        let sv = v[i].clone();
        r.push(sv);
        proof {
            assert(r@[i as int] == v@[i as int]);
            assert(r.deep_view() =~= v.deep_view().subrange(0, i + 1));
        }
        i = i + 1;
    }
    proof {
        assert(v.deep_view().subrange(0, v@.len() as int) =~= v.deep_view());
    }
    r
}

/// Scores one candidate against the root works. The affinity score is
/// the sum, over every root work and every person shared between that
/// root and the candidate, of the product of the two credit scores —
/// no deduplication or diminishing returns across roots or repeated
/// persons — clamped into a `u128`. One overlap line is kept per
/// shared person per root, sorted by the person's display name (the
/// deterministic order the report uses).
pub fn score_show_affinity(
    root_shows: &Vec<crate::show_tree::ShowRecord>,
    candidate_show: crate::show_tree::ShowRecord,
) -> (r: ShowAffinity)
    ensures
        r.show == candidate_show,
        r.score == sat_u128(affinity_score(root_shows.deep_view(), candidate_show@.peeps)),
        r.credits.deep_view() == sort_credits(
            all_credits(root_shows.deep_view(), candidate_show@),
        ),
        credits_sorted(r.credits.deep_view()),
{
    let ghost rootsm = root_shows.deep_view();
    let ghost candm = candidate_show@;
    let cand_eps = candidate_show.episodes.len();
    let mut score: u128 = 0;
    let mut credits: Vec<AffinityCredit> = Vec::new();
    let nroots = root_shows.len();
    let mut ri: usize = 0;
    proof {
        assert(credits.deep_view() =~= all_credits(rootsm.subrange(0, 0), candm));
    }
    while ri < nroots
        invariant
            rootsm == root_shows.deep_view(),
            candm == candidate_show@,
            cand_eps == candm.episodes.len(),
            nroots == root_shows@.len(),
            ri <= nroots,
            score == sat_u128(affinity_score(rootsm.subrange(0, ri as int), candm.peeps)),
            credits.deep_view() == all_credits(rootsm.subrange(0, ri as int), candm),
        decreases nroots - ri,
    {
        let root = &root_shows[ri];
        let ghost rootm = rootsm[ri as int];
        proof {
            assert(rootm == root_shows@[ri as int].deep_view());
        }
        let root_eps = root.episodes.len();
        let npeeps = root.peeps.len();
        let mut pi: usize = 0;
        proof {
            assert(rootm.peeps.subrange(0, 0) =~= Seq::<crate::show_tree::PeepModel>::empty());
            assert(credits.deep_view() =~= all_credits(rootsm.subrange(0, ri as int), candm)
                + root_credits(rootm, rootm.peeps.subrange(0, 0), candm));
        }
        while pi < npeeps
            invariant
                rootsm == root_shows.deep_view(),
                candm == candidate_show@,
                cand_eps == candm.episodes.len(),
                nroots == root_shows@.len(),
                ri < nroots,
                rootm == rootsm[ri as int],
                rootm == root_shows@[ri as int].deep_view(),
                root == root_shows@[ri as int],
                root_eps == rootm.episodes.len(),
                npeeps == rootm.peeps.len(),
                pi <= npeeps,
                score == sat_u128(
                    affinity_score(rootsm.subrange(0, ri as int), candm.peeps) + root_score(
                        rootm.peeps.subrange(0, pi as int),
                        candm.peeps,
                    ),
                ),
                credits.deep_view() == all_credits(rootsm.subrange(0, ri as int), candm)
                    + root_credits(rootm, rootm.peeps.subrange(0, pi as int), candm),
            decreases npeeps - pi,
        {
            let rp = &root.peeps[pi];
            proof {
                assert(rootm.peeps[pi as int] == root.peeps@[pi as int].deep_view());
            }
            let ghost rpm = rootm.peeps[pi as int];
            let ghost presum = affinity_score(rootsm.subrange(0, ri as int), candm.peeps)
                + root_score(rootm.peeps.subrange(0, pi as int), candm.peeps);
            match crate::show_tree::find_peep_idx(&candidate_show.peeps, rp.id) {
                None => {
                    proof {
                        assert(peep_pair_score(rpm, candm.peeps) == 0);
                    }
                },
                Some(j) => {
                    let cp = &candidate_show.peeps[j];
                    proof {
                        assert(candm.peeps[j as int] == candidate_show.peeps@[
                            j as int].deep_view());
                        assert((rp.score as int) * (cp.score as int) <= (u64::MAX as int) * (
                        u64::MAX as int)) by (nonlinear_arith)
                            requires
                                0 <= rp.score <= u64::MAX,
                                0 <= cp.score <= u64::MAX,
                        ;
                    }
                    let term: u128 = (rp.score as u128) * (cp.score as u128);
                    proof {
                        assert(term == peep_pair_score(rpm, candm.peeps));
                    }
                    if score <= u128::MAX - term {
                        score = score + term;
                    } else {
                        score = u128::MAX;
                    }
                    let bars = calc_overlap_bar(
                        root_eps,
                        rp.episode_count,
                        cand_eps,
                        cp.episode_count,
                    );
                    let c = AffinityCredit {
                        person_id: rp.id,
                        name: rp.name.clone(),
                        root_title: root.title.clone(),
                        root_jobs: clone_jobs(&rp.jobs),
                        root_episode_count: rp.episode_count,
                        root_episode_total: root_eps,
                        candidate_jobs: clone_jobs(&cp.jobs),
                        candidate_episode_count: cp.episode_count,
                        candidate_episode_total: cand_eps,
                        bar_left: bars.0,
                        bar_right: bars.1,
                    };
                    proof {
                        assert(c@ == credit_model(rootm, rpm, candm.peeps[
                            crate::show_tree::find_peep(candm.peeps, rpm.id)], candm));
                    }
                    let ghost precredits = credits.deep_view();
                    credits.push(c);
                    proof {
                        assert(credits.deep_view() =~= precredits.push(credit_model(rootm, rpm,
                            candm.peeps[crate::show_tree::find_peep(candm.peeps, rpm.id)],
                            candm)));
                    }
                },
            }
            proof {
                assert(rootm.peeps.subrange(0, pi + 1).drop_last() =~= rootm.peeps.subrange(
                    0,
                    pi as int,
                ));
                assert(rootm.peeps.subrange(0, pi + 1).last() == rootm.peeps[pi as int]);
                assert(root_score(rootm.peeps.subrange(0, pi + 1), candm.peeps) == root_score(
                    rootm.peeps.subrange(0, pi as int),
                    candm.peeps,
                ) + peep_pair_score(rpm, candm.peeps));
                let j = crate::show_tree::find_peep(candm.peeps, rpm.id);
                let prev = all_credits(rootsm.subrange(0, ri as int), candm) + root_credits(
                    rootm,
                    rootm.peeps.subrange(0, pi as int),
                    candm,
                );
                if j >= 0 {
                    assert(root_credits(rootm, rootm.peeps.subrange(0, pi + 1), candm)
                        == root_credits(rootm, rootm.peeps.subrange(0, pi as int), candm).push(
                        credit_model(rootm, rpm, candm.peeps[j], candm)));
                    assert(all_credits(rootsm.subrange(0, ri as int), candm) + root_credits(
                        rootm,
                        rootm.peeps.subrange(0, pi + 1),
                        candm,
                    ) =~= prev.push(credit_model(rootm, rpm, candm.peeps[j], candm)));
                } else {
                    assert(root_credits(rootm, rootm.peeps.subrange(0, pi + 1), candm)
                        == root_credits(rootm, rootm.peeps.subrange(0, pi as int), candm));
                }
                assert(credits.deep_view() == all_credits(rootsm.subrange(0, ri as int), candm)
                    + root_credits(rootm, rootm.peeps.subrange(0, pi + 1), candm));
            }
            pi = pi + 1;
        }
        proof {
            assert(rootm.peeps.subrange(0, npeeps as int) =~= rootm.peeps);
            assert(rootsm.subrange(0, ri + 1).drop_last() =~= rootsm.subrange(0, ri as int));
            assert(rootsm.subrange(0, ri + 1).last() == rootsm[ri as int]);
        }
        ri = ri + 1;
    }
    proof {
        assert(rootsm.subrange(0, nroots as int) =~= rootsm);
    }
    let ghost unsorted = credits.deep_view();
    let mut sorted: Vec<AffinityCredit> = Vec::new();
    proof {
        assert(sorted.deep_view() =~= sort_credits(unsorted.subrange(0, 0)));
        assert(credits_sorted(sorted.deep_view()));
    }
    let total: usize = credits.len();
    proof {
        assert(credits.deep_view() =~= unsorted.subrange(0, unsorted.len() as int));
    }
    let mut taken: usize = 0;
    while credits.len() > 0
        invariant
            unsorted.len() == total,
            taken <= total,
            taken + credits@.len() == unsorted.len(),
            credits.deep_view().len() == credits@.len(),
            credits.deep_view() == unsorted.subrange(taken as int, unsorted.len() as int),
            sorted.deep_view() == sort_credits(unsorted.subrange(0, taken as int)),
            credits_sorted(sorted.deep_view()),
        decreases credits@.len(),
    {
        let ghost pre = credits.deep_view();
        let ghost prevw = credits@;
        let c = credits.remove(0);
        proof {
            assert(pre[0] == prevw[0].deep_view());
            assert(pre[0] == unsorted[taken as int]);
            assert(c == prevw[0]);
            assert(c@ == unsorted[taken as int]);
            assert forall|k: int| 0 <= k < credits@.len() implies credits.deep_view()[k]
                == unsorted.subrange(taken + 1, unsorted.len() as int)[k] by {
                assert(credits@[k] == prevw[k + 1]);
                assert(pre[k + 1] == prevw[k + 1].deep_view());
            }
            assert(credits.deep_view() =~= unsorted.subrange(taken + 1, unsorted.len() as int));
            assert(unsorted.subrange(0, taken + 1).drop_last() =~= unsorted.subrange(
                0,
                taken as int,
            ));
            assert(unsorted.subrange(0, taken + 1).last() == unsorted[taken as int]);
        }
        insert_credit_exec(&mut sorted, c);
        taken = taken + 1;
    }
    proof {
        assert(unsorted.subrange(0, taken as int) =~= unsorted);
    }
    ShowAffinity { show: candidate_show, score: score, credits: sorted }
}

} // verus!
