//! Search orchestration: parse root identifiers, hydrate roots,
//! discover candidates through the roots' stylistic personnel, hydrate
//! and score every candidate, and rank the results.

use vstd::prelude::*;

use crate::compare::{ShowAffinity, ShowAffinityModel, score_show_affinity};
use crate::show_tree::{ShowModel, ShowRecord, fetch_show_record, stylistic_ids};
use crate::strutil::{parse_prefixed_spec, parse_prefixed_u64};
use crate::SearchError;

verus! {

/// What a search produces: the ranked candidates, the candidate
/// identifiers skipped because the store had no row for them, and the
/// job strings that carried no weight.
pub struct SearchOutcome {
    pub affinities: Vec<ShowAffinity>,
    pub skipped: Vec<u64>,
    pub ignored_jobs: Vec<String>,
}

/// Candidates ordered by score, best first.
pub open spec fn affinities_sorted(s: Seq<ShowAffinityModel>) -> bool {
    forall|i: int, j: int|
        0 <= i < j < s.len() ==> (#[trigger] s[i]).score >= (#[trigger] s[j]).score
}

/// Stable insertion of a scored candidate: it goes after every
/// candidate with an equal or greater score.
pub open spec fn insert_affinity(
    s: Seq<ShowAffinityModel>,
    a: ShowAffinityModel,
) -> Seq<ShowAffinityModel>
    decreases s.len(),
{
    if s.len() == 0 {
        seq![a]
    } else if a.score > s.last().score {
        insert_affinity(s.drop_last(), a).push(s.last())
    } else {
        s.push(a)
    }
}

/// Scored candidates sorted by score descending, stably.
pub open spec fn sort_affinities(s: Seq<ShowAffinityModel>) -> Seq<ShowAffinityModel>
    decreases s.len(),
{
    if s.len() == 0 {
        Seq::empty()
    } else {
        insert_affinity(sort_affinities(s.drop_last()), s.last())
    }
}

proof fn lemma_insert_affinity_shape(s: Seq<ShowAffinityModel>, a: ShowAffinityModel, pos: int)
    requires
        affinities_sorted(s),
        0 <= pos <= s.len(),
        forall|k: int| 0 <= k < pos ==> (#[trigger] s[k]).score >= a.score,
        forall|k: int| pos <= k < s.len() ==> (#[trigger] s[k]).score < a.score,
    ensures
        insert_affinity(s, a) == s.subrange(0, pos).push(a) + s.subrange(pos, s.len() as int),
        affinities_sorted(insert_affinity(s, a)),
    decreases s.len(),
{
    if s.len() == 0 {
        assert(insert_affinity(s, a) =~= s.subrange(0, pos).push(a) + s.subrange(
            pos,
            s.len() as int,
        ));
    } else if a.score > s.last().score {
        assert(pos < s.len());
        assert(forall|k: int| 0 <= k < s.len() - 1 ==> #[trigger] s.drop_last()[k] == s[k]);
        lemma_insert_affinity_shape(s.drop_last(), a, pos);
        assert(insert_affinity(s, a) =~= s.subrange(0, pos).push(a) + s.subrange(
            pos,
            s.len() as int,
        ));
        let r = insert_affinity(s, a);
        assert forall|i: int, j: int| 0 <= i < j < r.len() implies (#[trigger] r[i]).score
            >= (#[trigger] r[j]).score by {
            let ins = insert_affinity(s.drop_last(), a);
            assert(r == ins.push(s.last()));
            if j < r.len() - 1 {
                assert(ins[i].score >= ins[j].score);
            } else {
                if i < pos {
                    assert(r[i] == s[i]);
                } else if i == pos {
                    assert(r[i] == a);
                } else {
                    assert(r[i] == s[i - 1]);
                }
            }
        }
    } else {
        assert(pos == s.len());
        assert(insert_affinity(s, a) =~= s.subrange(0, pos).push(a) + s.subrange(
            pos,
            s.len() as int,
        ));
    }
}

/// Inserts a scored candidate into a ranked list, keeping it ranked
/// and placing it after equal scores.
fn insert_affinity_exec(out: &mut Vec<ShowAffinity>, a: ShowAffinity)
    requires
        affinities_sorted(old(out).deep_view()),
    ensures
        final(out).deep_view() == insert_affinity(old(out).deep_view(), a@),
        affinities_sorted(final(out).deep_view()),
{
    let ghost s = out.deep_view();
    let n = out.len();
    let mut pos: usize = 0;
    while pos < n && out[pos].score >= a.score
        invariant
            s == out.deep_view(),
            n == out@.len(),
            0 <= pos <= n,
            forall|k: int| 0 <= k < pos ==> (#[trigger] s[k]).score >= a.score,
        decreases n - pos,
    {
        proof {
            assert(s[pos as int] == out@[pos as int].deep_view());
        }
        pos = pos + 1;
    }
    proof {
        assert(forall|k: int|
            pos <= k < n ==> (#[trigger] s[k]).score == out@[k].deep_view().score);
        assert forall|k: int| pos <= k < n implies (#[trigger] s[k]).score < a@.score by {
            if k == pos {
            } else {
                assert(affinities_sorted(s));
                assert(s[pos as int].score >= s[k].score);
            }
        }
        lemma_insert_affinity_shape(s, a@, pos as int);
    }
    out.insert(pos, a);
    proof {
        assert(out.deep_view() =~= s.subrange(0, pos as int).push(a@) + s.subrange(
            pos as int,
            s.len() as int,
        ));
    }
}

/// Insertion adds nothing: every line of the result is the inserted
/// candidate or one of the originals.
proof fn lemma_insert_affinity_membership(s: Seq<ShowAffinityModel>, a: ShowAffinityModel)
    ensures
        forall|k: int|
            0 <= k < insert_affinity(s, a).len() ==> (#[trigger] insert_affinity(s, a)[k]) == a
                || s.contains(insert_affinity(s, a)[k]),
    decreases s.len(),
{
    if s.len() == 0 {
    } else if a.score > s.last().score {
        lemma_insert_affinity_membership(s.drop_last(), a);
        let r = insert_affinity(s, a);
        let ins = insert_affinity(s.drop_last(), a);
        assert forall|k: int| 0 <= k < r.len() implies (#[trigger] r[k]) == a || s.contains(
            r[k],
        ) by {
            assert(r == ins.push(s.last()));
            if k < r.len() - 1 {
                assert(ins[k] == a || s.drop_last().contains(ins[k]));
                if s.drop_last().contains(ins[k]) {
                    let j = choose|j: int|
                        0 <= j < s.drop_last().len() && s.drop_last()[j] == ins[k];
                    assert(s[j] == r[k]);
                }
            } else {
                assert(r[k] == s[s.len() - 1]);
            }
        }
    } else {
        assert forall|k: int| 0 <= k < insert_affinity(s, a).len() implies (
        #[trigger] insert_affinity(s, a)[k]) == a || s.contains(insert_affinity(s, a)[k]) by {
            if k < s.len() {
                assert(insert_affinity(s, a)[k] == s[k]);
            }
        }
    }
}

/// Sorting adds nothing: every line of the result is one of the
/// originals.
proof fn lemma_sort_affinities_membership(s: Seq<ShowAffinityModel>)
    ensures
        forall|k: int|
            0 <= k < sort_affinities(s).len() ==> s.contains(#[trigger] sort_affinities(s)[k]),
    decreases s.len(),
{
    if s.len() > 0 {
        lemma_sort_affinities_membership(s.drop_last());
        lemma_insert_affinity_membership(sort_affinities(s.drop_last()), s.last());
        assert forall|k: int| 0 <= k < sort_affinities(s).len() implies s.contains(
            #[trigger] sort_affinities(s)[k],
        ) by {
            let x = sort_affinities(s)[k];
            if x == s.last() {
                assert(s[s.len() - 1] == x);
            } else {
                assert(sort_affinities(s.drop_last()).contains(x));
                let m = choose|m: int|
                    0 <= m < sort_affinities(s.drop_last()).len() && sort_affinities(
                        s.drop_last(),
                    )[m] == x;
                assert(s.drop_last().contains(x));
                let j = choose|j: int| 0 <= j < s.drop_last().len() && s.drop_last()[j] == x;
                assert(s[j] == x);
            }
        }
    }
}

/// The number of ranked candidates that are reported.
pub const TOP_COUNT: usize = 100;

/// Ranks scored candidates: sorted by score descending (candidates
/// with equal scores keep their order), truncated to the report size.
pub fn rank_affinities(affs: Vec<ShowAffinity>) -> (r: Vec<ShowAffinity>)
    ensures
        r.deep_view() == sort_affinities(affs.deep_view()).take(
            vstd::math::min(sort_affinities(affs.deep_view()).len() as int, TOP_COUNT as int),
        ),
        affinities_sorted(r.deep_view()),
        r@.len() <= TOP_COUNT,
        forall|k: int|
            0 <= k < r.deep_view().len() ==> affs.deep_view().contains(#[trigger] r.deep_view()[k]),
{
    let ghost unsorted = affs.deep_view();
    let mut affs = affs;
    let mut sorted: Vec<ShowAffinity> = Vec::new();
    proof {
        assert(sorted.deep_view() =~= sort_affinities(unsorted.subrange(0, 0)));
        assert(affs.deep_view() =~= unsorted.subrange(0, unsorted.len() as int));
    }
    let total: usize = affs.len();
    let mut taken: usize = 0;
    while affs.len() > 0
        invariant
            unsorted.len() == total,
            taken <= total,
            taken + affs@.len() == unsorted.len(),
            affs.deep_view().len() == affs@.len(),
            affs.deep_view() == unsorted.subrange(taken as int, unsorted.len() as int),
            sorted.deep_view() == sort_affinities(unsorted.subrange(0, taken as int)),
            affinities_sorted(sorted.deep_view()),
        decreases affs@.len(),
    {
        let ghost pre = affs.deep_view();
        let ghost prevw = affs@;
        let a = affs.remove(0);
        proof {
            assert(pre[0] == prevw[0].deep_view());
            assert(pre[0] == unsorted[taken as int]);
            assert(a == prevw[0]);
            assert(a@ == unsorted[taken as int]);
            assert forall|k: int| 0 <= k < affs@.len() implies affs.deep_view()[k]
                == unsorted.subrange(taken + 1, unsorted.len() as int)[k] by {
                assert(affs@[k] == prevw[k + 1]);
                assert(pre[k + 1] == prevw[k + 1].deep_view());
            }
            assert(affs.deep_view() =~= unsorted.subrange(taken + 1, unsorted.len() as int));
            assert(unsorted.subrange(0, taken + 1).drop_last() =~= unsorted.subrange(
                0,
                taken as int,
            ));
            assert(unsorted.subrange(0, taken + 1).last() == unsorted[taken as int]);
        }
        insert_affinity_exec(&mut sorted, a);
        taken = taken + 1;
    }
    proof {
        assert(unsorted.subrange(0, taken as int) =~= unsorted);
    }
    proof {
        lemma_sort_affinities_membership(unsorted);
    }
    let ghost full = sorted.deep_view();
    if sorted.len() > TOP_COUNT {
        sorted.truncate(TOP_COUNT);
        proof {
            assert(sorted.deep_view() =~= full.take(
                vstd::math::min(full.len() as int, TOP_COUNT as int),
            ));
        }
    } else {
        proof {
            assert(sorted.deep_view() =~= full.take(
                vstd::math::min(full.len() as int, TOP_COUNT as int),
            ));
        }
    }
    sorted
}

/// Index of the first root identifier that cannot be parsed, or -1.
pub open spec fn first_unparsed(titles: Seq<Seq<char>>) -> int
    decreases titles.len(),
{
    if titles.len() == 0 {
        -1
    } else if parse_prefixed_spec(titles[0], "tt"@) is None {
        0
    } else {
        let r = first_unparsed(titles.skip(1));
        if r < 0 {
            -1
        } else {
            r + 1
        }
    }
}

pub proof fn lemma_first_unparsed(titles: Seq<Seq<char>>)
    ensures
        first_unparsed(titles) < 0 ==> forall|k: int|
            0 <= k < titles.len() ==> parse_prefixed_spec(#[trigger] titles[k], "tt"@) is Some,
        first_unparsed(titles) >= 0 ==> {
            let r = first_unparsed(titles);
            &&& 0 <= r < titles.len()
            &&& parse_prefixed_spec(titles[r], "tt"@) is None
            &&& forall|k: int|
                0 <= k < r ==> parse_prefixed_spec(#[trigger] titles[k], "tt"@) is Some
        },
    decreases titles.len(),
{
    if titles.len() == 0 {
    } else if parse_prefixed_spec(titles[0], "tt"@) is None {
    } else {
        lemma_first_unparsed(titles.skip(1));
        assert(forall|k: int|
            0 <= k < titles.len() - 1 ==> #[trigger] titles.skip(1)[k] == titles[k + 1]);
        let rs = first_unparsed(titles.skip(1));
        if rs < 0 {
            assert forall|k: int| 0 <= k < titles.len() implies parse_prefixed_spec(
                #[trigger] titles[k],
                "tt"@,
            ) is Some by {
                if k > 0 {
                    assert(parse_prefixed_spec(titles.skip(1)[k - 1], "tt"@) is Some);
                }
            }
        } else {
            assert(parse_prefixed_spec(titles.skip(1)[rs], "tt"@) is None);
            assert forall|k: int| 0 <= k < rs + 1 implies parse_prefixed_spec(
                #[trigger] titles[k],
                "tt"@,
            ) is Some by {
                if k > 0 {
                    assert(parse_prefixed_spec(titles.skip(1)[k - 1], "tt"@) is Some);
                }
            }
        }
    }
}

/// An identifier appended to a list unless it is already present.
pub open spec fn add_unique(s: Seq<u64>, x: u64) -> Seq<u64> {
    if s.contains(x) {
        s
    } else {
        s.push(x)
    }
}

/// Identifiers appended in order, duplicates suppressed.
pub open spec fn add_all_unique(s: Seq<u64>, xs: Seq<u64>) -> Seq<u64>
    decreases xs.len(),
{
    if xs.len() == 0 {
        s
    } else {
        add_unique(add_all_unique(s, xs.drop_last()), xs.last())
    }
}

/// The union, across the root works in order, of the identifiers of
/// their stylistic credits, first occurrence kept.
pub open spec fn stylistic_union(roots: Seq<ShowModel>) -> Seq<u64>
    decreases roots.len(),
{
    if roots.len() == 0 {
        Seq::empty()
    } else {
        add_all_unique(stylistic_union(roots.drop_last()), stylistic_ids(roots.last().peeps))
    }
}

/// Whether a list of identifiers holds the given one.
fn contains_u64(v: &Vec<u64>, x: u64) -> (r: bool)
    ensures
        r == v@.contains(x),
{
    let mut i: usize = 0;
    while i < v.len()
        invariant
            i <= v@.len(),
            forall|k: int| 0 <= k < i ==> v@[k] != x,
        decreases v@.len() - i,
    {
        if v[i] == x {
            return true;
        }
        i = i + 1;
    }
    false
}

/// Appends an identifier unless it is already present.
fn push_unique(v: &mut Vec<u64>, x: u64)
    ensures
        final(v)@ == add_unique(old(v)@, x),
{
    if !contains_u64(v, x) {
        v.push(x);
    }
}

/// The work that owns a possibly-sub-work identifier: the work
/// itself when it has no parent, else its parent.
pub open spec fn owning_work(wid: u64, parent: Option<u64>) -> u64 {
    match parent {
        Some(p) => p,
        None => wid,
    }
}

/// Adds one discovered work to the candidate set: the identifier is
/// resolved to its owning top-level work, root works are dropped, and
/// duplicates are suppressed.
fn add_candidate(cands: &mut Vec<u64>, root_ids: &Vec<u64>, wid: u64, parent: Option<u64>)
    ensures
        final(cands)@ == (if root_ids@.contains(owning_work(wid, parent)) {
            old(cands)@
        } else {
            add_unique(old(cands)@, owning_work(wid, parent))
        }),
{
    let sid = match parent {
        Some(p) => p,
        None => wid,
    };
    if !contains_u64(root_ids, sid) {
        push_unique(cands, sid);
    }
}

/// Lifting set membership from a prefix of a list to the next
/// longer prefix.
proof fn lemma_subrange_contains_step(s: Seq<u64>, i: int)
    requires
        0 <= i < s.len(),
    ensures
        forall|x: u64| s.subrange(0, i).contains(x) ==> #[trigger] s.subrange(0, i + 1).contains(x),
        s.subrange(0, i + 1).contains(s[i]),
{
    assert forall|x: u64| s.subrange(0, i).contains(x) implies #[trigger] s.subrange(
        0,
        i + 1,
    ).contains(x) by {
        let j = choose|j: int| 0 <= j < i && s.subrange(0, i)[j] == x;
        assert(s.subrange(0, i + 1)[j] == x);
    }
    assert(s.subrange(0, i + 1)[i] == s[i]);
}

/// In a duplicate-free list, an element of a proper prefix differs
/// from the element right after the prefix.
proof fn lemma_nodup_fresh(s: Seq<u64>, i: int, x: u64)
    requires
        0 <= i < s.len(),
        forall|k1: int, k2: int| 0 <= k1 < k2 < s.len() ==> s[k1] != s[k2],
        s.subrange(0, i).contains(x),
    ensures
        x != s[i],
{
    let j = choose|j: int| 0 <= j < i && s.subrange(0, i)[j] == x;
    assert(s[j] == x);
}

/// Runs the whole search: parses the root identifiers (any
/// unparsable identifier is reported, naming the first offender,
/// before any store access), hydrates every root (a missing root
/// aborts the run), collects the roots' stylistic personnel,
/// discovers every work those persons are credited on, resolves each
/// to its owning top-level work, drops the roots themselves, hydrates
/// every candidate (a missing candidate is skipped and reported, any
/// other store failure aborts), scores each candidate against the
/// full root set, and ranks the results. No root work and no skipped
/// identifier ever appears among the ranked candidates.
pub fn search(db: &rusqlite::Connection, titles: &Vec<String>) -> (r: Result<
    SearchOutcome,
    SearchError,
>)
    ensures
        ({
            let f = first_unparsed(titles.deep_view());
            f >= 0 ==> match r {
                Err(SearchError::MalformedIdentifier(t)) => t@ == titles.deep_view()[f],
                _ => false,
            }
        }),
        match r {
            Ok(o) => {
                &&& first_unparsed(titles.deep_view()) < 0
                &&& affinities_sorted(o.affinities.deep_view())
                &&& o.affinities@.len() <= TOP_COUNT
                &&& forall|k: int, j: int|
                    0 <= k < o.affinities.deep_view().len() && 0 <= j < titles.deep_view().len()
                        ==> Some((#[trigger] o.affinities.deep_view()[k]).show.id)
                        != parse_prefixed_spec(#[trigger] titles.deep_view()[j], "tt"@)
                &&& forall|k: int, l: int|
                    0 <= k < o.affinities.deep_view().len() && 0 <= l < o.skipped@.len() ==> (
                    #[trigger] o.affinities.deep_view()[k]).show.id != (#[trigger] o.skipped@[l])
                &&& forall|k: int|
                    0 <= k < o.ignored_jobs.deep_view().len() ==> crate::compare::job_weight(
                        #[trigger] o.ignored_jobs.deep_view()[k],
                    ) <= 1
            },
            Err(e) => match e {
                SearchError::MalformedIdentifier(t) => {
                    let f = first_unparsed(titles.deep_view());
                    &&& f >= 0
                    &&& t@ == titles.deep_view()[f]
                },
                _ => true,
            },
        },
{
    let ghost tm = titles.deep_view();
    proof {
        reveal_strlit("tt");
    }
    let mut ids: Vec<u64> = Vec::new();
    let mut i: usize = 0;
    while i < titles.len()
        invariant
            tm == titles.deep_view(),
            i <= titles@.len(),
            ids@.len() == i as int,
            forall|k: int|
                0 <= k < i ==> parse_prefixed_spec(#[trigger] tm[k], "tt"@) == Some(ids@[k]),
            "tt"@.len() > 0,
        decreases titles@.len() - i,
    {
        proof {
            assert(tm[i as int] == titles@[i as int]@);
        }
        match parse_prefixed_u64(titles[i].as_str(), "tt") {
            None => {
                proof {
                    lemma_first_unparsed(tm);
                    assert(parse_prefixed_spec(tm[i as int], "tt"@) is None);
                    assert(forall|k: int|
                        0 <= k < i ==> parse_prefixed_spec(#[trigger] tm[k], "tt"@) is Some);
                    assert(first_unparsed(tm) == i);
                }
                return Err(SearchError::MalformedIdentifier(titles[i].clone()));
            },
            Some(v) => {
                ids.push(v);
            },
        }
        i = i + 1;
    }
    proof {
        lemma_first_unparsed(tm);
        if first_unparsed(tm) >= 0 {
            let f = first_unparsed(tm);
            assert(parse_prefixed_spec(tm[f], "tt"@) == Some(ids@[f]));
            assert(false);
        }
        assert(ids@.len() == tm.len());
    }
    let mut roots: Vec<ShowRecord> = Vec::new();
    let mut i: usize = 0;
    while i < ids.len()
        invariant
            tm == titles.deep_view(),
            first_unparsed(tm) < 0,
            i <= ids@.len(),
        decreases ids@.len() - i,
    {
        match fetch_show_record(db, ids[i]) {
            Ok(rec) => {
                roots.push(rec);
            },
            Err(e) => {
                return Err(e);
            },
        }
        i = i + 1;
    }
    let ghost rootsm = roots.deep_view();
    let mut staff: Vec<u64> = Vec::new();
    proof {
        assert(staff@ =~= stylistic_union(rootsm.subrange(0, 0)));
    }
    let mut i: usize = 0;
    while i < roots.len()
        invariant
            rootsm == roots.deep_view(),
            i <= roots@.len(),
            staff@ == stylistic_union(rootsm.subrange(0, i as int)),
        decreases roots@.len() - i,
    {
        let sp = roots[i].stylistic_peeps();
        let ghost base = staff@;
        proof {
            assert(rootsm[i as int] == roots@[i as int].deep_view());
            assert(sp@ == stylistic_ids(rootsm[i as int].peeps));
            assert(sp@.subrange(0, 0) =~= Seq::<u64>::empty());
        }
        let mut j: usize = 0;
        while j < sp.len()
            invariant
                j <= sp@.len(),
                staff@ == add_all_unique(base, sp@.subrange(0, j as int)),
            decreases sp@.len() - j,
        {
            push_unique(&mut staff, sp[j]);
            proof {
                assert(sp@.subrange(0, j + 1).drop_last() =~= sp@.subrange(0, j as int));
                assert(sp@.subrange(0, j + 1).last() == sp@[j as int]);
            }
            j = j + 1;
        }
        proof {
            assert(sp@.subrange(0, sp@.len() as int) =~= sp@);
            assert(rootsm.subrange(0, i + 1).drop_last() =~= rootsm.subrange(0, i as int));
            assert(rootsm.subrange(0, i + 1).last() == rootsm[i as int]);
        }
        i = i + 1;
    }
    proof {
        assert(rootsm.subrange(0, roots@.len() as int) =~= rootsm);
        assert(staff@ == stylistic_union(rootsm));
    }
    let work_ids = match crate::store::query_personnel_works(db, &staff) {
        Err(_) => {
            return Err(SearchError::StoreUnavailable);
        },
        Ok(v) => v,
    };
    let mut cands: Vec<u64> = Vec::new();
    let mut i: usize = 0;
    while i < work_ids.len()
        invariant
            tm == titles.deep_view(),
            first_unparsed(tm) < 0,
            i <= work_ids@.len(),
            forall|k: int| 0 <= k < cands@.len() ==> !ids@.contains(#[trigger] cands@[k]),
            forall|k1: int, k2: int| 0 <= k1 < k2 < cands@.len() ==> cands@[k1] != cands@[k2],
        decreases work_ids@.len() - i,
    {
        let wid = work_ids[i];
        match crate::store::query_parent(db, wid) {
            Err(_) => {
                return Err(SearchError::StoreUnavailable);
            },
            Ok(None) => {
                return Err(SearchError::WorkNotFound(wid));
            },
            Ok(Some(par)) => {
                add_candidate(&mut cands, &ids, wid, par);
            },
        }
        i = i + 1;
    }
    let mut candidate_shows: Vec<ShowRecord> = Vec::new();
    let mut skipped: Vec<u64> = Vec::new();
    let mut i: usize = 0;
    while i < cands.len()
        invariant
            tm == titles.deep_view(),
            first_unparsed(tm) < 0,
            i <= cands@.len(),
            forall|k: int| 0 <= k < cands@.len() ==> !ids@.contains(#[trigger] cands@[k]),
            forall|k1: int, k2: int| 0 <= k1 < k2 < cands@.len() ==> cands@[k1] != cands@[k2],
            forall|k: int|
                0 <= k < candidate_shows@.len() ==> !ids@.contains(
                    (#[trigger] candidate_shows@[k]).id,
                ),
            forall|k: int|
                0 <= k < candidate_shows@.len() ==> cands@.subrange(0, i as int).contains(
                    (#[trigger] candidate_shows@[k]).id,
                ),
            forall|l: int|
                0 <= l < skipped@.len() ==> cands@.subrange(0, i as int).contains(
                    #[trigger] skipped@[l],
                ),
            forall|k: int, l: int|
                0 <= k < candidate_shows@.len() && 0 <= l < skipped@.len() ==> (
                #[trigger] candidate_shows@[k]).id != (#[trigger] skipped@[l]),
        decreases cands@.len() - i,
    {
        match fetch_show_record(db, cands[i]) {
            Ok(rec) => {
                proof {
                    assert(rec@.id == cands@[i as int]);
                    assert(rec.id == cands@[i as int]);
                    assert forall|l: int| 0 <= l < skipped@.len() implies #[trigger] skipped@[l]
                        != cands@[i as int] by {
                        lemma_nodup_fresh(cands@, i as int, skipped@[l]);
                    }
                    lemma_subrange_contains_step(cands@, i as int);
                }
                candidate_shows.push(rec);
            },
            Err(SearchError::WorkNotFound(w)) => {
                proof {
                    assert(w == cands@[i as int]);
                    assert forall|k: int| 0 <= k < candidate_shows@.len() implies (
                    #[trigger] candidate_shows@[k]).id != cands@[i as int] by {
                        lemma_nodup_fresh(cands@, i as int, candidate_shows@[k].id);
                    }
                    lemma_subrange_contains_step(cands@, i as int);
                }
                skipped.push(w);
            },
            Err(_) => {
                return Err(SearchError::StoreUnavailable);
            },
        }
        i = i + 1;
    }
    let mut ignored: Vec<String> = Vec::new();
    let mut i: usize = 0;
    while i < roots.len()
        invariant
            i <= roots@.len(),
            forall|k: int|
                0 <= k < ignored.deep_view().len() ==> crate::compare::job_weight(
                    #[trigger] ignored.deep_view()[k],
                ) <= 1,
        decreases roots@.len() - i,
    {
        let js = roots[i].ignored_jobs();
        proof {
            assert(js.deep_view() == crate::show_tree::ignored_jobs_model(
                roots@[i as int].deep_view().peeps,
            ));
            crate::show_tree::lemma_ignored_jobs_model_weights(
                roots@[i as int].deep_view().peeps,
            );
        }
        let mut j: usize = 0;
        while j < js.len()
            invariant
                j <= js@.len(),
                forall|k: int|
                    0 <= k < js.deep_view().len() ==> crate::compare::job_weight(
                        #[trigger] js.deep_view()[k],
                    ) <= 1,
                forall|k: int|
                    0 <= k < ignored.deep_view().len() ==> crate::compare::job_weight(
                        #[trigger] ignored.deep_view()[k],
                    ) <= 1,
            decreases js@.len() - j,
        {
            if !crate::show_tree::jobs_contain_exec(&ignored, js[j].as_str()) {
                let jv = js[j].clone();
                let ghost pre = ignored.deep_view();
                ignored.push(jv);
                proof {
                    assert(ignored.deep_view() =~= pre.push(js.deep_view()[j as int]));
                }
            }
            j = j + 1;
        }
        i = i + 1;
    }
    let mut i: usize = 0;
    while i < candidate_shows.len()
        invariant
            i <= candidate_shows@.len(),
            forall|k: int|
                0 <= k < ignored.deep_view().len() ==> crate::compare::job_weight(
                    #[trigger] ignored.deep_view()[k],
                ) <= 1,
        decreases candidate_shows@.len() - i,
    {
        let js = candidate_shows[i].ignored_jobs();
        proof {
            assert(js.deep_view() == crate::show_tree::ignored_jobs_model(
                candidate_shows@[i as int].deep_view().peeps,
            ));
            crate::show_tree::lemma_ignored_jobs_model_weights(
                candidate_shows@[i as int].deep_view().peeps,
            );
        }
        let mut j: usize = 0;
        while j < js.len()
            invariant
                j <= js@.len(),
                forall|k: int|
                    0 <= k < js.deep_view().len() ==> crate::compare::job_weight(
                        #[trigger] js.deep_view()[k],
                    ) <= 1,
                forall|k: int|
                    0 <= k < ignored.deep_view().len() ==> crate::compare::job_weight(
                        #[trigger] ignored.deep_view()[k],
                    ) <= 1,
            decreases js@.len() - j,
        {
            if !crate::show_tree::jobs_contain_exec(&ignored, js[j].as_str()) {
                let jv = js[j].clone();
                let ghost pre = ignored.deep_view();
                ignored.push(jv);
                proof {
                    assert(ignored.deep_view() =~= pre.push(js.deep_view()[j as int]));
                }
            }
            j = j + 1;
        }
        i = i + 1;
    }
    let mut affs: Vec<ShowAffinity> = Vec::new();
    while candidate_shows.len() > 0
        invariant
            forall|k: int|
                0 <= k < candidate_shows@.len() ==> !ids@.contains(
                    (#[trigger] candidate_shows@[k]).id,
                ),
            forall|k: int, l: int|
                0 <= k < candidate_shows@.len() && 0 <= l < skipped@.len() ==> (
                #[trigger] candidate_shows@[k]).id != (#[trigger] skipped@[l]),
            forall|k: int|
                0 <= k < affs.deep_view().len() ==> !ids@.contains(
                    (#[trigger] affs.deep_view()[k]).show.id,
                ),
            forall|k: int, l: int|
                0 <= k < affs.deep_view().len() && 0 <= l < skipped@.len() ==> (
                #[trigger] affs.deep_view()[k]).show.id != (#[trigger] skipped@[l]),
        decreases candidate_shows@.len(),
    {
        let ghost csw = candidate_shows@;
        let c = candidate_shows.remove(0);
        proof {
            assert(c == csw[0]);
            assert(forall|k: int|
                0 <= k < candidate_shows@.len() ==> #[trigger] candidate_shows@[k] == csw[k
                    + 1]);
        }
        let a = score_show_affinity(&roots, c);
        let ghost prea = affs.deep_view();
        affs.push(a);
        proof {
            assert(a@.show.id == csw[0].id);
            assert(forall|k: int|
                0 <= k < prea.len() ==> #[trigger] affs.deep_view()[k] == prea[k]);
            assert(affs.deep_view()[prea.len() as int] == a@);
        }
    }
    let ghost affsm = affs.deep_view();
    let ranked = rank_affinities(affs);
    proof {
        assert forall|k: int, j: int|
            0 <= k < ranked.deep_view().len() && 0 <= j < tm.len() implies Some(
            (#[trigger] ranked.deep_view()[k]).show.id) != parse_prefixed_spec(
            #[trigger] tm[j],
            "tt"@,
        ) by {
            let x = ranked.deep_view()[k];
            assert(affsm.contains(x));
            let m = choose|m: int| 0 <= m < affsm.len() && affsm[m] == x;
            assert(!ids@.contains(x.show.id));
            if parse_prefixed_spec(tm[j], "tt"@) == Some(x.show.id) {
                assert(parse_prefixed_spec(tm[j], "tt"@) == Some(ids@[j]));
                assert(ids@[j] == x.show.id);
                assert(ids@.contains(x.show.id));
            }
        }
        assert forall|k: int, l: int|
            0 <= k < ranked.deep_view().len() && 0 <= l < skipped@.len() implies (
        #[trigger] ranked.deep_view()[k]).show.id != (#[trigger] skipped@[l]) by {
            let x = ranked.deep_view()[k];
            assert(affsm.contains(x));
            let m = choose|m: int| 0 <= m < affsm.len() && affsm[m] == x;
            assert(affsm[m].show.id != skipped@[l]);
        }
    }
    Ok(SearchOutcome { affinities: ranked, skipped: skipped, ignored_jobs: ignored })
}

} // verus!
