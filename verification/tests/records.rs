use caterer::compare::score_show_affinity;
use caterer::show_tree::{
    apply_direct_credits, apply_episode_credits, score_peeps, CreditRow, ShowPeepRecord,
    ShowRecord,
};

fn empty_show(id: u64) -> ShowRecord {
    ShowRecord {
        id,
        title: format!("work {}", id),
        start_year: "2001".to_string(),
        title_type: "tvSeries".to_string(),
        genres: "Drama".to_string(),
        rating: None,
        peeps: Vec::new(),
        episodes: Vec::new(),
    }
}

fn row(peep_id: u64, category: &str, job: &str, name: &str) -> CreditRow {
    CreditRow {
        peep_id,
        category: category.to_string(),
        job: job.to_string(),
        name: name.to_string(),
    }
}

#[test]
fn direct_credits_merge_and_dedup() {
    let mut peeps: Vec<ShowPeepRecord> = Vec::new();
    let rows = vec![
        row(7, "director", "director", "Alice"),
        row(7, "writer", "screenplay", "Alice"),
        row(8, "composer", "\\N", "Bob"),
    ];
    apply_direct_credits(&mut peeps, &rows);
    assert_eq!(peeps.len(), 2);
    assert_eq!(peeps[0].id, 7);
    // duplicate "director" suppressed; later rows union in new jobs.
    assert_eq!(peeps[0].jobs, vec!["director", "writer", "screenplay"]);
    assert!(peeps[0].root_credit);
    assert_eq!(peeps[0].episode_count, 0);
    assert_eq!(peeps[1].jobs, vec!["composer"]);
}

#[test]
fn null_sentinel_contributes_no_job() {
    let mut peeps: Vec<ShowPeepRecord> = Vec::new();
    let rows = vec![row(9, "\\N", "\\N", "Carol")];
    apply_direct_credits(&mut peeps, &rows);
    assert_eq!(peeps.len(), 1);
    assert!(peeps[0].jobs.is_empty());
}

#[test]
fn episode_credits_count_and_union() {
    let mut peeps: Vec<ShowPeepRecord> = Vec::new();
    let rows = vec![
        row(7, "director", "\\N", "Alice"),
        row(7, "director", "second unit", "Alice"),
        row(7, "\\N", "\\N", "Alice"),
    ];
    apply_episode_credits(&mut peeps, &rows);
    assert_eq!(peeps.len(), 1);
    assert_eq!(peeps[0].episode_count, 3);
    assert!(!peeps[0].root_credit);
    assert_eq!(peeps[0].jobs, vec!["director", "second unit"]);
}

#[test]
fn episode_proportion_scaling() {
    let mut show = empty_show(1);
    show.episodes = (101..111).collect();
    show.peeps.push(ShowPeepRecord {
        id: 7,
        name: "Alice".to_string(),
        jobs: vec!["director".to_string()],
        root_credit: false,
        episode_count: 5,
        stylistic: false,
        score: 0,
    });
    show.peeps.push(ShowPeepRecord {
        id: 8,
        name: "Bob".to_string(),
        jobs: vec!["director".to_string()],
        root_credit: false,
        episode_count: 2,
        stylistic: false,
        score: 0,
    });
    score_peeps(&mut show);
    // credited on half the sub-works: full weight (50 * 1000).
    assert_eq!(show.peeps[0].score, 50_000);
    // credited on 2 of 10: multiplier 0.4.
    assert_eq!(show.peeps[1].score, 20_000);
}

#[test]
fn stylistic_boundary() {
    let mut show = empty_show(1);
    show.peeps.push(ShowPeepRecord {
        id: 7,
        name: "Grip".to_string(),
        jobs: vec!["gaffer".to_string()],
        root_credit: true,
        episode_count: 0,
        stylistic: false,
        score: 0,
    });
    show.peeps.push(ShowPeepRecord {
        id: 8,
        name: "Cast".to_string(),
        jobs: vec!["casting director".to_string()],
        root_credit: true,
        episode_count: 0,
        stylistic: false,
        score: 0,
    });
    score_peeps(&mut show);
    assert!(!show.peeps[0].stylistic);
    assert_eq!(show.peeps[0].score, 1_000);
    assert!(show.peeps[1].stylistic);
}

#[test]
fn stylistic_peeps_and_ignored_jobs() {
    let mut show = empty_show(1);
    let rows = vec![
        row(7, "director", "\\N", "Alice"),
        row(8, "gaffer", "best boy", "Bob"),
    ];
    apply_direct_credits(&mut show.peeps, &rows);
    score_peeps(&mut show);
    assert_eq!(show.stylistic_peeps(), vec![7]);
    assert_eq!(show.ignored_jobs(), vec!["gaffer", "best boy"]);
}

fn scored_peep(id: u64, name: &str, job: &str, score: u64) -> ShowPeepRecord {
    ShowPeepRecord {
        id,
        name: name.to_string(),
        jobs: vec![job.to_string()],
        root_credit: true,
        episode_count: 0,
        stylistic: true,
        score,
    }
}

#[test]
fn scoring_additivity() {
    // Two root works credit the same person with scores 50 and 40
    // (in thousandths: 50_000 and 40_000); the candidate credits the
    // person with score 60. The person's total contribution is
    // 50*60 + 40*60 = 5400 in weight units, 5.4e9 in scaled units.
    let mut root_a = empty_show(1);
    root_a.peeps.push(scored_peep(7, "Alice", "director", 50_000));
    let mut root_b = empty_show(2);
    root_b.peeps.push(scored_peep(7, "Alice", "writer", 40_000));
    let mut cand = empty_show(3);
    cand.peeps.push(scored_peep(7, "Alice", "composer", 60_000));
    // an unrelated person on one root only adds its own product.
    root_a.peeps.push(scored_peep(8, "Bob", "editor", 20_000));
    let roots = vec![root_a, root_b];
    let aff = score_show_affinity(&roots, cand);
    assert_eq!(aff.score, 5_400_000_000u128);
    assert_eq!(aff.credits.len(), 2);
    assert_eq!(aff.credits[0].person_id, 7);
    assert_eq!(aff.credits[1].person_id, 7);
    assert_eq!(aff.credits[0].name, "Alice");
}

#[test]
fn credits_sorted_by_person_name() {
    // One root credits Zoe (small id) and Abe (large id), both shared
    // with the candidate: the overlap lines come in name order, not
    // identifier order.
    let mut root = empty_show(1);
    root.peeps.push(scored_peep(1, "Zoe", "director", 50_000));
    root.peeps.push(scored_peep(2, "Abe", "composer", 60_000));
    let mut cand = empty_show(3);
    cand.peeps.push(scored_peep(1, "Zoe", "director", 50_000));
    cand.peeps.push(scored_peep(2, "Abe", "composer", 60_000));
    let roots = vec![root];
    let aff = score_show_affinity(&roots, cand);
    assert_eq!(aff.credits.len(), 2);
    assert_eq!(aff.credits[0].name, "Abe");
    assert_eq!(aff.credits[1].name, "Zoe");
}

#[test]
fn affinity_credit_details() {
    let mut root = empty_show(1);
    root.episodes = (101..111).collect();
    let mut p = scored_peep(7, "Alice", "director", 50_000);
    p.episode_count = 5;
    root.peeps.push(p);
    let mut cand = empty_show(3);
    cand.episodes = (201..206).collect();
    let mut q = scored_peep(7, "Alice", "director", 50_000);
    q.episode_count = 1;
    cand.peeps.push(q);
    let roots = vec![root];
    let aff = score_show_affinity(&roots, cand);
    assert_eq!(aff.credits.len(), 1);
    let c = &aff.credits[0];
    assert_eq!(c.root_title, "work 1");
    assert_eq!(c.root_episode_count, 5);
    assert_eq!(c.root_episode_total, 10);
    assert_eq!(c.candidate_episode_count, 1);
    assert_eq!(c.candidate_episode_total, 5);
    assert_eq!(c.bar_left, 5);
    assert_eq!(c.bar_right, 2);
    assert_eq!(c.root_jobs, vec!["director"]);
}
