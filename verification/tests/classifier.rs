use caterer::compare::{best_job, calc_overlap_bar, job_buff, normalize_job};

#[test]
fn normalize_keyword_table() {
    assert_eq!(normalize_job("director of photography"), "cinematographer");
    assert_eq!(normalize_job("Executive Producer"), "producer");
    assert_eq!(normalize_job("Created by"), "written by");
    assert_eq!(normalize_job("Casting Director"), "casting_director");
    assert_eq!(normalize_job("gaffer"), "gaffer");
    assert_eq!(job_buff("gaffer"), 1);
}

#[test]
fn normalize_more_roles() {
    assert_eq!(normalize_job("composer"), "composer");
    assert_eq!(normalize_job("Production Designer"), "production_designer");
    assert_eq!(normalize_job("film editor"), "editor");
    assert_eq!(normalize_job("based on the novel"), "based on");
}

#[test]
fn weights() {
    assert_eq!(job_buff("cinematographer"), 60);
    assert_eq!(job_buff("composer"), 60);
    assert_eq!(job_buff("director"), 50);
    assert_eq!(job_buff("showrunner"), 50);
    assert_eq!(job_buff("writer"), 40);
    assert_eq!(job_buff("production designer"), 30);
    assert_eq!(job_buff("editor"), 20);
    assert_eq!(job_buff("producer"), 20);
    assert_eq!(job_buff("casting director"), 10);
}

#[test]
fn best_job_prefers_weight_and_first_on_tie() {
    let jobs = vec!["producer".to_string(), "director".to_string()];
    assert_eq!(best_job(&jobs), "director");
    let tied = vec!["director".to_string(), "showrunner".to_string()];
    assert_eq!(best_job(&tied), "director");
}

#[test]
fn overlap_bar_widths() {
    // 5 of 10 sub-works: half the bar; 2 of 10: a fifth.
    assert_eq!(calc_overlap_bar(10, 5, 10, 2), (5, 2));
    // all clamped to 10 when zero: full bars.
    assert_eq!(calc_overlap_bar(0, 0, 0, 0), (10, 10));
    // rounding up and capping at 10.
    assert_eq!(calc_overlap_bar(3, 1, 5, 20), (4, 10));
}
