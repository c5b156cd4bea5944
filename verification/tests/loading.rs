use caterer::loading::{split_row, DataType, Episode, Peep, Principal, Rating, Show};

#[test]
fn split_row_cells() {
    assert_eq!(split_row("a\tb\tc"), vec!["a", "b", "c"]);
    assert_eq!(split_row(""), vec![""]);
    assert_eq!(split_row("\t\t"), vec!["", "", ""]);
    assert_eq!(split_row("one"), vec!["one"]);
}

#[test]
fn show_row_parses() {
    let line = "tt0012345\ttvSeries\tA Title\tAn Original Title\t0\t1999\t2003\t45\tDrama,Comedy";
    let s = Show::load(line).unwrap();
    assert_eq!(s.id, 12345);
    assert_eq!(s.title_type, "tvSeries");
    assert_eq!(s.title, "A Title");
    assert_eq!(s.original_title, "An Original Title");
    assert_eq!(s.start_year, "1999");
    assert_eq!(s.genres, "Drama,Comedy");
    assert_eq!(s.id(), 12345);
    assert!(Show::mapping_ok(
        "tconst\ttitleType\tprimaryTitle\toriginalTitle\tisAdult\tstartYear\tendYear\truntimeMinutes\tgenres"
    ));
    assert!(!Show::mapping_ok("tconst\ttitleType"));
    assert!(Show::load("tt1\ttoo\tfew").is_none());
    assert!(Show::load("xx1\ta\tb\tc\td\te\tf\tg\th").is_none());
}

#[test]
fn episode_row_parses() {
    let e = Episode::load("tt0000002\ttt0000001\t1\t2").unwrap();
    assert_eq!(e.id, 2);
    assert_eq!(e.show_id, 1);
    assert!(Episode::mapping_ok("tconst\tparentTconst\tseasonNumber\tepisodeNumber"));
    assert!(Episode::load("tt2").is_none());
}

#[test]
fn principal_row_parses() {
    let p = Principal::load("tt0000001\t1\tnm0000007\tdirector\t\\N\t[\"Self\"]").unwrap();
    assert_eq!(p.show_id, 1);
    assert_eq!(p.peep_id, 7);
    assert_eq!(p.category, "director");
    assert_eq!(p.job, "\\N");
    assert_eq!(p.id(), 7);
    assert!(Principal::mapping_ok("tconst\tordering\tnconst\tcategory\tjob\tcharacters"));
}

#[test]
fn rating_row_parses() {
    let r = Rating::load("tt0000001\t7.9\t1250").unwrap();
    assert_eq!(r.show_id, 1);
    assert_eq!(r.rating, "7.9");
    assert!(Rating::mapping_ok("tconst\taverageRating\tnumVotes"));
}

#[test]
fn peep_row_parses() {
    let p = Peep::load("nm0000007\tAlice Example\t1970\t\\N\tdirector\ttt1,tt2").unwrap();
    assert_eq!(p.id, 7);
    assert_eq!(p.name, "Alice Example");
    assert_eq!(p.born, "1970");
    assert!(Peep::mapping_ok(
        "nconst\tprimaryName\tbirthYear\tdeathYear\tprimaryProfession\tknownForTitles"
    ));
    // repeated prefixes are stripped, digits only after that.
    let q = Peep::load("nmnm8\tB\t1980").unwrap();
    assert_eq!(q.id, 8);
    assert!(Peep::load("nm12x\tB\t1980").is_none());
    // a value too large for the identifier type is rejected.
    assert!(Peep::load("nm99999999999999999999\tB\t1980").is_none());
}
