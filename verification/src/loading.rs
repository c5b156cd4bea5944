//! Parsers for the catalog dump's tab-separated rows: one record type
//! per dump file, each with its header check, row parser, and index
//! key.

use vstd::prelude::*;

use crate::strutil::{str_eq, parse_prefixed_u64, parse_prefixed_spec};

verus! {

/// First index of a character in a sequence, or -1.
pub open spec fn find_char(s: Seq<char>, c: char) -> int
    decreases s.len(),
{
    if s.len() == 0 {
        -1
    } else if s[0] == c {
        0
    } else {
        let r = find_char(s.skip(1), c);
        if r < 0 {
            -1
        } else {
            r + 1
        }
    }
}

pub proof fn lemma_find_char(s: Seq<char>, c: char)
    ensures
        find_char(s, c) < 0 ==> forall|k: int| 0 <= k < s.len() ==> s[k] != c,
        find_char(s, c) >= 0 ==> {
            let r = find_char(s, c);
            &&& 0 <= r < s.len()
            &&& s[r] == c
            &&& forall|k: int| 0 <= k < r ==> s[k] != c
        },
    decreases s.len(),
{
    if s.len() == 0 {
    } else if s[0] == c {
    } else {
        lemma_find_char(s.skip(1), c);
        assert(forall|k: int| 0 <= k < s.len() - 1 ==> #[trigger] s.skip(1)[k] == s[k + 1]);
        let rs = find_char(s.skip(1), c);
        if rs < 0 {
            assert forall|k: int| 0 <= k < s.len() implies s[k] != c by {
                if k > 0 {
                    assert(s.skip(1)[k - 1] != c);
                }
            }
        } else {
            assert(s.skip(1)[rs] == c);
            assert forall|k: int| 0 <= k < rs + 1 implies s[k] != c by {
                if k > 0 {
                    assert(s.skip(1)[k - 1] != c);
                }
            }
        }
    }
}

#[via_fn]
proof fn split_tabs_dec(s: Seq<char>) {
    lemma_find_char(s, '\t');
}

/// Cells of a tab-separated row: the text between consecutive tabs,
/// with one (possibly empty) cell more than there are tabs.
pub open spec fn split_tabs(s: Seq<char>) -> Seq<Seq<char>>
    decreases s.len(),
    via split_tabs_dec
{
    let t = find_char(s, '\t');
    if t < 0 {
        seq![s]
    } else {
        seq![s.subrange(0, t)] + split_tabs(s.skip(t + 1))
    }
}

/// Splits one row at its tabs.
pub fn split_row(s: &str) -> (r: Vec<String>)
    ensures
        r.deep_view() == split_tabs(s@),
{
    let n = s.unicode_len();
    let mut r: Vec<String> = Vec::new();
    let mut start: usize = 0;
    let mut done = false;
    proof {
        assert(r.deep_view() =~= Seq::<Seq<char>>::empty());
        assert(s@.skip(0) =~= s@);
    }
    while !done
        invariant
            n == s@.len(),
            start <= n,
            !done ==> split_tabs(s@) == r.deep_view() + split_tabs(s@.skip(start as int)),
            done ==> r.deep_view() == split_tabs(s@),
        decreases n - start + (if done {
            0int
        } else {
            1int
        }),
    {
        let mut i: usize = start;
        while i < n && s.get_char(i) != '\t'
            invariant
                n == s@.len(),
                start <= i <= n,
                forall|k: int| start <= k < i ==> s@[k] != '\t',
            decreases n - i,
        {
            i = i + 1;
        }
        let ghost rem = s@.skip(start as int);
        proof {
            lemma_find_char(rem, '\t');
            assert(forall|k: int|
                0 <= k < rem.len() ==> #[trigger] rem[k] == s@[start + k]);
        }
        let ghost pre = r.deep_view();
        if i < n {
            proof {
                assert(rem[i - start] == '\t');
                assert(find_char(rem, '\t') == i - start);
                assert(rem.subrange(0, i - start) =~= s@.subrange(start as int, i as int));
                assert(rem.skip(i - start + 1) =~= s@.skip(i + 1));
            }
            let cell = String::from_str(s.substring_char(start, i));
            r.push(cell);
            proof {
                assert(r.deep_view() =~= pre.push(s@.subrange(start as int, i as int)));
                assert(split_tabs(rem) == seq![s@.subrange(start as int, i as int)]
                    + split_tabs(s@.skip(i + 1)));
                assert(pre + split_tabs(rem) =~= r.deep_view() + split_tabs(s@.skip(i + 1)));
            }
            start = i + 1;
        } else {
            proof {
                assert(find_char(rem, '\t') < 0);
                assert(split_tabs(rem) == seq![rem]);
                assert(rem =~= s@.subrange(start as int, n as int));
            }
            let cell = String::from_str(s.substring_char(start, n));
            r.push(cell);
            proof {
                assert(r.deep_view() =~= pre.push(rem));
                assert(pre + split_tabs(rem) =~= r.deep_view());
            }
            done = true;
        }
    }
    r
}

/// A copy of one cell of a split row.
pub fn cell_str(cells: &Vec<String>, idx: usize) -> (r: String)
    requires
        idx < cells@.len(),
    ensures
        r@ == cells.deep_view()[idx as int],
{
    cells[idx].clone()
}

/// One cell of a split row parsed as a prefixed numeric identifier.
pub fn cell_id(cells: &Vec<String>, idx: usize, prefix: &str) -> (r: Option<u64>)
    requires
        idx < cells@.len(),
        prefix@.len() > 0,
    ensures
        r == parse_prefixed_spec(cells.deep_view()[idx as int], prefix@),
{
    parse_prefixed_u64(cells[idx].as_str(), prefix)
}

/// A record type of the catalog dump: header check, row parser, and
/// index key.
pub trait DataType: Sized {
    /// Whether a dump file's header row matches this record type.
    fn mapping_ok(header: &str) -> bool;

    /// Parses one data row; `None` when the row does not have the
    /// expected shape.
    fn load(value: &str) -> Option<Self>;

    /// The identifier this record is indexed by.
    fn id(&self) -> u64;
}

/// A work row of the catalog dump.
pub struct Show {
    pub id: u64,
    pub title_type: String,
    pub title: String,
    pub original_title: String,
    pub start_year: String,
    pub genres: String,
}

impl Show {
    /// Parses a work row: identifier, type, titles, start year, and
    /// genres out of the dump's column layout.
    pub fn parse(value: &str) -> (r: Option<Show>)
        ensures
            ({
                let cells = split_tabs(value@);
                match r {
                    Some(s) => cells.len() > 8 && parse_prefixed_spec(cells[0], "tt"@)
                        == Some(s.id) && s.title_type@ == cells[1] && s.title@ == cells[2]
                        && s.original_title@ == cells[3] && s.start_year@ == cells[5]
                        && s.genres@ == cells[8],
                    None => cells.len() <= 8 || parse_prefixed_spec(cells[0], "tt"@) is None,
                }
            }),
    {
        proof {
            reveal_strlit("tt");
        }
        let cells = split_row(value);
        if cells.len() <= 8 {
            return None;
        }
        match cell_id(&cells, 0, "tt") {
            None => None,
            Some(id) => Some(
                Show {
                    id: id,
                    title_type: cell_str(&cells, 1),
                    title: cell_str(&cells, 2),
                    original_title: cell_str(&cells, 3),
                    start_year: cell_str(&cells, 5),
                    genres: cell_str(&cells, 8),
                },
            ),
        }
    }
}

impl DataType for Show {
    fn mapping_ok(header: &str) -> bool {
        str_eq(
            header,
            "tconst\ttitleType\tprimaryTitle\toriginalTitle\tisAdult\tstartYear\tendYear\truntimeMinutes\tgenres",
        )
    }

    fn load(value: &str) -> Option<Self> {
        Show::parse(value)
    }

    fn id(&self) -> u64 {
        self.id
    }
}

/// A sub-work row of the catalog dump: a work and its parent.
pub struct Episode {
    pub id: u64,
    pub show_id: u64,
}

impl Episode {
    /// Parses a sub-work row: its identifier and its parent work's.
    pub fn parse(value: &str) -> (r: Option<Episode>)
        ensures
            ({
                let cells = split_tabs(value@);
                match r {
                    Some(e) => cells.len() > 1 && parse_prefixed_spec(cells[0], "tt"@)
                        == Some(e.id) && parse_prefixed_spec(cells[1], "tt"@) == Some(
                        e.show_id,
                    ),
                    None => cells.len() <= 1 || parse_prefixed_spec(cells[0], "tt"@) is None
                        || parse_prefixed_spec(cells[1], "tt"@) is None,
                }
            }),
    {
        proof {
            reveal_strlit("tt");
        }
        let cells = split_row(value);
        if cells.len() <= 1 {
            return None;
        }
        match (cell_id(&cells, 0, "tt"), cell_id(&cells, 1, "tt")) {
            (Some(id), Some(show_id)) => Some(Episode { id, show_id }),
            _ => None,
        }
    }
}

impl DataType for Episode {
    fn mapping_ok(header: &str) -> bool {
        str_eq(header, "tconst\tparentTconst\tseasonNumber\tepisodeNumber")
    }

    fn load(value: &str) -> Option<Self> {
        Episode::parse(value)
    }

    fn id(&self) -> u64 {
        self.id
    }
}

/// A credit-edge row of the catalog dump.
pub struct Principal {
    pub show_id: u64,
    pub peep_id: u64,
    pub category: String,
    pub job: String,
}

impl Principal {
    /// Parses a credit-edge row: work, person, category, and job.
    pub fn parse(value: &str) -> (r: Option<Principal>)
        ensures
            ({
                let cells = split_tabs(value@);
                match r {
                    Some(p) => cells.len() > 4 && parse_prefixed_spec(cells[0], "tt"@)
                        == Some(p.show_id) && parse_prefixed_spec(cells[2], "nm"@) == Some(
                        p.peep_id,
                    ) && p.category@ == cells[3] && p.job@ == cells[4],
                    None => cells.len() <= 4 || parse_prefixed_spec(cells[0], "tt"@) is None
                        || parse_prefixed_spec(cells[2], "nm"@) is None,
                }
            }),
    {
        proof {
            reveal_strlit("tt");
            reveal_strlit("nm");
        }
        let cells = split_row(value);
        if cells.len() <= 4 {
            return None;
        }
        match (cell_id(&cells, 0, "tt"), cell_id(&cells, 2, "nm")) {
            (Some(show_id), Some(peep_id)) => Some(
                Principal {
                    show_id,
                    peep_id,
                    category: cell_str(&cells, 3),
                    job: cell_str(&cells, 4),
                },
            ),
            _ => None,
        }
    }
}

impl DataType for Principal {
    fn mapping_ok(header: &str) -> bool {
        str_eq(header, "tconst\tordering\tnconst\tcategory\tjob\tcharacters")
    }

    fn load(value: &str) -> Option<Self> {
        Principal::parse(value)
    }

    fn id(&self) -> u64 {
        self.peep_id
    }
}

/// A rating row of the catalog dump.
pub struct Rating {
    pub show_id: u64,
    pub rating: String,
}

impl Rating {
    /// Parses a rating row: the work and its rating text.
    pub fn parse(value: &str) -> (r: Option<Rating>)
        ensures
            ({
                let cells = split_tabs(value@);
                match r {
                    Some(rt) => cells.len() > 1 && parse_prefixed_spec(cells[0], "tt"@)
                        == Some(rt.show_id) && rt.rating@ == cells[1],
                    None => cells.len() <= 1 || parse_prefixed_spec(cells[0], "tt"@) is None,
                }
            }),
    {
        proof {
            reveal_strlit("tt");
        }
        let cells = split_row(value);
        if cells.len() <= 1 {
            return None;
        }
        match cell_id(&cells, 0, "tt") {
            None => None,
            Some(show_id) => Some(Rating { show_id, rating: cell_str(&cells, 1) }),
        }
    }
}

impl DataType for Rating {
    fn mapping_ok(header: &str) -> bool {
        str_eq(header, "tconst\taverageRating\tnumVotes")
    }

    fn load(value: &str) -> Option<Self> {
        Rating::parse(value)
    }

    fn id(&self) -> u64 {
        self.show_id
    }
}

/// A person row of the catalog dump.
pub struct Peep {
    pub id: u64,
    pub name: String,
    pub born: String,
}

impl Peep {
    /// Parses a person row: identifier, display name, and birth year.
    pub fn parse(value: &str) -> (r: Option<Peep>)
        ensures
            ({
                let cells = split_tabs(value@);
                match r {
                    Some(p) => cells.len() > 2 && parse_prefixed_spec(cells[0], "nm"@)
                        == Some(p.id) && p.name@ == cells[1] && p.born@ == cells[2],
                    None => cells.len() <= 2 || parse_prefixed_spec(cells[0], "nm"@) is None,
                }
            }),
    {
        proof {
            reveal_strlit("nm");
        }
        let cells = split_row(value);
        if cells.len() <= 2 {
            return None;
        }
        match cell_id(&cells, 0, "nm") {
            None => None,
            Some(id) => Some(Peep { id, name: cell_str(&cells, 1), born: cell_str(&cells, 2) }),
        }
    }
}

impl DataType for Peep {
    fn mapping_ok(header: &str) -> bool {
        str_eq(
            header,
            "nconst\tprimaryName\tbirthYear\tdeathYear\tprimaryProfession\tknownForTitles",
        )
    }

    fn load(value: &str) -> Option<Self> {
        Peep::parse(value)
    }

    fn id(&self) -> u64 {
        self.id
    }
}

} // verus!
