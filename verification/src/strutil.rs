//! Character-level string utilities: ASCII lowercasing, substring
//! search, string equality, and decimal-digit parsing.

use vstd::prelude::*;

verus! {

/// ASCII lowercase of a single character; other characters unchanged.
pub open spec fn lower_char(c: char) -> char {
    if 'A' <= c && c <= 'Z' {
        ((c as u8) + 32) as char
    } else {
        c
    }
}

/// ASCII lowercase of a character sequence.
pub open spec fn lower_seq(s: Seq<char>) -> Seq<char> {
    s.map_values(|c: char| lower_char(c))
}

/// The needle `n` occurs in `h` starting at position `i`.
pub open spec fn match_at(h: Seq<char>, n: Seq<char>, i: int) -> bool {
    0 <= i && i + n.len() <= h.len() && h.subrange(i, i + n.len() as int) == n
}

/// The needle `n` occurs somewhere in `h`.
pub open spec fn contains_seq(h: Seq<char>, n: Seq<char>) -> bool {
    exists|i: int| match_at(h, n, i)
}

pub fn lower_char_exec(c: char) -> (r: char)
    ensures
        r == lower_char(c),
{
    if 'A' <= c && c <= 'Z' {
        ((c as u8) + 32) as char
    } else {
        c
    }
}

/// Lowercased characters of a string, as a vector.
pub fn lower_str(s: &str) -> (r: Vec<char>)
    ensures
        r@ == lower_seq(s@),
{
    let n = s.unicode_len();
    let mut r: Vec<char> = Vec::new();
    let mut i: usize = 0;
    while i < n
        invariant
            n == s@.len(),
            i <= n,
            r@ == lower_seq(s@.subrange(0, i as int)),
        decreases n - i,
    {
        let c = s.get_char(i);
        r.push(lower_char_exec(c));
        proof {
            assert(s@.subrange(0, i + 1).drop_last() =~= s@.subrange(0, i as int));
            assert(lower_seq(s@.subrange(0, i + 1)) =~= lower_seq(
                s@.subrange(0, i as int),
            ).push(lower_char(s@[i as int])));
        }
        i = i + 1;
    }
    proof {
        assert(s@.subrange(0, n as int) =~= s@);
    }
    r
}

/// Whether the characters of `h` contain the string `n` as a contiguous run.
pub fn contains_chars(h: &Vec<char>, n: &str) -> (r: bool)
    ensures
        r == contains_seq(h@, n@),
{
    let nlen = n.unicode_len();
    let hlen = h.len();
    if nlen > hlen {
        proof {
            assert(forall|i: int| !match_at(h@, n@, i));
        }
        return false;
    }
    let mut i: usize = 0;
    while i <= hlen - nlen
        invariant
            nlen == n@.len(),
            hlen == h@.len(),
            nlen <= hlen,
            i <= hlen - nlen + 1,
            forall|k: int| 0 <= k < i ==> !match_at(h@, n@, k),
        decreases hlen - nlen - i + 1,
    {
        let mut j: usize = 0;
        let mut all_eq = true;
        while j < nlen
            invariant
                nlen == n@.len(),
                hlen == h@.len(),
                i + nlen <= hlen,
                j <= nlen,
                all_eq <==> (forall|k: int| 0 <= k < j ==> h@[i + k] == n@[k]),
            decreases nlen - j,
        {
            let hc = h[i + j];
            let nc = n.get_char(j);
            if hc != nc {
                all_eq = false;
                j = nlen;
            } else {
                j = j + 1;
            }
        }
        if all_eq {
            proof {
                assert(h@.subrange(i as int, i + n@.len() as int) =~= n@);
                assert(match_at(h@, n@, i as int));
            }
            return true;
        }
        proof {
            assert(!match_at(h@, n@, i as int));
        }
        i = i + 1;
    }
    proof {
        assert(forall|k: int| match_at(h@, n@, k) ==> 0 <= k <= hlen - nlen);
    }
    false
}

/// Whether two strings hold the same characters.
pub fn str_eq(a: &str, b: &str) -> (r: bool)
    ensures
        r == (a@ == b@),
{
    let alen = a.unicode_len();
    let blen = b.unicode_len();
    if alen != blen {
        return false;
    }
    let mut i: usize = 0;
    while i < alen
        invariant
            alen == a@.len(),
            alen == b@.len(),
            i <= alen,
            forall|k: int| 0 <= k < i ==> a@[k] == b@[k],
        decreases alen - i,
    {
        if a.get_char(i) != b.get_char(i) {
            return false;
        }
        i = i + 1;
    }
    proof {
        assert(a@ =~= b@);
    }
    true
}

/// Lexicographic order on character sequences, by scalar value.
pub open spec fn lex_le(a: Seq<char>, b: Seq<char>) -> bool
    decreases a.len(),
{
    if a.len() == 0 {
        true
    } else if b.len() == 0 {
        false
    } else if a[0] == b[0] {
        lex_le(a.skip(1), b.skip(1))
    } else {
        a[0] < b[0]
    }
}

/// The lexicographic order is total.
pub proof fn lemma_lex_le_total(a: Seq<char>, b: Seq<char>)
    ensures
        lex_le(a, b) || lex_le(b, a),
    decreases a.len(),
{
    if a.len() == 0 {
    } else if b.len() == 0 {
    } else if a[0] == b[0] {
        lemma_lex_le_total(a.skip(1), b.skip(1));
    }
}

/// The lexicographic order is transitive.
pub proof fn lemma_lex_le_trans(a: Seq<char>, b: Seq<char>, c: Seq<char>)
    requires
        lex_le(a, b),
        lex_le(b, c),
    ensures
        lex_le(a, c),
    decreases a.len(),
{
    if a.len() == 0 {
    } else {
        assert(b.len() > 0);
        assert(c.len() > 0);
        if a[0] == b[0] && b[0] == c[0] {
            lemma_lex_le_trans(a.skip(1), b.skip(1), c.skip(1));
        }
    }
}

/// Whether `a` is lexicographically at most `b`.
pub fn str_lex_le(a: &str, b: &str) -> (r: bool)
    ensures
        r == lex_le(a@, b@),
{
    let alen = a.unicode_len();
    let blen = b.unicode_len();
    let mut i: usize = 0;
    proof {
        assert(a@.skip(0) =~= a@);
        assert(b@.skip(0) =~= b@);
    }
    while i < alen && i < blen
        invariant
            alen == a@.len(),
            blen == b@.len(),
            i <= alen,
            i <= blen,
            lex_le(a@, b@) == lex_le(a@.skip(i as int), b@.skip(i as int)),
        decreases alen - i,
    {
        let ca = a.get_char(i);
        let cb = b.get_char(i);
        proof {
            assert(a@.skip(i as int)[0] == a@[i as int]);
            assert(b@.skip(i as int)[0] == b@[i as int]);
        }
        if ca != cb {
            return ca < cb;
        }
        proof {
            assert(a@.skip(i as int).skip(1) =~= a@.skip(i + 1));
            assert(b@.skip(i as int).skip(1) =~= b@.skip(i + 1));
        }
        i = i + 1;
    }
    proof {
        if i == alen {
            assert(a@.skip(i as int).len() == 0);
        } else {
            assert(b@.skip(i as int).len() == 0);
            assert(a@.skip(i as int).len() > 0);
        }
    }
    alen <= blen
}

/// Decimal digit.
pub open spec fn is_digit(c: char) -> bool {
    '0' <= c && c <= '9'
}

pub open spec fn digit_val(c: char) -> nat {
    (c as nat - '0' as nat) as nat
}

pub open spec fn all_digits(s: Seq<char>) -> bool {
    forall|i: int| 0 <= i < s.len() ==> is_digit(#[trigger] s[i])
}

/// Value of a digit string read in base ten.
pub open spec fn digits_val(s: Seq<char>) -> nat
    decreases s.len(),
{
    if s.len() == 0 {
        0
    } else {
        digits_val(s.drop_last()) * 10 + digit_val(s.last())
    }
}

proof fn lemma_digits_val_step(s: Seq<char>, i: int)
    requires
        0 <= i < s.len(),
    ensures
        digits_val(s.subrange(0, i + 1)) == digits_val(s.subrange(0, i)) * 10 + digit_val(s[i]),
{
    assert(s.subrange(0, i + 1).drop_last() =~= s.subrange(0, i));
    assert(s.subrange(0, i + 1).last() == s[i]);
}

proof fn lemma_digits_val_grows(s: Seq<char>, i: int, j: int)
    requires
        0 <= i <= j <= s.len(),
    ensures
        digits_val(s.subrange(0, i)) <= digits_val(s.subrange(0, j)),
    decreases j - i,
{
    if i < j {
        lemma_digits_val_grows(s, i, j - 1);
        lemma_digits_val_step(s, j - 1);
    }
}

/// Parses `s` as an unsigned decimal number. Returns the value exactly
/// when `s` is non-empty, all digits, and the value fits in a `u64`.
pub fn parse_u64(s: &Vec<char>) -> (r: Option<u64>)
    ensures
        match r {
            Some(v) => s@.len() > 0 && all_digits(s@) && digits_val(s@) == v,
            None => s@.len() == 0 || !all_digits(s@) || digits_val(s@) > u64::MAX,
        },
{
    let n = s.len();
    if n == 0 {
        return None;
    }
    let mut val: u64 = 0;
    let mut i: usize = 0;
    while i < n
        invariant
            n == s@.len(),
            i <= n,
            all_digits(s@.subrange(0, i as int)),
            val == digits_val(s@.subrange(0, i as int)),
        decreases n - i,
    {
        let c = s[i];
        if !('0' <= c && c <= '9') {
            assert(!is_digit(s@[i as int]));
            return None;
        }
        let d: u64 = (c as u32 as u64) - ('0' as u32 as u64);
        assert(d == digit_val(s@[i as int]));
        if val > (u64::MAX - d) / 10 {
            proof {
                lemma_digits_val_step(s@, i as int);
                assert(digits_val(s@.subrange(0, i + 1)) > u64::MAX);
                lemma_digits_val_grows(s@, i + 1, n as int);
                assert(s@.subrange(0, n as int) =~= s@);
            }
            return None;
        }
        proof {
            lemma_digits_val_step(s@, i as int);
        }
        val = val * 10 + d;
        i = i + 1;
    }
    proof {
        assert(s@.subrange(0, n as int) =~= s@);
    }
    Some(val)
}

/// The string with every leading repetition of the prefix removed.
pub open spec fn strip_prefix_rep(s: Seq<char>, p: Seq<char>) -> Seq<char>
    decreases s.len(),
{
    if p.len() > 0 && s.len() >= p.len() && s.subrange(0, p.len() as int) == p {
        strip_prefix_rep(s.skip(p.len() as int), p)
    } else {
        s
    }
}

/// Value of an identifier written as a repeated prefix followed by
/// decimal digits.
pub open spec fn parse_prefixed_spec(s: Seq<char>, p: Seq<char>) -> Option<u64> {
    let rest = strip_prefix_rep(s, p);
    if rest.len() > 0 && all_digits(rest) && digits_val(rest) <= u64::MAX {
        Some(digits_val(rest) as u64)
    } else {
        None
    }
}

/// Whether the prefix occurs at position `off`.
fn matches_at(s: &str, off: usize, p: &str) -> (r: bool)
    requires
        off <= s@.len(),
    ensures
        r == (off + p@.len() <= s@.len() && s@.subrange(off as int, off + p@.len() as int) == p@),
{
    let n = s.unicode_len();
    let plen = p.unicode_len();
    if plen > n || off > n - plen {
        return false;
    }
    let mut j: usize = 0;
    while j < plen
        invariant
            n == s@.len(),
            plen == p@.len(),
            off + plen <= n,
            j <= plen,
            forall|k: int| 0 <= k < j ==> s@[off + k] == p@[k],
        decreases plen - j,
    {
        if s.get_char(off + j) != p.get_char(j) {
            return false;
        }
        j = j + 1;
    }
    proof {
        assert(s@.subrange(off as int, off + p@.len() as int) =~= p@);
    }
    true
}

/// Parses an identifier of the form `<prefix>*<digits>` into its
/// numeric value: every leading repetition of the prefix is removed,
/// and the rest must be one or more decimal digits whose value fits
/// in a `u64`.
pub fn parse_prefixed_u64(s: &str, prefix: &str) -> (r: Option<u64>)
    requires
        prefix@.len() > 0,
    ensures
        r == parse_prefixed_spec(s@, prefix@),
{
    let n = s.unicode_len();
    let plen = prefix.unicode_len();
    let mut off: usize = 0;
    let mut stripping = true;
    proof {
        assert(s@.skip(0) =~= s@);
    }
    while stripping
        invariant
            n == s@.len(),
            plen == prefix@.len(),
            plen > 0,
            off <= n,
            strip_prefix_rep(s@.skip(off as int), prefix@) == strip_prefix_rep(s@, prefix@),
            !stripping ==> s@.skip(off as int) == strip_prefix_rep(s@, prefix@),
        decreases n - off + (if stripping {
            1int
        } else {
            0int
        }),
    {
        if matches_at(s, off, prefix) {
            proof {
                let rem = s@.skip(off as int);
                assert(rem.subrange(0, plen as int) =~= s@.subrange(off as int, off + plen));
                assert(rem.skip(plen as int) =~= s@.skip(off + plen));
            }
            off = off + plen;
        } else {
            proof {
                let rem = s@.skip(off as int);
                if rem.len() >= plen {
                    assert(rem.subrange(0, plen as int) =~= s@.subrange(
                        off as int,
                        off + plen,
                    ));
                }
                assert(strip_prefix_rep(rem, prefix@) == rem);
            }
            stripping = false;
        }
    }
    let mut digits: Vec<char> = Vec::new();
    let mut i: usize = off;
    while i < n
        invariant
            n == s@.len(),
            off <= i <= n,
            digits@ == s@.subrange(off as int, i as int),
        decreases n - i,
    {
        digits.push(s.get_char(i));
        proof {
            assert(s@.subrange(off as int, i + 1) =~= s@.subrange(off as int, i as int).push(
                s@[i as int],
            ));
        }
        i = i + 1;
    }
    proof {
        assert(s@.subrange(off as int, n as int) =~= s@.skip(off as int));
    }
    parse_u64(&digits)
}

} // verus!
