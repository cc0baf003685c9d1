//! The ballot-archive reader: a zip archive holds one rules file (`.chp`)
//! per race, naming the candidates, the seat count and the precinct ballot
//! files (`.prm`) it includes, and one ballot file per precinct.
//!
//! Splitting, trimming and lower-casing here are ASCII-exact: the format is
//! machine-written ASCII, and every helper carries an exact contract.
use crate::errors::{ConfigError, ParseError};
use crate::model::Ballot;
use crate::strutil::{
    chars_to_string, decode_text, is_ws, lower_char, spec_is_ws, spec_lower_char, str_chars,
    str_eq,
};
use crate::ziparc::{
    clip_1m, zip_entry_bytes, zip_entry_count, zip_entry_data, zip_entry_is_file, zip_entry_meta,
    zip_entry_meta_ok, zip_entry_name, zip_entry_readable, zip_ok, zip_open_count,
};
use vstd::prelude::*;

verus! {

/// The first index at or after `from` holding `c`, or -1.
pub open spec fn spec_find_char(s: Seq<char>, from: int, c: char) -> int
    decreases s.len() - from,
{
    if from < 0 || from >= s.len() {
        -1
    } else if s[from] == c {
        from
    } else {
        spec_find_char(s, from + 1, c)
    }
}

/// Finds the first occurrence of `c` at or after `from`.
#[verifier::loop_isolation(false)]
pub fn find_char(s: &[char], from: usize, c: char) -> (r: Option<usize>)
    ensures
        ({
            let idx = spec_find_char(s@, from as int, c);
            match r {
                Some(i) => idx == i as int && from <= i < s@.len() && s@[i as int] == c,
                None => idx == -1,
            }
        }),
{
    let n = s.len();
    let mut i = from;
    while i < n
        invariant
            from <= i,
            spec_find_char(s@, from as int, c) == spec_find_char(s@, i as int, c),
        decreases n - i,
    {
        if s[i] == c {
            return Some(i);
        }
        i += 1;
    }
    None
}

/// The first index at or after `from` where `c1` is followed by `c2`, or -1.
pub open spec fn spec_find_pair(s: Seq<char>, from: int, c1: char, c2: char) -> int
    decreases s.len() - from,
{
    if from < 0 || from + 1 >= s.len() {
        -1
    } else if s[from] == c1 && s[from + 1] == c2 {
        from
    } else {
        spec_find_pair(s, from + 1, c1, c2)
    }
}

/// Finds the first two-character pattern `c1 c2` at or after `from`.
#[verifier::loop_isolation(false)]
pub fn find_pair(s: &[char], from: usize, c1: char, c2: char) -> (r: Option<usize>)
    ensures
        ({
            let idx = spec_find_pair(s@, from as int, c1, c2);
            match r {
                Some(i) => idx == i as int && from <= i && i + 1 < s@.len() && s@[i as int] == c1
                    && s@[i as int + 1] == c2,
                None => idx == -1,
            }
        }),
{
    let n = s.len();
    if n == 0 || from >= n - 1 {
        return None;
    }
    let mut i = from;
    while i + 1 < n
        invariant
            from <= i < n,
            spec_find_pair(s@, from as int, c1, c2) == spec_find_pair(s@, i as int, c1, c2),
        decreases n - i,
    {
        if s[i] == c1 && s[i + 1] == c2 {
            return Some(i);
        }
        i += 1;
    }
    None
}

/// Copies the characters `[a, b)`.
#[verifier::loop_isolation(false)]
pub fn copy_range(s: &[char], a: usize, b: usize) -> (r: Vec<char>)
    requires
        a <= b <= s@.len(),
    ensures
        r@ == s@.subrange(a as int, b as int),
{
    let mut r: Vec<char> = Vec::new();
    let mut i = a;
    while i < b
        invariant
            a <= i <= b,
            r@ == s@.subrange(a as int, i as int),
        decreases b - i,
    {
        r.push(s[i]);
        proof {
            assert(r@ =~= s@.subrange(a as int, i + 1));
        }
        i += 1;
    }
    r
}

/// Whether two character slices read the same.
#[verifier::loop_isolation(false)]
pub fn chars_eq(a: &[char], b: &[char]) -> (r: bool)
    ensures
        r == (a@ == b@),
{
    if a.len() != b.len() {
        proof {
            assert(a@ != b@);
        }
        return false;
    }
    let n = a.len();
    for i in 0..n
        invariant
            a@.len() == b@.len(),
            forall|k: int| 0 <= k < i ==> a@[k] == b@[k],
    {
        if a[i] != b[i] {
            return false;
        }
    }
    proof {
        assert(a@ =~= b@);
    }
    true
}

/// Whether `s` ends with the suffix `p`.
pub open spec fn spec_ends_with(s: Seq<char>, p: Seq<char>) -> bool {
    s.len() >= p.len() && s.subrange(s.len() - p.len(), s.len() as int) == p
}

/// Whether the characters end with the given suffix.
pub fn ends_with(s: &[char], p: &[char]) -> (r: bool)
    ensures
        r == spec_ends_with(s@, p@),
{
    if s.len() < p.len() {
        return false;
    }
    let tail = copy_range(s, s.len() - p.len(), s.len());
    chars_eq(tail.as_slice(), p)
}

/// Whether `p` occurs in `s` starting at `i`.
pub open spec fn spec_match_at(s: Seq<char>, p: Seq<char>, i: int) -> bool {
    0 <= i && i + p.len() <= s.len() && s.subrange(i, i + p.len()) == p
}

/// Whether `p` occurs somewhere in `s`.
pub open spec fn spec_contains_seq(s: Seq<char>, p: Seq<char>) -> bool {
    exists|i: int| spec_match_at(s, p, i)
}

/// Whether the characters contain the given pattern anywhere.
#[verifier::loop_isolation(false)]
pub fn contains_seq(s: &[char], p: &[char]) -> (r: bool)
    ensures
        r == spec_contains_seq(s@, p@),
{
    let n = s.len();
    let m = p.len();
    if m > n {
        proof {
            assert(forall|i: int| !spec_match_at(s@, p@, i));
        }
        return false;
    }
    if m == 0 {
        proof {
            assert(s@.subrange(0, 0) =~= p@);
            assert(spec_match_at(s@, p@, 0));
        }
        return true;
    }
    let mut i: usize = 0;
    while i <= n - m
        invariant
            1 <= m <= n,
            i <= n - m + 1,
            forall|k: int| 0 <= k < i ==> !spec_match_at(s@, p@, k),
        decreases n - m - i + 1,
    {
        let seg = copy_range(s, i, i + m);
        if chars_eq(seg.as_slice(), p) {
            proof {
                assert(spec_match_at(s@, p@, i as int));
            }
            return true;
        }
        proof {
            assert(!spec_match_at(s@, p@, i as int));
        }
        i += 1;
    }
    proof {
        assert forall|k: int| !spec_match_at(s@, p@, k) by {
            if 0 <= k && k + p@.len() <= s@.len() {
                assert(k < i);
            }
        }
    }
    false
}

/// The ASCII lowering of a whole text.
pub open spec fn spec_lower(s: Seq<char>) -> Seq<char> {
    s.map_values(|c: char| spec_lower_char(c))
}

/// Lowers a whole text to ASCII lower case.
#[verifier::loop_isolation(false)]
pub fn lower_chars(s: &[char]) -> (r: Vec<char>)
    ensures
        r@ == spec_lower(s@),
{
    let mut r: Vec<char> = Vec::new();
    let n = s.len();
    for i in 0..n
        invariant
            r@.len() == i,
            forall|k: int| 0 <= k < i ==> r@[k] == spec_lower_char(s@[k]),
    {
        r.push(lower_char(s[i]));
    }
    proof {
        assert(r@ =~= spec_lower(s@));
    }
    r
}

/// The first index at or after `i` holding something besides whitespace.
pub open spec fn spec_skip_ws(s: Seq<char>, i: int) -> int
    decreases s.len() - i,
{
    if i < 0 || i >= s.len() {
        s.len() as int
    } else if spec_is_ws(s[i]) {
        spec_skip_ws(s, i + 1)
    } else {
        i
    }
}

/// The index one past the last non-whitespace character of `s.take(i)`.
pub open spec fn spec_rskip_ws(s: Seq<char>, i: int) -> int
    decreases i,
{
    if i <= 0 {
        0
    } else if spec_is_ws(s[i - 1]) {
        spec_rskip_ws(s, i - 1)
    } else {
        i
    }
}

/// `s` with ASCII whitespace trimmed from both ends.
pub open spec fn spec_trim(s: Seq<char>) -> Seq<char> {
    let a = spec_skip_ws(s, 0);
    let b = spec_rskip_ws(s, s.len() as int);
    if a <= b {
        s.subrange(a, b)
    } else {
        Seq::empty()
    }
}

/// The forward whitespace scan stays within the text.
proof fn lemma_skip_ws_bounds(s: Seq<char>, i: int)
    requires
        0 <= i <= s.len(),
    ensures
        i <= spec_skip_ws(s, i) <= s.len(),
    decreases s.len() - i,
{
    if i < s.len() && spec_is_ws(s[i]) {
        lemma_skip_ws_bounds(s, i + 1);
    }
}

/// The backward whitespace scan stays within the text.
proof fn lemma_rskip_ws_bounds(s: Seq<char>, i: int)
    requires
        0 <= i <= s.len(),
    ensures
        0 <= spec_rskip_ws(s, i) <= i,
    decreases i,
{
    if i > 0 && spec_is_ws(s[i - 1]) {
        lemma_rskip_ws_bounds(s, i - 1);
    }
}

/// Trims ASCII whitespace from both ends.
#[verifier::loop_isolation(false)]
pub fn trim_chars(s: &[char]) -> (r: Vec<char>)
    ensures
        r@ == spec_trim(s@),
{
    let n = s.len();
    let mut a: usize = 0;
    while a < n && is_ws(s[a])
        invariant
            a <= n,
            spec_skip_ws(s@, 0) == spec_skip_ws(s@, a as int),
        decreases n - a,
    {
        a += 1;
    }
    let mut b: usize = n;
    while b > 0 && is_ws(s[b - 1])
        invariant
            b <= n,
            spec_rskip_ws(s@, n as int) == spec_rskip_ws(s@, b as int),
        decreases b,
    {
        b -= 1;
    }
    proof {
        lemma_skip_ws_bounds(s@, 0);
        lemma_rskip_ws_bounds(s@, n as int);
    }
    if a <= b {
        copy_range(s, a, b)
    } else {
        Vec::new()
    }
}

/// The value of the decimal digits `s.take(i)`.
pub open spec fn spec_num(s: Seq<char>, i: int) -> int
    decreases i,
{
    if i <= 0 {
        0
    } else {
        spec_num(s, i - 1) * 10 + (s[i - 1] as int - '0' as int)
    }
}

/// Whether `s` is one or more decimal digits.
pub open spec fn spec_all_digits(s: Seq<char>) -> bool {
    s.len() > 0 && forall|i: int| 0 <= i < s.len() ==> '0' <= #[trigger] s[i] <= '9'
}

/// Parses a decimal number, refusing anything but digits and any value that
/// does not fit.
#[verifier::loop_isolation(false)]
pub fn parse_usize(s: &[char]) -> (r: Option<usize>)
    ensures
        ({
            match r {
                Some(v) => spec_all_digits(s@) && v as int == spec_num(s@, s@.len() as int),
                None => !spec_all_digits(s@) || spec_num(s@, s@.len() as int) > usize::MAX,
            }
        }),
{
    let n = s.len();
    if n == 0 {
        return None;
    }
    let mut acc: usize = 0;
    for i in 0..n
        invariant
            n == s@.len(),
            acc as int == spec_num(s@, i as int),
            forall|k: int| 0 <= k < i ==> '0' <= #[trigger] s@[k] <= '9',
    {
        let c = s[i];
        if !('0' <= c && c <= '9') {
            return None;
        }
        let d = (c as u32) - ('0' as u32);
        if acc > (usize::MAX - (d as usize)) / 10 {
            proof {
                assert(spec_num(s@, i + 1) == spec_num(s@, i as int) * 10 + (s@[i as int] as int
                    - '0' as int));
                if spec_all_digits(s@) {
                    lemma_spec_num_grows(s@, i + 1, s@.len() as int);
                }
                assert(acc * 10 + d as usize > usize::MAX) by (nonlinear_arith)
                    requires
                        acc > (usize::MAX - (d as usize)) / 10,
                        d <= 9,
                ;
            }
            return None;
        }
        acc = acc * 10 + (d as usize);
    }
    Some(acc)
}

/// Longer digit strings never shrink in value.
proof fn lemma_spec_num_grows(s: Seq<char>, i: int, j: int)
    requires
        0 <= i <= j <= s.len(),
        spec_num(s, i) >= 0,
        forall|k: int| i <= k < j ==> '0' <= #[trigger] s[k] <= '9',
    ensures
        spec_num(s, j) >= spec_num(s, i),
    decreases j - i,
{
    if i < j {
        assert(spec_num(s, i + 1) == spec_num(s, i) * 10 + (s[i] as int - '0' as int));
        assert(spec_num(s, i + 1) >= spec_num(s, i));
        lemma_spec_num_grows(s, i + 1, j);
    }
}


/// The lines of `s.take(i)`: the completed lines (with `\r\n` and `\n`
/// endings stripped) and the unfinished tail.
pub open spec fn spec_lines_state(s: Seq<char>, i: int) -> (Seq<Seq<char>>, Seq<char>)
    decreases i,
{
    if i <= 0 {
        (Seq::empty(), Seq::empty())
    } else {
        let prev = spec_lines_state(s, i - 1);
        let c = s[i - 1];
        if c == '\n' {
            let line = if prev.1.len() > 0 && prev.1.last() == '\r' {
                prev.1.drop_last()
            } else {
                prev.1
            };
            (prev.0.push(line), Seq::empty())
        } else {
            (prev.0, prev.1.push(c))
        }
    }
}

/// The lines of a text, as `str::lines` reads them: a final fragment counts,
/// a final line ending does not add an empty line.
pub open spec fn spec_lines(s: Seq<char>) -> Seq<Seq<char>> {
    let st = spec_lines_state(s, s.len() as int);
    if st.1.len() > 0 {
        st.0.push(st.1)
    } else {
        st.0
    }
}

/// A sequence of lines, seen as plain sequences.
pub open spec fn lview(ls: Seq<Vec<char>>) -> Seq<Seq<char>> {
    ls.map_values(|l: Vec<char>| l@)
}

/// Splits a text into lines, stripping `\n` and `\r\n` endings.
#[verifier::loop_isolation(false)]
pub fn split_lines(s: &[char]) -> (r: Vec<Vec<char>>)
    ensures
        lview(r@) == spec_lines(s@),
{
    let mut out: Vec<Vec<char>> = Vec::new();
    let mut cur: Vec<char> = Vec::new();
    let n = s.len();
    for i in 0..n
        invariant
            (lview(out@), cur@) == spec_lines_state(s@, i as int),
    {
        let c = s[i];
        if c == '\n' {
            if cur.len() > 0 && cur[cur.len() - 1] == '\r' {
                cur.pop();
                proof {
                    assert(cur@ =~= spec_lines_state(s@, i as int).1.drop_last());
                }
            }
            let ghost prevout = lview(out@);
            out.push(cur);
            cur = Vec::new();
            proof {
                assert(lview(out@) =~= prevout.push(out@.last()@));
            }
        } else {
            cur.push(c);
        }
    }
    if cur.len() > 0 {
        let ghost prevout = lview(out@);
        out.push(cur);
        proof {
            assert(lview(out@) =~= prevout.push(out@.last()@));
        }
    }
    out
}

/// Which of the two races in an archive a rules file belongs to.
#[derive(Copy, Clone, Debug, PartialEq, Eq, Structural)]
pub enum Race {
    /// The school-committee race.
    School,
    /// The city-council race.
    Council,
}

impl Race {
    /// The marker that the race's file names carry inside the archive.
    pub fn to_str(&self) -> (r: &'static str)
        ensures
            self is School ==> r@ == "School"@,
            self is Council ==> r@ == "Council"@,
    {
        match *self {
            Race::School => "School",
            Race::Council => "Council",
        }
    }
}

/// A parsed election: the ballots of each precinct group, the ballot ids
/// alongside them, the group names, the candidate names (defining candidate
/// ids 1 upward in order), and the seat count.
#[derive(Debug)]
pub struct BallotData {
    /// One ballot list per precinct group.
    pub ballots: Vec<Vec<Ballot>>,
    /// The ballot ids, one list per group, aligned with `ballots`.
    pub ballot_ids: Vec<Vec<String>>,
    /// The precinct group names, aligned with `ballots`.
    pub precints: Vec<String>,
    /// The candidate names; the name at position `i` has candidate id
    /// `i + 1`.
    pub candidates: Vec<String>,
    /// How many seats the race fills.
    pub seats: usize,
}

impl Default for BallotData {
    /// An empty election.
    fn default() -> (r: Self)
        ensures
            r.ballots@.len() == 0,
            r.ballot_ids@.len() == 0,
            r.precints@.len() == 0,
            r.candidates@.len() == 0,
            r.seats == 0,
    {
        BallotData {
            ballots: Vec::new(),
            ballot_ids: Vec::new(),
            precints: Vec::new(),
            candidates: Vec::new(),
            seats: 0,
        }
    }
}

/// A well-formed parsed ballot: a first preference is present, every id on
/// it names a defined candidate, the sentinel padding is a suffix, and no
/// candidate is ranked twice (duplicates are normalized away at parse time).
pub open spec fn wf_ballot(b: Ballot, ncand: int) -> bool {
    &&& b@[0] != 0
    &&& forall|k: int| 0 <= k < 16 ==> (#[trigger] b@[k]) as int <= ncand
    &&& forall|j: int, k: int| 0 <= j <= k < 16 && b@[j] == 0 ==> b@[k] == 0
    &&& forall|j: int, k: int| 0 <= j < k < 16 && #[trigger] b@[j] != 0 ==> b@[j] != #[trigger] b@[k]
}

/// A well-formed parsed election: at most 255 candidates, groups, names and
/// id lists aligned, and every ballot well-formed.
pub open spec fn wf_ballot_data(bd: BallotData) -> bool {
    &&& bd.candidates@.len() <= 255
    &&& bd.ballots@.len() == bd.precints@.len()
    &&& bd.ballot_ids@.len() == bd.precints@.len()
    &&& forall|g: int|
        0 <= g < bd.ballots@.len() ==> #[trigger] bd.ballots@[g]@.len()
            == bd.ballot_ids@[g]@.len()
    &&& forall|g: int, k: int|
        0 <= g < bd.ballots@.len() && 0 <= k < bd.ballots@[g]@.len() ==> wf_ballot(
            #[trigger] bd.ballots@[g]@[k],
            bd.candidates@.len() as int,
        )
}


/// The last index before `i` holding `c`, or -1.
pub open spec fn spec_rfind_char(s: Seq<char>, i: int, c: char) -> int
    decreases i,
{
    if i <= 0 {
        -1
    } else if s[i - 1] == c {
        i - 1
    } else {
        spec_rfind_char(s, i - 1, c)
    }
}

/// Finds the last occurrence of `c`.
#[verifier::loop_isolation(false)]
pub fn rfind_char(s: &[char], c: char) -> (r: Option<usize>)
    ensures
        ({
            let idx = spec_rfind_char(s@, s@.len() as int, c);
            match r {
                Some(i) => idx == i as int && i < s@.len() && s@[i as int] == c,
                None => idx == -1,
            }
        }),
{
    let mut i = s.len();
    while i > 0
        invariant
            i <= s@.len(),
            spec_rfind_char(s@, s@.len() as int, c) == spec_rfind_char(s@, i as int, c),
        decreases i,
    {
        if s[i - 1] == c {
            return Some(i - 1);
        }
        i -= 1;
    }
    None
}

/// The first whitespace index at or after `from`, or -1.
pub open spec fn spec_find_ws(s: Seq<char>, from: int) -> int
    decreases s.len() - from,
{
    if from < 0 || from >= s.len() {
        -1
    } else if spec_is_ws(s[from]) {
        from
    } else {
        spec_find_ws(s, from + 1)
    }
}

/// Finds the first whitespace character.
#[verifier::loop_isolation(false)]
pub fn find_ws(s: &[char]) -> (r: Option<usize>)
    ensures
        ({
            let idx = spec_find_ws(s@, 0);
            match r {
                Some(i) => idx == i as int && i < s@.len() && spec_is_ws(s@[i as int]),
                None => idx == -1,
            }
        }),
{
    let n = s.len();
    let mut i: usize = 0;
    while i < n
        invariant
            spec_find_ws(s@, 0) == spec_find_ws(s@, i as int),
        decreases n - i,
    {
        if is_ws(s[i]) {
            return Some(i);
        }
        i += 1;
    }
    None
}

/// The first index at or after `i` holding something besides `c`.
pub open spec fn spec_skip_char(s: Seq<char>, i: int, c: char) -> int
    decreases s.len() - i,
{
    if i < 0 || i >= s.len() {
        s.len() as int
    } else if s[i] == c {
        spec_skip_char(s, i + 1, c)
    } else {
        i
    }
}

/// The index one past the last character of `s.take(i)` that is not `c`.
pub open spec fn spec_rskip_char(s: Seq<char>, i: int, c: char) -> int
    decreases i,
{
    if i <= 0 {
        0
    } else if s[i - 1] == c {
        spec_rskip_char(s, i - 1, c)
    } else {
        i
    }
}

/// `s` with every leading and trailing `c` removed.
pub open spec fn spec_trim_char(s: Seq<char>, c: char) -> Seq<char> {
    let a = spec_skip_char(s, 0, c);
    let b = spec_rskip_char(s, s.len() as int, c);
    if a <= b {
        s.subrange(a, b)
    } else {
        Seq::empty()
    }
}

/// The forward skip stays within the text.
proof fn lemma_skip_char_bounds(s: Seq<char>, i: int, c: char)
    requires
        0 <= i <= s.len(),
    ensures
        i <= spec_skip_char(s, i, c) <= s.len(),
    decreases s.len() - i,
{
    if i < s.len() && s[i] == c {
        lemma_skip_char_bounds(s, i + 1, c);
    }
}

/// The backward skip stays within the text.
proof fn lemma_rskip_char_bounds(s: Seq<char>, i: int, c: char)
    requires
        0 <= i <= s.len(),
    ensures
        0 <= spec_rskip_char(s, i, c) <= i,
    decreases i,
{
    if i > 0 && s[i - 1] == c {
        lemma_rskip_char_bounds(s, i - 1, c);
    }
}

/// Trims every leading and trailing `c` (as `str::trim_matches` does).
#[verifier::loop_isolation(false)]
pub fn trim_char(s: &[char], c: char) -> (r: Vec<char>)
    ensures
        r@ == spec_trim_char(s@, c),
{
    let n = s.len();
    let mut a: usize = 0;
    while a < n && s[a] == c
        invariant
            a <= n,
            spec_skip_char(s@, 0, c) == spec_skip_char(s@, a as int, c),
        decreases n - a,
    {
        a += 1;
    }
    let mut b: usize = n;
    while b > 0 && s[b - 1] == c
        invariant
            b <= n,
            spec_rskip_char(s@, n as int, c) == spec_rskip_char(s@, b as int, c),
        decreases b,
    {
        b -= 1;
    }
    proof {
        lemma_skip_char_bounds(s@, 0, c);
        lemma_rskip_char_bounds(s@, n as int, c);
    }
    if a <= b {
        copy_range(s, a, b)
    } else {
        Vec::new()
    }
}

/// What a rules (`.chp`) file defines.
struct ChpData {
    /// How many seats the race fills.
    seats: usize,
    /// The two ballot-format separator characters (field, then ballot-id
    /// terminator).
    seps: Vec<char>,
    /// The raw candidate identifiers, in definition order.
    candidate_ids: Vec<Vec<char>>,
    /// The candidate display names, aligned with `candidate_ids`.
    candidates: Vec<String>,
    /// The lower-cased ballot-file names the rules include.
    includes: Vec<Vec<char>>,
}

/// Reads the rules file: seat count, separators, candidate definitions and
/// included ballot files, computing exactly `spec_parse_chp` of the text.
/// Lines with other commands are ignored.
#[verifier::loop_isolation(false)]
fn parse_chp(content: &[char]) -> (r: Result<ChpData, ParseError>)
    ensures
        ({
            let m = spec_parse_chp(content@);
            match r {
                Ok(c) => {
                    &&& m.err is None
                    &&& c.seats as int == m.seats
                    &&& c.seps@ == m.seps
                    &&& lview(c.candidate_ids@) == m.candidate_ids
                    &&& sview(c.candidates@) == m.candidates
                    &&& lview(c.includes@) == m.includes
                    &&& c.candidates@.len() == c.candidate_ids@.len()
                    &&& c.candidates@.len() <= 255
                    &&& c.seps@.len() >= 2
                },
                Err(e) => m.err == Some(e),
            }
        }),
        r is Err ==> (r->Err_0 is BadSeats || r->Err_0 is BadSeparators
            || r->Err_0 is BadCandidateDef || r->Err_0 is TooManyCandidates),
{
    let elect_cmd = str_chars(".ELECT");
    let seps_cmd = str_chars(".BALLOT-FORMAT-SEPS");
    let cand_cmd = str_chars(".CANDIDATE");
    let include_cmd = str_chars(".INCLUDE");

    let mut seats: usize = 0;
    let mut seps: Vec<char> = str_chars(",)");
    proof {
        reveal_strlit(",)");
    }
    let mut candidate_ids: Vec<Vec<char>> = Vec::new();
    let mut candidates: Vec<String> = Vec::new();
    let mut includes: Vec<Vec<char>> = Vec::new();

    let lines = split_lines(content);
    let ghost slines = spec_lines(content@);
    let nlines = lines.len();
    proof {
        assert(lview(Seq::<Vec<char>>::empty()) =~= Seq::<Seq<char>>::empty());
        assert(sview(Seq::<String>::empty()) =~= Seq::<Seq<char>>::empty());
        assert(chp_fold(slines, 0) == ChpModel {
            seats: seats as int,
            seps: seps@,
            candidate_ids: lview(candidate_ids@),
            candidates: sview(candidates@),
            includes: lview(includes@),
            err: None,
        });
    }
    for li in 0..nlines
        invariant
            lview(lines@) == slines,
            nlines == slines.len(),
            seps@.len() >= 2,
            candidates@.len() == candidate_ids@.len(),
            chp_fold(slines, li as int) == (ChpModel {
                seats: seats as int,
                seps: seps@,
                candidate_ids: lview(candidate_ids@),
                candidates: sview(candidates@),
                includes: lview(includes@),
                err: None,
            }),
    {
        let ghost cur = chp_fold(slines, li as int);
        let line = &lines[li];
        let ws = match find_ws(line.as_slice()) {
            Some(w) => w,
            None => line.len(),
        };
        if ws == line.len() {
            // No whitespace: not a command line.
            proof {
                assert(chp_fold(slines, li + 1) == cur);
            }
        } else {
        let command = copy_range(line.as_slice(), 0, ws);
        let record = copy_range(line.as_slice(), ws + 1, line.len());
        if chars_eq(command.as_slice(), elect_cmd.as_slice()) {
            let t = trim_chars(record.as_slice());
            seats = match parse_usize(t.as_slice()) {
                Some(v) => v,
                None => {
                    proof {
                        assert(chp_fold(slines, li + 1).err == Some(ParseError::BadSeats));
                        lemma_chp_fold_frozen(slines, li + 1, slines.len() as int);
                    }
                    return Err(ParseError::BadSeats);
                },
            };
        } else if chars_eq(command.as_slice(), seps_cmd.as_slice()) {
            if record.len() < 2 {
                proof {
                    assert(chp_fold(slines, li + 1).err == Some(ParseError::BadSeparators));
                    lemma_chp_fold_frozen(slines, li + 1, slines.len() as int);
                }
                return Err(ParseError::BadSeparators);
            }
            seps = record;
        } else if chars_eq(command.as_slice(), cand_cmd.as_slice()) {
            let p = match find_pair(record.as_slice(), 0, ',', ' ') {
                Some(p) => p,
                None => {
                    proof {
                        assert(chp_fold(slines, li + 1).err == Some(ParseError::BadCandidateDef));
                        lemma_chp_fold_frozen(slines, li + 1, slines.len() as int);
                    }
                    return Err(ParseError::BadCandidateDef);
                },
            };
            let id = copy_range(record.as_slice(), 0, p);
            let rest = copy_range(record.as_slice(), p + 2, record.len());
            let trimmed = trim_chars(rest.as_slice());
            let name = trim_char(trimmed.as_slice(), '"');
            let display = match find_pair(name.as_slice(), 0, ',', ' ') {
                Some(q) => {
                    // "Last, First" reads as "First Last".
                    let nl = name.len();
                    assert(q + 1 < nl);
                    let last = copy_range(name.as_slice(), 0, q);
                    let first = copy_range(name.as_slice(), q + 2, nl);
                    let mut d = first;
                    d.push(' ');
                    let mut k: usize = 0;
                    while k < last.len()
                        invariant
                            k <= last@.len(),
                            d@ == name@.subrange(q + 2, nl as int) + seq![' '] + last@.take(
                                k as int,
                            ),
                        decreases last@.len() - k,
                    {
                        d.push(last[k]);
                        proof {
                            assert(d@ =~= name@.subrange(q + 2, nl as int) + seq![' ']
                                + last@.take(k + 1));
                        }
                        k += 1;
                    }
                    proof {
                        assert(last@.take(last@.len() as int) =~= last@);
                        assert(d@ =~= chp_display_name(name@));
                    }
                    d
                },
                None => name,
            };
            let ghost ids_prev = lview(candidate_ids@);
            let ghost names_prev = sview(candidates@);
            candidate_ids.push(id);
            candidates.push(chars_to_string(display.as_slice()));
            proof {
                assert(lview(candidate_ids@) =~= ids_prev.push(id@));
                assert(sview(candidates@) =~= names_prev.push(display@));
            }
        } else if chars_eq(command.as_slice(), include_cmd.as_slice()) {
            let t = trim_chars(record.as_slice());
            let ghost incs_prev = lview(includes@);
            includes.push(lower_chars(t.as_slice()));
            proof {
                assert(lview(includes@) =~= incs_prev.push(spec_lower(spec_trim(record@))));
            }
        }
        proof {
            assert(chp_fold(slines, li + 1) == chp_line_step(cur, slines[li as int]));
        }
        }
    }
    if candidates.len() > 255 {
        proof {
            assert(spec_parse_chp(content@).err == Some(ParseError::TooManyCandidates));
        }
        return Err(ParseError::TooManyCandidates);
    }
    Ok(ChpData { seats, seps, candidate_ids, candidates, includes })
}

/// Reads one precinct's ballot file: one ballot per non-empty line, each a
/// ballot id followed by ranked candidate identifiers, computing exactly
/// `spec_parse_prm` of the text. A candidate ranked twice on one ballot is
/// kept only at its first rank.
#[verifier::loop_isolation(false)]
fn parse_prm(content: &[char], sep0: char, sep1: char, candidate_ids: &Vec<Vec<char>>) -> (r:
    Result<(Vec<Ballot>, Vec<String>), ParseError>)
    requires
        candidate_ids@.len() <= 255,
    ensures
        ({
            let m = spec_parse_prm(content@, sep0, sep1, lview(candidate_ids@));
            match r {
                Ok(b) => {
                    &&& m.err is None
                    &&& bview(b.0@) == m.ballots
                    &&& sview(b.1@) == m.ids
                    &&& b.0@.len() == b.1@.len()
                    &&& forall|k: int|
                        0 <= k < b.0@.len() ==> wf_ballot(
                            #[trigger] b.0@[k],
                            candidate_ids@.len() as int,
                        )
                },
                Err(e) => m.err == Some(e),
            }
        }),
        r is Err ==> (r->Err_0 is BadBallot || r->Err_0 is BadBallotId || r->Err_0 is BadRanking
            || r->Err_0 is UnknownCandidateId),
{
    let ncand = candidate_ids.len();
    let ghost cids = lview(candidate_ids@);
    let mut ballots: Vec<Ballot> = Vec::new();
    let mut ids: Vec<String> = Vec::new();
    let lines = split_lines(content);
    let ghost slines = spec_lines(content@);
    let nlines = lines.len();
    proof {
        assert(bview(Seq::<Ballot>::empty()) =~= Seq::<Seq<u8>>::empty());
        assert(sview(Seq::<String>::empty()) =~= Seq::<Seq<char>>::empty());
    }
    for li in 0..nlines
        invariant
            lview(lines@) == slines,
            nlines == slines.len(),
            cids == lview(candidate_ids@),
            cids.len() == ncand <= 255,
            ballots@.len() == ids@.len(),
            forall|k: int|
                0 <= k < ballots@.len() ==> wf_ballot(#[trigger] ballots@[k], ncand as int),
            prm_fold(cids, sep0, sep1, slines, li as int) == (PrmModel {
                ballots: bview(ballots@),
                ids: sview(ids@),
                err: None,
            }),
    {
        let ghost cur = prm_fold(cids, sep0, sep1, slines, li as int);
        let line = &lines[li];
        if line.len() > 0 {
        let p = match find_char(line.as_slice(), 0, sep1) {
            Some(p) => p,
            None => {
                proof {
                    assert(prm_fold(cids, sep0, sep1, slines, li + 1).err == Some(
                        ParseError::BadBallot,
                    ));
                    lemma_prm_fold_frozen(cids, sep0, sep1, slines, li + 1, slines.len() as int);
                }
                return Err(ParseError::BadBallot);
            },
        };
        let id_field = copy_range(line.as_slice(), 0, p);
        let rankings = copy_range(line.as_slice(), p + 1, line.len());
        let q = match find_char(id_field.as_slice(), 0, sep0) {
            Some(q) => q,
            None => {
                proof {
                    assert(prm_fold(cids, sep0, sep1, slines, li + 1).err == Some(
                        ParseError::BadBallotId,
                    ));
                    lemma_prm_fold_frozen(cids, sep0, sep1, slines, li + 1, slines.len() as int);
                }
                return Err(ParseError::BadBallotId);
            },
        };
        let id_chars = copy_range(id_field.as_slice(), 0, q);
        let ballot_id = chars_to_string(id_chars.as_slice());

        let rank = trim_chars(rankings.as_slice());
        let rlen = rank.len();
        let ghost fin_scan = tok_fold(
            cids,
            rank@,
            sep0,
            0,
            TokScan { prefs: Seq::empty(), err: None },
        );
        let mut prefs: Vec<u8> = Vec::new();
        let mut pos: usize = 0;
        let mut stop = false;
        let eq_pat = ['='];
        while !stop
            invariant
                pos <= rlen,
                rlen == rank@.len(),
                cids == lview(candidate_ids@),
                cids.len() == ncand <= 255,
                forall|k: int| 0 <= k < prefs@.len() ==> 1 <= #[trigger] prefs@[k] as int <= ncand,
                forall|j: int, k: int| 0 <= j < k < prefs@.len() ==> prefs@[j] != prefs@[k],
                !stop ==> tok_fold(cids, rank@, sep0, pos as int, TokScan { prefs: prefs@, err: None })
                    == fin_scan,
                stop ==> (TokScan { prefs: prefs@, err: None }) == fin_scan,
            decreases rlen - pos, (if stop {
                0int
            } else {
                1int
            }),
        {
            let ghost cur_scan = TokScan { prefs: prefs@, err: None };
            let ghost posg = pos as int;
            let tok_end: usize;
            match find_char(rank.as_slice(), pos, sep0) {
                Some(e) => {
                    tok_end = e;
                },
                None => {
                    tok_end = rlen;
                    stop = true;
                },
            }
            let tok = copy_range(rank.as_slice(), pos, tok_end);
            let ghost stepped = tok_step(cids, tok@, cur_scan);
            if tok.len() > 0 && !contains_seq(tok.as_slice(), eq_pat.as_slice()) {
                proof {
                    assert(tok@ =~= rank@.subrange(posg, tok_end as int));
                    assert(seq!['='] =~= eq_pat@);
                }
                let b = match find_char(tok.as_slice(), 0, '[') {
                    Some(b) => b,
                    None => {
                        proof {
                            assert(stepped.err == Some(ParseError::BadRanking));
                            if !stop {
                                lemma_tok_fold_frozen(cids, rank@, sep0, tok_end + 1, stepped);
                            }
                            assert(fin_scan == stepped);
                            assert(prm_fold(cids, sep0, sep1, slines, li + 1).err == Some(
                                ParseError::BadRanking,
                            ));
                            lemma_prm_fold_frozen(
                                cids,
                                sep0,
                                sep1,
                                slines,
                                li + 1,
                                slines.len() as int,
                            );
                        }
                        return Err(ParseError::BadRanking);
                    },
                };
                let id_part = copy_range(tok.as_slice(), 0, b);
                let mut found: usize = ncand;
                for ci in 0..ncand
                    invariant
                        cids == lview(candidate_ids@),
                        cids.len() == ncand,
                        found <= ncand,
                        found == ncand ==> seq_index_of(cids, id_part@, 0) == seq_index_of(
                            cids,
                            id_part@,
                            ci as int,
                        ),
                        found < ncand ==> seq_index_of(cids, id_part@, 0) == found as int,
                {
                    if found == ncand && chars_eq(
                        id_part.as_slice(),
                        candidate_ids[ci].as_slice(),
                    ) {
                        found = ci;
                    }
                }
                if found == ncand {
                    proof {
                        assert(stepped.err == Some(ParseError::UnknownCandidateId));
                        if !stop {
                            lemma_tok_fold_frozen(cids, rank@, sep0, tok_end + 1, stepped);
                        }
                        assert(fin_scan == stepped);
                        assert(prm_fold(cids, sep0, sep1, slines, li + 1).err == Some(
                            ParseError::UnknownCandidateId,
                        ));
                        lemma_prm_fold_frozen(
                            cids,
                            sep0,
                            sep1,
                            slines,
                            li + 1,
                            slines.len() as int,
                        );
                    }
                    return Err(ParseError::UnknownCandidateId);
                }
                let id = (found + 1) as u8;
                let mut dup = false;
                let plen = prefs.len();
                for di in 0..plen
                    invariant
                        plen == prefs@.len(),
                        dup ==> prefs@.contains(id),
                        !dup ==> forall|k: int| 0 <= k < di ==> prefs@[k] != id,
                {
                    if prefs[di] == id {
                        dup = true;
                    }
                }
                if !dup {
                    prefs.push(id);
                }
                proof {
                    assert((TokScan { prefs: prefs@, err: None }) == stepped);
                }
            } else {
                proof {
                    assert(tok@ =~= rank@.subrange(posg, tok_end as int));
                    assert(seq!['='] =~= eq_pat@);
                    assert(stepped == cur_scan);
                }
            }
            if !stop {
                pos = tok_end + 1;
            }
            proof {
                if stop {
                    assert(tok_end as int == rlen as int);
                    assert(spec_find_char(rank@, posg, sep0) < 0);
                    assert(fin_scan == (TokScan { prefs: prefs@, err: None }));
                } else {
                    assert(tok_fold(cids, rank@, sep0, posg, cur_scan) == tok_fold(
                        cids,
                        rank@,
                        sep0,
                        pos as int,
                        stepped,
                    ));
                }
            }
        }
        if prefs.len() > 0 {
            let mut b: Ballot = [0u8; 16];
            let m = if prefs.len() < 16 {
                prefs.len()
            } else {
                16
            };
            for k in 0..m
                invariant
                    m <= prefs@.len(),
                    m <= 16,
                    forall|j: int| 0 <= j < k ==> b@[j] == prefs@[j],
                    forall|j: int| k <= j < 16 ==> b@[j] == 0,
            {
                b[k] = prefs[k];
            }
            proof {
                assert(b@ =~= pad16(prefs@));
                assert(wf_ballot(b, ncand as int));
            }
            let ghost bprev = bview(ballots@);
            let ghost iprev = sview(ids@);
            ballots.push(b);
            ids.push(ballot_id);
            proof {
                assert(bview(ballots@) =~= bprev.push(b@));
                assert(sview(ids@) =~= iprev.push(ballot_id@));
            }
        }
        proof {
            assert(prm_fold(cids, sep0, sep1, slines, li + 1) == prm_line_step(
                cids,
                sep0,
                sep1,
                cur,
                slines[li as int],
            ));
        }
        } else {
            proof {
                assert(prm_fold(cids, sep0, sep1, slines, li + 1) == cur);
            }
        }
    }
    Ok((ballots, ids))
}

/// The race an election code names: `sc21` and `sc23` pick the school race,
/// `cc21` and `cc23` the council race; any other code is an unknown
/// election.
pub fn race_of(code: &str) -> (r: Result<Race, ConfigError>)
    ensures
        (code@ == "sc21"@ || code@ == "sc23"@) <==> r == Ok::<Race, ConfigError>(Race::School),
        (code@ == "cc21"@ || code@ == "cc23"@) <==> r == Ok::<Race, ConfigError>(Race::Council),
        r is Err ==> r == Err::<Race, ConfigError>(ConfigError::UnknownElection),
{
    proof {
        reveal_strlit("sc21");
        reveal_strlit("sc23");
        reveal_strlit("cc21");
        reveal_strlit("cc23");
        assert("cc21"@ != "sc21"@) by {
            assert("cc21"@[0] != "sc21"@[0]);
        }
        assert("cc21"@ != "sc23"@) by {
            assert("cc21"@[0] != "sc23"@[0]);
        }
        assert("cc23"@ != "sc21"@) by {
            assert("cc23"@[0] != "sc21"@[0]);
        }
        assert("cc23"@ != "sc23"@) by {
            assert("cc23"@[0] != "sc23"@[0]);
        }
    }
    if str_eq(code, "sc21") || str_eq(code, "sc23") {
        Ok(Race::School)
    } else if str_eq(code, "cc21") || str_eq(code, "cc23") {
        Ok(Race::Council)
    } else {
        Err(ConfigError::UnknownElection)
    }
}

/// The marker that a race's file names carry inside the archive.
pub open spec fn race_marker(race: Race) -> Seq<char> {
    match race {
        Race::School => "School"@,
        Race::Council => "Council"@,
    }
}

/// Whether archive entry `i` is a rules file for the race: a plain file
/// whose name carries the race marker and whose lower-cased last path
/// segment ends in `.chp`.
pub open spec fn chp_entry(data: Seq<u8>, i: int, race: Race) -> bool {
    let name = zip_entry_name(data, i);
    let seg = name.subrange(spec_rfind_char(name, name.len() as int, '/') + 1, name.len() as int);
    &&& zip_entry_is_file(data, i)
    &&& spec_contains_seq(name, race_marker(race))
    &&& spec_ends_with(spec_lower(seg), ".chp"@)
}


/// The last path segment of an entry name: everything after the final '/'.
pub open spec fn last_segment(name: Seq<char>) -> Seq<char> {
    name.subrange(spec_rfind_char(name, name.len() as int, '/') + 1, name.len() as int)
}

/// A list of names, seen as plain sequences.
pub open spec fn sview(xs: Seq<String>) -> Seq<Seq<char>> {
    xs.map_values(|x: String| x@)
}

/// A list of ballots, seen as plain sequences.
pub open spec fn bview(xs: Seq<Ballot>) -> Seq<Seq<u8>> {
    xs.map_values(|x: Ballot| x@)
}

/// Grouped ballots, seen as plain sequences.
pub open spec fn gbview(xs: Seq<Vec<Ballot>>) -> Seq<Seq<Seq<u8>>> {
    xs.map_values(|x: Vec<Ballot>| bview(x@))
}

/// Grouped ballot ids, seen as plain sequences.
pub open spec fn gsview(xs: Seq<Vec<String>>) -> Seq<Seq<Seq<char>>> {
    xs.map_values(|x: Vec<String>| sview(x@))
}

/// The first index at or after `i` whose entry reads `x`, or -1.
pub open spec fn seq_index_of(xs: Seq<Seq<char>>, x: Seq<char>, i: int) -> int
    decreases xs.len() - i,
{
    if i < 0 || i >= xs.len() {
        -1
    } else if xs[i] == x {
        i
    } else {
        seq_index_of(xs, x, i + 1)
    }
}

/// The first unused index at or after `i` whose entry reads `x`, or -1.
pub open spec fn unused_index_of(xs: Seq<Seq<char>>, used: Seq<bool>, x: Seq<char>, i: int) -> int
    decreases xs.len() - i,
{
    if i < 0 || i >= xs.len() {
        -1
    } else if !used[i] && xs[i] == x {
        i
    } else {
        unused_index_of(xs, used, x, i + 1)
    }
}

/// What the rules-file fold has accumulated: the parsed seat count,
/// separators, candidate definitions and includes, or the first error.
pub ghost struct ChpModel {
    /// The seat count of the last `.ELECT` record read (0 before any).
    pub seats: int,
    /// The separators of the last `.BALLOT-FORMAT-SEPS` record read.
    pub seps: Seq<char>,
    /// The raw candidate identifiers, in definition order.
    pub candidate_ids: Seq<Seq<char>>,
    /// The candidate display names, aligned with `candidate_ids`.
    pub candidates: Seq<Seq<char>>,
    /// The lower-cased includes, in file order.
    pub includes: Seq<Seq<char>>,
    /// The first malformed record's error, if any.
    pub err: Option<ParseError>,
}

/// The rules-file fold before any line: no candidates, no includes, seat
/// count 0, and the format's default separators.
pub open spec fn chp_init() -> ChpModel {
    ChpModel {
        seats: 0,
        seps: ",)"@,
        candidate_ids: Seq::empty(),
        candidates: Seq::empty(),
        includes: Seq::empty(),
        err: None,
    }
}

/// How a candidate record's name reads: `"Last, First"` as `First Last`,
/// anything else as itself.
pub open spec fn chp_display_name(name: Seq<char>) -> Seq<char> {
    let q = spec_find_pair(name, 0, ',', ' ');
    if q >= 0 {
        name.subrange(q + 2, name.len() as int) + seq![' '] + name.subrange(0, q)
    } else {
        name
    }
}

/// One rules-file line: the first whitespace splits command from record;
/// lines without whitespace or with unknown commands are ignored.
pub open spec fn chp_line_step(m: ChpModel, line: Seq<char>) -> ChpModel {
    if m.err is Some {
        m
    } else {
        let ws = spec_find_ws(line, 0);
        if ws < 0 {
            m
        } else {
            let command = line.subrange(0, ws);
            let record = line.subrange(ws + 1, line.len() as int);
            if command == ".ELECT"@ {
                let t = spec_trim(record);
                if spec_all_digits(t) && spec_num(t, t.len() as int) <= usize::MAX {
                    ChpModel { seats: spec_num(t, t.len() as int), ..m }
                } else {
                    ChpModel { err: Some(ParseError::BadSeats), ..m }
                }
            } else if command == ".BALLOT-FORMAT-SEPS"@ {
                if record.len() < 2 {
                    ChpModel { err: Some(ParseError::BadSeparators), ..m }
                } else {
                    ChpModel { seps: record, ..m }
                }
            } else if command == ".CANDIDATE"@ {
                let p = spec_find_pair(record, 0, ',', ' ');
                if p < 0 {
                    ChpModel { err: Some(ParseError::BadCandidateDef), ..m }
                } else {
                    let id = record.subrange(0, p);
                    let name = spec_trim_char(
                        spec_trim(record.subrange(p + 2, record.len() as int)),
                        '"',
                    );
                    ChpModel {
                        candidate_ids: m.candidate_ids.push(id),
                        candidates: m.candidates.push(chp_display_name(name)),
                        ..m
                    }
                }
            } else if command == ".INCLUDE"@ {
                ChpModel { includes: m.includes.push(spec_lower(spec_trim(record))), ..m }
            } else {
                m
            }
        }
    }
}

/// The rules-file fold over the first `i` lines.
pub open spec fn chp_fold(lines: Seq<Seq<char>>, i: int) -> ChpModel
    decreases i,
{
    if i <= 0 {
        chp_init()
    } else {
        chp_line_step(chp_fold(lines, i - 1), lines[i - 1])
    }
}

/// What a rules file means: its lines folded in order, then the candidate
/// cap checked.
pub open spec fn spec_parse_chp(text: Seq<char>) -> ChpModel {
    let lines = spec_lines(text);
    let m = chp_fold(lines, lines.len() as int);
    if m.err is None && m.candidates.len() > 255 {
        ChpModel { err: Some(ParseError::TooManyCandidates), ..m }
    } else {
        m
    }
}

/// An error freezes the rules-file fold.
proof fn lemma_chp_fold_frozen(lines: Seq<Seq<char>>, i: int, j: int)
    requires
        0 <= i <= j,
        chp_fold(lines, i).err is Some,
    ensures
        chp_fold(lines, j) == chp_fold(lines, i),
    decreases j - i,
{
    if i < j {
        lemma_chp_fold_frozen(lines, i, j - 1);
    }
}

/// The running preference list of one ballot line's ranking tokens, or the
/// first error.
pub ghost struct TokScan {
    /// The candidate ids collected so far, first preference first.
    pub prefs: Seq<u8>,
    /// The first malformed token's error, if any.
    pub err: Option<ParseError>,
}

/// One ranking token: empty tokens and `=`-tokens (ties and overvotes) are
/// skipped; a duplicate of a candidate already ranked on this ballot is
/// normalized away; anything else must read `identifier[...` and name a
/// defined candidate, whose id is one past its definition index.
pub open spec fn tok_step(cand_ids: Seq<Seq<char>>, tok: Seq<char>, s: TokScan) -> TokScan {
    if s.err is Some {
        s
    } else if tok.len() == 0 || spec_contains_seq(tok, seq!['=']) {
        s
    } else {
        let b = spec_find_char(tok, 0, '[');
        if b < 0 {
            TokScan { err: Some(ParseError::BadRanking), ..s }
        } else {
            let ci = seq_index_of(cand_ids, tok.subrange(0, b), 0);
            if ci < 0 {
                TokScan { err: Some(ParseError::UnknownCandidateId), ..s }
            } else {
                let id = (ci + 1) as u8;
                if s.prefs.contains(id) {
                    s
                } else {
                    TokScan { prefs: s.prefs.push(id), err: None }
                }
            }
        }
    }
}

/// A found character lies at or after the start and inside the text.
proof fn lemma_find_char_range(s: Seq<char>, from: int, c: char)
    requires
        0 <= from,
    ensures
        spec_find_char(s, from, c) >= 0 ==> from <= spec_find_char(s, from, c) < s.len(),
    decreases s.len() - from,
{
    if from < s.len() && s[from] != c {
        lemma_find_char_range(s, from + 1, c);
    }
}

/// The ranking tokens of `rank[pos..]`, split on the field separator, folded
/// in order.
pub open spec fn tok_fold(
    cand_ids: Seq<Seq<char>>,
    rank: Seq<char>,
    sep0: char,
    pos: int,
    s: TokScan,
) -> TokScan
    decreases rank.len() - pos,
        when 0 <= pos <= rank.len()
        via tok_fold_decreases
{
    let e = spec_find_char(rank, pos, sep0);
    if e < 0 {
        tok_step(cand_ids, rank.subrange(pos, rank.len() as int), s)
    } else {
        tok_fold(cand_ids, rank, sep0, e + 1, tok_step(cand_ids, rank.subrange(pos, e), s))
    }
}

#[via_fn]
proof fn tok_fold_decreases(
    cand_ids: Seq<Seq<char>>,
    rank: Seq<char>,
    sep0: char,
    pos: int,
    s: TokScan,
) {
    lemma_find_char_range(rank, pos, sep0);
}

/// An error freezes the token fold.
proof fn lemma_tok_fold_frozen(
    cand_ids: Seq<Seq<char>>,
    rank: Seq<char>,
    sep0: char,
    pos: int,
    s: TokScan,
)
    requires
        0 <= pos <= rank.len(),
        s.err is Some,
    ensures
        tok_fold(cand_ids, rank, sep0, pos, s) == s,
    decreases rank.len() - pos,
{
    let e = spec_find_char(rank, pos, sep0);
    lemma_find_char_range(rank, pos, sep0);
    if e >= 0 {
        lemma_tok_fold_frozen(cand_ids, rank, sep0, e + 1, tok_step(cand_ids, rank.subrange(pos, e), s));
    }
}

/// A preference list padded with the sentinel to exactly 16 ranks (and
/// capped there).
pub open spec fn pad16(prefs: Seq<u8>) -> Seq<u8> {
    let m: int = if prefs.len() <= 16 {
        prefs.len() as int
    } else {
        16
    };
    prefs.take(m) + Seq::new((16 - m) as nat, |i: int| 0u8)
}

/// What the ballot-file fold has accumulated: the parsed ballots and their
/// ids, or the first error.
pub ghost struct PrmModel {
    /// The parsed ballots, each exactly 16 ranks, in file order.
    pub ballots: Seq<Seq<u8>>,
    /// The ballot ids, aligned with `ballots`.
    pub ids: Seq<Seq<char>>,
    /// The first malformed line's error, if any.
    pub err: Option<ParseError>,
}

/// One ballot line: everything before the first ballot-terminator is the id
/// field (cut at its first field separator); the rest, trimmed, is the
/// ranking list. A line with no ranked candidate yields no ballot.
pub open spec fn prm_line_step(
    cand_ids: Seq<Seq<char>>,
    sep0: char,
    sep1: char,
    m: PrmModel,
    line: Seq<char>,
) -> PrmModel {
    if m.err is Some {
        m
    } else if line.len() == 0 {
        m
    } else {
        let p = spec_find_char(line, 0, sep1);
        if p < 0 {
            PrmModel { err: Some(ParseError::BadBallot), ..m }
        } else {
            let idf = line.subrange(0, p);
            let q = spec_find_char(idf, 0, sep0);
            if q < 0 {
                PrmModel { err: Some(ParseError::BadBallotId), ..m }
            } else {
                let bid = idf.subrange(0, q);
                let rank = spec_trim(line.subrange(p + 1, line.len() as int));
                let sc = tok_fold(cand_ids, rank, sep0, 0, TokScan { prefs: Seq::empty(), err: None });
                if sc.err is Some {
                    PrmModel { err: sc.err, ..m }
                } else if sc.prefs.len() == 0 {
                    m
                } else {
                    PrmModel {
                        ballots: m.ballots.push(pad16(sc.prefs)),
                        ids: m.ids.push(bid),
                        err: None,
                    }
                }
            }
        }
    }
}

/// The ballot-file fold over the first `i` lines.
pub open spec fn prm_fold(
    cand_ids: Seq<Seq<char>>,
    sep0: char,
    sep1: char,
    lines: Seq<Seq<char>>,
    i: int,
) -> PrmModel
    decreases i,
{
    if i <= 0 {
        PrmModel { ballots: Seq::empty(), ids: Seq::empty(), err: None }
    } else {
        prm_line_step(cand_ids, sep0, sep1, prm_fold(cand_ids, sep0, sep1, lines, i - 1), lines[i - 1])
    }
}

/// What a ballot file means: its lines folded in order.
pub open spec fn spec_parse_prm(
    text: Seq<char>,
    sep0: char,
    sep1: char,
    cand_ids: Seq<Seq<char>>,
) -> PrmModel {
    let lines = spec_lines(text);
    prm_fold(cand_ids, sep0, sep1, lines, lines.len() as int)
}

/// An error freezes the ballot-file fold.
proof fn lemma_prm_fold_frozen(
    cand_ids: Seq<Seq<char>>,
    sep0: char,
    sep1: char,
    lines: Seq<Seq<char>>,
    i: int,
    j: int,
)
    requires
        0 <= i <= j,
        prm_fold(cand_ids, sep0, sep1, lines, i).err is Some,
    ensures
        prm_fold(cand_ids, sep0, sep1, lines, j) == prm_fold(cand_ids, sep0, sep1, lines, i),
    decreases j - i,
{
    if i < j {
        lemma_prm_fold_frozen(cand_ids, sep0, sep1, lines, i, j - 1);
    }
}

/// What the archive scan has accumulated: the decoded rules text (the last
/// matching one wins) and the ballot files keyed by lower-cased name (a
/// later entry of the same name replaces an earlier one), or the first
/// error.
pub ghost struct ArchiveScan {
    /// The decoded text of the last rules file seen, if any.
    pub chp: Option<Seq<char>>,
    /// The lower-cased ballot-file names, in first-seen order.
    pub prm_names: Seq<Seq<char>>,
    /// The decoded ballot-file texts, aligned with `prm_names`.
    pub prm_texts: Seq<Seq<char>>,
    /// The first unreadable or undecodable entry's error, if any.
    pub err: Option<ParseError>,
}

/// One archive entry: only plain files whose name carries the race marker
/// matter; their lower-cased last path segment selects by extension. Ballot
/// files must be UTF-8; rules files fall back to Latin-1.
pub open spec fn scan_step(data: Seq<u8>, race: Race, m: ArchiveScan, i: int) -> ArchiveScan {
    if m.err is Some {
        m
    } else if !zip_entry_meta_ok(data, i) {
        ArchiveScan { err: Some(ParseError::BadEntry), ..m }
    } else {
        let name = zip_entry_name(data, i);
        if !(zip_entry_is_file(data, i) && spec_contains_seq(name, race_marker(race))) {
            m
        } else {
            let low = spec_lower(last_segment(name));
            if spec_ends_with(low, ".prm"@) {
                if !zip_entry_readable(data, i) {
                    ArchiveScan { err: Some(ParseError::BadEntry), ..m }
                } else {
                    let bytes = clip_1m(zip_entry_data(data, i));
                    if !vstd::utf8::valid_utf8(bytes) {
                        ArchiveScan { err: Some(ParseError::NotUtf8), ..m }
                    } else {
                        let text = vstd::utf8::decode_utf8(bytes);
                        let s = seq_index_of(m.prm_names, low, 0);
                        if s < 0 {
                            ArchiveScan {
                                prm_names: m.prm_names.push(low),
                                prm_texts: m.prm_texts.push(text),
                                ..m
                            }
                        } else {
                            ArchiveScan { prm_texts: m.prm_texts.update(s, text), ..m }
                        }
                    }
                }
            } else if spec_ends_with(low, ".chp"@) {
                if !zip_entry_readable(data, i) {
                    ArchiveScan { err: Some(ParseError::BadEntry), ..m }
                } else {
                    ArchiveScan {
                        chp: Some(crate::strutil::spec_decode_text(clip_1m(zip_entry_data(data, i)))),
                        ..m
                    }
                }
            } else {
                m
            }
        }
    }
}

/// The archive scan over the first `i` entries.
pub open spec fn scan_fold(data: Seq<u8>, race: Race, i: int) -> ArchiveScan
    decreases i,
{
    if i <= 0 {
        ArchiveScan { chp: None, prm_names: Seq::empty(), prm_texts: Seq::empty(), err: None }
    } else {
        scan_step(data, race, scan_fold(data, race, i - 1), i - 1)
    }
}

/// An error freezes the archive scan.
proof fn lemma_scan_fold_frozen(data: Seq<u8>, race: Race, i: int, j: int)
    requires
        0 <= i <= j,
        scan_fold(data, race, i).err is Some,
    ensures
        scan_fold(data, race, j) == scan_fold(data, race, i),
    decreases j - i,
{
    if i < j {
        lemma_scan_fold_frozen(data, race, i, j - 1);
    }
}

/// An include name with its `.prm` suffix stripped: the precinct name.
pub open spec fn strip_prm(inc: Seq<char>) -> Seq<char> {
    if spec_ends_with(inc, ".prm"@) {
        inc.subrange(0, inc.len() - 4)
    } else {
        inc
    }
}

/// What the include resolution has accumulated: one precinct group per
/// include, in include order, or the first error.
pub ghost struct BuildState {
    /// One parsed ballot list per include, in include order.
    pub groups: Seq<Seq<Seq<u8>>>,
    /// The ballot ids, grouped alongside `groups`.
    pub gids: Seq<Seq<Seq<char>>>,
    /// The precinct names: the includes with the `.prm` suffix stripped.
    pub precints: Seq<Seq<char>>,
    /// Which ballot files have already been claimed by an earlier include.
    pub used: Seq<bool>,
    /// The first missing or malformed ballot file's error, if any.
    pub err: Option<ParseError>,
}

/// One include: the first unclaimed ballot file of that name is parsed and
/// claimed; a missing file is a distinct error.
pub open spec fn build_step(
    prm_names: Seq<Seq<char>>,
    prm_texts: Seq<Seq<char>>,
    cand_ids: Seq<Seq<char>>,
    sep0: char,
    sep1: char,
    b: BuildState,
    inc: Seq<char>,
) -> BuildState {
    if b.err is Some {
        b
    } else {
        let s = unused_index_of(prm_names, b.used, inc, 0);
        if s < 0 {
            BuildState { err: Some(ParseError::MissingPrm), ..b }
        } else {
            let pm = spec_parse_prm(prm_texts[s], sep0, sep1, cand_ids);
            if pm.err is Some {
                BuildState { err: pm.err, ..b }
            } else {
                BuildState {
                    groups: b.groups.push(pm.ballots),
                    gids: b.gids.push(pm.ids),
                    precints: b.precints.push(strip_prm(inc)),
                    used: b.used.update(s, true),
                    err: None,
                }
            }
        }
    }
}

/// The include resolution over the first `i` includes, starting with every
/// ballot file unclaimed.
pub open spec fn build_fold(
    prm_names: Seq<Seq<char>>,
    prm_texts: Seq<Seq<char>>,
    cand_ids: Seq<Seq<char>>,
    sep0: char,
    sep1: char,
    includes: Seq<Seq<char>>,
    i: int,
) -> BuildState
    decreases i,
{
    if i <= 0 {
        BuildState {
            groups: Seq::empty(),
            gids: Seq::empty(),
            precints: Seq::empty(),
            used: Seq::new(prm_names.len(), |k: int| false),
            err: None,
        }
    } else {
        build_step(
            prm_names,
            prm_texts,
            cand_ids,
            sep0,
            sep1,
            build_fold(prm_names, prm_texts, cand_ids, sep0, sep1, includes, i - 1),
            includes[i - 1],
        )
    }
}

/// An error freezes the include resolution.
proof fn lemma_build_fold_frozen(
    prm_names: Seq<Seq<char>>,
    prm_texts: Seq<Seq<char>>,
    cand_ids: Seq<Seq<char>>,
    sep0: char,
    sep1: char,
    includes: Seq<Seq<char>>,
    i: int,
    j: int,
)
    requires
        0 <= i <= j,
        build_fold(prm_names, prm_texts, cand_ids, sep0, sep1, includes, i).err is Some,
    ensures
        build_fold(prm_names, prm_texts, cand_ids, sep0, sep1, includes, j) == build_fold(
            prm_names,
            prm_texts,
            cand_ids,
            sep0,
            sep1,
            includes,
            i,
        ),
    decreases j - i,
{
    if i < j {
        lemma_build_fold_frozen(prm_names, prm_texts, cand_ids, sep0, sep1, includes, i, j - 1);
    }
}

/// What a whole archive means for one race: the parsed election, or the
/// first error. A function of the archive bytes and the race alone, so
/// byte-identical archives always parse to the same election.
pub ghost struct ParseModel {
    /// The seat count of the rules file.
    pub seats: int,
    /// The candidate display names; position `k` holds ballot id `k + 1`.
    pub candidates: Seq<Seq<char>>,
    /// The precinct names, one per include, in include order.
    pub precints: Seq<Seq<char>>,
    /// The parsed ballots, grouped by precinct, aligned with `precints`.
    pub groups: Seq<Seq<Seq<u8>>>,
    /// The ballot ids, grouped alongside `groups`.
    pub gids: Seq<Seq<Seq<char>>>,
    /// The first failure, if any.
    pub err: Option<ParseError>,
}

/// An empty election with the given error.
pub open spec fn parse_failed(e: ParseError) -> ParseModel {
    ParseModel {
        seats: 0,
        candidates: Seq::empty(),
        precints: Seq::empty(),
        groups: Seq::empty(),
        gids: Seq::empty(),
        err: Some(e),
    }
}

/// The whole parse, phase by phase: open the archive, scan its entries,
/// read the rules file, then resolve every include into a precinct group.
pub open spec fn spec_parse_ballots(data: Seq<u8>, race: Race) -> ParseModel {
    if !zip_ok(data) {
        parse_failed(ParseError::BadArchive)
    } else {
        let sc = scan_fold(data, race, zip_entry_count(data));
        if sc.err is Some {
            parse_failed(sc.err.unwrap())
        } else if sc.chp is None {
            parse_failed(ParseError::MissingChp)
        } else {
            let cm = spec_parse_chp(sc.chp.unwrap());
            if cm.err is Some {
                parse_failed(cm.err.unwrap())
            } else {
                let b = build_fold(
                    sc.prm_names,
                    sc.prm_texts,
                    cm.candidate_ids,
                    cm.seps[0],
                    cm.seps[1],
                    cm.includes,
                    cm.includes.len() as int,
                );
                if b.err is Some {
                    parse_failed(b.err.unwrap())
                } else {
                    ParseModel {
                        seats: cm.seats,
                        candidates: cm.candidates,
                        precints: b.precints,
                        groups: b.groups,
                        gids: b.gids,
                        err: None,
                    }
                }
            }
        }
    }
}

/// Reads a whole election out of a zip archive, computing exactly
/// `spec_parse_ballots` of the archive bytes and race: the rules file whose
/// name carries the race's marker defines the candidates, the seat count and
/// the ballot files to load; each included ballot file becomes one precinct
/// group, in include order. Rules files read as UTF-8 with a Latin-1
/// fallback; ballot files must be UTF-8. The result is a well-formed
/// election: candidate count capped, groups aligned, every ballot
/// sentinel-padded with known, unrepeated ids.
#[verifier::loop_isolation(false)]
#[verifier::rlimit(60)]
pub fn parse_ballots(zipfile: &[u8], race: Race) -> (r: Result<BallotData, ParseError>)
    ensures
        ({
            let m = spec_parse_ballots(zipfile@, race);
            match r {
                Ok(bd) => {
                    &&& m.err is None
                    &&& bd.seats as int == m.seats
                    &&& sview(bd.candidates@) == m.candidates
                    &&& sview(bd.precints@) == m.precints
                    &&& gbview(bd.ballots@) == m.groups
                    &&& gsview(bd.ballot_ids@) == m.gids
                    &&& wf_ballot_data(bd)
                },
                Err(e) => m.err == Some(e),
            }
        }),
        r is Ok ==> zip_ok(zipfile@),
        (r == Err::<BallotData, ParseError>(ParseError::BadArchive)) == !zip_ok(zipfile@),
        r == Err::<BallotData, ParseError>(ParseError::MissingChp) ==> forall|i: int|
            0 <= i < zip_entry_count(zipfile@) && zip_entry_meta_ok(zipfile@, i)
                ==> !chp_entry(zipfile@, i, race),
{
    let n = match zip_open_count(zipfile) {
        Some(n) => n,
        None => {
            return Err(ParseError::BadArchive);
        },
    };
    let race_chars = str_chars(race.to_str());
    let prm_ext = str_chars(".prm");
    let chp_ext = str_chars(".chp");
    proof {
        reveal_strlit(".prm");
        reveal_strlit(".chp");
    }

    let mut chp: Option<Vec<char>> = None;
    let mut prm_names: Vec<Vec<char>> = Vec::new();
    let mut prm_texts: Vec<Vec<char>> = Vec::new();
    let mut used: Vec<bool> = Vec::new();
    proof {
        assert(lview(Seq::<Vec<char>>::empty()) =~= Seq::<Seq<char>>::empty());
    }

    for i in 0..n
        invariant
            zip_ok(zipfile@),
            n as int == zip_entry_count(zipfile@),
            prm_names@.len() == prm_texts@.len(),
            prm_names@.len() == used@.len(),
            forall|k: int| 0 <= k < used@.len() ==> !used@[k],
            race_chars@ == race_marker(race),
            chp is None ==> forall|k: int|
                0 <= k < i && zip_entry_meta_ok(zipfile@, k) ==> !chp_entry(zipfile@, k, race),
            scan_fold(zipfile@, race, i as int) == (ArchiveScan {
                chp: match chp {
                    Some(t) => Some(t@),
                    None => None,
                },
                prm_names: lview(prm_names@),
                prm_texts: lview(prm_texts@),
                err: None,
            }),
    {
        let ghost cur = scan_fold(zipfile@, race, i as int);
        let (name, is_file) = match zip_entry_meta(zipfile, i) {
            Some(m) => m,
            None => {
                proof {
                    assert(scan_fold(zipfile@, race, i + 1).err == Some(ParseError::BadEntry));
                    lemma_scan_fold_frozen(zipfile@, race, i + 1, n as int);
                }
                return Err(ParseError::BadEntry);
            },
        };
        let name_chars = str_chars(name.as_str());
        let ghost nm = zip_entry_name(zipfile@, i as int);
        if is_file && contains_seq(name_chars.as_slice(), race_chars.as_slice()) {
        let nlen = name_chars.len();
        let seg_start = match rfind_char(name_chars.as_slice(), '/') {
            Some(j) => {
                assert(j < nlen);
                j + 1
            },
            None => 0,
        };
        let segment = copy_range(name_chars.as_slice(), seg_start, nlen);
        let low = lower_chars(segment.as_slice());
        proof {
            assert(segment@ =~= last_segment(nm));
            assert(low@ == spec_lower(last_segment(nm)));
        }
        if ends_with(low.as_slice(), prm_ext.as_slice()) {
            let data = match zip_entry_bytes(zipfile, i) {
                Some(d) => d,
                None => {
                    proof {
                        assert(scan_fold(zipfile@, race, i + 1).err == Some(ParseError::BadEntry));
                        lemma_scan_fold_frozen(zipfile@, race, i + 1, n as int);
                    }
                    return Err(ParseError::BadEntry);
                },
            };
            let text = match crate::strutil::utf8_chars(data.as_slice()) {
                Some(t) => t,
                None => {
                    proof {
                        assert(scan_fold(zipfile@, race, i + 1).err == Some(ParseError::NotUtf8));
                        lemma_scan_fold_frozen(zipfile@, race, i + 1, n as int);
                    }
                    return Err(ParseError::NotUtf8);
                },
            };
            // A later entry of the same name replaces an earlier one.
            let mut slot: usize = prm_names.len();
            let pn = prm_names.len();
            for j in 0..pn
                invariant
                    slot <= pn,
                    pn == prm_names@.len(),
                    slot == pn ==> seq_index_of(lview(prm_names@), low@, 0) == seq_index_of(
                        lview(prm_names@),
                        low@,
                        j as int,
                    ),
                    slot < pn ==> seq_index_of(lview(prm_names@), low@, 0) == slot as int,
            {
                if slot == pn && chars_eq(prm_names[j].as_slice(), low.as_slice()) {
                    slot = j;
                }
            }
            let ghost names_prev = lview(prm_names@);
            let ghost texts_prev = lview(prm_texts@);
            if slot == pn {
                prm_names.push(low);
                prm_texts.push(text);
                used.push(false);
                proof {
                    assert(lview(prm_names@) =~= names_prev.push(
                        spec_lower(last_segment(nm)),
                    ));
                    assert(lview(prm_texts@) =~= texts_prev.push(
                        vstd::utf8::decode_utf8(clip_1m(zip_entry_data(zipfile@, i as int))),
                    ));
                }
            } else {
                prm_texts[slot] = text;
                used[slot] = false;
                proof {
                    assert(lview(prm_texts@) =~= texts_prev.update(
                        slot as int,
                        vstd::utf8::decode_utf8(clip_1m(zip_entry_data(zipfile@, i as int))),
                    ));
                }
            }
            proof {
                // A name ending in .prm cannot also end in .chp.
                if spec_ends_with(spec_lower(last_segment(nm)), ".chp"@) {
                    assert(".chp"@ == ".prm"@);
                    assert(".chp"@[1] == ".prm"@[1]);
                    assert(false);
                }
                assert(!chp_entry(zipfile@, i as int, race));
                assert(scan_fold(zipfile@, race, i + 1) == scan_step(zipfile@, race, cur, i as int));
            }
        } else if ends_with(low.as_slice(), chp_ext.as_slice()) {
            let data = match zip_entry_bytes(zipfile, i) {
                Some(d) => d,
                None => {
                    proof {
                        assert(scan_fold(zipfile@, race, i + 1).err == Some(ParseError::BadEntry));
                        lemma_scan_fold_frozen(zipfile@, race, i + 1, n as int);
                    }
                    return Err(ParseError::BadEntry);
                },
            };
            chp = Some(decode_text(&data));
            proof {
                assert(scan_fold(zipfile@, race, i + 1) == scan_step(zipfile@, race, cur, i as int));
            }
        } else {
            proof {
                assert(!chp_entry(zipfile@, i as int, race));
                assert(scan_fold(zipfile@, race, i + 1) == cur);
            }
        }
        } else {
            proof {
                assert(!chp_entry(zipfile@, i as int, race));
                assert(scan_fold(zipfile@, race, i + 1) == cur);
            }
        }
    }

    let ghost sf = scan_fold(zipfile@, race, zip_entry_count(zipfile@));
    let chp_text = match chp {
        Some(t) => t,
        None => {
            return Err(ParseError::MissingChp);
        },
    };
    let chp_data = match parse_chp(chp_text.as_slice()) {
        Ok(c) => c,
        Err(e) => {
            return Err(e);
        },
    };
    let ghost cm = spec_parse_chp(sf.chp.unwrap());
    let sep0 = chp_data.seps[0];
    let sep1 = chp_data.seps[1];

    let mut ballots: Vec<Vec<Ballot>> = Vec::new();
    let mut ballot_ids: Vec<Vec<String>> = Vec::new();
    let mut precints: Vec<String> = Vec::new();
    let ghost ncand = chp_data.candidates@.len() as int;
    proof {
        assert(used@ =~= Seq::new(sf.prm_names.len(), |k: int| false));
        assert(gbview(Seq::<Vec<Ballot>>::empty()) =~= Seq::<Seq<Seq<u8>>>::empty());
        assert(gsview(Seq::<Vec<String>>::empty()) =~= Seq::<Seq<Seq<char>>>::empty());
        assert(sview(Seq::<String>::empty()) =~= Seq::<Seq<char>>::empty());
    }

    let ninc = chp_data.includes.len();
    for ii in 0..ninc
        invariant
            prm_names@.len() == prm_texts@.len(),
            prm_names@.len() == used@.len(),
            lview(prm_names@) == sf.prm_names,
            lview(prm_texts@) == sf.prm_texts,
            lview(chp_data.includes@) == cm.includes,
            lview(chp_data.candidate_ids@) == cm.candidate_ids,
            ninc == cm.includes.len(),
            chp_data.candidate_ids@.len() == chp_data.candidates@.len(),
            chp_data.candidates@.len() <= 255,
            ballots@.len() == precints@.len(),
            ballot_ids@.len() == precints@.len(),
            forall|g: int|
                0 <= g < ballots@.len() ==> #[trigger] ballots@[g]@.len()
                    == ballot_ids@[g]@.len(),
            forall|g: int, k: int|
                0 <= g < ballots@.len() && 0 <= k < ballots@[g]@.len() ==> wf_ballot(
                    #[trigger] ballots@[g]@[k],
                    ncand,
                ),
            build_fold(sf.prm_names, sf.prm_texts, cm.candidate_ids, sep0, sep1, cm.includes, ii as int)
                == (BuildState {
                groups: gbview(ballots@),
                gids: gsview(ballot_ids@),
                precints: sview(precints@),
                used: used@,
                err: None,
            }),
    {
        let ghost bcur = build_fold(
            sf.prm_names,
            sf.prm_texts,
            cm.candidate_ids,
            sep0,
            sep1,
            cm.includes,
            ii as int,
        );
        let inc = &chp_data.includes[ii];
        let pn = prm_names.len();
        let mut slot: usize = pn;
        for j in 0..pn
            invariant
                slot <= pn,
                pn == prm_names@.len(),
                pn == used@.len(),
                lview(prm_names@) == sf.prm_names,
                slot == pn ==> unused_index_of(sf.prm_names, used@, inc@, 0) == unused_index_of(
                    sf.prm_names,
                    used@,
                    inc@,
                    j as int,
                ),
                slot < pn ==> unused_index_of(sf.prm_names, used@, inc@, 0) == slot as int && !used@[
                    slot as int
                ],
        {
            if slot == pn && !used[j] && chars_eq(prm_names[j].as_slice(), inc.as_slice()) {
                slot = j;
            }
        }
        if slot == pn {
            proof {
                assert(build_fold(
                    sf.prm_names,
                    sf.prm_texts,
                    cm.candidate_ids,
                    sep0,
                    sep1,
                    cm.includes,
                    ii + 1,
                ).err == Some(ParseError::MissingPrm));
                lemma_build_fold_frozen(
                    sf.prm_names,
                    sf.prm_texts,
                    cm.candidate_ids,
                    sep0,
                    sep1,
                    cm.includes,
                    ii + 1,
                    cm.includes.len() as int,
                );
            }
            return Err(ParseError::MissingPrm);
        }
        used[slot] = true;

        let pname = if ends_with(inc.as_slice(), prm_ext.as_slice()) {
            copy_range(inc.as_slice(), 0, inc.len() - 4)
        } else {
            copy_range(inc.as_slice(), 0, inc.len())
        };
        proof {
            assert(pname@ =~= strip_prm(inc@));
        }
        let ghost pprev = sview(precints@);
        precints.push(chars_to_string(pname.as_slice()));
        proof {
            assert(sview(precints@) =~= pprev.push(strip_prm(inc@)));
        }

        match parse_prm(prm_texts[slot].as_slice(), sep0, sep1, &chp_data.candidate_ids) {
            Ok((b, bids)) => {
                let ghost gprev = gbview(ballots@);
                let ghost iprev = gsview(ballot_ids@);
                let ghost bv = bview(b@);
                let ghost iv = sview(bids@);
                ballots.push(b);
                ballot_ids.push(bids);
                proof {
                    assert(gbview(ballots@) =~= gprev.push(bv));
                    assert(gsview(ballot_ids@) =~= iprev.push(iv));
                    assert(build_fold(
                        sf.prm_names,
                        sf.prm_texts,
                        cm.candidate_ids,
                        sep0,
                        sep1,
                        cm.includes,
                        ii + 1,
                    ) == build_step(
                        sf.prm_names,
                        sf.prm_texts,
                        cm.candidate_ids,
                        sep0,
                        sep1,
                        bcur,
                        cm.includes[ii as int],
                    ));
                }
            },
            Err(e) => {
                proof {
                    assert(build_fold(
                        sf.prm_names,
                        sf.prm_texts,
                        cm.candidate_ids,
                        sep0,
                        sep1,
                        cm.includes,
                        ii + 1,
                    ).err == Some(e));
                    lemma_build_fold_frozen(
                        sf.prm_names,
                        sf.prm_texts,
                        cm.candidate_ids,
                        sep0,
                        sep1,
                        cm.includes,
                        ii + 1,
                        cm.includes.len() as int,
                    );
                }
                return Err(e);
            },
        }
    }

    Ok(
        BallotData {
            ballots,
            ballot_ids,
            precints,
            candidates: chp_data.candidates,
            seats: chp_data.seats,
        },
    )
}

} // verus!
