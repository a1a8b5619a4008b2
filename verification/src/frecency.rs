//! The frecency index: a line-delimited store of visited paths, each with an
//! accumulated rank and the time of the last visit, scored by a
//! recency-weighted formula and searched by case-insensitive substring.
//!
//! Ranks are held in thousandths, so the stored decimals (`1`, `0.5`, `5.25`)
//! are exact integers here and scores stay in integer arithmetic: a score is
//! the rank in thousandths times the doubled recency weight.

use vstd::prelude::*;
use crate::digits::{
    all_digits, lemma_milli_chars_digits_or_point, lemma_milli_round_trip, lemma_u64_chars_val,
    lemma_u64_round_trip, milli_to_string, parse_milli, parse_u64, spec_milli_chars,
    spec_parse_milli, spec_parse_u64, spec_u64_chars, u64_to_string,
};
use crate::resolver::{project_name, spec_project_token};
use crate::text::{
    contains_seq, contains_str, first_where, last_segment, lemma_first_where,
    lemma_first_where_at, lemma_first_where_none, lemma_lines_of_lines_text, lemma_split_cons,
    lemma_split_no_sep, lines_of, lines_text, lower_of, lowercase, no_break, rfind_end,
    spec_last_segment, spec_lines, spec_rfind, spec_split, split_str, str_eq, views_of,
};
use vstd::seq_lib::lemma_multiset_commutative;

verus! {

/// One whole visit, as a rank counted in thousandths.
pub const RANK_SCALE: u64 = 1000;

/// The rank seeded by a direct visit: one whole visit.
pub const VISIT_RANK_MILLI: u64 = RANK_SCALE;

/// The rank seeded by an alias: half a visit, so a fresh direct visit
/// outranks a fresh alias.
pub const ALIAS_RANK_MILLI: u64 = RANK_SCALE / 2;

/// Upper bound on a stored rank, in thousandths, so that every score fits in
/// a `u64` (the largest doubled recency weight is eight).
pub const RANK_MILLI_MAX: u64 = u64::MAX / 8;

/// One hour, in seconds.
pub const HOUR_SECS: u64 = 3600;

/// One day, in seconds.
pub const DAY_SECS: u64 = 86400;

/// One week, in seconds.
pub const WEEK_SECS: u64 = 604800;

/// Mathematical image of one index entry.
pub struct EntryModel {
    pub path: Seq<char>,
    pub rank_milli: u64,
    pub timestamp: u64,
}

/// One line of the index: a path (the unique key), its accumulated rank in
/// thousandths of a visit, and the Unix time of the last visit.
#[derive(Debug)]
pub struct ZEntry {
    pub path: String,
    pub rank_milli: u64,
    pub timestamp: u64,
}

impl View for ZEntry {
    type V = EntryModel;

    open spec fn view(&self) -> EntryModel {
        EntryModel { path: self.path@, rank_milli: self.rank_milli, timestamp: self.timestamp }
    }
}

impl Clone for ZEntry {
    fn clone(&self) -> (r: Self)
        ensures
            r@ == self@,
    {
        ZEntry {
            path: self.path.clone(),
            rank_milli: self.rank_milli,
            timestamp: self.timestamp,
        }
    }
}

/// The views of the entries in `v`.
pub open spec fn entry_views(v: Seq<ZEntry>) -> Seq<EntryModel> {
    v.map_values(|e: ZEntry| e@)
}

/// The view of an optional entry.
pub open spec fn opt_entry_view(c: Option<ZEntry>) -> Option<EntryModel> {
    match c {
        Some(e) => Some(e@),
        None => None,
    }
}

/// Every rank is within the stored bound, so every score fits in a `u64`.
pub open spec fn entries_wf(es: Seq<EntryModel>) -> bool {
    forall|i: int| 0 <= i < es.len() ==> (#[trigger] es[i]).rank_milli <= RANK_MILLI_MAX
}

/// The character `'|'` does not occur in `s`, so `s` can stand as the path
/// field of an index line.
pub open spec fn no_pipe(s: Seq<char>) -> bool {
    forall|i: int| 0 <= i < s.len() ==> (#[trigger] s[i]) != '|'
}

/// The entry can be stored on one index line and read back.
pub open spec fn storable(e: EntryModel) -> bool {
    no_pipe(e.path) && no_break(e.path) && e.rank_milli <= RANK_MILLI_MAX
}

/// The textual shape of one entry: path, rank and timestamp, joined by `|`.
pub open spec fn spec_entry_line(e: EntryModel) -> Seq<char> {
    e.path + seq!['|'] + spec_milli_chars(e.rank_milli) + seq!['|'] + spec_u64_chars(e.timestamp as nat)
}

/// The entry denoted by one index line: exactly three `|`-separated fields,
/// the rank a decimal within the stored bound, the timestamp a plain number;
/// anything else denotes no entry.
pub open spec fn spec_entry_of_line(line: Seq<char>) -> Option<EntryModel> {
    let parts = spec_split(line, '|');
    if parts.len() != 3 {
        None
    } else {
        match (spec_parse_milli(parts[1]), spec_parse_u64(parts[2])) {
            (Some(r), Some(t)) => {
                if r <= RANK_MILLI_MAX {
                    Some(EntryModel { path: parts[0], rank_milli: r, timestamp: t })
                } else {
                    None
                }
            },
            _ => None,
        }
    }
}

impl ZEntry {
    /// Parse one index line; unreadable lines denote no entry.
    pub fn from_line(line: &str) -> (r: Option<ZEntry>)
        ensures
            opt_entry_view(r) == spec_entry_of_line(line@),
            r matches Some(e) ==> e.rank_milli <= RANK_MILLI_MAX,
    {
        let parts = split_str(line, '|');
        if parts.len() != 3 {
            proof {
                assert(views_of(parts@).len() == parts@.len());
            }
            return None;
        }
        proof {
            assert(views_of(parts@).len() == parts@.len());
            assert(views_of(parts@)[0] == parts@[0]@);
            assert(views_of(parts@)[1] == parts@[1]@);
            assert(views_of(parts@)[2] == parts@[2]@);
        }
        let rank = match parse_milli(parts[1].as_str()) {
            Some(r) => r,
            None => {
                return None;
            },
        };
        if rank > RANK_MILLI_MAX {
            return None;
        }
        let ts = match parse_u64(parts[2].as_str()) {
            Some(t) => t,
            None => {
                return None;
            },
        };
        let path = parts[0].clone();
        Some(ZEntry { path, rank_milli: rank, timestamp: ts })
    }

    /// Render the entry as one index line.
    pub fn to_line(&self) -> (r: String)
        ensures
            r@ == spec_entry_line(self@),
    {
        proof {
            reveal_strlit("|");
        }
        let mut s = self.path.clone();
        s.append("|");
        let rank_str = milli_to_string(self.rank_milli);
        s.append(rank_str.as_str());
        s.append("|");
        let ts_str = u64_to_string(self.timestamp);
        s.append(ts_str.as_str());
        proof {
            assert(s@ =~= spec_entry_line(self@));
        }
        s
    }

    /// Age of the entry at time `now`, clamped at zero for timestamps in the
    /// future, times the doubled recency weight of that age: 8 under an hour,
    /// 4 under a day, 2 under a week, 1 beyond. The unit is one
    /// two-thousandth of a visit-point.
    pub fn frecency_score(&self, now: u64) -> (r: u64)
        requires
            self.rank_milli <= RANK_MILLI_MAX,
        ensures
            r == spec_score(self@, now),
    {
        let age = if now >= self.timestamp {
            now - self.timestamp
        } else {
            0
        };
        let w: u64 = if age < HOUR_SECS {
            8
        } else if age < DAY_SECS {
            4
        } else if age < WEEK_SECS {
            2
        } else {
            1
        };
        proof {
            assert(self.rank_milli * w <= u64::MAX) by (nonlinear_arith)
                requires
                    self.rank_milli <= u64::MAX / 8,
                    w <= 8,
            ;
        }
        self.rank_milli * w
    }
}

/// Seconds since the last visit, zero when the timestamp lies in the future.
pub open spec fn spec_age_secs(now: u64, timestamp: u64) -> u64 {
    if now >= timestamp {
        (now - timestamp) as u64
    } else {
        0
    }
}

/// The doubled recency weight of an age: 8 (weight 4) under an hour, 4
/// (weight 2) under a day, 2 (weight 1) under a week, 1 (weight one half)
/// beyond.
pub open spec fn spec_weight_half(age_secs: u64) -> u64 {
    if age_secs < HOUR_SECS {
        8
    } else if age_secs < DAY_SECS {
        4
    } else if age_secs < WEEK_SECS {
        2
    } else {
        1
    }
}

/// The frecency score of an entry at time `now`: its rank times the doubled
/// recency weight of its age, in two-thousandths of a visit-point.
pub open spec fn spec_score(e: EntryModel, now: u64) -> u64
    recommends
        e.rank_milli <= RANK_MILLI_MAX,
{
    (e.rank_milli * spec_weight_half(spec_age_secs(now, e.timestamp))) as u64
}

/// Holding the rank fixed, the score strictly falls as the age crosses each
/// recency boundary: an age under one hour outscores one under a day, which
/// outscores one under a week, which outscores anything older. A zero rank
/// scores zero in every bucket, so strictness asks for a nonzero rank.
pub proof fn lemma_score_strictly_decreasing_in_buckets(
    e1: EntryModel,
    e2: EntryModel,
    e3: EntryModel,
    e4: EntryModel,
    now: u64,
)
    requires
        1 <= e1.rank_milli <= RANK_MILLI_MAX,
        e2.rank_milli == e1.rank_milli,
        e3.rank_milli == e1.rank_milli,
        e4.rank_milli == e1.rank_milli,
        spec_age_secs(now, e1.timestamp) < HOUR_SECS,
        HOUR_SECS <= spec_age_secs(now, e2.timestamp) < DAY_SECS,
        DAY_SECS <= spec_age_secs(now, e3.timestamp) < WEEK_SECS,
        WEEK_SECS <= spec_age_secs(now, e4.timestamp),
    ensures
        spec_score(e1, now) > spec_score(e2, now),
        spec_score(e2, now) > spec_score(e3, now),
        spec_score(e3, now) > spec_score(e4, now),
{
    let r = e1.rank_milli;
    assert(r * 8 <= u64::MAX && r * 8 > r * 4 && r * 4 > r * 2 && r * 2 > r * 1)
        by (nonlinear_arith)
        requires
            1 <= r <= u64::MAX / 8,
    ;
}

/// Line round trip: rendering any storable entry and parsing the line back
/// yields the entry itself.
pub proof fn lemma_entry_line_round_trip(e: EntryModel)
    requires
        storable(e),
    ensures
        spec_entry_of_line(spec_entry_line(e)) == Some(e),
{
    let a = e.path;
    let b = spec_milli_chars(e.rank_milli);
    let c = spec_u64_chars(e.timestamp as nat);
    lemma_milli_chars_digits_or_point(e.rank_milli);
    assert(forall|j: int| 0 <= j < b.len() ==> b[j] != '|');
    lemma_u64_chars_val(e.timestamp as nat);
    assert(all_digits(c));
    assert(forall|j: int| 0 <= j < c.len() ==> c[j] != '|');
    let line = spec_entry_line(e);
    assert(line =~= a + seq!['|'] + (b + seq!['|'] + c));
    lemma_split_cons(a, b + seq!['|'] + c, '|');
    lemma_split_cons(b, c, '|');
    lemma_split_no_sep(c, '|');
    let parts = spec_split(line, '|');
    assert(parts =~= seq![a, b, c]);
    lemma_milli_round_trip(e.rank_milli);
    lemma_u64_round_trip(e.timestamp);
}

/// No character of a storable entry's line is a line break.
proof fn lemma_entry_line_no_break(e: EntryModel)
    requires
        storable(e),
    ensures
        no_break(spec_entry_line(e)),
{
    let a = e.path;
    let b = spec_milli_chars(e.rank_milli);
    let c = spec_u64_chars(e.timestamp as nat);
    lemma_milli_chars_digits_or_point(e.rank_milli);
    lemma_u64_chars_val(e.timestamp as nat);
    let line = spec_entry_line(e);
    assert(forall|j: int| 0 <= j < line.len() ==> (#[trigger] line[j]) != '\n' && line[j] != '\r')
        by {
        assert(forall|j: int| 0 <= j < a.len() ==> line[j] == a[j]);
        assert(line[a.len() as int] == '|');
        assert(forall|j: int|
            a.len() + 1 <= j < a.len() + 1 + b.len() ==> line[j] == b[j - a.len() - 1]);
        assert(line[a.len() as int + 1 + b.len() as int] == '|');
        assert(forall|j: int|
            a.len() + b.len() + 2 <= j < line.len() ==> line[j] == c[j - a.len() - b.len() - 2]);
    }
}

/// The entries denoted by a sequence of index lines, unreadable lines
/// silently dropped.
pub open spec fn spec_entries_of_lines(lines: Seq<Seq<char>>) -> Seq<EntryModel>
    decreases lines.len(),
{
    if lines.len() == 0 {
        Seq::empty()
    } else {
        spec_entries_of_lines(lines.drop_last()) + match spec_entry_of_line(lines.last()) {
            Some(e) => seq![e],
            None => Seq::empty(),
        }
    }
}

/// The text of the whole index: one line per entry.
pub open spec fn spec_entries_text(es: Seq<EntryModel>) -> Seq<char> {
    lines_text(es.map_values(|e: EntryModel| spec_entry_line(e)))
}

/// Appending one line to a text appends its terminated characters.
proof fn lemma_lines_text_push(ls: Seq<Seq<char>>, x: Seq<char>)
    ensures
        lines_text(ls.push(x)) == lines_text(ls) + x + seq!['\n'],
    decreases ls.len(),
{
    if ls.len() == 0 {
        assert(ls.push(x).drop_first() =~= Seq::<Seq<char>>::empty());
        assert(ls.push(x)[0] == x);
        assert(lines_text(Seq::<Seq<char>>::empty()) =~= Seq::<char>::empty());
        assert(lines_text(ls.push(x)) =~= lines_text(ls) + x + seq!['\n']);
    } else {
        lemma_lines_text_push(ls.drop_first(), x);
        assert(ls.push(x).drop_first() =~= ls.drop_first().push(x));
        assert(ls.push(x)[0] == ls[0]);
        assert(lines_text(ls.push(x)) =~= lines_text(ls) + x + seq!['\n']);
    }
}

/// Store round trip: rendering any sequence of storable entries as index
/// text and reading the text back yields the same entries, in order.
pub proof fn lemma_store_round_trip(es: Seq<EntryModel>)
    requires
        forall|i: int| 0 <= i < es.len() ==> storable(#[trigger] es[i]),
    ensures
        spec_entries_of_lines(spec_lines(spec_entries_text(es))) == es,
    decreases es.len(),
{
    let lm = es.map_values(|e: EntryModel| spec_entry_line(e));
    assert(forall|i: int| 0 <= i < lm.len() ==> no_break(#[trigger] lm[i])) by {
        assert forall|i: int| 0 <= i < lm.len() implies no_break(#[trigger] lm[i]) by {
            lemma_entry_line_no_break(es[i]);
        }
    }
    lemma_lines_of_lines_text(lm);
    lemma_entries_of_entry_lines(es);
}

/// Reading back the rendered lines of storable entries yields the entries.
proof fn lemma_entries_of_entry_lines(es: Seq<EntryModel>)
    requires
        forall|i: int| 0 <= i < es.len() ==> storable(#[trigger] es[i]),
    ensures
        spec_entries_of_lines(es.map_values(|e: EntryModel| spec_entry_line(e))) == es,
    decreases es.len(),
{
    let lm = es.map_values(|e: EntryModel| spec_entry_line(e));
    if es.len() == 0 {
        assert(spec_entries_of_lines(lm) =~= es);
    } else {
        let front = es.drop_last();
        assert(forall|i: int| 0 <= i < front.len() ==> storable(#[trigger] front[i]));
        lemma_entries_of_entry_lines(front);
        assert(lm.drop_last() =~= front.map_values(|e: EntryModel| spec_entry_line(e)));
        assert(lm.last() == spec_entry_line(es.last()));
        lemma_entry_line_round_trip(es.last());
        assert(spec_entries_of_lines(lm) =~= es);
    }
}

/// An entry's path is exactly `path`.
pub open spec fn path_pred(path: Seq<char>) -> spec_fn(EntryModel) -> bool {
    |e: EntryModel| e.path == path
}

/// The entry with its rank raised by `delta`, saturated at the stored bound,
/// and its timestamp refreshed.
pub open spec fn bump(e: EntryModel, delta: u64, now: u64) -> EntryModel {
    EntryModel { path: e.path, rank_milli: rank_add(e.rank_milli, delta), timestamp: now }
}

/// Rank addition, saturated at the stored bound.
pub open spec fn rank_add(r: u64, d: u64) -> u64 {
    if r + d <= RANK_MILLI_MAX {
        (r + d) as u64
    } else {
        RANK_MILLI_MAX
    }
}

/// What `upsert` leaves in the store: the first entry keyed by `path` bumped
/// in place, or a fresh entry with rank `delta` appended at the end.
pub open spec fn spec_upsert(
    es: Seq<EntryModel>,
    path: Seq<char>,
    delta: u64,
    now: u64,
) -> Seq<EntryModel> {
    let i = first_where(es, path_pred(path));
    if i >= 0 {
        es.update(i, bump(es[i], delta, now))
    } else {
        es.push(EntryModel { path: path, rank_milli: delta, timestamp: now })
    }
}

/// No two entries share a path.
pub open spec fn paths_unique(es: Seq<EntryModel>) -> bool {
    forall|i: int, j: int|
        0 <= i < j < es.len() ==> (#[trigger] es[i]).path != (#[trigger] es[j]).path
}

/// Upsert keeps the store's invariant of at most one entry per path: it
/// merges into the existing row rather than appending a second one.
pub proof fn lemma_upsert_keeps_paths_unique(
    es: Seq<EntryModel>,
    path: Seq<char>,
    delta: u64,
    now: u64,
)
    requires
        paths_unique(es),
    ensures
        paths_unique(spec_upsert(es, path, delta, now)),
{
    lemma_first_where(es, path_pred(path));
    let i = first_where(es, path_pred(path));
    let r = spec_upsert(es, path, delta, now);
    if i >= 0 {
        assert(forall|k: int| 0 <= k < r.len() ==> (#[trigger] r[k]).path == es[k].path);
    } else {
        assert(forall|k: int| 0 <= k < es.len() ==> (#[trigger] es[k]).path != path);
        assert(forall|k: int| 0 <= k < es.len() ==> (#[trigger] r[k]) == es[k]);
        assert(r[es.len() as int].path == path);
    }
}

/// The sibling of `path` named `name`: `name` joined onto the parent
/// directory of `path` (for key strings without a trailing separator).
pub open spec fn spec_sibling(path: Seq<char>, name: Seq<char>) -> Seq<char> {
    if spec_rfind(path, '/') < 0 {
        name
    } else {
        path.take(spec_rfind(path, '/')) + seq!['/'] + name
    }
}

/// Upsert either bumps the first entry keyed by `path` in place, leaving
/// every other entry and the length untouched, or appends exactly one fresh
/// entry whose rank is the delta; never a duplicate row. The key is present
/// exactly when `first_where` finds it.
pub proof fn lemma_upsert_properties(es: Seq<EntryModel>, path: Seq<char>, delta: u64, now: u64)
    ensures
        (first_where(es, path_pred(path)) >= 0) <==> (exists|k: int|
            0 <= k < es.len() && (#[trigger] es[k]).path == path),
        first_where(es, path_pred(path)) >= 0 ==> {
            let i = first_where(es, path_pred(path));
            let r = spec_upsert(es, path, delta, now);
            &&& r.len() == es.len()
            &&& r[i].path == es[i].path
            &&& r[i].timestamp == now
            &&& (es[i].rank_milli + delta <= RANK_MILLI_MAX ==> r[i].rank_milli == es[i].rank_milli
                + delta)
            &&& forall|j: int| 0 <= j < es.len() && j != i ==> r[j] == es[j]
        },
        first_where(es, path_pred(path)) == -1 ==> spec_upsert(es, path, delta, now) == es.push(
            EntryModel { path: path, rank_milli: delta, timestamp: now },
        ),
{
    lemma_first_where(es, path_pred(path));
    if first_where(es, path_pred(path)) == -1 {
        if exists|k: int| 0 <= k < es.len() && (#[trigger] es[k]).path == path {
            let k = choose|k: int| 0 <= k < es.len() && (#[trigger] es[k]).path == path;
            assert(path_pred(path)(es[k]));
        }
    }
}

/// The sibling of `path` named `name`, as `spec_sibling` builds it.
fn sibling_path(path: &str, name: &str) -> (r: String)
    ensures
        r@ == spec_sibling(path@, name@),
{
    let b = rfind_end(path, '/');
    if b == 0 {
        name.to_owned()
    } else {
        proof {
            reveal_strlit("/");
        }
        let mut s = path.substring_char(0, b - 1).to_owned();
        s.append("/");
        s.append(name);
        proof {
            assert(s@ =~= spec_sibling(path@, name@));
        }
        s
    }
}

/// The entries kept by an eviction: those whose flag says the path exists,
/// in their original order and unchanged. `exists[i]` reports on `es[i]`.
pub open spec fn spec_kept(es: Seq<EntryModel>, exists: Seq<bool>) -> Seq<EntryModel>
    recommends
        es.len() == exists.len(),
    decreases es.len(),
{
    if es.len() == 0 {
        Seq::empty()
    } else {
        let r = spec_kept(es.drop_last(), exists.drop_last());
        if exists[es.len() - 1] {
            r.push(es.last())
        } else {
            r
        }
    }
}

/// The paths removed by an eviction: those whose flag says the path is gone,
/// in their original order.
pub open spec fn spec_evicted(es: Seq<EntryModel>, exists: Seq<bool>) -> Seq<Seq<char>>
    recommends
        es.len() == exists.len(),
    decreases es.len(),
{
    if es.len() == 0 {
        Seq::empty()
    } else {
        let r = spec_evicted(es.drop_last(), exists.drop_last());
        if exists[es.len() - 1] {
            r
        } else {
            r.push(es.last().path)
        }
    }
}

/// The in-memory image of the frecency index file: the entries in file
/// order, at most one per path when every change goes through `upsert`.
pub struct ZIntegration {
    entries: Vec<ZEntry>,
}

impl View for ZIntegration {
    type V = Seq<EntryModel>;

    closed spec fn view(&self) -> Seq<EntryModel> {
        entry_views(self.entries@)
    }
}

impl ZIntegration {
    /// An empty index.
    pub fn new() -> (r: Self)
        ensures
            r@ == Seq::<EntryModel>::empty(),
            entries_wf(r@),
    {
        let r = ZIntegration { entries: Vec::new() };
        proof {
            assert(r@ =~= Seq::<EntryModel>::empty());
        }
        r
    }

    /// The entries, in store order.
    pub fn entries(&self) -> (r: &Vec<ZEntry>)
        ensures
            entry_views(r@) == self@,
    {
        &self.entries
    }

    /// Read an index from its file text, silently dropping unreadable lines.
    pub fn from_text(text: &str) -> (r: Self)
        ensures
            r@ == spec_entries_of_lines(spec_lines(text@)),
            entries_wf(r@),
    {
        let lines = lines_of(text);
        let ghost lv = spec_lines(text@);
        let n = lines.len();
        let mut entries: Vec<ZEntry> = Vec::new();
        let mut i: usize = 0;
        proof {
            assert(entry_views(entries@) =~= spec_entries_of_lines(lv.subrange(0, 0)));
        }
        while i < n
            invariant
                i <= n,
                n == lines@.len(),
                views_of(lines@) == lv,
                entry_views(entries@) == spec_entries_of_lines(lv.subrange(0, i as int)),
                entries_wf(entry_views(entries@)),
            decreases n - i,
        {
            let ghost prev = entry_views(entries@);
            proof {
                assert(views_of(lines@)[i as int] == lines@[i as int]@);
                assert(lv.subrange(0, i + 1).drop_last() =~= lv.subrange(0, i as int));
                assert(lv.subrange(0, i + 1).last() == lv[i as int]);
            }
            match ZEntry::from_line(lines[i].as_str()) {
                Some(e) => {
                    entries.push(e);
                    proof {
                        assert(entry_views(entries@) =~= prev.push(e@));
                        assert(prev + seq![e@] =~= prev.push(e@));
                    }
                },
                None => {},
            }
            i = i + 1;
        }
        proof {
            assert(lv.subrange(0, n as int) =~= lv);
        }
        ZIntegration { entries }
    }

    /// Render the index as its file text: one line per entry, each terminated
    /// by a line feed.
    pub fn to_text(&self) -> (r: String)
        ensures
            r@ == spec_entries_text(self@),
    {
        proof {
            reveal_strlit("\n");
        }
        let ghost lm = self@.map_values(|e: EntryModel| spec_entry_line(e));
        let n = self.entries.len();
        let mut s = String::new();
        let mut i: usize = 0;
        proof {
            assert(lm.take(0) =~= Seq::<Seq<char>>::empty());
            assert(s@ =~= lines_text(lm.take(0)));
        }
        while i < n
            invariant
                i <= n,
                n == self.entries@.len(),
                lm == self@.map_values(|e: EntryModel| spec_entry_line(e)),
                self@ == entry_views(self.entries@),
                s@ == lines_text(lm.take(i as int)),
            decreases n - i,
        {
            proof {
                assert(entry_views(self.entries@)[i as int] == self.entries@[i as int]@);
            }
            let line = self.entries[i].to_line();
            s.append(line.as_str());
            s.append("\n");
            proof {
                reveal_strlit("\n");
                lemma_lines_text_push(lm.take(i as int), lm[i as int]);
                assert(lm.take(i + 1) =~= lm.take(i as int).push(lm[i as int]));
                assert(s@ =~= lines_text(lm.take(i + 1)));
            }
            i = i + 1;
        }
        proof {
            assert(lm.take(n as int) =~= lm);
        }
        s
    }

    /// Index of the first entry keyed by `path`, if any.
    fn find_index(&self, path: &str) -> (r: Option<usize>)
        ensures
            r matches Some(i) ==> 0 <= i < self@.len() && i == first_where(self@, path_pred(path@)),
            r is None ==> first_where(self@, path_pred(path@)) == -1,
    {
        let n = self.entries.len();
        let mut i: usize = 0;
        while i < n
            invariant
                i <= n,
                n == self.entries@.len(),
                self@ == entry_views(self.entries@),
                forall|j: int| 0 <= j < i ==> !(path_pred(path@)(#[trigger] self@[j])),
            decreases n - i,
        {
            proof {
                assert(entry_views(self.entries@)[i as int] == self.entries@[i as int]@);
            }
            if str_eq(self.entries[i].path.as_str(), path) {
                proof {
                    lemma_first_where_at(self@, path_pred(path@), i as int);
                }
                return Some(i);
            }
            i = i + 1;
        }
        proof {
            lemma_first_where_none(self@, path_pred(path@));
        }
        None
    }

    /// Raise the rank of the entry keyed by `path` by `delta` (saturating at
    /// the stored bound) and refresh its timestamp, or append a fresh entry
    /// with rank `delta`; never a duplicate row.
    pub fn upsert(&mut self, path: &str, delta: u64, now: u64)
        requires
            delta <= RANK_MILLI_MAX,
            entries_wf(old(self)@),
        ensures
            final(self)@ == spec_upsert(old(self)@, path@, delta, now),
            entries_wf(final(self)@),
    {
        match self.find_index(path) {
            Some(i) => {
                let e = self.entries.remove(i);
                let ghost old_views = entry_views(old(self).entries@);
                let nr = match e.rank_milli.checked_add(delta) {
                    Some(x) => {
                        if x <= RANK_MILLI_MAX {
                            x
                        } else {
                            RANK_MILLI_MAX
                        }
                    },
                    None => RANK_MILLI_MAX,
                };
                let bumped = ZEntry { path: e.path, rank_milli: nr, timestamp: now };
                self.entries.insert(i, bumped);
                proof {
                    assert(entry_views(self.entries@) =~= old_views.update(
                        i as int,
                        bump(old_views[i as int], delta, now),
                    ));
                }
            },
            None => {
                let fresh = ZEntry { path: path.to_owned(), rank_milli: delta, timestamp: now };
                self.entries.push(fresh);
                proof {
                    assert(entry_views(self.entries@) =~= spec_upsert(old(self)@, path@, delta, now));
                }
            },
        }
    }

    /// Drop every entry keyed by `path`; the rest keep their content and
    /// order.
    pub fn remove_worktree(&mut self, path: &str)
        requires
            entries_wf(old(self)@),
        ensures
            final(self)@ == old(self)@.filter(|e: EntryModel| e.path != path@),
            entries_wf(final(self)@),
    {
        let ghost old_views = entry_views(self.entries@);
        let n = self.entries.len();
        let mut kept: Vec<ZEntry> = Vec::new();
        let mut i: usize = 0;
        proof {
            reveal(Seq::filter);
            assert(old_views.subrange(0, 0) =~= Seq::<EntryModel>::empty());
            assert(entry_views(kept@) =~= old_views.subrange(0, 0).filter(
                |e: EntryModel| e.path != path@,
            ));
        }
        while i < n
            invariant
                i <= n,
                n == self.entries@.len(),
                old_views == entry_views(self.entries@),
                entries_wf(old_views),
                entries_wf(entry_views(kept@)),
                entry_views(kept@) == old_views.subrange(0, i as int).filter(
                    |e: EntryModel| e.path != path@,
                ),
            decreases n - i,
        {
            proof {
                reveal(Seq::filter);
                assert(entry_views(self.entries@)[i as int] == self.entries@[i as int]@);
                assert(old_views.subrange(0, i + 1).drop_last() =~= old_views.subrange(0, i as int));
                assert(old_views.subrange(0, i + 1).last() == old_views[i as int]);
            }
            let ghost prev = entry_views(kept@);
            if !str_eq(self.entries[i].path.as_str(), path) {
                kept.push(self.entries[i].clone());
                proof {
                    reveal(Seq::filter);
                    assert(entry_views(kept@) =~= prev.push(old_views[i as int]));
                    assert(old_views.subrange(0, i + 1).filter(|e: EntryModel| e.path != path@)
                        =~= prev.push(old_views[i as int]));
                }
            } else {
                proof {
                    reveal(Seq::filter);
                    assert(old_views.subrange(0, i + 1).filter(|e: EntryModel| e.path != path@)
                        =~= prev);
                }
            }
            i = i + 1;
        }
        proof {
            assert(old_views.subrange(0, n as int) =~= old_views);
        }
        self.entries = kept;
    }

    /// Drop exactly the entries whose flag reports a missing path and hand
    /// back those paths; kept entries stay unchanged, in order.
    /// `path_exists[i]` reports on the `i`-th entry.
    pub fn cleanup_worktrees(&mut self, path_exists: &Vec<bool>) -> (removed: Vec<String>)
        requires
            path_exists@.len() == old(self)@.len(),
            entries_wf(old(self)@),
        ensures
            final(self)@ == spec_kept(old(self)@, path_exists@),
            views_of(removed@) == spec_evicted(old(self)@, path_exists@),
            entries_wf(final(self)@),
    {
        let ghost old_views = entry_views(self.entries@);
        let ghost ex = path_exists@;
        let n = self.entries.len();
        let mut kept: Vec<ZEntry> = Vec::new();
        let mut removed: Vec<String> = Vec::new();
        let mut i: usize = 0;
        proof {
            assert(entry_views(kept@) =~= spec_kept(
                old_views.subrange(0, 0),
                ex.subrange(0, 0),
            ));
            assert(views_of(removed@) =~= spec_evicted(
                old_views.subrange(0, 0),
                ex.subrange(0, 0),
            ));
        }
        while i < n
            invariant
                i <= n,
                n == self.entries@.len(),
                ex.len() == n,
                ex == path_exists@,
                old_views == entry_views(self.entries@),
                entries_wf(old_views),
                entries_wf(entry_views(kept@)),
                entry_views(kept@) == spec_kept(
                    old_views.subrange(0, i as int),
                    ex.subrange(0, i as int),
                ),
                views_of(removed@) == spec_evicted(
                    old_views.subrange(0, i as int),
                    ex.subrange(0, i as int),
                ),
            decreases n - i,
        {
            proof {
                assert(entry_views(self.entries@)[i as int] == self.entries@[i as int]@);
                assert(old_views.subrange(0, i + 1).drop_last() =~= old_views.subrange(0, i as int));
                assert(ex.subrange(0, i + 1).drop_last() =~= ex.subrange(0, i as int));
                assert(old_views.subrange(0, i + 1).last() == old_views[i as int]);
            }
            let ghost prev_kept = entry_views(kept@);
            let ghost prev_removed = views_of(removed@);
            if path_exists[i] {
                kept.push(self.entries[i].clone());
                proof {
                    assert(entry_views(kept@) =~= prev_kept.push(old_views[i as int]));
                }
            } else {
                removed.push(self.entries[i].path.clone());
                proof {
                    assert(views_of(removed@) =~= prev_removed.push(old_views[i as int].path));
                }
            }
            i = i + 1;
        }
        proof {
            assert(old_views.subrange(0, n as int) =~= old_views);
            assert(ex.subrange(0, n as int) =~= ex);
        }
        self.entries = kept;
        removed
    }

    /// Record a visit to `path` (one whole visit of rank) and, when an alias
    /// name is given, a half-rank visit to the alias path, a synthesized
    /// sibling of `path`.
    pub fn add_worktree(&mut self, path: &str, alias: Option<&str>, now: u64)
        requires
            entries_wf(old(self)@),
        ensures
            final(self)@ == match alias {
                Some(a) => spec_upsert(
                    spec_upsert(old(self)@, path@, VISIT_RANK_MILLI, now),
                    spec_sibling(path@, a@),
                    ALIAS_RANK_MILLI,
                    now,
                ),
                None => spec_upsert(old(self)@, path@, VISIT_RANK_MILLI, now),
            },
            entries_wf(final(self)@),
    {
        self.upsert(path, VISIT_RANK_MILLI, now);
        match alias {
            Some(a) => {
                let sib = sibling_path(path, a);
                self.upsert(sib.as_str(), ALIAS_RANK_MILLI, now);
            },
            None => {},
        }
    }

    /// Record a visit to `path` under a smart alias `<project>-<branch>`,
    /// where the project token comes from the remote URL when the remote
    /// query succeeded and from the directory name otherwise.
    pub fn create_smart_alias(
        &mut self,
        worktree_path: &str,
        branch_name: &str,
        remote_url: Option<&str>,
        now: u64,
    )
        requires
            entries_wf(old(self)@),
        ensures
            final(self)@ == spec_upsert(
                spec_upsert(old(self)@, worktree_path@, VISIT_RANK_MILLI, now),
                spec_sibling(
                    worktree_path@,
                    spec_project_token(
                        match remote_url {
                            Some(u) => Some(u@),
                            None => None,
                        },
                        worktree_path@,
                    ) + seq!['-'] + branch_name@,
                ),
                ALIAS_RANK_MILLI,
                now,
            ),
            entries_wf(final(self)@),
    {
        proof {
            reveal_strlit("-");
        }
        let mut alias = project_name(remote_url, worktree_path);
        alias.append("-");
        alias.append(branch_name);
        proof {
            assert(alias@ =~= spec_project_token(
                match remote_url {
                    Some(u) => Some(u@),
                    None => None,
                },
                worktree_path@,
            ) + seq!['-'] + branch_name@);
        }
        self.add_worktree(worktree_path, Some(alias.as_str()), now);
    }

    /// The entries matching `query` whose paths exist, sorted by frecency
    /// score, highest first; entries with equal scores come in no promised
    /// order. `path_exists[i]` reports on the `i`-th entry.
    pub fn search_worktrees(&self, query: &str, path_exists: &Vec<bool>, now: u64) -> (r: Vec<
        ZEntry,
    >)
        requires
            path_exists@.len() == self@.len(),
            entries_wf(self@),
        ensures
            entry_views(r@).to_multiset() == spec_matching(
                self@,
                path_exists@,
                query@,
            ).to_multiset(),
            forall|a: int, b: int|
                0 <= a < b < r@.len() ==> spec_score(entry_views(r@)[a], now) >= spec_score(
                    entry_views(r@)[b],
                    now,
                ),
            entries_wf(entry_views(r@)),
    {
        let ghost es = self@;
        let ghost ex = path_exists@;
        let q_lower = lowercase(query);
        let n = self.entries.len();
        let mut matched: Vec<ZEntry> = Vec::new();
        let mut i: usize = 0;
        proof {
            assert(entry_views(matched@) =~= spec_matching(
                es.subrange(0, 0),
                ex.subrange(0, 0),
                query@,
            ));
        }
        while i < n
            invariant
                i <= n,
                n == self.entries@.len(),
                es == entry_views(self.entries@),
                ex == path_exists@,
                ex.len() == n,
                q_lower@ == lower_of(query@),
                entries_wf(es),
                entries_wf(entry_views(matched@)),
                forall|t: int|
                    0 <= t < matched@.len() ==> (#[trigger] matched@[t]).rank_milli
                        <= RANK_MILLI_MAX,
                entry_views(matched@) == spec_matching(
                    es.subrange(0, i as int),
                    ex.subrange(0, i as int),
                    query@,
                ),
            decreases n - i,
        {
            proof {
                assert(entry_views(self.entries@)[i as int] == self.entries@[i as int]@);
                assert(es.subrange(0, i + 1).drop_last() =~= es.subrange(0, i as int));
                assert(ex.subrange(0, i + 1).drop_last() =~= ex.subrange(0, i as int));
                assert(es.subrange(0, i + 1).last() == es[i as int]);
            }
            let ghost prev = entry_views(matched@);
            if path_exists[i] {
                let path_lower = lowercase(self.entries[i].path.as_str());
                let seg_lower = lowercase(last_segment(self.entries[i].path.as_str(), '/'));
                if contains_str(path_lower.as_str(), q_lower.as_str()) || contains_str(
                    seg_lower.as_str(),
                    q_lower.as_str(),
                ) {
                    matched.push(self.entries[i].clone());
                    proof {
                        assert(entry_views(matched@) =~= prev.push(es[i as int]));
                    }
                }
            }
            i = i + 1;
        }
        proof {
            assert(es.subrange(0, n as int) =~= es);
            assert(ex.subrange(0, n as int) =~= ex);
        }
        // insertion sort by score, highest first
        let m = matched.len();
        let mut out: Vec<ZEntry> = Vec::new();
        let mut j: usize = 0;
        proof {
            broadcast use vstd::seq_lib::group_to_multiset_ensures;

            assert(entry_views(out@) =~= Seq::<EntryModel>::empty());
            assert(entry_views(matched@).subrange(0, 0) =~= Seq::<EntryModel>::empty());
            assert(entry_views(out@).to_multiset() =~= entry_views(matched@).subrange(
                0,
                0,
            ).to_multiset());
        }
        while j < m
            invariant
                j <= m,
                m == matched@.len(),
                entries_wf(entry_views(matched@)),
                entries_wf(entry_views(out@)),
                forall|t: int|
                    0 <= t < matched@.len() ==> (#[trigger] matched@[t]).rank_milli
                        <= RANK_MILLI_MAX,
                forall|t: int|
                    0 <= t < out@.len() ==> (#[trigger] out@[t]).rank_milli <= RANK_MILLI_MAX,
                entry_views(out@).to_multiset() == entry_views(matched@).subrange(
                    0,
                    j as int,
                ).to_multiset(),
                forall|a: int, b: int|
                    0 <= a < b < out@.len() ==> spec_score(entry_views(out@)[a], now) >= spec_score(
                        entry_views(out@)[b],
                        now,
                    ),
            decreases m - j,
        {
            proof {
                assert(entry_views(matched@)[j as int] == matched@[j as int]@);
            }
            let e = matched[j].clone();
            let score_e = e.frecency_score(now);
            let k = out.len();
            let mut pos: usize = 0;
            while pos < k && out[pos].frecency_score(now) >= score_e
                invariant
                    pos <= k,
                    k == out@.len(),
                    entries_wf(entry_views(out@)),
                    forall|t: int|
                        0 <= t < out@.len() ==> (#[trigger] out@[t]).rank_milli <= RANK_MILLI_MAX,
                    e.rank_milli <= RANK_MILLI_MAX,
                    score_e == spec_score(e@, now),
                    forall|t: int|
                        0 <= t < pos ==> spec_score(entry_views(out@)[t], now) >= score_e,
                decreases k - pos,
            {
                proof {
                    assert(entry_views(out@)[pos as int] == out@[pos as int]@);
                }
                pos = pos + 1;
            }
            let ghost old_out = entry_views(out@);
            let ghost old_raw = out@;
            let ghost prefix = entry_views(matched@).subrange(0, j as int);
            let ghost e_snap = e;
            out.insert(pos, e);
            proof {
                broadcast use vstd::seq_lib::group_to_multiset_ensures;

                old_raw.insert_ensures(pos as int, e_snap);
                assert(forall|t: int|
                    0 <= t < out@.len() ==> (#[trigger] out@[t]).rank_milli <= RANK_MILLI_MAX) by {
                    assert(forall|t: int|
                        0 <= t < out@.len() && t != pos ==> out@[t] == if t < pos {
                            old_raw[t]
                        } else {
                            old_raw[t - 1]
                        });
                    assert(out@[pos as int] == e_snap);
                }

                assert(entry_views(out@) =~= old_out.insert(pos as int, e@));
                lemma_to_multiset_insert(old_out, pos as int, e@);
                assert(entry_views(matched@).subrange(0, j + 1) =~= prefix.push(e@));
                assert(entry_views(out@).to_multiset() =~= entry_views(matched@).subrange(
                    0,
                    j + 1,
                ).to_multiset());
                old_out.insert_ensures(pos as int, e@);
                let new_out = entry_views(out@);
                assert forall|a: int, b: int| 0 <= a < b < new_out.len() implies spec_score(
                    new_out[a],
                    now,
                ) >= spec_score(new_out[b], now) by {
                    if a < pos && b == pos {
                        assert(new_out[a] == old_out[a]);
                        assert(new_out[b] == e@);
                    } else if a < pos && b > pos {
                        assert(new_out[a] == old_out[a]);
                        assert(new_out[b] == old_out[b - 1]);
                    } else if a == pos && b > pos {
                        assert(new_out[a] == e@);
                        assert(new_out[b] == old_out[b - 1]);
                        assert(b - 1 >= pos);
                        if pos < old_out.len() {
                            assert(spec_score(old_out[pos as int], now) < score_e);
                            if b - 1 > pos {
                                assert(spec_score(old_out[b - 1], now) <= spec_score(
                                    old_out[pos as int],
                                    now,
                                ));
                            }
                        }
                    } else if a > pos {
                        assert(new_out[a] == old_out[a - 1]);
                        assert(new_out[b] == old_out[b - 1]);
                    } else {
                        assert(a < pos && b < pos);
                        assert(new_out[a] == old_out[a]);
                        assert(new_out[b] == old_out[b]);
                    }
                }
                assert(entries_wf(new_out)) by {
                    assert(forall|t: int|
                        0 <= t < new_out.len() ==> (#[trigger] new_out[t]).rank_milli
                            <= RANK_MILLI_MAX) by {
                        assert(forall|t: int|
                            0 <= t < new_out.len() && t != pos ==> new_out[t] == if t < pos {
                                old_out[t]
                            } else {
                                old_out[t - 1]
                            });
                    }
                }
            }
            j = j + 1;
        }
        proof {
            assert(entry_views(matched@).subrange(0, m as int) =~= entry_views(matched@));
            assert(entry_views(matched@) == spec_matching(es, ex, query@));
        }
        out
    }

    /// The path of some highest-scoring matching entry, `None` when nothing
    /// matches; which of several equally best entries is unspecified.
    pub fn find_best_match(&self, query: &str, path_exists: &Vec<bool>, now: u64) -> (r: Option<
        String,
    >)
        requires
            path_exists@.len() == self@.len(),
            entries_wf(self@),
        ensures
            (r is None) <==> spec_matching(self@, path_exists@, query@).len() == 0,
            r matches Some(p) ==> exists|k: int|
                0 <= k < spec_matching(self@, path_exists@, query@).len() && (#[trigger]
                spec_matching(self@, path_exists@, query@)[k]).path == p@ && (forall|t: int|
                    0 <= t < spec_matching(self@, path_exists@, query@).len() ==> spec_score(
                        spec_matching(self@, path_exists@, query@)[k],
                        now,
                    ) >= spec_score(
                        #[trigger] spec_matching(self@, path_exists@, query@)[t],
                        now,
                    )),
    {
        let found = self.search_worktrees(query, path_exists, now);
        let ghost ms = spec_matching(self@, path_exists@, query@);
        let ghost rv = entry_views(found@);
        proof {
            broadcast use vstd::seq_lib::group_to_multiset_ensures;

            assert(rv.len() == rv.to_multiset().len());
            assert(ms.len() == ms.to_multiset().len());
        }
        if found.len() == 0 {
            None
        } else {
            proof {
                broadcast use vstd::seq_lib::group_to_multiset_ensures;

                assert(entry_views(found@)[0] == found@[0]@);
                assert(rv.contains(rv[0]));
                assert(ms.to_multiset().count(rv[0]) > 0);
                assert(ms.contains(rv[0]));
                let k = choose|k: int| 0 <= k < ms.len() && ms[k] == rv[0];
                assert forall|t: int| 0 <= t < ms.len() implies spec_score(ms[k], now)
                    >= spec_score(#[trigger] ms[t], now) by {
                    assert(ms.contains(ms[t]));
                    assert(rv.to_multiset().count(ms[t]) > 0);
                    assert(rv.contains(ms[t]));
                    let b = choose|b: int| 0 <= b < rv.len() && rv[b] == ms[t];
                    assert(spec_score(rv[0], now) >= spec_score(rv[b], now));
                }
                assert(0 <= k < ms.len() && ms[k].path == found@[0]@.path && (forall|t: int|
                    0 <= t < ms.len() ==> spec_score(ms[k], now) >= spec_score(
                        #[trigger] ms[t],
                        now,
                    )));
            }
            Some(found[0].path.clone())
        }
    }
}

/// An entry matches the query: its whole path or its final component
/// contains the query, all compared in lowercase.
pub open spec fn entry_matches(e: EntryModel, query: Seq<char>) -> bool {
    contains_seq(lower_of(e.path), lower_of(query)) || contains_seq(
        lower_of(spec_last_segment(e.path, '/')),
        lower_of(query),
    )
}

/// The entries whose paths exist and which match the query, in store order.
/// `exists[i]` reports on `es[i]`.
pub open spec fn spec_matching(es: Seq<EntryModel>, exists: Seq<bool>, query: Seq<char>) -> Seq<
    EntryModel,
>
    recommends
        es.len() == exists.len(),
    decreases es.len(),
{
    if es.len() == 0 {
        Seq::empty()
    } else {
        let r = spec_matching(es.drop_last(), exists.drop_last(), query);
        if exists[es.len() - 1] && entry_matches(es.last(), query) {
            r.push(es.last())
        } else {
            r
        }
    }
}

/// Inserting an element anywhere in a sequence inserts it into the multiset.
proof fn lemma_to_multiset_insert<A>(s: Seq<A>, i: int, v: A)
    requires
        0 <= i <= s.len(),
    ensures
        s.insert(i, v).to_multiset() == s.to_multiset().insert(v),
{
    broadcast use vstd::seq_lib::group_to_multiset_ensures;

    let a = s.subrange(0, i);
    let b = s.subrange(i, s.len() as int);
    assert(s.insert(i, v) =~= a.push(v) + b);
    lemma_multiset_commutative(a.push(v), b);
    assert(s =~= a + b);
    lemma_multiset_commutative(a, b);
    assert(a.push(v).to_multiset() =~= a.to_multiset().insert(v));
    assert(a.to_multiset().insert(v).add(b.to_multiset()) =~= a.to_multiset().add(
        b.to_multiset(),
    ).insert(v));
}

} // verus!
