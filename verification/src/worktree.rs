//! Working-tree records, the porcelain listing parser, the status parser,
//! and the classification of working trees that are no longer needed.

use vstd::prelude::*;
use crate::text::{
    contains_seq, contains_str, first_where, has_prefix, last_segment, lemma_first_where_at,
    lemma_first_where_none, lemma_lines_empty, lemma_lines_of_lines_text, lines_of, lines_text,
    no_break,
    spec_last_segment, spec_lines, spec_trim, starts_with, str_eq, strip_prefix, trim, views_of,
};

verus! {

/// Mathematical image of one working-tree record.
pub struct WorktreeModel {
    pub path: Seq<char>,
    pub branch: Seq<char>,
    pub head: Seq<char>,
    pub is_bare: bool,
}

/// One checkout of the repository, as one record of the porcelain listing.
/// `branch` is the short branch name, empty for a detached head.
#[derive(Debug)]
pub struct Worktree {
    pub path: String,
    pub branch: String,
    pub head: String,
    pub is_bare: bool,
}

impl View for Worktree {
    type V = WorktreeModel;

    open spec fn view(&self) -> WorktreeModel {
        WorktreeModel {
            path: self.path@,
            branch: self.branch@,
            head: self.head@,
            is_bare: self.is_bare,
        }
    }
}

impl Clone for Worktree {
    fn clone(&self) -> (r: Self)
        ensures
            r@ == self@,
    {
        Worktree {
            path: self.path.clone(),
            branch: self.branch.clone(),
            head: self.head.clone(),
            is_bare: self.is_bare,
        }
    }
}

/// The views of the worktrees in `v`.
pub open spec fn worktree_views(v: Seq<Worktree>) -> Seq<WorktreeModel> {
    v.map_values(|w: Worktree| w@)
}

/// The view of an optional accumulator record.
pub open spec fn opt_view(c: Option<Worktree>) -> Option<WorktreeModel> {
    match c {
        Some(w) => Some(w@),
        None => None,
    }
}

/// Append the pending record, if any, to the finished ones.
pub open spec fn flush(cur: Option<WorktreeModel>, acc: Seq<WorktreeModel>) -> Seq<WorktreeModel> {
    match cur {
        Some(w) => acc.push(w),
        None => acc,
    }
}

/// The branch name carried by a `branch ` line: the remainder of the line,
/// without a leading `refs/heads/`.
pub open spec fn spec_branch_name(rest: Seq<char>) -> Seq<char> {
    if has_prefix(rest, "refs/heads/"@) {
        rest.subrange("refs/heads/"@.len() as int, rest.len() as int)
    } else {
        rest
    }
}

/// One step of the listing state machine: how one line changes the pending
/// record and the finished records.
pub open spec fn spec_step(
    line: Seq<char>,
    cur: Option<WorktreeModel>,
    acc: Seq<WorktreeModel>,
) -> (Option<WorktreeModel>, Seq<WorktreeModel>) {
    if has_prefix(line, "worktree "@) {
        let started = WorktreeModel {
            path: line.subrange("worktree "@.len() as int, line.len() as int),
            branch: Seq::empty(),
            head: Seq::empty(),
            is_bare: false,
        };
        (Some(started), flush(cur, acc))
    } else if has_prefix(line, "HEAD "@) {
        match cur {
            Some(w) => (
                Some(
                    WorktreeModel {
                        head: line.subrange("HEAD "@.len() as int, line.len() as int),
                        ..w
                    },
                ),
                acc,
            ),
            None => (cur, acc),
        }
    } else if has_prefix(line, "branch "@) {
        match cur {
            Some(w) => (
                Some(
                    WorktreeModel {
                        branch: spec_branch_name(
                            line.subrange("branch "@.len() as int, line.len() as int),
                        ),
                        ..w
                    },
                ),
                acc,
            ),
            None => (cur, acc),
        }
    } else if line == "bare"@ {
        match cur {
            Some(w) => (Some(WorktreeModel { is_bare: true, ..w }), acc),
            None => (cur, acc),
        }
    } else {
        (cur, acc)
    }
}

/// Run the state machine over the lines from `i` on and flush at the end.
pub open spec fn spec_parse_from(
    lines: Seq<Seq<char>>,
    i: int,
    cur: Option<WorktreeModel>,
    acc: Seq<WorktreeModel>,
) -> Seq<WorktreeModel>
    decreases lines.len() - i,
{
    if 0 <= i < lines.len() {
        let st = spec_step(lines[i], cur, acc);
        spec_parse_from(lines, i + 1, st.0, st.1)
    } else {
        flush(cur, acc)
    }
}

/// The working-tree records denoted by a porcelain listing.
pub open spec fn spec_parse_worktrees(s: Seq<char>) -> Seq<WorktreeModel> {
    spec_parse_from(spec_lines(s), 0, None, Seq::empty())
}

/// The run of the state machine over a whole sequence of lines.
pub open spec fn parse_lines(
    lines: Seq<Seq<char>>,
    cur: Option<WorktreeModel>,
    acc: Seq<WorktreeModel>,
) -> Seq<WorktreeModel>
    decreases lines.len(),
{
    if lines.len() == 0 {
        flush(cur, acc)
    } else {
        let st = spec_step(lines[0], cur, acc);
        parse_lines(lines.drop_first(), st.0, st.1)
    }
}

/// Running the machine from index `i` is running it over the remaining lines.
pub proof fn lemma_parse_from_is_parse_lines(
    lines: Seq<Seq<char>>,
    i: int,
    cur: Option<WorktreeModel>,
    acc: Seq<WorktreeModel>,
)
    requires
        0 <= i <= lines.len(),
    ensures
        spec_parse_from(lines, i, cur, acc) == parse_lines(lines.skip(i), cur, acc),
    decreases lines.len() - i,
{
    if i < lines.len() {
        let st = spec_step(lines[i], cur, acc);
        lemma_parse_from_is_parse_lines(lines, i + 1, st.0, st.1);
        assert(lines.skip(i)[0] == lines[i]);
        assert(lines.skip(i).drop_first() =~= lines.skip(i + 1));
    } else {
        assert(lines.skip(i).len() == 0);
    }
}

/// Every field of the record fits on a porcelain line.
pub open spec fn valid_record(w: WorktreeModel) -> bool {
    no_break(w.path) && no_break(w.branch) && no_break(w.head)
}

/// The porcelain lines of one record: the `worktree ` and `HEAD ` lines, a
/// `branch ` line unless the head is detached, `bare` for a bare tree, and a
/// blank separator.
pub open spec fn record_lines(w: WorktreeModel) -> Seq<Seq<char>> {
    seq!["worktree "@ + w.path, "HEAD "@ + w.head] + (if w.branch.len() > 0 {
        seq!["branch refs/heads/"@ + w.branch]
    } else {
        Seq::empty()
    }) + (if w.is_bare {
        seq!["bare"@]
    } else {
        Seq::empty()
    }) + seq![Seq::<char>::empty()]
}

/// The porcelain lines of a sequence of records, in order.
pub open spec fn listing_lines(wts: Seq<WorktreeModel>) -> Seq<Seq<char>>
    decreases wts.len(),
{
    if wts.len() == 0 {
        Seq::empty()
    } else {
        record_lines(wts[0]) + listing_lines(wts.drop_first())
    }
}

/// The porcelain textual shape of a sequence of records.
pub open spec fn spec_porcelain(wts: Seq<WorktreeModel>) -> Seq<char> {
    lines_text(listing_lines(wts))
}

/// Every porcelain line of a valid record is break-free.
proof fn lemma_record_lines_no_break(w: WorktreeModel)
    requires
        valid_record(w),
    ensures
        forall|i: int| 0 <= i < record_lines(w).len() ==> no_break(#[trigger] record_lines(w)[i]),
{
    reveal_strlit("worktree ");
    reveal_strlit("HEAD ");
    reveal_strlit("branch refs/heads/");
    reveal_strlit("bare");
    let ls = record_lines(w);
    assert forall|i: int| 0 <= i < ls.len() implies no_break(#[trigger] ls[i]) by {
        assert(no_break(ls[i])) by {
            assert(forall|j: int|
                0 <= j < ls[i].len() ==> (#[trigger] ls[i][j]) != '\n' && ls[i][j] != '\r');
        }
    }
}

/// The machine consumes the lines of one valid record by flushing the pending
/// record and leaving the parsed record pending.
proof fn lemma_parse_record(
    w: WorktreeModel,
    rest: Seq<Seq<char>>,
    cur: Option<WorktreeModel>,
    acc: Seq<WorktreeModel>,
)
    requires
        valid_record(w),
    ensures
        parse_lines(record_lines(w) + rest, cur, acc) == parse_lines(rest, Some(w), flush(cur, acc)),
{
    reveal_strlit("worktree ");
    reveal_strlit("HEAD ");
    reveal_strlit("branch ");
    reveal_strlit("branch refs/heads/");
    reveal_strlit("refs/heads/");
    reveal_strlit("bare");
    let l1 = "worktree "@ + w.path;
    let l2 = "HEAD "@ + w.head;
    let l3 = "branch refs/heads/"@ + w.branch;
    let l4 = "bare"@;
    let lb = Seq::<char>::empty();
    let s = record_lines(w) + rest;
    let acc1 = flush(cur, acc);

    // the `worktree ` line starts a fresh record and flushes the pending one
    assert(has_prefix(l1, "worktree "@)) by {
        assert(l1.subrange(0, "worktree "@.len() as int) =~= "worktree "@);
    }
    let w1 = WorktreeModel {
        path: l1.subrange("worktree "@.len() as int, l1.len() as int),
        branch: Seq::empty(),
        head: Seq::empty(),
        is_bare: false,
    };
    assert(w1.path =~= w.path);
    assert(spec_step(l1, cur, acc) == (Some(w1), acc1));

    // the `HEAD ` line only sets the head
    assert(!has_prefix(l2, "worktree "@)) by {
        if has_prefix(l2, "worktree "@) {
            assert(l2.subrange(0, "worktree "@.len() as int)[0] == 'w');
        }
    }
    assert(has_prefix(l2, "HEAD "@)) by {
        assert(l2.subrange(0, "HEAD "@.len() as int) =~= "HEAD "@);
    }
    let w2 = WorktreeModel { head: l2.subrange("HEAD "@.len() as int, l2.len() as int), ..w1 };
    assert(w2.head =~= w.head);
    assert(spec_step(l2, Some(w1), acc1) == (Some(w2), acc1));

    // the `branch ` line strips `refs/heads/` and sets the branch
    assert(!has_prefix(l3, "worktree "@)) by {
        if has_prefix(l3, "worktree "@) {
            assert(l3.subrange(0, "worktree "@.len() as int)[0] == 'w');
        }
    }
    assert(!has_prefix(l3, "HEAD "@)) by {
        if has_prefix(l3, "HEAD "@) {
            assert(l3.subrange(0, "HEAD "@.len() as int)[0] == 'H');
        }
    }
    assert(has_prefix(l3, "branch "@)) by {
        assert(l3.subrange(0, "branch "@.len() as int) =~= "branch "@);
    }
    let r3 = l3.subrange("branch "@.len() as int, l3.len() as int);
    assert(r3 =~= "refs/heads/"@ + w.branch);
    assert(has_prefix(r3, "refs/heads/"@)) by {
        assert(r3.subrange(0, "refs/heads/"@.len() as int) =~= "refs/heads/"@);
    }
    assert(spec_branch_name(r3) =~= w.branch);
    let w3 = WorktreeModel { branch: w.branch, ..w2 };
    assert(spec_step(l3, Some(w2), acc1) == (Some(w3), acc1));

    // the `bare` line only sets the flag
    assert(!has_prefix(l4, "worktree "@));
    assert(!has_prefix(l4, "HEAD "@)) by {
        if has_prefix(l4, "HEAD "@) {
            assert(l4.len() >= "HEAD "@.len());
        }
    }
    assert(!has_prefix(l4, "branch "@));
    assert(l4 != "worktree "@ && l4 != "HEAD "@ && l4 != "branch "@);

    // the blank separator changes nothing
    assert(!has_prefix(lb, "worktree "@));
    assert(!has_prefix(lb, "HEAD "@));
    assert(!has_prefix(lb, "branch "@));
    assert(lb != "bare"@) by {
        assert("bare"@.len() == 4);
    }
    assert(forall|c: Option<WorktreeModel>, a: Seq<WorktreeModel>|
        #[trigger] spec_step(lb, c, a) == (c, a));

    if w.branch.len() > 0 && w.is_bare {
        let w4 = WorktreeModel { is_bare: true, ..w3 };
        assert(spec_step(l4, Some(w3), acc1) == (Some(w4), acc1));
        assert(w4 == w);
        assert(s =~= seq![l1, l2, l3, l4, lb] + rest);
        assert(s.drop_first() =~= seq![l2, l3, l4, lb] + rest);
        assert(parse_lines(s, cur, acc) == parse_lines(seq![l2, l3, l4, lb] + rest, Some(w1), acc1));
        assert((seq![l2, l3, l4, lb] + rest).drop_first() =~= seq![l3, l4, lb] + rest);
        assert(parse_lines(seq![l2, l3, l4, lb] + rest, Some(w1), acc1) == parse_lines(
            seq![l3, l4, lb] + rest,
            Some(w2),
            acc1,
        ));
        assert((seq![l3, l4, lb] + rest).drop_first() =~= seq![l4, lb] + rest);
        assert(parse_lines(seq![l3, l4, lb] + rest, Some(w2), acc1) == parse_lines(
            seq![l4, lb] + rest,
            Some(w3),
            acc1,
        ));
        assert((seq![l4, lb] + rest).drop_first() =~= seq![lb] + rest);
        assert(parse_lines(seq![l4, lb] + rest, Some(w3), acc1) == parse_lines(
            seq![lb] + rest,
            Some(w4),
            acc1,
        ));
        assert((seq![lb] + rest).drop_first() =~= rest);
        assert(parse_lines(seq![lb] + rest, Some(w4), acc1) == parse_lines(rest, Some(w4), acc1));
    } else if w.branch.len() > 0 {
        assert(w3 == w);
        assert(s =~= seq![l1, l2, l3, lb] + rest);
        assert(s.drop_first() =~= seq![l2, l3, lb] + rest);
        assert(parse_lines(s, cur, acc) == parse_lines(seq![l2, l3, lb] + rest, Some(w1), acc1));
        assert((seq![l2, l3, lb] + rest).drop_first() =~= seq![l3, lb] + rest);
        assert(parse_lines(seq![l2, l3, lb] + rest, Some(w1), acc1) == parse_lines(
            seq![l3, lb] + rest,
            Some(w2),
            acc1,
        ));
        assert((seq![l3, lb] + rest).drop_first() =~= seq![lb] + rest);
        assert(parse_lines(seq![l3, lb] + rest, Some(w2), acc1) == parse_lines(
            seq![lb] + rest,
            Some(w3),
            acc1,
        ));
        assert((seq![lb] + rest).drop_first() =~= rest);
        assert(parse_lines(seq![lb] + rest, Some(w3), acc1) == parse_lines(rest, Some(w3), acc1));
    } else if w.is_bare {
        let w4 = WorktreeModel { is_bare: true, ..w2 };
        assert(spec_step(l4, Some(w2), acc1) == (Some(w4), acc1));
        assert(w4.branch =~= w.branch);
        assert(w4 == w);
        assert(s =~= seq![l1, l2, l4, lb] + rest);
        assert(s.drop_first() =~= seq![l2, l4, lb] + rest);
        assert(parse_lines(s, cur, acc) == parse_lines(seq![l2, l4, lb] + rest, Some(w1), acc1));
        assert((seq![l2, l4, lb] + rest).drop_first() =~= seq![l4, lb] + rest);
        assert(parse_lines(seq![l2, l4, lb] + rest, Some(w1), acc1) == parse_lines(
            seq![l4, lb] + rest,
            Some(w2),
            acc1,
        ));
        assert((seq![l4, lb] + rest).drop_first() =~= seq![lb] + rest);
        assert(parse_lines(seq![l4, lb] + rest, Some(w2), acc1) == parse_lines(
            seq![lb] + rest,
            Some(w4),
            acc1,
        ));
        assert((seq![lb] + rest).drop_first() =~= rest);
        assert(parse_lines(seq![lb] + rest, Some(w4), acc1) == parse_lines(rest, Some(w4), acc1));
    } else {
        assert(w2.branch =~= w.branch);
        assert(w2 == w);
        assert(s =~= seq![l1, l2, lb] + rest);
        assert(s.drop_first() =~= seq![l2, lb] + rest);
        assert(parse_lines(s, cur, acc) == parse_lines(seq![l2, lb] + rest, Some(w1), acc1));
        assert((seq![l2, lb] + rest).drop_first() =~= seq![lb] + rest);
        assert(parse_lines(seq![l2, lb] + rest, Some(w1), acc1) == parse_lines(
            seq![lb] + rest,
            Some(w2),
            acc1,
        ));
        assert((seq![lb] + rest).drop_first() =~= rest);
        assert(parse_lines(seq![lb] + rest, Some(w2), acc1) == parse_lines(rest, Some(w2), acc1));
    }
}

/// The machine turns the lines of a valid listing into exactly its records,
/// behind whatever was pending and finished before.
proof fn lemma_parse_listing(
    wts: Seq<WorktreeModel>,
    cur: Option<WorktreeModel>,
    acc: Seq<WorktreeModel>,
)
    requires
        forall|i: int| 0 <= i < wts.len() ==> valid_record(#[trigger] wts[i]),
    ensures
        parse_lines(listing_lines(wts), cur, acc) == flush(cur, acc) + wts,
    decreases wts.len(),
{
    if wts.len() == 0 {
        assert(flush(cur, acc) + wts =~= flush(cur, acc));
    } else {
        let rest = wts.drop_first();
        lemma_parse_record(wts[0], listing_lines(rest), cur, acc);
        assert(forall|i: int| 0 <= i < rest.len() ==> valid_record(#[trigger] rest[i]));
        lemma_parse_listing(rest, Some(wts[0]), flush(cur, acc));
        assert(flush(cur, acc).push(wts[0]) + rest =~= flush(cur, acc) + wts);
    }
}

/// Listing round trip: parsing the porcelain shape of any valid records
/// yields those records, in order.
pub proof fn lemma_listing_round_trip(wts: Seq<WorktreeModel>)
    requires
        forall|i: int| 0 <= i < wts.len() ==> valid_record(#[trigger] wts[i]),
    ensures
        spec_parse_worktrees(spec_porcelain(wts)) == wts,
    decreases wts.len(),
{
    assert(forall|i: int|
        0 <= i < listing_lines(wts).len() ==> no_break(#[trigger] listing_lines(wts)[i])) by {
        lemma_listing_lines_no_break(wts);
    }
    lemma_lines_of_lines_text(listing_lines(wts));
    lemma_parse_from_is_parse_lines(listing_lines(wts), 0, None, Seq::empty());
    assert(listing_lines(wts).skip(0) =~= listing_lines(wts));
    lemma_parse_listing(wts, None, Seq::empty());
    assert(Seq::<WorktreeModel>::empty() + wts =~= wts);
}

/// Every line of a valid listing is break-free.
proof fn lemma_listing_lines_no_break(wts: Seq<WorktreeModel>)
    requires
        forall|i: int| 0 <= i < wts.len() ==> valid_record(#[trigger] wts[i]),
    ensures
        forall|i: int|
            0 <= i < listing_lines(wts).len() ==> no_break(#[trigger] listing_lines(wts)[i]),
    decreases wts.len(),
{
    if wts.len() > 0 {
        let rest = wts.drop_first();
        lemma_record_lines_no_break(wts[0]);
        assert(forall|i: int| 0 <= i < rest.len() ==> valid_record(#[trigger] rest[i]));
        lemma_listing_lines_no_break(rest);
        let ls = listing_lines(wts);
        let k = record_lines(wts[0]).len();
        assert forall|i: int| 0 <= i < ls.len() implies no_break(#[trigger] ls[i]) by {
            if i < k {
                assert(ls[i] == record_lines(wts[0])[i]);
            } else {
                assert(ls[i] == listing_lines(rest)[i - k]);
            }
        }
    }
}

/// An empty listing parses to no records at all.
pub proof fn lemma_empty_listing_parses_empty()
    ensures
        spec_parse_worktrees(Seq::<char>::empty()) == Seq::<WorktreeModel>::empty(),
{
    lemma_lines_empty();
}

/// Counts of files in each state of a short-format status listing;
/// `is_clean` holds exactly when all four counts are zero.
#[derive(Debug, Clone, Copy)]
pub struct WorktreeStatus {
    pub is_clean: bool,
    pub modified: usize,
    pub added: usize,
    pub deleted: usize,
    pub untracked: usize,
    pub ahead: usize,
    pub behind: usize,
}

/// How one status line is classified, first matching rule winning:
/// 1 added (staged `A`), 2 modified (either column `M`), 3 deleted (either
/// column `D`), 4 untracked (both columns `?`), 0 ignored (too short or
/// unrecognized).
pub open spec fn line_kind(line: Seq<char>) -> int {
    if line.len() < 2 {
        0
    } else if line[0] == 'A' {
        1
    } else if line[0] == 'M' || line[1] == 'M' {
        2
    } else if line[0] == 'D' || line[1] == 'D' {
        3
    } else if line[0] == '?' && line[1] == '?' {
        4
    } else {
        0
    }
}

/// How many lines are classified as `k`.
pub open spec fn count_kind(lines: Seq<Seq<char>>, k: int) -> nat
    decreases lines.len(),
{
    if lines.len() == 0 {
        0
    } else {
        count_kind(lines.drop_last(), k) + if line_kind(lines.last()) == k {
            1nat
        } else {
            0nat
        }
    }
}

/// A count of lines never exceeds the number of lines.
pub proof fn lemma_count_kind_le(lines: Seq<Seq<char>>, k: int)
    ensures
        count_kind(lines, k) <= lines.len(),
    decreases lines.len(),
{
    if lines.len() > 0 {
        lemma_count_kind_le(lines.drop_last(), k);
    }
}

/// A line of a `branch --merged` listing names `branch`: the trimmed line is
/// the branch name, plainly or behind the current-branch marker `* `.
pub open spec fn merged_marker(line: Seq<char>, branch: Seq<char>) -> bool {
    spec_trim(line) == branch || spec_trim(line) == "* "@ + branch
}

/// Some line of the listing names `branch` as merged.
pub open spec fn spec_merged(branch: Seq<char>, listing: Seq<char>) -> bool {
    exists|i: int|
        0 <= i < spec_lines(listing).len() && merged_marker(
            #[trigger] spec_lines(listing)[i],
            branch,
        )
}

/// The listing of a remote's heads is blank, so the branch is gone remotely.
pub fn remote_branch_absent(listing: &str) -> (r: bool)
    ensures
        r == (spec_trim(listing@).len() == 0),
{
    trim(listing).unicode_len() == 0
}

/// Why a working tree is classified as unnecessary, in priority order.
#[derive(Debug, Clone, Copy, PartialEq, Eq, Structural)]
pub enum RemovalReason {
    /// Its branch is listed as merged into the main branch.
    MergedIntoMain,
    /// Its directory no longer exists on disk.
    PathMissing,
    /// Its branch no longer exists on the remote.
    RemoteDeleted,
}

/// The classification of one working tree, short-circuiting on the first
/// matching reason; bare trees and the main branch's tree are never touched.
pub open spec fn spec_classify(
    w: WorktreeModel,
    main_branch: Seq<char>,
    merged_listing: Seq<char>,
    path_exists: bool,
    remote_gone: bool,
) -> Option<RemovalReason> {
    if w.is_bare || w.branch == main_branch {
        None
    } else if spec_merged(w.branch, merged_listing) {
        Some(RemovalReason::MergedIntoMain)
    } else if !path_exists {
        Some(RemovalReason::PathMissing)
    } else if remote_gone {
        Some(RemovalReason::RemoteDeleted)
    } else {
        None
    }
}

/// The unnecessary working trees from index `i` on, each with its reason,
/// in listing order.
pub open spec fn spec_unnecessary_from(
    wts: Seq<WorktreeModel>,
    main_branch: Seq<char>,
    merged_listing: Seq<char>,
    path_exists: Seq<bool>,
    remote_gone: Seq<bool>,
    i: int,
) -> Seq<(WorktreeModel, RemovalReason)>
    decreases wts.len() - i,
{
    if 0 <= i < wts.len() {
        let rest = spec_unnecessary_from(
            wts,
            main_branch,
            merged_listing,
            path_exists,
            remote_gone,
            i + 1,
        );
        match spec_classify(wts[i], main_branch, merged_listing, path_exists[i], remote_gone[i]) {
            Some(r) => seq![(wts[i], r)] + rest,
            None => rest,
        }
    } else {
        Seq::empty()
    }
}

/// The views of reason-tagged worktrees.
pub open spec fn pair_views(v: Seq<(Worktree, RemovalReason)>) -> Seq<(WorktreeModel, RemovalReason)> {
    v.map_values(|p: (Worktree, RemovalReason)| (p.0@, p.1))
}

/// A record's branch is exactly `name`.
pub open spec fn branch_pred(name: Seq<char>) -> spec_fn(WorktreeModel) -> bool {
    |w: WorktreeModel| w.branch == name
}

/// The final component of a record's path contains `name`.
pub open spec fn segment_pred(name: Seq<char>) -> spec_fn(WorktreeModel) -> bool {
    |w: WorktreeModel| contains_seq(spec_last_segment(w.path, '/'), name)
}

/// The record `find_worktree_by_name` selects: the first whose branch is
/// exactly `name`, or failing that the first whose path's final component
/// contains `name`.
pub open spec fn spec_find_by_name(wts: Seq<WorktreeModel>, name: Seq<char>) -> Option<
    WorktreeModel,
> {
    let bi = first_where(wts, branch_pred(name));
    if bi >= 0 {
        Some(wts[bi])
    } else {
        let pi = first_where(wts, segment_pred(name));
        if pi >= 0 {
            Some(wts[pi])
        } else {
            None
        }
    }
}

/// Drives the external tool and interprets its line-oriented output.
pub struct WorktreeManager;

impl WorktreeManager {
    /// A fresh manager; it carries no state.
    pub fn new() -> Self {
        WorktreeManager
    }

    /// Parse the porcelain `worktree list` output: a `worktree ` line starts
    /// a record, `HEAD `, `branch ` and `bare` lines fill it, anything else
    /// is ignored, and the end of input flushes the pending record.
    pub fn parse_worktree_list(&self, output: &str) -> (r: Vec<Worktree>)
        ensures
            worktree_views(r@) == spec_parse_worktrees(output@),
    {
        let lines = lines_of(output);
        let ghost lv = spec_lines(output@);
        let n = lines.len();
        let mut acc: Vec<Worktree> = Vec::new();
        let mut cur: Option<Worktree> = None;
        let mut i: usize = 0;
        proof {
            assert(worktree_views(acc@) =~= Seq::<WorktreeModel>::empty());
        }
        while i < n
            invariant
                i <= n,
                n == lines@.len(),
                views_of(lines@) == lv,
                spec_parse_from(lv, 0, None, Seq::empty()) == spec_parse_from(
                    lv,
                    i as int,
                    opt_view(cur),
                    worktree_views(acc@),
                ),
            decreases n - i,
        {
            let ls = lines[i].as_str();
            proof {
                assert(views_of(lines@)[i as int] == ls@);
            }
            let ghost prev_cur = opt_view(cur);
            let ghost prev_acc = worktree_views(acc@);
            if starts_with(ls, "worktree ") {
                match cur {
                    Some(w) => {
                        acc.push(w);
                        proof {
                            assert(worktree_views(acc@) =~= flush(prev_cur, prev_acc));
                        }
                    },
                    None => {},
                }
                let rest = ls.substring_char("worktree ".unicode_len(), ls.unicode_len());
                cur = Some(
                    Worktree {
                        path: rest.to_owned(),
                        branch: String::new(),
                        head: String::new(),
                        is_bare: false,
                    },
                );
            } else if starts_with(ls, "HEAD ") {
                cur = match cur {
                    Some(w) => {
                        let rest = ls.substring_char("HEAD ".unicode_len(), ls.unicode_len());
                        Some(
                            Worktree {
                                path: w.path,
                                branch: w.branch,
                                head: rest.to_owned(),
                                is_bare: w.is_bare,
                            },
                        )
                    },
                    None => None,
                };
            } else if starts_with(ls, "branch ") {
                cur = match cur {
                    Some(w) => {
                        let rest = ls.substring_char("branch ".unicode_len(), ls.unicode_len());
                        let name = match strip_prefix(rest, "refs/heads/") {
                            Some(t) => t.to_owned(),
                            None => rest.to_owned(),
                        };
                        Some(
                            Worktree {
                                path: w.path,
                                branch: name,
                                head: w.head,
                                is_bare: w.is_bare,
                            },
                        )
                    },
                    None => None,
                };
            } else if str_eq(ls, "bare") {
                cur = match cur {
                    Some(w) => Some(
                        Worktree { path: w.path, branch: w.branch, head: w.head, is_bare: true },
                    ),
                    None => None,
                };
            }
            proof {
                let st = spec_step(lv[i as int], prev_cur, prev_acc);
                assert(opt_view(cur) == st.0);
                assert(worktree_views(acc@) =~= st.1);
            }
            i = i + 1;
        }
        match cur {
            Some(w) => {
                acc.push(w);
                proof {
                    assert(worktree_views(acc@) =~= spec_parse_worktrees(output@));
                }
            },
            None => {},
        }
        acc
    }

    /// Parse short-format status output into per-state counts. Lines shorter
    /// than two characters are skipped; `is_clean` holds exactly when every
    /// count is zero; ahead/behind information is not derived here.
    pub fn parse_git_status(&self, output: &str) -> (r: WorktreeStatus)
        ensures
            r.added == count_kind(spec_lines(output@), 1),
            r.modified == count_kind(spec_lines(output@), 2),
            r.deleted == count_kind(spec_lines(output@), 3),
            r.untracked == count_kind(spec_lines(output@), 4),
            r.ahead == 0 && r.behind == 0,
            r.is_clean == (r.added == 0 && r.modified == 0 && r.deleted == 0 && r.untracked == 0),
    {
        let lines = lines_of(output);
        let ghost lv = spec_lines(output@);
        let n = lines.len();
        let mut added: usize = 0;
        let mut modified: usize = 0;
        let mut deleted: usize = 0;
        let mut untracked: usize = 0;
        let mut i: usize = 0;
        while i < n
            invariant
                i <= n,
                n == lines@.len(),
                views_of(lines@) == lv,
                added == count_kind(lv.subrange(0, i as int), 1),
                modified == count_kind(lv.subrange(0, i as int), 2),
                deleted == count_kind(lv.subrange(0, i as int), 3),
                untracked == count_kind(lv.subrange(0, i as int), 4),
            decreases n - i,
        {
            let ls = lines[i].as_str();
            proof {
                assert(views_of(lines@)[i as int] == ls@);
                lemma_count_kind_le(lv.subrange(0, i as int), 1);
                lemma_count_kind_le(lv.subrange(0, i as int), 2);
                lemma_count_kind_le(lv.subrange(0, i as int), 3);
                lemma_count_kind_le(lv.subrange(0, i as int), 4);
                assert(lv.subrange(0, i + 1).drop_last() =~= lv.subrange(0, i as int));
                assert(lv.subrange(0, i + 1).last() == lv[i as int]);
            }
            if ls.unicode_len() >= 2 {
                let staged = ls.get_char(0);
                let unstaged = ls.get_char(1);
                if staged == 'A' {
                    added = added + 1;
                } else if staged == 'M' || unstaged == 'M' {
                    modified = modified + 1;
                } else if staged == 'D' || unstaged == 'D' {
                    deleted = deleted + 1;
                } else if staged == '?' && unstaged == '?' {
                    untracked = untracked + 1;
                }
            }
            i = i + 1;
        }
        proof {
            assert(lv.subrange(0, n as int) =~= lv);
        }
        let is_clean = added == 0 && modified == 0 && deleted == 0 && untracked == 0;
        WorktreeStatus { is_clean, modified, added, deleted, untracked, ahead: 0, behind: 0 }
    }

    /// Whether a `branch --merged` listing names `branch`, plainly or as the
    /// checked-out branch behind a `* ` marker.
    pub fn is_branch_merged_into(&self, branch: &str, merged_listing: &str) -> (r: bool)
        ensures
            r == spec_merged(branch@, merged_listing@),
    {
        let lines = lines_of(merged_listing);
        let ghost lv = spec_lines(merged_listing@);
        let n = lines.len();
        let mut i: usize = 0;
        while i < n
            invariant
                i <= n,
                n == lines@.len(),
                views_of(lines@) == lv,
                lv == spec_lines(merged_listing@),
                forall|j: int| 0 <= j < i ==> !merged_marker(#[trigger] lv[j], branch@),
            decreases n - i,
        {
            let ls = lines[i].as_str();
            proof {
                assert(views_of(lines@).len() == lines@.len());
                assert(views_of(lines@)[i as int] == ls@);
                assert(spec_lines(merged_listing@)[i as int] == ls@);
            }
            let t = trim(ls);
            if str_eq(t, branch) {
                proof {
                    assert(spec_trim(ls@) == branch@);
                    assert(merged_marker(spec_lines(merged_listing@)[i as int], branch@));
                }
                return true;
            }
            match strip_prefix(t, "* ") {
                Some(rest) => {
                    if str_eq(rest, branch) {
                        proof {
                            assert(spec_trim(ls@) =~= "* "@ + branch@);
                            assert(merged_marker(spec_lines(merged_listing@)[i as int], branch@));
                        }
                        return true;
                    }
                },
                None => {},
            }
            proof {
                assert(!merged_marker(lv[i as int], branch@)) by {
                    if spec_trim(ls@) == "* "@ + branch@ {
                        assert(has_prefix(spec_trim(ls@), "* "@)) by {
                            assert(("* "@ + branch@).subrange(0, "* "@.len() as int) =~= "* "@);
                        }
                        assert(spec_trim(ls@).subrange(
                            "* "@.len() as int,
                            spec_trim(ls@).len() as int,
                        ) =~= branch@);
                    }
                }
            }
            i = i + 1;
        }
        false
    }

    /// Select a working tree by name: first an exact branch match, then a
    /// substring match on the path's final component, in listing order.
    pub fn find_worktree_by_name(&self, worktrees: &Vec<Worktree>, name: &str) -> (r: Option<
        Worktree,
    >)
        ensures
            opt_view(r) == spec_find_by_name(worktree_views(worktrees@), name@),
    {
        let ghost wv = worktree_views(worktrees@);
        let n = worktrees.len();
        let mut i: usize = 0;
        while i < n
            invariant
                i <= n,
                n == worktrees@.len(),
                wv == worktree_views(worktrees@),
                forall|j: int| 0 <= j < i ==> !(branch_pred(name@)(#[trigger] wv[j])),
            decreases n - i,
        {
            let w = &worktrees[i];
            proof {
                assert(wv[i as int] == w@);
            }
            if str_eq(w.branch.as_str(), name) {
                proof {
                    lemma_first_where_at(wv, branch_pred(name@), i as int);
                }
                return Some(w.clone());
            }
            i = i + 1;
        }
        proof {
            lemma_first_where_none(wv, branch_pred(name@));
        }
        let mut i: usize = 0;
        while i < n
            invariant
                i <= n,
                n == worktrees@.len(),
                wv == worktree_views(worktrees@),
                first_where(wv, branch_pred(name@)) == -1,
                forall|j: int| 0 <= j < i ==> !(segment_pred(name@)(#[trigger] wv[j])),
            decreases n - i,
        {
            let w = &worktrees[i];
            proof {
                assert(wv[i as int] == w@);
            }
            if contains_str(last_segment(w.path.as_str(), '/'), name) {
                proof {
                    lemma_first_where_at(wv, segment_pred(name@), i as int);
                }
                return Some(w.clone());
            }
            i = i + 1;
        }
        proof {
            lemma_first_where_none(wv, segment_pred(name@));
        }
        None
    }

    /// Classify every working tree against the merged-branch listing and the
    /// given per-tree facts, in the fixed priority order merged, then path
    /// missing, then remotely deleted. `path_exists[i]` and `remote_gone[i]`
    /// report on `worktrees[i]`.
    pub fn find_unnecessary_worktrees_with_main(
        &self,
        worktrees: &Vec<Worktree>,
        main_branch: &str,
        merged_listing: &str,
        path_exists: &Vec<bool>,
        remote_gone: &Vec<bool>,
    ) -> (r: Vec<(Worktree, RemovalReason)>)
        requires
            path_exists@.len() == worktrees@.len(),
            remote_gone@.len() == worktrees@.len(),
        ensures
            pair_views(r@) == spec_unnecessary_from(
                worktree_views(worktrees@),
                main_branch@,
                merged_listing@,
                path_exists@,
                remote_gone@,
                0,
            ),
    {
        let ghost wv = worktree_views(worktrees@);
        let ghost full = spec_unnecessary_from(
            wv,
            main_branch@,
            merged_listing@,
            path_exists@,
            remote_gone@,
            0,
        );
        let n = worktrees.len();
        let mut out: Vec<(Worktree, RemovalReason)> = Vec::new();
        let mut i: usize = 0;
        proof {
            assert(pair_views(out@) =~= Seq::<(WorktreeModel, RemovalReason)>::empty());
        }
        while i < n
            invariant
                i <= n,
                n == worktrees@.len(),
                path_exists@.len() == n,
                remote_gone@.len() == n,
                wv == worktree_views(worktrees@),
                full == spec_unnecessary_from(
                    wv,
                    main_branch@,
                    merged_listing@,
                    path_exists@,
                    remote_gone@,
                    0,
                ),
                full == pair_views(out@) + spec_unnecessary_from(
                    wv,
                    main_branch@,
                    merged_listing@,
                    path_exists@,
                    remote_gone@,
                    i as int,
                ),
            decreases n - i,
        {
            let w = &worktrees[i];
            proof {
                assert(wv[i as int] == w@);
            }
            let ghost prev = pair_views(out@);
            if !w.is_bare && !str_eq(w.branch.as_str(), main_branch) {
                if self.is_branch_merged_into(w.branch.as_str(), merged_listing) {
                    out.push((w.clone(), RemovalReason::MergedIntoMain));
                } else if !path_exists[i] {
                    out.push((w.clone(), RemovalReason::PathMissing));
                } else if remote_gone[i] {
                    out.push((w.clone(), RemovalReason::RemoteDeleted));
                }
            }
            proof {
                let rest = spec_unnecessary_from(
                    wv,
                    main_branch@,
                    merged_listing@,
                    path_exists@,
                    remote_gone@,
                    i + 1,
                );
                match spec_classify(
                    wv[i as int],
                    main_branch@,
                    merged_listing@,
                    path_exists@[i as int],
                    remote_gone@[i as int],
                ) {
                    Some(reason) => {
                        assert(pair_views(out@) =~= prev.push((wv[i as int], reason)));
                        assert(prev + (seq![(wv[i as int], reason)] + rest) =~= pair_views(out@)
                            + rest);
                    },
                    None => {
                        assert(pair_views(out@) =~= prev);
                    },
                }
            }
            i = i + 1;
        }
        out
    }
}

} // verus!
