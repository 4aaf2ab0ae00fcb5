//! The record merge engine: runs of adjacent rows of one source, and rows of
//! several sources that share an identity key.

use vstd::prelude::*;
use crate::error::ReconcileError;
use crate::index::{Record, Table, Text, clone_row, entry_keys, find_key};
use crate::text::{piece, push_piece};

verus! {

/// Whether a row has the identity column and both contact columns.
pub open spec fn run_usable(r: Record, key_col: nat, col_a: nat, col_b: nat) -> bool {
    key_col < r.len() && col_a < r.len() && col_b < r.len()
}

/// The groups of adjacent usable rows that share an identity key: for each,
/// its first row and the two contact columns of all its rows accumulated.
/// Rows without one of the three columns are skipped.
pub open spec fn runs(rows: Table, key_col: nat, col_a: nat, col_b: nat) -> Seq<(Record, Text, Text)>
    decreases rows.len(),
{
    if rows.len() == 0 {
        Seq::empty()
    } else {
        let g = runs(rows.drop_last(), key_col, col_a, col_b);
        let r = rows.last();
        if !run_usable(r, key_col, col_a, col_b) {
            g
        } else if g.len() > 0 && g.last().0[key_col as int] == r[key_col as int] {
            g.update(
                g.len() - 1,
                (g.last().0, g.last().1 + piece(r[col_a as int]), g.last().2 + piece(r[col_b as int])),
            )
        } else {
            g.push((r, piece(r[col_a as int]), piece(r[col_b as int])))
        }
    }
}

/// The output row of a group: its first row with the accumulated contacts.
pub open spec fn run_row(g: (Record, Text, Text), col_a: nat, col_b: nat) -> Record {
    g.0.update(col_a as int, g.1).update(col_b as int, g.2)
}

/// The rows written by the adjacent-run merge.
pub open spec fn merged_runs(rows: Table, key_col: nat, col_a: nat, col_b: nat) -> Table {
    runs(rows, key_col, col_a, col_b).map_values(|g: (Record, Text, Text)| run_row(g, col_a, col_b))
}

/// Every group starts with a usable row.
proof fn lemma_runs_usable(rows: Table, key_col: nat, col_a: nat, col_b: nat)
    ensures
        forall|j: int| 0 <= j < runs(rows, key_col, col_a, col_b).len()
            ==> run_usable(#[trigger] runs(rows, key_col, col_a, col_b)[j].0, key_col, col_a, col_b),
    decreases rows.len(),
{
    if rows.len() > 0 {
        let g = runs(rows.drop_last(), key_col, col_a, col_b);
        lemma_runs_usable(rows.drop_last(), key_col, col_a, col_b);
        let h = runs(rows, key_col, col_a, col_b);
        assert forall|j: int| 0 <= j < h.len() implies run_usable(#[trigger] h[j].0, key_col, col_a, col_b) by {
            if j < g.len() {
                assert(run_usable(g[j].0, key_col, col_a, col_b));
            }
        }
    }
}

fn finish_run(first: Vec<String>, acc_a: String, acc_b: String, col_a: usize, col_b: usize) -> (r: Vec<String>)
    requires
        col_a < first.len(),
        col_b < first.len(),
    ensures
        r.deep_view() == run_row((first.deep_view(), acc_a@, acc_b@), col_a as nat, col_b as nat),
{
    let mut r = first;
    let ghost f = r.deep_view();
    r.set(col_a, acc_a);
    r.set(col_b, acc_b);
    proof {
        assert(r.deep_view() =~= run_row((f, acc_a@, acc_b@), col_a as nat, col_b as nat));
    }
    r
}

/// Merges runs of adjacent rows with equal identity keys (`key_col`) into
/// one row each: the first row of the run, with columns `col_a` and `col_b`
/// replaced by the non-empty values of that column over the run, each
/// followed by `;`. The last run is written too. Rows lacking one of the
/// three columns are skipped.
pub fn same_format_combine_data(rows: &Vec<Vec<String>>, key_col: usize, col_a: usize, col_b: usize) -> (out: Vec<Vec<String>>)
    ensures
        out.deep_view() == merged_runs(rows.deep_view(), key_col as nat, col_a as nat, col_b as nat),
{
    let ghost all = rows.deep_view();
    let ghost kc = key_col as nat;
    let ghost ca = col_a as nat;
    let ghost cb = col_b as nat;
    let mut out: Vec<Vec<String>> = Vec::new();
    let mut cur: Option<(Vec<String>, String, String)> = None;
    let mut i: usize = 0;
    proof {
        assert(all.take(0) =~= Seq::<Record>::empty());
    }
    while i < rows.len()
        invariant
            i <= rows.len(),
            all == rows.deep_view(),
            kc == key_col,
            ca == col_a,
            cb == col_b,
            ({
                let g = runs(all.take(i as int), kc, ca, cb);
                &&& (g.len() == 0 <==> cur is None)
                &&& g.len() == 0 ==> out.len() == 0
                &&& cur matches Some(c) ==> {
                    &&& c.0.deep_view() == g.last().0
                    &&& c.1@ == g.last().1
                    &&& c.2@ == g.last().2
                    &&& run_usable(c.0.deep_view(), kc, ca, cb)
                    &&& out.deep_view() == g.drop_last().map_values(
                        |h: (Record, Text, Text)| run_row(h, ca, cb),
                    )
                }
            }),
        decreases rows.len() - i,
    {
        let ghost before = all.take(i as int);
        let ghost g0 = runs(before, kc, ca, cb);
        proof {
            assert(all.take(i + 1).drop_last() =~= before);
            assert(all.take(i + 1).last() == all[i as int]);
            lemma_runs_usable(before, kc, ca, cb);
        }
        let row = &rows[i];
        if key_col < row.len() && col_a < row.len() && col_b < row.len() {
            let same = match &cur {
                Some(c) => c.0[key_col] == row[key_col],
                None => false,
            };
            if same {
                let (first, mut acc_a, mut acc_b) = cur.unwrap();
                push_piece(&mut acc_a, row[col_a].as_str());
                push_piece(&mut acc_b, row[col_b].as_str());
                cur = Some((first, acc_a, acc_b));
                proof {
                    let g1 = runs(all.take(i + 1), kc, ca, cb);
                    assert(g1.drop_last() =~= g0.drop_last());
                }
            } else {
                if cur.is_some() {
                    let ghost out0 = out.deep_view();
                    let (first, acc_a, acc_b) = cur.unwrap();
                    let done = finish_run(first, acc_a, acc_b, col_a, col_b);
                    assert(done.deep_view() == run_row(g0.last(), ca, cb));
                    out.push(done);
                    proof {
                        assert(g0 =~= g0.drop_last().push(g0.last()));
                        assert(out.deep_view() =~= out0.push(done.deep_view()));
                        assert(out.deep_view() =~= g0.map_values(
                            |h: (Record, Text, Text)| run_row(h, ca, cb),
                        ));
                    }
                }
                let mut acc_a = String::new();
                let mut acc_b = String::new();
                push_piece(&mut acc_a, row[col_a].as_str());
                push_piece(&mut acc_b, row[col_b].as_str());
                cur = Some((clone_row(row), acc_a, acc_b));
                proof {
                    let g1 = runs(all.take(i + 1), kc, ca, cb);
                    assert(g1.drop_last() =~= g0);
                    assert(out.deep_view() =~= g1.drop_last().map_values(
                        |h: (Record, Text, Text)| run_row(h, ca, cb),
                    ));
                }
            }
        }
        i += 1;
    }
    proof {
        assert(all.take(i as int) =~= all);
    }
    let ghost g = runs(all, kc, ca, cb);
    match cur {
        Some(c) => {
            let ghost out0 = out.deep_view();
            let (first, acc_a, acc_b) = c;
            let done = finish_run(first, acc_a, acc_b, col_a, col_b);
            assert(done.deep_view() == run_row(g.last(), ca, cb));
            out.push(done);
            proof {
                assert(out.deep_view() =~= out0.push(done.deep_view()));
                assert(g =~= g.drop_last().push(g.last()));
                assert(out.deep_view() =~= merged_runs(all, kc, ca, cb));
            }
        },
        None => {
            proof {
                assert(out.deep_view() =~= merged_runs(all, kc, ca, cb));
            }
        },
    }
    out
}

/// Whether a row has the identity, contact and provenance columns.
pub open spec fn merge_usable(r: Record, key_col: nat, contact_col: nat, source_col: nat) -> bool {
    key_col < r.len() && contact_col < r.len() && source_col < r.len()
}

/// The position of the entry whose identity field is `k`.
pub open spec fn key_pos(idx: Table, col: nat, k: Text) -> int {
    choose|p: int| 0 <= p < idx.len() && idx[p][col as int] == k
}

/// Inserts a row into an index: it replaces the entry with its key, or is
/// appended when its key is new.
pub open spec fn insert_last(idx: Table, col: nat, r: Record) -> Table {
    if entry_keys(idx, col).contains(r[col as int]) {
        idx.update(key_pos(idx, col, r[col as int]), r)
    } else {
        idx.push(r)
    }
}

/// The state of a cross-source merge: the rows not merged yet, the merged
/// rows written so far, and the two counters.
pub struct MergeState {
    pub pending: Table,
    pub out: Table,
    pub from_later: nat,
    pub unique_later: nat,
}

/// The index built from the first source, over its usable rows.
pub open spec fn merge_first(rows: Table, kc: nat, cc: nat, sc: nat) -> Table
    decreases rows.len(),
{
    if rows.len() == 0 {
        Seq::empty()
    } else {
        let p = merge_first(rows.drop_last(), kc, cc, sc);
        if merge_usable(rows.last(), kc, cc, sc) {
            insert_last(p, kc, rows.last())
        } else {
            p
        }
    }
}

/// A merged row: the indexed row with the provenance label and the contact
/// value of the newer row.
pub open spec fn merged_row(prev: Record, r: Record, cc: nat, sc: nat, label: Text) -> Record {
    prev.update(sc as int, label).update(cc as int, r[cc as int])
}

/// One row of a later source: merged with the pending row of its key, which
/// then leaves the index, or added to the index.
pub open spec fn merge_step(st: MergeState, r: Record, kc: nat, cc: nat, sc: nat, label: Text) -> MergeState {
    if !merge_usable(r, kc, cc, sc) {
        st
    } else if entry_keys(st.pending, kc).contains(r[kc as int]) {
        let p = key_pos(st.pending, kc, r[kc as int]);
        MergeState {
            pending: st.pending.remove(p),
            out: st.out.push(merged_row(st.pending[p], r, cc, sc, label)),
            from_later: st.from_later + 1,
            unique_later: st.unique_later,
        }
    } else {
        MergeState {
            pending: st.pending.push(r),
            out: st.out,
            from_later: st.from_later + 1,
            unique_later: st.unique_later + 1,
        }
    }
}

/// The rows of one later source, in order.
pub open spec fn merge_later(st: MergeState, rows: Table, kc: nat, cc: nat, sc: nat, label: Text) -> MergeState
    decreases rows.len(),
{
    if rows.len() == 0 {
        st
    } else {
        merge_step(merge_later(st, rows.drop_last(), kc, cc, sc, label), rows.last(), kc, cc, sc, label)
    }
}

/// The state after all sources, the first one building the index.
pub open spec fn merge_all(srcs: Seq<Table>, kc: nat, cc: nat, sc: nat, label: Text) -> MergeState
    decreases srcs.len(),
{
    if srcs.len() == 0 {
        MergeState { pending: Seq::empty(), out: Seq::empty(), from_later: 0, unique_later: 0 }
    } else if srcs.len() == 1 {
        MergeState { pending: merge_first(srcs[0], kc, cc, sc), out: Seq::empty(), from_later: 0, unique_later: 0 }
    } else {
        merge_later(merge_all(srcs.drop_last(), kc, cc, sc, label), srcs.last(), kc, cc, sc, label)
    }
}

/// The number of rows over all sources.
pub open spec fn row_count(srcs: Seq<Table>) -> nat
    decreases srcs.len(),
{
    if srcs.len() == 0 {
        0
    } else {
        row_count(srcs.drop_last()) + srcs.last().len()
    }
}

proof fn lemma_row_count_take(srcs: Seq<Table>, s: int)
    requires
        0 <= s < srcs.len(),
    ensures
        row_count(srcs.take(s)) + srcs[s].len() == row_count(srcs.take(s + 1)),
        row_count(srcs.take(s + 1)) <= row_count(srcs),
    decreases srcs.len(),
{
    assert(srcs.take(s + 1).drop_last() =~= srcs.take(s));
    if s + 1 < srcs.len() {
        lemma_row_count_take(srcs.drop_last(), s);
        assert(srcs.drop_last().take(s) =~= srcs.take(s));
        assert(srcs.drop_last().take(s + 1) =~= srcs.take(s + 1));
    } else {
        assert(srcs.take(s + 1) =~= srcs);
    }
}

/// The key found in an index with unique keys is at `key_pos`.
proof fn lemma_key_pos(idx: Table, col: nat, p: int)
    requires
        entry_keys(idx, col).no_duplicates(),
        0 <= p < idx.len(),
    ensures
        key_pos(idx, col, idx[p][col as int]) == p,
        entry_keys(idx, col).contains(idx[p][col as int]),
{
    let k = idx[p][col as int];
    assert(entry_keys(idx, col)[p] == k);
    let q = key_pos(idx, col, k);
    assert(entry_keys(idx, col)[q] == k);
}

/// What a cross-source merge returns.
pub struct MergeOutcome {
    /// The rows written: the merged rows in the order they were formed,
    /// then the rows that found no partner, in index order.
    pub rows: Vec<Vec<String>>,
    /// How many rows were written.
    pub total: usize,
    /// How many usable rows the sources after the first one contributed.
    pub from_later: usize,
    /// How many of those carried a key that was not pending at the time.
    pub unique_later: usize,
}

/// Pending entries are usable and keyed uniquely.
pub open spec fn pending_ok(pending: Table, kc: nat, cc: nat, sc: nat) -> bool {
    &&& entry_keys(pending, kc).no_duplicates()
    &&& forall|p: int| 0 <= p < pending.len() ==> merge_usable(#[trigger] pending[p], kc, cc, sc)
}

proof fn lemma_pending_update(pending: Table, kc: nat, cc: nat, sc: nat, p: int, r: Record)
    requires
        pending_ok(pending, kc, cc, sc),
        0 <= p < pending.len(),
        merge_usable(r, kc, cc, sc),
        r[kc as int] == pending[p][kc as int],
    ensures
        pending_ok(pending.update(p, r), kc, cc, sc),
{
    assert(entry_keys(pending.update(p, r), kc) =~= entry_keys(pending, kc));
}

proof fn lemma_pending_push(pending: Table, kc: nat, cc: nat, sc: nat, r: Record)
    requires
        pending_ok(pending, kc, cc, sc),
        merge_usable(r, kc, cc, sc),
        !entry_keys(pending, kc).contains(r[kc as int]),
    ensures
        pending_ok(pending.push(r), kc, cc, sc),
{
    let e = entry_keys(pending, kc);
    assert(entry_keys(pending.push(r), kc) =~= e.push(r[kc as int]));
    assert forall|i: int, j: int| 0 <= i < e.len() + 1 && 0 <= j < e.len() + 1 && i != j
        implies e.push(r[kc as int])[i] != e.push(r[kc as int])[j] by {
        if i < e.len() && j < e.len() {
            assert(e[i] != e[j]);
        } else if i < e.len() {
            assert(e.contains(e[i]));
        } else {
            assert(e.contains(e[j]));
        }
    }
}

proof fn lemma_pending_remove(pending: Table, kc: nat, cc: nat, sc: nat, p: int)
    requires
        pending_ok(pending, kc, cc, sc),
        0 <= p < pending.len(),
    ensures
        pending_ok(pending.remove(p), kc, cc, sc),
{
    let e = entry_keys(pending, kc);
    let f = entry_keys(pending.remove(p), kc);
    assert(f =~= e.remove(p));
    assert forall|i: int, j: int| 0 <= i < f.len() && 0 <= j < f.len() && i != j implies f[i] != f[j] by {
        let i2 = if i < p { i } else { i + 1 };
        let j2 = if j < p { j } else { j + 1 };
        assert(f[i] == e[i2]);
        assert(f[j] == e[j2]);
    }
    assert forall|q: int| 0 <= q < pending.remove(p).len() implies merge_usable(#[trigger] pending.remove(p)[q], kc, cc, sc) by {
        let q2 = if q < p { q } else { q + 1 };
        assert(pending.remove(p)[q] == pending[q2]);
    }
}

fn merge_pair(prev: Vec<String>, r: &Vec<String>, contact_col: usize, source_col: usize, label: &str) -> (m: Vec<String>)
    requires
        contact_col < prev.len(),
        source_col < prev.len(),
        contact_col < r.len(),
    ensures
        m.deep_view() == merged_row(prev.deep_view(), r.deep_view(), contact_col as nat, source_col as nat, label@),
{
    let mut m = prev;
    let ghost p = m.deep_view();
    m.set(source_col, label.to_owned());
    m.set(contact_col, r[contact_col].clone());
    proof {
        assert(m.deep_view() =~= merged_row(p, r.deep_view(), contact_col as nat, source_col as nat, label@));
    }
    m
}

/// Merges rows of several sources that share an identity key (`key_col`).
///
/// The first source builds an index in which a later row of a key replaces
/// an earlier one. Each row of the later sources whose key is pending is
/// merged: the pending row is written with `label` in `source_col` and the
/// newer row's value in `contact_col`, and leaves the index. A row whose key
/// is not pending joins the index. The rows still pending are written last.
/// Rows lacking one of the three columns are skipped.
pub fn combine_data_from_differen_source(
    sources: &Vec<Vec<Vec<String>>>,
    key_col: usize,
    contact_col: usize,
    source_col: usize,
    label: &str,
) -> (res: Result<MergeOutcome, ReconcileError>)
    requires
        row_count(sources.deep_view()) <= usize::MAX,
    ensures
        sources.len() == 0 ==> res == Err::<MergeOutcome, ReconcileError>(ReconcileError::NoSources),
        sources.len() > 0 ==> (res matches Ok(o) && {
            let st = merge_all(sources.deep_view(), key_col as nat, contact_col as nat, source_col as nat, label@);
            &&& o.rows.deep_view() == st.out + st.pending
            &&& o.total == o.rows.len()
            &&& o.from_later == st.from_later
            &&& o.unique_later == st.unique_later
        }),
{
    if sources.len() == 0 {
        return Err(ReconcileError::NoSources);
    }
    let ghost srcs = sources.deep_view();
    let ghost kc = key_col as nat;
    let ghost cc = contact_col as nat;
    let ghost sc = source_col as nat;
    let ghost lb = label@;
    let mut pending: Vec<Vec<String>> = Vec::new();
    let first = &sources[0];
    let ghost rows0 = srcs[0];
    let mut j: usize = 0;
    proof {
        assert(rows0.take(0) =~= Seq::<Record>::empty());
        assert(entry_keys(pending.deep_view(), kc) =~= Seq::<Text>::empty());
    }
    while j < first.len()
        invariant
            j <= first.len(),
            rows0 == first.deep_view(),
            kc == key_col,
            cc == contact_col,
            sc == source_col,
            pending.deep_view() == merge_first(rows0.take(j as int), kc, cc, sc),
            pending_ok(pending.deep_view(), kc, cc, sc),
        decreases first.len() - j,
    {
        let ghost before = rows0.take(j as int);
        let ghost pd = pending.deep_view();
        proof {
            assert(rows0.take(j + 1).drop_last() =~= before);
        }
        let row = &first[j];
        if key_col < row.len() && contact_col < row.len() && source_col < row.len() {
            proof {
                assert forall|p: int| 0 <= p < pending.len() implies key_col < #[trigger] pending[p].len() by {
                    assert(merge_usable(pd[p], kc, cc, sc));
                }
            }
            match find_key(&pending, key_col, &row[key_col]) {
                Some(p) => {
                    proof {
                        lemma_key_pos(pd, kc, p as int);
                        lemma_pending_update(pd, kc, cc, sc, p as int, row.deep_view());
                    }
                    pending.set(p, clone_row(row));
                    proof {
                        assert(pending.deep_view() =~= pd.update(p as int, row.deep_view()));
                    }
                },
                None => {
                    proof {
                        lemma_pending_push(pd, kc, cc, sc, row.deep_view());
                    }
                    pending.push(clone_row(row));
                    proof {
                        assert(pending.deep_view() =~= pd.push(row.deep_view()));
                    }
                },
            }
        }
        j += 1;
    }
    proof {
        assert(rows0.take(j as int) =~= rows0);
    }
    let mut out: Vec<Vec<String>> = Vec::new();
    let mut from_later: usize = 0;
    let mut unique_later: usize = 0;
    proof {
        let t = srcs.take(1);
        assert(t.len() == 1);
        assert(t[0] == rows0);
        assert(t.last() == rows0);
        assert(t.drop_last() =~= Seq::<Table>::empty());
        assert(row_count(t.drop_last()) == 0);
        assert(row_count(t) == rows0.len());
        assert(out.deep_view() =~= Seq::<Record>::empty());
        assert(merge_all(t, kc, cc, sc, lb) == (MergeState {
            pending: pending.deep_view(),
            out: out.deep_view(),
            from_later: 0,
            unique_later: 0,
        }));
    }
    let mut s: usize = 1;
    while s < sources.len()
        invariant
            1 <= s <= sources.len(),
            srcs == sources.deep_view(),
            row_count(srcs) <= usize::MAX,
            kc == key_col,
            cc == contact_col,
            sc == source_col,
            lb == label@,
            from_later <= row_count(srcs.take(s as int)),
            unique_later <= from_later,
            pending_ok(pending.deep_view(), kc, cc, sc),
            merge_all(srcs.take(s as int), kc, cc, sc, lb) == (MergeState {
                pending: pending.deep_view(),
                out: out.deep_view(),
                from_later: from_later as nat,
                unique_later: unique_later as nat,
            }),
        decreases sources.len() - s,
    {
        let src = &sources[s];
        let ghost rows = srcs[s as int];
        let ghost start = merge_all(srcs.take(s as int), kc, cc, sc, lb);
        proof {
            lemma_row_count_take(srcs, s as int);
        }
        let mut j: usize = 0;
        proof {
            assert(rows.take(0) =~= Seq::<Record>::empty());
        }
        while j < src.len()
            invariant
                1 <= s < sources.len(),
                j <= src.len(),
                rows == src.deep_view(),
                srcs == sources.deep_view(),
                row_count(srcs.take(s as int)) + rows.len() <= usize::MAX,
                kc == key_col,
                cc == contact_col,
                sc == source_col,
                lb == label@,
                from_later <= row_count(srcs.take(s as int)) + j,
                unique_later <= from_later,
                pending_ok(pending.deep_view(), kc, cc, sc),
                merge_later(start, rows.take(j as int), kc, cc, sc, lb) == (MergeState {
                    pending: pending.deep_view(),
                    out: out.deep_view(),
                    from_later: from_later as nat,
                    unique_later: unique_later as nat,
                }),
            decreases src.len() - j,
        {
            let ghost before = rows.take(j as int);
            let ghost pd = pending.deep_view();
            let ghost od = out.deep_view();
            proof {
                assert(rows.take(j + 1).drop_last() =~= before);
            }
            let row = &src[j];
            if key_col < row.len() && contact_col < row.len() && source_col < row.len() {
                proof {
                    assert forall|p: int| 0 <= p < pending.len() implies key_col < #[trigger] pending[p].len() by {
                        assert(merge_usable(pd[p], kc, cc, sc));
                    }
                }
                match find_key(&pending, key_col, &row[key_col]) {
                    Some(p) => {
                        proof {
                            lemma_key_pos(pd, kc, p as int);
                            lemma_pending_remove(pd, kc, cc, sc, p as int);
                            assert(merge_usable(pd[p as int], kc, cc, sc));
                        }
                        let prev = pending.remove(p);
                        out.push(merge_pair(prev, row, contact_col, source_col, label));
                        from_later += 1;
                        proof {
                            assert(pending.deep_view() =~= pd.remove(p as int));
                            assert(out.deep_view() =~= od.push(merged_row(pd[p as int], row.deep_view(), cc, sc, lb)));
                        }
                    },
                    None => {
                        proof {
                            lemma_pending_push(pd, kc, cc, sc, row.deep_view());
                        }
                        pending.push(clone_row(row));
                        from_later += 1;
                        unique_later += 1;
                        proof {
                            assert(pending.deep_view() =~= pd.push(row.deep_view()));
                        }
                    },
                }
            }
            j += 1;
        }
        proof {
            assert(rows.take(j as int) =~= rows);
            assert(srcs.take(s + 1).drop_last() =~= srcs.take(s as int));
            assert(srcs.take(s + 1).last() == rows);
        }
        s += 1;
    }
    proof {
        assert(srcs.take(s as int) =~= srcs);
    }
    let ghost od = out.deep_view();
    let ghost pd = pending.deep_view();
    let mut rows_out = out;
    rows_out.append(&mut pending);
    proof {
        assert(rows_out.deep_view() =~= od + pd);
    }
    let total = rows_out.len();
    Ok(MergeOutcome { rows: rows_out, total, from_later, unique_later })
}

/// Two sources of one row each, with the same key: the merge writes one
/// row, the first source's row with the provenance label and the second
/// source's contact value, and leaves nothing pending for that key.
pub proof fn cross_merge_of_matching_rows(a: Record, b: Record, kc: nat, cc: nat, sc: nat, label: Text)
    requires
        merge_usable(a, kc, cc, sc),
        merge_usable(b, kc, cc, sc),
        a[kc as int] == b[kc as int],
    ensures
        ({
            let st = merge_all(seq![seq![a], seq![b]], kc, cc, sc, label);
            &&& st.out == seq![merged_row(a, b, cc, sc, label)]
            &&& st.pending.len() == 0
            &&& (st.out + st.pending).len() == 1
            &&& st.from_later == 1
            &&& st.unique_later == 0
        }),
{
    let srcs = seq![seq![a], seq![b]];
    assert(srcs.drop_last() =~= seq![seq![a]]);
    assert(seq![a].drop_last() =~= Seq::<Record>::empty());
    let e = Seq::<Record>::empty();
    assert(!entry_keys(e, kc).contains(a[kc as int]));
    assert(seq![a].last() == a);
    assert(merge_first(e, kc, cc, sc) == e);
    assert(insert_last(e, kc, a) == e.push(a));
    assert(merge_first(seq![a], kc, cc, sc) == e.push(a));
    let st0 = merge_all(seq![seq![a]], kc, cc, sc, label);
    assert(srcs.last() == seq![b]);
    assert(seq![b].last() == b);
    assert(merge_later(st0, e, kc, cc, sc, label) == st0);
    assert(seq![b].drop_last() == e);
    assert(merge_later(st0, seq![b].drop_last(), kc, cc, sc, label) == st0);
    assert(merge_later(st0, seq![b], kc, cc, sc, label) == merge_step(st0, b, kc, cc, sc, label));
    assert(merge_all(srcs, kc, cc, sc, label) == merge_later(st0, seq![b], kc, cc, sc, label));
    assert(st0.pending =~= seq![a]);
    assert(seq![b].drop_last() =~= Seq::<Record>::empty());
    assert(entry_keys(st0.pending, kc)[0] == b[kc as int]);
    assert(entry_keys(st0.pending, kc).contains(b[kc as int]));
    assert(key_pos(st0.pending, kc, b[kc as int]) == 0);
    let st = merge_all(srcs, kc, cc, sc, label);
    assert(st.out =~= seq![merged_row(a, b, cc, sc, label)]);
}

} // verus!
