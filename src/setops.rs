//! The set-operation engine: complement, union and intersection of sources
//! keyed by one identity column.

use vstd::prelude::*;
use crate::error::ReconcileError;
use crate::index::{
    Record, Table, Text, build_index, clone_row, contains_key, distinct, entry_keys, find_key,
    has_col, index_first, index_last, keys_of, lemma_contains_drop_last, lemma_distinct,
    lemma_index_first_keys, lemma_index_first_push, lemma_index_last_keys,
    lemma_index_last_push_new, lemma_index_last_push_present, lemma_keys_of_push,
    keyed_uniquely, lemma_distinct_len_append, lemma_distinct_to_set, lemma_index_of_index,
    lemma_keys_of_len,
};

verus! {

/// Rows whose key is not a key of `subtract`.
pub open spec fn key_not_in(subtract: Table, col: nat) -> spec_fn(Record) -> bool {
    |r: Record| !keys_of(subtract, col).contains(r[col as int])
}

/// The complement: the index of `base` without the keys of `subtract`.
pub open spec fn complement(base: Table, subtract: Table, col: nat) -> Table {
    index_last(base, col).filter(key_not_in(subtract, col))
}

/// The rows of all sources, one source after the other.
pub open spec fn concat_all(srcs: Seq<Table>) -> Table
    decreases srcs.len(),
{
    if srcs.len() == 0 {
        Seq::empty()
    } else {
        concat_all(srcs.drop_last()) + srcs.last()
    }
}

/// The union: one row per key over all sources, the earliest one.
pub open spec fn union_rows(srcs: Seq<Table>, col: nat) -> Table {
    index_first(concat_all(srcs), col)
}

/// Keys that are not keys of `rows`.
pub open spec fn absent_from(rows: Table, col: nat) -> spec_fn(Text) -> bool {
    |k: Text| !keys_of(rows, col).contains(k)
}

/// The keys that the second source adds to the first.
pub open spec fn union_new(srcs: Seq<Table>, col: nat) -> nat {
    if srcs.len() >= 2 {
        distinct(keys_of(srcs[1], col)).filter(absent_from(srcs[0], col)).len()
    } else {
        0
    }
}

/// Whether `k` is a key of every source.
pub open spec fn common(srcs: Seq<Table>, col: nat, k: Text) -> bool {
    forall|i: int| 0 <= i < srcs.len() ==> keys_of(#[trigger] srcs[i], col).contains(k)
}

/// Rows that have a key common to all of `srcs`.
pub open spec fn keyed_in(srcs: Seq<Table>, col: nat) -> spec_fn(Record) -> bool {
    |r: Record| has_col(r, col) && common(srcs, col, r[col as int])
}

/// The intersection: the keys common to all sources, each with the row that
/// the last source's index holds for it.
pub open spec fn intersection(srcs: Seq<Table>, col: nat) -> Table {
    if srcs.len() <= 1 {
        index_last(srcs[0], col)
    } else {
        index_last(srcs.last().filter(keyed_in(srcs.drop_last(), col)), col)
    }
}

/// Keys of concatenated rows.
pub proof fn lemma_keys_of_concat(a: Table, b: Table, col: nat)
    ensures
        keys_of(a + b, col) == keys_of(a, col) + keys_of(b, col),
    decreases b.len(),
{
    if b.len() == 0 {
        assert(a + b =~= a);
        assert(keys_of(a, col) + keys_of(b, col) =~= keys_of(a, col));
    } else {
        let bl = b.drop_last();
        lemma_keys_of_concat(a, bl, col);
        assert(a + b =~= (a + bl).push(b.last()));
        assert(bl.push(b.last()) =~= b);
        lemma_keys_of_push(a + bl, b.last(), col);
        lemma_keys_of_push(bl, b.last(), col);
        if has_col(b.last(), col) {
            assert((keys_of(a, col) + keys_of(bl, col)).push(b.last()[col as int])
                =~= keys_of(a, col) + keys_of(bl, col).push(b.last()[col as int]));
        }
    }
}

/// The keys of the rows kept by `keyed_in` are the common keys.
pub proof fn lemma_keyed_in_keys(rows: Table, srcs: Seq<Table>, col: nat, k: Text)
    ensures
        keys_of(rows.filter(keyed_in(srcs, col)), col).contains(k)
            <==> keys_of(rows, col).contains(k) && common(srcs, col, k),
    decreases rows.len(),
{
    if rows.len() > 0 {
        let p = rows.drop_last();
        let r = rows.last();
        let f = keyed_in(srcs, col);
        lemma_keyed_in_keys(p, srcs, col, k);
        assert(p.push(r) =~= rows);
        p.lemma_filter_push(r, f);
        lemma_keys_of_push(p, r, col);
        lemma_keys_of_push(p.filter(f), r, col);
        let ks = keys_of(p, col);
        let fs = keys_of(p.filter(f), col);
        if has_col(r, col) {
            lemma_contains_drop_last(ks.push(r[col as int]), k);
            assert(ks.push(r[col as int]).drop_last() =~= ks);
            if f(r) {
                lemma_contains_drop_last(fs.push(r[col as int]), k);
                assert(fs.push(r[col as int]).drop_last() =~= fs);
            }
        }
    }
}

/// The keys of an intersection are the keys common to all sources.
pub proof fn lemma_intersection_keys(srcs: Seq<Table>, col: nat, k: Text)
    requires
        srcs.len() >= 1,
    ensures
        entry_keys(intersection(srcs, col), col).contains(k) <==> common(srcs, col, k),
{
    if srcs.len() == 1 {
        lemma_index_last_keys(srcs[0], col);
        lemma_distinct(keys_of(srcs[0], col));
    } else {
        let t = srcs.last().filter(keyed_in(srcs.drop_last(), col));
        lemma_index_last_keys(t, col);
        lemma_distinct(keys_of(t, col));
        lemma_keyed_in_keys(srcs.last(), srcs.drop_last(), col, k);
        if common(srcs, col, k) {
            assert(keys_of(srcs[srcs.len() - 1], col).contains(k));
        }
        if keys_of(srcs.last(), col).contains(k) && common(srcs.drop_last(), col, k) {
            assert forall|i: int| 0 <= i < srcs.len() implies keys_of(#[trigger] srcs[i], col).contains(k) by {
                if i < srcs.len() - 1 {
                    assert(srcs.drop_last()[i] == srcs[i]);
                }
            }
        }
    }
}

/// Computes the complement of `base` with respect to `subtract`: the
/// identity index of `base` (a later row replaces an earlier one with the
/// same key) without the entries whose key is a key of `subtract`. The
/// count of rows written is the length of the result.
pub fn file_complementary_set(subtract: &Vec<Vec<String>>, base: &Vec<Vec<String>>, col: usize) -> (out: Vec<Vec<String>>)
    ensures
        out.deep_view() == complement(base.deep_view(), subtract.deep_view(), col as nat),
{
    let idx = build_index(base, col);
    let ghost id = idx.deep_view();
    let ghost pred = key_not_in(subtract.deep_view(), col as nat);
    let mut out: Vec<Vec<String>> = Vec::new();
    let mut p: usize = 0;
    proof {
        assert(id.take(0) =~= Seq::<Record>::empty());
        reveal(Seq::filter);
        assert(out.deep_view() =~= id.take(0).filter(pred));
    }
    while p < idx.len()
        invariant
            p <= idx.len(),
            id == idx.deep_view(),
            pred == key_not_in(subtract.deep_view(), col as nat),
            forall|q: int| 0 <= q < idx.len() ==> col < #[trigger] idx[q].len(),
            out.deep_view() == id.take(p as int).filter(pred),
        decreases idx.len() - p,
    {
        let ghost od = out.deep_view();
        proof {
            assert(id.take(p + 1) =~= id.take(p as int).push(id[p as int]));
            id.take(p as int).lemma_filter_push(id[p as int], pred);
        }
        assert(col < idx[p as int].len());
        if !contains_key(subtract, col, &idx[p][col]) {
            out.push(clone_row(&idx[p]));
            proof {
                assert(out.deep_view() =~= od.push(id[p as int]));
            }
        }
        p += 1;
    }
    proof {
        assert(id.take(p as int) =~= id);
    }
    out
}

/// What a union returns.
pub struct UnionOutcome {
    /// One row per key over all sources, the earliest, in the order the keys
    /// first appear.
    pub rows: Vec<Vec<String>>,
    /// How many rows were written.
    pub total: usize,
    /// How many keys of the second source the first source lacks.
    pub new: usize,
}

/// The union of several sources on column `col`: every row of every source
/// in order, a row being skipped when its key was seen before. Fails when
/// no source is given.
pub fn multiple_file_union(sources: &Vec<Vec<Vec<String>>>, col: usize) -> (res: Result<UnionOutcome, ReconcileError>)
    ensures
        sources.len() == 0 ==> res == Err::<UnionOutcome, ReconcileError>(ReconcileError::NoSources),
        sources.len() > 0 ==> (res matches Ok(o) && {
            &&& o.rows.deep_view() == union_rows(sources.deep_view(), col as nat)
            &&& o.total == o.rows.len()
            &&& o.new == union_new(sources.deep_view(), col as nat)
        }),
{
    if sources.len() == 0 {
        return Err(ReconcileError::NoSources);
    }
    let ghost srcs = sources.deep_view();
    let ghost c = col as nat;
    let mut idx: Vec<Vec<String>> = Vec::new();
    let mut new: usize = 0;
    let mut s: usize = 0;
    proof {
        assert(srcs.take(0) =~= Seq::<Table>::empty());
        assert(concat_all(srcs.take(0)) =~= Seq::<Record>::empty());
        assert(idx.deep_view() =~= index_first(concat_all(srcs.take(0)), c));
    }
    while s < sources.len()
        invariant
            s <= sources.len(),
            srcs == sources.deep_view(),
            c == col,
            idx.deep_view() == index_first(concat_all(srcs.take(s as int)), c),
            s <= 1 ==> new == 0,
            s >= 2 ==> new == union_new(srcs, c),
        decreases sources.len() - s,
    {
        let src = &sources[s];
        let ghost rows = srcs[s as int];
        let ghost head = concat_all(srcs.take(s as int));
        let mut j: usize = 0;
        proof {
            assert(rows.take(0) =~= Seq::<Record>::empty());
            assert(head + rows.take(0) =~= head);
            if s == 1 {
                assert(srcs.take(1).drop_last() =~= Seq::<Table>::empty());
                assert(concat_all(srcs.take(1).drop_last()) =~= Seq::<Record>::empty());
                assert(head =~= srcs[0]);
                assert(distinct(keys_of(rows.take(0), c)) =~= Seq::<Text>::empty());
                reveal(Seq::filter);
            }
        }
        while j < src.len()
            invariant
                s < sources.len(),
                j <= src.len(),
                rows == src.deep_view(),
                srcs == sources.deep_view(),
                c == col,
                s == 1 ==> head == srcs[0],
                idx.deep_view() == index_first(head + rows.take(j as int), c),
                s == 0 ==> new == 0,
                s == 1 ==> new <= j && new == distinct(keys_of(rows.take(j as int), c)).filter(absent_from(srcs[0], c)).len(),
                s >= 2 ==> new == union_new(srcs, c),
            decreases src.len() - j,
        {
            let ghost pre = head + rows.take(j as int);
            let ghost r = rows[j as int];
            proof {
                assert(head + rows.take(j + 1) =~= pre.push(r));
                assert(rows.take(j + 1) =~= rows.take(j as int).push(r));
                lemma_index_first_push(pre, r, c);
                lemma_index_first_keys(pre, c);
                lemma_distinct(keys_of(pre, c));
                lemma_keys_of_push(rows.take(j as int), r, c);
            }
            let row = &src[j];
            if col < row.len() {
                proof {
                    assert forall|q: int| 0 <= q < idx.len() implies col < #[trigger] idx[q].len() by {
                        assert(has_col(index_first(pre, c)[q], c));
                    }
                    lemma_keys_of_concat(head, rows.take(j as int), c);
                    lemma_keys_of_push(rows.take(j as int), r, c);
                    let kt = keys_of(rows.take(j as int), c);
                    let kh = keys_of(head, c);
                    let k = r[col as int];
                    assert((kh + kt).contains(k) <==> kh.contains(k) || kt.contains(k)) by {
                        if (kh + kt).contains(k) {
                            let i = choose|i: int| 0 <= i < (kh + kt).len() && (kh + kt)[i] == k;
                            if i < kh.len() {
                                assert(kh[i] == k);
                            } else {
                                assert(kt[i - kh.len()] == k);
                            }
                        }
                        if kh.contains(k) {
                            let i = choose|i: int| 0 <= i < kh.len() && kh[i] == k;
                            assert((kh + kt)[i] == k);
                        }
                        if kt.contains(k) {
                            let i = choose|i: int| 0 <= i < kt.len() && kt[i] == k;
                            assert((kh + kt)[kh.len() + i] == k);
                        }
                    }
                    lemma_distinct(kt);
                    assert(kt.push(k).drop_last() =~= kt);
                    distinct(kt).lemma_filter_push(k, absent_from(srcs[0], c));
                }
                match find_key(&idx, col, &row[col]) {
                    None => {
                        idx.push(clone_row(row));
                        if s == 1 {
                            new += 1;
                        }
                        proof {
                            assert(idx.deep_view() =~= index_first(pre, c).push(r));
                        }
                    },
                    Some(p) => {
                        proof {
                            assert(entry_keys(idx.deep_view(), c)[p as int] == r[col as int]);
                            assert(entry_keys(idx.deep_view(), c).contains(r[col as int]));
                        }
                    },
                }
            }
            j += 1;
        }
        proof {
            assert(rows.take(j as int) =~= rows);
            assert(srcs.take(s + 1).drop_last() =~= srcs.take(s as int));
            assert(srcs.take(s + 1).last() == rows);
        }
        s += 1;
    }
    proof {
        assert(srcs.take(s as int) =~= srcs);
    }
    let total = idx.len();
    Ok(UnionOutcome { rows: idx, total, new })
}

/// The intersection of several sources on column `col`. The running index
/// starts as the index of the first source; each later source replaces it
/// with the index of its own rows whose key the running index holds. An
/// empty running index ends the work early. Fails when no source is given.
pub fn multiple_file_intersection(sources: &Vec<Vec<Vec<String>>>, col: usize) -> (res: Result<Vec<Vec<String>>, ReconcileError>)
    ensures
        sources.len() == 0 ==> res == Err::<Vec<Vec<String>>, ReconcileError>(ReconcileError::NoSources),
        sources.len() > 0 ==> (res matches Ok(rows) && rows.deep_view() == intersection(sources.deep_view(), col as nat)),
{
    if sources.len() == 0 {
        return Err(ReconcileError::NoSources);
    }
    let ghost srcs = sources.deep_view();
    let ghost c = col as nat;
    let mut running = build_index(&sources[0], col);
    proof {
        assert(srcs.take(1).len() == 1);
        assert(srcs.take(1)[0] == srcs[0]);
    }
    let mut s: usize = 1;
    while s < sources.len()
        invariant
            1 <= s <= sources.len(),
            srcs == sources.deep_view(),
            c == col,
            running.deep_view() == intersection(srcs.take(s as int), c),
            forall|q: int| 0 <= q < running.len() ==> col < #[trigger] running[q].len(),
        decreases sources.len() - s,
    {
        let src = &sources[s];
        let ghost rows = srcs[s as int];
        let ghost rd = running.deep_view();
        let ghost pred = |r: Record| has_col(r, c) && entry_keys(rd, c).contains(r[col as int]);
        proof {
            assert forall|r: Record| #[trigger] pred(r) == keyed_in(srcs.take(s as int), c)(r) by {
                if has_col(r, c) {
                    lemma_intersection_keys(srcs.take(s as int), c, r[col as int]);
                }
            }
            assert(pred =~= keyed_in(srcs.take(s as int), c));
        }
        let mut temp: Vec<Vec<String>> = Vec::new();
        let mut j: usize = 0;
        proof {
            assert(rows.take(0) =~= Seq::<Record>::empty());
            reveal(Seq::filter);
            assert(temp.deep_view() =~= index_last(rows.take(0).filter(pred), c));
        }
        while j < src.len()
            invariant
                1 <= s < sources.len(),
                j <= src.len(),
                rows == src.deep_view(),
                c == col,
                rd == running.deep_view(),
                pred == (|r: Record| has_col(r, c) && entry_keys(rd, c).contains(r[col as int])),
                forall|q: int| 0 <= q < running.len() ==> col < #[trigger] running[q].len(),
                temp.deep_view() == index_last(rows.take(j as int).filter(pred), c),
                forall|q: int| 0 <= q < temp.len() ==> col < #[trigger] temp[q].len(),
            decreases src.len() - j,
        {
            let ghost pre = rows.take(j as int).filter(pred);
            let ghost r = rows[j as int];
            let ghost td = temp.deep_view();
            proof {
                assert(rows.take(j + 1) =~= rows.take(j as int).push(r));
                rows.take(j as int).lemma_filter_push(r, pred);
                lemma_index_last_keys(pre, c);
                lemma_distinct(keys_of(pre, c));
            }
            let row = &src[j];
            if col < row.len() {
                match find_key(&running, col, &row[col]) {
                    Some(p) => {
                        proof {
                            assert(entry_keys(rd, c)[p as int] == r[col as int]);
                            assert(pred(r));
                        }
                        match find_key(&temp, col, &row[col]) {
                            Some(q) => {
                                proof {
                                    lemma_index_last_push_present(pre, r, c, q as int);
                                }
                                temp.set(q, clone_row(row));
                                proof {
                                    assert(temp.deep_view() =~= td.update(q as int, r));
                                }
                            },
                            None => {
                                proof {
                                    lemma_index_last_push_new(pre, r, c);
                                }
                                temp.push(clone_row(row));
                                proof {
                                    assert(temp.deep_view() =~= td.push(r));
                                }
                            },
                        }
                    },
                    None => {},
                }
            }
            j += 1;
        }
        proof {
            assert(rows.take(j as int) =~= rows);
            let t = srcs.take(s + 1);
            assert(t.drop_last() =~= srcs.take(s as int));
            assert(t.last() == rows);
        }
        running = temp;
        if running.len() == 0 && s + 1 < sources.len() {
            proof {
                let t = srcs.take(s + 1);
                assert forall|k: Text| !common(srcs, c, k) by {
                    lemma_intersection_keys(t, c, k);
                    if common(srcs, c, k) {
                        assert forall|i: int| 0 <= i < t.len() implies keys_of(#[trigger] t[i], c).contains(k) by {
                            assert(t[i] == srcs[i]);
                        }
                    }
                }
                let full = intersection(srcs, c);
                lemma_index_last_keys(full, c);
                if full.len() > 0 {
                    let k = entry_keys(full, c)[0];
                    assert(entry_keys(full, c).contains(k));
                    lemma_intersection_keys(srcs, c, k);
                }
            }
            return Ok(Vec::new());
        }
        s += 1;
    }
    proof {
        assert(srcs.take(s as int) =~= srcs);
    }
    Ok(running)
}

/// Filtering rows that all pass leaves them as they are.
pub proof fn lemma_filter_all<A>(s: Seq<A>, f: spec_fn(A) -> bool)
    requires
        forall|i: int| 0 <= i < s.len() ==> f(#[trigger] s[i]),
    ensures
        s.filter(f) == s,
    decreases s.len(),
{
    if s.len() == 0 {
        reveal(Seq::filter);
    } else {
        let q = s.drop_last();
        assert forall|i: int| 0 <= i < q.len() implies f(#[trigger] q[i]) by {
            assert(q[i] == s[i]);
        }
        lemma_filter_all(q, f);
        assert(f(s[s.len() - 1]));
        q.lemma_filter_push(s.last(), f);
        assert(q.push(s.last()) =~= s);
    }
}

/// Dropping the rows of some keys from uniquely keyed rows keeps them
/// uniquely keyed, and their keys are the kept keys.
pub proof fn lemma_filter_key_not_in(rows: Table, subtract: Table, col: nat)
    requires
        keyed_uniquely(rows, col),
    ensures
        keyed_uniquely(rows.filter(key_not_in(subtract, col)), col),
        forall|k: Text| entry_keys(rows.filter(key_not_in(subtract, col)), col).contains(k)
            <==> entry_keys(rows, col).contains(k) && !keys_of(subtract, col).contains(k),
    decreases rows.len(),
{
    let f = key_not_in(subtract, col);
    if rows.len() == 0 {
        reveal(Seq::filter);
        assert(entry_keys(rows.filter(f), col) =~= Seq::<Text>::empty());
    } else {
        let q = rows.drop_last();
        let r = rows.last();
        assert(q.push(r) =~= rows);
        let e = entry_keys(rows, col);
        assert(entry_keys(q, col) =~= e.drop_last());
        assert(e == entry_keys(q, col).push(r[col as int]));
        assert forall|p: int| 0 <= p < q.len() implies has_col(#[trigger] q[p], col) by {
            assert(q[p] == rows[p]);
        }
        assert(has_col(rows[rows.len() - 1], col));
        lemma_filter_key_not_in(q, subtract, col);
        q.lemma_filter_push(r, f);
        let fq = q.filter(f);
        let ef = entry_keys(fq, col);
        assert forall|k: Text| e.contains(k) <==> (entry_keys(q, col).contains(k) || k == r[col as int]) by {
            lemma_contains_drop_last(e, k);
        }
        if f(r) {
            assert(entry_keys(fq.push(r), col) =~= ef.push(r[col as int]));
            assert forall|k: Text| ef.push(r[col as int]).contains(k) <==> (ef.contains(k) || k == r[col as int]) by {
                lemma_contains_drop_last(ef.push(r[col as int]), k);
                assert(ef.push(r[col as int]).drop_last() =~= ef);
            }
            if ef.contains(r[col as int]) {
                let i = choose|i: int| 0 <= i < q.len() && entry_keys(q, col)[i] == r[col as int];
                assert(e[i] == e[rows.len() - 1]);
            }
            let g = ef.push(r[col as int]);
            assert forall|i: int, j: int| 0 <= i < g.len() && 0 <= j < g.len() && i != j implies g[i] != g[j] by {
                if i < ef.len() && j < ef.len() {
                    assert(ef[i] != ef[j]);
                } else if i < ef.len() {
                    assert(ef.contains(g[i]));
                } else {
                    assert(ef.contains(g[j]));
                }
            }
            assert forall|p: int| 0 <= p < fq.push(r).len() implies has_col(#[trigger] fq.push(r)[p], col) by {
                if p < fq.len() {
                    assert(has_col(fq[p], col));
                }
            }
        }
    }
}

/// Removing the keys of `subtract` from `base` and putting back the keys of
/// `base` that `subtract` holds gives back exactly the keys of `base`.
pub proof fn complement_restores_keys(base: Table, subtract: Table, col: nat)
    ensures
        entry_keys(complement(base, subtract, col), col).to_set()
            + keys_of(base, col).to_set().intersect(keys_of(subtract, col).to_set())
            == keys_of(base, col).to_set(),
{
    let idx = index_last(base, col);
    lemma_index_last_keys(base, col);
    lemma_distinct(keys_of(base, col));
    assert forall|p: int| 0 <= p < idx.len() implies has_col(#[trigger] idx[p], col) by {}
    lemma_filter_key_not_in(idx, subtract, col);
    assert(entry_keys(complement(base, subtract, col), col).to_set()
        + keys_of(base, col).to_set().intersect(keys_of(subtract, col).to_set())
        =~= keys_of(base, col).to_set());
}

/// Subtracting the same source again from a complement changes nothing.
pub proof fn complement_idempotent(base: Table, subtract: Table, col: nat)
    ensures
        complement(complement(base, subtract, col), subtract, col) == complement(base, subtract, col),
{
    let idx = index_last(base, col);
    let c = complement(base, subtract, col);
    let f = key_not_in(subtract, col);
    lemma_index_last_keys(base, col);
    lemma_distinct(keys_of(base, col));
    lemma_filter_key_not_in(idx, subtract, col);
    lemma_index_of_index(c, col);
    assert forall|i: int| 0 <= i < c.len() implies f(#[trigger] c[i]) by {
        idx.lemma_filter_pred(f, i);
    }
    lemma_filter_all(c, f);
}

/// The union of a source with itself holds one row per key of the source,
/// the earliest, and the second copy adds no key. For a source whose rows
/// are keyed uniquely that is one row per row.
pub proof fn union_with_itself(a: Table, col: nat)
    ensures
        union_rows(seq![a, a], col) == index_first(a, col),
        union_rows(seq![a, a], col).len() == distinct(keys_of(a, col)).len(),
        union_new(seq![a, a], col) == 0,
        keyed_uniquely(a, col) ==> union_rows(seq![a, a], col).len() == a.len(),
{
    let two = seq![a, a];
    assert(two.drop_last() =~= seq![a]);
    assert(seq![a].drop_last() =~= Seq::<Table>::empty());
    assert(seq![a].last() == a);
    assert(concat_all(seq![a].drop_last()) =~= Seq::<Record>::empty());
    assert(concat_all(seq![a]) =~= a);
    assert(concat_all(two) == a + a);
    lemma_index_first_plus_known(a, a, col, a.len() as int);
    assert(a + a.take(a.len() as int) =~= a + a);
    lemma_index_first_keys(a, col);
    let d = distinct(keys_of(a, col));
    lemma_distinct(keys_of(a, col));
    assert(d.all(|x: Text| !absent_from(a, col)(x)));
    d.lemma_all_neg_filter_empty(absent_from(a, col));
    if keyed_uniquely(a, col) {
        lemma_index_of_index(a, col);
    }
}

/// Appending rows whose keys are all present leaves a first-wins index as it was.
proof fn lemma_index_first_plus_known(a: Table, b: Table, col: nat, n: int)
    requires
        0 <= n <= b.len(),
        forall|k: Text| keys_of(b, col).contains(k) ==> keys_of(a, col).contains(k),
    ensures
        index_first(a + b.take(n), col) == index_first(a, col),
    decreases n,
{
    if n == 0 {
        assert(a + b.take(0) =~= a);
    } else {
        lemma_index_first_plus_known(a, b, col, n - 1);
        let pre = a + b.take(n - 1);
        assert(a + b.take(n) =~= pre.push(b[n - 1]));
        lemma_index_first_push(pre, b[n - 1], col);
        if has_col(b[n - 1], col) {
            let k = b[n - 1][col as int];
            assert(b.take(n) =~= b.take(n - 1).push(b[n - 1]));
            lemma_keys_of_push(b.take(n - 1), b[n - 1], col);
            assert(keys_of(b.take(n), col)[keys_of(b.take(n), col).len() - 1] == k);
            crate::index::lemma_keys_prefix(b, n, col, k);
            lemma_keys_of_concat(a, b.take(n - 1), col);
            let ka = keys_of(a, col);
            let i = choose|i: int| 0 <= i < ka.len() && ka[i] == k;
            assert((ka + keys_of(b.take(n - 1), col))[i] == k);
        }
    }
}

/// The keys of an intersection of two sources do not depend on their order.
pub proof fn intersection_keys_commute(a: Table, b: Table, col: nat)
    ensures
        entry_keys(intersection(seq![a, b], col), col).to_set()
            == entry_keys(intersection(seq![b, a], col), col).to_set(),
{
    assert forall|k: Text| entry_keys(intersection(seq![a, b], col), col).contains(k)
        <==> entry_keys(intersection(seq![b, a], col), col).contains(k) by {
        lemma_intersection_keys(seq![a, b], col, k);
        lemma_intersection_keys(seq![b, a], col, k);
        if common(seq![a, b], col, k) {
            assert(keys_of(seq![a, b][0], col).contains(k));
            assert(keys_of(seq![a, b][1], col).contains(k));
        }
        if common(seq![b, a], col, k) {
            assert(keys_of(seq![b, a][0], col).contains(k));
            assert(keys_of(seq![b, a][1], col).contains(k));
        }
    }
    assert(entry_keys(intersection(seq![a, b], col), col).to_set()
        =~= entry_keys(intersection(seq![b, a], col), col).to_set());
}

/// The intersection of one source is that source's index; for a source
/// whose rows are keyed uniquely, the source itself.
pub proof fn intersection_single(a: Table, col: nat)
    ensures
        intersection(seq![a], col) == index_last(a, col),
        keyed_uniquely(a, col) ==> intersection(seq![a], col) == a,
{
    if keyed_uniquely(a, col) {
        lemma_index_of_index(a, col);
    }
}

/// Adding a source never shrinks a union, and a union holds exactly one row
/// per distinct key over all sources, never more than the rows given.
pub proof fn union_monotonic(srcs: Seq<Table>, extra: Table, col: nat)
    ensures
        union_rows(srcs, col).len() <= union_rows(srcs.push(extra), col).len(),
        union_rows(srcs, col).len() == keys_of(concat_all(srcs), col).to_set().len(),
        union_rows(srcs, col).len() <= concat_all(srcs).len(),
{
    let all = concat_all(srcs);
    assert(srcs.push(extra).drop_last() =~= srcs);
    lemma_keys_of_concat(all, extra, col);
    lemma_distinct_len_append(keys_of(all, col), keys_of(extra, col));
    lemma_index_first_keys(all, col);
    lemma_index_first_keys(all + extra, col);
    lemma_distinct_to_set(keys_of(all, col));
    keys_of(all, col).lemma_cardinality_of_set();
    lemma_keys_of_len(all, col);
}

} // verus!
