//! The keyword classifier: rows whose search columns contain a keyword.

use vstd::prelude::*;
use crate::index::{
    Record, Table, Text, build_index, clone_row, has_col, index_last, keyed_uniquely,
    keys_of, lemma_distinct_to_set, lemma_index_last_keys, lemma_index_of_index,
    lemma_keys_of_len,
};
use crate::text::{chars_of, contains_text, text_contains};

verus! {

/// Whether some keyword occurs in `field`.
pub open spec fn matches_any(field: Text, keywords: Seq<Text>) -> bool {
    exists|k: int| 0 <= k < keywords.len() && contains_text(field, #[trigger] keywords[k])
}

/// Rows whose column `col` contains a keyword.
pub open spec fn hit(keywords: Seq<Text>, col: nat) -> spec_fn(Record) -> bool {
    |r: Record| has_col(r, col) && matches_any(r[col as int], keywords)
}

/// Rows whose column `col` contains no keyword. Rows without the column are
/// neither hit nor missed: they are malformed.
pub open spec fn miss(keywords: Seq<Text>, col: nat) -> spec_fn(Record) -> bool {
    |r: Record| has_col(r, col) && !matches_any(r[col as int], keywords)
}

/// Rows that one of the columns `cols` (those the row has) makes a hit.
pub open spec fn hit_any_col(keywords: Seq<Text>, cols: Seq<usize>) -> spec_fn(Record) -> bool {
    |r: Record| exists|c: int| 0 <= c < cols.len() && #[trigger] hit(keywords, cols[c] as nat)(r)
}

/// The keywords as character sequences.
pub open spec fn keyword_texts(keywords: Seq<String>) -> Seq<Text> {
    keywords.map_values(|k: String| k@)
}

fn keyword_chars(keywords: &Vec<String>) -> (v: Vec<Vec<char>>)
    ensures
        v.len() == keywords.len(),
        forall|k: int| 0 <= k < v.len() ==> (#[trigger] v[k])@ == keywords[k]@,
{
    let mut v: Vec<Vec<char>> = Vec::new();
    let mut k: usize = 0;
    while k < keywords.len()
        invariant
            k <= keywords.len(),
            v.len() == k,
            forall|q: int| 0 <= q < k ==> (#[trigger] v[q])@ == keywords[q]@,
        decreases keywords.len() - k,
    {
        v.push(chars_of(keywords[k].as_str()));
        k += 1;
    }
    v
}

/// Whether some keyword occurs in `field`; the keywords are given as characters.
fn field_matches(field: &String, kws: &Vec<Vec<char>>, keywords: Ghost<Seq<Text>>) -> (r: bool)
    requires
        kws.len() == keywords@.len(),
        forall|k: int| 0 <= k < kws.len() ==> (#[trigger] kws[k])@ == keywords@[k],
    ensures
        r == matches_any(field@, keywords@),
{
    let f = chars_of(field.as_str());
    let mut k: usize = 0;
    while k < kws.len()
        invariant
            k <= kws.len(),
            f@ == field@,
            kws.len() == keywords@.len(),
            forall|q: int| 0 <= q < kws.len() ==> (#[trigger] kws[q])@ == keywords@[q],
            forall|q: int| 0 <= q < k ==> !contains_text(field@, #[trigger] keywords@[q]),
        decreases kws.len() - k,
    {
        if text_contains(&f, &kws[k]) {
            return true;
        }
        k += 1;
    }
    false
}

/// Whether the row's column `col` contains one of the keywords.
fn row_hits(row: &Vec<String>, col: usize, kws: &Vec<Vec<char>>, keywords: Ghost<Seq<Text>>) -> (r: bool)
    requires
        kws.len() == keywords@.len(),
        forall|k: int| 0 <= k < kws.len() ==> (#[trigger] kws[k])@ == keywords@[k],
    ensures
        r == hit(keywords@, col as nat)(row.deep_view()),
{
    if col < row.len() {
        field_matches(&row[col], kws, keywords)
    } else {
        false
    }
}

/// The rows whose column `search_index` contains at least one of the
/// keywords, in source order. Rows without that column are skipped.
pub fn search_keyword(keywords: &Vec<String>, rows: &Vec<Vec<String>>, search_index: usize) -> (out: Vec<Vec<String>>)
    ensures
        out.deep_view() == rows.deep_view().filter(hit(keyword_texts(keywords@), search_index as nat)),
{
    let ghost kt = keyword_texts(keywords@);
    let kws = keyword_chars(keywords);
    let ghost all = rows.deep_view();
    let ghost pred = hit(kt, search_index as nat);
    let mut out: Vec<Vec<String>> = Vec::new();
    let mut i: usize = 0;
    proof {
        assert(all.take(0) =~= Seq::<Record>::empty());
        reveal(Seq::filter);
        assert(out.deep_view() =~= all.take(0).filter(pred));
    }
    while i < rows.len()
        invariant
            i <= rows.len(),
            all == rows.deep_view(),
            kt == keyword_texts(keywords@),
            pred == hit(kt, search_index as nat),
            kws.len() == kt.len(),
            forall|k: int| 0 <= k < kws.len() ==> (#[trigger] kws[k])@ == kt[k],
            out.deep_view() == all.take(i as int).filter(pred),
        decreases rows.len() - i,
    {
        let ghost od = out.deep_view();
        proof {
            assert(all.take(i + 1) =~= all.take(i as int).push(all[i as int]));
            all.take(i as int).lemma_filter_push(all[i as int], pred);
        }
        if row_hits(&rows[i], search_index, &kws, Ghost(kt)) {
            out.push(clone_row(&rows[i]));
            proof {
                assert(out.deep_view() =~= od.push(all[i as int]));
            }
        }
        i += 1;
    }
    proof {
        assert(all.take(i as int) =~= all);
    }
    out
}

/// The rows whose column `search_index` contains none of the keywords, in
/// source order. Rows without that column are skipped.
pub fn delete_keyword_data(keywords: &Vec<String>, rows: &Vec<Vec<String>>, search_index: usize) -> (out: Vec<Vec<String>>)
    ensures
        out.deep_view() == rows.deep_view().filter(miss(keyword_texts(keywords@), search_index as nat)),
{
    let ghost kt = keyword_texts(keywords@);
    let kws = keyword_chars(keywords);
    let ghost all = rows.deep_view();
    let ghost pred = miss(kt, search_index as nat);
    let mut out: Vec<Vec<String>> = Vec::new();
    let mut i: usize = 0;
    proof {
        assert(all.take(0) =~= Seq::<Record>::empty());
        reveal(Seq::filter);
        assert(out.deep_view() =~= all.take(0).filter(pred));
    }
    while i < rows.len()
        invariant
            i <= rows.len(),
            all == rows.deep_view(),
            kt == keyword_texts(keywords@),
            pred == miss(kt, search_index as nat),
            kws.len() == kt.len(),
            forall|k: int| 0 <= k < kws.len() ==> (#[trigger] kws[k])@ == kt[k],
            out.deep_view() == all.take(i as int).filter(pred),
        decreases rows.len() - i,
    {
        let ghost od = out.deep_view();
        proof {
            assert(all.take(i + 1) =~= all.take(i as int).push(all[i as int]));
            all.take(i as int).lemma_filter_push(all[i as int], pred);
        }
        let row = &rows[i];
        if search_index < row.len() {
            if !field_matches(&row[search_index], &kws, Ghost(kt)) {
                out.push(clone_row(row));
                proof {
                    assert(out.deep_view() =~= od.push(all[i as int]));
                }
            }
        }
        i += 1;
    }
    proof {
        assert(all.take(i as int) =~= all);
    }
    out
}

/// The rows in which one of the columns `search_index` contains at least
/// one of the keywords, in source order. The columns are tried in the order
/// given; a column that a row lacks is passed over.
pub fn multiple_search_keyword(keywords: &Vec<String>, rows: &Vec<Vec<String>>, search_index: &Vec<usize>) -> (out: Vec<Vec<String>>)
    ensures
        out.deep_view() == rows.deep_view().filter(hit_any_col(keyword_texts(keywords@), search_index@)),
{
    let ghost kt = keyword_texts(keywords@);
    let kws = keyword_chars(keywords);
    let ghost all = rows.deep_view();
    let ghost pred = hit_any_col(kt, search_index@);
    let mut out: Vec<Vec<String>> = Vec::new();
    let mut i: usize = 0;
    proof {
        assert(all.take(0) =~= Seq::<Record>::empty());
        reveal(Seq::filter);
        assert(out.deep_view() =~= all.take(0).filter(pred));
    }
    while i < rows.len()
        invariant
            i <= rows.len(),
            all == rows.deep_view(),
            kt == keyword_texts(keywords@),
            pred == hit_any_col(kt, search_index@),
            kws.len() == kt.len(),
            forall|k: int| 0 <= k < kws.len() ==> (#[trigger] kws[k])@ == kt[k],
            out.deep_view() == all.take(i as int).filter(pred),
        decreases rows.len() - i,
    {
        let ghost od = out.deep_view();
        proof {
            assert(all.take(i + 1) =~= all.take(i as int).push(all[i as int]));
            all.take(i as int).lemma_filter_push(all[i as int], pred);
        }
        let row = &rows[i];
        let mut c: usize = 0;
        let mut found = false;
        while c < search_index.len() && !found
            invariant
                i < rows.len(),
                all == rows.deep_view(),
                c <= search_index.len(),
                row.deep_view() == all[i as int],
                kws.len() == kt.len(),
                forall|k: int| 0 <= k < kws.len() ==> (#[trigger] kws[k])@ == kt[k],
                found ==> pred(all[i as int]),
                pred == hit_any_col(kt, search_index@),
                !found ==> forall|q: int| 0 <= q < c ==> !(#[trigger] hit(kt, search_index@[q] as nat)(all[i as int])),
            decreases search_index.len() - c,
        {
            if row_hits(row, search_index[c], &kws, Ghost(kt)) {
                found = true;
            }
            c += 1;
        }
        if found {
            out.push(clone_row(row));
            proof {
                assert(out.deep_view() =~= od.push(all[i as int]));
            }
        }
        i += 1;
    }
    proof {
        assert(all.take(i as int) =~= all);
    }
    out
}

/// Rows that the keywords do not hit in column `col`.
pub open spec fn stays(keywords: Seq<Text>, col: nat) -> spec_fn(Record) -> bool {
    |r: Record| !hit(keywords, col)(r)
}

/// The keyword groups as character sequences.
pub open spec fn group_texts(groups: Seq<Vec<String>>) -> Seq<Seq<Text>> {
    groups.map_values(|g: Vec<String>| keyword_texts(g@))
}

/// The pool after the first `n` groups took their rows out of it.
pub open spec fn pool_after(pool: Table, groups: Seq<Seq<Text>>, col: nat, n: nat) -> Table
    decreases n,
{
    if n == 0 {
        pool
    } else {
        pool_after(pool, groups, col, (n - 1) as nat).filter(stays(groups[n - 1], col))
    }
}

/// The rows of group `g`: those of the pool left by the earlier groups that
/// group `g` hits.
pub open spec fn group_rows(pool: Table, groups: Seq<Seq<Text>>, col: nat, g: nat) -> Table {
    pool_after(pool, groups, col, g).filter(hit(groups[g as int], col))
}

/// The exhaustive partition: one destination per group, in group order.
pub open spec fn partition(pool: Table, groups: Seq<Seq<Text>>, col: nat) -> Seq<Table> {
    Seq::new(groups.len(), |g: int| group_rows(pool, groups, col, g as nat))
}

/// Splits rows into a pool indexed by `id_col` (a later row replaces an
/// earlier one with the same identity) and gives each keyword group, in the
/// order given, the rows of the pool whose column `search_index` contains
/// one of its keywords. Those rows leave the pool before the next group is
/// searched, so no row goes to two groups.
pub fn unique_search_keyword(groups: &Vec<Vec<String>>, rows: &Vec<Vec<String>>, id_col: usize, search_index: usize) -> (out: Vec<Vec<Vec<String>>>)
    ensures
        out.deep_view() == partition(index_last(rows.deep_view(), id_col as nat), group_texts(groups@), search_index as nat),
{
    let ghost gt = group_texts(groups@);
    let ghost c = search_index as nat;
    let mut pool = build_index(rows, id_col);
    let ghost pool0 = pool.deep_view();
    let mut out: Vec<Vec<Vec<String>>> = Vec::new();
    let mut g: usize = 0;
    while g < groups.len()
        invariant
            g <= groups.len(),
            gt == group_texts(groups@),
            c == search_index,
            pool.deep_view() == pool_after(pool0, gt, c, g as nat),
            out.len() == g,
            forall|q: int| 0 <= q < g ==> (#[trigger] out[q]).deep_view() == group_rows(pool0, gt, c, q as nat),
        decreases groups.len() - g,
    {
        let ghost kt = gt[g as int];
        assert(kt == keyword_texts(groups[g as int]@));
        let kws = keyword_chars(&groups[g]);
        let ghost pd = pool.deep_view();
        let mut taken: Vec<Vec<String>> = Vec::new();
        let mut rest: Vec<Vec<String>> = Vec::new();
        let mut i: usize = 0;
        proof {
            assert(pd.take(0) =~= Seq::<Record>::empty());
            reveal(Seq::filter);
            assert(taken.deep_view() =~= pd.take(0).filter(hit(kt, c)));
            assert(rest.deep_view() =~= pd.take(0).filter(stays(kt, c)));
        }
        while i < pool.len()
            invariant
                i <= pool.len(),
                pd == pool.deep_view(),
                c == search_index,
                kws.len() == kt.len(),
                forall|k: int| 0 <= k < kws.len() ==> (#[trigger] kws[k])@ == kt[k],
                taken.deep_view() == pd.take(i as int).filter(hit(kt, c)),
                rest.deep_view() == pd.take(i as int).filter(stays(kt, c)),
            decreases pool.len() - i,
        {
            let ghost td = taken.deep_view();
            let ghost rd = rest.deep_view();
            proof {
                assert(pd.take(i + 1) =~= pd.take(i as int).push(pd[i as int]));
                pd.take(i as int).lemma_filter_push(pd[i as int], hit(kt, c));
                pd.take(i as int).lemma_filter_push(pd[i as int], stays(kt, c));
            }
            if row_hits(&pool[i], search_index, &kws, Ghost(kt)) {
                taken.push(clone_row(&pool[i]));
                proof {
                    assert(taken.deep_view() =~= td.push(pd[i as int]));
                }
            } else {
                rest.push(clone_row(&pool[i]));
                proof {
                    assert(rest.deep_view() =~= rd.push(pd[i as int]));
                }
            }
            i += 1;
        }
        proof {
            assert(pd.take(i as int) =~= pd);
        }
        out.push(taken);
        pool = rest;
        g += 1;
    }
    proof {
        assert(out.deep_view() =~= partition(pool0, gt, c));
    }
    out
}

/// Whether some group hits the row.
pub open spec fn hit_by_some(groups: Seq<Seq<Text>>, col: nat, r: Record) -> bool {
    exists|g: int| 0 <= g < groups.len() && #[trigger] hit(groups[g], col)(r)
}

/// The rows emitted by the first `n` groups, counted.
pub open spec fn emitted(pool: Table, groups: Seq<Seq<Text>>, col: nat, n: nat) -> nat
    decreases n,
{
    if n == 0 {
        0
    } else {
        emitted(pool, groups, col, (n - 1) as nat) + group_rows(pool, groups, col, (n - 1) as nat).len()
    }
}

/// A sequence splits into the elements that pass a test and those that fail it.
proof fn lemma_filter_split(s: Table, keywords: Seq<Text>, col: nat)
    ensures
        s.filter(hit(keywords, col)).len() + s.filter(stays(keywords, col)).len() == s.len(),
    decreases s.len(),
{
    if s.len() == 0 {
        reveal(Seq::filter);
    } else {
        let q = s.drop_last();
        lemma_filter_split(q, keywords, col);
        assert(q.push(s.last()) =~= s);
        q.lemma_filter_push(s.last(), hit(keywords, col));
        q.lemma_filter_push(s.last(), stays(keywords, col));
    }
}

/// A row is in the pool after `n` groups exactly when it is in the pool and
/// none of those groups hits it.
proof fn lemma_pool_after_contains(pool: Table, groups: Seq<Seq<Text>>, col: nat, n: nat, r: Record)
    requires
        n <= groups.len(),
    ensures
        pool_after(pool, groups, col, n).contains(r)
            <==> pool.contains(r) && forall|g: int| 0 <= g < n ==> !(#[trigger] hit(groups[g], col)(r)),
    decreases n,
{
    if n > 0 {
        let m = (n - 1) as nat;
        lemma_pool_after_contains(pool, groups, col, m, r);
        let p = pool_after(pool, groups, col, m);
        let f = stays(groups[m as int], col);
        broadcast use vstd::seq_lib::group_filter_ensures;
        if p.filter(f).contains(r) {
            p.lemma_filter_contains_rev(f, r);
        }
        if p.contains(r) && f(r) {
            let i = choose|i: int| 0 <= i < p.len() && p[i] == r;
            p.lemma_filter_contains(f, i);
        }
    }
}

/// The groups of the exhaustive partition are disjoint: a row goes to the
/// first group that hits it and to no later one. Together they hold as many
/// rows as the pool minus the rows no group hits, so never more than the
/// rows given, and exactly the pool's rows when every row is hit by some
/// group. When identities do not repeat, the pool is all the rows.
pub proof fn partition_is_exclusive(rows: Table, groups: Seq<Seq<Text>>, id_col: nat, col: nat)
    ensures
        ({
            let pool = index_last(rows, id_col);
            let parts = partition(pool, groups, col);
            &&& forall|g1: int, g2: int, r: Record| 0 <= g1 < g2 < groups.len() && #[trigger] parts[g1].contains(r)
                ==> !(#[trigger] parts[g2].contains(r))
            &&& emitted(pool, groups, col, groups.len()) + pool_after(pool, groups, col, groups.len()).len() == pool.len()
            &&& pool.len() <= rows.len()
            &&& (emitted(pool, groups, col, groups.len()) == pool.len() <==> forall|i: int| 0 <= i < pool.len()
                ==> hit_by_some(groups, col, #[trigger] pool[i]))
            &&& keyed_uniquely(rows, id_col) ==> pool.len() == rows.len()
        }),
{
    let pool = index_last(rows, id_col);
    let parts = partition(pool, groups, col);
    let n = groups.len();
    broadcast use vstd::seq_lib::group_filter_ensures;
    assert forall|g1: int, g2: int, r: Record| 0 <= g1 < g2 < groups.len() && #[trigger] parts[g1].contains(r)
        implies !(#[trigger] parts[g2].contains(r)) by {
        let p1 = pool_after(pool, groups, col, g1 as nat);
        let p2 = pool_after(pool, groups, col, g2 as nat);
        p1.lemma_filter_contains_rev(hit(groups[g1], col), r);
        if parts[g2].contains(r) {
            p2.lemma_filter_contains_rev(hit(groups[g2], col), r);
            lemma_pool_after_contains(pool, groups, col, g2 as nat, r);
        }
    }
    assert forall|m: nat| m <= n implies #[trigger] emitted(pool, groups, col, m) + pool_after(pool, groups, col, m).len() == pool.len() by {
        lemma_emitted(pool, groups, col, m);
    }
    lemma_index_last_keys(rows, id_col);
    lemma_distinct_to_set(keys_of(rows, id_col));
    keys_of(rows, id_col).lemma_cardinality_of_set();
    lemma_keys_of_len(rows, id_col);
    let last = pool_after(pool, groups, col, n);
    assert(emitted(pool, groups, col, n) + last.len() == pool.len());
    if last.len() > 0 {
        assert(last.contains(last[0]));
        lemma_pool_after_contains(pool, groups, col, n, last[0]);
        let i = choose|i: int| 0 <= i < pool.len() && pool[i] == last[0];
        if forall|i: int| 0 <= i < pool.len() ==> hit_by_some(groups, col, #[trigger] pool[i]) {
            assert(hit_by_some(groups, col, pool[i]));
            let g = choose|g: int| 0 <= g < groups.len() && #[trigger] hit(groups[g], col)(pool[i]);
            assert(!hit(groups[g], col)(last[0]));
        }
    } else {
        assert forall|i: int| 0 <= i < pool.len() implies hit_by_some(groups, col, #[trigger] pool[i]) by {
            assert(pool.contains(pool[i]));
            lemma_pool_after_contains(pool, groups, col, n, pool[i]);
            if !last.contains(pool[i]) {
            }
        }
    }
    if keyed_uniquely(rows, id_col) {
        lemma_index_of_index(rows, id_col);
    }
}

proof fn lemma_emitted(pool: Table, groups: Seq<Seq<Text>>, col: nat, m: nat)
    ensures
        emitted(pool, groups, col, m) + pool_after(pool, groups, col, m).len() == pool.len(),
    decreases m,
{
    if m > 0 {
        lemma_emitted(pool, groups, col, (m - 1) as nat);
        lemma_filter_split(pool_after(pool, groups, col, (m - 1) as nat), groups[m - 1], col);
    }
}

} // verus!
