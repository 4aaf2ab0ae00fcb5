//! The identity index: rows keyed by the text of one column.

use vstd::prelude::*;

verus! {

/// The text of one field.
pub type Text = Seq<char>;

/// A row: its fields, by position.
pub type Record = Seq<Text>;

/// A sequence of rows.
pub type Table = Seq<Record>;

/// Whether the row has a field at `col`.
pub open spec fn has_col(r: Record, col: nat) -> bool {
    col < r.len()
}

/// The identity keys of the rows that have the identity column, in source order.
pub open spec fn keys_of(rows: Table, col: nat) -> Seq<Text>
    decreases rows.len(),
{
    if rows.len() == 0 {
        Seq::empty()
    } else {
        let ks = keys_of(rows.drop_last(), col);
        if has_col(rows.last(), col) {
            ks.push(rows.last()[col as int])
        } else {
            ks
        }
    }
}

/// The elements of `s` without repeats, each at its first occurrence.
pub open spec fn distinct<A>(s: Seq<A>) -> Seq<A>
    decreases s.len(),
{
    if s.len() == 0 {
        Seq::empty()
    } else {
        let d = distinct(s.drop_last());
        if s.drop_last().contains(s.last()) {
            d
        } else {
            d.push(s.last())
        }
    }
}

/// The last row whose key is `k`.
pub open spec fn last_with_key(rows: Table, col: nat, k: Text) -> Record
    decreases rows.len(),
{
    if rows.len() == 0 {
        Seq::empty()
    } else if has_col(rows.last(), col) && rows.last()[col as int] == k {
        rows.last()
    } else {
        last_with_key(rows.drop_last(), col, k)
    }
}

/// The first row whose key is `k`.
pub open spec fn first_with_key(rows: Table, col: nat, k: Text) -> Record
    decreases rows.len(),
{
    if rows.len() == 0 {
        Seq::empty()
    } else if keys_of(rows.drop_last(), col).contains(k) {
        first_with_key(rows.drop_last(), col, k)
    } else {
        rows.last()
    }
}

/// The identity index in which a later row replaces an earlier one with the
/// same key: one entry per key, in the order the keys first appear.
pub open spec fn index_last(rows: Table, col: nat) -> Table {
    distinct(keys_of(rows, col)).map_values(|k: Text| last_with_key(rows, col, k))
}

/// The identity index in which the earliest row of each key is kept.
pub open spec fn index_first(rows: Table, col: nat) -> Table {
    distinct(keys_of(rows, col)).map_values(|k: Text| first_with_key(rows, col, k))
}

/// The keys of an index, entry by entry.
pub open spec fn entry_keys(idx: Table, col: nat) -> Seq<Text> {
    idx.map_values(|r: Record| r[col as int])
}

/// An element of a non-empty sequence is in its front part or is its last.
pub proof fn lemma_contains_drop_last<A>(s: Seq<A>, x: A)
    requires
        s.len() > 0,
    ensures
        s.contains(x) <==> (s.drop_last().contains(x) || x == s.last()),
{
    let p = s.drop_last();
    if p.contains(x) {
        let i = choose|i: int| 0 <= i < p.len() && p[i] == x;
        assert(s[i] == x);
    }
    if x == s.last() {
        assert(s[s.len() - 1] == x);
    }
    if s.contains(x) {
        let i = choose|i: int| 0 <= i < s.len() && s[i] == x;
        if i < s.len() - 1 {
            assert(p[i] == x);
        }
    }
}

/// `distinct` keeps each element once and loses none.
pub proof fn lemma_distinct<A>(s: Seq<A>)
    ensures
        distinct(s).no_duplicates(),
        forall|x: A| distinct(s).contains(x) <==> s.contains(x),
    decreases s.len(),
{
    if s.len() > 0 {
        let p = s.drop_last();
        let d = distinct(p);
        lemma_distinct(p);
        assert forall|x: A| distinct(s).contains(x) <==> s.contains(x) by {
            lemma_contains_drop_last(s, x);
            if !p.contains(s.last()) {
                lemma_contains_drop_last(d.push(s.last()), x);
                assert(d.push(s.last()).drop_last() =~= d);
            }
        }
        if !p.contains(s.last()) {
            assert(!d.contains(s.last()));
            let e = d.push(s.last());
            assert forall|i: int, j: int| 0 <= i < e.len() && 0 <= j < e.len() && i != j implies e[i] != e[j] by {
                if i < d.len() && j < d.len() {
                    assert(d[i] != d[j]);
                } else if i < d.len() {
                    assert(d.contains(e[i]));
                } else {
                    assert(d.contains(e[j]));
                }
            }
        }
    }
}

/// Appending a row extends the keys by its key, if it has one.
pub proof fn lemma_keys_of_push(rows: Table, r: Record, col: nat)
    ensures
        keys_of(rows.push(r), col) == if has_col(r, col) {
            keys_of(rows, col).push(r[col as int])
        } else {
            keys_of(rows, col)
        },
{
    assert(rows.push(r).drop_last() =~= rows);
}

/// The row that an index keeps for a present key carries that key.
pub proof fn lemma_last_with_key(rows: Table, col: nat, k: Text)
    requires
        keys_of(rows, col).contains(k),
    ensures
        has_col(last_with_key(rows, col, k), col),
        last_with_key(rows, col, k)[col as int] == k,
        rows.contains(last_with_key(rows, col, k)),
    decreases rows.len(),
{
    let p = rows.drop_last();
    if has_col(rows.last(), col) && rows.last()[col as int] == k {
        assert(rows[rows.len() - 1] == rows.last());
    } else {
        lemma_keys_of_push(p, rows.last(), col);
        assert(p.push(rows.last()) =~= rows);
        if !keys_of(p, col).contains(k) {
            let ks = keys_of(p, col);
            if has_col(rows.last(), col) {
                let i = choose|i: int| 0 <= i < ks.push(rows.last()[col as int]).len() && ks.push(rows.last()[col as int])[i] == k;
                if i < ks.len() {
                    assert(ks[i] == k);
                }
            }
        }
        lemma_last_with_key(p, col, k);
        let w = last_with_key(p, col, k);
        let j = choose|j: int| 0 <= j < p.len() && p[j] == w;
        assert(rows[j] == w);
    }
}

/// Each entry of an index carries the key at the same place of `distinct(keys_of(..))`.
pub proof fn lemma_index_last_keys(rows: Table, col: nat)
    ensures
        index_last(rows, col).len() == distinct(keys_of(rows, col)).len(),
        forall|p: int| 0 <= p < index_last(rows, col).len() ==> {
            &&& has_col(#[trigger] index_last(rows, col)[p], col)
            &&& index_last(rows, col)[p][col as int] == distinct(keys_of(rows, col))[p]
        },
        entry_keys(index_last(rows, col), col) == distinct(keys_of(rows, col)),
{
    let d = distinct(keys_of(rows, col));
    lemma_distinct(keys_of(rows, col));
    assert forall|p: int| 0 <= p < index_last(rows, col).len() implies {
        &&& has_col(#[trigger] index_last(rows, col)[p], col)
        &&& index_last(rows, col)[p][col as int] == d[p]
    } by {
        assert(d.contains(d[p]));
        lemma_last_with_key(rows, col, d[p]);
    }
    assert(entry_keys(index_last(rows, col), col) =~= d);
}

/// Appending a row without the identity column leaves the index as it was.
pub proof fn lemma_index_last_push_unkeyed(rows: Table, r: Record, col: nat)
    requires
        !has_col(r, col),
    ensures
        index_last(rows.push(r), col) == index_last(rows, col),
{
    lemma_keys_of_push(rows, r, col);
    let d = distinct(keys_of(rows, col));
    assert forall|p: int| 0 <= p < d.len() implies last_with_key(rows.push(r), col, d[p])
        == last_with_key(rows, col, d[p]) by {
        assert(rows.push(r).drop_last() =~= rows);
    }
    assert(index_last(rows.push(r), col) =~= index_last(rows, col));
}

/// Appending a row with a new key adds one entry at the end.
pub proof fn lemma_index_last_push_new(rows: Table, r: Record, col: nat)
    requires
        has_col(r, col),
        !keys_of(rows, col).contains(r[col as int]),
    ensures
        index_last(rows.push(r), col) == index_last(rows, col).push(r),
{
    let k = r[col as int];
    let ks = keys_of(rows, col);
    lemma_keys_of_push(rows, r, col);
    assert(ks.push(k).drop_last() =~= ks);
    let d = distinct(ks);
    lemma_distinct(ks);
    assert(distinct(ks.push(k)) == d.push(k));
    assert forall|p: int| 0 <= p < d.len() implies last_with_key(rows.push(r), col, d[p])
        == last_with_key(rows, col, d[p]) by {
        assert(rows.push(r).drop_last() =~= rows);
        assert(d.contains(d[p]));
    }
    assert(rows.push(r).drop_last() =~= rows);
    assert(index_last(rows.push(r), col) =~= index_last(rows, col).push(r));
}

/// Appending a row with a present key replaces that key's entry in place.
pub proof fn lemma_index_last_push_present(rows: Table, r: Record, col: nat, p: int)
    requires
        has_col(r, col),
        0 <= p < index_last(rows, col).len(),
        index_last(rows, col)[p][col as int] == r[col as int],
    ensures
        index_last(rows.push(r), col) == index_last(rows, col).update(p, r),
{
    let k = r[col as int];
    let ks = keys_of(rows, col);
    lemma_index_last_keys(rows, col);
    lemma_keys_of_push(rows, r, col);
    assert(ks.push(k).drop_last() =~= ks);
    let d = distinct(ks);
    lemma_distinct(ks);
    assert(d.contains(k));
    assert(distinct(ks.push(k)) == d);
    assert forall|q: int| 0 <= q < d.len() && q != p implies last_with_key(rows.push(r), col, d[q])
        == last_with_key(rows, col, d[q]) by {
        assert(rows.push(r).drop_last() =~= rows);
        assert(d[q] != d[p]);
    }
    assert(rows.push(r).drop_last() =~= rows);
    assert(index_last(rows.push(r), col) =~= index_last(rows, col).update(p, r));
}

/// The row that a first-wins index keeps for a present key carries that key.
pub proof fn lemma_first_with_key(rows: Table, col: nat, k: Text)
    requires
        keys_of(rows, col).contains(k),
    ensures
        has_col(first_with_key(rows, col, k), col),
        first_with_key(rows, col, k)[col as int] == k,
    decreases rows.len(),
{
    let p = rows.drop_last();
    assert(p.push(rows.last()) =~= rows);
    lemma_keys_of_push(p, rows.last(), col);
    if keys_of(p, col).contains(k) {
        lemma_first_with_key(p, col, k);
    } else {
        let ks = keys_of(p, col);
        if has_col(rows.last(), col) {
            lemma_contains_drop_last(ks.push(rows.last()[col as int]), k);
            assert(ks.push(rows.last()[col as int]).drop_last() =~= ks);
        }
    }
}

/// Each entry of a first-wins index carries the key at the same place of
/// `distinct(keys_of(..))`.
pub proof fn lemma_index_first_keys(rows: Table, col: nat)
    ensures
        index_first(rows, col).len() == distinct(keys_of(rows, col)).len(),
        forall|p: int| 0 <= p < index_first(rows, col).len() ==> {
            &&& has_col(#[trigger] index_first(rows, col)[p], col)
            &&& index_first(rows, col)[p][col as int] == distinct(keys_of(rows, col))[p]
        },
        entry_keys(index_first(rows, col), col) == distinct(keys_of(rows, col)),
{
    let d = distinct(keys_of(rows, col));
    lemma_distinct(keys_of(rows, col));
    assert forall|p: int| 0 <= p < index_first(rows, col).len() implies {
        &&& has_col(#[trigger] index_first(rows, col)[p], col)
        &&& index_first(rows, col)[p][col as int] == d[p]
    } by {
        assert(d.contains(d[p]));
        lemma_first_with_key(rows, col, d[p]);
    }
    assert(entry_keys(index_first(rows, col), col) =~= d);
}

/// Appending a row whose key is already present, or that has no key,
/// leaves a first-wins index as it was; a row with a new key is appended.
pub proof fn lemma_index_first_push(rows: Table, r: Record, col: nat)
    ensures
        !has_col(r, col) || keys_of(rows, col).contains(r[col as int])
            ==> index_first(rows.push(r), col) == index_first(rows, col),
        has_col(r, col) && !keys_of(rows, col).contains(r[col as int])
            ==> index_first(rows.push(r), col) == index_first(rows, col).push(r),
{
    let ks = keys_of(rows, col);
    let d = distinct(ks);
    lemma_keys_of_push(rows, r, col);
    lemma_distinct(ks);
    assert(rows.push(r).drop_last() =~= rows);
    assert forall|p: int| 0 <= p < d.len() implies first_with_key(rows.push(r), col, d[p])
        == first_with_key(rows, col, d[p]) by {
        assert(d.contains(d[p]));
    }
    if has_col(r, col) {
        let k = r[col as int];
        assert(ks.push(k).drop_last() =~= ks);
        if ks.contains(k) {
            assert(distinct(ks.push(k)) == d);
            assert(index_first(rows.push(r), col) =~= index_first(rows, col));
        } else {
            assert(distinct(ks.push(k)) == d.push(k));
            assert(index_first(rows.push(r), col) =~= index_first(rows, col).push(r));
        }
    } else {
        assert(index_first(rows.push(r), col) =~= index_first(rows, col));
    }
}

/// Whether some row of `rows` has the key `key` in column `col`.
pub fn contains_key(rows: &Vec<Vec<String>>, col: usize, key: &String) -> (r: bool)
    ensures
        r == keys_of(rows.deep_view(), col as nat).contains(key@),
{
    let ghost all = rows.deep_view();
    let mut j: usize = 0;
    proof {
        assert(all.take(0) =~= Seq::<Record>::empty());
    }
    while j < rows.len()
        invariant
            j <= rows.len(),
            all == rows.deep_view(),
            !keys_of(all.take(j as int), col as nat).contains(key@),
        decreases rows.len() - j,
    {
        let ghost before = all.take(j as int);
        proof {
            assert(all.take(j + 1) =~= before.push(all[j as int]));
            lemma_keys_of_push(before, all[j as int], col as nat);
        }
        let row = &rows[j];
        if col < row.len() {
            proof {
                let ks = keys_of(before, col as nat);
                lemma_contains_drop_last(ks.push(all[j as int][col as int]), key@);
                assert(ks.push(all[j as int][col as int]).drop_last() =~= ks);
            }
            if row[col] == *key {
                proof {
                    assert(all.take(j + 1) =~= all.take(j + 1));
                    lemma_keys_prefix(all, j + 1, col as nat, key@);
                }
                return true;
            }
        }
        j += 1;
    }
    proof {
        assert(all.take(j as int) =~= all);
    }
    false
}

/// A key of a prefix is a key of the whole.
pub proof fn lemma_keys_prefix(rows: Table, n: int, col: nat, k: Text)
    requires
        0 <= n <= rows.len(),
        keys_of(rows.take(n), col).contains(k),
    ensures
        keys_of(rows, col).contains(k),
    decreases rows.len() - n,
{
    if n < rows.len() {
        assert(rows.take(n + 1) =~= rows.take(n).push(rows[n]));
        lemma_keys_of_push(rows.take(n), rows[n], col);
        let ks = keys_of(rows.take(n), col);
        if has_col(rows[n], col) {
            lemma_contains_drop_last(ks.push(rows[n][col as int]), k);
            assert(ks.push(rows[n][col as int]).drop_last() =~= ks);
        }
        lemma_keys_prefix(rows, n + 1, col, k);
    } else {
        assert(rows.take(n) =~= rows);
    }
}

/// Whether every row has the identity column and no key repeats.
pub open spec fn keyed_uniquely(rows: Table, col: nat) -> bool {
    &&& forall|p: int| 0 <= p < rows.len() ==> has_col(#[trigger] rows[p], col)
    &&& entry_keys(rows, col).no_duplicates()
}

/// When every row has the identity column, its keys are the entry keys.
pub proof fn lemma_keys_of_keyed(rows: Table, col: nat)
    requires
        forall|p: int| 0 <= p < rows.len() ==> has_col(#[trigger] rows[p], col),
    ensures
        keys_of(rows, col) == entry_keys(rows, col),
    decreases rows.len(),
{
    if rows.len() > 0 {
        let q = rows.drop_last();
        assert forall|p: int| 0 <= p < q.len() implies has_col(#[trigger] q[p], col) by {
            assert(q[p] == rows[p]);
        }
        lemma_keys_of_keyed(q, col);
        assert(has_col(rows[rows.len() - 1], col));
        assert(entry_keys(rows, col) =~= entry_keys(q, col).push(rows.last()[col as int]));
    }
}

/// A sequence without repeats is its own `distinct`.
pub proof fn lemma_distinct_no_duplicates<A>(s: Seq<A>)
    requires
        s.no_duplicates(),
    ensures
        distinct(s) == s,
    decreases s.len(),
{
    if s.len() > 0 {
        let p = s.drop_last();
        assert(p.no_duplicates());
        lemma_distinct_no_duplicates(p);
        if p.contains(s.last()) {
            let i = choose|i: int| 0 <= i < p.len() && p[i] == s.last();
            assert(s[i] == s[s.len() - 1]);
        }
        assert(p.push(s.last()) =~= s);
    }
}

/// Extending a sequence never shortens its `distinct`.
pub proof fn lemma_distinct_len_append<A>(a: Seq<A>, b: Seq<A>)
    ensures
        distinct(a).len() <= distinct(a + b).len(),
    decreases b.len(),
{
    if b.len() == 0 {
        assert(a + b =~= a);
    } else {
        let bl = b.drop_last();
        lemma_distinct_len_append(a, bl);
        assert((a + b).drop_last() =~= a + bl);
    }
}

/// `distinct` keeps the set of elements, and its length is that set's size.
pub proof fn lemma_distinct_to_set<A>(s: Seq<A>)
    ensures
        distinct(s).to_set() == s.to_set(),
        distinct(s).len() == s.to_set().len(),
{
    lemma_distinct(s);
    assert(distinct(s).to_set() =~= s.to_set());
    distinct(s).unique_seq_to_set();
}

/// The key sequence is no longer than the rows.
pub proof fn lemma_keys_of_len(rows: Table, col: nat)
    ensures
        keys_of(rows, col).len() <= rows.len(),
    decreases rows.len(),
{
    if rows.len() > 0 {
        lemma_keys_of_len(rows.drop_last(), col);
    }
}

/// An index whose rows are keyed uniquely is its own index, whichever row
/// of a key is kept.
pub proof fn lemma_index_of_index(rows: Table, col: nat)
    requires
        keyed_uniquely(rows, col),
    ensures
        index_last(rows, col) == rows,
        index_first(rows, col) == rows,
    decreases rows.len(),
{
    if rows.len() == 0 {
        assert(index_last(rows, col) =~= rows);
        assert(index_first(rows, col) =~= rows);
    } else {
        let q = rows.drop_last();
        let r = rows.last();
        assert(q.push(r) =~= rows);
        let e = entry_keys(rows, col);
        assert(entry_keys(q, col) =~= e.drop_last());
        assert forall|p: int| 0 <= p < q.len() implies has_col(#[trigger] q[p], col) by {
            assert(q[p] == rows[p]);
        }
        lemma_index_of_index(q, col);
        lemma_keys_of_keyed(q, col);
        assert(has_col(rows[rows.len() - 1], col));
        if entry_keys(q, col).contains(r[col as int]) {
            let i = choose|i: int| 0 <= i < q.len() && entry_keys(q, col)[i] == r[col as int];
            assert(e[i] == e[rows.len() - 1]);
        }
        lemma_index_last_push_new(q, r, col);
        lemma_index_first_push(q, r, col);
    }
}

/// A copy of a row with the same fields.
pub fn clone_row(r: &Vec<String>) -> (c: Vec<String>)
    ensures
        c.deep_view() == r.deep_view(),
{
    let c = r.clone();
    proof {
        assert(c.deep_view() =~= r.deep_view());
    }
    c
}

/// The position of the entry whose identity field equals `key`, if any.
pub fn find_key(idx: &Vec<Vec<String>>, col: usize, key: &String) -> (r: Option<usize>)
    requires
        forall|p: int| 0 <= p < idx.len() ==> col < #[trigger] idx[p].len(),
    ensures
        r matches Some(p) ==> p < idx.len() && idx.deep_view()[p as int][col as int] == key@,
        r is None ==> !entry_keys(idx.deep_view(), col as nat).contains(key@),
{
    let mut p: usize = 0;
    while p < idx.len()
        invariant
            p <= idx.len(),
            forall|q: int| 0 <= q < idx.len() ==> col < #[trigger] idx[q].len(),
            forall|q: int| 0 <= q < p ==> idx.deep_view()[q][col as int] != key@,
        decreases idx.len() - p,
    {
        assert(col < idx[p as int].len());
        let found = idx[p][col] == *key;
        proof {
            assert(idx.deep_view()[p as int][col as int] == idx[p as int][col as int]@);
        }
        if found {
            return Some(p);
        }
        p += 1;
    }
    proof {
        let ek = entry_keys(idx.deep_view(), col as nat);
        if ek.contains(key@) {
            let q = choose|q: int| 0 <= q < ek.len() && ek[q] == key@;
            assert(idx.deep_view()[q][col as int] != key@);
        }
    }
    None
}

/// Builds the identity index of `rows` on column `col`: one entry per key,
/// in the order the keys first appear, each holding the last row with that
/// key. Rows without the column are skipped.
pub fn build_index(rows: &Vec<Vec<String>>, col: usize) -> (idx: Vec<Vec<String>>)
    ensures
        idx.deep_view() == index_last(rows.deep_view(), col as nat),
        forall|p: int| 0 <= p < idx.len() ==> col < #[trigger] idx[p].len(),
{
    let ghost all = rows.deep_view();
    let mut idx: Vec<Vec<String>> = Vec::new();
    let mut i: usize = 0;
    proof {
        assert(all.take(0) =~= Seq::<Record>::empty());
        assert(idx.deep_view() =~= index_last(all.take(0), col as nat));
    }
    while i < rows.len()
        invariant
            i <= rows.len(),
            all == rows.deep_view(),
            idx.deep_view() == index_last(all.take(i as int), col as nat),
            forall|p: int| 0 <= p < idx.len() ==> col < #[trigger] idx[p].len(),
        decreases rows.len() - i,
    {
        let ghost before = all.take(i as int);
        proof {
            assert(all.take(i + 1) =~= before.push(all[i as int]));
            lemma_index_last_keys(before, col as nat);
        }
        let row = &rows[i];
        if col < row.len() {
            match find_key(&idx, col, &row[col]) {
                Some(p) => {
                    proof {
                        lemma_index_last_push_present(before, all[i as int], col as nat, p as int);
                    }
                    idx.set(p, clone_row(row));
                    proof {
                        assert(idx.deep_view() =~= index_last(before, col as nat).update(p as int, all[i as int]));
                    }
                },
                None => {
                    proof {
                        lemma_distinct(keys_of(before, col as nat));
                        lemma_index_last_push_new(before, all[i as int], col as nat);
                    }
                    idx.push(clone_row(row));
                    proof {
                        assert(idx.deep_view() =~= index_last(before, col as nat).push(all[i as int]));
                    }
                },
            }
        } else {
            proof {
                lemma_index_last_push_unkeyed(before, all[i as int], col as nat);
            }
        }
        i += 1;
    }
    proof {
        assert(all.take(i as int) =~= all);
    }
    idx
}

} // verus!
