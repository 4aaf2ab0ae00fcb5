//! The phone consolidator: contact fields hold `;`-separated numbers;
//! merging two fields keeps each number once, mobile numbers first.

use vstd::prelude::*;
use vstd::string::StrSliceExecFns;
use crate::index::{Record, Table, Text, clone_row, distinct, lemma_distinct};
use crate::setops::lemma_filter_all;
use crate::text::{chars_of, piece, push_piece};

verus! {

/// A mobile number: eleven ASCII digits, the first of them `1`.
pub open spec fn is_mobile(t: Text) -> bool {
    &&& t.len() == 11
    &&& t[0] == '1'
    &&& forall|i: int| 1 <= i < 11 ==> '0' <= #[trigger] t[i] && t[i] <= '9'
}

/// Relies on regex's `Regex::new` and `Regex::is_match`: the pattern
/// `\A1[0-9]{10}\z` is valid, so `new` succeeds, and `is_match` tells
/// whether the whole token is `1` followed by ten ASCII digits.
#[verifier::external_body]
fn regex_is_mobile(token: &str) -> (r: bool)
    ensures
        r == is_mobile(token@),
{
    regex::Regex::new(r"\A1[0-9]{10}\z").unwrap().is_match(token)
}

/// The pieces of `s` between `;` separators, empty ones included: a text
/// without separator is one piece, and a trailing `;` ends with an empty piece.
pub open spec fn split_semi(s: Text) -> Seq<Text>
    decreases s.len(),
{
    if s.len() == 0 {
        seq![Seq::empty()]
    } else {
        let p = split_semi(s.drop_last());
        if s.last() == ';' {
            p.push(Seq::empty())
        } else {
            p.update(p.len() - 1, p.last().push(s.last()))
        }
    }
}

/// Non-empty texts.
pub open spec fn non_empty() -> spec_fn(Text) -> bool {
    |t: Text| t.len() > 0
}

/// The non-empty tokens of a contact field, in order.
pub open spec fn tokens(s: Text) -> Seq<Text> {
    split_semi(s).filter(non_empty())
}

/// Tokens written one after the other, each followed by `;`.
pub open spec fn join(ts: Seq<Text>) -> Text
    decreases ts.len(),
{
    if ts.len() == 0 {
        Seq::empty()
    } else {
        join(ts.drop_last()) + piece(ts.last())
    }
}

/// Mobile tokens.
pub open spec fn mobile() -> spec_fn(Text) -> bool {
    |t: Text| is_mobile(t)
}

/// Tokens that are not mobile numbers.
pub open spec fn landline() -> spec_fn(Text) -> bool {
    |t: Text| !is_mobile(t)
}

/// Tokens reordered: the mobile ones first, then the others, each part in
/// the order it had.
pub open spec fn mobile_first_order(ts: Seq<Text>) -> Seq<Text> {
    ts.filter(mobile()) + ts.filter(landline())
}

/// The consolidation of two contact fields: their tokens, each kept once at
/// its first occurrence, mobile numbers first, each followed by `;`.
pub open spec fn consolidate(a: Text, b: Text) -> Text {
    join(mobile_first_order(distinct(tokens(a) + tokens(b))))
}

/// The non-empty tokens of a contact field, in order.
pub fn split_tokens(s: &str) -> (v: Vec<String>)
    ensures
        v.deep_view() == tokens(s@),
{
    let cs = chars_of(s);
    let ghost t = s@;
    let mut out: Vec<String> = Vec::new();
    let mut start: usize = 0;
    let mut i: usize = 0;
    proof {
        assert(t.take(0) =~= Seq::<char>::empty());
        reveal(Seq::filter);
        assert(split_semi(t.take(0)).drop_last() =~= Seq::<Text>::empty());
        assert(t.subrange(0, 0) =~= Seq::<char>::empty());
    }
    while i < cs.len()
        invariant
            cs@ == t,
            t == s@,
            start <= i <= cs.len(),
            split_semi(t.take(i as int)).len() >= 1,
            split_semi(t.take(i as int)).last() == t.subrange(start as int, i as int),
            split_semi(t.take(i as int)).drop_last().filter(non_empty()) == out.deep_view(),
        decreases cs.len() - i,
    {
        let ghost sp = split_semi(t.take(i as int));
        let ghost od = out.deep_view();
        proof {
            assert(t.take(i + 1).drop_last() =~= t.take(i as int));
            assert(t.take(i + 1).last() == t[i as int]);
            assert(sp.drop_last().push(sp.last()) =~= sp);
        }
        if cs[i] == ';' {
            proof {
                let sp2 = split_semi(t.take(i + 1));
                assert(sp2 == sp.push(Seq::<char>::empty()));
                assert(sp2.drop_last() =~= sp);
                sp.drop_last().lemma_filter_push(sp.last(), non_empty());
            }
            if i > start {
                let tok = s.substring_char(start, i).to_owned();
                out.push(tok);
                proof {
                    assert(out.deep_view() =~= od.push(t.subrange(start as int, i as int)));
                }
            }
            start = i + 1;
            proof {
                assert(t.subrange(start as int, start as int) =~= Seq::<char>::empty());
            }
        } else {
            proof {
                let sp2 = split_semi(t.take(i + 1));
                assert(sp2.drop_last() =~= sp.drop_last());
                assert(sp2.last() =~= t.subrange(start as int, i + 1));
            }
        }
        i += 1;
    }
    let ghost sp = split_semi(t.take(i as int));
    let ghost od = out.deep_view();
    proof {
        assert(t.take(i as int) =~= t);
        assert(sp.drop_last().push(sp.last()) =~= sp);
        sp.drop_last().lemma_filter_push(sp.last(), non_empty());
    }
    if cs.len() > start {
        let tok = s.substring_char(start, cs.len()).to_owned();
        out.push(tok);
        proof {
            assert(out.deep_view() =~= od.push(t.subrange(start as int, i as int)));
        }
    }
    out
}

/// Whether `ts` holds a token equal to `t`.
fn has_token(ts: &Vec<String>, t: &String) -> (r: bool)
    ensures
        r == ts.deep_view().contains(t@),
{
    let mut i: usize = 0;
    while i < ts.len()
        invariant
            i <= ts.len(),
            forall|q: int| 0 <= q < i ==> ts.deep_view()[q] != t@,
        decreases ts.len() - i,
    {
        if ts[i] == *t {
            proof {
                assert(ts.deep_view()[i as int] == t@);
            }
            return true;
        }
        i += 1;
    }
    false
}

/// Appends to `d` the tokens of `ts` it does not hold yet.
fn add_distinct(d: &mut Vec<String>, ts: &Vec<String>, seen: Ghost<Seq<Text>>)
    requires
        old(d).deep_view() == distinct(seen@),
    ensures
        final(d).deep_view() == distinct(seen@ + ts.deep_view()),
{
    let ghost tv = ts.deep_view();
    let mut i: usize = 0;
    proof {
        assert(seen@ + tv.take(0) =~= seen@);
    }
    while i < ts.len()
        invariant
            i <= ts.len(),
            tv == ts.deep_view(),
            d.deep_view() == distinct(seen@ + tv.take(i as int)),
        decreases ts.len() - i,
    {
        let ghost pre = seen@ + tv.take(i as int);
        let ghost dd = d.deep_view();
        proof {
            assert((seen@ + tv.take(i + 1)).drop_last() =~= pre);
            assert((seen@ + tv.take(i + 1)).last() == tv[i as int]);
            lemma_distinct(pre);
        }
        if !has_token(d, &ts[i]) {
            d.push(ts[i].clone());
            proof {
                assert(d.deep_view() =~= dd.push(tv[i as int]));
            }
        }
        i += 1;
    }
    proof {
        assert(tv.take(i as int) =~= tv);
    }
}

/// Writes the tokens one after the other, each followed by `;`.
fn join_tokens(out: &mut String, ts: &Vec<String>, written: Ghost<Seq<Text>>)
    requires
        old(out)@ == join(written@),
    ensures
        final(out)@ == join(written@ + ts.deep_view()),
{
    let ghost tv = ts.deep_view();
    let mut i: usize = 0;
    proof {
        assert(written@ + tv.take(0) =~= written@);
    }
    while i < ts.len()
        invariant
            i <= ts.len(),
            tv == ts.deep_view(),
            out@ == join(written@ + tv.take(i as int)),
        decreases ts.len() - i,
    {
        proof {
            assert((written@ + tv.take(i + 1)).drop_last() =~= written@ + tv.take(i as int));
            assert((written@ + tv.take(i + 1)).last() == tv[i as int]);
        }
        push_piece(out, ts[i].as_str());
        i += 1;
    }
    proof {
        assert(tv.take(i as int) =~= tv);
    }
}

/// The tokens reordered mobile first, written out.
fn write_mobile_first(ts: &Vec<String>) -> (r: String)
    ensures
        r@ == join(mobile_first_order(ts.deep_view())),
{
    let ghost tv = ts.deep_view();
    let mut mobiles: Vec<String> = Vec::new();
    let mut others: Vec<String> = Vec::new();
    let mut i: usize = 0;
    proof {
        assert(tv.take(0) =~= Seq::<Text>::empty());
        reveal(Seq::filter);
        assert(mobiles.deep_view() =~= tv.take(0).filter(mobile()));
        assert(others.deep_view() =~= tv.take(0).filter(landline()));
    }
    while i < ts.len()
        invariant
            i <= ts.len(),
            tv == ts.deep_view(),
            mobiles.deep_view() == tv.take(i as int).filter(mobile()),
            others.deep_view() == tv.take(i as int).filter(landline()),
        decreases ts.len() - i,
    {
        let ghost md = mobiles.deep_view();
        let ghost od = others.deep_view();
        proof {
            assert(tv.take(i + 1) =~= tv.take(i as int).push(tv[i as int]));
            tv.take(i as int).lemma_filter_push(tv[i as int], mobile());
            tv.take(i as int).lemma_filter_push(tv[i as int], landline());
        }
        if regex_is_mobile(ts[i].as_str()) {
            mobiles.push(ts[i].clone());
            proof {
                assert(mobiles.deep_view() =~= md.push(tv[i as int]));
            }
        } else {
            others.push(ts[i].clone());
            proof {
                assert(others.deep_view() =~= od.push(tv[i as int]));
            }
        }
        i += 1;
    }
    proof {
        assert(tv.take(i as int) =~= tv);
    }
    let mut r = String::new();
    proof {
        assert(Seq::<Text>::empty() + mobiles.deep_view() =~= mobiles.deep_view());
    }
    join_tokens(&mut r, &mobiles, Ghost(Seq::empty()));
    join_tokens(&mut r, &others, Ghost(mobiles.deep_view()));
    r
}

/// Reorders a contact field: its mobile numbers first, then its other
/// tokens, each part in the order it had, each token followed by `;`.
/// Empty tokens are dropped.
pub fn mobile_first(phone: &str) -> (r: String)
    ensures
        r@ == join(mobile_first_order(tokens(phone@))),
{
    write_mobile_first(&split_tokens(phone))
}

/// Consolidates two contact fields: the non-empty tokens of `a`, then those
/// of `b`, each kept once at its first occurrence, written mobile numbers
/// first, each followed by `;`.
pub fn consolidate_contacts(a: &str, b: &str) -> (r: String)
    ensures
        r@ == consolidate(a@, b@),
{
    let ta = split_tokens(a);
    let tb = split_tokens(b);
    let mut d: Vec<String> = Vec::new();
    proof {
        assert(d.deep_view() =~= distinct(Seq::<Text>::empty()));
        assert(Seq::<Text>::empty() + ta.deep_view() =~= ta.deep_view());
    }
    add_distinct(&mut d, &ta, Ghost(Seq::empty()));
    add_distinct(&mut d, &tb, Ghost(ta.deep_view()));
    write_mobile_first(&d)
}

/// The row that `combine_phone` writes: the provenance label in
/// `source_col`, the consolidated contacts in `keep_col`, `clear_col` empty.
pub open spec fn phone_row(r: Record, keep_col: nat, clear_col: nat, source_col: nat, label: Text) -> Record {
    r.update(source_col as int, label)
        .update(keep_col as int, consolidate(r[keep_col as int], r[clear_col as int]))
        .update(clear_col as int, Seq::empty())
}

/// Whether a row has the three columns that `combine_phone` uses.
pub open spec fn phone_usable(r: Record, keep_col: nat, clear_col: nat, source_col: nat) -> bool {
    keep_col < r.len() && clear_col < r.len() && source_col < r.len()
}

/// The rows that `combine_phone` writes.
pub open spec fn phone_rows(rows: Table, keep_col: nat, clear_col: nat, source_col: nat, label: Text) -> Table
    decreases rows.len(),
{
    if rows.len() == 0 {
        Seq::empty()
    } else {
        let p = phone_rows(rows.drop_last(), keep_col, clear_col, source_col, label);
        if phone_usable(rows.last(), keep_col, clear_col, source_col) {
            p.push(phone_row(rows.last(), keep_col, clear_col, source_col, label))
        } else {
            p
        }
    }
}

/// Merges the two contact columns of every row into `keep_col`, clears
/// `clear_col` and writes `label` into `source_col`. Rows lacking one of
/// the three columns are skipped.
pub fn combine_phone(rows: &Vec<Vec<String>>, keep_col: usize, clear_col: usize, source_col: usize, label: &str) -> (out: Vec<Vec<String>>)
    ensures
        out.deep_view() == phone_rows(rows.deep_view(), keep_col as nat, clear_col as nat, source_col as nat, label@),
{
    let ghost all = rows.deep_view();
    let mut out: Vec<Vec<String>> = Vec::new();
    let mut i: usize = 0;
    proof {
        assert(all.take(0) =~= Seq::<Record>::empty());
        assert(out.deep_view() =~= Seq::<Record>::empty());
    }
    while i < rows.len()
        invariant
            i <= rows.len(),
            all == rows.deep_view(),
            out.deep_view() == phone_rows(all.take(i as int), keep_col as nat, clear_col as nat, source_col as nat, label@),
        decreases rows.len() - i,
    {
        let ghost od = out.deep_view();
        proof {
            assert(all.take(i + 1).drop_last() =~= all.take(i as int));
            assert(all.take(i + 1).last() == all[i as int]);
        }
        let row = &rows[i];
        if keep_col < row.len() && clear_col < row.len() && source_col < row.len() {
            let merged = consolidate_contacts(row[keep_col].as_str(), row[clear_col].as_str());
            let mut w = clone_row(row);
            let ghost wd = w.deep_view();
            w.set(source_col, label.to_owned());
            w.set(keep_col, merged);
            w.set(clear_col, String::new());
            proof {
                assert(w.deep_view() =~= phone_row(wd, keep_col as nat, clear_col as nat, source_col as nat, label@));
            }
            out.push(w);
            proof {
                assert(out.deep_view() =~= od.push(phone_row(all[i as int], keep_col as nat, clear_col as nat, source_col as nat, label@)));
            }
        }
        i += 1;
    }
    proof {
        assert(all.take(i as int) =~= all);
    }
    out
}

/// A token as it stands in a contact field: not empty, without `;`.
pub open spec fn is_token(t: Text) -> bool {
    t.len() > 0 && !t.contains(';')
}

/// No piece of `split_semi` holds a separator.
proof fn lemma_split_semi_pieces(s: Text)
    ensures
        split_semi(s).len() >= 1,
        forall|i: int| 0 <= i < split_semi(s).len() ==> !(#[trigger] split_semi(s)[i]).contains(';'),
    decreases s.len(),
{
    if s.len() > 0 {
        let q = s.drop_last();
        lemma_split_semi_pieces(q);
        let p = split_semi(q);
        if s.last() != ';' {
            let l = p.last().push(s.last());
            assert forall|i: int| 0 <= i < split_semi(s).len() implies !(#[trigger] split_semi(s)[i]).contains(';') by {
                if i == p.len() - 1 {
                    assert(!p[p.len() - 1].contains(';'));
                    if l.contains(';') {
                        let j = choose|j: int| 0 <= j < l.len() && l[j] == ';';
                        assert(p.last()[j] == ';');
                    }
                }
            }
        } else {
            assert forall|i: int| 0 <= i < split_semi(s).len() implies !(#[trigger] split_semi(s)[i]).contains(';') by {
                if i == p.len() {
                    assert(split_semi(s)[i] =~= Seq::<char>::empty());
                }
            }
        }
    }
}

/// The tokens of a field are tokens.
proof fn lemma_tokens_are_tokens(s: Text)
    ensures
        forall|i: int| 0 <= i < tokens(s).len() ==> is_token(#[trigger] tokens(s)[i]),
{
    broadcast use vstd::seq_lib::group_filter_ensures;
    lemma_split_semi_pieces(s);
    assert forall|i: int| 0 <= i < tokens(s).len() implies is_token(#[trigger] tokens(s)[i]) by {
        let t = tokens(s)[i];
        assert(tokens(s).contains(t));
        split_semi(s).lemma_filter_contains_rev(non_empty(), t);
        let j = choose|j: int| 0 <= j < split_semi(s).len() && split_semi(s)[j] == t;
        assert(!split_semi(s)[j].contains(';'));
    }
}

/// Appending text without a separator extends the last piece.
proof fn lemma_split_semi_append(x: Text, y: Text)
    requires
        !y.contains(';'),
    ensures
        split_semi(x + y) == split_semi(x).update(split_semi(x).len() - 1, split_semi(x).last() + y),
    decreases y.len(),
{
    lemma_split_semi_pieces(x);
    if y.len() == 0 {
        assert(x + y =~= x);
        assert(split_semi(x).last() + y =~= split_semi(x).last());
        assert(split_semi(x).update(split_semi(x).len() - 1, split_semi(x).last() + y) =~= split_semi(x));
    } else {
        let yl = y.drop_last();
        assert(!yl.contains(';')) by {
            if yl.contains(';') {
                let j = choose|j: int| 0 <= j < yl.len() && yl[j] == ';';
                assert(y[j] == ';');
            }
        }
        lemma_split_semi_append(x, yl);
        assert((x + y).drop_last() =~= x + yl);
        assert((x + y).last() == y.last());
        assert(y.last() != ';') by {
            assert(y[y.len() - 1] == y.last());
        }
        assert(split_semi(x).last() + yl.push(y.last()) =~= (split_semi(x).last() + yl).push(y.last()));
        assert(yl.push(y.last()) =~= y);
        assert(split_semi(x + y) =~= split_semi(x).update(split_semi(x).len() - 1, split_semi(x).last() + y));
    }
}

/// Splitting joined tokens gives them back, then the empty piece after
/// the last `;`.
proof fn lemma_split_join(ts: Seq<Text>)
    requires
        forall|i: int| 0 <= i < ts.len() ==> is_token(#[trigger] ts[i]),
    ensures
        split_semi(join(ts)) == ts.push(Seq::empty()),
    decreases ts.len(),
{
    if ts.len() == 0 {
        assert(split_semi(join(ts)) =~= ts.push(Seq::empty()));
    } else {
        let q = ts.drop_last();
        let t = ts.last();
        assert(is_token(ts[ts.len() - 1]));
        assert forall|i: int| 0 <= i < q.len() implies is_token(#[trigger] q[i]) by {
            assert(q[i] == ts[i]);
        }
        lemma_split_join(q);
        let x = join(q);
        lemma_split_semi_append(x, t);
        assert(join(ts) =~= (x + t).push(';'));
        assert((x + t).push(';').drop_last() =~= x + t);
        let sp = split_semi(x + t);
        assert(sp =~= q.push(t));
        assert(q.push(t) =~= ts);
    }
}

/// The tokens of joined tokens are those tokens.
proof fn lemma_tokens_join(ts: Seq<Text>)
    requires
        forall|i: int| 0 <= i < ts.len() ==> is_token(#[trigger] ts[i]),
    ensures
        tokens(join(ts)) == ts,
{
    lemma_split_join(ts);
    ts.lemma_filter_push(Seq::empty(), non_empty());
    lemma_filter_all(ts, non_empty());
}

/// Filtering a sequence without repeats leaves one without repeats.
proof fn lemma_filter_no_duplicates(s: Seq<Text>, f: spec_fn(Text) -> bool)
    requires
        s.no_duplicates(),
    ensures
        s.filter(f).no_duplicates(),
    decreases s.len(),
{
    broadcast use vstd::seq_lib::group_filter_ensures;
    if s.len() == 0 {
        reveal(Seq::filter);
    } else {
        let q = s.drop_last();
        let x = s.last();
        assert(q.push(x) =~= s);
        lemma_filter_no_duplicates(q, f);
        q.lemma_filter_push(x, f);
        if f(x) {
            let g = q.filter(f);
            if g.contains(x) {
                q.lemma_filter_contains_rev(f, x);
                let j = choose|j: int| 0 <= j < q.len() && q[j] == x;
                assert(s[j] == s[s.len() - 1]);
            }
            let h = g.push(x);
            assert forall|i: int, j: int| 0 <= i < h.len() && 0 <= j < h.len() && i != j implies h[i] != h[j] by {
                if i < g.len() && j < g.len() {
                    assert(g[i] != g[j]);
                } else if i < g.len() {
                    assert(g.contains(h[i]));
                } else {
                    assert(g.contains(h[j]));
                }
            }
        }
    }
}

/// Consolidating a consolidated field with an empty one changes nothing:
/// the same tokens come back in the same order, mobile numbers first.
pub proof fn consolidate_idempotent(a: Text, b: Text)
    ensures
        consolidate(consolidate(a, b), Seq::empty()) == consolidate(a, b),
{
    broadcast use vstd::seq_lib::group_filter_ensures;
    let all = tokens(a) + tokens(b);
    let d = distinct(all);
    let m = d.filter(mobile());
    let o = d.filter(landline());
    let c = consolidate(a, b);
    lemma_distinct(all);
    lemma_tokens_are_tokens(a);
    lemma_tokens_are_tokens(b);
    assert forall|i: int| 0 <= i < d.len() implies is_token(#[trigger] d[i]) by {
        assert(d.contains(d[i]));
        assert(all.contains(d[i]));
        let j = choose|j: int| 0 <= j < all.len() && all[j] == d[i];
        if j < tokens(a).len() {
            assert(is_token(tokens(a)[j]));
        } else {
            assert(is_token(tokens(b)[j - tokens(a).len()]));
        }
    }
    let mo = m + o;
    assert forall|i: int| 0 <= i < mo.len() implies is_token(#[trigger] mo[i]) by {
        if i < m.len() {
            assert(m.contains(m[i]));
            d.lemma_filter_contains_rev(mobile(), m[i]);
        } else {
            assert(o.contains(o[i - m.len()]));
            d.lemma_filter_contains_rev(landline(), o[i - m.len()]);
        }
    }
    lemma_tokens_join(mo);
    assert(tokens(Seq::<char>::empty()) =~= Seq::<Text>::empty()) by {
        let e = Seq::<Text>::empty();
        e.lemma_filter_push(Seq::empty(), non_empty());
        assert(e.push(Seq::empty()) =~= split_semi(Seq::<char>::empty()));
        reveal(Seq::filter);
        assert(e.filter(non_empty()) =~= e);
    }
    assert(tokens(c) + tokens(Seq::<char>::empty()) =~= mo);
    lemma_filter_no_duplicates(d, mobile());
    lemma_filter_no_duplicates(d, landline());
    assert forall|i: int, j: int| 0 <= i < mo.len() && 0 <= j < mo.len() && i != j implies mo[i] != mo[j] by {
        if i < m.len() && j < m.len() {
        } else if i >= m.len() && j >= m.len() {
            assert(o[i - m.len()] != o[j - m.len()]);
        } else if i < m.len() {
            assert(mobile()(m[i]));
            assert(landline()(o[j - m.len()]));
        } else {
            assert(mobile()(m[j]));
            assert(landline()(o[i - m.len()]));
        }
    }
    crate::index::lemma_distinct_no_duplicates(mo);
    Seq::filter_distributes_over_add(m, o, mobile());
    Seq::filter_distributes_over_add(m, o, landline());
    lemma_filter_all(m, mobile());
    lemma_filter_all(o, landline());
    assert(o.all(|x: Text| !mobile()(x)));
    o.lemma_all_neg_filter_empty(mobile());
    assert(m.all(|x: Text| !landline()(x)));
    m.lemma_all_neg_filter_empty(landline());
    assert(mobile_first_order(mo) =~= mo);
}

} // verus!
