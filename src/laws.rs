use vstd::prelude::*;
use crate::stats::combine;
use crate::table::{aggregate, empty_table, insert_reading, merge_tables, Table};

verus! {

/// Merging the tables of `ts` into `g`, one after the other.
pub open spec fn merge_all(g: Table, ts: Seq<Table>) -> Table
    decreases ts.len(),
{
    if ts.len() == 0 {
        g
    } else {
        merge_tables(merge_all(g, ts.drop_last()), ts.last())
    }
}

/// The sum of the counts of all stations of a finite table.
pub open spec fn total_count(t: Table) -> int
    decreases t.dom().len(),
{
    if t.dom().finite() && t.dom().len() > 0 {
        let k = t.dom().choose();
        t[k].count + total_count(t.remove(k))
    } else {
        0
    }
}

/// The number of records of all chunks.
pub open spec fn total_records(rs: Seq<Seq<(Seq<u8>, int)>>) -> int
    decreases rs.len(),
{
    if rs.len() == 0 { 0 } else { total_records(rs.drop_last()) + rs.last().len() }
}

/// The local tables of the chunks: each one built from empty.
pub open spec fn local_tables(rs: Seq<Seq<(Seq<u8>, int)>>) -> Seq<Table> {
    rs.map_values(|r: Seq<(Seq<u8>, int)>| aggregate(empty_table(), r))
}

/// Merging two tables into a third gives the same table in either order.
pub proof fn lemma_merge_swap(g: Table, a: Table, b: Table)
    ensures
        merge_tables(merge_tables(g, a), b) == merge_tables(merge_tables(g, b), a),
{
    let l = merge_tables(merge_tables(g, a), b);
    let r = merge_tables(merge_tables(g, b), a);
    assert forall|k: Seq<u8>| #[trigger] l.contains_key(k) implies l[k] == r[k] by {
        if g.contains_key(k) && a.contains_key(k) && b.contains_key(k) {
            assert(combine(combine(g[k], a[k]), b[k]) == combine(combine(g[k], b[k]), a[k]));
        }
    }
    assert(l =~= r);
}

/// Merging `a` then `b` into `g` is merging their merge into `g`.
pub proof fn lemma_merge_associative(g: Table, a: Table, b: Table)
    ensures
        merge_tables(merge_tables(g, a), b) == merge_tables(g, merge_tables(a, b)),
{
    let l = merge_tables(merge_tables(g, a), b);
    let r = merge_tables(g, merge_tables(a, b));
    assert forall|k: Seq<u8>| #[trigger] l.contains_key(k) implies l[k] == r[k] by {
        if g.contains_key(k) && a.contains_key(k) && b.contains_key(k) {
            assert(combine(combine(g[k], a[k]), b[k]) == combine(g[k], combine(a[k], b[k])));
        }
    }
    assert(l =~= r);
}

/// Merging two tables gives the same table in either order.
pub proof fn lemma_merge_commutative(a: Table, b: Table)
    ensures
        merge_tables(a, b) == merge_tables(b, a),
{
    let l = merge_tables(a, b);
    let r = merge_tables(b, a);
    assert forall|k: Seq<u8>| #[trigger] l.contains_key(k) implies l[k] == r[k] by {
        if a.contains_key(k) && b.contains_key(k) {
            assert(combine(a[k], b[k]) == combine(b[k], a[k]));
        }
    }
    assert(l =~= r);
}

/// Any one table of the sequence may be merged last.
proof fn lemma_merge_all_remove(g: Table, s: Seq<Table>, i: int)
    requires
        0 <= i < s.len(),
    ensures
        merge_all(g, s) == merge_tables(merge_all(g, s.remove(i)), s[i]),
    decreases s.len(),
{
    if i == s.len() - 1 {
        assert(s.remove(i) =~= s.drop_last());
    } else {
        let front = s.drop_last();
        lemma_merge_all_remove(g, front, i);
        assert(s.remove(i) =~= front.remove(i).push(s.last()));
        assert(s.remove(i).drop_last() =~= front.remove(i));
        lemma_merge_swap(merge_all(g, front.remove(i)), front[i], s.last());
    }
}

/// The merged table does not depend on the order in which the local tables
/// are merged: any permutation of them gives the same result.
pub proof fn lemma_merge_order_irrelevant(g: Table, s1: Seq<Table>, s2: Seq<Table>)
    requires
        s1.to_multiset() == s2.to_multiset(),
    ensures
        merge_all(g, s1) == merge_all(g, s2),
    decreases s1.len(),
{
    broadcast use vstd::seq_lib::group_to_multiset_ensures;

    if s1.len() == 0 {
        assert(s1.to_multiset().len() == s1.len());
        assert(s2.to_multiset().len() == s2.len());
        assert(s2.len() == 0);
        assert(s1 =~= s2);
    } else {
        let x = s1.last();
        let front = s1.drop_last();
        assert(front.push(x) =~= s1);
        assert(s1.to_multiset() == front.to_multiset().insert(x));
        assert(s2.to_multiset().count(x) > 0);
        assert(s2.contains(x));
        let i = choose|i: int| 0 <= i < s2.len() && s2[i] == x;
        assert(s2.remove(i).to_multiset() == s2.to_multiset().remove(x));
        assert(front.to_multiset() =~= s1.to_multiset().remove(x));
        lemma_merge_order_irrelevant(g, front, s2.remove(i));
        lemma_merge_all_remove(g, s2, i);
    }
}

/// The count of any one station can be taken out of the total first.
pub proof fn lemma_total_remove(t: Table, k: Seq<u8>)
    requires
        t.dom().finite(),
        t.contains_key(k),
    ensures
        total_count(t) == t[k].count + total_count(t.remove(k)),
    decreases t.dom().len(),
{
    let c = t.dom().choose();
    assert(t.dom().contains(c));
    if c != k {
        let tc = t.remove(c);
        let tk = t.remove(k);
        assert(tc.dom() =~= t.dom().remove(c));
        assert(tk.dom() =~= t.dom().remove(k));
        lemma_total_remove(tc, k);
        lemma_total_remove(tk, c);
        assert(tc.remove(k) =~= tk.remove(c));
    }
}

/// One more reading adds one to the total count.
pub proof fn lemma_total_insert_reading(t: Table, k: Seq<u8>, v: int)
    requires
        t.dom().finite(),
    ensures
        insert_reading(t, k, v).dom().finite(),
        total_count(insert_reading(t, k, v)) == total_count(t) + 1,
{
    let t2 = insert_reading(t, k, v);
    assert(t2.dom() =~= t.dom().insert(k));
    lemma_total_remove(t2, k);
    if t.contains_key(k) {
        assert(t2.remove(k) =~= t.remove(k));
        lemma_total_remove(t, k);
    } else {
        assert(t2.remove(k) =~= t);
    }
}

/// Folding records adds one to the total count for each record.
pub proof fn lemma_aggregate_total(t: Table, recs: Seq<(Seq<u8>, int)>)
    requires
        t.dom().finite(),
    ensures
        aggregate(t, recs).dom().finite(),
        total_count(aggregate(t, recs)) == total_count(t) + recs.len(),
    decreases recs.len(),
{
    if recs.len() > 0 {
        lemma_total_insert_reading(t, recs[0].0, recs[0].1);
        lemma_aggregate_total(insert_reading(t, recs[0].0, recs[0].1), recs.drop_first());
    }
}

/// Merging tables adds their total counts.
pub proof fn lemma_merge_total(a: Table, b: Table)
    requires
        a.dom().finite(),
        b.dom().finite(),
    ensures
        merge_tables(a, b).dom().finite(),
        total_count(merge_tables(a, b)) == total_count(a) + total_count(b),
    decreases b.dom().len(),
{
    assert(merge_tables(a, b).dom() =~= a.dom().union(b.dom()));
    if b.dom().len() == 0 {
        assert(b.dom() =~= Set::<Seq<u8>>::empty());
        assert(merge_tables(a, b) =~= a);
    } else {
        let k = b.dom().choose();
        assert(b.dom().contains(k));
        let b2 = b.remove(k);
        let a2 = if a.contains_key(k) { a.insert(k, combine(a[k], b[k])) } else { a.insert(k, b[k]) };
        assert(b2.dom() =~= b.dom().remove(k));
        assert(a2.dom() =~= a.dom().insert(k));
        lemma_merge_total(a2, b2);
        assert(merge_tables(a2, b2) =~= merge_tables(a, b));
        lemma_total_remove(b, k);
        lemma_total_remove(a2, k);
        if a.contains_key(k) {
            assert(a2.remove(k) =~= a.remove(k));
            lemma_total_remove(a, k);
        } else {
            assert(a2.remove(k) =~= a);
        }
    }
}

proof fn lemma_empty_total()
    ensures
        empty_table().dom().finite(),
        total_count(empty_table()) == 0,
{
    assert(empty_table().dom() =~= Set::<Seq<u8>>::empty());
}

/// Row count: the counts of the table merged from the local tables of all
/// chunks add up to the number of records of all chunks.
pub proof fn lemma_row_count(rs: Seq<Seq<(Seq<u8>, int)>>)
    ensures
        merge_all(empty_table(), local_tables(rs)).dom().finite(),
        total_count(merge_all(empty_table(), local_tables(rs))) == total_records(rs),
    decreases rs.len(),
{
    lemma_empty_total();
    if rs.len() > 0 {
        let front = rs.drop_last();
        assert(local_tables(rs).drop_last() =~= local_tables(front));
        lemma_row_count(front);
        lemma_aggregate_total(empty_table(), rs.last());
        lemma_merge_total(merge_all(empty_table(), local_tables(front)), aggregate(empty_table(), rs.last()));
    }
}

} // verus!
