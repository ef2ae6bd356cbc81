use vstd::prelude::*;
use crate::stats::{mean_of, stat_wf, Stat, StationData};
use crate::table::{stations_of, table_wf, StationMap, Table};

verus! {

/// Byte-wise lexicographic order: a proper prefix comes first.
pub open spec fn lex_lt(a: Seq<u8>, b: Seq<u8>) -> bool
    decreases a.len(),
{
    if a.len() == 0 {
        b.len() > 0
    } else if b.len() == 0 {
        false
    } else if a[0] != b[0] {
        a[0] < b[0]
    } else {
        lex_lt(a.drop_first(), b.drop_first())
    }
}

pub proof fn lemma_lex_total(a: Seq<u8>, b: Seq<u8>)
    ensures
        a == b || lex_lt(a, b) || lex_lt(b, a),
    decreases a.len(),
{
    if a.len() > 0 && b.len() > 0 && a[0] == b[0] {
        lemma_lex_total(a.drop_first(), b.drop_first());
        if a.drop_first() == b.drop_first() {
            assert(a =~= seq![a[0]] + a.drop_first());
            assert(b =~= seq![b[0]] + b.drop_first());
        }
    } else if a.len() == 0 && b.len() == 0 {
        assert(a =~= b);
    }
}

pub proof fn lemma_lex_transitive(a: Seq<u8>, b: Seq<u8>, c: Seq<u8>)
    requires
        lex_lt(a, b),
        lex_lt(b, c),
    ensures
        lex_lt(a, c),
    decreases a.len(),
{
    if a.len() > 0 && b.len() > 0 && c.len() > 0 && a[0] == b[0] && b[0] == c[0] {
        lemma_lex_transitive(a.drop_first(), b.drop_first(), c.drop_first());
    }
}

/// Compares two keys byte-wise.
pub fn bytes_lt(a: &[u8], b: &[u8]) -> (r: bool)
    ensures
        r == lex_lt(a@, b@),
{
    proof {
        assert(a@.subrange(0, a@.len() as int) =~= a@);
        assert(b@.subrange(0, b@.len() as int) =~= b@);
    }
    let mut i: usize = 0;
    while i < a.len() && i < b.len() && a[i] == b[i]
        invariant
            i <= a@.len(),
            i <= b@.len(),
            lex_lt(a@.subrange(i as int, a@.len() as int), b@.subrange(i as int, b@.len() as int)) == lex_lt(a@, b@),
        decreases a@.len() - i,
    {
        proof {
            assert(a@.subrange(i as int, a@.len() as int).drop_first() =~= a@.subrange(i + 1, a@.len() as int));
            assert(b@.subrange(i as int, b@.len() as int).drop_first() =~= b@.subrange(i + 1, b@.len() as int));
        }
        i = i + 1;
    }
    if i == a.len() {
        i < b.len()
    } else if i == b.len() {
        false
    } else {
        a[i] < b[i]
    }
}

/// The entries are in strictly increasing key order.
pub open spec fn strictly_sorted(es: Seq<(Vec<u8>, StationData)>) -> bool {
    forall|i: int, j: int| 0 <= i < j < es.len() ==> lex_lt(#[trigger] es[i].0@, #[trigger] es[j].0@)
}

/// The entries are those of the table, each key once.
pub open spec fn holds_table(es: Seq<(Vec<u8>, StationData)>, t: Table) -> bool {
    &&& forall|j: int| 0 <= j < es.len() ==> #[trigger] t.contains_key(es[j].0@) && t[es[j].0@] == es[j].1@
    &&& forall|k: Seq<u8>| #[trigger] t.contains_key(k) ==> exists|j: int| 0 <= j < es.len() && #[trigger] es[j].0@ == k
}

proof fn lemma_insert_keeps_sorted(before: Seq<(Vec<u8>, StationData)>, p: int, item: (Vec<u8>, StationData))
    requires
        strictly_sorted(before),
        0 <= p <= before.len(),
        forall|j: int| 0 <= j < p ==> lex_lt(#[trigger] before[j].0@, item.0@),
        forall|j: int| p <= j < before.len() ==> lex_lt(item.0@, #[trigger] before[j].0@),
    ensures
        strictly_sorted(before.insert(p, item)),
{
    let out = before.insert(p, item);
    before.insert_ensures(p, item);
    let key = item.0@;
    assert forall|i: int, j: int| 0 <= i < j < out.len() implies lex_lt(#[trigger] out[i].0@, #[trigger] out[j].0@) by {
        if j < p {
            assert(lex_lt(before[i].0@, before[j].0@));
        } else if j == p {
            assert(out[i] == before[i]);
        } else if i < p {
            assert(out[j] == before[j - 1]);
            assert(lex_lt(before[i].0@, key));
            assert(lex_lt(key, before[j - 1].0@));
            lemma_lex_transitive(before[i].0@, key, before[j - 1].0@);
        } else if i == p {
            assert(out[j] == before[j - 1]);
        } else {
            assert(out[i] == before[i - 1]);
            assert(out[j] == before[j - 1]);
            assert(lex_lt(before[i - 1].0@, before[j - 1].0@));
        }
    }
}

/// Where the scan for a slot stopped, every later key is greater.
proof fn lemma_slot_order(before: Seq<(Vec<u8>, StationData)>, p: int, item: (Vec<u8>, StationData))
    requires
        strictly_sorted(before),
        0 <= p <= before.len(),
        p < before.len() ==> !lex_lt(before[p].0@, item.0@),
        forall|j: int| 0 <= j < before.len() ==> #[trigger] before[j].0@ != item.0@,
    ensures
        forall|j: int| p <= j < before.len() ==> lex_lt(item.0@, #[trigger] before[j].0@),
{
    let key = item.0@;
    if p < before.len() {
        lemma_lex_total(before[p].0@, key);
        assert forall|j: int| p <= j < before.len() implies lex_lt(key, #[trigger] before[j].0@) by {
            if j > p {
                assert(lex_lt(before[p].0@, before[j].0@));
                lemma_lex_transitive(key, before[p].0@, before[j].0@);
            }
        }
    }
}

proof fn lemma_insert_keeps_values(t: Table, before: Seq<(Vec<u8>, StationData)>, p: int, item: (Vec<u8>, StationData))
    requires
        0 <= p <= before.len(),
        t.contains_key(item.0@) && t[item.0@] == item.1@,
        forall|j: int| 0 <= j < before.len() ==> #[trigger] t.contains_key(before[j].0@) && t[before[j].0@] == before[j].1@,
    ensures
        forall|j: int| 0 <= j < before.insert(p, item).len() ==> #[trigger] t.contains_key(before.insert(p, item)[j].0@)
            && t[before.insert(p, item)[j].0@] == before.insert(p, item)[j].1@,
{
    let out = before.insert(p, item);
    before.insert_ensures(p, item);
    assert forall|j: int| 0 <= j < out.len() implies #[trigger] t.contains_key(out[j].0@) && t[out[j].0@] == out[j].1@ by {
        if j < p {
            assert(out[j] == before[j]);
            assert(t.contains_key(before[j].0@));
        } else if j > p {
            assert(out[j] == before[j - 1]);
            assert(t.contains_key(before[j - 1].0@));
        } else {
            assert(out[j] == item);
            assert(t.contains_key(item.0@));
        }
        assert(t.contains_key(out[j].0@));
        assert(t[out[j].0@] == out[j].1@);
    }
}

proof fn lemma_insert_keeps_keys_from(
    orig: Seq<(Vec<u8>, StationData)>,
    n: int,
    before: Seq<(Vec<u8>, StationData)>,
    p: int,
    item: (Vec<u8>, StationData),
)
    requires
        0 <= n < orig.len(),
        0 <= p <= before.len(),
        orig[n] == item,
        keys_from(before, orig, n + 1),
    ensures
        keys_from(before.insert(p, item), orig, n),
{
    reveal(keys_from);
    let out = before.insert(p, item);
    before.insert_ensures(p, item);
    assert forall|j: int| 0 <= j < out.len() implies exists|l: int| n <= l < orig.len() && #[trigger] orig[l].0@ == #[trigger] out[j].0@ by {
        if j < p {
            assert(out[j] == before[j]);
            let l = choose|l: int| n + 1 <= l < orig.len() && #[trigger] orig[l].0@ == #[trigger] before[j].0@;
            assert(orig[l].0@ == out[j].0@);
        } else if j > p {
            assert(out[j] == before[j - 1]);
            let l = choose|l: int| n + 1 <= l < orig.len() && #[trigger] orig[l].0@ == #[trigger] before[j - 1].0@;
            assert(orig[l].0@ == out[j].0@);
        } else {
            assert(out[j] == item);
            assert(orig[n].0@ == out[j].0@);
        }
    }
    assert(keys_from(out, orig, n)) by {
        reveal(keys_from);
    }
}

proof fn lemma_insert_keeps_keys_reach(
    orig: Seq<(Vec<u8>, StationData)>,
    n: int,
    before: Seq<(Vec<u8>, StationData)>,
    p: int,
    item: (Vec<u8>, StationData),
)
    requires
        0 <= n < orig.len(),
        0 <= p <= before.len(),
        orig[n] == item,
        keys_reach(before, orig, n + 1),
    ensures
        keys_reach(before.insert(p, item), orig, n),
{
    reveal(keys_reach);
    let out = before.insert(p, item);
    before.insert_ensures(p, item);
    assert forall|l: int| n <= l < orig.len() implies exists|j: int| 0 <= j < out.len() && #[trigger] out[j].0@ == #[trigger] orig[l].0@ by {
        if l == n {
            assert(out[p] == item);
            assert(out[p].0@ == orig[l].0@);
        } else {
            let j = choose|j: int| 0 <= j < before.len() && #[trigger] before[j].0@ == #[trigger] orig[l].0@;
            if j < p {
                assert(out[j] == before[j]);
                assert(out[j].0@ == orig[l].0@);
            } else {
                assert(out[j + 1] == before[j]);
                assert(out[j + 1].0@ == orig[l].0@);
            }
        }
    }
    assert(keys_reach(out, orig, n)) by {
        reveal(keys_reach);
    }
}

/// Some entry of `es` from index `lo` on has key `k`.
pub open spec fn key_among(es: Seq<(Vec<u8>, StationData)>, lo: int, k: Seq<u8>) -> bool {
    exists|l: int| lo <= l < es.len() && #[trigger] es[l].0@ == k
}

/// Every entry of `out` has its key among `orig[lo..]`.
pub open spec fn keys_from(out: Seq<(Vec<u8>, StationData)>, orig: Seq<(Vec<u8>, StationData)>, lo: int) -> bool {
    forall|j: int| 0 <= j < out.len() ==> key_among(orig, lo, #[trigger] out[j].0@)
}

/// Every key of `orig[lo..]` is the key of an entry of `out`.
pub open spec fn keys_reach(out: Seq<(Vec<u8>, StationData)>, orig: Seq<(Vec<u8>, StationData)>, lo: int) -> bool {
    forall|l: int| lo <= l < orig.len() ==> key_among(out, 0, #[trigger] orig[l].0@)
}

proof fn lemma_fresh_key(orig: Seq<(Vec<u8>, StationData)>, n: int, before: Seq<(Vec<u8>, StationData)>)
    requires
        0 <= n < orig.len(),
        forall|j: int, l: int| 0 <= j < l < orig.len() ==> #[trigger] orig[j].0@ != #[trigger] orig[l].0@,
        keys_from(before, orig, n + 1),
    ensures
        forall|j: int| 0 <= j < before.len() ==> #[trigger] before[j].0@ != orig[n].0@,
{
    assert forall|j: int| 0 <= j < before.len() implies #[trigger] before[j].0@ != orig[n].0@ by {
        assert(key_among(orig, n + 1, before[j].0@));
        let l = choose|l: int| n + 1 <= l < orig.len() && #[trigger] orig[l].0@ == before[j].0@;
        assert(orig[n].0@ != orig[l].0@);
    }
}

/// The position of the first entry whose key is not below `key`.
fn find_slot(out: &Vec<(Vec<u8>, StationData)>, key: &[u8]) -> (p: usize)
    ensures
        p <= out@.len(),
        forall|j: int| 0 <= j < p ==> lex_lt(#[trigger] out@[j].0@, key@),
        p < out@.len() ==> !lex_lt(out@[p as int].0@, key@),
{
    let mut p: usize = 0;
    while p < out.len() && bytes_lt(out[p].0.as_slice(), key)
        invariant
            p <= out@.len(),
            forall|j: int| 0 <= j < p ==> lex_lt(#[trigger] out@[j].0@, key@),
        decreases out@.len() - p,
    {
        p = p + 1;
    }
    p
}

/// The entries of the map in increasing byte-wise key order.
#[verifier::spinoff_prover]
pub fn sorted_entries(stations: StationMap) -> (r: Vec<(Vec<u8>, StationData)>)
    ensures
        strictly_sorted(r@),
        holds_table(r@, stations_of(stations)),
{
    let ghost t = stations_of(stations);
    let mut entries = stations.into_entries();
    let ghost orig = entries@;
    let mut out: Vec<(Vec<u8>, StationData)> = Vec::new();
    while entries.len() > 0
        invariant
            t == stations_of(stations),
            entries@.len() <= orig.len(),
            entries@ == orig.subrange(0, entries@.len() as int),
            forall|j: int| 0 <= j < orig.len() ==> #[trigger] t.contains_key(orig[j].0@) && t[orig[j].0@] == orig[j].1@,
            forall|k: Seq<u8>| #[trigger] t.contains_key(k) ==> exists|j: int| 0 <= j < orig.len() && #[trigger] orig[j].0@ == k,
            forall|j: int, l: int| 0 <= j < l < orig.len() ==> #[trigger] orig[j].0@ != #[trigger] orig[l].0@,
            strictly_sorted(out@),
            forall|j: int| 0 <= j < out@.len() ==> #[trigger] t.contains_key(out@[j].0@) && t[out@[j].0@] == out@[j].1@,
            keys_from(out@, orig, entries@.len() as int),
            keys_reach(out@, orig, entries@.len() as int),
        decreases entries@.len(),
    {
        let ghost n = entries@.len() - 1;
        let item = entries.pop().unwrap();
        proof {
            assert(orig[n] == item);
            lemma_fresh_key(orig, n, out@);
        }
        let p = find_slot(&out, item.0.as_slice());
        let ghost before = out@;
        proof {
            lemma_slot_order(before, p as int, item);
        }
        out.insert(p, item);
        proof {
            lemma_insert_keeps_sorted(before, p as int, item);
            lemma_insert_keeps_values(t, before, p as int, item);
            lemma_insert_keeps_keys_from(orig, n, before, p as int, item);
            lemma_insert_keeps_keys_reach(orig, n, before, p as int, item);
        }
    }
    proof {
        assert forall|k: Seq<u8>| #[trigger] t.contains_key(k) implies exists|j: int| 0 <= j < out@.len() && #[trigger] out@[j].0@ == k by {
            let l = choose|l: int| 0 <= l < orig.len() && #[trigger] orig[l].0@ == k;
            assert(key_among(out@, 0, orig[l].0@));
        }
    }
    out
}

/// The decimal digits of `n`, most significant first.
pub open spec fn decimal(n: nat) -> Seq<u8>
    decreases n,
{
    if n < 10 {
        seq![(48 + n) as u8]
    } else {
        decimal(n / 10).push((48 + n % 10) as u8)
    }
}

pub open spec fn abs(x: int) -> nat {
    if x < 0 { (-x) as nat } else { x as nat }
}

/// A scaled integer shown with exactly one fractional digit: `-55` is `-5.5`.
pub open spec fn scaled_text(x: int) -> Seq<u8> {
    let sign: Seq<u8> = if x < 0 { seq![45u8] } else { Seq::empty() };
    sign + decimal(abs(x) / 10) + seq![46u8, (48 + abs(x) % 10) as u8]
}

/// `min/max/mean` of a statistic.
pub open spec fn stat_text(s: Stat) -> Seq<u8> {
    scaled_text(s.min) + seq![47u8] + scaled_text(s.max) + seq![47u8] + scaled_text(mean_of(s))
}

/// `key=min/max/mean` followed by a line end.
pub open spec fn station_line(key: Seq<u8>, s: Stat) -> Seq<u8> {
    key + seq![61u8] + stat_text(s) + seq![10u8]
}

/// The lines of the entries, in order.
pub open spec fn summary_text(es: Seq<(Vec<u8>, StationData)>) -> Seq<u8>
    decreases es.len(),
{
    if es.len() == 0 {
        Seq::empty()
    } else {
        summary_text(es.drop_last()) + station_line(es.last().0@, es.last().1@)
    }
}

fn push_decimal(out: &mut Vec<u8>, n: u64)
    ensures
        final(out)@ == old(out)@ + decimal(n as nat),
    decreases n,
{
    if n >= 10 {
        push_decimal(out, n / 10);
    }
    out.push((48 + n % 10) as u8);
    proof {
        if n < 10 {
            assert(old(out)@.push((48 + n % 10) as u8) =~= old(out)@ + decimal(n as nat));
        } else {
            assert(old(out)@ + decimal((n / 10) as nat) + seq![(48 + n % 10) as u8] =~= old(out)@ + decimal(n as nat));
        }
    }
}

/// Appends a scaled integer with one fractional digit.
pub fn push_scaled(out: &mut Vec<u8>, x: i64)
    ensures
        final(out)@ == old(out)@ + scaled_text(x as int),
{
    let ghost start = out@;
    let m: u64 = if x < 0 {
        out.push(45u8);
        (-(x as i128)) as u64
    } else {
        x as u64
    };
    let ghost signed = out@;
    push_decimal(out, m / 10);
    out.push(46u8);
    out.push((48 + m % 10) as u8);
    proof {
        assert(m as nat == abs(x as int));
        let sign: Seq<u8> = if x < 0 { seq![45u8] } else { Seq::empty() };
        assert(signed =~= start + sign);
        assert(out@ =~= start + scaled_text(x as int));
    }
}

impl StationData {
    /// The statistic as text: `min/max/mean`, each with one fractional digit.
    pub fn to_text(&self) -> (r: Vec<u8>)
        requires
            self.wf(),
        ensures
            r@ == stat_text(self@),
    {
        let mut out: Vec<u8> = Vec::new();
        push_scaled(&mut out, self.min());
        out.push(47u8);
        push_scaled(&mut out, self.max());
        out.push(47u8);
        push_scaled(&mut out, self.calculate_mean());
        proof {
            assert(out@ =~= stat_text(self@));
        }
        out
    }
}

/// The summary of entries: one `key=min/max/mean` line each, in order.
pub fn render_summary(entries: &Vec<(Vec<u8>, StationData)>) -> (r: Vec<u8>)
    requires
        forall|j: int| 0 <= j < entries@.len() ==> stat_wf(#[trigger] entries@[j].1@),
    ensures
        r@ == summary_text(entries@),
{
    let mut out: Vec<u8> = Vec::new();
    let mut i: usize = 0;
    while i < entries.len()
        invariant
            i <= entries@.len(),
            forall|j: int| 0 <= j < entries@.len() ==> stat_wf(#[trigger] entries@[j].1@),
            out@ == summary_text(entries@.subrange(0, i as int)),
        decreases entries@.len() - i,
    {
        let ghost before = out@;
        let entry = &entries[i];
        let mut k: usize = 0;
        while k < entry.0.len()
            invariant
                k <= entry.0@.len(),
                out@ == before + entry.0@.subrange(0, k as int),
            decreases entry.0@.len() - k,
        {
            out.push(entry.0[k]);
            proof {
                assert(before + entry.0@.subrange(0, k + 1) =~= (before + entry.0@.subrange(0, k as int)).push(entry.0@[k as int]));
            }
            k = k + 1;
        }
        out.push(61u8);
        assert(stat_wf(entries@[i as int].1@));
        let text = entry.1.to_text();
        let mut k: usize = 0;
        let ghost keyed = out@;
        while k < text.len()
            invariant
                k <= text@.len(),
                out@ == keyed + text@.subrange(0, k as int),
            decreases text@.len() - k,
        {
            out.push(text[k]);
            proof {
                assert(keyed + text@.subrange(0, k + 1) =~= (keyed + text@.subrange(0, k as int)).push(text@[k as int]));
            }
            k = k + 1;
        }
        out.push(10u8);
        proof {
            let pre = entries@.subrange(0, i + 1);
            assert(pre.drop_last() =~= entries@.subrange(0, i as int));
            assert(entry.0@.subrange(0, entry.0@.len() as int) =~= entry.0@);
            assert(text@.subrange(0, text@.len() as int) =~= text@);
            assert(out@ =~= summary_text(pre));
        }
        i = i + 1;
    }
    proof {
        assert(entries@.subrange(0, entries@.len() as int) =~= entries@);
    }
    out
}

/// The summary of the stations: one `key=min/max/mean` line for each, in
/// increasing byte-wise key order.
pub fn print_out(stations: StationMap) -> (r: Vec<u8>)
    requires
        table_wf(stations_of(stations)),
    ensures
        exists|es: Seq<(Vec<u8>, StationData)>|
            strictly_sorted(es) && holds_table(es, stations_of(stations)) && r@ == #[trigger] summary_text(es),
{
    let ghost t = stations_of(stations);
    let entries = sorted_entries(stations);
    proof {
        assert forall|j: int| 0 <= j < entries@.len() implies stat_wf(#[trigger] entries@[j].1@) by {
            assert(t.contains_key(entries@[j].0@));
        }
    }
    let r = render_summary(&entries);
    proof {
        assert(strictly_sorted(entries@) && holds_table(entries@, t) && r@ == summary_text(entries@));
    }
    r
}

} // verus!
