use vstd::prelude::*;
use crate::error::{Failure, RunError};
use crate::reader::{
    after_line, has_delimiter, key_end, lemma_key_end_bounds, lemma_line_end_bounds, line_end,
    magnitude, scaled_value, Reader,
};
use crate::stats::{add_value, combine, stat_of, stat_wf, Stat, StationData};

verus! {

/// A table from station keys to their statistics.
pub type Table = Map<Seq<u8>, Stat>;

/// The statistics that a station table holds, key by key.
pub uninterp spec fn stations_of(m: StationMap) -> Map<Seq<u8>, Stat>;

/// The table with no station.
pub open spec fn empty_table() -> Table {
    Map::empty()
}

/// Every statistic of the table was built from readings.
pub open spec fn table_wf(t: Table) -> bool {
    forall|k: Seq<u8>| t.contains_key(k) ==> stat_wf(#[trigger] t[k])
}

/// Folding one reading of station `k` into the table.
pub open spec fn insert_reading(t: Table, k: Seq<u8>, v: int) -> Table {
    if t.contains_key(k) { t.insert(k, add_value(t[k], v)) } else { t.insert(k, stat_of(v)) }
}

/// Folding records, in order, into the table.
pub open spec fn aggregate(t: Table, recs: Seq<(Seq<u8>, int)>) -> Table
    decreases recs.len(),
{
    if recs.len() == 0 {
        t
    } else {
        aggregate(insert_reading(t, recs[0].0, recs[0].1), recs.drop_first())
    }
}

/// Merging table `b` into table `a`: keys of one table only keep their
/// statistic, keys of both get the combination.
pub open spec fn merge_tables(a: Table, b: Table) -> Table {
    Map::new(
        |k: Seq<u8>| a.contains_key(k) || b.contains_key(k),
        |k: Seq<u8>|
            if a.contains_key(k) && b.contains_key(k) {
                combine(a[k], b[k])
            } else if a.contains_key(k) {
                a[k]
            } else {
                b[k]
            },
    )
}

/// Some key is in both tables with counts whose sum does not fit 64 bits.
pub open spec fn counts_overflow(a: Table, b: Table) -> bool {
    exists|k: Seq<u8>| a.contains_key(k) && #[trigger] b.contains_key(k) && a[k].count + b[k].count > u64::MAX
}

/// The records of `buf` from `pos` on, with their keys and scaled readings,
/// or the failure of the first record that cannot be read. `base` is the
/// offset of `buf` in the file.
pub open spec fn parse_records(buf: Seq<u8>, pos: int, base: int) -> Result<Seq<(Seq<u8>, int)>, Failure>
    decreases buf.len() - pos,
{
    if pos < 0 || pos >= buf.len() {
        Ok(Seq::empty())
    } else if !has_delimiter(buf, pos) {
        Err(Failure::MalformedRecord { offset: base + pos, line: buf.subrange(pos, line_end(buf, pos)) })
    } else {
        let k = key_end(buf, pos);
        let e = line_end(buf, k + 1);
        let text = buf.subrange(k + 1, e);
        let next = after_line(buf, e);
        if magnitude(text) > i64::MAX {
            Err(Failure::NumericOverflow { offset: base + k + 1 })
        } else if next <= pos {
            Ok(Seq::empty())
        } else {
            match parse_records(buf, next, base) {
                Ok(rest) => Ok(seq![(buf.subrange(pos, k), scaled_value(text))] + rest),
                Err(f) => Err(f),
            }
        }
    }
}

/// A map from station keys to statistics, kept in a hash table.
#[verifier::external_body]
pub struct StationMap {
    inner: hashbrown::HashMap<Vec<u8>, StationData>,
}

impl StationMap {
    /// Relies on hashbrown::HashMap::new: a new map is empty.
    #[verifier::external_body]
    fn fresh() -> (r: Self)
        ensures
            stations_of(r) == empty_table(),
    {
        StationMap { inner: hashbrown::HashMap::new() }
    }

    /// A map with no station.
    pub fn new() -> (r: Self)
        ensures
            stations_of(r) == empty_table(),
            table_wf(stations_of(r)),
    {
        Self::fresh()
    }

    /// Relies on hashbrown::HashMap::get: the value stored under an equal key, if any.
    #[verifier::external_body]
    fn get(&self, key: &[u8]) -> (r: Option<StationData>)
        ensures
            stations_of(*self).contains_key(key@) ==> r is Some && r->Some_0@ == stations_of(*self)[key@],
            !stations_of(*self).contains_key(key@) ==> r is None,
    {
        self.inner.get(key).copied()
    }

    /// Relies on hashbrown::HashMap::get_mut: overwrites the value stored
    /// under an equal key, if there is one, without allocating a key.
    #[verifier::external_body]
    fn replace_existing(&mut self, key: &[u8], data: StationData) -> (r: bool)
        ensures
            r == stations_of(*old(self)).contains_key(key@),
            r ==> stations_of(*final(self)) == stations_of(*old(self)).insert(key@, data@),
            !r ==> stations_of(*final(self)) == stations_of(*old(self)),
    {
        match self.inner.get_mut(key) {
            Some(slot) => {
                *slot = data;
                true
            },
            None => false,
        }
    }

    /// Relies on hashbrown::HashMap::insert: afterwards the key maps to `data`.
    #[verifier::external_body]
    fn insert(&mut self, name: Vec<u8>, data: StationData)
        ensures
            stations_of(*final(self)) == stations_of(*old(self)).insert(name@, data@),
    {
        self.inner.insert(name, data);
    }

    /// Relies on hashbrown::HashMap::into_iter: each entry comes out once, in
    /// an unspecified order.
    #[verifier::external_body]
    pub(crate) fn into_entries(self) -> (r: Vec<(Vec<u8>, StationData)>)
        ensures
            forall|i: int| 0 <= i < r@.len() ==> #[trigger] stations_of(self).contains_key(r@[i].0@)
                && stations_of(self)[r@[i].0@] == r@[i].1@,
            forall|k: Seq<u8>| #[trigger] stations_of(self).contains_key(k) ==> exists|i: int|
                0 <= i < r@.len() && #[trigger] r@[i].0@ == k,
            forall|i: int, j: int| 0 <= i < j < r@.len() ==> #[trigger] r@[i].0@ != #[trigger] r@[j].0@,
    {
        self.inner.into_iter().collect()
    }

    /// Folds one reading of station `key` into the map.
    pub fn add_reading(&mut self, key: &[u8], value: i64)
        requires
            table_wf(stations_of(*old(self))),
            stations_of(*old(self)).contains_key(key@) ==> stations_of(*old(self))[key@].count < u64::MAX,
        ensures
            stations_of(*final(self)) == insert_reading(stations_of(*old(self)), key@, value as int),
            table_wf(stations_of(*final(self))),
    {
        match self.get(key) {
            Some(d) => {
                let mut d = d;
                d.add_temp_data(value);
                let _ = self.replace_existing(key, d);
            },
            None => {
                self.insert(vstd::slice::slice_to_vec(key), StationData::new(value));
            },
        }
    }

    /// Merges every entry of `other` into this map, combining the statistics
    /// of keys that both hold. Fails when the count of such a key would no
    /// longer fit.
    pub fn combine(&mut self, other: Self) -> (r: Result<(), RunError>)
        requires
            table_wf(stations_of(*old(self))),
            table_wf(stations_of(other)),
        ensures
            !counts_overflow(stations_of(*old(self)), stations_of(other)) ==> r is Ok && stations_of(*final(self))
                == merge_tables(stations_of(*old(self)), stations_of(other)),
            counts_overflow(stations_of(*old(self)), stations_of(other)) ==> r is Err && r->Err_0@
                is CountOverflow,
            table_wf(stations_of(*final(self))),
    {
        let ghost a = stations_of(*self);
        let ghost b = stations_of(other);
        let entries = other.into_entries();
        proof {
            assert forall|j: int| 0 <= j < entries@.len() implies #[trigger] b.contains_key(entries@[j].0@)
                && b[entries@[j].0@] == entries@[j].1@ by {
                assert(stations_of(other).contains_key(entries@[j].0@));
            }
            assert(merge_tables(a, Map::new(
                |k: Seq<u8>| exists|j: int| 0 <= j < 0 && #[trigger] entries@[j].0@ == k,
                |k: Seq<u8>| b[k],
            )) =~= a);
        }
        let mut i: usize = 0;
        while i < entries.len()
            invariant
                i <= entries@.len(),
                a == stations_of(*old(self)),
                b == stations_of(other),
                table_wf(stations_of(*self)),
                table_wf(b),
                forall|j: int| 0 <= j < entries@.len() ==> #[trigger] b.contains_key(entries@[j].0@)
                    && b[entries@[j].0@] == entries@[j].1@,
                forall|k: Seq<u8>| #[trigger] b.contains_key(k) ==> exists|j: int|
                    0 <= j < entries@.len() && #[trigger] entries@[j].0@ == k,
                forall|j: int, l: int| 0 <= j < l < entries@.len() ==> #[trigger] entries@[j].0@ != #[trigger] entries@[l].0@,
                stations_of(*self) =~= merge_tables(a, Map::new(
                    |k: Seq<u8>| exists|j: int| 0 <= j < i && #[trigger] entries@[j].0@ == k,
                    |k: Seq<u8>| b[k],
                )),
            decreases entries@.len() - i,
        {
            let ghost done = Map::new(
                |k: Seq<u8>| exists|j: int| 0 <= j < i && #[trigger] entries@[j].0@ == k,
                |k: Seq<u8>| b[k],
            );
            let key = &entries[i].0;
            let data = entries[i].1;
            let ghost kv = key@;
            proof {
                assert(!done.contains_key(kv)) by {
                    if done.contains_key(kv) {
                        let j = choose|j: int| 0 <= j < i && #[trigger] entries@[j].0@ == kv;
                        assert(entries@[j].0@ != entries@[i as int].0@);
                    }
                }
                assert(entries@[i as int].0@ == kv);
                assert(entries@[i as int].1 == data);
                assert(b.contains_key(entries@[i as int].0@));
                assert(b.contains_key(kv) && b[kv] == data@);
            }
            match self.get(key.as_slice()) {
                Some(existing) => {
                    if existing.count() > u64::MAX - data.count() {
                        proof {
                            assert(a.contains_key(kv));
                            assert(existing@ == a[kv]);
                            assert(a[kv].count + b[kv].count > u64::MAX);
                            assert(counts_overflow(a, b));
                            assert(a == stations_of(*old(self)));
                            assert(b == stations_of(other));
                        }
                        return Err(RunError::CountOverflow { key: key.clone() });
                    }
                    let mut merged = existing;
                    merged.combine(&data);
                    let _ = self.replace_existing(key.as_slice(), merged);
                },
                None => {
                    self.insert(key.clone(), data);
                },
            }
            proof {
                let next = Map::new(
                    |k: Seq<u8>| exists|j: int| 0 <= j < i + 1 && #[trigger] entries@[j].0@ == k,
                    |k: Seq<u8>| b[k],
                );
                assert forall|k: Seq<u8>| #[trigger] next.contains_key(k) == (done.contains_key(k) || k == kv) by {
                    if next.contains_key(k) && k != kv {
                        let j = choose|j: int| 0 <= j < i + 1 && #[trigger] entries@[j].0@ == k;
                        assert(j < i);
                    }
                    if k == kv {
                        assert(entries@[i as int].0@ == k);
                    }
                }
                assert(stations_of(*self) =~= merge_tables(a, next));
            }
            i = i + 1;
        }
        proof {
            let all = Map::new(
                |k: Seq<u8>| exists|j: int| 0 <= j < i && #[trigger] entries@[j].0@ == k,
                |k: Seq<u8>| b[k],
            );
            assert(all =~= b);
            if counts_overflow(a, b) {
                let k = choose|k: Seq<u8>| a.contains_key(k) && #[trigger] b.contains_key(k) && a[k].count + b[k].count > u64::MAX;
                assert(stat_wf(stations_of(*self)[k]));
            }
        }
        Ok(())
    }
}

/// The records still to come after `done`, when reading goes on.
pub open spec fn then_records(
    done: Seq<(Seq<u8>, int)>,
    rest: Result<Seq<(Seq<u8>, int)>, Failure>,
) -> Result<Seq<(Seq<u8>, int)>, Failure> {
    match rest {
        Ok(r) => Ok(done + r),
        Err(f) => Err(f),
    }
}

/// The count of `k` in `t`, zero when it is absent.
pub open spec fn count_in(t: Table, k: Seq<u8>) -> int {
    if t.contains_key(k) { t[k].count as int } else { 0 }
}

/// Folding one more record is one more insertion after the others.
pub proof fn lemma_aggregate_push(t: Table, recs: Seq<(Seq<u8>, int)>, k: Seq<u8>, v: int)
    ensures
        aggregate(t, recs.push((k, v))) == insert_reading(aggregate(t, recs), k, v),
    decreases recs.len(),
{
    if recs.len() == 0 {
        assert(recs.push((k, v)).drop_first() =~= Seq::<(Seq<u8>, int)>::empty());
        assert(recs.push((k, v))[0] == (k, v));
        assert(aggregate(insert_reading(t, k, v), Seq::empty()) == insert_reading(t, k, v));
    } else {
        assert(recs.push((k, v)).drop_first() =~= recs.drop_first().push((k, v)));
        assert(recs.push((k, v))[0] == recs[0]);
        lemma_aggregate_push(insert_reading(t, recs[0].0, recs[0].1), recs.drop_first(), k, v);
    }
}

/// Parses every record of the reader's buffer from its position on and folds
/// each into `stations`. The first record that cannot be read stops the work
/// with its failure.
pub fn parse_chunk(reader: &mut Reader, stations: &mut StationMap) -> (r: Result<(), RunError>)
    requires
        old(reader).wf(),
        table_wf(stations_of(*old(stations))),
        forall|k: Seq<u8>| #[trigger] stations_of(*old(stations)).contains_key(k)
            ==> stations_of(*old(stations))[k].count + old(reader).buf@.len() <= u64::MAX,
    ensures
        final(reader).buf@ == old(reader).buf@,
        table_wf(stations_of(*final(stations))),
        parse_records(old(reader).buf@, old(reader).pos as int, old(reader).base as int) is Ok ==> r is Ok
            && stations_of(*final(stations)) == aggregate(
            stations_of(*old(stations)),
            parse_records(old(reader).buf@, old(reader).pos as int, old(reader).base as int)->Ok_0,
        ),
        parse_records(old(reader).buf@, old(reader).pos as int, old(reader).base as int) is Err ==> r is Err
            && r->Err_0@ == parse_records(
            old(reader).buf@,
            old(reader).pos as int,
            old(reader).base as int,
        )->Err_0,
{
    let ghost buf = reader.buf@;
    let ghost base = reader.base as int;
    let ghost all = parse_records(buf, reader.pos as int, base);
    let ghost t0 = stations_of(*stations);
    let ghost mut done: Seq<(Seq<u8>, int)> = Seq::empty();
    proof {
        assert(then_records(done, parse_records(buf, reader.pos as int, base)) =~= all) by {
            match parse_records(buf, reader.pos as int, base) {
                Ok(rs) => {
                    assert(done + rs =~= rs);
                },
                Err(f) => {},
            }
        }
    }
    while reader.has_remaining()
        invariant
            reader.wf(),
            reader.buf@ == buf,
            buf == old(reader).buf@,
            reader.base == base,
            all == then_records(done, parse_records(buf, reader.pos as int, base)),
            all == parse_records(old(reader).buf@, old(reader).pos as int, old(reader).base as int),
            t0 == stations_of(*old(stations)),
            forall|k: Seq<u8>| #[trigger] t0.contains_key(k) ==> t0[k].count + buf.len() <= u64::MAX,
            stations_of(*stations) == aggregate(t0, done),
            table_wf(stations_of(*stations)),
            forall|k: Seq<u8>| #[trigger] stations_of(*stations).contains_key(k)
                ==> stations_of(*stations)[k].count <= count_in(t0, k) + reader.pos,
        decreases buf.len() - reader.pos,
    {
        let ghost pos = reader.pos as int;
        let ghost cur = stations_of(*stations);
        proof {
            lemma_key_end_bounds(buf, pos);
        }
        let (ks, ke) = match reader.read_station_name() {
            Ok(span) => span,
            Err(e) => {
                return Err(e);
            },
        };
        proof {
            lemma_line_end_bounds(buf, ke + 1);
        }
        let v = match reader.read_temp() {
            Ok(v) => v,
            Err(e) => {
                return Err(e);
            },
        };
        let key = vstd::slice::slice_subrange(reader.buf.as_slice(), ks, ke);
        proof {
            let e = line_end(buf, ke + 1);
            let text = buf.subrange(ke + 1, e);
            assert(key@ == buf.subrange(pos, ke as int));
            assert(has_delimiter(buf, pos));
            assert(ks as int == pos && ke as int == key_end(buf, pos));
            assert(magnitude(text) <= i64::MAX);
            crate::reader::lemma_digits_value_nonneg(text);
            crate::reader::lemma_digits_value_nonneg(text.drop_first());
            assert(v as int == scaled_value(text));
            assert(reader.pos as int == after_line(buf, e));
            assert(reader.pos > pos);
            assert(parse_records(buf, pos, base) == then_records(
                seq![(key@, v as int)],
                parse_records(buf, reader.pos as int, base),
            )) by {
                match parse_records(buf, reader.pos as int, base) {
                    Ok(rs) => {},
                    Err(f) => {},
                }
            }
            match parse_records(buf, reader.pos as int, base) {
                Ok(rs) => {
                    assert(done + (seq![(key@, v as int)] + rs) =~= done.push((key@, v as int)) + rs);
                },
                Err(f) => {},
            }
            if cur.contains_key(key@) {
                assert(cur[key@].count <= count_in(t0, key@) + pos);
            }
        }
        stations.add_reading(key, v);
        proof {
            lemma_aggregate_push(t0, done, key@, v as int);
            done = done.push((key@, v as int));
            assert forall|k: Seq<u8>| #[trigger] stations_of(*stations).contains_key(k)
                implies stations_of(*stations)[k].count <= count_in(t0, k) + reader.pos by {
                if k != key@ {
                    assert(cur.contains_key(k));
                }
            }
        }
    }
    proof {
        match parse_records(buf, reader.pos as int, base) {
            Ok(rs) => {
                assert(rs =~= Seq::<(Seq<u8>, int)>::empty());
                assert(done + rs =~= done);
            },
            Err(f) => {},
        }
    }
    Ok(())
}

} // verus!
