use vstd::prelude::*;
use crate::align::{align_chunks, chunk_view, chunks_of, chunks_view, file_boundaries, Alignment};
use crate::emit::{holds_table, print_out, strictly_sorted, summary_text};
use crate::error::RunError;
use crate::laws::merge_all;
use crate::reader::Reader;
use crate::table::{
    aggregate, counts_overflow, empty_table, parse_chunk, parse_records, stations_of, table_wf, StationMap,
    Table,
};
use crate::error::Failure;
use crate::stats::StationData;

verus! {

/// The records of one chunk of the data, read with the chunk's file offset.
pub open spec fn chunk_records(data: Seq<u8>, ch: (int, int)) -> Result<Seq<(Seq<u8>, int)>, Failure> {
    parse_records(data.subrange(ch.0, ch.1), 0, ch.0)
}

/// The local table of each chunk, assuming every chunk reads cleanly.
pub open spec fn chunk_tables(data: Seq<u8>, chunks: Seq<(int, int)>) -> Seq<Table> {
    Seq::new(chunks.len(), |j: int| aggregate(empty_table(), chunk_records(data, chunks[j])->Ok_0))
}

/// The merged table of a whole run over `data`, or `None` when the data does
/// not align or some record does not read.
pub open spec fn run_table(data: Seq<u8>, c: int, p: int) -> Option<Table> {
    match file_boundaries(data, c, p) {
        None => None,
        Some(bs) => {
            let chunks = chunks_of(bs, data.len() as int);
            if forall|j: int| 0 <= j < chunks.len() ==> (#[trigger] chunk_records(data, chunks[j])) is Ok {
                Some(merge_all(empty_table(), chunk_tables(data, chunks)))
            } else {
                None
            }
        },
    }
}

/// Merging the tables in order overflows a count at some step.
pub open spec fn merge_overflows(ts: Seq<Table>) -> bool {
    exists|i: int| 0 <= i < ts.len() && counts_overflow(merge_all(empty_table(), #[trigger] ts.subrange(0, i)), ts[i])
}

/// The chunks before `j` read cleanly and chunk `j` fails.
pub open spec fn first_failing_chunk(data: Seq<u8>, chunks: Seq<(int, int)>, j: int) -> bool {
    &&& 0 <= j < chunks.len()
    &&& forall|i: int| 0 <= i < j ==> (#[trigger] chunk_records(data, chunks[i])) is Ok
    &&& chunk_records(data, chunks[j]) is Err
}

/// Runs the whole job over data held in memory, one chunk after the other:
/// aligns the chunks, reads each one into a local table, merges the local
/// tables and renders the summary. The first failure stops the run: a chunk
/// that does not read, or a count that no longer fits while merging.
pub fn summarize(data: &[u8], chunk_size: u64, peek: u64) -> (r: Result<Vec<u8>, RunError>)
    requires
        chunk_size >= 1,
        peek >= 1,
        data@.len() + chunk_size <= u64::MAX,
        data@.len() + peek <= u64::MAX,
    ensures
        file_boundaries(data@, chunk_size as int, peek as int) is None ==> r is Err && r->Err_0@ is AlignmentFailure,
        r is Ok ==> run_table(data@, chunk_size as int, peek as int) is Some && exists|es: Seq<(Vec<u8>, StationData)>|
            strictly_sorted(es) && holds_table(es, run_table(data@, chunk_size as int, peek as int)->Some_0)
                && r->Ok_0@ == #[trigger] summary_text(es),
        run_table(data@, chunk_size as int, peek as int) is Some && !merge_overflows(
            chunk_tables(data@, chunks_of(file_boundaries(data@, chunk_size as int, peek as int)->Some_0, data@.len() as int)),
        ) ==> r is Ok,
        r is Err && run_table(data@, chunk_size as int, peek as int) is Some ==> r->Err_0@ is CountOverflow,
        file_boundaries(data@, chunk_size as int, peek as int) is Some && run_table(data@, chunk_size as int, peek as int)
            is None ==> r is Err && (r->Err_0@ is CountOverflow || exists|j: int|
            first_failing_chunk(
                data@,
                chunks_of(file_boundaries(data@, chunk_size as int, peek as int)->Some_0, data@.len() as int),
                j,
            ) && r->Err_0@ == #[trigger] chunk_records(
                data@,
                chunks_of(file_boundaries(data@, chunk_size as int, peek as int)->Some_0, data@.len() as int)[j],
            )->Err_0),
{
    let chunks = match align_chunks(data, chunk_size, peek) {
        Ok(chunks) => chunks,
        Err(e) => {
            return Err(e);
        },
    };
    let ghost bs = file_boundaries(data@, chunk_size as int, peek as int)->Some_0;
    let ghost cs = chunks_view(chunks@);
    let ghost len = data@.len() as int;
    proof {
        assert(cs == chunks_of(bs, len));
        assert forall|j: int| 0 <= j < cs.len() implies 0 <= #[trigger] cs[j].0 < cs[j].1 <= len by {
            crate::align::lemma_chunk_bounds(cs, len, j);
        }
    }
    let data_len: usize = data.len();
    let mut global = StationMap::new();
    let mut i: usize = 0;
    while i < chunks.len()
        invariant
            i <= chunks@.len(),
            cs == chunks_view(chunks@),
            cs == chunks_of(bs, len),
            len == data@.len(),
            data@.len() <= usize::MAX,
            data_len == data@.len(),
            file_boundaries(data@, chunk_size as int, peek as int) == Some(bs),
            forall|j: int| 0 <= j < cs.len() ==> 0 <= #[trigger] cs[j].0 < cs[j].1 <= len,
            forall|j: int| 0 <= j < i ==> (#[trigger] chunk_records(data@, cs[j])) is Ok,
            table_wf(stations_of(global)),
            stations_of(global) == merge_all(empty_table(), chunk_tables(data@, cs).subrange(0, i as int)),
        decreases chunks@.len() - i,
    {
        let ch: Alignment = chunks[i];
        proof {
            assert(cs[i as int] == chunk_view(ch));
        }
        let s_idx: usize = ch.start as usize;
        let e_idx: usize = ch.end as usize;
        proof {
            assert(s_idx as int == ch.start as int);
            assert(e_idx as int == ch.end as int);
        }
        let buf = vstd::slice::slice_to_vec(vstd::slice::slice_subrange(data, s_idx, e_idx));
        proof {
            assert(buf@ == data@.subrange(ch.start as int, ch.end as int));
        }
        let mut reader = Reader::at_offset(buf, ch.start);
        let mut local = StationMap::new();
        let parsed = parse_chunk(&mut reader, &mut local);
        match parsed {
            Err(e) => {
                proof {
                    assert(!(chunk_records(data@, cs[i as int]) is Ok));
                    assert(first_failing_chunk(data@, cs, i as int));
                }
                return Err(e);
            },
            Ok(()) => {},
        }
        let ghost before = stations_of(global);
        let merged = global.combine(local);
        match merged {
            Err(e) => {
                proof {
                    let ts = chunk_tables(data@, cs);
                    assert(ts[i as int] == aggregate(empty_table(), chunk_records(data@, cs[i as int])->Ok_0));
                    assert(counts_overflow(merge_all(empty_table(), ts.subrange(0, i as int)), ts[i as int]));
                    assert(merge_overflows(ts));
                }
                return Err(e);
            },
            Ok(()) => {},
        }
        proof {
            let ts = chunk_tables(data@, cs);
            assert(ts.subrange(0, i + 1).drop_last() =~= ts.subrange(0, i as int));
            assert(ts.subrange(0, i + 1).last() == ts[i as int]);
        }
        i = i + 1;
    }
    proof {
        let ts = chunk_tables(data@, cs);
        assert(ts.subrange(0, ts.len() as int) =~= ts);
    }
    let out = print_out(global);
    Ok(out)
}

} // verus!
