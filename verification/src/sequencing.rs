use crate::chunk::{
    after, decode_chunk, record_at, records_at, run_at, runs_at, ChunkDataView, ChunkFailureView,
    RecordView, RECORD_END, RECORD_NEXT, RECORD_START,
};
use crate::cursor::{byte_at, has_bytes, i32_at};
use crate::error::DecodeError;
use vstd::prelude::*;

verus! {

/// Whether the records from `pos` on run, without error, to a line feed that
/// is the last byte of the input.
pub open spec fn ends_at_boundary(data: Seq<u8>, pos: int) -> bool
    decreases data.len() - pos,
{
    byte_at(data, pos) == Some(RECORD_START) && match record_at(data, pos + 1) {
        Ok((_, end)) => byte_at(data, end) == Some(RECORD_END) && (end + 1 == data.len() || (
            byte_at(data, end + 1) == Some(RECORD_NEXT) && ends_at_boundary(data, end + 2))),
        Err(_) => false,
    }
}

/// A record's position moved by `by` bytes.
pub open spec fn moved(r: Result<(RecordView, int), DecodeError>, by: int) -> Result<
    (RecordView, int),
    DecodeError,
> {
    match r {
        Ok((record, end)) => Ok((record, end + by)),
        Err(e) => Err(e),
    }
}

/// Two chunk streams made one: the first, the marker that announces another
/// record, and the second without its preamble.
pub open spec fn chained(a: Seq<u8>, b: Seq<u8>) -> Seq<u8> {
    a + seq![RECORD_NEXT] + b.subrange(23, b.len() as int)
}

/// Runs that decode from an input decode alike from any longer one, and lie
/// within the shorter.
pub proof fn lemma_runs_extend(a: Seq<u8>, b: Seq<u8>, pos: int, remaining: int)
    requires
        0 <= pos,
        runs_at(a, pos, remaining) is Ok,
    ensures
        runs_at(a + b, pos, remaining) == runs_at(a, pos, remaining),
        remaining >= 0,
        remaining == 0 || pos + remaining <= a.len(),
    decreases remaining + 4,
{
    if remaining > 0 {
        lemma_runs_extend(a, b, pos + 4, remaining - 4);
        assert(run_at(a + b, pos) == run_at(a, pos));
    }
}

/// A record that decodes from an input decodes alike from any longer one,
/// and ends within the shorter.
pub proof fn lemma_record_extend(a: Seq<u8>, b: Seq<u8>, pos: int)
    requires
        0 <= pos,
        record_at(a, pos) is Ok,
    ensures
        record_at(a + b, pos) == record_at(a, pos),
        pos < (record_at(a, pos)->Ok_0).1 <= a.len(),
{
    let length = i32_at(a, pos);
    let end = pos + 4 + length;
    assert(i32_at(a + b, pos) == length);
    let tag = a[pos + 11];
    if tag == 8 {
        assert((a + b).subrange(pos + 12, end) =~= a.subrange(pos + 12, end));
    } else if tag == 9 {
        lemma_runs_extend(a, b, pos + 12, length - 8);
    }
}

/// Runs decode alike wherever in an input their bytes stand.
pub proof fn lemma_runs_shift(p: Seq<u8>, b: Seq<u8>, pos: int, remaining: int)
    requires
        0 <= pos,
    ensures
        runs_at(p + b, p.len() + pos, remaining) == runs_at(b, pos, remaining),
    decreases remaining + 4,
{
    if remaining > 0 && has_bytes(b, pos, 4) {
        lemma_runs_shift(p, b, pos + 4, remaining - 4);
        assert(run_at(p + b, p.len() + pos) == run_at(b, pos));
    }
}

/// A record decodes alike wherever in an input its bytes stand.
pub proof fn lemma_record_shift(p: Seq<u8>, b: Seq<u8>, pos: int)
    requires
        0 <= pos,
    ensures
        record_at(p + b, p.len() + pos) == moved(record_at(b, pos), p.len() as int),
{
    let n = p.len() as int;
    if has_bytes(b, pos, 4) {
        assert(i32_at(p + b, n + pos) == i32_at(b, pos));
        let length = i32_at(b, pos);
        if length >= 8 && has_bytes(b, pos, 12) {
            let end = pos + 4 + length;
            let tag = b[pos + 11];
            assert((p + b)[n + pos + 11] == tag);
            assert((p + b)[n + pos + 8] == b[pos + 8]);
            assert((p + b)[n + pos + 9] == b[pos + 9]);
            assert((p + b)[n + pos + 10] == b[pos + 10]);
            if tag == 8 {
                if has_bytes(b, pos + 12, length - 8) {
                    assert((p + b).subrange(n + pos + 12, n + end) =~= b.subrange(pos + 12, end));
                }
            } else if tag == 9 {
                lemma_runs_shift(p, b, pos + 12, length - 8);
            }
        }
    }
}

/// Records decode alike wherever in an input their bytes stand.
pub proof fn lemma_records_shift(p: Seq<u8>, b: Seq<u8>, pos: int)
    requires
        0 <= pos,
    ensures
        records_at(p + b, p.len() + pos) == records_at(b, pos),
    decreases b.len() - pos,
{
    let n = p.len() as int;
    if byte_at(b, pos) == Some(RECORD_START) {
        lemma_record_shift(p, b, pos + 1);
        match record_at(b, pos + 1) {
            Ok((_, end)) => {
                if byte_at(b, end) == Some(RECORD_END) && byte_at(b, end + 1) == Some(
                    RECORD_NEXT,
                ) {
                    lemma_records_shift(p, b, end + 2);
                }
            },
            Err(_) => {},
        }
    }
}

/// Where the records of `a` end at a boundary, decoding `a` followed by the
/// marker for another record and any bytes yields the records of `a` and
/// then whatever decodes from behind the marker.
pub proof fn lemma_records_chain(a: Seq<u8>, tail: Seq<u8>, pos: int)
    requires
        0 <= pos,
        ends_at_boundary(a, pos),
    ensures
        records_at(a, pos).error is None,
        records_at(a + (seq![RECORD_NEXT] + tail), pos) == after(
            records_at(a, pos).records,
            records_at(a + (seq![RECORD_NEXT] + tail), a.len() as int + 1),
        ),
    decreases a.len() - pos,
{
    let rest = seq![RECORD_NEXT] + tail;
    let c = a + rest;
    lemma_record_extend(a, rest, pos + 1);
    let (record, end) = record_at(a, pos + 1)->Ok_0;
    assert(byte_at(c, pos) == byte_at(a, pos));
    assert(byte_at(c, end) == byte_at(a, end));
    if end + 1 == a.len() {
        assert(c[end + 1] == RECORD_NEXT);
        assert(records_at(a, pos).records =~= seq![record]);
    } else {
        assert(byte_at(c, end + 1) == byte_at(a, end + 1));
        lemma_records_chain(a, tail, end + 2);
        let inner = records_at(a, end + 2).records;
        let beyond = records_at(c, a.len() as int + 1);
        assert(seq![record] + (inner + beyond.records) =~= (seq![record] + inner)
            + beyond.records);
    }
}

/// Sequencing: where one chunk stream ends right after a record's line feed,
/// chaining a second stream to it decodes to the records of the first and
/// then the records of the second, in order, and fails exactly where the
/// second alone fails.
pub proof fn lemma_chained_streams(a: Seq<u8>, b: Seq<u8>)
    requires
        a.len() >= 23,
        b.len() >= 23,
        ends_at_boundary(a, 23),
    ensures
        records_at(a, 23).error is None,
        records_at(chained(a, b), 23) == after(records_at(a, 23).records, records_at(b, 23)),
        decode_chunk(a) is Ok,
        decode_chunk(chained(a, b)) == match decode_chunk(b) {
            Ok(second) => Ok::<ChunkDataView, ChunkFailureView>(
                ChunkDataView {
                    version: (decode_chunk(a)->Ok_0).version,
                    marker: (decode_chunk(a)->Ok_0).marker,
                    records: (decode_chunk(a)->Ok_0).records + second.records,
                },
            ),
            Err(failure) => Err::<ChunkDataView, ChunkFailureView>(
                ChunkFailureView {
                    error: failure.error,
                    record_index: (decode_chunk(a)->Ok_0).records.len() + failure.record_index,
                    salvaged: (decode_chunk(a)->Ok_0).records + failure.salvaged,
                },
            ),
        },
{
    let body = b.subrange(23, b.len() as int);
    let head = b.subrange(0, 23);
    let c = chained(a, b);
    lemma_records_chain(a, body, 23);
    assert(c =~= a + (seq![RECORD_NEXT] + body));
    assert(c =~= (a + seq![RECORD_NEXT]) + body);
    lemma_records_shift(a + seq![RECORD_NEXT], body, 0);
    assert(b =~= head + body);
    lemma_records_shift(head, body, 0);
    assert(c.subrange(1, 17) =~= a.subrange(1, 17));
    assert(c.subrange(18, 23) =~= a.subrange(18, 23));
}

} // verus!
