use crate::cursor::{byte_at, has_bytes, i16_at, i32_at, ByteCursor};
use crate::error::DecodeError;
use crate::text::{lossy_string, lossy_text};
use vstd::prelude::*;

verus! {

/// The byte that opens a record (`:`).
pub const RECORD_START: u8 = 0x3A;

/// The byte that closes a record (line feed).
pub const RECORD_END: u8 = 0x0A;

/// The byte that announces another record (`+`).
pub const RECORD_NEXT: u8 = 0x2B;

/// Bytes of a record that its declared length counts besides the payload.
pub const RECORD_HEADER_LEN: i32 = 8;

/// Position of a chunk inside its region.
#[allow(non_camel_case_types)]
#[derive(Clone, Copy, Debug, PartialEq, Eq, Structural)]
pub struct chunk_coor {
    pub x: u8,
    pub y: u8,
    pub z: u8,
}

/// One run of equal blocks. `rotation` is the high four bits of the packed
/// details taken as a number from 0 to 15, `block_index` the low twelve.
#[derive(Clone, Copy, Debug, PartialEq, Eq, Structural)]
pub struct RunEntry {
    pub block_count: i16,
    pub rotation: i8,
    pub block_index: i32,
}

/// What a record carries after its header.
#[derive(Debug, PartialEq, Eq)]
pub enum ChunkPayload {
    /// Tag 0: nothing.
    Empty,
    /// Tag 8: block bytes, left as they are.
    Raw(Vec<u8>),
    /// Tag 9: runs of blocks, in file order.
    Runs(Vec<RunEntry>),
}

/// One record: the length it declares, where its chunk lies, its type tag
/// and what it carries.
#[derive(Debug, PartialEq, Eq)]
pub struct ChunkRecord {
    pub length: i32,
    pub coordinate: chunk_coor,
    pub type_tag: u8,
    pub payload: ChunkPayload,
}

/// A chunk section that decoded to its end.
#[derive(Debug, PartialEq, Eq)]
pub struct ChunkData {
    pub version: String,
    pub marker: String,
    pub records: Vec<ChunkRecord>,
}

/// A chunk section that did not: the error, the index of the record at which
/// decoding halted, and the records that were complete before it.
#[derive(Debug, PartialEq, Eq)]
pub struct ChunkFailure {
    pub error: DecodeError,
    pub record_index: usize,
    pub salvaged: Vec<ChunkRecord>,
}

/// A payload as plain sequences.
pub enum PayloadView {
    Empty,
    Raw(Seq<u8>),
    Runs(Seq<RunEntry>),
}

/// A record as plain values.
pub struct RecordView {
    pub length: int,
    pub coordinate: chunk_coor,
    pub type_tag: u8,
    pub payload: PayloadView,
}

/// A decoded chunk section as plain values.
pub struct ChunkDataView {
    pub version: Seq<char>,
    pub marker: Seq<char>,
    pub records: Seq<RecordView>,
}

/// A failed decode as plain values.
pub struct ChunkFailureView {
    pub error: DecodeError,
    pub record_index: int,
    pub salvaged: Seq<RecordView>,
}

impl View for ChunkPayload {
    type V = PayloadView;

    open spec fn view(&self) -> PayloadView {
        match self {
            ChunkPayload::Empty => PayloadView::Empty,
            ChunkPayload::Raw(bytes) => PayloadView::Raw(bytes@),
            ChunkPayload::Runs(runs) => PayloadView::Runs(runs@),
        }
    }
}

impl View for ChunkRecord {
    type V = RecordView;

    open spec fn view(&self) -> RecordView {
        RecordView {
            length: self.length as int,
            coordinate: self.coordinate,
            type_tag: self.type_tag,
            payload: self.payload@,
        }
    }
}

/// The records of a vector, each by its view.
pub open spec fn records_view(records: Seq<ChunkRecord>) -> Seq<RecordView> {
    records.map_values(|r: ChunkRecord| r@)
}

impl View for ChunkData {
    type V = ChunkDataView;

    open spec fn view(&self) -> ChunkDataView {
        ChunkDataView {
            version: self.version@,
            marker: self.marker@,
            records: records_view(self.records@),
        }
    }
}

impl View for ChunkFailure {
    type V = ChunkFailureView;

    open spec fn view(&self) -> ChunkFailureView {
        ChunkFailureView {
            error: self.error,
            record_index: self.record_index as int,
            salvaged: records_view(self.salvaged@),
        }
    }
}

/// The rotation packed into the high four bits of the details.
pub open spec fn rotation_of(details: i16) -> i8 {
    ((details >> 12) & 0xF) as i8
}

/// The block index packed into the low twelve bits of the details.
pub open spec fn block_index_of(details: i16) -> i32 {
    (details & 0xFFF) as i32
}

/// The run that a count and its packed details stand for.
pub open spec fn run_entry(block_count: i16, details: i16) -> RunEntry {
    RunEntry {
        block_count,
        rotation: rotation_of(details),
        block_index: block_index_of(details),
    }
}

/// The run stored in the four bytes at `pos`.
pub open spec fn run_at(data: Seq<u8>, pos: int) -> RunEntry {
    run_entry(i16_at(data, pos) as i16, i16_at(data, pos + 2) as i16)
}

/// The runs read from `pos` while `remaining` payload bytes are owed. Entries
/// are read whole, so a payload that is no multiple of four is found out only
/// after the entry that overshoots it has been read.
pub open spec fn runs_at(data: Seq<u8>, pos: int, remaining: int) -> Result<
    Seq<RunEntry>,
    DecodeError,
>
    decreases remaining + 4,
{
    if remaining <= 0 {
        if remaining == 0 {
            Ok(Seq::empty())
        } else {
            Err(DecodeError::InvalidRunLengthPayload)
        }
    } else if !has_bytes(data, pos, 4) {
        Err(DecodeError::TruncatedInput)
    } else {
        match runs_at(data, pos + 4, remaining - 4) {
            Ok(rest) => Ok(seq![run_at(data, pos)] + rest),
            Err(e) => Err(e),
        }
    }
}

/// The record whose length field starts at `pos`, and the position after its
/// payload.
pub open spec fn record_at(data: Seq<u8>, pos: int) -> Result<(RecordView, int), DecodeError> {
    if !has_bytes(data, pos, 4) {
        Err(DecodeError::TruncatedInput)
    } else if i32_at(data, pos) < 8 {
        Err(DecodeError::InvalidRecordLength)
    } else if !has_bytes(data, pos, 12) {
        Err(DecodeError::TruncatedInput)
    } else {
        let length = i32_at(data, pos);
        let remaining = length - 8;
        let coordinate = chunk_coor { x: data[pos + 8], y: data[pos + 9], z: data[pos + 10] };
        let type_tag = data[pos + 11];
        let end = pos + 12 + remaining;
        if type_tag == 0 {
            if remaining != 0 {
                Err(DecodeError::InvalidChunkType0Length)
            } else {
                Ok((RecordView { length, coordinate, type_tag, payload: PayloadView::Empty }, end))
            }
        } else if type_tag == 8 {
            if !has_bytes(data, pos + 12, remaining) {
                Err(DecodeError::TruncatedInput)
            } else {
                Ok(
                    (
                        RecordView {
                            length,
                            coordinate,
                            type_tag,
                            payload: PayloadView::Raw(data.subrange(pos + 12, end)),
                        },
                        end,
                    ),
                )
            }
        } else if type_tag == 9 {
            match runs_at(data, pos + 12, remaining) {
                Ok(runs) => Ok(
                    (
                        RecordView { length, coordinate, type_tag, payload: PayloadView::Runs(runs) },
                        end,
                    ),
                ),
                Err(e) => Err(e),
            }
        } else {
            Err(DecodeError::UnknownChunkType(type_tag))
        }
    }
}

/// Records decoded so far and the error that halted decoding, if one did.
pub struct Outcome {
    pub records: Seq<RecordView>,
    pub error: Option<DecodeError>,
}

/// `rest` with the records `done` in front.
pub open spec fn after(done: Seq<RecordView>, rest: Outcome) -> Outcome {
    Outcome { records: done + rest.records, error: rest.error }
}

/// The records read from `pos`, where a record-start marker is expected.
/// Anything but the marker, the end of the stream included, ends the list. A
/// record counts once its line feed has been read.
pub open spec fn records_at(data: Seq<u8>, pos: int) -> Outcome
    decreases data.len() - pos,
{
    if byte_at(data, pos) != Some(RECORD_START) {
        Outcome { records: Seq::empty(), error: None }
    } else {
        match record_at(data, pos + 1) {
            Err(e) => Outcome { records: Seq::empty(), error: Some(e) },
            Ok((record, end)) => {
                if byte_at(data, end) is None {
                    Outcome { records: Seq::empty(), error: Some(DecodeError::TruncatedInput) }
                } else if byte_at(data, end) != Some(RECORD_END) {
                    Outcome {
                        records: Seq::empty(),
                        error: Some(DecodeError::MalformedChunkTerminator),
                    }
                } else if byte_at(data, end + 1) is None {
                    Outcome { records: seq![record], error: None }
                } else if byte_at(data, end + 1) != Some(RECORD_NEXT) {
                    Outcome {
                        records: seq![record],
                        error: Some(DecodeError::MalformedChunkTerminator),
                    }
                } else {
                    after(seq![record], records_at(data, end + 2))
                }
            },
        }
    }
}

/// What decoding a whole chunk section yields.
pub open spec fn decode_chunk(data: Seq<u8>) -> Result<ChunkDataView, ChunkFailureView> {
    if data.len() < 23 {
        Err(
            ChunkFailureView {
                error: DecodeError::TruncatedInput,
                record_index: 0,
                salvaged: Seq::empty(),
            },
        )
    } else {
        let outcome = records_at(data, 23);
        match outcome.error {
            None => Ok(
                ChunkDataView {
                    version: lossy_text(data.subrange(1, 17)),
                    marker: lossy_text(data.subrange(18, 23)),
                    records: outcome.records,
                },
            ),
            Some(error) => Err(
                ChunkFailureView {
                    error,
                    record_index: outcome.records.len() as int,
                    salvaged: outcome.records,
                },
            ),
        }
    }
}

/// The sixteen bits of the details, as a number from 0 to 65535.
pub open spec fn details_bits(details: i16) -> int {
    if details < 0 {
        details + 65536
    } else {
        details as int
    }
}

/// Rotation and block index split the bits of the details between them: the
/// rotation is the high four as a number from 0 to 15, whatever the sign of
/// the details, and the block index the low twelve.
pub proof fn lemma_run_fields(details: i16)
    ensures
        0 <= rotation_of(details) <= 15,
        0 <= block_index_of(details) <= 4095,
        rotation_of(details) as int == details_bits(details) / 4096,
        block_index_of(details) as int == details_bits(details) % 4096,
{
    let r = ((details >> 12) & 0xF) as i8;
    let x = (details & 0xFFF) as i32;
    assert(0 <= ((details >> 12) & 0xF) as i8 <= 15) by (bit_vector);
    assert(0 <= (details & 0xFFF) as i32 <= 4095) by (bit_vector);
    assert(details >= 0 ==> (((details >> 12) & 0xF) as i8) as i32 * 4096 + (details & 0xFFF) as i32
        == details as i32) by (bit_vector);
    assert(details < 0 ==> (((details >> 12) & 0xF) as i8) as i32 * 4096 + (details & 0xFFF) as i32
        == details as i32 + 65536) by (bit_vector);
    assert(r as int * 4096 + x as int == details_bits(details));
}

/// Splits packed details into rotation and block index.
pub fn unpack_run(block_count: i16, block_details: i16) -> (e: RunEntry)
    ensures
        e == run_entry(block_count, block_details),
        e.rotation as int == details_bits(block_details) / 4096,
        e.block_index as int == details_bits(block_details) % 4096,
        0 <= e.rotation <= 15,
        0 <= e.block_index <= 4095,
{
    let rotation = ((block_details >> 12) & 0xF) as i8;
    let block_index = (block_details & 0xFFF) as i32;
    proof {
        lemma_run_fields(block_details);
    }
    RunEntry { block_count, rotation, block_index }
}

/// Reads run entries while `remaining` payload bytes are owed.
pub fn decode_runs(cur: &mut ByteCursor, remaining: i32) -> (r: Result<Vec<RunEntry>, DecodeError>)
    requires
        old(cur).wf(),
    ensures
        final(cur).wf(),
        final(cur).source() == old(cur).source(),
        match r {
            Ok(runs) => {
                &&& runs_at(old(cur).source(), old(cur).offset(), remaining as int) == Ok::<
                    Seq<RunEntry>,
                    DecodeError,
                >(runs@)
                &&& final(cur).offset() == old(cur).offset() + remaining
            },
            Err(e) => {
                &&& runs_at(old(cur).source(), old(cur).offset(), remaining as int) == Err::<
                    Seq<RunEntry>,
                    DecodeError,
                >(e)
                &&& e == DecodeError::TruncatedInput || e == DecodeError::InvalidRunLengthPayload
            },
        },
{
    let ghost data = cur.source();
    let ghost start = cur.offset();
    let mut runs: Vec<RunEntry> = Vec::new();
    let mut left: i32 = remaining;
    proof {
        cur.lemma_offset_in_range();
        match runs_at(data, start, remaining as int) {
            Ok(rest) => {
                assert(runs@ + rest =~= rest);
            },
            Err(_) => {},
        }
    }
    while left > 0
        invariant
            cur.wf(),
            cur.source() == data,
            data == old(cur).source(),
            start == old(cur).offset(),
            left <= remaining,
            cur.offset() == start + (remaining - left),
            runs_at(data, start, remaining as int) == match runs_at(
                data,
                cur.offset(),
                left as int,
            ) {
                Ok(rest) => Ok::<Seq<RunEntry>, DecodeError>(runs@ + rest),
                Err(e) => Err(e),
            },
        decreases left + 4,
    {
        let ghost pos = cur.offset();
        proof {
            cur.lemma_offset_in_range();
        }
        let block_count = match cur.read_i16_le() {
            Ok(v) => v,
            Err(e) => {
                return Err(e);
            },
        };
        let block_details = match cur.read_i16_le() {
            Ok(v) => v,
            Err(e) => {
                return Err(e);
            },
        };
        let entry = unpack_run(block_count, block_details);
        proof {
            assert(entry == run_at(data, pos));
            match runs_at(data, pos + 4, left - 4) {
                Ok(rest) => {
                    assert(runs@ + (seq![entry] + rest) =~= runs@.push(entry) + rest);
                },
                Err(_) => {},
            }
        }
        runs.push(entry);
        left = left - 4;
    }
    if left != 0 {
        Err(DecodeError::InvalidRunLengthPayload)
    } else {
        proof {
            assert(runs@ + Seq::<RunEntry>::empty() =~= runs@);
        }
        Ok(runs)
    }
}

/// Reads one record, from its length field to the end of its payload. Where
/// the type tag is unknown the cursor is left right behind the tag, with the
/// payload unread.
pub fn decode_record(cur: &mut ByteCursor) -> (r: Result<ChunkRecord, DecodeError>)
    requires
        old(cur).wf(),
    ensures
        final(cur).wf(),
        final(cur).source() == old(cur).source(),
        match r {
            Ok(record) => record_at(old(cur).source(), old(cur).offset()) == Ok::<
                (RecordView, int),
                DecodeError,
            >((record@, final(cur).offset())),
            Err(e) => record_at(old(cur).source(), old(cur).offset()) == Err::<
                (RecordView, int),
                DecodeError,
            >(e),
        },
        r matches Err(DecodeError::UnknownChunkType(_)) ==> final(cur).offset() == old(
            cur,
        ).offset() + 12,
{
    proof {
        cur.lemma_offset_in_range();
    }
    let length = match cur.read_i32_le() {
        Ok(v) => v,
        Err(e) => {
            return Err(e);
        },
    };
    if length < RECORD_HEADER_LEN {
        return Err(DecodeError::InvalidRecordLength);
    }
    match cur.read_exact(4) {
        Ok(_) => {},
        Err(e) => {
            return Err(e);
        },
    }
    let x = match cur.read_u8() {
        Ok(v) => v,
        Err(e) => {
            return Err(e);
        },
    };
    let y = match cur.read_u8() {
        Ok(v) => v,
        Err(e) => {
            return Err(e);
        },
    };
    let z = match cur.read_u8() {
        Ok(v) => v,
        Err(e) => {
            return Err(e);
        },
    };
    let type_tag = match cur.read_u8() {
        Ok(v) => v,
        Err(e) => {
            return Err(e);
        },
    };
    let coordinate = chunk_coor { x, y, z };
    let remaining: i32 = length - RECORD_HEADER_LEN;
    let payload = if type_tag == 0 {
        if remaining != 0 {
            return Err(DecodeError::InvalidChunkType0Length);
        }
        ChunkPayload::Empty
    } else if type_tag == 8 {
        match cur.read_exact(remaining as usize) {
            Ok(bytes) => ChunkPayload::Raw(bytes),
            Err(e) => {
                return Err(e);
            },
        }
    } else if type_tag == 9 {
        match decode_runs(cur, remaining) {
            Ok(runs) => ChunkPayload::Runs(runs),
            Err(e) => {
                return Err(e);
            },
        }
    } else {
        return Err(DecodeError::UnknownChunkType(type_tag));
    };
    Ok(ChunkRecord { length, coordinate, type_tag, payload })
}

/// Reads the preamble: a tag byte, sixteen bytes of version, a separator
/// byte and five bytes of marker. The two strings come back, version first.
pub fn decode_preamble(cur: &mut ByteCursor) -> (r: Result<(String, String), DecodeError>)
    requires
        old(cur).wf(),
    ensures
        final(cur).wf(),
        final(cur).source() == old(cur).source(),
        match r {
            Ok(pair) => {
                &&& has_bytes(old(cur).source(), old(cur).offset(), 23)
                &&& pair.0@ == lossy_text(
                    old(cur).source().subrange(old(cur).offset() + 1, old(cur).offset() + 17),
                )
                &&& pair.1@ == lossy_text(
                    old(cur).source().subrange(old(cur).offset() + 18, old(cur).offset() + 23),
                )
                &&& final(cur).offset() == old(cur).offset() + 23
            },
            Err(e) => {
                &&& !has_bytes(old(cur).source(), old(cur).offset(), 23)
                &&& e == DecodeError::TruncatedInput
            },
        },
{
    proof {
        cur.lemma_offset_in_range();
    }
    match cur.read_u8() {
        Ok(_) => {},
        Err(e) => {
            return Err(e);
        },
    }
    let version = match cur.read_exact(16) {
        Ok(bytes) => lossy_string(bytes.as_slice()),
        Err(e) => {
            return Err(e);
        },
    };
    match cur.read_u8() {
        Ok(_) => {},
        Err(e) => {
            return Err(e);
        },
    }
    let marker = match cur.read_exact(5) {
        Ok(bytes) => lossy_string(bytes.as_slice()),
        Err(e) => {
            return Err(e);
        },
    };
    Ok((version, marker))
}

/// Decodes the body of a chunk section: the preamble, then records until
/// something other than a record-start marker, or the end of the stream,
/// follows. The first error halts decoding; the records that were complete
/// by then come back with it.
pub fn parse_chunk_data(chunkdata: &Vec<u8>) -> (r: Result<ChunkData, ChunkFailure>)
    ensures
        match r {
            Ok(chunk) => decode_chunk(chunkdata@) == Ok::<ChunkDataView, ChunkFailureView>(chunk@),
            Err(failure) => decode_chunk(chunkdata@) == Err::<ChunkDataView, ChunkFailureView>(
                failure@,
            ),
        },
{
    let ghost data = chunkdata@;
    let mut cur = ByteCursor::new(chunkdata.as_slice());
    let (version, marker) = match decode_preamble(&mut cur) {
        Ok(pair) => pair,
        Err(error) => {
            assert(records_view(Seq::<ChunkRecord>::empty()) =~= Seq::<RecordView>::empty());
            return Err(ChunkFailure { error, record_index: 0, salvaged: Vec::new() });
        },
    };
    let mut records: Vec<ChunkRecord> = Vec::new();
    proof {
        assert(after(records_view(records@), records_at(data, 23)) =~= records_at(data, 23)) by {
            assert(records_view(records@) + records_at(data, 23).records =~= records_at(
                data,
                23,
            ).records);
        }
    }
    loop
        invariant
            cur.wf(),
            cur.source() == data,
            data == chunkdata@,
            data.len() >= 23,
            version@ == lossy_text(data.subrange(1, 17)),
            marker@ == lossy_text(data.subrange(18, 23)),
            records_at(data, 23) == after(records_view(records@), records_at(data, cur.offset())),
        decreases data.len() - cur.offset(),
    {
        let ghost pos = cur.offset();
        let ghost done = records_view(records@);
        proof {
            cur.lemma_offset_in_range();
            assert(done + Seq::<RecordView>::empty() =~= done);
        }
        match cur.next_byte() {
            Some(b) => {
                if b != RECORD_START {
                    return Ok(ChunkData { version, marker, records });
                }
            },
            None => {
                return Ok(ChunkData { version, marker, records });
            },
        }
        let record = match decode_record(&mut cur) {
            Ok(record) => record,
            Err(error) => {
                let record_index = records.len();
                return Err(ChunkFailure { error, record_index, salvaged: records });
            },
        };
        let ghost end = cur.offset();
        match cur.next_byte() {
            Some(b) => {
                if b != RECORD_END {
                    let record_index = records.len();
                    return Err(
                        ChunkFailure {
                            error: DecodeError::MalformedChunkTerminator,
                            record_index,
                            salvaged: records,
                        },
                    );
                }
            },
            None => {
                let record_index = records.len();
                return Err(
                    ChunkFailure {
                        error: DecodeError::TruncatedInput,
                        record_index,
                        salvaged: records,
                    },
                );
            },
        }
        proof {
            assert(records_view(records@.push(record)) =~= done.push(record@));
            assert(done + seq![record@] =~= done.push(record@));
            assert(done + (seq![record@] + records_at(data, end + 2).records) =~= done.push(
                record@,
            ) + records_at(data, end + 2).records);
        }
        records.push(record);
        match cur.next_byte() {
            Some(b) => {
                if b != RECORD_NEXT {
                    let record_index = records.len();
                    return Err(
                        ChunkFailure {
                            error: DecodeError::MalformedChunkTerminator,
                            record_index,
                            salvaged: records,
                        },
                    );
                }
            },
            None => {
                return Ok(ChunkData { version, marker, records });
            },
        }
    }
}

/// Bytes that the run-length loop reads for a payload of `remaining` bytes:
/// whole entries until the payload is covered.
pub open spec fn run_bytes_read(remaining: int) -> int {
    4 * ((remaining + 3) / 4)
}

/// A run-length payload whose length is no multiple of four is never
/// accepted: it is rejected as misaligned once the entries that cover it
/// have been read, and as truncated where the input ends before that.
pub proof fn lemma_misaligned_runs_rejected(data: Seq<u8>, pos: int, remaining: int)
    requires
        0 <= pos,
        remaining % 4 != 0,
    ensures
        runs_at(data, pos, remaining) == Err::<Seq<RunEntry>, DecodeError>(
            if remaining < 0 || has_bytes(data, pos, run_bytes_read(remaining)) {
                DecodeError::InvalidRunLengthPayload
            } else {
                DecodeError::TruncatedInput
            },
        ),
    decreases remaining + 4,
{
    if remaining > 0 && has_bytes(data, pos, 4) {
        lemma_misaligned_runs_rejected(data, pos + 4, remaining - 4);
    }
}

/// A run-length record whose declared length leaves a payload that is no
/// multiple of four fails, whatever its entries hold.
pub proof fn lemma_misaligned_record_rejected(data: Seq<u8>, pos: int)
    requires
        has_bytes(data, pos, 12),
        i32_at(data, pos) >= 8,
        data[pos + 11] == 9,
        (i32_at(data, pos) - 8) % 4 != 0,
    ensures
        record_at(data, pos) == Err::<(RecordView, int), DecodeError>(
            if has_bytes(data, pos + 12, run_bytes_read(i32_at(data, pos) - 8)) {
                DecodeError::InvalidRunLengthPayload
            } else {
                DecodeError::TruncatedInput
            },
        ),
{
    lemma_misaligned_runs_rejected(data, pos + 12, i32_at(data, pos) - 8);
}

/// A record whose tag is none of 0, 8 and 9 fails with that tag, and
/// decoding halts there: nothing after its header is read, and the records
/// before it are all that is kept.
pub proof fn lemma_unknown_tag_halts(data: Seq<u8>, pos: int)
    requires
        byte_at(data, pos) == Some(RECORD_START),
        has_bytes(data, pos + 1, 12),
        i32_at(data, pos + 1) >= 8,
        data[pos + 12] != 0 && data[pos + 12] != 8 && data[pos + 12] != 9,
    ensures
        record_at(data, pos + 1) == Err::<(RecordView, int), DecodeError>(
            DecodeError::UnknownChunkType(data[pos + 12]),
        ),
        records_at(data, pos) == (Outcome {
            records: Seq::empty(),
            error: Some(DecodeError::UnknownChunkType(data[pos + 12])),
        }),
{
}

} // verus!
