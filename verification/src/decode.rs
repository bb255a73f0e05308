use crate::chunk::{decode_chunk, parse_chunk_data, ChunkData, ChunkDataView, ChunkFailure, ChunkFailureView};
use crate::entry::{decode_body, decode_entries, distinct_keys, entries_map, entries_view, Entry, ValueView};
use crate::section::Section;
use vstd::prelude::*;

verus! {

/// How the body of a section is to be read. The file does not say; the
/// caller chooses by the section's name.
#[derive(Clone, Copy, Debug, PartialEq, Eq, Structural)]
pub enum DecodeMode {
    /// Lines of key and value.
    Entries,
    /// A preamble and chunk records.
    Chunks,
}

/// A section's body, decoded.
#[derive(Debug, PartialEq, Eq)]
pub enum SectionContent {
    Entries(Vec<Entry>),
    Chunks(ChunkData),
}

/// A chunk section that failed to decode, with the section's name.
#[derive(Debug, PartialEq, Eq)]
pub struct SectionFailure {
    pub section: String,
    pub failure: ChunkFailure,
}

/// Decoded content as plain values.
pub enum ContentView {
    Entries(Map<Seq<char>, ValueView>),
    Chunks(ChunkDataView),
}

impl View for SectionContent {
    type V = ContentView;

    open spec fn view(&self) -> ContentView {
        match self {
            SectionContent::Entries(items) => ContentView::Entries(
                entries_map(entries_view(items@)),
            ),
            SectionContent::Chunks(chunk) => ContentView::Chunks(chunk@),
        }
    }
}

/// What a body decodes to in a given mode. Entries always decode; chunk
/// records may fail.
pub open spec fn decode_content(data: Seq<u8>, mode: DecodeMode) -> Result<
    ContentView,
    ChunkFailureView,
> {
    match mode {
        DecodeMode::Entries => Ok(ContentView::Entries(decode_body(data))),
        DecodeMode::Chunks => match decode_chunk(data) {
            Ok(chunk) => Ok(ContentView::Chunks(chunk)),
            Err(failure) => Err(failure),
        },
    }
}

/// Decodes the body of a section in the mode that the caller names. A
/// failure carries the name of the section it happened in.
pub fn decode_section(section: &Section, mode: DecodeMode) -> (r: Result<
    SectionContent,
    SectionFailure,
>)
    ensures
        match r {
            Ok(content) => {
                &&& decode_content(section.data@, mode) == Ok::<ContentView, ChunkFailureView>(
                    content@,
                )
                &&& content matches SectionContent::Entries(items) ==> distinct_keys(
                    entries_view(items@),
                )
            },
            Err(failed) => {
                &&& failed.section@ == section.name@
                &&& decode_content(section.data@, mode) == Err::<ContentView, ChunkFailureView>(
                    failed.failure@,
                )
            },
        },
{
    match mode {
        DecodeMode::Entries => Ok(SectionContent::Entries(decode_entries(section.data.as_slice()))),
        DecodeMode::Chunks => match parse_chunk_data(&section.data) {
            Ok(chunk) => Ok(SectionContent::Chunks(chunk)),
            Err(failure) => Err(SectionFailure { section: section.name.clone(), failure }),
        },
    }
}

} // verus!
