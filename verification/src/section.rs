use crate::cursor::ByteCursor;
use crate::error::DecodeError;
use crate::text::{lossy_string, lossy_text};
use vstd::prelude::*;
use vstd::utf8::{decode_utf8, decode_utf8_encode_utf8, encode_utf8, valid_utf8};

verus! {

/// The byte that opens a section header (`[`).
pub const HEADER_OPEN: u8 = 0x5B;

/// The byte that closes a section header (`]`).
pub const HEADER_CLOSE: u8 = 0x5D;

/// A named region of the file. The name is empty for bytes that stand before
/// the first header.
#[derive(Debug, PartialEq, Eq)]
pub struct Section {
    pub name: String,
    pub data: Vec<u8>,
}

/// A section as plain sequences.
pub struct SectionView {
    pub name: Seq<char>,
    pub data: Seq<u8>,
}

impl View for Section {
    type V = SectionView;

    open spec fn view(&self) -> SectionView {
        SectionView { name: self.name@, data: self.data@ }
    }
}

/// The sections of a vector, each by its view.
pub open spec fn sections_view(sections: Seq<Section>) -> Seq<SectionView> {
    sections.map_values(|s: Section| s@)
}

/// A stretch of the file as the splitter cuts it: the raw bytes of the header
/// name, or `None` for what precedes the first header, and the bytes up to
/// the next header.
pub struct Frame {
    pub name: Option<Seq<u8>>,
    pub body: Seq<u8>,
}

/// The frames of the input from `pos` on, the first of them being the one
/// under way: `name` and `body` hold what has been read of it, and
/// `in_header` says whether its name is still open.
pub open spec fn scan(
    data: Seq<u8>,
    pos: int,
    in_header: bool,
    name: Option<Seq<u8>>,
    body: Seq<u8>,
) -> Result<Seq<Frame>, DecodeError>
    decreases data.len() - pos,
{
    if pos < 0 || pos >= data.len() {
        if in_header {
            Err(DecodeError::UnterminatedHeader)
        } else {
            Ok(seq![Frame { name, body }])
        }
    } else if in_header {
        if data[pos] == HEADER_CLOSE {
            scan(data, pos + 1, false, name, body)
        } else {
            scan(data, pos + 1, true, Some(name.unwrap_or(Seq::empty()).push(data[pos])), body)
        }
    } else if data[pos] == HEADER_OPEN {
        match scan(data, pos + 1, true, Some(Seq::empty()), Seq::empty()) {
            Ok(rest) => Ok(seq![Frame { name, body }] + rest),
            Err(e) => Err(e),
        }
    } else {
        scan(data, pos + 1, false, name, body.push(data[pos]))
    }
}

/// The frames of a whole file.
pub open spec fn split_frames(data: Seq<u8>) -> Result<Seq<Frame>, DecodeError> {
    scan(data, 0, false, None, Seq::empty())
}

/// The section name that a frame's header spells.
pub open spec fn name_text(name: Option<Seq<u8>>) -> Seq<char> {
    match name {
        Some(raw) => lossy_text(raw),
        None => Seq::empty(),
    }
}

/// A frame becomes a section unless both its name and its body are empty.
pub open spec fn is_kept(frame: Frame) -> bool {
    name_text(frame.name).len() > 0 || frame.body.len() > 0
}

/// The section made of a frame: its name decoded, its body as it is.
pub open spec fn section_of(frame: Frame) -> SectionView {
    SectionView { name: name_text(frame.name), data: frame.body }
}

/// The sections that frames give, in order, the empty ones left out.
pub open spec fn sections_of(frames: Seq<Frame>) -> Seq<SectionView>
    decreases frames.len(),
{
    if frames.len() == 0 {
        Seq::empty()
    } else if is_kept(frames.last()) {
        sections_of(frames.drop_last()).push(section_of(frames.last()))
    } else {
        sections_of(frames.drop_last())
    }
}

/// `rest` with the frames `done` in front.
pub open spec fn frames_after(done: Seq<Frame>, rest: Result<Seq<Frame>, DecodeError>) -> Result<
    Seq<Frame>,
    DecodeError,
> {
    match rest {
        Ok(frames) => Ok(done + frames),
        Err(e) => Err(e),
    }
}

/// Every section has a name or a body.
pub proof fn lemma_sections_not_empty(frames: Seq<Frame>)
    ensures
        forall|i: int|
            0 <= i < sections_of(frames).len() ==> {
                let section = #[trigger] sections_of(frames)[i];
                section.name.len() > 0 || section.data.len() > 0
            },
    decreases frames.len(),
{
    if frames.len() > 0 {
        lemma_sections_not_empty(frames.drop_last());
        let init = sections_of(frames.drop_last());
        assert forall|i: int| 0 <= i < sections_of(frames).len() implies {
            let section = #[trigger] sections_of(frames)[i];
            section.name.len() > 0 || section.data.len() > 0
        } by {
            if i < init.len() {
                assert(sections_of(frames)[i] == init[i]);
            }
        }
    }
}

/// Splits a file into its sections, in file order. A header that the input
/// ends in the middle of is an error; nothing else is. No section comes back
/// with both its name and its body empty.
pub fn parse_section(input: &[u8]) -> (r: Result<Vec<Section>, DecodeError>)
    ensures
        match split_frames(input@) {
            Ok(frames) => r is Ok && sections_view(r->Ok_0@) == sections_of(frames),
            Err(e) => r is Err && r->Err_0 == e,
        },
        r matches Ok(sections) ==> forall|i: int|
            0 <= i < sections@.len() ==> (#[trigger] sections@[i]).name@.len() > 0
                || sections@[i].data@.len() > 0,
{
    let mut cur = ByteCursor::new(input);
    let mut out: Vec<Section> = Vec::new();
    let mut in_header = false;
    let mut name = String::new();
    let mut name_buf: Vec<u8> = Vec::new();
    let mut body: Vec<u8> = Vec::new();
    let ghost mut pending: Option<Seq<u8>> = None;
    let ghost mut done: Seq<Frame> = Seq::empty();
    proof {
        assert(sections_view(out@) =~= sections_of(done));
        match split_frames(input@) {
            Ok(frames) => {
                assert(done + frames =~= frames);
            },
            Err(_) => {},
        }
    }
    loop
        invariant
            cur.wf(),
            cur.source() == input@,
            in_header ==> pending == Some(name_buf@) && body@.len() == 0,
            !in_header ==> name@ == name_text(pending),
            sections_view(out@) == sections_of(done),
            split_frames(input@) == frames_after(
                done,
                scan(input@, cur.offset(), in_header, pending, body@),
            ),
        decreases input@.len() - cur.offset(),
    {
        proof {
            cur.lemma_offset_in_range();
        }
        let ghost frame = Frame { name: pending, body: body@ };
        let ghost before = sections_view(out@);
        match cur.next_byte() {
            None => {
                if in_header {
                    return Err(DecodeError::UnterminatedHeader);
                }
                if !name.as_str().is_empty() || body.len() > 0 {
                    out.push(Section { name, data: body });
                }
                proof {
                    assert(done.push(frame).drop_last() =~= done);
                    assert(done + seq![frame] =~= done.push(frame));
                    assert(sections_view(out@) =~= sections_of(done.push(frame)));
                    lemma_sections_not_empty(done.push(frame));
                    assert forall|i: int| 0 <= i < out@.len() implies (#[trigger] out@[i]).name@.len()
                        > 0 || out@[i].data@.len() > 0 by {
                        assert(sections_view(out@)[i] == out@[i]@);
                    }
                }
                return Ok(out);
            },
            Some(b) => {
                if in_header {
                    if b == HEADER_CLOSE {
                        name = lossy_string(name_buf.as_slice());
                        in_header = false;
                    } else {
                        name_buf.push(b);
                        proof {
                            pending = Some(name_buf@);
                        }
                    }
                } else if b == HEADER_OPEN {
                    if !name.as_str().is_empty() || body.len() > 0 {
                        out.push(Section { name, data: body });
                    }
                    proof {
                        assert(done.push(frame).drop_last() =~= done);
                        assert(sections_view(out@) =~= sections_of(done.push(frame)));
                        match scan(input@, cur.offset(), true, Some(Seq::empty()), Seq::empty()) {
                            Ok(rest) => {
                                assert(done + (seq![frame] + rest) =~= done.push(frame) + rest);
                            },
                            Err(_) => {},
                        }
                        done = done.push(frame);
                        pending = Some(Seq::empty());
                    }
                    name = String::new();
                    name_buf = Vec::new();
                    body = Vec::new();
                    in_header = true;
                } else {
                    body.push(b);
                }
            },
        }
    }
}

/// The bytes that a frame was cut from: its header in brackets, if it has
/// one, then its body.
pub open spec fn render(frame: Frame) -> Seq<u8> {
    match frame.name {
        Some(name) => seq![HEADER_OPEN] + name + seq![HEADER_CLOSE] + frame.body,
        None => frame.body,
    }
}

/// The frames written out one after another.
pub open spec fn join(frames: Seq<Frame>) -> Seq<u8>
    decreases frames.len(),
{
    if frames.len() == 0 {
        Seq::empty()
    } else {
        render(frames[0]) + join(frames.skip(1))
    }
}

/// What has been read of the frame under way, as it stood in the input.
pub open spec fn pending_bytes(in_header: bool, name: Option<Seq<u8>>, body: Seq<u8>) -> Seq<u8> {
    if in_header {
        seq![HEADER_OPEN] + name.unwrap_or(Seq::empty())
    } else {
        render(Frame { name, body })
    }
}

/// From any state of the splitter, the frames it goes on to cut write out to
/// what it has read of the frame under way followed by the rest of the input.
pub proof fn lemma_scan_round_trip(
    data: Seq<u8>,
    pos: int,
    in_header: bool,
    name: Option<Seq<u8>>,
    body: Seq<u8>,
)
    requires
        0 <= pos <= data.len(),
        in_header ==> name is Some && body.len() == 0,
        scan(data, pos, in_header, name, body) is Ok,
    ensures
        join(scan(data, pos, in_header, name, body)->Ok_0) == pending_bytes(in_header, name, body)
            + data.subrange(pos, data.len() as int),
    decreases data.len() - pos,
{
    let frames = scan(data, pos, in_header, name, body)->Ok_0;
    let tail = data.subrange(pos, data.len() as int);
    let frame = Frame { name, body };
    if pos >= data.len() {
        assert(frames.skip(1) =~= Seq::empty());
        assert(join(frames.skip(1)) =~= Seq::empty());
        assert(join(frames) =~= render(frame));
        assert(render(frame) + tail =~= render(frame));
    } else {
        let next_tail = data.subrange(pos + 1, data.len() as int);
        assert(tail =~= seq![data[pos]] + next_tail);
        if in_header {
            if data[pos] == HEADER_CLOSE {
                lemma_scan_round_trip(data, pos + 1, false, name, body);
                assert(render(frame) + next_tail =~= pending_bytes(true, name, body) + tail);
            } else {
                let longer = Some(name.unwrap().push(data[pos]));
                lemma_scan_round_trip(data, pos + 1, true, longer, body);
                assert(pending_bytes(true, longer, body) + next_tail =~= pending_bytes(
                    true,
                    name,
                    body,
                ) + tail);
            }
        } else if data[pos] == HEADER_OPEN {
            let rest = scan(data, pos + 1, true, Some(Seq::empty()), Seq::empty())->Ok_0;
            lemma_scan_round_trip(data, pos + 1, true, Some(Seq::empty()), Seq::empty());
            assert(frames.skip(1) =~= rest);
            assert(frames[0] == frame);
            assert(pending_bytes(true, Some(Seq::empty()), Seq::empty()) + next_tail =~= tail);
        } else {
            lemma_scan_round_trip(data, pos + 1, false, name, body.push(data[pos]));
            assert(render(Frame { name, body: body.push(data[pos]) }) + next_tail =~= render(frame)
                + tail);
        }
    }
}

/// Round trip: wherever a file splits at all, writing its frames out one
/// after another, each header in its brackets before its body, gives the
/// file back byte for byte. The sections are these frames without those
/// whose name and body are both empty.
pub proof fn lemma_split_round_trip(data: Seq<u8>)
    requires
        split_frames(data) is Ok,
    ensures
        join(split_frames(data)->Ok_0) == data,
{
    lemma_scan_round_trip(data, 0, false, None, Seq::empty());
    assert(Seq::<u8>::empty() + data.subrange(0, data.len() as int) =~= data);
}

/// A frame whose header, if it has one, spells a name that is not empty and
/// is valid UTF-8.
pub open spec fn plainly_named(frame: Frame) -> bool {
    match frame.name {
        Some(name) => name.len() > 0 && valid_utf8(name),
        None => true,
    }
}

/// The bytes that a section stands for: its name in brackets, unless it has
/// none, then its data.
pub open spec fn render_section(section: SectionView) -> Seq<u8> {
    if section.name.len() == 0 {
        section.data
    } else {
        seq![HEADER_OPEN] + encode_utf8(section.name) + seq![HEADER_CLOSE] + section.data
    }
}

/// The sections written out one after another.
pub open spec fn join_sections(sections: Seq<SectionView>) -> Seq<u8>
    decreases sections.len(),
{
    if sections.len() == 0 {
        Seq::empty()
    } else {
        join_sections(sections.drop_last()) + render_section(sections.last())
    }
}

/// Writing out one more frame adds its bytes at the end.
pub proof fn lemma_join_push(frames: Seq<Frame>, frame: Frame)
    ensures
        join(frames.push(frame)) == join(frames) + render(frame),
    decreases frames.len(),
{
    let longer = frames.push(frame);
    if frames.len() == 0 {
        assert(longer.skip(1) =~= Seq::empty());
        assert(join(longer.skip(1)) =~= Seq::empty());
        assert(join(longer) =~= join(frames) + render(frame));
    } else {
        lemma_join_push(frames.skip(1), frame);
        assert(longer.skip(1) =~= frames.skip(1).push(frame));
        assert(join(longer) =~= join(frames) + render(frame));
    }
}

/// A plainly named frame and the section made of it, if one is made, stand
/// for the same bytes.
pub proof fn lemma_frame_section_bytes(frame: Frame)
    requires
        plainly_named(frame),
    ensures
        is_kept(frame) ==> render_section(section_of(frame)) == render(frame),
        !is_kept(frame) ==> render(frame) == Seq::<u8>::empty(),
{
    match frame.name {
        Some(name) => {
            decode_utf8_encode_utf8(name);
            if decode_utf8(name).len() == 0 {
                assert(encode_utf8(decode_utf8(name)) =~= Seq::empty());
            }
        },
        None => {
            if !is_kept(frame) {
                assert(frame.body =~= Seq::empty());
            }
        },
    }
}

/// Where every frame is plainly named, the sections write out to the same
/// bytes as the frames.
pub proof fn lemma_sections_join(frames: Seq<Frame>)
    requires
        forall|i: int| 0 <= i < frames.len() ==> plainly_named(#[trigger] frames[i]),
    ensures
        join_sections(sections_of(frames)) == join(frames),
    decreases frames.len(),
{
    if frames.len() > 0 {
        let init = frames.drop_last();
        let last = frames.last();
        lemma_sections_join(init);
        lemma_frame_section_bytes(last);
        lemma_join_push(init, last);
        assert(init.push(last) =~= frames);
        if is_kept(last) {
            assert(sections_of(frames).drop_last() =~= sections_of(init));
        } else {
            assert(join(init) + render(last) =~= join(init));
        }
    }
}

/// Round trip on sections: where every header of a file spells a name that
/// is not empty and is valid UTF-8, writing the sections out one after
/// another, each name in its brackets before its data, gives the file back
/// byte for byte. All that splitting leaves out is an empty stretch before
/// the first header.
pub proof fn lemma_sections_round_trip(data: Seq<u8>)
    requires
        split_frames(data) is Ok,
        forall|i: int|
            0 <= i < (split_frames(data)->Ok_0).len() ==> plainly_named(
                #[trigger] (split_frames(data)->Ok_0)[i],
            ),
    ensures
        join_sections(sections_of(split_frames(data)->Ok_0)) == data,
{
    lemma_split_round_trip(data);
    lemma_sections_join(split_frames(data)->Ok_0);
}

} // verus!
