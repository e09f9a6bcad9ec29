use vstd::prelude::*;
use crate::ebml::{
    EbmlError, Varint, WriteError, be_bytes, element_encoding, encode_integer, encode_varint,
    encode_varint_4, to_vec, varint_4_encoding, varint_encoding,
};
use crate::error::WebmetroError;
use crate::webm::{
    CLUSTER_ID, TIMECODE_ID, WebmElement, encode_webm_element, webm_encoding, webm_writable,
};

verus! {

/// The bytes that open a cluster whose timecode is `t`: the cluster id, a
/// four-byte unknown size, then the timecode element with an eight-byte payload.
pub open spec fn cluster_head_encoding(t: u64) -> Seq<u8> {
    varint_encoding(Varint::Value(CLUSTER_ID)) + varint_4_encoding(Varint::Unknown)
        + element_encoding(TIMECODE_ID, be_bytes(t as nat, 8))
}

/// The start of a cluster: its timecode, the latest frame time seen in it, and
/// its serialized form.
#[derive(Debug, Clone, PartialEq, Eq)]
pub struct ClusterHead {
    pub start: u64,
    pub end: u64,
    pub bytes: Vec<u8>,
}

impl ClusterHead {
    /// The bytes of the cluster head.
    pub open spec fn serialized(&self) -> Seq<u8> {
        self.bytes@
    }

    /// A copy of the cluster head.
    pub fn duplicate(&self) -> (r: ClusterHead)
        ensures
            r.start == self.start,
            r.end == self.end,
            r.serialized() == self.serialized(),
    {
        ClusterHead { start: self.start, end: self.end, bytes: to_vec(self.bytes.as_slice()) }
    }

    /// The end lies at or after the start, and the bytes carry the start.
    pub open spec fn wf(&self) -> bool {
        &&& self.start <= self.end
        &&& self.serialized() == cluster_head_encoding(self.start)
    }

    fn encode(timecode: u64) -> (r: Vec<u8>)
        ensures
            r@ == cluster_head_encoding(timecode),
    {
        proof {
            reveal_with_fuel(crate::ebml::pow128, 8);
        }
        let mut bytes: Vec<u8> = Vec::new();
        let _ = encode_varint(Varint::Value(CLUSTER_ID), &mut bytes);
        let _ = encode_varint_4(Varint::Unknown, &mut bytes);
        let _ = encode_integer(TIMECODE_ID, timecode, &mut bytes);
        proof {
            assert(bytes@ =~= cluster_head_encoding(timecode));
        }
        bytes
    }

    /// A cluster head at `timecode` with no frame seen yet.
    pub fn new(timecode: u64) -> (r: ClusterHead)
        ensures
            r.wf(),
            r.start == timecode,
            r.end == timecode,
    {
        ClusterHead { start: timecode, end: timecode, bytes: Self::encode(timecode) }
    }

    /// Moves the cluster to start at `timecode`, keeping its duration (capped
    /// where the end would pass the largest timecode), and rewrites its bytes.
    pub fn update_timecode(&mut self, timecode: u64)
        requires
            old(self).wf(),
        ensures
            final(self).wf(),
            final(self).start == timecode,
            final(self).end == if timecode + (old(self).end - old(self).start) > u64::MAX {
                u64::MAX as int
            } else {
                timecode + (old(self).end - old(self).start)
            },
    {
        let delta = self.end - self.start;
        self.start = timecode;
        self.end = if delta > u64::MAX - timecode {
            u64::MAX
        } else {
            timecode + delta
        };
        self.bytes = Self::encode(timecode);
    }

    /// Takes note of a frame at `timecode` relative to the cluster start: a frame
    /// after the start moves the end there (capped at the largest timecode).
    pub fn observe_simpleblock_timecode(&mut self, timecode: i16)
        requires
            old(self).wf(),
        ensures
            final(self).wf(),
            final(self).start == old(self).start,
            final(self).end == if timecode > 0 {
                if old(self).start + timecode > u64::MAX {
                    u64::MAX as int
                } else {
                    old(self).start + timecode
                }
            } else {
                old(self).end as int
            },
    {
        if timecode > 0 {
            let t = timecode as u64;
            self.end = if t > u64::MAX - self.start {
                u64::MAX
            } else {
                self.start + t
            };
        }
    }

    /// The serialized cluster head.
    pub fn as_bytes(&self) -> (r: &[u8])
        ensures
            r@ == self.serialized(),
    {
        self.bytes.as_slice()
    }
}

/// A unit of fan-out.
#[derive(Debug, Clone, PartialEq, Eq)]
pub enum Chunk {
    /// everything from the stream start up to the first cluster
    Headers { bytes: Vec<u8> },
    /// the start of a cluster
    ClusterHead(ClusterHead),
    /// an element inside a cluster
    ClusterBody { bytes: Vec<u8> },
}

/// What a chunk is, without its bytes.
#[derive(Debug, Clone, Copy, PartialEq, Eq, Structural)]
pub enum ChunkKind {
    Headers,
    ClusterHead,
    ClusterBody,
}

impl Chunk {
    pub open spec fn kind(&self) -> ChunkKind {
        match self {
            Chunk::Headers { .. } => ChunkKind::Headers,
            Chunk::ClusterHead(_) => ChunkKind::ClusterHead,
            Chunk::ClusterBody { .. } => ChunkKind::ClusterBody,
        }
    }

    /// The bytes that a listener receives for the chunk.
    pub open spec fn serialized(&self) -> Seq<u8> {
        match self {
            Chunk::Headers { bytes } => bytes@,
            Chunk::ClusterHead(head) => head.serialized(),
            Chunk::ClusterBody { bytes } => bytes@,
        }
    }

    /// A cluster head in it is well formed.
    pub open spec fn wf(&self) -> bool {
        self matches Chunk::ClusterHead(head) ==> head.wf()
    }

    /// The bytes that a listener receives for the chunk.
    pub fn as_bytes(&self) -> (r: &[u8])
        ensures
            r@ == self.serialized(),
    {
        match self {
            Chunk::Headers { bytes } => bytes.as_slice(),
            Chunk::ClusterHead(head) => head.as_bytes(),
            Chunk::ClusterBody { bytes } => bytes.as_slice(),
        }
    }

    /// Whether the chunk is a header or a cluster head, where a listener may join.
    pub fn is_starting_point(&self) -> (r: bool)
        ensures
            r == (self.kind() != ChunkKind::ClusterBody),
    {
        !matches!(self, Chunk::ClusterBody { .. })
    }
}

/// Whether a sequence of chunk kinds has the shape
/// `Headers (ClusterHead ClusterBody*)*`, or a prefix of it: a header comes
/// first and never again, and a cluster head follows it.
pub open spec fn well_framed(s: Seq<ChunkKind>) -> bool {
    &&& forall|i: int| 0 <= i < s.len() ==> (#[trigger] s[i] == ChunkKind::Headers <==> i == 0)
    &&& s.len() > 1 ==> s[1] != ChunkKind::ClusterBody
}

} // verus!

verus! {

/// Where the chunker stands.
pub enum ChunkerState {
    /// collecting the serialized elements that precede the first cluster
    BuildingHeader(Vec<u8>),
    /// a cluster has begun; its timecode comes next
    EmittingClusterHead,
    /// inside a cluster that started as the given head
    EmittingBody(ClusterHead),
}

/// Groups WebM events into `Headers`, `ClusterHead` and `ClusterBody` chunks.
pub struct WebmChunker {
    pub state: ChunkerState,
    /// the kinds of the chunks emitted so far
    pub emitted: Ghost<Seq<ChunkKind>>,
}

/// The end that the cluster head held by the chunker has after a cluster event:
/// a frame after the cluster start moves it there (capped at the largest
/// timecode), so that the span of the cluster so far is known.
pub open spec fn end_after(head: ClusterHead, e: WebmElement) -> int {
    match e {
        WebmElement::SimpleBlock(b) => if b.timecode > 0 {
            if head.start + b.timecode > u64::MAX {
                u64::MAX as int
            } else {
                head.start + b.timecode
            }
        } else {
            head.end as int
        },
        _ => head.end as int,
    }
}

/// Whether the event is per-upload framing that is dropped once the header is built.
pub open spec fn is_framing(e: WebmElement) -> bool {
    e is EbmlHead || e is Segment
}

impl WebmChunker {
    /// The chunks emitted so far are framed, and the state agrees with them.
    pub open spec fn wf(&self) -> bool {
        &&& well_framed(self.emitted@)
        &&& match self.state {
            ChunkerState::BuildingHeader(_) => self.emitted@.len() == 0,
            ChunkerState::EmittingClusterHead => self.emitted@.len() > 0,
            ChunkerState::EmittingBody(head) => {
                &&& self.emitted@.len() > 0
                &&& self.emitted@.last() != ChunkKind::Headers
                &&& head.wf()
            },
        }
    }

    /// A chunker at the start of a stream.
    pub fn new() -> (r: WebmChunker)
        ensures
            r.wf(),
            r.emitted@ == Seq::<ChunkKind>::empty(),
            r.state matches ChunkerState::BuildingHeader(b) && b@.len() == 0,
    {
        WebmChunker { state: ChunkerState::BuildingHeader(Vec::new()), emitted: Ghost(Seq::empty()) }
    }

    /// Feeds one event, and returns the chunk that it completes, if any.
    ///
    /// Before the first cluster every event is serialized into the header; the
    /// first `Cluster` emits the header. After a `Cluster` its `Timecode` emits a
    /// cluster head. Inside a cluster each event that serializes to some bytes is
    /// emitted as a cluster body; EBML headers and segments are dropped there.
    pub fn push(&mut self, element: WebmElement) -> (r: Result<Option<Chunk>, WebmetroError>)
        requires
            old(self).wf(),
        ensures
            final(self).wf(),
            r matches Ok(Some(c)) ==> c.wf() && final(self).emitted@ == old(self).emitted@.push(
                c.kind(),
            ),
            !(r matches Ok(Some(_))) ==> final(self).emitted@ == old(self).emitted@,
            match old(self).state {
                ChunkerState::BuildingHeader(buf) => if element is Cluster {
                    &&& r matches Ok(Some(Chunk::Headers { bytes })) && bytes@ == buf@
                    &&& final(self).state is EmittingClusterHead
                } else if webm_writable(element) {
                    &&& r == Ok::<Option<Chunk>, WebmetroError>(None)
                    &&& final(self).state matches ChunkerState::BuildingHeader(b) && b@ == buf@
                        + webm_encoding(element)
                } else {
                    r == Err::<Option<Chunk>, WebmetroError>(
                        WebmetroError::WriteError { cause: WriteError::OutOfRange },
                    )
                },
                ChunkerState::EmittingClusterHead => if element is Timecode {
                    &&& r matches Ok(Some(Chunk::ClusterHead(h))) && h.start == element->Timecode_0
                        && h.end == h.start
                    &&& final(self).state matches ChunkerState::EmittingBody(h)
                        && h.start == element->Timecode_0 && h.end == h.start
                } else if is_framing(element) || element is Void || element is Unknown {
                    &&& r == Ok::<Option<Chunk>, WebmetroError>(None)
                    &&& final(self).state is EmittingClusterHead
                } else {
                    r == Err::<Option<Chunk>, WebmetroError>(
                        WebmetroError::EbmlError { source: EbmlError::CorruptPayload },
                    )
                },
                ChunkerState::EmittingBody(head) => if element is Cluster {
                    &&& r == Ok::<Option<Chunk>, WebmetroError>(None)
                    &&& final(self).state is EmittingClusterHead
                } else if is_framing(element) {
                    &&& r == Ok::<Option<Chunk>, WebmetroError>(None)
                    &&& final(self).state matches ChunkerState::EmittingBody(h) && h.start
                        == head.start && h.end == head.end
                } else if !webm_writable(element) {
                    &&& r == Err::<Option<Chunk>, WebmetroError>(
                        WebmetroError::WriteError { cause: WriteError::OutOfRange },
                    )
                    &&& final(self).state matches ChunkerState::EmittingBody(h) && h.start
                        == head.start && h.end == end_after(head, element)
                } else {
                    &&& if webm_encoding(element).len() == 0 {
                        r == Ok::<Option<Chunk>, WebmetroError>(None)
                    } else {
                        r matches Ok(Some(Chunk::ClusterBody { bytes })) && bytes@ == webm_encoding(
                            element,
                        )
                    }
                    &&& final(self).state matches ChunkerState::EmittingBody(h) && h.start
                        == head.start && h.end == end_after(head, element)
                },
            },
    {
        let mut state = ChunkerState::EmittingClusterHead;
        core::mem::swap(&mut self.state, &mut state);
        let ghost before = self.emitted@;
        let (next, r) = match state {
            ChunkerState::BuildingHeader(buffer) => Self::push_to_header(buffer, element),
            ChunkerState::EmittingClusterHead => Self::push_to_cluster_start(element),
            ChunkerState::EmittingBody(head) => Self::push_to_body(head, element),
        };
        self.state = next;
        if let Ok(Some(c)) = &r {
            proof {
                lemma_framed_push(before, c.kind());
                self.emitted@ = before.push(c.kind());
            }
        }
        r
    }

    fn push_to_header(buffer: Vec<u8>, element: WebmElement) -> (out: (
        ChunkerState,
        Result<Option<Chunk>, WebmetroError>,
    ))
        ensures
            out.1 matches Ok(Some(c)) ==> c is Headers,
            if element is Cluster {
                &&& out.1 matches Ok(Some(Chunk::Headers { bytes })) && bytes@ == buffer@
                &&& out.0 is EmittingClusterHead
            } else if webm_writable(element) {
                &&& out.1 == Ok::<Option<Chunk>, WebmetroError>(None)
                &&& out.0 matches ChunkerState::BuildingHeader(b) && b@ == buffer@ + webm_encoding(
                    element,
                )
            } else {
                &&& out.1 == Err::<Option<Chunk>, WebmetroError>(
                    WebmetroError::WriteError { cause: WriteError::OutOfRange },
                )
                &&& out.0 is BuildingHeader
            },
    {
        let mut buffer = buffer;
        if let WebmElement::Cluster = element {
            (ChunkerState::EmittingClusterHead, Ok(Some(Chunk::Headers { bytes: buffer })))
        } else {
            match encode_webm_element(&element, &mut buffer) {
                Ok(()) => (ChunkerState::BuildingHeader(buffer), Ok(None)),
                Err(e) => (ChunkerState::BuildingHeader(buffer), Err(WebmetroError::WriteError { cause: e })),
            }
        }
    }

    fn push_to_cluster_start(element: WebmElement) -> (out: (
        ChunkerState,
        Result<Option<Chunk>, WebmetroError>,
    ))
        ensures
            out.1 matches Ok(Some(c)) ==> c is ClusterHead && c.wf(),
            if element is Timecode {
                &&& out.1 matches Ok(Some(Chunk::ClusterHead(h))) && h.start == element->Timecode_0
                    && h.end == h.start
                &&& out.0 matches ChunkerState::EmittingBody(h) && h.start == element->Timecode_0
                    && h.end == h.start && h.wf()
            } else if is_framing(element) || element is Void || element is Unknown {
                &&& out.1 == Ok::<Option<Chunk>, WebmetroError>(None)
                &&& out.0 is EmittingClusterHead
            } else {
                &&& out.1 == Err::<Option<Chunk>, WebmetroError>(
                    WebmetroError::EbmlError { source: EbmlError::CorruptPayload },
                )
                &&& out.0 is EmittingClusterHead
            },
    {
        match element {
            WebmElement::Timecode(t) => {
                let head = ClusterHead::new(t);
                let out = head.duplicate();
                (ChunkerState::EmittingBody(head), Ok(Some(Chunk::ClusterHead(out))))
            },
            WebmElement::EbmlHead | WebmElement::Segment | WebmElement::Void
            | WebmElement::Unknown(_, _) => (ChunkerState::EmittingClusterHead, Ok(None)),
            _ => (
                ChunkerState::EmittingClusterHead,
                Err(WebmetroError::EbmlError { source: EbmlError::CorruptPayload }),
            ),
        }
    }

    fn push_to_body(head: ClusterHead, element: WebmElement) -> (out: (
        ChunkerState,
        Result<Option<Chunk>, WebmetroError>,
    ))
        requires
            head.wf(),
        ensures
            out.1 matches Ok(Some(c)) ==> c is ClusterBody,
            out.0 is EmittingBody ==> out.0->EmittingBody_0.wf(),
            if element is Cluster {
                &&& out.1 == Ok::<Option<Chunk>, WebmetroError>(None)
                &&& out.0 is EmittingClusterHead
            } else if is_framing(element) {
                &&& out.1 == Ok::<Option<Chunk>, WebmetroError>(None)
                &&& out.0 matches ChunkerState::EmittingBody(h) && h.start == head.start
                    && h.end == head.end
            } else if !webm_writable(element) {
                &&& out.1 == Err::<Option<Chunk>, WebmetroError>(
                    WebmetroError::WriteError { cause: WriteError::OutOfRange },
                )
                &&& out.0 matches ChunkerState::EmittingBody(h) && h.start == head.start
                    && h.end == end_after(head, element)
            } else {
                &&& if webm_encoding(element).len() == 0 {
                    out.1 == Ok::<Option<Chunk>, WebmetroError>(None)
                } else {
                    out.1 matches Ok(Some(Chunk::ClusterBody { bytes })) && bytes@ == webm_encoding(
                        element,
                    )
                }
                &&& out.0 matches ChunkerState::EmittingBody(h) && h.start == head.start
                    && h.end == end_after(head, element)
            },
    {
        let mut head = head;
        match element {
            WebmElement::Cluster => (ChunkerState::EmittingClusterHead, Ok(None)),
            WebmElement::EbmlHead | WebmElement::Segment => (ChunkerState::EmittingBody(head), Ok(None)),
            _ => {
                if let WebmElement::SimpleBlock(b) = &element {
                    head.observe_simpleblock_timecode(b.timecode);
                }
                let mut bytes: Vec<u8> = Vec::new();
                let written = encode_webm_element(&element, &mut bytes);
                match written {
                    Err(e) => (ChunkerState::EmittingBody(head), Err(WebmetroError::WriteError { cause: e })),
                    Ok(()) => {
                        if bytes.len() == 0 {
                            (ChunkerState::EmittingBody(head), Ok(None))
                        } else {
                            (ChunkerState::EmittingBody(head), Ok(Some(Chunk::ClusterBody { bytes })))
                        }
                    },
                }
            },
        }
    }
}

/// In what a chunker has emitted, every cluster body comes after a cluster
/// head, and every cluster head comes after exactly one header.
pub proof fn lemma_chunker_output_aligned(chunker: &WebmChunker)
    requires
        chunker.wf(),
    ensures
        forall|i: int|
            0 <= i < chunker.emitted@.len() && #[trigger] chunker.emitted@[i] == ChunkKind::ClusterBody
                ==> exists|j: int| 0 <= j < i && chunker.emitted@[j] == ChunkKind::ClusterHead,
        forall|i: int|
            0 <= i < chunker.emitted@.len() && #[trigger] chunker.emitted@[i] == ChunkKind::ClusterHead
                ==> chunker.emitted@[0] == ChunkKind::Headers && forall|j: int|
                0 < j < chunker.emitted@.len() ==> #[trigger] chunker.emitted@[j]
                    != ChunkKind::Headers,
{
    let s = chunker.emitted@;
    assert forall|i: int| 0 <= i < s.len() && #[trigger] s[i] == ChunkKind::ClusterBody implies exists|j: int|
        0 <= j < i && s[j] == ChunkKind::ClusterHead by {
        assert(s[1] == ChunkKind::ClusterHead);
    }
}

/// A chunk may follow a framed sequence where it keeps the sequence framed.
pub proof fn lemma_framed_push(s: Seq<ChunkKind>, k: ChunkKind)
    requires
        well_framed(s),
        k == ChunkKind::Headers ==> s.len() == 0,
        k != ChunkKind::Headers ==> s.len() > 0,
        k == ChunkKind::ClusterBody ==> s.last() != ChunkKind::Headers,
    ensures
        well_framed(s.push(k)),
{
    let t = s.push(k);
    assert forall|i: int| 0 <= i < t.len() implies (#[trigger] t[i] == ChunkKind::Headers <==> i == 0) by {
        if i < s.len() {
            assert(t[i] == s[i]);
        }
    }
}

} // verus!

verus! {

/// Whether two chunks are the same chunk: same kind, same bytes, same timecodes.
pub open spec fn same_chunk(a: Chunk, b: Chunk) -> bool {
    &&& a.kind() == b.kind()
    &&& a.serialized() == b.serialized()
    &&& a matches Chunk::ClusterHead(h) ==> b matches Chunk::ClusterHead(g) && h.start == g.start
        && h.end == g.end
}

impl Chunk {
    /// A copy of the chunk.
    pub fn duplicate(&self) -> (r: Chunk)
        ensures
            same_chunk(r, *self),
            self.wf() ==> r.wf(),
    {
        match self {
            Chunk::Headers { bytes } => Chunk::Headers { bytes: to_vec(bytes.as_slice()) },
            Chunk::ClusterHead(head) => Chunk::ClusterHead(head.duplicate()),
            Chunk::ClusterBody { bytes } => Chunk::ClusterBody { bytes: to_vec(bytes.as_slice()) },
        }
    }
}

} // verus!
