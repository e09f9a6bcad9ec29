use vstd::prelude::*;
use crate::ebml::{
    EbmlError, FromEbml, Varint, WriteError, EBML_HEAD_ID, DOC_TYPE_ID, VOID_ID, be_bytes,
    be_concat, decode_uint, decode_varint, element_encoding, encodable, encode_bytes,
    encode_element, encode_integer, encode_tag_header, encode_varint, push_all, push_be,
    slice_from, to_vec, varint_4_encoding, varint_encoding, varint_result,
};

verus! {

pub const SEGMENT_ID: u64 = 0x08538067;

pub const SEEK_HEAD_ID: u64 = 0x014D9B74;

pub const INFO_ID: u64 = 0x0549A966;

pub const TRACKS_ID: u64 = 0x0654AE6B;

pub const CLUSTER_ID: u64 = 0x0F43B675;

pub const TIMECODE_ID: u64 = 0x67;

pub const SIMPLE_BLOCK_ID: u64 = 0x23;

/// A media frame.
#[derive(Debug, Clone, PartialEq, Eq)]
pub struct SimpleBlock {
    pub track: u64,
    /// relative to the timecode of the cluster
    pub timecode: i16,
    pub flags: u8,
    pub data: Vec<u8>,
}

/// The WebM events that the relay tells apart.
#[derive(Debug, Clone, PartialEq, Eq)]
pub enum WebmElement {
    EbmlHead,
    Void,
    Segment,
    SeekHead,
    Info,
    Tracks(Vec<u8>),
    Cluster,
    Timecode(u64),
    SimpleBlock(SimpleBlock),
    Unknown(u64, Vec<u8>),
}

/// The WebM schema.
#[derive(Debug, Clone, Copy, PartialEq, Eq)]
pub struct Webm;

/// Two bytes read as a big-endian two's complement number.
pub open spec fn be_i16(hi: u8, lo: u8) -> int {
    let v = hi as int * 256 + lo as int;
    if v >= 0x8000 {
        v - 0x10000
    } else {
        v
    }
}

/// Whether `r` is what decoding a SimpleBlock payload gives: a track number
/// varint, a signed 16-bit big-endian relative timecode, a flags byte, then the frame.
pub open spec fn simple_block_decodes_as(bytes: Seq<u8>, r: Result<WebmElement, EbmlError>) -> bool {
    match varint_result(bytes) {
        Ok(Some((Varint::Value(track), n))) => {
            if n + 3 > bytes.len() {
                r == Err::<WebmElement, EbmlError>(EbmlError::CorruptPayload)
            } else {
                match r {
                    Ok(WebmElement::SimpleBlock(b)) => b.track == track && b.timecode == be_i16(
                        bytes[n as int],
                        bytes[n + 1],
                    ) && b.flags == bytes[n + 2] && b.data@ == bytes.subrange(
                        n + 3,
                        bytes.len() as int,
                    ),
                    _ => false,
                }
            }
        },
        _ => r == Err::<WebmElement, EbmlError>(EbmlError::CorruptPayload),
    }
}

/// Whether the id is one of a container whose children are parsed as events of their own.
pub open spec fn webm_unwraps(element_id: u64) -> bool {
    element_id == SEGMENT_ID || element_id == CLUSTER_ID
}

fn decode_simple_block(bytes: &[u8]) -> (r: Result<WebmElement, EbmlError>)
    ensures
        simple_block_decodes_as(bytes@, r),
{
    match decode_varint(bytes) {
        Ok(Some((Varint::Value(track), n))) => {
            if bytes.len() < 3 || n > bytes.len() - 3 {
                return Err(EbmlError::CorruptPayload);
            }
            let hi = bytes[n];
            let lo = bytes[n + 1];
            let v: u16 = hi as u16 * 256 + lo as u16;
            let timecode: i16 = if v >= 0x8000 {
                (v as i32 - 0x10000) as i16
            } else {
                v as i16
            };
            let data = to_vec(slice_from(bytes, n + 3));
            Ok(WebmElement::SimpleBlock(SimpleBlock { track, timecode, flags: bytes[n + 2], data }))
        },
        _ => Err(EbmlError::CorruptPayload),
    }
}

/// Whether `r` is what decoding a WebM element with this id and payload gives.
pub open spec fn webm_decodes_as(element_id: u64, bytes: Seq<u8>, r: Result<WebmElement, EbmlError>) -> bool {
    if element_id == EBML_HEAD_ID {
        r == Ok::<WebmElement, EbmlError>(WebmElement::EbmlHead)
    } else if element_id == VOID_ID {
        r == Ok::<WebmElement, EbmlError>(WebmElement::Void)
    } else if element_id == SEGMENT_ID {
        r == Ok::<WebmElement, EbmlError>(WebmElement::Segment)
    } else if element_id == SEEK_HEAD_ID {
        r == Ok::<WebmElement, EbmlError>(WebmElement::SeekHead)
    } else if element_id == INFO_ID {
        r == Ok::<WebmElement, EbmlError>(WebmElement::Info)
    } else if element_id == TRACKS_ID {
        r matches Ok(WebmElement::Tracks(d)) && d@ == bytes
    } else if element_id == CLUSTER_ID {
        r == Ok::<WebmElement, EbmlError>(WebmElement::Cluster)
    } else if element_id == TIMECODE_ID {
        if 1 <= bytes.len() <= 8 {
            r == Ok::<WebmElement, EbmlError>(WebmElement::Timecode(be_concat(0, bytes) as u64))
        } else {
            r == Err::<WebmElement, EbmlError>(EbmlError::CorruptPayload)
        }
    } else if element_id == SIMPLE_BLOCK_ID {
        simple_block_decodes_as(bytes, r)
    } else {
        r matches Ok(WebmElement::Unknown(id, d)) && id == element_id && d@ == bytes
    }
}

impl FromEbml for WebmElement {
    open spec fn unwraps(element_id: u64) -> bool {
        webm_unwraps(element_id)
    }

    open spec fn decodes_as(
        element_id: u64,
        bytes: Seq<u8>,
        r: Result<WebmElement, EbmlError>,
    ) -> bool {
        webm_decodes_as(element_id, bytes, r)
    }

    fn should_unwrap(element_id: u64) -> (r: bool) {
        element_id == SEGMENT_ID || element_id == CLUSTER_ID
    }

    fn decode(element_id: u64, bytes: &[u8]) -> (r: Result<WebmElement, EbmlError>) {
        if element_id == EBML_HEAD_ID {
            Ok(WebmElement::EbmlHead)
        } else if element_id == VOID_ID {
            Ok(WebmElement::Void)
        } else if element_id == SEGMENT_ID {
            Ok(WebmElement::Segment)
        } else if element_id == SEEK_HEAD_ID {
            Ok(WebmElement::SeekHead)
        } else if element_id == INFO_ID {
            Ok(WebmElement::Info)
        } else if element_id == TRACKS_ID {
            Ok(WebmElement::Tracks(to_vec(bytes)))
        } else if element_id == CLUSTER_ID {
            Ok(WebmElement::Cluster)
        } else if element_id == TIMECODE_ID {
            match decode_uint(bytes) {
                Ok(t) => Ok(WebmElement::Timecode(t)),
                Err(e) => Err(e),
            }
        } else if element_id == SIMPLE_BLOCK_ID {
            decode_simple_block(bytes)
        } else {
            Ok(WebmElement::Unknown(element_id, to_vec(bytes)))
        }
    }
}

/// The document type element that a re-written EBML header holds.
pub open spec fn doc_type_webm() -> Seq<u8> {
    element_encoding(DOC_TYPE_ID, seq![0x77u8, 0x65, 0x62, 0x6d])
}

/// The payload of a SimpleBlock element.
pub open spec fn simple_block_payload(b: SimpleBlock) -> Seq<u8> {
    varint_encoding(Varint::Value(b.track)) + be_bytes(
        (if b.timecode < 0 {
            b.timecode + 0x10000
        } else {
            b.timecode as int
        }) as nat,
        2,
    ).push(b.flags) + b.data@
}

/// Whether `encode_webm_element` can write the element.
pub open spec fn webm_writable(element: WebmElement) -> bool {
    match element {
        WebmElement::Tracks(d) => encodable(Varint::Value(d@.len() as u64)),
        WebmElement::SimpleBlock(b) => encodable(Varint::Value(b.track)) && encodable(
            Varint::Value(simple_block_payload(b).len() as u64),
        ),
        _ => true,
    }
}

/// The bytes that `encode_webm_element` writes for a writable element.
/// Elements that carry nothing the relay keeps (seek index, segment info,
/// padding, unknown ids) write nothing.
pub open spec fn webm_encoding(element: WebmElement) -> Seq<u8> {
    match element {
        WebmElement::EbmlHead => varint_encoding(Varint::Value(EBML_HEAD_ID)) + varint_4_encoding(
            Varint::Value(doc_type_webm().len() as u64),
        ) + doc_type_webm(),
        WebmElement::Segment => varint_encoding(Varint::Value(SEGMENT_ID)) + varint_encoding(
            Varint::Unknown,
        ),
        WebmElement::Tracks(d) => element_encoding(TRACKS_ID, d@),
        WebmElement::Cluster => varint_encoding(Varint::Value(CLUSTER_ID)) + varint_encoding(
            Varint::Unknown,
        ),
        WebmElement::Timecode(t) => element_encoding(TIMECODE_ID, be_bytes(t as nat, 8)),
        WebmElement::SimpleBlock(b) => element_encoding(SIMPLE_BLOCK_ID, simple_block_payload(b)),
        _ => Seq::empty(),
    }
}

/// What `encode_webm_element` leaves written when it fails: the element id,
/// where only the payload length cannot be written.
pub open spec fn webm_written_on_error(element: WebmElement) -> Seq<u8> {
    match element {
        WebmElement::Tracks(_) => varint_encoding(Varint::Value(TRACKS_ID)),
        WebmElement::SimpleBlock(b) => if encodable(Varint::Value(b.track)) {
            varint_encoding(Varint::Value(SIMPLE_BLOCK_ID))
        } else {
            Seq::empty()
        },
        _ => Seq::empty(),
    }
}

/// Writes a WebM element.
/// Fails with `OutOfRange` where a number in it cannot be written, leaving
/// what `webm_written_on_error` says written.
pub fn encode_webm_element(element: &WebmElement, output: &mut Vec<u8>) -> (r: Result<(), WriteError>)
    ensures
        webm_writable(*element) ==> r is Ok && final(output)@ == old(output)@ + webm_encoding(
            *element,
        ),
        !webm_writable(*element) ==> r == Err::<(), WriteError>(WriteError::OutOfRange)
            && final(output)@ == old(output)@ + webm_written_on_error(*element),
{
    proof {
        reveal_with_fuel(crate::ebml::pow128, 8);
    }
    match element {
        WebmElement::EbmlHead => {
            let mut body: Vec<u8> = Vec::new();
            let _ = encode_bytes(DOC_TYPE_ID, &[0x77u8, 0x65, 0x62, 0x6d], &mut body);
            proof {
                assert(body@ =~= doc_type_webm());
                crate::ebml::lemma_varint_encoding_len(Varint::Value(DOC_TYPE_ID));
                crate::ebml::lemma_varint_encoding_len(Varint::Value(4));
                assert(body@.len() <= 18);
            }
            encode_element(EBML_HEAD_ID, output, body.as_slice())
        },
        WebmElement::Segment => encode_tag_header(SEGMENT_ID, Varint::Unknown, output),
        WebmElement::Tracks(d) => encode_bytes(TRACKS_ID, d.as_slice(), output),
        WebmElement::Cluster => encode_tag_header(CLUSTER_ID, Varint::Unknown, output),
        WebmElement::Timecode(t) => encode_integer(TIMECODE_ID, *t, output),
        WebmElement::SimpleBlock(b) => {
            let mut payload: Vec<u8> = Vec::new();
            let r = encode_varint(Varint::Value(b.track), &mut payload);
            if r.is_err() {
                return r;
            }
            let raw: u64 = if b.timecode < 0 {
                (b.timecode as i32 + 0x10000) as u64
            } else {
                b.timecode as u64
            };
            push_be(raw, 2, &mut payload);
            payload.push(b.flags);
            push_all(b.data.as_slice(), &mut payload);
            proof {
                assert(payload@ =~= simple_block_payload(*b));
            }
            encode_bytes(SIMPLE_BLOCK_ID, payload.as_slice(), output)
        },
        _ => {
            proof {
                assert(final(output)@ =~= old(output)@ + webm_encoding(*element));
            }
            Ok(())
        },
    }
}

} // verus!
