use webmetro::channel::{Channel, Delivery, ListenerPipeline};
use webmetro::chunk::{Chunk, ChunkerState, ClusterHead, WebmChunker};
use webmetro::ebml::{EbmlError, EbmlEventSource, FromEbml};
use webmetro::error::WebmetroError;
use webmetro::fixers::{ChunkTimecodeFixer, StartingPointFilter};
use webmetro::stream_parser::EbmlStreamingParser;
use webmetro::throttle::Throttle;
use webmetro::webm::{encode_webm_element, SimpleBlock, WebmElement};

const EBML_HEAD: [u8; 9] = [0x1A, 0x45, 0xDF, 0xA3, 0x84, 0x42, 0x82, 0x81, 0x01];
const SEGMENT: [u8; 5] = [0x18, 0x53, 0x80, 0x67, 0xFF];
const TRACKS: [u8; 7] = [0x16, 0x54, 0xAE, 0x6B, 0x82, 0xAE, 0x80];
const CLUSTER: [u8; 5] = [0x1F, 0x43, 0xB6, 0x75, 0xFF];

fn timecode(t: u16) -> Vec<u8> {
    vec![0xE7, 0x82, (t >> 8) as u8, t as u8]
}

fn block(frame: u8) -> Vec<u8> {
    vec![0xA3, 0x85, 0x81, 0x00, 0x00, 0x80, frame]
}

fn segment(cluster_times: &[u16]) -> Vec<u8> {
    let mut file = Vec::new();
    file.extend_from_slice(&EBML_HEAD);
    file.extend_from_slice(&SEGMENT);
    file.extend_from_slice(&TRACKS);
    for (i, t) in cluster_times.iter().enumerate() {
        file.extend_from_slice(&CLUSTER);
        file.extend(timecode(*t));
        file.extend(block(i as u8));
    }
    file
}

fn parse_in_pieces(bytes: &[u8], piece: usize) -> Vec<WebmElement> {
    let mut parser = EbmlStreamingParser::new();
    let mut events = Vec::new();
    for part in bytes.chunks(piece) {
        parser.feed(part);
        while let Some(event) = parser.next_event::<WebmElement>().unwrap() {
            events.push(event);
        }
    }
    assert_eq!(parser.finish(), Ok(()));
    events
}

fn chunks_of(events: Vec<WebmElement>) -> Vec<Chunk> {
    let mut chunker = WebmChunker::new();
    events.into_iter().filter_map(|e| chunker.push(e).unwrap()).collect()
}

fn head_start(chunk: &Chunk) -> Option<u64> {
    match chunk {
        Chunk::ClusterHead(head) => Some(head.start),
        _ => None,
    }
}

#[test]
fn simple_block_decodes() {
    let bytes = [0xA3, 0x86, 0x81, 0x00, 0x10, 0x80, 0xAA, 0xBB, 0x99];
    let decoded = WebmElement::decode_element(&bytes);
    let expected = WebmElement::SimpleBlock(SimpleBlock { track: 1, timecode: 16, flags: 0x80, data: vec![0xAA, 0xBB] });
    assert_eq!(decoded, Ok(Some((expected, 8))));
    let negative = [0xA3, 0x84, 0x81, 0xFF, 0xFE, 0x00];
    let decoded = WebmElement::decode_element(&negative).unwrap().unwrap().0;
    assert_eq!(decoded, WebmElement::SimpleBlock(SimpleBlock { track: 1, timecode: -2, flags: 0, data: vec![] }));
    assert_eq!(WebmElement::decode_element(&[0xA3, 0x82, 0x81, 0x00]), Err(EbmlError::CorruptPayload));
}

#[test]
fn containers_unwrap_and_leaves_do_not() {
    assert_eq!(WebmElement::decode_element(&SEGMENT), Ok(Some((WebmElement::Segment, 5))));
    assert_eq!(WebmElement::decode_element(&timecode(1000)), Ok(Some((WebmElement::Timecode(1000), 4))));
    assert_eq!(WebmElement::check_space(&[0x16, 0x54, 0xAE, 0x6B, 0xFF]), Err(EbmlError::UnknownElementLength));
    assert_eq!(WebmElement::check_space(&TRACKS[..6]), Ok(None));
    assert_eq!(
        WebmElement::decode_element(&[0x81, 0x81, 0x07]),
        Ok(Some((WebmElement::Unknown(1, vec![7]), 3)))
    );
}

#[test]
fn webm_elements_encode() {
    let mut out = Vec::new();
    encode_webm_element(&WebmElement::EbmlHead, &mut out).unwrap();
    assert_eq!(out, [0x1A, 0x45, 0xDF, 0xA3, 0x10, 0, 0, 7, 0x42, 0x82, 0x84, b'w', b'e', b'b', b'm']);
    out.clear();
    let b = SimpleBlock { track: 1, timecode: -2, flags: 0x80, data: vec![9] };
    encode_webm_element(&WebmElement::SimpleBlock(b), &mut out).unwrap();
    assert_eq!(out, [0xA3, 0x85, 0x81, 0xFF, 0xFE, 0x80, 9]);
    out.clear();
    encode_webm_element(&WebmElement::Void, &mut out).unwrap();
    assert!(out.is_empty());
}

#[test]
fn piece_boundaries_do_not_change_events() {
    let file = segment(&[0, 1000, 2000]);
    let whole = parse_in_pieces(&file, file.len());
    assert_eq!(whole.len(), 12);
    for piece in 1..8 {
        assert_eq!(parse_in_pieces(&file, piece), whole);
    }
}

#[test]
fn chunker_frames_the_stream() {
    let chunks = chunks_of(parse_in_pieces(&segment(&[0, 1000]), 5));
    let kinds: Vec<&str> = chunks
        .iter()
        .map(|c| match c {
            Chunk::Headers { .. } => "H",
            Chunk::ClusterHead(_) => "C",
            Chunk::ClusterBody { .. } => "B",
        })
        .collect();
    assert_eq!(kinds, ["H", "C", "B", "C", "B"]);
    let mut header = Vec::new();
    header.extend_from_slice(&[0x1A, 0x45, 0xDF, 0xA3, 0x10, 0, 0, 7, 0x42, 0x82, 0x84, b'w', b'e', b'b', b'm']);
    header.extend_from_slice(&SEGMENT);
    header.extend_from_slice(&TRACKS);
    assert_eq!(chunks[0].as_bytes(), header.as_slice());
    assert_eq!(
        chunks[3].as_bytes(),
        [0x1F, 0x43, 0xB6, 0x75, 0x1F, 0xFF, 0xFF, 0xFF, 0xE7, 0x88, 0, 0, 0, 0, 0, 0, 0x03, 0xE8]
    );
    assert_eq!(chunks[4].as_bytes(), block(1).as_slice());
}

#[test]
fn resumed_source_keeps_moving_forward() {
    let mut file = segment(&[0, 2500, 5000]);
    file.extend(segment(&[0, 1000]));
    let chunks = chunks_of(parse_in_pieces(&file, 7));
    assert_eq!(chunks.iter().filter(|c| matches!(c, Chunk::Headers { .. })).count(), 1);
    let mut fixer = ChunkTimecodeFixer::new();
    let starts: Vec<u64> = chunks.into_iter().map(|c| fixer.process(c)).filter_map(|c| head_start(&c)).collect();
    assert_eq!(starts, [0, 2500, 5000, 5001, 6001]);
}

#[test]
fn fixer_rewrites_cluster_bytes() {
    let mut fixer = ChunkTimecodeFixer::new();
    fixer.process(Chunk::ClusterHead(ClusterHead::new(300)));
    let out = fixer.process(Chunk::ClusterHead(ClusterHead::new(100)));
    assert_eq!(head_start(&out), Some(301));
    assert_eq!(out.as_bytes(), ClusterHead::new(301).as_bytes());
    let header = fixer.process(Chunk::Headers { bytes: vec![1, 2] });
    assert_eq!(header, Chunk::Headers { bytes: vec![1, 2] });
    assert_eq!(fixer.last_observed_out, 0);
}

#[test]
fn late_joiner_starts_at_a_cluster() {
    let mut filter = StartingPointFilter::new();
    let input = vec![
        Chunk::ClusterBody { bytes: vec![1] },
        Chunk::ClusterBody { bytes: vec![2] },
        Chunk::ClusterHead(ClusterHead::new(10000)),
        Chunk::ClusterBody { bytes: vec![3] },
    ];
    let out: Vec<Chunk> = input.into_iter().filter_map(|c| filter.process(c)).collect();
    assert_eq!(out.len(), 2);
    assert_eq!(head_start(&out[0]), Some(10000));
    assert_eq!(out[0].as_bytes()[..4], [0x1F, 0x43, 0xB6, 0x75]);
}

#[test]
fn aligned_stream_passes_unchanged() {
    let chunks = chunks_of(parse_in_pieces(&segment(&[0, 1000]), 3));
    let mut filter = StartingPointFilter::new();
    let out: Vec<Chunk> = chunks.iter().cloned().filter_map(|c| filter.process(c)).collect();
    assert_eq!(out, chunks);
}

#[test]
fn slow_listener_loses_chunks_and_realigns() {
    let mut channel = Channel::new("live".to_string(), 4);
    channel.set_transmitter_present(true);
    let id = channel.add_listener().unwrap();
    for i in 0..100u64 {
        let chunk = if i % 10 == 0 {
            Chunk::ClusterHead(ClusterHead::new(i))
        } else {
            Chunk::ClusterBody { bytes: vec![i as u8] }
        };
        channel.send(&chunk);
    }
    assert_eq!(channel.listeners[0].chunks.len(), 4);
    for _ in 0..4 {
        assert!(matches!(channel.recv(id), Delivery::Chunk(_)));
    }
    assert!(matches!(channel.recv(id), Delivery::Realign));
    assert!(matches!(channel.recv(id), Delivery::Pending));
    let mut filter = StartingPointFilter::new();
    channel.send(&Chunk::ClusterBody { bytes: vec![7] });
    channel.send(&Chunk::ClusterHead(ClusterHead::new(100)));
    let mut forwarded = Vec::new();
    while let Delivery::Chunk(c) = channel.recv(id) {
        if let Some(c) = filter.process(c) {
            forwarded.push(c);
        }
    }
    assert_eq!(forwarded.len(), 1);
    assert_eq!(head_start(&forwarded[0]), Some(100));
}

#[test]
fn listeners_drain_after_transmitter_leaves() {
    let mut channel = Channel::new("live".to_string(), 8);
    channel.set_transmitter_present(true);
    let a = channel.add_listener().unwrap();
    let b = channel.add_listener().unwrap();
    assert_ne!(a, b);
    channel.send(&Chunk::ClusterBody { bytes: vec![1] });
    channel.set_transmitter_present(false);
    assert!(matches!(channel.recv(a), Delivery::Chunk(Chunk::ClusterBody { .. })));
    assert!(matches!(channel.recv(a), Delivery::Ended));
    channel.remove_listener(b);
    assert!(matches!(channel.recv(b), Delivery::Ended));
    assert_eq!(channel.listeners.len(), 1);
}

#[test]
fn corrupt_ingest_fails() {
    let mut parser = EbmlStreamingParser::new();
    parser.feed(&[0x00, 0x00, 0x00]);
    assert_eq!(
        parser.next_event::<WebmElement>(),
        Err(WebmetroError::EbmlError { source: EbmlError::CorruptVarint })
    );
}

#[test]
fn oversized_element_exceeds_resources() {
    let mut parser = EbmlStreamingParser::new().with_soft_limit(4);
    parser.feed(&[0x16, 0x54, 0xAE, 0x6B, 0xE4, 0, 0, 0]);
    assert_eq!(parser.next_event::<WebmElement>(), Ok(None));
    parser.feed(&[0]);
    assert_eq!(parser.next_event::<WebmElement>(), Err(WebmetroError::ResourcesExceeded));
}

#[test]
fn partial_element_at_end_is_corrupt() {
    let mut parser = EbmlStreamingParser::new();
    parser.feed(&TRACKS[..5]);
    assert_eq!(parser.next_event::<WebmElement>(), Ok(None));
    assert_eq!(parser.finish(), Err(EbmlError::CorruptPayload));
}

#[test]
fn throttle_paces_clusters() {
    let mut throttle = Throttle::new();
    let body = Chunk::ClusterBody { bytes: vec![] };
    assert_eq!(throttle.delay(10_000, &Chunk::ClusterHead(ClusterHead::new(0))), None);
    assert_eq!(throttle.delay(10_000, &body), None);
    assert_eq!(throttle.delay(10_000, &Chunk::ClusterHead(ClusterHead::new(1000))), Some(500));
    assert_eq!(throttle.delay(10_600, &Chunk::ClusterHead(ClusterHead::new(2000))), Some(900));
    assert_eq!(throttle.delay(50_000, &Chunk::ClusterHead(ClusterHead::new(3000))), None);
    assert_eq!(throttle.delay(50_000, &Chunk::ClusterHead(ClusterHead::new(4000))), Some(500));
}

#[test]
fn cluster_head_tracks_frames() {
    let mut head = ClusterHead::new(1000);
    head.observe_simpleblock_timecode(40);
    head.observe_simpleblock_timecode(-5);
    assert_eq!((head.start, head.end), (1000, 1040));
    head.update_timecode(3000);
    assert_eq!((head.start, head.end), (3000, 3040));
}

#[test]
fn application_errors_carry_their_message() {
    assert_eq!(
        WebmetroError::from_message("Listen address didn't resolve"),
        WebmetroError::ApplicationError { message: "Listen address didn't resolve".to_string() }
    );
}

#[test]
fn event_source_polls_events() {
    let mut parser = EbmlStreamingParser::new();
    parser.feed(&SEGMENT);
    assert_eq!(parser.poll_event::<WebmElement>(), Ok(Some(WebmElement::Segment)));
    assert_eq!(parser.poll_event::<WebmElement>(), Ok(None));
}

#[test]
fn chunker_tracks_the_cluster_end() {
    let mut chunker = WebmChunker::new();
    for event in parse_in_pieces(&segment(&[1000]), 4) {
        chunker.push(event).unwrap();
    }
    let frame = SimpleBlock { track: 1, timecode: 40, flags: 0x80, data: vec![1] };
    chunker.push(WebmElement::SimpleBlock(frame)).unwrap();
    match &chunker.state {
        ChunkerState::EmittingBody(head) => assert_eq!((head.start, head.end), (1000, 1040)),
        _ => panic!("the chunker is not inside a cluster"),
    }
}

#[test]
fn listener_pipeline_realigns_after_lag() {
    let mut pipeline = ListenerPipeline::new();
    assert_eq!(pipeline.on_delivery(Delivery::Chunk(Chunk::ClusterBody { bytes: vec![1] })), None);
    let head = pipeline.on_delivery(Delivery::Chunk(Chunk::ClusterHead(ClusterHead::new(500))));
    assert_eq!(head.as_ref().and_then(head_start), Some(500));
    let body = Chunk::ClusterBody { bytes: vec![2] };
    assert_eq!(pipeline.on_delivery(Delivery::Chunk(body.clone())), Some(body.clone()));
    assert_eq!(pipeline.on_delivery(Delivery::Realign), None);
    assert_eq!(pipeline.on_delivery(Delivery::Chunk(body)), None);
    let restarted = pipeline.on_delivery(Delivery::Chunk(Chunk::ClusterHead(ClusterHead::new(0))));
    assert_eq!(restarted.as_ref().and_then(head_start), Some(501));
    assert_eq!(pipeline.on_delivery(Delivery::Pending), None);
}
