//! Decodings driven by canned packets and a resampler that halves the rate.
use spectrum_compare::decoding::{DecodingError, Job, MonoDecoding, Phase, Request};
use spectrum_compare::single::Single;

fn block(from: u32, len: u32) -> Vec<Single> {
    (from..from + len).map(|bits| Single { bits }).collect()
}

fn numbers(x: &[Single]) -> Vec<u32> {
    x.iter().map(|s| s.bits).collect()
}

/// A packet: its track, and what it decodes to.
type Packet = (u32, Option<(u32, Vec<Single>)>);

#[derive(Default)]
struct Log {
    made: Vec<(u32, u32)>,
    chunks: Vec<Vec<u32>>,
    rest: Vec<Vec<u32>>,
    packets_read: usize,
}

fn every_second(input: &[Single]) -> Vec<Vec<Single>> {
    vec![input.iter().step_by(2).cloned().collect()]
}

fn drive(job: Job, packets: Vec<Packet>, chunk: usize) -> Result<(Vec<Single>, Log), DecodingError> {
    let mut log = Log::default();
    let mut d = MonoDecoding::new(job);
    let mut next = packets.into_iter();
    let mut current = None;
    loop {
        match d.request() {
            Request::MakeResampler { input_sr, target_sr, chunk: wanted, parts, channels } => {
                assert_eq!((wanted, parts, channels), (1024, 2, 1));
                log.made.push((input_sr, target_sr));
                d.resampler_ready(chunk)?;
            }
            Request::ReadPacket => match next.next() {
                Some((track, decoded)) => {
                    log.packets_read += 1;
                    current = decoded;
                    d.packet_read(Some(track));
                }
                None => d.packet_read(None),
            },
            Request::DecodePacket => d.packet_decoded(current.take()),
            Request::Resample { input } => {
                log.chunks.push(numbers(&input));
                d.chunk_resampled(every_second(&input));
            }
            Request::ResampleRest { input } => {
                log.rest.push(numbers(&input));
                d.rest_resampled(every_second(&input));
            }
            Request::Stop => {
                assert_eq!(d.phase(), Phase::Finished);
                return Ok((d.into_samples(), log));
            }
        }
    }
}

fn job(declared_sr: Option<u32>, max_samples: usize) -> Job {
    Job { track_id: 7, target_sr: 48000, declared_sr, max_samples }
}

#[test]
fn matching_rate_passes_through() {
    let packets = vec![
        (7, Some((48000, block(0, 3)))),
        (1, Some((48000, block(100, 3)))),
        (7, None),
        (7, Some((44100, block(3, 4)))),
    ];
    let (out, log) = drive(job(Some(48000), 100), packets, 4).unwrap();
    assert_eq!(numbers(&out), vec![0, 1, 2, 3, 4, 5, 6]);
    assert!(log.made.is_empty() && log.chunks.is_empty());
    assert_eq!(log.packets_read, 4);
}

#[test]
fn result_is_cut_and_reading_stops() {
    let packets = vec![
        (7, Some((48000, block(0, 3)))),
        (7, Some((48000, block(3, 3)))),
        (7, Some((48000, block(6, 3)))),
    ];
    let (out, log) = drive(job(Some(48000), 5), packets, 4).unwrap();
    assert_eq!(numbers(&out), vec![0, 1, 2, 3, 4]);
    assert_eq!(log.packets_read, 2);
}

#[test]
fn nothing_is_read_for_an_empty_result() {
    let (out, log) =
        drive(job(Some(48000), 0), vec![(7, Some((48000, block(0, 3))))], 4).unwrap();
    assert!(out.is_empty());
    assert_eq!(log.packets_read, 0);
    let (out, log) =
        drive(job(Some(44100), 0), vec![(7, Some((44100, block(0, 3))))], 4).unwrap();
    assert!(out.is_empty());
    assert_eq!(log.made, vec![(44100, 48000)]);
    assert_eq!(log.packets_read, 0);
}

#[test]
fn resampler_gets_every_sample_in_chunks() {
    let packets = vec![
        (7, Some((44100, block(0, 3)))),
        (7, Some((44100, block(3, 6)))),
        (7, Some((44100, block(9, 1)))),
    ];
    let (out, log) = drive(job(Some(44100), 100), packets, 4).unwrap();
    assert_eq!(log.made, vec![(44100, 48000)]);
    assert_eq!(log.chunks, vec![vec![0, 1, 2, 3], vec![4, 5, 6, 7]]);
    assert_eq!(log.rest, vec![vec![8, 9]]);
    assert_eq!(numbers(&out), vec![0, 2, 4, 6, 8]);
}

#[test]
fn no_rest_means_no_flush() {
    let packets = vec![(7, Some((44100, block(0, 8))))];
    let (out, log) = drive(job(Some(44100), 100), packets, 4).unwrap();
    assert_eq!(log.chunks.len(), 2);
    assert!(log.rest.is_empty());
    assert_eq!(numbers(&out), vec![0, 2, 4, 6]);
}

#[test]
fn resampling_stops_when_the_result_is_long_enough() {
    let packets = vec![(7, Some((44100, block(0, 21))))];
    let (out, log) = drive(job(Some(44100), 3), packets, 4).unwrap();
    assert_eq!(log.chunks.len(), 2);
    assert!(log.rest.is_empty());
    assert_eq!(numbers(&out), vec![0, 2, 4]);
}

#[test]
fn undeclared_rate_is_taken_from_the_packets() {
    let packets = vec![
        (7, Some((48000, block(0, 2)))),
        (7, Some((44100, block(10, 5)))),
        (7, Some((22050, block(20, 6)))),
        (7, Some((48000, block(30, 2)))),
    ];
    let (out, log) = drive(job(None, 100), packets, 4).unwrap();
    assert_eq!(log.made, vec![(44100, 48000), (22050, 48000)]);
    // Sample 14, then samples 24 and 25, wait for a chunk when the rate changes.
    assert_eq!(log.chunks, vec![vec![10, 11, 12, 13], vec![20, 21, 22, 23]]);
    assert!(log.rest.is_empty());
    assert_eq!(numbers(&out), vec![0, 1, 10, 12, 20, 22, 30, 31]);
}

#[test]
fn declared_rate_stands() {
    let packets = vec![(7, Some((22050, block(0, 5))))];
    let (_, log) = drive(job(Some(44100), 100), packets, 4).unwrap();
    assert_eq!(log.made, vec![(44100, 48000)]);
    assert_eq!(log.chunks, vec![vec![0, 1, 2, 3]]);
}

#[test]
fn empty_chunk_is_an_error() {
    let r = drive(job(Some(44100), 100), vec![], 0);
    assert_eq!(r.err(), Some(DecodingError::EmptyChunk));
    assert_eq!(DecodingError::EmptyChunk.message(), "resampler input chunk size is 0");
}

#[test]
fn long_streams_keep_every_sample() {
    // Past the point where consumed samples are let go of.
    let packets: Vec<Packet> =
        (0..200).map(|k| (7, Some((44100, block(k * 1152, 1152))))).collect();
    let (out, log) = drive(job(Some(44100), 1_000_000), packets, 1024).unwrap();
    let mut fed: Vec<u32> = log.chunks.concat();
    fed.extend(log.rest.concat());
    assert_eq!(fed, (0..200 * 1152).collect::<Vec<u32>>());
    assert!(log.chunks.iter().all(|c| c.len() == 1024));
    assert_eq!(out.len(), 200 * 1152 / 2);
}

#[test]
fn only_the_first_channel_counts() {
    let mut d = MonoDecoding::new(job(Some(44100), 10));
    d.resampler_ready(2).unwrap();
    d.packet_read(Some(7));
    d.packet_decoded(Some((44100, block(0, 5))));
    assert_eq!(d.phase(), Phase::Resampling);
    d.chunk_resampled(vec![block(50, 1), block(60, 3)]);
    d.chunk_resampled(vec![]);
    assert_eq!(d.phase(), Phase::Reading);
    d.packet_read(None);
    assert_eq!(d.phase(), Phase::Flushing);
    d.rest_resampled(vec![block(70, 2)]);
    assert_eq!(numbers(&d.into_samples()), vec![50, 70, 71]);
}

fn packets(rate: u32, lengths: &[u32]) -> Vec<Packet> {
    let mut from = 0;
    let mut found = Vec::new();
    for len in lengths {
        found.push((7, Some((rate, block(from, *len)))));
        from += len;
    }
    found
}

#[test]
fn shorter_limit_gives_a_prefix() {
    for rate in [44100, 48000] {
        let (long, _) = drive(job(Some(rate), 1000), packets(rate, &[5, 9, 1, 14, 3]), 4).unwrap();
        for max in 0..40 {
            let (short, _) =
                drive(job(Some(rate), max), packets(rate, &[5, 9, 1, 14, 3]), 4).unwrap();
            assert_eq!(short, long[..max.min(long.len())]);
        }
    }
}

#[test]
fn packet_boundaries_do_not_show() {
    for rate in [44100, 48000] {
        for max in [7, 1000] {
            let (a, _) = drive(job(Some(rate), max), packets(rate, &[30]), 4).unwrap();
            let (b, _) = drive(job(Some(rate), max), packets(rate, &[1, 2, 20, 0, 7]), 4).unwrap();
            assert_eq!(a, b);
        }
    }
}

#[test]
fn useless_packets_do_not_show() {
    for declared in [None, Some(44100), Some(48000)] {
        let plain = packets(44100, &[3, 8, 2]);
        let mut mixed = vec![(3, Some((22050, block(500, 9)))), (7, None)];
        for packet in &plain {
            mixed.push(packet.clone());
            mixed.push((8, Some((48000, block(700, 2)))));
            mixed.push((7, None));
            mixed.push((1, None));
        }
        for max in [5, 1000] {
            let (a, _) = drive(job(declared, max), plain.clone(), 4).unwrap();
            let (b, _) = drive(job(declared, max), mixed.clone(), 4).unwrap();
            assert_eq!(a, b);
        }
    }
}

#[test]
fn detected_rate_does_as_well_as_a_declared_one() {
    for rate in [44100, 48000] {
        let (a, _) = drive(job(None, 1000), packets(rate, &[3, 8, 2]), 4).unwrap();
        let (b, _) = drive(job(Some(rate), 1000), packets(rate, &[3, 8, 2]), 4).unwrap();
        assert_eq!(a, b);
    }
}

#[test]
fn rate_change_joins_two_streams() {
    let first = packets(44100, &[6, 5]);
    let second = vec![(3, None), (7, Some((22050, block(100, 6)))), (7, Some((22050, block(106, 1))))];
    let mut both = packets(44100, &[6, 5]);
    both.extend(second.clone());
    let (joined, log) = drive(job(None, 1000), both, 4).unwrap();
    let (begun, _) = drive(job(None, 1000), second, 4).unwrap();
    let (alone, alone_log) = drive(job(None, 1000), first, 4).unwrap();
    // Of the first stream, samples 8 to 10 fill no chunk.
    assert_eq!(alone_log.rest, vec![vec![8, 9, 10]]);
    let mut want = alone[..4].to_vec();
    want.extend(begun);
    assert_eq!(joined, want);
    assert!(!log.chunks.concat().contains(&8));
}
