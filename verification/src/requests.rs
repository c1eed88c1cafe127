//! What a decoding asks for after given replies, and what it makes of them.
//!
//! Everything is said of the replies themselves: which rate they tell of, which samples they
//! bring and what came back from the resampler.
use vstd::prelude::*;

use crate::decoding::{DecodingError, Job, MonoDecoding, Phase, Progress, Reply, Request};
use crate::single::Single;
use crate::stream::{answered, law_runs_stay_consistent, run};

verus! {

/// The sample rate of the blocks: the declared one, else that of the block decoded last. Before
/// the first block it is taken to be the target rate.
pub open spec fn rate_in_effect(job: Job, replies: Seq<Reply>) -> u32
    decreases replies.len(),
{
    match job.declared_sr {
        Some(rate) => rate,
        None => if replies.len() == 0 {
            job.target_sr
        } else {
            match replies.last() {
                Reply::Decoded(Some((rate, _))) => rate,
                _ => rate_in_effect(job, replies.drop_last()),
            }
        },
    }
}

/// Whether the last reply brought a block of another rate than those before it.
pub open spec fn changes_rate(job: Job, replies: Seq<Reply>) -> bool {
    rate_in_effect(job, replies) != rate_in_effect(job, replies.drop_last())
}

/// The samples of the blocks, as far back as they have the rate in effect.
pub open spec fn samples_at_rate(job: Job, replies: Seq<Reply>) -> Seq<Single>
    decreases replies.len(),
{
    if replies.len() == 0 {
        Seq::empty()
    } else {
        let before = samples_at_rate(job, replies.drop_last());
        match replies.last() {
            Reply::Decoded(Some((_, block))) => if changes_rate(job, replies) {
                block
            } else {
                before + block
            },
            _ => before,
        }
    }
}

/// The chunk length of the resampler made for the rate in effect, where one was made.
pub open spec fn resampler(job: Job, replies: Seq<Reply>) -> Option<usize>
    decreases replies.len(),
{
    if replies.len() == 0 {
        None
    } else {
        match replies.last() {
            Reply::Ready(chunk) => Some(chunk),
            Reply::Decoded(Some(_)) => if changes_rate(job, replies) {
                None
            } else {
                resampler(job, replies.drop_last())
            },
            _ => resampler(job, replies.drop_last()),
        }
    }
}

/// How many samples the resampler made for the rate in effect has had in whole chunks.
pub open spec fn resampled(job: Job, replies: Seq<Reply>) -> int
    decreases replies.len(),
{
    if replies.len() == 0 {
        0
    } else {
        let before = resampled(job, replies.drop_last());
        match replies.last() {
            Reply::Decoded(Some(_)) => if changes_rate(job, replies) {
                0
            } else {
                before
            },
            Reply::Resampled(_) => before + match resampler(job, replies) {
                Some(chunk) => chunk as int,
                None => 0,
            },
            _ => before,
        }
    }
}

/// What there is at the target rate: blocks that have it, and what resamplers gave.
pub open spec fn at_target_rate(job: Job, replies: Seq<Reply>) -> Seq<Single>
    decreases replies.len(),
{
    if replies.len() == 0 {
        Seq::empty()
    } else {
        let before = at_target_rate(job, replies.drop_last());
        match replies.last() {
            Reply::Decoded(Some((_, block))) => if rate_in_effect(job, replies)
                == job.target_sr {
                before + block
            } else {
                before
            },
            Reply::Resampled(output) => before + output,
            Reply::Flushed(output) => before + output,
            _ => before,
        }
    }
}

/// Whether the replies told of the end of the stream.
pub open spec fn has_ended(replies: Seq<Reply>) -> bool {
    exists|i: int| 0 <= i < replies.len() && #[trigger] replies[i] == Reply::Packet(None)
}

/// Whether a packet of the track was read and nothing was told of it yet.
pub open spec fn has_packet(job: Job, replies: Seq<Reply>) -> bool {
    replies.len() > 0 && replies.last() == Reply::Packet(Some(job.track_id))
}

/// Whether the end of the stream was resampled.
pub open spec fn is_flushed(replies: Seq<Reply>) -> bool {
    replies.len() > 0 && replies.last() is Flushed
}

/// How a state stands to the replies that led to it.
spec fn matches_replies(job: Job, replies: Seq<Reply>, p: Progress) -> bool {
    let samples = samples_at_rate(job, replies);
    let had = resampled(job, replies);
    let out = at_target_rate(job, replies);
    &&& p.input_sr == rate_in_effect(job, replies)
    &&& p.chunk == resampler(job, replies)
    &&& 0 <= had
    &&& p.chunk is None ==> had == 0
    &&& p.chunk matches Some(chunk) ==> {
        &&& chunk > 0
        &&& had <= samples.len()
        &&& !is_flushed(replies) ==> p.unread == samples.skip(had)
    }
    &&& p.phase == Phase::Setup ==> samples == match p.held {
        Some(block) => block,
        None => Seq::empty(),
    }
    &&& p.phase != Phase::Finished ==> p.out == out
    &&& p.phase == Phase::Finished ==> {
        &&& p.out.len() <= job.max_samples
        &&& p.out.is_prefix_of(out)
        &&& p.out.len() < job.max_samples ==> p.out == out
    }
    &&& p.phase == Phase::Decoding <==> has_packet(job, replies)
    &&& is_flushed(replies) ==> p.phase == Phase::Finished
    &&& has_ended(replies) ==> p.phase == Phase::Flushing || p.phase == Phase::Finished
    &&& p.phase == Phase::Flushing ==> has_ended(replies)
    &&& p.phase == Phase::Finished ==> out.len() >= job.max_samples || has_ended(replies) && (
    p.chunk is Some ==> is_flushed(replies) || had == samples.len())
}

proof fn lemma_ended(replies: Seq<Reply>)
    requires
        replies.len() > 0,
    ensures
        has_ended(replies) <==> has_ended(replies.drop_last()) || replies.last()
            == Reply::Packet(None),
{
    let rest = replies.drop_last();
    if has_ended(rest) {
        let i = choose|i: int| 0 <= i < rest.len() && #[trigger] rest[i] == Reply::Packet(None);
        assert(replies[i] == Reply::Packet(None));
    }
    if has_ended(replies) {
        let i = choose|i: int|
            0 <= i < replies.len() && #[trigger] replies[i] == Reply::Packet(None);
        if i < rest.len() {
            assert(rest[i] == Reply::Packet(None));
        }
    }
    if replies.last() == Reply::Packet(None) {
        assert(replies[replies.len() - 1] == Reply::Packet(None));
    }
}

proof fn lemma_prefix(out: Seq<Single>, max: usize)
    ensures
        ({
            let kept = if out.len() <= max {
                out
            } else {
                out.take(max as int)
            };
            &&& kept.is_prefix_of(out)
            &&& kept.len() <= max
            &&& kept.len() < max ==> kept == out
        }),
{
    assert(out =~= out.subrange(0, out.len() as int));
}

proof fn lemma_matches_replies(job: Job, replies: Seq<Reply>)
    requires
        answered(job, replies),
    ensures
        matches_replies(job, replies, run(job, replies)),
    decreases replies.len(),
{
    let p = run(job, replies);
    law_runs_stay_consistent(job, replies);
    lemma_prefix(at_target_rate(job, replies), job.max_samples);
    if replies.len() == 0 {
        assert(samples_at_rate(job, replies).skip(0) =~= Seq::empty());
    } else {
        let earlier = replies.drop_last();
        lemma_matches_replies(job, earlier);
        law_runs_stay_consistent(job, earlier);
        lemma_ended(replies);
        let q = run(job, earlier);
        let samples = samples_at_rate(job, earlier);
        let had = resampled(job, earlier);
        assert(q.phase != Phase::Finished);
        match replies.last() {
            Reply::Ready(chunk) => {
                assert(samples.skip(0) =~= samples);
                assert(Seq::<Single>::empty() + samples =~= samples);
            },
            Reply::Packet(Some(track_id)) => {},
            Reply::Packet(None) => {},
            Reply::Decoded(None) => {},
            Reply::Decoded(Some((rate, block))) => {
                if changes_rate(job, replies) {
                } else if q.chunk is Some {
                    assert(samples.skip(had) + block =~= (samples + block).skip(had));
                }
            },
            Reply::Resampled(output) => {
                let chunk = q.chunk->0 as int;
                assert(samples.skip(had).skip(chunk) =~= samples.skip(had + chunk));
            },
            Reply::Flushed(output) => {},
        }
    }
}

/// What is asked for follows from the replies so far. A resampler converts from the rate in
/// effect for the blocks to the target rate, whichever is larger, and is asked for where the two
/// differ and none was made. It is handed the samples of the blocks one after the other, in whole
/// chunks, and at the end of the stream the rest. Only packets of the track are decoded. Packets
/// are read until the result is long enough or the stream ends.
pub proof fn law_request_follows_from_replies(
    d: MonoDecoding,
    replies: Seq<Reply>,
    request: Request,
)
    requires
        answered(d.job(), replies),
        d@ == run(d.job(), replies),
        call_ensures(MonoDecoding::request, (&d,), request),
    ensures
        ({
            let job = d.job();
            let rate = rate_in_effect(job, replies);
            let samples = samples_at_rate(job, replies);
            let had = resampled(job, replies);
            let full = at_target_rate(job, replies).len() >= job.max_samples;
            let chunk = resampler(job, replies);
            &&& request is DecodePacket <==> has_packet(job, replies)
            &&& request is MakeResampler <==> rate != job.target_sr && chunk is None
            &&& !(request is MakeResampler) ==> (chunk is Some <==> rate != job.target_sr)
            &&& match request {
                Request::MakeResampler { input_sr, target_sr, chunk, parts, channels } => {
                    &&& input_sr == rate
                    &&& target_sr == job.target_sr
                    &&& chunk == 1024
                    &&& parts == 2
                    &&& channels == 1
                },
                Request::ReadPacket => {
                    &&& !full && !has_ended(replies) && !has_packet(job, replies)
                    &&& chunk matches Some(chunk) ==> samples.len() - had < chunk
                },
                Request::DecodePacket => has_packet(job, replies),
                Request::Resample { input } => {
                    &&& !full && !has_ended(replies) && !has_packet(job, replies)
                    &&& chunk matches Some(chunk) && had + chunk <= samples.len() && input@
                        == samples.subrange(had, had + chunk)
                },
                Request::ResampleRest { input } => {
                    &&& !full && has_ended(replies) && !is_flushed(replies)
                    &&& chunk is Some
                    &&& had < samples.len()
                    &&& input@ == samples.subrange(had, samples.len() as int)
                },
                Request::Stop => full || has_ended(replies) && (chunk is Some ==> is_flushed(
                    replies,
                ) || had == samples.len()),
            }
        }),
{
    let job = d.job();
    let samples = samples_at_rate(job, replies);
    let had = resampled(job, replies);
    lemma_matches_replies(job, replies);
    law_runs_stay_consistent(job, replies);
    if let Some(chunk) = d@.chunk {
        if had + chunk <= samples.len() {
            assert(samples.skip(had).take(chunk as int) =~= samples.subrange(had, had + chunk));
        }
        assert(samples.skip(had) =~= samples.subrange(had, samples.len() as int));
    }
}

/// The result is what there is at the target rate, as much of it as was asked for.
pub proof fn law_samples_follow_from_replies(
    d: MonoDecoding,
    replies: Seq<Reply>,
    samples: Vec<Single>,
)
    requires
        answered(d.job(), replies),
        d@ == run(d.job(), replies),
        d@.phase == Phase::Finished,
        call_ensures(MonoDecoding::into_samples, (d,), samples),
    ensures
        ({
            let out = at_target_rate(d.job(), replies);
            let max = d.job().max_samples;
            samples@ == out.take(
                if out.len() <= max {
                    out.len() as int
                } else {
                    max as int
                },
            )
        }),
{
    lemma_matches_replies(d.job(), replies);
    let out = at_target_rate(d.job(), replies);
    assert(d@.out =~= out.subrange(0, d@.out.len() as int));
    if d@.out.len() < d.job().max_samples {
        assert(out.take(out.len() as int) =~= out);
    } else {
        assert(samples@ =~= out.take(d.job().max_samples as int));
    }
}

/// A decoding begins before any reply.
pub proof fn law_decoding_begins(job: Job, d: MonoDecoding)
    requires
        call_ensures(MonoDecoding::new, (job,), d),
    ensures
        d.wf(),
        d.job() == job,
        d@ == run(job, Seq::empty()),
{
}

/// A resampler that takes samples is a reply; one that takes none is refused, and nothing
/// changes.
pub proof fn law_resampler_is_taken(
    d: &mut MonoDecoding,
    replies: Seq<Reply>,
    chunk: usize,
    r: Result<(), DecodingError>,
)
    requires
        old(d)@ == run(old(d).job(), replies),
        call_ensures(MonoDecoding::resampler_ready, (d, chunk), r),
    ensures
        final(d).wf(),
        final(d).job() == old(d).job(),
        r is Ok <==> chunk > 0,
        r matches Err(e) ==> e == DecodingError::EmptyChunk,
        final(d)@ == run(
            old(d).job(),
            if chunk > 0 {
                replies.push(Reply::Ready(chunk))
            } else {
                replies
            },
        ),
{
    assert(replies.push(Reply::Ready(chunk)).drop_last() =~= replies);
}

/// The track of a packet, or the end of the stream, is a reply.
pub proof fn law_packet_is_taken(d: &mut MonoDecoding, replies: Seq<Reply>, track_id: Option<u32>)
    requires
        old(d)@ == run(old(d).job(), replies),
        call_ensures(MonoDecoding::packet_read, (d, track_id), ()),
    ensures
        final(d).wf(),
        final(d).job() == old(d).job(),
        final(d)@ == run(old(d).job(), replies.push(Reply::Packet(track_id))),
{
    assert(replies.push(Reply::Packet(track_id)).drop_last() =~= replies);
}

/// The rate of a packet, with all of its samples, is a reply.
pub proof fn law_block_is_taken(
    d: &mut MonoDecoding,
    replies: Seq<Reply>,
    rate: u32,
    block: Vec<Single>,
)
    requires
        old(d)@ == run(old(d).job(), replies),
        call_ensures(MonoDecoding::packet_decoded, (d, Some((rate, block))), ()),
    ensures
        final(d).wf(),
        final(d).job() == old(d).job(),
        final(d)@ == run(old(d).job(), replies.push(Reply::Decoded(Some((rate, block@))))),
{
    assert(replies.push(Reply::Decoded(Some((rate, block@)))).drop_last() =~= replies);
}

/// That a packet cannot be decoded is a reply.
pub proof fn law_undecoded_packet_is_taken(d: &mut MonoDecoding, replies: Seq<Reply>)
    requires
        old(d)@ == run(old(d).job(), replies),
        call_ensures(
            MonoDecoding::packet_decoded,
            (d, None::<(u32, Vec<Single>)>),
            (),
        ),
    ensures
        final(d).wf(),
        final(d).job() == old(d).job(),
        final(d)@ == run(old(d).job(), replies.push(Reply::Decoded(None))),
{
    assert(replies.push(Reply::Decoded(None)).drop_last() =~= replies);
}

/// Of what the resampler made of a chunk, all of the first channel is a reply.
pub proof fn law_chunk_is_taken(
    d: &mut MonoDecoding,
    replies: Seq<Reply>,
    channels: Vec<Vec<Single>>,
    output: Seq<Single>,
)
    requires
        old(d)@ == run(old(d).job(), replies),
        call_ensures(MonoDecoding::chunk_resampled, (d, channels), ()),
        channels@.len() > 0 ==> output == channels@[0]@,
        channels@.len() == 0 ==> output == Seq::<Single>::empty(),
    ensures
        final(d).wf(),
        final(d).job() == old(d).job(),
        final(d)@ == run(old(d).job(), replies.push(Reply::Resampled(output))),
{
    assert(replies.push(Reply::Resampled(output)).drop_last() =~= replies);
}

/// Of what the resampler made of the end of the stream, all of the first channel is a reply.
pub proof fn law_rest_is_taken(
    d: &mut MonoDecoding,
    replies: Seq<Reply>,
    channels: Vec<Vec<Single>>,
    output: Seq<Single>,
)
    requires
        old(d)@ == run(old(d).job(), replies),
        call_ensures(MonoDecoding::rest_resampled, (d, channels), ()),
        channels@.len() > 0 ==> output == channels@[0]@,
        channels@.len() == 0 ==> output == Seq::<Single>::empty(),
    ensures
        final(d).wf(),
        final(d).job() == old(d).job(),
        final(d)@ == run(old(d).job(), replies.push(Reply::Flushed(output))),
{
    assert(replies.push(Reply::Flushed(output)).drop_last() =~= replies);
}

} // verus!
