//! What holds of a decoding from its first reply to its last.
use vstd::prelude::*;

use crate::decoding::{
    asks, beginning, consistent, cut, effective_rate, fits, step, Job, Phase, Progress, Reply,
    Request,
};
use crate::single::Single;

verus! {

/// The state after all of `replies`.
pub open spec fn run(job: Job, replies: Seq<Reply>) -> Progress
    decreases replies.len(),
{
    if replies.len() == 0 {
        beginning(job)
    } else {
        step(job, run(job, replies.drop_last()), replies.last())
    }
}

/// Whether each of `replies` answers what was asked for.
pub open spec fn answered(job: Job, replies: Seq<Reply>) -> bool
    decreases replies.len(),
{
    replies.len() > 0 ==> {
        &&& answered(job, replies.drop_last())
        &&& fits(run(job, replies.drop_last()), replies.last())
    }
}

/// A reply is taken exactly where it is waited for; a resampler has to take samples.
pub proof fn law_replies_answer_what_is_waited_for(
    p: Progress,
    chunk: usize,
    track_id: Option<u32>,
    decoded: Option<(u32, Seq<Single>)>,
    output: Seq<Single>,
)
    ensures
        fits(p, Reply::Ready(chunk)) <==> p.phase is Setup && chunk > 0,
        fits(p, Reply::Packet(track_id)) <==> p.phase is Reading,
        fits(p, Reply::Decoded(decoded)) <==> p.phase is Decoding,
        fits(p, Reply::Resampled(output)) <==> p.phase is Resampling,
        fits(p, Reply::Flushed(output)) <==> p.phase is Flushing,
{
}

/// The samples of the blocks decoded since their rate last changed.
pub open spec fn supplied(job: Job, replies: Seq<Reply>) -> Seq<Single>
    decreases replies.len(),
{
    if replies.len() == 0 {
        Seq::empty()
    } else {
        let before = supplied(job, replies.drop_last());
        let p = run(job, replies.drop_last());
        match replies.last() {
            Reply::Decoded(Some((rate, block))) => if effective_rate(job, p, rate)
                == p.input_sr {
                before + block
            } else {
                block
            },
            _ => before,
        }
    }
}

/// The samples that were handed to the resampler in use.
pub open spec fn handed(job: Job, replies: Seq<Reply>) -> Seq<Single>
    decreases replies.len(),
{
    if replies.len() == 0 {
        Seq::empty()
    } else {
        let before = handed(job, replies.drop_last());
        let p = run(job, replies.drop_last());
        match replies.last() {
            Reply::Decoded(Some((rate, _))) => if effective_rate(job, p, rate) == p.input_sr {
                before
            } else {
                Seq::empty()
            },
            Reply::Resampled(_) => before + p.unread.take(p.chunk->0 as int),
            Reply::Flushed(_) => before + p.unread,
            _ => before,
        }
    }
}

/// The samples that came out at the target rate: blocks that have it already, and what the
/// resamplers gave.
pub open spec fn produced(job: Job, replies: Seq<Reply>) -> Seq<Single>
    decreases replies.len(),
{
    if replies.len() == 0 {
        Seq::empty()
    } else {
        let before = produced(job, replies.drop_last());
        let p = run(job, replies.drop_last());
        match replies.last() {
            Reply::Decoded(Some((rate, block))) => if effective_rate(job, p, rate)
                == job.target_sr {
                before + block
            } else {
                before
            },
            Reply::Resampled(output) => before + output,
            Reply::Flushed(output) => before + output,
            _ => before,
        }
    }
}

/// Every state that a run leads to is consistent.
pub proof fn law_runs_stay_consistent(job: Job, replies: Seq<Reply>)
    requires
        answered(job, replies),
    ensures
        consistent(job, run(job, replies)),
    decreases replies.len(),
{
    if replies.len() > 0 {
        law_runs_stay_consistent(job, replies.drop_last());
    }
}

/// No sample is lost, repeated or reordered on its way to the resampler: what it was handed,
/// followed by what it has not had, is what was decoded at the current rate.
pub proof fn law_resampler_input_is_complete(job: Job, replies: Seq<Reply>)
    requires
        answered(job, replies),
        run(job, replies).chunk is Some,
    ensures
        handed(job, replies) + run(job, replies).unread == supplied(job, replies),
{
    lemma_input_is_complete(job, replies);
}

proof fn lemma_input_is_complete(job: Job, replies: Seq<Reply>)
    requires
        answered(job, replies),
    ensures
        run(job, replies).chunk is Some ==> handed(job, replies) + run(job, replies).unread
            == supplied(job, replies),
        run(job, replies).phase == Phase::Setup ==> {
            &&& handed(job, replies).len() == 0
            &&& supplied(job, replies) == match run(job, replies).held {
                Some(block) => block,
                None => Seq::empty(),
            }
        },
    decreases replies.len(),
{
    if replies.len() > 0 {
        let earlier = replies.drop_last();
        let p = run(job, earlier);
        lemma_input_is_complete(job, earlier);
        law_runs_stay_consistent(job, earlier);
        match replies.last() {
            Reply::Ready(chunk) => {
                assert(handed(job, replies) + run(job, replies).unread =~= supplied(
                    job,
                    replies,
                ));
            },
            Reply::Decoded(Some((rate, block))) => {
                assert((handed(job, earlier) + p.unread) + block =~= handed(job, earlier) + (
                p.unread + block));
            },
            Reply::Resampled(output) => {
                let chunk = p.chunk->0 as int;
                assert(p.unread.take(chunk) + p.unread.skip(chunk) =~= p.unread);
                assert((handed(job, earlier) + p.unread.take(chunk)) + p.unread.skip(chunk)
                    =~= handed(job, earlier) + p.unread);
            },
            Reply::Flushed(output) => {
                assert((handed(job, earlier) + p.unread) + Seq::<Single>::empty() =~= handed(
                    job,
                    earlier,
                ) + p.unread);
            },
            _ => {},
        }
    }
}

/// The result is what came out at the target rate, in order; at the end it is cut to length.
pub proof fn law_result_is_what_came_out(job: Job, replies: Seq<Reply>)
    requires
        answered(job, replies),
    ensures
        run(job, replies).phase != Phase::Finished ==> run(job, replies).out == produced(
            job,
            replies,
        ),
        run(job, replies).phase == Phase::Finished ==> run(job, replies).out == cut(
            produced(job, replies),
            job.max_samples,
        ),
    decreases replies.len(),
{
    if replies.len() > 0 {
        let earlier = replies.drop_last();
        law_result_is_what_came_out(job, earlier);
        law_runs_stay_consistent(job, earlier);
    }
}

/// The result never exceeds the length asked for.
pub proof fn law_result_is_bounded(job: Job, replies: Seq<Reply>)
    requires
        answered(job, replies),
        run(job, replies).phase == Phase::Finished,
    ensures
        run(job, replies).out.len() <= job.max_samples,
{
    law_runs_stay_consistent(job, replies);
}

/// Where a stream ends before the result is long enough, the resampler has had all of it.
pub proof fn law_short_stream_is_resampled_whole(job: Job, replies: Seq<Reply>)
    requires
        answered(job, replies),
        run(job, replies).phase == Phase::Finished,
        run(job, replies).chunk is Some,
        run(job, replies).out.len() < job.max_samples,
    ensures
        handed(job, replies) == supplied(job, replies),
{
    lemma_input_is_complete(job, replies);
    lemma_finished_early(job, replies);
    assert(handed(job, replies) + Seq::<Single>::empty() =~= handed(job, replies));
    assert(run(job, replies).unread =~= Seq::<Single>::empty());
}

proof fn lemma_finished_early(job: Job, replies: Seq<Reply>)
    requires
        answered(job, replies),
        run(job, replies).phase == Phase::Finished,
        run(job, replies).out.len() < job.max_samples,
    ensures
        run(job, replies).chunk is Some ==> run(job, replies).unread.len() == 0,
{
    if replies.len() > 0 {
        law_runs_stay_consistent(job, replies.drop_last());
    }
}

/// Whether every block has the target rate: by the account of the container, or, where it
/// gives no rate, by that of the packets.
pub open spec fn rates_match(job: Job, replies: Seq<Reply>) -> bool {
    match job.declared_sr {
        Some(rate) => rate == job.target_sr,
        None => forall|i: int|
            0 <= i < replies.len() ==> (#[trigger] replies[i] matches Reply::Decoded(
                Some((rate, _)),
            ) ==> rate == job.target_sr),
    }
}

/// A file that has the target rate is not resampled: the result is the decoded blocks one
/// after the other, cut to length.
pub proof fn law_matching_rate_passes_through(job: Job, replies: Seq<Reply>)
    requires
        answered(job, replies),
        rates_match(job, replies),
        run(job, replies).phase == Phase::Finished,
    ensures
        run(job, replies).chunk is None,
        run(job, replies).out == cut(supplied(job, replies), job.max_samples),
{
    law_runs_stay_consistent(job, replies);
    law_result_is_what_came_out(job, replies);
    lemma_passes_through(job, replies);
}

proof fn lemma_passes_through(job: Job, replies: Seq<Reply>)
    requires
        answered(job, replies),
        rates_match(job, replies),
    ensures
        run(job, replies).input_sr == job.target_sr,
        run(job, replies).phase != Phase::Setup,
        produced(job, replies) == supplied(job, replies),
    decreases replies.len(),
{
    if replies.len() > 0 {
        let earlier = replies.drop_last();
        assert forall|i: int| 0 <= i < earlier.len() implies earlier[i] == #[trigger] replies[i] by {
        }
        assert(replies[replies.len() - 1] == replies.last());
        lemma_passes_through(job, earlier);
        law_runs_stay_consistent(job, earlier);
    }
}

/// The resampler is asked for whole chunks, and at the end for the rest, which is not empty
/// and fills no chunk.
pub proof fn law_resampler_requests_have_chunk_length(job: Job, p: Progress, request: Request)
    requires
        consistent(job, p),
        asks(job, p, request),
    ensures
        request matches Request::Resample { input } ==> input@.len() == p.chunk->0 && input@.len()
            > 0,
        request matches Request::ResampleRest { input } ==> 0 < input@.len() < p.chunk->0,
{
}

/// Each chunk that the resampler answers for is consumed, so that after finitely many the
/// samples left fill none.
pub proof fn law_resampling_consumes_chunks(job: Job, p: Progress, output: Seq<Single>)
    requires
        consistent(job, p),
        p.phase == Phase::Resampling,
    ensures
        ({
            let q = step(job, p, Reply::Resampled(output));
            &&& q.unread == p.unread.skip(p.chunk->0 as int)
            &&& q.unread.len() < p.unread.len()
        }),
{
}

/// Packets of other tracks, and packets that cannot be decoded, change nothing.
pub proof fn law_useless_packets_change_nothing(job: Job, p: Progress, other: u32)
    requires
        p.phase == Phase::Reading,
        other != job.track_id,
    ensures
        step(job, p, Reply::Packet(Some(other))) == p,
        step(job, step(job, p, Reply::Packet(Some(job.track_id))), Reply::Decoded(None)) == p,
{
}

/// A rate that the container gives stands whatever the packets say; without one, the rate of
/// the block decoded last counts.
pub proof fn law_rate_in_effect(job: Job, p: Progress, rate: u32, block: Seq<Single>)
    requires
        consistent(job, p),
        p.phase == Phase::Decoding,
    ensures
        step(job, p, Reply::Decoded(Some((rate, block)))).input_sr == match job.declared_sr {
            Some(declared) => declared,
            None => rate,
        },
{
}

/// Where the rate of the blocks changes, samples of the old rate that the resampler has not
/// had are dropped, and the new block comes first.
pub proof fn law_rate_change_starts_over(job: Job, p: Progress, rate: u32, block: Seq<Single>)
    requires
        consistent(job, p),
        p.phase == Phase::Decoding,
        job.declared_sr is None,
        rate != p.input_sr,
        rate != job.target_sr,
    ensures
        ({
            let q = step(job, p, Reply::Decoded(Some((rate, block))));
            &&& q.phase == Phase::Setup
            &&& q.unread.len() == 0
            &&& q.held == Some(block)
            &&& q.out == p.out
        }),
{
}

} // verus!
