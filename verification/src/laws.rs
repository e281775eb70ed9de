//! What holds of every channel, device and streamer, whatever was done to it.

use crate::channel::Channel;
use crate::compile_cache::{
    compiled, is_edge, lemma_compiled_unique, lemma_seg_of, lemma_seg_of_is,
    lemma_segment_source, lemma_span_segs, lemma_window_chunk, seg_of, seg_start, source_at,
    window_chunks,
};
use crate::device::{lemma_last_end_upto, lemma_stop_upto, Device};
use crate::error::Error;
use crate::streamer::{lemma_dev_searches, Streamer};
use vstd::prelude::*;

verus! {

/// The compile cache of a channel holds as many end positions as functions,
/// at all times.
pub proof fn law_parallel_arrays<F, T>(chan: Channel<F, T>)
    requires
        chan.wf(),
    ensures
        chan.ends().len() == chan.fns().len(),
{
}

/// The end positions of a compile cache ascend strictly, and the first one
/// lies behind tick zero, at all times.
pub proof fn law_ends_ascend<F, T>(chan: Channel<F, T>)
    requires
        chan.wf(),
    ensures
        forall|i: int, j: int| 0 <= i < j < chan.ends().len() ==> chan.ends()[i] < chan.ends()[j],
        chan.ends().len() > 0 ==> chan.ends()[0] > 0,
{
}

/// Every end position of a freshly compiled channel is an edge: the start of
/// an instruction, the explicit end of one, or the stop position, which is the
/// last of them. Every edge is an end position.
pub proof fn law_ends_are_edges<F, T>(chan: Channel<F, T>, p: u64)
    requires
        chan.wf(),
        chan.active(),
        chan.fresh(),
    ensures
        chan.ends().len() > 0,
        chan.ends().contains(p) <==> is_edge(chan.instrs(), chan.stop(), p),
        chan.ends().contains(p) ==> 0 < p <= chan.stop(),
{
    if chan.ends().contains(p) {
        let i = choose|i: int| 0 <= i < chan.ends().len() && chan.ends()[i] == p;
        let last = chan.ends().len() - 1;
        assert(i == last || chan.ends()[i] < chan.ends()[last]);
        assert(i == 0 || chan.ends()[0] < chan.ends()[i]);
    }
}

/// The segments of a freshly compiled channel cover the ticks from zero to
/// the stop position without gap or overlap: every tick before the stop
/// position lies in one segment, and in no other.
pub proof fn law_coverage_contiguous<F, T>(chan: Channel<F, T>, p: u64, i: int)
    requires
        chan.wf(),
        chan.active(),
        chan.fresh(),
    ensures
        p < chan.stop() ==> 0 <= seg_of(chan.ends(), p) < chan.ends().len() && seg_start(
            chan.ends(),
            seg_of(chan.ends(), p),
        ) <= p < chan.ends()[seg_of(chan.ends(), p)],
        0 <= i < chan.ends().len() && seg_start(chan.ends(), i) <= p < chan.ends()[i] ==> p
            < chan.stop() && i == seg_of(chan.ends(), p),
{
    let ends = chan.ends();
    lemma_seg_of(ends, p);
    if p < chan.stop() {
        if seg_of(ends, p) == ends.len() {
            assert(ends[ends.len() - 1] <= p);
        }
    }
    if 0 <= i < ends.len() && seg_start(ends, i) <= p < ends[i] {
        let last = ends.len() - 1;
        assert(i == last || ends[i] < ends[last]);
        lemma_seg_of_is(ends, p, i);
    }
}

/// Every segment of a freshly compiled channel plays, on each of its ticks,
/// what the edit cache says the channel plays there.
pub proof fn law_segments_play_edit_cache<F, T>(chan: Channel<F, T>, p: u64)
    requires
        chan.wf(),
        chan.active(),
        chan.fresh(),
        p < chan.stop(),
    ensures
        0 <= seg_of(chan.ends(), p) < chan.fns().len(),
        chan.fns()[seg_of(chan.ends(), p)] == source_at(chan.instrs(), p),
{
    lemma_segment_source(chan.instrs(), chan.ends(), chan.fns(), chan.stop(), p);
}

/// What `eval_point` returns for a tick is what `fill_samps` plans for that
/// tick in any window that holds it: the chunk of the window that holds the
/// tick belongs to a segment whose function is the value of `eval_point`.
pub proof fn law_eval_point_agrees_with_fill<F, T>(
    chan: Channel<F, T>,
    start_pos: u64,
    n_samps: usize,
    k: u64,
)
    requires
        chan.wf(),
        chan.active(),
        chan.fresh(),
        start_pos + n_samps <= chan.stop(),
        start_pos <= k < start_pos + n_samps,
    ensures
        chan.fill_plan(start_pos, n_samps) is Ok,
        ({
            let plan = chan.fill_plan(start_pos, n_samps)->Ok_0;
            let j = seg_of(chan.ends(), k) - seg_of(chan.ends(), start_pos);
            &&& 0 <= j < plan.len()
            &&& plan[j].lo <= k - start_pos < plan[j].hi
            &&& plan[j].seg < chan.fns().len()
            &&& chan.fns()[plan[j].seg as int] == source_at(chan.instrs(), k)
        }),
{
    let ends = chan.ends();
    let we = (start_pos + n_samps) as u64;
    let first = seg_of(ends, start_pos);
    let last = seg_of(ends, (we - 1) as u64);
    let s = seg_of(ends, k);
    lemma_span_segs(ends, start_pos, we);
    lemma_seg_of(ends, start_pos);
    lemma_seg_of(ends, (we - 1) as u64);
    lemma_seg_of(ends, k);
    lemma_segment_source(chan.instrs(), ends, chan.fns(), chan.stop(), k);
    if s < first {
        assert(ends[s] <= start_pos);
    }
    if s > last {
        assert(ends[last] <= k);
    }
    lemma_window_chunk(ends, start_pos, n_samps, s);
    let plan = window_chunks(ends, start_pos, n_samps);
    assert(plan[s - first] == crate::compile_cache::window_chunk(ends, start_pos, n_samps, s));
}

/// Compiling twice to the same stop position gives the same compile cache:
/// an edit cache has one compilation for each stop position.
pub proof fn law_compile_idempotent<F, T>(once: Channel<F, T>, twice: Channel<F, T>, stop_pos: u64)
    requires
        once.instrs() == twice.instrs(),
        compiled(once.instrs(), once.ends(), once.fns(), stop_pos),
        compiled(twice.instrs(), twice.ends(), twice.fns(), stop_pos),
    ensures
        once.ends() == twice.ends(),
        once.fns() == twice.fns(),
{
    lemma_compiled_unique(
        once.instrs(),
        once.ends(),
        once.fns(),
        twice.ends(),
        twice.fns(),
        stop_pos,
    );
}

/// A device whose channels with instructions are all compiled up to one stop
/// position has a valid compile cache, and stops there: after a compilation
/// all channels with instructions stop at the same position.
pub proof fn law_device_uniform<F, T>(dev: Device<F, T>, stop_pos: u64)
    requires
        dev.wf(),
        dev.active(),
        dev.compiled_to(stop_pos),
    ensures
        dev.same_stop(),
        dev.all_fresh(),
        dev.validation() is Ok,
        dev.stop() == stop_pos,
{
    let n = dev.channels().len() as int;
    lemma_last_end_upto(dev.channels(), n);
    lemma_stop_upto(dev.channels(), n);
}

/// A device compiles up to the position asked for, or one tick further.
pub proof fn law_stop_within_one_tick<F, T>(dev: Device<F, T>, stop_tick: u64)
    ensures
        stop_tick <= dev.stop_for(stop_tick) <= stop_tick + 1,
{
}

/// After a streamer has compiled, every device with instructions has a valid
/// compile cache that stops at the position given for it or one tick behind
/// it, and the streamer's compile caches are valid.
pub proof fn law_streamer_agreement<FA, A: Clone, FD>(
    before: Streamer<FA, A, FD>,
    after: Streamer<FA, A, FD>,
    stop_ticks: Seq<u64>,
)
    requires
        before.active(),
        stop_ticks.len() == before.devices().len(),
        after.compiled_of(&before, stop_ticks),
    ensures
        forall|i: int|
            0 <= i < after.devices().len() && (#[trigger] after.devices()[i]).active() ==> {
                &&& after.devices()[i].validation() is Ok
                &&& stop_ticks[i] <= after.devices()[i].stop() <= stop_ticks[i] + 1
            },
        after.validation() is Ok,
{
    let n = after.devices().len() as int;
    assert forall|i: int| 0 <= i < n && (#[trigger] after.devices()[i]).active() implies {
        &&& after.devices()[i].validation() is Ok
        &&& stop_ticks[i] <= after.devices()[i].stop() <= stop_ticks[i] + 1
    } by {
        assert(after.devices()[i].compiled_as(&before.devices()[i], stop_ticks[i]));
        match before.devices()[i] {
            crate::streamer::TypedDev::AO(old) => law_stop_within_one_tick(old, stop_ticks[i]),
            crate::streamer::TypedDev::DO(old) => law_stop_within_one_tick(old, stop_ticks[i]),
        }
    }
    lemma_dev_searches(before.devices(), stop_ticks, n);
    lemma_dev_searches(after.devices(), stop_ticks, n);
    let w = choose|i: int| 0 <= i < n && (#[trigger] before.devices()[i]).active();
    assert(after.devices()[w].compiled_as(&before.devices()[w], stop_ticks[w]));
    assert(after.devices()[w].active());
}

/// Planning the samples of a window twice on the same device gives the same
/// plan: the plan depends on the channels and the window alone.
pub proof fn law_calc_samps_repeatable<F, T>(
    first: Device<F, T>,
    second: Device<F, T>,
    buf_len: usize,
    start_pos: u64,
    end_pos: u64,
)
    requires
        first.channels() == second.channels(),
    ensures
        first.samps_plan(buf_len, start_pos, end_pos) == second.samps_plan(
            buf_len,
            start_pos,
            end_pos,
        ),
{
}

/// An error of a compilation leaves the compile cache empty, so that no
/// stale plan is handed out: a channel that is not fresh refuses to plan.
pub proof fn law_stale_refuses<F, T>(chan: Channel<F, T>, start_pos: u64, n_samps: usize)
    requires
        chan.active(),
        !chan.fresh(),
    ensures
        chan.fill_plan(start_pos, n_samps) == Err::<Seq<crate::compile_cache::Chunk>, Error>(
            Error::StaleCompile,
        ),
{
}

} // verus!
