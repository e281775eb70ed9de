//! Devices: a set of channels on one sample clock, compiled to one common stop
//! position.

use crate::channel::Channel;
use crate::compile_cache::{compiled, lemma_window_chunks, window_chunks, Chunk};
use crate::edit_cache::{last_end, last_key};
use crate::error::Error;
use itertools::Itertools;
use vstd::prelude::*;

verus! {

/// The later of two optional end positions.
pub open spec fn later_end(a: Option<u64>, b: Option<u64>) -> Option<u64> {
    match (a, b) {
        (Some(x), Some(y)) => if x >= y {
            Some(x)
        } else {
            Some(y)
        },
        (Some(x), None) => Some(x),
        (None, b) => b,
    }
}

/// The end of the last instruction on the first `n` channels.
pub open spec fn last_end_upto<F, T>(chans: Seq<Channel<F, T>>, n: int) -> Option<u64>
    decreases n,
{
    if n <= 0 {
        None
    } else {
        later_end(last_end_upto(chans, n - 1), last_end(chans[n - 1].instrs()))
    }
}

/// The number of channels with instructions among the first `n`.
pub open spec fn active_upto<F, T>(chans: Seq<Channel<F, T>>, n: int) -> int
    decreases n,
{
    if n <= 0 {
        0
    } else if chans[n - 1].active() {
        active_upto(chans, n - 1) + 1
    } else {
        active_upto(chans, n - 1)
    }
}

/// The last instruction of the channel has an explicit end at `stop_tick`.
pub open spec fn ends_at<F, T>(chan: Channel<F, T>, stop_tick: u64) -> bool {
    last_key(chan.instrs()) matches Some(k) && chan.instrs()[k].end() == Some(stop_tick)
}

/// `last_end_upto` is the greatest end among the channels that have
/// instructions, and `None` where none has.
pub proof fn lemma_last_end_upto<F, T>(chans: Seq<Channel<F, T>>, n: int)
    requires
        0 <= n <= chans.len(),
    ensures
        match last_end_upto(chans, n) {
            Some(e) => {
                &&& exists|i: int| 0 <= i < n && #[trigger] chans[i].active() && last_end(
                    chans[i].instrs(),
                ) == Some(e)
                &&& forall|i: int|
                    0 <= i < n && #[trigger] chans[i].active() ==> last_end(
                        chans[i].instrs(),
                    )->Some_0 <= e
            },
            None => forall|i: int| 0 <= i < n ==> !#[trigger] chans[i].active(),
        },
        (last_end_upto(chans, n) is Some) == (active_upto(chans, n) > 0),
        0 <= active_upto(chans, n) <= n,
    decreases n,
{
    if n > 0 {
        lemma_last_end_upto(chans, n - 1);
        let prev = last_end_upto(chans, n - 1);
        let here = last_end(chans[n - 1].instrs());
        match last_end_upto(chans, n) {
            Some(e) => {
                if here == Some(e) {
                    assert(chans[n - 1].active());
                } else {
                    let i = choose|i: int|
                        0 <= i < n - 1 && #[trigger] chans[i].active() && last_end(
                            chans[i].instrs(),
                        ) == Some(e);
                    assert(0 <= i < n && chans[i].active());
                }
            },
            None => {},
        }
    }
}

/// The stop position of the last channel with instructions among the first
/// `n`.
pub open spec fn stop_upto<F, T>(chans: Seq<Channel<F, T>>, n: int) -> u64
    decreases n,
{
    if n <= 0 {
        0
    } else if chans[n - 1].active() {
        chans[n - 1].stop()
    } else {
        stop_upto(chans, n - 1)
    }
}

/// `stop_upto` is the stop position of a channel with instructions, where
/// there is one.
pub proof fn lemma_stop_upto<F, T>(chans: Seq<Channel<F, T>>, n: int)
    requires
        0 <= n <= chans.len(),
    ensures
        active_upto(chans, n) > 0 ==> exists|i: int|
            0 <= i < n && (#[trigger] chans[i]).active() && chans[i].stop() == stop_upto(chans, n),
    decreases n,
{
    if n > 0 {
        lemma_stop_upto(chans, n - 1);
        lemma_last_end_upto(chans, n - 1);
        if chans[n - 1].active() {
        } else if active_upto(chans, n) > 0 {
            let i = choose|i: int|
                0 <= i < n - 1 && (#[trigger] chans[i]).active() && chans[i].stop() == stop_upto(
                    chans,
                    n - 1,
                );
            assert(0 <= i < n && chans[i].active());
        }
    }
}

/// The channels with instructions are counted in order.
pub proof fn lemma_active_upto_mono<F, T>(chans: Seq<Channel<F, T>>, a: int, b: int)
    requires
        0 <= a <= b <= chans.len(),
    ensures
        0 <= active_upto(chans, a) <= active_upto(chans, b),
        a < b && chans[a].active() ==> active_upto(chans, a) < active_upto(chans, b),
    decreases b - a,
{
    lemma_last_end_upto(chans, a);
    if a < b {
        lemma_active_upto_mono(chans, a, b - 1);
    }
}

/// Channels with the same instructions are active alike and end alike.
pub proof fn lemma_same_instrs<F, T>(a: Seq<Channel<F, T>>, b: Seq<Channel<F, T>>, n: int)
    requires
        0 <= n <= a.len(),
        n <= b.len(),
        forall|i: int| 0 <= i < n ==> (#[trigger] a[i]).instrs() == b[i].instrs(),
    ensures
        last_end_upto(a, n) == last_end_upto(b, n),
        active_upto(a, n) == active_upto(b, n),
    decreases n,
{
    if n > 0 {
        lemma_same_instrs(a, b, n - 1);
        assert(a[n - 1].instrs() == b[n - 1].instrs());
    }
}

/// Among the first `upto` channels, one with instructions stops at `pos`.
pub open spec fn stops_at<F, T>(chans: Seq<Channel<F, T>>, upto: int, pos: u64) -> bool {
    exists|i: int| 0 <= i < upto && (#[trigger] chans[i]).active() && chans[i].stop() == pos
}

/// One slice of a device's sample buffer: the samples `lo..hi` of the window
/// of channel `chan` come from segment `seg` of that channel's compile cache
/// and stand in the buffer from index `at` on.
#[derive(Clone, Copy, Debug, PartialEq, Eq, Structural)]
pub struct RowChunk {
    pub chan: usize,
    pub seg: usize,
    pub lo: usize,
    pub hi: usize,
    pub at: usize,
}

/// A chunk of the window of channel `chan`, placed in row `row` of a buffer
/// with rows of `n` samples.
pub open spec fn row_chunk(chan: int, row: int, n: int, c: Chunk) -> RowChunk {
    RowChunk { chan: chan as usize, seg: c.seg, lo: c.lo, hi: c.hi, at: (row * n + c.lo) as usize }
}

/// The window of channel `i`, placed in the row of that channel: rows are
/// given to the channels with instructions, in order.
pub open spec fn row_plan<F, T>(chans: Seq<Channel<F, T>>, i: int, start_pos: u64, n: usize) -> Seq<
    RowChunk,
> {
    window_chunks(chans[i].ends(), start_pos, n).map_values(
        |c: Chunk| row_chunk(i, active_upto(chans, i), n as int, c),
    )
}

/// The rows of the first `upto` channels, one behind the other.
pub open spec fn plan_upto<F, T>(
    chans: Seq<Channel<F, T>>,
    upto: int,
    start_pos: u64,
    n: usize,
) -> Seq<RowChunk>
    decreases upto,
{
    if upto <= 0 {
        Seq::empty()
    } else if chans[upto - 1].active() {
        plan_upto(chans, upto - 1, start_pos, n) + row_plan(chans, upto - 1, start_pos, n)
    } else {
        plan_upto(chans, upto - 1, start_pos, n)
    }
}

/// `Itertools::all_equal` on the items of a vector: whether all of them are
/// equal. It compares the first item with each of the others; no item at all
/// counts as all equal.
#[verifier::external_body]
fn all_equal(v: &Vec<u64>) -> (same: bool)
    ensures
        same <==> forall|i: int, j: int| 0 <= i < v@.len() && 0 <= j < v@.len() ==> v@[i] == v@[j],
{
    v.iter().all_equal()
}

/// Appends the chunks of one channel's window to a device plan, placed in
/// the channel's row.
fn push_row(plan: &mut Vec<RowChunk>, chunks: &Vec<Chunk>, chan: usize, row: usize, n: usize)
    requires
        forall|j: int| 0 <= j < chunks@.len() ==> (#[trigger] chunks@[j]).lo <= n,
        row * n + n <= usize::MAX,
    ensures
        final(plan)@ == old(plan)@ + chunks@.map_values(
            |c: Chunk| row_chunk(chan as int, row as int, n as int, c),
        ),
{
    let ghost before = plan@;
    let ghost place = |c: Chunk| row_chunk(chan as int, row as int, n as int, c);
    assert(row * n <= usize::MAX) by (nonlinear_arith)
        requires
            row * n + n <= usize::MAX,
            0 <= n,
    ;
    let base: usize = row * n;
    let len: usize = chunks.len();
    let mut j: usize = 0;
    while j < len
        invariant
            len == chunks@.len(),
            j <= len,
            base == row * n,
            base + n <= usize::MAX,
            place == |c: Chunk| row_chunk(chan as int, row as int, n as int, c),
            forall|k: int| 0 <= k < chunks@.len() ==> (#[trigger] chunks@[k]).lo <= n,
            plan@ == before + chunks@.take(j as int).map_values(place),
        decreases len - j,
    {
        let c: Chunk = chunks[j];
        plan.push(RowChunk { chan, seg: c.seg, lo: c.lo, hi: c.hi, at: base + c.lo });
        proof {
            let done = chunks@.take(j as int).map_values(place);
            let next = chunks@.take(j + 1).map_values(place);
            assert(next =~= done.push(place(chunks@[j as int])));
            assert(plan@ =~= before + next);
        }
        j += 1;
    }
    assert(chunks@.take(len as int) =~= chunks@);
}

/// A device: named, with channels of distinct names.
pub struct Device<F, T> {
    name: String,
    chans: Vec<Channel<F, T>>,
}

impl<F, T> Device<F, T> {
    /// The device's name.
    pub closed spec fn label(&self) -> Seq<char> {
        self.name@
    }

    /// The channels, in the order in which they were added.
    pub closed spec fn channels(&self) -> Seq<Channel<F, T>> {
        self.chans@
    }

    /// The device invariant: every channel is well-formed, and no two
    /// channels have the same name.
    pub open spec fn wf(&self) -> bool {
        &&& forall|i: int| 0 <= i < self.channels().len() ==> (#[trigger] self.channels()[i]).wf()
        &&& forall|i: int, j: int|
            0 <= i < j < self.channels().len() ==> (#[trigger] self.channels()[i]).label() != (
            #[trigger] self.channels()[j]).label()
    }

    /// A channel of the device is called `name`.
    pub open spec fn has_chan(&self, name: Seq<char>) -> bool {
        exists|i: int| 0 <= i < self.channels().len()
            && (#[trigger] self.channels()[i]).label() == name
    }

    /// Some channel has instructions.
    pub open spec fn active(&self) -> bool {
        last_end_upto(self.channels(), self.channels().len() as int) is Some
    }

    /// The number of channels with instructions.
    pub open spec fn n_active(&self) -> int {
        active_upto(self.channels(), self.channels().len() as int)
    }

    /// The end of the last instruction on any channel.
    pub open spec fn last_end(&self) -> Option<u64> {
        last_end_upto(self.channels(), self.channels().len() as int)
    }

    /// On some channel the last instruction has an explicit end at `stop_tick`:
    /// a compilation that stopped there would leave out the closing edge.
    pub open spec fn clipped(&self, stop_tick: u64) -> bool {
        exists|i: int|
            0 <= i < self.channels().len() && ends_at(#[trigger] self.channels()[i], stop_tick)
    }

    /// The position up to which the device compiles when asked for
    /// `stop_tick`: one tick further where the closing edge would be clipped.
    pub open spec fn stop_for(&self, stop_tick: u64) -> int {
        if self.clipped(stop_tick) {
            stop_tick + 1
        } else {
            stop_tick as int
        }
    }

    /// Every channel has the instructions and the setup that it has in `other`.
    pub open spec fn same_edit_cache(&self, other: &Self) -> bool {
        &&& self.label() == other.label()
        &&& self.channels().len() == other.channels().len()
        &&& forall|i: int|
            0 <= i < self.channels().len() ==> (#[trigger] self.channels()[i]).instrs()
                == other.channels()[i].instrs()
                    && self.channels()[i].same_setup(&other.channels()[i])
    }

    /// The device is `before` with the compile cache of every channel
    /// emptied: a channel is fresh afterwards if and only if it has no
    /// instructions.
    pub open spec fn compile_cache_cleared_of(&self, before: &Self) -> bool {
        &&& self.same_edit_cache(before)
        &&& forall|i: int|
            0 <= i < self.channels().len() ==> {
                &&& (#[trigger] self.channels()[i]).ends().len() == 0
                &&& self.channels()[i].fns().len() == 0
                &&& self.channels()[i].fresh() == !before.channels()[i].active()
            }
    }

    /// The device is `before` with both caches of every channel emptied.
    pub open spec fn edit_cache_cleared_of(&self, before: &Self) -> bool {
        &&& self.label() == before.label()
        &&& self.channels().len() == before.channels().len()
        &&& !self.active()
        &&& forall|i: int|
            0 <= i < self.channels().len() ==> {
                &&& (#[trigger] self.channels()[i]).same_setup(&before.channels()[i])
                &&& !self.channels()[i].active()
                &&& self.channels()[i].ends().len() == 0
                &&& self.channels()[i].fns().len() == 0
                &&& self.channels()[i].fresh()
            }
    }

    /// Every channel with instructions is compiled up to `stop_pos`, and
    /// freshly.
    pub open spec fn compiled_to(&self, stop_pos: u64) -> bool {
        forall|i: int|
            0 <= i < self.channels().len() && (#[trigger] self.channels()[i]).active() ==> {
                &&& self.channels()[i].fresh()
                &&& self.channels()[i].stop() == stop_pos
                &&& compiled(
                    self.channels()[i].instrs(),
                    self.channels()[i].ends(),
                    self.channels()[i].fns(),
                    stop_pos,
                )
            }
    }

    /// A device without channels.
    pub fn new(name: &str) -> (dev: Self)
        ensures
            dev.wf(),
            dev.label() == name@,
            dev.channels().len() == 0,
            !dev.active(),
    {
        Device { name: name.to_owned(), chans: Vec::new() }
    }

    pub fn name(&self) -> (name: &String)
        ensures
            name@ == self.label(),
    {
        &self.name
    }

    pub fn chans(&self) -> (chans: &Vec<Channel<F, T>>)
        ensures
            chans@ == self.channels(),
    {
        &self.chans
    }

    /// The index of the channel called `name`.
    pub fn chan_index(&self, name: &str) -> (found: Option<usize>)
        ensures
            match found {
                Some(i) => i < self.channels().len() && self.channels()[i as int].label() == name@,
                None => !self.has_chan(name@),
            },
    {
        let wanted: String = name.to_owned();
        let n: usize = self.chans.len();
        let mut i: usize = 0;
        while i < n
            invariant
                n == self.channels().len(),
                i <= n,
                wanted@ == name@,
                forall|j: int| 0 <= j < i ==> (#[trigger] self.channels()[j]).label() != name@,
            decreases n - i,
        {
            if *self.chans[i].name() == wanted {
                return Some(i);
            }
            i += 1;
        }
        None
    }

    /// The channel called `name`.
    pub fn chan(&self, name: &str) -> (res: Result<&Channel<F, T>, Error>)
        ensures
            match res {
                Ok(chan) => exists|i: int|
                    0 <= i < self.channels().len() && #[trigger] self.channels()[i] == *chan
                        && chan.label() == name@,
                Err(e) => e == Error::UnknownName && !self.has_chan(name@),
            },
    {
        match self.chan_index(name) {
            Some(i) => Ok(&self.chans[i]),
            None => Err(Error::UnknownName),
        }
    }

    /// The channel called `name`, to edit it. The device holds afterwards
    /// what the caller has made of the channel.
    pub fn chan_mut(&mut self, name: &str) -> (res: Result<&mut Channel<F, T>, Error>)
        ensures
            final(self).label() == old(self).label(),
            match res {
                Ok(chan) => exists|i: int|
                    0 <= i < old(self).channels().len() && #[trigger] old(self).channels()[i]
                        == *chan
                        && chan.label() == name@ && final(self).channels()
                            == old(self).channels().update(i, *final(chan)),
                Err(e) => e == Error::UnknownName && !old(self).has_chan(name@)
                    && final(self).channels() == old(self).channels(),
            },
    {
        match self.chan_index(name) {
            Some(i) => Ok(&mut self.chans[i]),
            None => Err(Error::UnknownName),
        }
    }

    /// Tells whether a channel can be added: its name must be new.
    pub fn check_can_add_chan(&self, chan: &Channel<F, T>) -> (res: Result<(), Error>)
        ensures
            res is Ok <==> !self.has_chan(chan.label()),
            res is Err ==> res == Err::<(), Error>(Error::DuplicateName),
    {
        match self.chan_index(chan.name().as_str()) {
            Some(_) => Err(Error::DuplicateName),
            None => Ok(()),
        }
    }

    /// Adds a channel behind those that the device has. A channel whose name
    /// is taken is refused, and handed back.
    pub fn add_channel(&mut self, chan: Channel<F, T>) -> (res: Result<(), (Error, Channel<F, T>)>)
        requires
            old(self).wf(),
            chan.wf(),
        ensures
            final(self).wf(),
            final(self).label() == old(self).label(),
            match res {
                Ok(()) => !old(self).has_chan(chan.label()) && final(self).channels()
                    == old(self).channels().push(chan),
                Err((e, back)) => e == Error::DuplicateName && back == chan && old(self).has_chan(
                    chan.label(),
                ) && final(self).channels() == old(self).channels(),
            },
    {
        if self.check_can_add_chan(&chan).is_err() {
            return Err((Error::DuplicateName, chan));
        }
        self.chans.push(chan);
        proof {
            let before = old(self).channels();
            let after = self.channels();
            assert(after == before.push(chan));
            assert forall|i: int| 0 <= i < after.len() implies (#[trigger] after[i]).wf() by {
                if i < before.len() {
                    assert(after[i] == before[i]);
                }
            }
            assert forall|i: int, j: int| 0 <= i < j < after.len()
                implies (#[trigger] after[i]).label()
                != (#[trigger] after[j]).label() by {
                assert(after[i] == before[i]);
                if j < before.len() {
                    assert(after[j] == before[j]);
                }
            }
        }
        Ok(())
    }

    /// Whether some channel has instructions.
    pub fn got_instructions(&self) -> (got: bool)
        ensures
            got == self.active(),
    {
        let n: usize = self.chans.len();
        let mut i: usize = 0;
        while i < n
            invariant
                n == self.channels().len(),
                i <= n,
                last_end_upto(self.channels(), i as int) is None,
            decreases n - i,
        {
            if self.chans[i].got_instructions() {
                proof {
                    lemma_last_end_upto(self.channels(), n as int);
                }
                return true;
            }
            i += 1;
        }
        false
    }

    /// The number of channels with instructions.
    pub fn n_active_chans(&self) -> (count: usize)
        ensures
            count == self.n_active(),
    {
        let n: usize = self.chans.len();
        let mut count: usize = 0;
        let mut i: usize = 0;
        while i < n
            invariant
                n == self.channels().len(),
                i <= n,
                count == active_upto(self.channels(), i as int),
                count <= i,
            decreases n - i,
        {
            if self.chans[i].got_instructions() {
                count += 1;
            }
            i += 1;
        }
        count
    }

    /// The indices of the channels with instructions, in ascending order.
    pub fn active_chans(&self) -> (active: Vec<usize>)
        ensures
            active@.len() == self.n_active(),
            forall|k: int|
                0 <= k < active@.len() ==> (#[trigger] active@[k]) < self.channels().len()
                    && self.channels()[active@[k] as int].active(),
            forall|k: int, l: int| 0 <= k < l < active@.len() ==> active@[k] < active@[l],
            forall|i: int|
                0 <= i < self.channels().len() && (#[trigger] self.channels()[i]).active()
                    ==> active@[active_upto(self.channels(), i)] == i,
    {
        let n: usize = self.chans.len();
        let mut active: Vec<usize> = Vec::new();
        let mut i: usize = 0;
        while i < n
            invariant
                n == self.channels().len(),
                i <= n,
                active@.len() == active_upto(self.channels(), i as int),
                forall|k: int|
                    0 <= k < active@.len() ==> (#[trigger] active@[k]) < i
                        && self.channels()[active@[k] as int].active(),
                forall|k: int, l: int| 0 <= k < l < active@.len() ==> active@[k] < active@[l],
                forall|j: int|
                    0 <= j < i && (#[trigger] self.channels()[j]).active() ==> 0 <= active_upto(
                        self.channels(),
                        j,
                    ) < active@.len() && active@[active_upto(self.channels(), j)] == j,
            decreases n - i,
        {
            proof {
                lemma_last_end_upto(self.channels(), i as int);
            }
            if self.chans[i].got_instructions() {
                active.push(i);
            }
            i += 1;
        }
        active
    }

    /// The end of the last instruction on any channel.
    pub fn last_instr_end_pos(&self) -> (pos: Option<u64>)
        requires
            self.wf(),
        ensures
            pos == self.last_end(),
    {
        let n: usize = self.chans.len();
        let mut pos: Option<u64> = None;
        let mut i: usize = 0;
        while i < n
            invariant
                self.wf(),
                n == self.channels().len(),
                i <= n,
                pos == last_end_upto(self.channels(), i as int),
            decreases n - i,
        {
            let here: Option<u64> = self.chans[i].last_instr_end_pos();
            pos =
            match (pos, here) {
                (Some(x), Some(y)) => if x >= y {
                    Some(x)
                } else {
                    Some(y)
                },
                (Some(x), None) => Some(x),
                (None, b) => b,
            };
            i += 1;
        }
        pos
    }

    /// Whether a compilation that stopped at `stop_tick` would clip a closing
    /// edge: on some channel the last instruction has an explicit end right
    /// there. The tick must not lie before the end of the last instruction.
    pub fn is_closing_edge_clipped(&self, stop_tick: u64) -> (clipped: bool)
        requires
            self.wf(),
            self.last_end() matches Some(e) ==> e <= stop_tick,
        ensures
            clipped == self.clipped(stop_tick),
    {
        let n: usize = self.chans.len();
        let mut i: usize = 0;
        while i < n
            invariant
                n == self.channels().len(),
                i <= n,
                forall|j: int| 0 <= j < i ==> !ends_at(#[trigger] self.channels()[j], stop_tick),
            decreases n - i,
        {
            if let Some(last) = self.chans[i].last_instr() {
                if let Some(end_pos) = last.end_pos() {
                    if end_pos == stop_tick {
                        assert(ends_at(self.channels()[i as int], stop_tick));
                        return true;
                    }
                }
            }
            i += 1;
        }
        false
    }

    /// Compiles every channel that has instructions up to one stop position.
    ///
    /// The device must have instructions, and `stop_tick` must not lie before
    /// the end of the last one. Where the last instruction of some channel has
    /// its explicit end at `stop_tick`, the device compiles one tick further,
    /// so that the closing edge is played. On failure nothing is changed.
    pub fn compile(&mut self, stop_tick: u64) -> (res: Result<(), Error>)
        requires
            old(self).wf(),
            stop_tick < u64::MAX,
        ensures
            final(self).wf(),
            final(self).same_edit_cache(old(self)),
            match old(self).last_end() {
                None => res == Err::<(), Error>(Error::NoInstructions) && *final(self)
                    == *old(self),
                Some(e) if stop_tick < e => res == Err::<(), Error>(
                    Error::StopBeforeLast { last_end: e },
                ) && *final(self) == *old(self),
                Some(_) => {
                    &&& res is Ok
                    &&& final(self).active()
                    &&& final(self).compiled_to(old(self).stop_for(stop_tick) as u64)
                    &&& final(self).validation() is Ok
                    &&& final(self).stop() == old(self).stop_for(stop_tick)
                    &&& forall|i: int|
                        0 <= i < old(self).channels().len()
                            && !(#[trigger] old(self).channels()[i]).active()
                            ==> final(self).channels()[i] == old(self).channels()[i]
                },
            },
    {
        let last: u64 = match self.last_instr_end_pos() {
            Some(e) => e,
            None => {
                return Err(Error::NoInstructions);
            },
        };
        if stop_tick < last {
            return Err(Error::StopBeforeLast { last_end: last });
        }
        let stop_pos: u64 = if self.is_closing_edge_clipped(stop_tick) {
            stop_tick + 1
        } else {
            stop_tick
        };
        let n: usize = self.chans.len();
        let mut i: usize = 0;
        proof {
            lemma_last_end_upto(self.channels(), n as int);
        }
        while i < n
            invariant
                n == self.channels().len(),
                n == old(self).channels().len(),
                i <= n,
                self.name == old(self).name,
                old(self).wf(),
                stop_pos >= stop_tick,
                forall|j: int|
                    0 <= j < n && (#[trigger] old(self).channels()[j]).active() ==> last_end(
                        old(self).channels()[j].instrs(),
                    )->Some_0 <= stop_tick,
                forall|j: int| i <= j < n ==> #[trigger] self.channels()[j]
                    == old(self).channels()[j],
                forall|j: int|
                    0 <= j < i ==> {
                        &&& (#[trigger] self.channels()[j]).wf()
                        &&& self.channels()[j].instrs() == old(self).channels()[j].instrs()
                        &&& self.channels()[j].same_setup(&old(self).channels()[j])
                        &&& !old(self).channels()[j].active() ==> self.channels()[j]
                            == old(self).channels()[j]
                        &&& old(self).channels()[j].active() ==> {
                            &&& self.channels()[j].fresh()
                            &&& self.channels()[j].stop() == stop_pos
                            &&& compiled(
                                self.channels()[j].instrs(),
                                self.channels()[j].ends(),
                                self.channels()[j].fns(),
                                stop_pos,
                            )
                        }
                    },
            decreases n - i,
        {
            if self.chans[i].got_instructions() {
                let _ = self.chans[i].compile(stop_pos);
            }
            i += 1;
        }
        proof {
            lemma_same_instrs(self.channels(), old(self).channels(), n as int);
            lemma_last_end_upto(self.channels(), n as int);
            lemma_stop_upto(self.channels(), n as int);
        }
        Ok(())
    }

    /// Empties the compile cache of every channel.
    pub fn clear_compile_cache(&mut self)
        requires
            old(self).wf(),
        ensures
            final(self).wf(),
            final(self).compile_cache_cleared_of(old(self)),
    {
        let n: usize = self.chans.len();
        let mut i: usize = 0;
        while i < n
            invariant
                n == self.channels().len(),
                n == old(self).channels().len(),
                i <= n,
                self.name == old(self).name,
                old(self).wf(),
                forall|j: int| i <= j < n ==> #[trigger] self.channels()[j]
                    == old(self).channels()[j],
                forall|j: int|
                    0 <= j < i ==> {
                        &&& (#[trigger] self.channels()[j]).wf()
                        &&& self.channels()[j].instrs() == old(self).channels()[j].instrs()
                        &&& self.channels()[j].same_setup(&old(self).channels()[j])
                        &&& self.channels()[j].ends().len() == 0
                        &&& self.channels()[j].fns().len() == 0
                        &&& self.channels()[j].fresh() == !old(self).channels()[j].active()
                    },
            decreases n - i,
        {
            self.chans[i].clear_compile_cache();
            i += 1;
        }
    }

    /// Empties the edit cache of every channel, and with it the compile cache.
    pub fn clear_edit_cache(&mut self)
        requires
            old(self).wf(),
        ensures
            final(self).wf(),
            final(self).edit_cache_cleared_of(old(self)),
    {
        let n: usize = self.chans.len();
        let mut i: usize = 0;
        while i < n
            invariant
                n == self.channels().len(),
                n == old(self).channels().len(),
                i <= n,
                self.name == old(self).name,
                old(self).wf(),
                forall|j: int| i <= j < n ==> #[trigger] self.channels()[j]
                    == old(self).channels()[j],
                forall|j: int|
                    0 <= j < i ==> {
                        &&& (#[trigger] self.channels()[j]).wf()
                        &&& self.channels()[j].same_setup(&old(self).channels()[j])
                        &&& !self.channels()[j].active()
                        &&& self.channels()[j].ends().len() == 0
                        &&& self.channels()[j].fns().len() == 0
                        &&& self.channels()[j].fresh()
                    },
            decreases n - i,
        {
            self.chans[i].clear_edit_cache();
            i += 1;
        }
        proof {
            lemma_last_end_upto(self.channels(), n as int);
        }
    }
}

impl<F, T> Device<F, T> {
    /// Every channel with instructions has a fresh compile cache.
    pub open spec fn all_fresh(&self) -> bool {
        forall|i: int|
            0 <= i < self.channels().len() && (#[trigger] self.channels()[i]).active()
                ==> self.channels()[i].fresh()
    }

    /// All channels with instructions stop at the same position.
    pub open spec fn same_stop(&self) -> bool {
        forall|i: int, j: int|
            0 <= i < self.channels().len() && 0 <= j < self.channels().len() && (
            #[trigger] self.channels()[i]).active() && (#[trigger] self.channels()[j]).active()
                ==> self.channels()[i].stop() == self.channels()[j].stop()
    }

    /// The verdict on the compile cache: the device must have instructions,
    /// every channel with instructions must be freshly compiled, and all of
    /// them must stop at the same position.
    pub open spec fn validation(&self) -> Result<(), Error> {
        if !self.active() {
            Err(Error::NoInstructions)
        } else if !self.all_fresh() {
            Err(Error::StaleCompile)
        } else if !self.same_stop() {
            Err(Error::Inconsistent)
        } else {
            Ok(())
        }
    }

    /// The position at which the compile caches stop.
    pub open spec fn stop(&self) -> u64 {
        stop_upto(self.channels(), self.channels().len() as int)
    }

    /// The outcome that `calc_samps` owes for the window from `start_pos` to
    /// `end_pos` and a buffer of `buf_len` samples.
    pub open spec fn samps_plan(&self, buf_len: usize, start_pos: u64, end_pos: u64) -> Result<
        Seq<RowChunk>,
        Error,
    > {
        match self.validation() {
            Err(e) => Err(e),
            Ok(()) => if end_pos < start_pos + 1 || end_pos > self.stop() {
                Err(Error::WindowOutOfRange)
            } else if self.n_active() * (end_pos - start_pos) > buf_len {
                Err(Error::BufferTooSmall)
            } else {
                Ok(
                    plan_upto(
                        self.channels(),
                        self.channels().len() as int,
                        start_pos,
                        (end_pos - start_pos) as usize,
                    ),
                )
            },
        }
    }

    /// The indices of the channels that have instructions and a stale compile
    /// cache, in ascending order.
    pub fn stale_chans(&self) -> (stale: Vec<usize>)
        ensures
            forall|k: int|
                0 <= k < stale@.len() ==> (#[trigger] stale@[k]) < self.channels().len()
                    && self.channels()[stale@[k] as int].active()
                    && !self.channels()[stale@[k] as int].fresh(),
            forall|k: int, l: int| 0 <= k < l < stale@.len() ==> stale@[k] < stale@[l],
            forall|i: int|
                0 <= i < self.channels().len() && (#[trigger] self.channels()[i]).active()
                    && !self.channels()[i].fresh() ==> stale@.contains(i as usize),
            stale@.len() == 0 <==> self.all_fresh(),
    {
        let n: usize = self.chans.len();
        let mut stale: Vec<usize> = Vec::new();
        let mut i: usize = 0;
        while i < n
            invariant
                n == self.channels().len(),
                i <= n,
                forall|k: int|
                    0 <= k < stale@.len() ==> (#[trigger] stale@[k]) < i
                        && self.channels()[stale@[k] as int].active()
                        && !self.channels()[stale@[k] as int].fresh(),
                forall|k: int, l: int| 0 <= k < l < stale@.len() ==> stale@[k] < stale@[l],
                forall|j: int|
                    0 <= j < i && (#[trigger] self.channels()[j]).active()
                        && !self.channels()[j].fresh() ==> stale@.contains(j as usize),
            decreases n - i,
        {
            if self.chans[i].got_instructions() && !self.chans[i].is_fresh_compiled() {
                let ghost before = stale@;
                stale.push(i);
                proof {
                    assert(stale@[before.len() as int] == i);
                    assert forall|j: int|
                        0 <= j < i + 1 && (#[trigger] self.channels()[j]).active()
                            && !self.channels()[j].fresh() implies stale@.contains(j as usize) by {
                        if j < i {
                            let k = choose|k: int| 0 <= k < before.len() && before[k] == j as usize;
                            assert(stale@[k] == j as usize);
                        }
                    }
                }
            }
            i += 1;
        }
        proof {
            if stale@.len() > 0 {
                assert(self.channels()[stale@[0] as int].active());
            }
        }
        stale
    }

    /// The stop positions of the channels with instructions, in order. Every
    /// such channel must be freshly compiled.
    pub fn compiled_stops(&self) -> (stops: Vec<u64>)
        requires
            self.wf(),
            self.all_fresh(),
        ensures
            stops@.len() == self.n_active(),
            forall|i: int|
                0 <= i < self.channels().len() && (#[trigger] self.channels()[i]).active() ==> 0
                    <= active_upto(self.channels(), i) < stops@.len() && stops@[active_upto(
                    self.channels(),
                    i,
                )] == self.channels()[i].stop(),
            forall|k: int|
                0 <= k < stops@.len() ==> stops_at(
                    self.channels(),
                    self.channels().len() as int,
                    #[trigger] stops@[k],
                ),
    {
        let n: usize = self.chans.len();
        let mut stops: Vec<u64> = Vec::new();
        let mut i: usize = 0;
        while i < n
            invariant
                self.wf(),
                self.all_fresh(),
                n == self.channels().len(),
                i <= n,
                stops@.len() == active_upto(self.channels(), i as int),
                forall|j: int|
                    0 <= j < i && (#[trigger] self.channels()[j]).active() ==> 0 <= active_upto(
                        self.channels(),
                        j,
                    ) < stops@.len() && stops@[active_upto(self.channels(), j)]
                        == self.channels()[j].stop(),
                forall|k: int|
                    0 <= k < stops@.len() ==> stops_at(
                        self.channels(),
                        i as int,
                        #[trigger] stops@[k],
                    ),
            decreases n - i,
        {
            proof {
                lemma_last_end_upto(self.channels(), i as int);
            }
            if self.chans[i].got_instructions() {
                let ghost before = stops@;
                let stop: u64 = self.chans[i].compiled_stop_pos();
                stops.push(stop);
                proof {
                    assert forall|k: int| 0 <= k < stops@.len() implies stops_at(
                        self.channels(),
                        i + 1,
                        #[trigger] stops@[k],
                    ) by {
                        if k < before.len() {
                            assert(stops@[k] == before[k]);
                            assert(stops_at(self.channels(), i as int, before[k]));
                            let j = choose|j: int|
                                0 <= j < i && (#[trigger] self.channels()[j]).active()
                                    && self.channels()[j].stop() == before[k];
                            assert(0 <= j < i + 1 && self.channels()[j].active());
                        } else {
                            assert(self.channels()[i as int].active());
                        }
                    }
                }
            }
            i += 1;
        }
        stops
    }

    /// Tells whether the compile cache is fit for use: fresh on every channel
    /// with instructions, and with one stop position for all of them.
    pub fn validate_compile_cache(&self) -> (res: Result<(), Error>)
        requires
            self.wf(),
        ensures
            res == self.validation(),
    {
        if !self.got_instructions() {
            return Err(Error::NoInstructions);
        }
        let stale: Vec<usize> = self.stale_chans();
        if stale.len() > 0 {
            return Err(Error::StaleCompile);
        }
        let stops: Vec<u64> = self.compiled_stops();
        if !all_equal(&stops) {
            proof {
                let k = choose|k: int, l: int|
                    0 <= k < stops@.len() && 0 <= l < stops@.len() && stops@[k] != stops@[l];
                let len = self.channels().len() as int;
                assert(stops_at(self.channels(), len, stops@[k.0]));
                assert(stops_at(self.channels(), len, stops@[k.1]));
                let i = choose|i: int|
                    0 <= i < len && (#[trigger] self.channels()[i]).active()
                        && self.channels()[i].stop() == stops@[k.0];
                let j = choose|j: int|
                    0 <= j < len && (#[trigger] self.channels()[j]).active()
                        && self.channels()[j].stop() == stops@[k.1];
                assert(self.channels()[i].active() && self.channels()[j].active());
            }
            return Err(Error::Inconsistent);
        }
        Ok(())
    }

    /// The position up to which the device is compiled. The compile cache
    /// must be valid.
    pub fn compiled_stop_pos(&self) -> (pos: u64)
        requires
            self.wf(),
            self.validation() is Ok,
        ensures
            pos == self.stop(),
            forall|i: int|
                0 <= i < self.channels().len() && (#[trigger] self.channels()[i]).active()
                    ==> self.channels()[i].stop() == pos,
    {
        let n: usize = self.chans.len();
        let mut pos: u64 = 0;
        let mut i: usize = 0;
        while i < n
            invariant
                self.wf(),
                self.all_fresh(),
                n == self.channels().len(),
                i <= n,
                pos == stop_upto(self.channels(), i as int),
            decreases n - i,
        {
            if self.chans[i].got_instructions() {
                pos = self.chans[i].compiled_stop_pos();
            }
            i += 1;
        }
        proof {
            lemma_stop_upto(self.channels(), n as int);
            lemma_last_end_upto(self.channels(), n as int);
        }
        pos
    }

    /// Plans the samples of the window from `start_pos` to `end_pos` for a
    /// buffer of `buf_len` samples.
    ///
    /// The compile cache must be valid, the window must hold at least one tick
    /// and end at or before the compiled stop position, and the buffer must
    /// hold one row of samples for each channel with instructions. The rows
    /// follow each other in the order of the channels; all are planned over
    /// the same ticks. Nothing is changed, and no input makes this fail
    /// otherwise than by the error returned.
    pub fn calc_samps(&self, buf_len: usize, start_pos: u64, end_pos: u64) -> (res: Result<
        Vec<RowChunk>,
        Error,
    >)
        requires
            self.wf(),
        ensures
            match self.samps_plan(buf_len, start_pos, end_pos) {
                Ok(plan) => res matches Ok(chunks) && chunks@ == plan,
                Err(e) => res matches Err(err) && err == e,
            },
    {
        if let Err(e) = self.validate_compile_cache() {
            return Err(e);
        }
        if end_pos <= start_pos {
            return Err(Error::WindowOutOfRange);
        }
        let stop: u64 = self.compiled_stop_pos();
        if end_pos > stop {
            return Err(Error::WindowOutOfRange);
        }
        let n_chans: usize = self.n_active_chans();
        let width: u64 = end_pos - start_pos;
        proof {
            assert(n_chans * width <= 0xffff_ffff_ffff_ffff * 0xffff_ffff_ffff_ffff)
                by (nonlinear_arith)
                requires
                    0 <= n_chans <= 0xffff_ffff_ffff_ffff,
                    0 <= width <= 0xffff_ffff_ffff_ffff,
            ;
            lemma_last_end_upto(self.channels(), self.channels().len() as int);
            assert(n_chans * width >= width) by (nonlinear_arith)
                requires
                    n_chans >= 1,
                    width >= 0,
            ;
        }
        if (n_chans as u128) * (width as u128) > buf_len as u128 {
            return Err(Error::BufferTooSmall);
        }
        let n_samps: usize = width as usize;
        let n: usize = self.chans.len();
        let mut plan: Vec<RowChunk> = Vec::new();
        let mut row: usize = 0;
        let mut i: usize = 0;
        while i < n
            invariant
                self.wf(),
                self.validation() is Ok,
                n == self.channels().len(),
                i <= n,
                n_samps > 0,
                start_pos + n_samps == end_pos,
                end_pos <= stop,
                forall|j: int|
                    0 <= j < self.channels().len() && (#[trigger] self.channels()[j]).active()
                        ==> self.channels()[j].stop() == stop,
                n_chans == self.n_active(),
                n_chans * n_samps <= usize::MAX,
                row == active_upto(self.channels(), i as int),
                plan@ == plan_upto(self.channels(), i as int, start_pos, n_samps),
            decreases n - i,
        {
            if self.chans[i].got_instructions() {
                let chunks: Vec<Chunk> = match self.chans[i].fill_samps(start_pos, n_samps) {
                    Ok(chunks) => chunks,
                    Err(e) => {
                        return Err(e);
                    },
                };
                proof {
                    lemma_window_chunks(self.channels()[i as int].ends(), start_pos, n_samps);
                    lemma_active_upto_mono(self.channels(), i as int, n as int);
                    assert(row * n_samps + n_samps <= n_chans * n_samps) by (nonlinear_arith)
                        requires
                            0 <= row < n_chans,
                            0 <= n_samps,
                    ;
                }
                push_row(&mut plan, &chunks, i, row, n_samps);
                row += 1;
            }
            i += 1;
        }
        Ok(plan)
    }
}

impl<F, T: Clone> Device<F, T> {
    /// The device is `before` with a reset instruction added at `reset_pos` to
    /// every channel.
    pub open spec fn reset_of(&self, before: &Self, reset_pos: u64) -> bool {
        &&& self.label() == before.label()
        &&& self.channels().len() == before.channels().len()
        &&& forall|i: int|
            0 <= i < self.channels().len() ==> (#[trigger] self.channels()[i]).reset_of(
                &before.channels()[i],
                reset_pos,
            )
    }

    /// Adds a reset instruction at `reset_pos` to every channel, with or
    /// without instructions. The position must not lie before the end of the
    /// last instruction on any channel; if it does, nothing is changed.
    pub fn add_reset_instr(&mut self, reset_pos: u64) -> (res: Result<(), Error>)
        requires
            old(self).wf(),
            reset_pos < u64::MAX,
        ensures
            final(self).wf(),
            final(self).label() == old(self).label(),
            final(self).channels().len() == old(self).channels().len(),
            match old(self).last_end() {
                Some(e) if reset_pos < e => res == Err::<(), Error>(
                    Error::StopBeforeLast { last_end: e },
                ) && *final(self) == *old(self),
                _ => res is Ok && final(self).reset_of(old(self), reset_pos),
            },
    {
        if let Some(last) = self.last_instr_end_pos() {
            if reset_pos < last {
                return Err(Error::StopBeforeLast { last_end: last });
            }
        }
        let n: usize = self.chans.len();
        let mut i: usize = 0;
        proof {
            lemma_last_end_upto(self.channels(), n as int);
        }
        while i < n
            invariant
                n == self.channels().len(),
                n == old(self).channels().len(),
                i <= n,
                self.name == old(self).name,
                old(self).wf(),
                reset_pos < u64::MAX,
                forall|j: int|
                    0 <= j < n && (#[trigger] old(self).channels()[j]).active() ==> last_end(
                        old(self).channels()[j].instrs(),
                    )->Some_0 <= reset_pos,
                forall|j: int| i <= j < n ==> #[trigger] self.channels()[j]
                    == old(self).channels()[j],
                forall|j: int|
                    0 <= j < i ==> (#[trigger] self.channels()[j]).wf()
                        && self.channels()[j].reset_of(
                        &old(self).channels()[j],
                        reset_pos,
                    ),
            decreases n - i,
        {
            let _ = self.chans[i].add_reset_instr(reset_pos);
            i += 1;
        }
        proof {
            assert forall|i: int, j: int| 0 <= i < j < self.channels().len() implies (
            #[trigger] self.channels()[i]).label() != (#[trigger] self.channels()[j]).label() by {
                assert(self.channels()[i].reset_of(&old(self).channels()[i], reset_pos));
                assert(self.channels()[j].reset_of(&old(self).channels()[j], reset_pos));
                assert(old(self).channels()[i].label() != old(self).channels()[j].label());
            }
        }
        Ok(())
    }
}

} // verus!
