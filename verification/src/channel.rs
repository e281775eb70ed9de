//! Channels: one output line of a device, with its edit cache of instructions
//! and the compile cache that is built from it.

use crate::compile_cache::{
    ascending, compiled, compiled_upto, emit, lemma_compile_done, lemma_compile_init,
    lemma_compile_step, lemma_span_is_window, next_edge, plan_span, source_at, span_chunks,
    window_chunks, CacheFn, Chunk,
};
use crate::edit_cache::{
    ceil_entry, disjoint, floor_entry, last_end, last_key, lemma_ceil_key, lemma_floor_key,
    lemma_last_end_bounds, lemma_reconcile_fits, reconcile,
};
use crate::error::Error;
use crate::instruction::Instr;
use std::collections::BTreeMap;
use vstd::prelude::*;

verus! {

/// The constant function: every sample is `val`.
pub struct ConstFn<T> {
    pub val: T,
}

impl<T> ConstFn<T> {
    pub fn new(val: T) -> (f: Self)
        ensures
            f.val == val,
    {
        Self { val }
    }

    pub fn val(&self) -> (val: &T)
        ensures
            *val == self.val,
    {
        &self.val
    }
}

impl<T: Clone> ConstFn<T> {
    /// Writes the constant to every sample of `res_arr`. The time points are
    /// not looked at.
    pub fn calc<X>(&self, _t_arr: &[X], res_arr: &mut [T])
        ensures
            final(res_arr)@.len() == old(res_arr)@.len(),
            forall|i: int|
                0 <= i < final(res_arr)@.len() ==> cloned(self.val, #[trigger] final(res_arr)@[i]),
    {
        let n: usize = res_arr.len();
        let mut i: usize = 0;
        while i < n
            invariant
                res_arr@.len() == n,
                i <= n,
                forall|j: int| 0 <= j < i ==> cloned(self.val, #[trigger] res_arr@[j]),
            decreases n - i,
        {
            res_arr[i] = self.val.clone();
            i += 1;
        }
    }
}

impl<T: Clone> Clone for ConstFn<T> {
    fn clone(&self) -> (f: Self)
        ensures
            cloned(self.val, f.val),
    {
        Self::new(self.val.clone())
    }
}

/// The function of an instruction: a constant, or a function `F` of the
/// caller's own library.
pub enum ChanFn<F, T> {
    Const(ConstFn<T>),
    Func(F),
}

/// One output channel.
///
/// The edit cache maps start positions to instructions that do not overlap.
/// The compile cache holds the end position and the function of each segment,
/// in ascending order. `is_fresh_compiled` tells whether the compile cache is
/// the compilation of the edit cache as it stands.
pub struct Channel<F, T> {
    name: String,
    dflt_val: T,
    rst_val: T,
    instr_list: BTreeMap<u64, Instr<ChanFn<F, T>>>,
    compile_cache_ends: Vec<u64>,
    compile_cache_fns: Vec<CacheFn>,
    is_fresh_compiled: bool,
}

impl<F, T> Channel<F, T> {
    /// The channel's name.
    pub closed spec fn label(&self) -> Seq<char> {
        self.name@
    }

    /// The value of ticks that no instruction covers.
    pub closed spec fn dflt(&self) -> T {
        self.dflt_val
    }

    /// The value of reset instructions.
    pub closed spec fn rst(&self) -> T {
        self.rst_val
    }

    /// The edit cache.
    pub closed spec fn instrs(&self) -> Map<u64, Instr<ChanFn<F, T>>> {
        self.instr_list@
    }

    /// The end positions of the compile cache.
    pub closed spec fn ends(&self) -> Seq<u64> {
        self.compile_cache_ends@
    }

    /// The functions of the compile cache.
    pub closed spec fn fns(&self) -> Seq<CacheFn> {
        self.compile_cache_fns@
    }

    /// The freshness flag.
    pub closed spec fn fresh(&self) -> bool {
        self.is_fresh_compiled
    }

    /// The channel has instructions.
    pub open spec fn active(&self) -> bool {
        last_key(self.instrs()) is Some
    }

    /// The compile cache is the compilation of the edit cache: empty for an
    /// empty edit cache, and else its compilation up to the last end position
    /// that the compile cache holds.
    pub open spec fn reflects(&self) -> bool {
        if self.active() {
            self.ends().len() > 0 && compiled(
                self.instrs(),
                self.ends(),
                self.fns(),
                self.ends().last(),
            )
        } else {
            self.ends().len() == 0 && self.fns().len() == 0
        }
    }

    /// The channel invariant: instructions do not overlap; the compile cache
    /// holds as many end positions as functions, no more than a vector can
    /// hold, in strictly ascending order from behind zero; and a fresh compile
    /// cache reflects the edit cache.
    pub open spec fn wf(&self) -> bool {
        &&& disjoint(self.instrs())
        &&& self.ends().len() == self.fns().len()
        &&& self.ends().len() <= usize::MAX
        &&& ascending(self.ends())
        &&& self.fresh() ==> self.reflects()
    }

    /// Name, default value and reset value are those of `other`.
    pub open spec fn same_setup(&self, other: &Self) -> bool {
        &&& self.label() == other.label()
        &&& self.dflt() == other.dflt()
        &&& self.rst() == other.rst()
    }

    /// The position at which the compile cache stops.
    pub open spec fn stop(&self) -> u64 {
        self.ends().last()
    }

    /// A channel without instructions.
    pub fn new(name: &str, dflt_val: T, rst_val: T) -> (chan: Self)
        ensures
            chan.wf(),
            chan.label() == name@,
            chan.dflt() == dflt_val,
            chan.rst() == rst_val,
            chan.instrs() == Map::<u64, Instr<ChanFn<F, T>>>::empty(),
            chan.ends().len() == 0,
            chan.fns().len() == 0,
            chan.fresh(),
            !chan.active(),
    {
        let chan = Channel {
            name: name.to_owned(),
            dflt_val,
            rst_val,
            instr_list: BTreeMap::new(),
            compile_cache_ends: Vec::new(),
            compile_cache_fns: Vec::new(),
            is_fresh_compiled: true,
        };
        proof {
            lemma_floor_key(chan.instr_list@, u64::MAX);
        }
        chan
    }

    pub fn name(&self) -> (name: &String)
        ensures
            name@ == self.label(),
    {
        &self.name
    }

    pub fn dflt_val(&self) -> (val: &T)
        ensures
            *val == self.dflt(),
    {
        &self.dflt_val
    }

    pub fn rst_val(&self) -> (val: &T)
        ensures
            *val == self.rst(),
    {
        &self.rst_val
    }

    pub fn instr_list(&self) -> (list: &BTreeMap<u64, Instr<ChanFn<F, T>>>)
        ensures
            list@ == self.instrs(),
    {
        &self.instr_list
    }

    pub fn compile_cache_ends(&self) -> (ends: &Vec<u64>)
        ensures
            ends@ == self.ends(),
    {
        &self.compile_cache_ends
    }

    pub fn compile_cache_fns(&self) -> (fns: &Vec<CacheFn>)
        ensures
            fns@ == self.fns(),
    {
        &self.compile_cache_fns
    }

    pub fn is_fresh_compiled(&self) -> (fresh: bool)
        ensures
            fresh == self.fresh(),
    {
        self.is_fresh_compiled
    }

    /// Whether the edit cache holds an instruction.
    pub fn got_instructions(&self) -> (got: bool)
        ensures
            got == self.active(),
    {
        floor_entry(&self.instr_list, u64::MAX).is_some()
    }

    /// The effective end of the last instruction.
    pub fn last_instr_end_pos(&self) -> (pos: Option<u64>)
        requires
            self.wf(),
        ensures
            pos == last_end(self.instrs()),
    {
        match floor_entry(&self.instr_list, u64::MAX) {
            Some((_key, instr)) => Some(instr.eff_end_pos()),
            None => None,
        }
    }

    /// The last instruction, if the channel has one.
    pub fn last_instr(&self) -> (last: Option<&Instr<ChanFn<F, T>>>)
        ensures
            match last {
                Some(instr) => last_key(self.instrs()) matches Some(k) && self.instrs()[k]
                    == *instr,
                None => !self.active(),
            },
    {
        match floor_entry(&self.instr_list, u64::MAX) {
            Some((_key, instr)) => Some(instr),
            None => None,
        }
    }

    /// Adds an instruction that runs `func` from `start_pos` on.
    ///
    /// A pulse that is shorter than one tick is refused. An overlap of one tick
    /// with a neighbour is repaired by trimming the new instruction; any other
    /// overlap is refused. On success the compile cache is marked stale; on
    /// failure the channel is left as it was.
    pub fn add_instr(
        &mut self,
        func: ChanFn<F, T>,
        start_pos: u64,
        end_spec: Option<(u64, bool)>,
    ) -> (res: Result<(), Error>)
        requires
            old(self).wf(),
            end_spec is None ==> start_pos + 2 <= u64::MAX,
        ensures
            final(self).wf(),
            final(self).same_setup(old(self)),
            final(self).ends() == old(self).ends(),
            final(self).fns() == old(self).fns(),
            match reconcile(old(self).instrs(), start_pos, end_spec) {
                Ok((start, end)) => {
                    &&& res is Ok
                    &&& !old(self).instrs().contains_key(start)
                    &&& final(self).instrs() == old(self).instrs().insert(
                        start,
                        Instr { start_pos: start, end_spec: end, func },
                    )
                    &&& !final(self).fresh()
                },
                Err(e) => {
                    &&& res == Err::<(), Error>(e)
                    &&& final(self).instrs() == old(self).instrs()
                    &&& final(self).fresh() == old(self).fresh()
                },
            },
    {
        if let Some((end_pos, _)) = end_spec {
            if end_pos <= start_pos {
                return Err(Error::ShortPulse);
            }
        }
        let mut start: u64 = start_pos;
        let mut end: Option<(u64, bool)> = end_spec;
        if start_pos > 0 {
            if let Some((prev, prev_instr)) = floor_entry(&self.instr_list, start_pos - 1) {
                let prev_end: u64 = prev_instr.eff_end_pos();
                if prev_end <= start_pos {
                } else if prev_end - 1 == start_pos {
                    match end_spec {
                        Some((end_pos, _)) => {
                            if end_pos - start_pos >= 2 {
                                start = start_pos + 1;
                            } else {
                                return Err(Error::Unrepairable1Tick { with: prev });
                            }
                        },
                        None => {
                            start = start_pos + 1;
                        },
                    }
                } else {
                    return Err(Error::CollisionLeft { with: prev });
                }
            }
        }
        if let Some((next, _)) = ceil_entry(&self.instr_list, start) {
            let eff_end: u64 = match end {
                Some((end_pos, _)) => end_pos,
                None => start + 1,
            };
            if eff_end <= next {
            } else if eff_end - 1 == next {
                match end {
                    Some((end_pos, keep_val)) => {
                        if end_pos - start >= 2 {
                            end = Some((end_pos - 1, keep_val));
                        } else {
                            return Err(Error::Unrepairable1Tick { with: next });
                        }
                    },
                    None => {
                        return Err(Error::GoThisBeforeInstr { with: next });
                    },
                }
            } else {
                return Err(Error::CollisionRight { with: next });
            }
        }
        proof {
            lemma_reconcile_fits(self.instr_list@, start_pos, end_spec, func);
        }
        let instr = Instr::new(start, end, func);
        self.instr_list.insert(start, instr);
        self.is_fresh_compiled = false;
        Ok(())
    }

    /// Adds an instruction that holds the constant `val`.
    pub fn constant(&mut self, val: T, start_pos: u64, end_spec: Option<(u64, bool)>) -> (res:
        Result<(), Error>)
        requires
            old(self).wf(),
            end_spec is None ==> start_pos + 2 <= u64::MAX,
        ensures
            final(self).wf(),
            final(self).same_setup(old(self)),
            final(self).ends() == old(self).ends(),
            final(self).fns() == old(self).fns(),
            match reconcile(old(self).instrs(), start_pos, end_spec) {
                Ok((start, end)) => {
                    &&& res is Ok
                    &&& !old(self).instrs().contains_key(start)
                    &&& final(self).instrs() == old(self).instrs().insert(
                        start,
                        Instr {
                            start_pos: start,
                            end_spec: end,
                            func: ChanFn::Const(ConstFn { val }),
                        },
                    )
                    &&& !final(self).fresh()
                },
                Err(e) => {
                    &&& res == Err::<(), Error>(e)
                    &&& final(self).instrs() == old(self).instrs()
                    &&& final(self).fresh() == old(self).fresh()
                },
            },
    {
        self.add_instr(ChanFn::Const(ConstFn::new(val)), start_pos, end_spec)
    }

    /// Compiles the edit cache up to `stop_pos`.
    ///
    /// The compile cache is emptied first. Compilation needs at least one
    /// instruction and a stop position that is not before the end of the last
    /// one. It lays out every instruction in order: padding with the default
    /// value before the first, each instruction up to its end, and padding
    /// from an explicit end to the next edge. On failure the compile cache
    /// stays empty.
    pub fn compile(&mut self, stop_pos: u64) -> (res: Result<(), Error>)
        requires
            old(self).wf(),
        ensures
            final(self).wf(),
            final(self).same_setup(old(self)),
            final(self).instrs() == old(self).instrs(),
            match last_end(old(self).instrs()) {
                None => {
                    &&& res == Err::<(), Error>(Error::NoInstructions)
                    &&& final(self).ends().len() == 0
                    &&& final(self).fns().len() == 0
                    &&& final(self).fresh()
                },
                Some(e) if stop_pos < e => {
                    &&& res == Err::<(), Error>(Error::StopBeforeLast { last_end: e })
                    &&& final(self).ends().len() == 0
                    &&& final(self).fns().len() == 0
                    &&& !final(self).fresh()
                },
                Some(_) => {
                    &&& res is Ok
                    &&& final(self).fresh()
                    &&& final(self).active()
                    &&& final(self).stop() == stop_pos
                    &&& compiled(
                        final(self).instrs(),
                        final(self).ends(),
                        final(self).fns(),
                        stop_pos,
                    )
                },
            },
    {
        self.clear_compile_cache();
        let first = ceil_entry(&self.instr_list, 0);
        proof {
            lemma_floor_key(self.instr_list@, u64::MAX);
            lemma_ceil_key(self.instr_list@, 0);
        }
        if first.is_none() {
            return Err(Error::NoInstructions);
        }
        let last: u64 = match self.last_instr_end_pos() {
            Some(e) => e,
            None => 0,
        };
        if stop_pos < last {
            return Err(Error::StopBeforeLast { last_end: last });
        }
        let mut ends: Vec<u64> = Vec::new();
        let mut fns: Vec<CacheFn> = Vec::new();
        let mut entry: Option<(u64, &Instr<ChanFn<F, T>>)> = first;
        if let Some((first_key, _)) = first {
            proof {
                lemma_compile_init(self.instr_list@, stop_pos, first_key);
            }
            if first_key > 0 {
                ends.push(first_key);
                fns.push(CacheFn::Dflt);
            }
        }
        let ghost m = self.instr_list@;
        while entry.is_some()
            invariant
                m == self.instr_list@,
                disjoint(m),
                last_end(m) matches Some(e) && e <= stop_pos,
                match entry {
                    Some((key, instr)) => m.contains_key(key) && m[key] == *instr && compiled_upto(
                        m,
                        ends@,
                        fns@,
                        stop_pos,
                        key,
                    ),
                    None => compiled(m, ends@, fns@, stop_pos),
                },
            decreases
                    (match entry {
                        Some((key, _)) => u64::MAX - key + 1,
                        None => 0,
                    }),
        {
            let (key, instr) = entry.unwrap();
            let next = ceil_entry(&self.instr_list, key + 1);
            let edge: u64 = match next {
                Some((next_key, _)) => next_key,
                None => stop_pos,
            };
            let ghost ends0 = ends@;
            let ghost fns0 = fns@;
            proof {
                lemma_compile_step(m, ends0, fns0, stop_pos, key);
                lemma_ceil_key(m, (key + 1) as u64);
                assert(edge == next_edge(m, stop_pos, key));
            }
            match instr.end_spec {
                Some((end_pos, keep_val)) => {
                    ends.push(end_pos);
                    fns.push(CacheFn::Func { key });
                    if end_pos < edge {
                        ends.push(edge);
                        fns.push(
                            if keep_val {
                                CacheFn::Keep { key, at: end_pos }
                            } else {
                                CacheFn::Dflt
                            },
                        );
                    }
                },
                None => {
                    ends.push(edge);
                    fns.push(CacheFn::Func { key });
                },
            }
            proof {
                assert((ends@, fns@) == emit(m, ends0, fns0, key, edge));
                if next is None {
                    lemma_compile_done(m, ends@, fns@, stop_pos);
                }
            }
            entry = next;
        }
        assert(ends@.len() == ends.len());
        self.compile_cache_ends = ends;
        self.compile_cache_fns = fns;
        self.is_fresh_compiled = true;
        Ok(())
    }

    /// Empties the compile cache. It is fresh afterwards if and only if the
    /// edit cache is empty.
    pub fn clear_compile_cache(&mut self)
        requires
            old(self).wf(),
        ensures
            final(self).wf(),
            final(self).same_setup(old(self)),
            final(self).instrs() == old(self).instrs(),
            final(self).ends().len() == 0,
            final(self).fns().len() == 0,
            final(self).fresh() == !old(self).active(),
    {
        self.compile_cache_ends.clear();
        self.compile_cache_fns.clear();
        self.is_fresh_compiled = !self.got_instructions();
    }

    /// Empties the edit cache, and with it the compile cache, which is fresh
    /// afterwards.
    pub fn clear_edit_cache(&mut self)
        requires
            old(self).wf(),
        ensures
            final(self).wf(),
            final(self).same_setup(old(self)),
            final(self).instrs() == Map::<u64, Instr<ChanFn<F, T>>>::empty(),
            !final(self).active(),
            final(self).ends().len() == 0,
            final(self).fns().len() == 0,
            final(self).fresh(),
    {
        self.compile_cache_ends.clear();
        self.compile_cache_fns.clear();
        self.instr_list.clear();
        self.is_fresh_compiled = true;
        proof {
            lemma_floor_key(self.instr_list@, u64::MAX);
        }
    }

    /// Tells whether the compile cache is up to date with the edit cache.
    pub fn validate_compile_cache(&self) -> (res: Result<(), Error>)
        ensures
            res is Ok <==> self.fresh(),
            res is Err ==> res == Err::<(), Error>(Error::StaleCompile),
    {
        if self.is_fresh_compiled {
            Ok(())
        } else {
            Err(Error::StaleCompile)
        }
    }

    /// The position up to which the channel is compiled. The channel must have
    /// instructions and a fresh compile cache.
    pub fn compiled_stop_pos(&self) -> (pos: u64)
        requires
            self.wf(),
            self.active(),
            self.fresh(),
        ensures
            pos == self.stop(),
            compiled(self.instrs(), self.ends(), self.fns(), pos),
    {
        self.compile_cache_ends[self.compile_cache_ends.len() - 1]
    }
}

impl<F, T> Channel<F, T> {
    /// The outcome that `fill_samps` owes for the window of `n_samps` ticks
    /// from `start_pos`.
    pub open spec fn fill_plan(&self, start_pos: u64, n_samps: usize) -> Result<Seq<Chunk>, Error> {
        if !self.active() {
            Err(Error::NoInstructions)
        } else if !self.fresh() {
            Err(Error::StaleCompile)
        } else if start_pos + n_samps > self.stop() {
            Err(Error::WindowOutOfRange)
        } else {
            Ok(window_chunks(self.ends(), start_pos, n_samps))
        }
    }

    /// The first tick of the window that `calc_nsamps` samples: zero unless
    /// given.
    pub open spec fn span_start(start_pos: Option<u64>) -> u64 {
        match start_pos {
            Some(pos) => pos,
            None => 0,
        }
    }

    /// The end of the window that `calc_nsamps` samples: the compiled stop
    /// position unless given.
    pub open spec fn span_end(&self, end_pos: Option<u64>) -> u64 {
        match end_pos {
            Some(pos) => pos,
            None => self.stop(),
        }
    }

    /// The outcome that `calc_nsamps` owes for `n_samps` samples between
    /// `start_pos` and `end_pos`.
    pub open spec fn nsamps_plan(
        &self,
        n_samps: usize,
        start_pos: Option<u64>,
        end_pos: Option<u64>,
    ) -> Result<Seq<Chunk>, Error> {
        let ws = Self::span_start(start_pos);
        let we = self.span_end(end_pos);
        if !self.active() {
            Err(Error::NoInstructions)
        } else if !self.fresh() {
            Err(Error::StaleCompile)
        } else if we > self.stop() || we < ws {
            Err(Error::WindowOutOfRange)
        } else {
            Ok(span_chunks(self.ends(), ws, we, n_samps))
        }
    }

    /// Plans the samples of the window of `n_samps` ticks from `start_pos`,
    /// one sample for each tick.
    ///
    /// The channel must have instructions and a fresh compile cache, and the
    /// window must end at or before the compiled stop position. The plan holds
    /// one chunk for each segment that the window meets, in order; to carry it
    /// out, the function of each chunk's segment fills the chunk's samples.
    pub fn fill_samps(&self, start_pos: u64, n_samps: usize) -> (res: Result<Vec<Chunk>, Error>)
        requires
            self.wf(),
        ensures
            match self.fill_plan(start_pos, n_samps) {
                Ok(plan) => res matches Ok(chunks) && chunks@ == plan,
                Err(e) => res matches Err(err) && err == e,
            },
    {
        if !self.got_instructions() {
            return Err(Error::NoInstructions);
        }
        if !self.is_fresh_compiled {
            return Err(Error::StaleCompile);
        }
        let stop: u64 = self.compiled_stop_pos();
        if start_pos > stop || n_samps as u64 > stop - start_pos {
            return Err(Error::WindowOutOfRange);
        }
        if n_samps == 0 {
            return Ok(Vec::new());
        }
        proof {
            lemma_span_is_window(self.ends(), start_pos, n_samps);
        }
        Ok(plan_span(&self.compile_cache_ends, start_pos, start_pos + n_samps as u64, n_samps))
    }

    /// Plans `n_samps` samples spread evenly over the ticks from `start_pos`
    /// to `end_pos`, for plots: the samples are fewer than the ticks as a rule
    /// and fall between them.
    ///
    /// `start_pos` defaults to zero and `end_pos` to the compiled stop position.
    /// The channel must have instructions and a fresh compile cache, and the
    /// window must be in order and end at or before the compiled stop position.
    /// Segment boundaries are mapped onto sample indices proportionally.
    pub fn calc_nsamps(&self, n_samps: usize, start_pos: Option<u64>, end_pos: Option<u64>) -> (res:
        Result<Vec<Chunk>, Error>)
        requires
            self.wf(),
        ensures
            match self.nsamps_plan(n_samps, start_pos, end_pos) {
                Ok(plan) => res matches Ok(chunks) && chunks@ == plan,
                Err(e) => res matches Err(err) && err == e,
            },
    {
        if !self.got_instructions() {
            return Err(Error::NoInstructions);
        }
        if !self.is_fresh_compiled {
            return Err(Error::StaleCompile);
        }
        let stop: u64 = self.compiled_stop_pos();
        let ws: u64 = match start_pos {
            Some(pos) => pos,
            None => 0,
        };
        let we: u64 = match end_pos {
            Some(pos) => pos,
            None => stop,
        };
        if we > stop || we < ws {
            return Err(Error::WindowOutOfRange);
        }
        Ok(plan_span(&self.compile_cache_ends, ws, we, n_samps))
    }

    /// What the channel plays at tick `t_pos`, read off the edit cache: the
    /// function of the last instruction that has started, its kept last value
    /// or the default value behind its end, the default value before the first
    /// instruction. `Func` is to be evaluated at `t_pos`, `Keep` at its own tick.
    pub fn eval_point(&self, t_pos: u64) -> (src: CacheFn)
        ensures
            src == source_at(self.instrs(), t_pos),
    {
        match floor_entry(&self.instr_list, t_pos) {
            Some((key, instr)) => match instr.end_spec {
                Some((end_pos, keep_val)) => {
                    if t_pos < end_pos {
                        CacheFn::Func { key }
                    } else if keep_val {
                        CacheFn::Keep { key, at: end_pos }
                    } else {
                        CacheFn::Dflt
                    }
                },
                None => CacheFn::Func { key },
            },
            None => CacheFn::Dflt,
        }
    }

    /// The instruction that starts at `key`.
    pub fn instr(&self, key: u64) -> (found: Option<&Instr<ChanFn<F, T>>>)
        ensures
            match found {
                Some(instr) => self.instrs().contains_key(key) && self.instrs()[key] == *instr,
                None => !self.instrs().contains_key(key),
            },
    {
        self.instr_list.get(&key)
    }
}

impl<F, T: Clone> Channel<F, T> {
    /// The channel is `before` with a reset instruction added at `reset_pos`: a
    /// go-this instruction that holds a clone of the reset value. The compile
    /// cache is kept, and marked stale.
    pub open spec fn reset_of(&self, before: &Self, reset_pos: u64) -> bool {
        &&& self.same_setup(before)
        &&& self.ends() == before.ends()
        &&& self.fns() == before.fns()
        &&& !self.fresh()
        &&& !before.instrs().contains_key(reset_pos)
        &&& exists|val: T| #[trigger]
            cloned(before.rst(), val) && self.instrs() == before.instrs().insert(
                reset_pos,
                Instr {
                    start_pos: reset_pos,
                    end_spec: None,
                    func: ChanFn::Const(ConstFn { val }),
                },
            )
        &&& last_end(self.instrs()) == Some((reset_pos + 1) as u64)
    }

    /// Adds a go-this instruction at `reset_pos` that holds the reset value.
    /// The position must not lie before the end of the last instruction. On
    /// success the compile cache is marked stale.
    pub fn add_reset_instr(&mut self, reset_pos: u64) -> (res: Result<(), Error>)
        requires
            old(self).wf(),
            reset_pos < u64::MAX,
        ensures
            final(self).wf(),
            final(self).same_setup(old(self)),
            final(self).ends() == old(self).ends(),
            final(self).fns() == old(self).fns(),
            match last_end(old(self).instrs()) {
                Some(e) if reset_pos < e => {
                    &&& res == Err::<(), Error>(Error::StopBeforeLast { last_end: e })
                    &&& final(self).instrs() == old(self).instrs()
                    &&& final(self).fresh() == old(self).fresh()
                },
                _ => {
                    &&& res is Ok
                    &&& final(self).reset_of(old(self), reset_pos)
                },
            },
    {
        if let Some(last_end) = self.last_instr_end_pos() {
            if reset_pos < last_end {
                return Err(Error::StopBeforeLast { last_end });
            }
        }
        let val = self.rst_val.clone();
        let ghost held = val;
        let instr = Instr::new(reset_pos, None, ChanFn::Const(ConstFn::new(val)));
        proof {
            let m = self.instr_list@;
            let m2 = m.insert(reset_pos, instr);
            lemma_floor_key(m, u64::MAX);
            assert forall|k: u64| m.contains_key(k) implies m[k].eff_end() <= reset_pos && k
                < reset_pos by {
                lemma_last_end_bounds(m, k);
            }
            assert(disjoint(m2)) by {
                assert forall|a: u64, b: u64|
                    #![trigger m2.contains_key(a), m2.contains_key(b)]
                    m2.contains_key(a) && m2.contains_key(b) && a < b implies m2[a].eff_end()
                    <= b by {
                    if b == reset_pos {
                        assert(m.contains_key(a));
                    } else {
                        assert(m.contains_key(b));
                        assert(m.contains_key(a));
                    }
                }
                assert forall|k: u64| #[trigger] m2.contains_key(k) implies m2[k].start_pos == k
                    && m2[k].wf() by {
                    if k != reset_pos {
                        assert(m.contains_key(k));
                    }
                }
            }
            lemma_floor_key(m2, u64::MAX);
            assert(m2.contains_key(reset_pos));
            assert(last_key(m2) == Some(reset_pos));
        }
        self.instr_list.insert(reset_pos, instr);
        self.is_fresh_compiled = false;
        proof {
            assert(cloned(old(self).rst(), held));
            assert(self.instr_list@ == old(self).instrs().insert(
                reset_pos,
                Instr {
                    start_pos: reset_pos,
                    end_spec: None,
                    func: ChanFn::Const(ConstFn { val: held }),
                },
            ));
        }
        Ok(())
    }
}

} // verus!
