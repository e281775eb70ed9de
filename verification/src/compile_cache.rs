//! The compile cache of a channel as a mathematical object: parallel sequences
//! of end positions and functions that cover every tick from zero to the stop
//! position, and the windows that are cut out of it.

use crate::edit_cache::{
    ceil_key, disjoint, floor_key, last_end, lemma_ceil_key, lemma_floor_key, lemma_floor_key_is,
    lemma_last_end_bounds,
};
use crate::instruction::Instr;
use vstd::prelude::*;

verus! {

/// The function of one segment of the compile cache. Functions are not
/// expanded into samples here: a segment names the instruction whose function
/// runs on it, by the start position under which the edit cache holds it.
#[derive(Clone, Copy, Debug, PartialEq, Eq, Structural)]
pub enum CacheFn {
    /// The function of the instruction that starts at `key`.
    Func { key: u64 },
    /// Padding: the constant at the channel's default value.
    Dflt,
    /// Padding: the constant at the value that the function of the instruction
    /// starting at `key` takes at tick `at`, the end of that instruction.
    Keep { key: u64, at: u64 },
}

/// One slice of a sample window: the samples `lo..hi` of the window come from
/// segment `seg` of the compile cache.
#[derive(Clone, Copy, Debug, PartialEq, Eq, Structural)]
pub struct Chunk {
    pub seg: usize,
    pub lo: usize,
    pub hi: usize,
}

/// End positions ascend strictly, and the first one lies behind tick zero.
pub open spec fn ascending(ends: Seq<u64>) -> bool {
    &&& forall|i: int, j: int| 0 <= i < j < ends.len() ==> ends[i] < ends[j]
    &&& ends.len() > 0 ==> ends[0] > 0
}

/// The first tick of segment `i`.
pub open spec fn seg_start(ends: Seq<u64>, i: int) -> u64 {
    if i <= 0 {
        0
    } else {
        ends[i - 1]
    }
}

/// The number of end positions that are at most `p`. Where `p` lies before the
/// last end position, this is the index of the segment that holds tick `p`.
pub open spec fn seg_of(ends: Seq<u64>, p: u64) -> int
    decreases ends.len(),
{
    if ends.len() == 0 {
        0
    } else if ends.last() <= p {
        ends.len() as int
    } else {
        seg_of(ends.drop_last(), p)
    }
}

/// `seg_of` splits ascending end positions into those at most `p` and those
/// behind `p`.
pub proof fn lemma_seg_of(ends: Seq<u64>, p: u64)
    requires
        ascending(ends),
    ensures
        0 <= seg_of(ends, p) <= ends.len(),
        forall|j: int| 0 <= j < seg_of(ends, p) ==> ends[j] <= p,
        forall|j: int| seg_of(ends, p) <= j < ends.len() ==> ends[j] > p,
        seg_start(ends, seg_of(ends, p)) <= p,
    decreases ends.len(),
{
    if ends.len() > 0 && ends.last() > p {
        let front = ends.drop_last();
        assert(ascending(front));
        lemma_seg_of(front, p);
        assert forall|j: int| 0 <= j < seg_of(ends, p) implies ends[j] <= p by {
            assert(front[j] == ends[j]);
        }
        assert forall|j: int| seg_of(ends, p) <= j < ends.len() implies ends[j] > p by {
            if j < front.len() {
                assert(front[j] == ends[j]);
            }
        }
        let i = seg_of(ends, p);
        if i > 0 {
            assert(front[i - 1] == ends[i - 1]);
        }
    }
}

/// The index that splits ascending end positions at `p` is `seg_of`.
pub proof fn lemma_seg_of_is(ends: Seq<u64>, p: u64, i: int)
    requires
        ascending(ends),
        0 <= i <= ends.len(),
        i > 0 ==> ends[i - 1] <= p,
        i < ends.len() ==> ends[i] > p,
    ensures
        seg_of(ends, p) == i,
{
    lemma_seg_of(ends, p);
    let s = seg_of(ends, p);
    if s < i {
        assert(ends[s] > p);
        assert(s == i - 1 || ends[s] < ends[i - 1]);
    } else if s > i {
        assert(ends[s - 1] <= p);
        assert(i == s - 1 || ends[i] < ends[s - 1]);
    }
}

/// The number of end positions that are at most `p`, by bisection.
pub fn upper_bound(ends: &Vec<u64>, p: u64) -> (i: usize)
    requires
        ascending(ends@),
    ensures
        i == seg_of(ends@, p),
        i <= ends@.len(),
{
    let mut lo: usize = 0;
    let mut hi: usize = ends.len();
    while lo < hi
        invariant
            ascending(ends@),
            lo <= hi <= ends@.len(),
            lo > 0 ==> ends@[lo - 1] <= p,
            hi < ends@.len() ==> ends@[hi as int] > p,
        decreases hi - lo,
    {
        let mid: usize = lo + (hi - lo) / 2;
        if ends[mid] <= p {
            lo = mid + 1;
        } else {
            hi = mid;
        }
    }
    proof {
        lemma_seg_of_is(ends@, p, lo as int);
    }
    lo
}

/// A tick is an edge of the compiled channel if it lies behind tick zero and an
/// instruction starts there, an instruction has its explicit end there, or the
/// channel stops there.
pub open spec fn is_edge<G>(m: Map<u64, Instr<G>>, stop: u64, p: u64) -> bool {
    p > 0 && (p == stop || m.contains_key(p) || exists|k: u64| #[trigger]
        m.contains_key(k) && m[k].end() == Some(p))
}

/// What a channel plays at tick `p`: the function of the last instruction that
/// has started, while it runs; behind its explicit end its last value, if it
/// keeps it, and the default value if not; the default value before the first
/// instruction.
pub open spec fn source_at<G>(m: Map<u64, Instr<G>>, p: u64) -> CacheFn {
    match floor_key(m, p) {
        None => CacheFn::Dflt,
        Some(k) => match m[k].end_spec {
            None => CacheFn::Func { key: k },
            Some((end_pos, keep_val)) => if p < end_pos {
                CacheFn::Func { key: k }
            } else if keep_val {
                CacheFn::Keep { key: k, at: end_pos }
            } else {
                CacheFn::Dflt
            },
        },
    }
}

/// The compile cache `ends`, `fns` is the compilation of the edit cache `m` up
/// to `stop`: its segments end exactly at the edges, the last of them at
/// `stop`, and each plays what the channel plays on its ticks.
pub open spec fn compiled<G>(
    m: Map<u64, Instr<G>>,
    ends: Seq<u64>,
    fns: Seq<CacheFn>,
    stop: u64,
) -> bool {
    &&& ends.len() == fns.len()
    &&& ends.len() > 0
    &&& ends.last() == stop
    &&& ascending(ends)
    &&& last_end(m) matches Some(e) && e <= stop
    &&& forall|p: u64| ends.contains(p) <==> is_edge(m, stop, p)
    &&& forall|i: int|
        0 <= i < fns.len() ==> #[trigger] fns[i] == source_at(m, (ends[i] - 1) as u64)
}

/// Two ticks with no edge between them are played alike.
pub proof fn lemma_source_steady<G>(m: Map<u64, Instr<G>>, stop: u64, p: u64, q: u64)
    requires
        disjoint(m),
        p <= q,
        forall|e: u64| p < e <= q ==> !is_edge(m, stop, e),
    ensures
        source_at(m, p) == source_at(m, q),
{
    lemma_floor_key(m, p);
    lemma_floor_key(m, q);
    match floor_key(m, q) {
        Some(k) => {
            if k > p {
                assert(is_edge(m, stop, k));
            }
            assert(floor_key(m, p) == Some(k));
            match m[k].end_spec {
                Some((end_pos, _)) => {
                    if p < end_pos && end_pos <= q {
                        assert(m[k].end() == Some(end_pos));
                        assert(is_edge(m, stop, end_pos));
                    }
                },
                None => {},
            }
        },
        None => {},
    }
}

/// Every tick before the stop position lies in the segment that `seg_of`
/// names, and that segment plays what the channel plays at the tick.
pub proof fn lemma_segment_source<G>(
    m: Map<u64, Instr<G>>,
    ends: Seq<u64>,
    fns: Seq<CacheFn>,
    stop: u64,
    p: u64,
)
    requires
        disjoint(m),
        compiled(m, ends, fns, stop),
        p < stop,
    ensures
        0 <= seg_of(ends, p) < ends.len(),
        seg_start(ends, seg_of(ends, p)) <= p < ends[seg_of(ends, p)],
        fns[seg_of(ends, p)] == source_at(m, p),
{
    lemma_seg_of(ends, p);
    let i = seg_of(ends, p);
    if i == ends.len() {
        assert(ends[i - 1] <= p);
    }
    let q = (ends[i] - 1) as u64;
    assert forall|e: u64| p < e <= q implies !is_edge(m, stop, e) by {
        if is_edge(m, stop, e) {
            assert(ends.contains(e));
            let j = choose|j: int| 0 <= j < ends.len() && ends[j] == e;
            if j < i {
                assert(ends[j] <= p);
            } else if j > i {
                assert(ends[i] < ends[j]);
            }
        }
    }
    lemma_source_steady(m, stop, p, q);
    assert(fns[i] == source_at(m, (ends[i] - 1) as u64));
}

/// Ascending sequences with the same elements are the same sequence.
pub proof fn lemma_ascending_unique(a: Seq<u64>, b: Seq<u64>)
    requires
        ascending(a),
        ascending(b),
        forall|p: u64| a.contains(p) <==> b.contains(p),
    ensures
        a == b,
    decreases a.len(),
{
    if a.len() == 0 {
        if b.len() > 0 {
            assert(b.contains(b[0]));
        }
        assert(a =~= b);
    } else {
        assert(a.contains(a.last()));
        assert(b.contains(a.last()));
        assert(b.len() > 0);
        assert(b.contains(b.last()));
        assert(a.contains(b.last()));
        let ia = choose|i: int| 0 <= i < a.len() && a[i] == b.last();
        let ib = choose|i: int| 0 <= i < b.len() && b[i] == a.last();
        assert(ia == a.len() - 1 || a[ia] < a.last());
        assert(ib == b.len() - 1 || b[ib] < b.last());
        assert(a.last() == b.last());
        let a0 = a.drop_last();
        let b0 = b.drop_last();
        assert(ascending(a0));
        assert(ascending(b0));
        assert forall|p: u64| a0.contains(p) <==> b0.contains(p) by {
            if a0.contains(p) {
                let i = choose|i: int| 0 <= i < a0.len() && a0[i] == p;
                assert(a[i] == p);
                assert(a.contains(p));
                assert(a[i] < a.last());
                let j = choose|j: int| 0 <= j < b.len() && b[j] == p;
                assert(j < b.len() - 1);
                assert(b0[j] == p);
            }
            if b0.contains(p) {
                let i = choose|i: int| 0 <= i < b0.len() && b0[i] == p;
                assert(b[i] == p);
                assert(b.contains(p));
                assert(b[i] < b.last());
                let j = choose|j: int| 0 <= j < a.len() && a[j] == p;
                assert(j < a.len() - 1);
                assert(a0[j] == p);
            }
        }
        lemma_ascending_unique(a0, b0);
        assert(a =~= a0.push(a.last()));
        assert(b =~= b0.push(b.last()));
    }
}

/// An edit cache has one compilation for each stop position.
pub proof fn lemma_compiled_unique<G>(
    m: Map<u64, Instr<G>>,
    ends1: Seq<u64>,
    fns1: Seq<CacheFn>,
    ends2: Seq<u64>,
    fns2: Seq<CacheFn>,
    stop: u64,
)
    requires
        compiled(m, ends1, fns1, stop),
        compiled(m, ends2, fns2, stop),
    ensures
        ends1 == ends2,
        fns1 == fns2,
{
    assert forall|p: u64| ends1.contains(p) <==> ends2.contains(p) by {
        assert(ends1.contains(p) <==> is_edge(m, stop, p));
        assert(ends2.contains(p) <==> is_edge(m, stop, p));
    }
    lemma_ascending_unique(ends1, ends2);
    assert(fns1 =~= fns2);
}

/// Every instruction of a compiled channel lies before the stop position.
pub proof fn lemma_stop_bounds<G>(m: Map<u64, Instr<G>>, stop: u64, k: u64)
    requires
        disjoint(m),
        m.contains_key(k),
        last_end(m) matches Some(e) && e <= stop,
    ensures
        k < stop,
        m[k].eff_end() <= stop,
{
    lemma_last_end_bounds(m, k);
}

/// The compile cache as far as it is built when the instructions that start
/// before `upto` are laid out: its segments end exactly at the edges up to
/// `upto`.
pub open spec fn compiled_upto<G>(
    m: Map<u64, Instr<G>>,
    ends: Seq<u64>,
    fns: Seq<CacheFn>,
    stop: u64,
    upto: u64,
) -> bool {
    &&& ends.len() == fns.len()
    &&& ascending(ends)
    &&& forall|p: u64| ends.contains(p) <==> is_edge(m, stop, p) && p <= upto
    &&& forall|i: int|
        0 <= i < fns.len() ==> #[trigger] fns[i] == source_at(m, (ends[i] - 1) as u64)
}

/// The padding behind the explicit end of an instruction.
pub open spec fn pad_of(key: u64, end_pos: u64, keep_val: bool) -> CacheFn {
    if keep_val {
        CacheFn::Keep { key, at: end_pos }
    } else {
        CacheFn::Dflt
    }
}

/// The compile cache with the segments of the instruction at `key` appended:
/// the instruction itself, and padding up to the next edge where it ends
/// before that edge.
pub open spec fn emit<G>(
    m: Map<u64, Instr<G>>,
    ends: Seq<u64>,
    fns: Seq<CacheFn>,
    key: u64,
    edge: u64,
) -> (Seq<u64>, Seq<CacheFn>) {
    match m[key].end_spec {
        Some((end_pos, keep_val)) => if end_pos < edge {
            (
                ends.push(end_pos).push(edge),
                fns.push(CacheFn::Func { key }).push(pad_of(key, end_pos, keep_val)),
            )
        } else {
            (ends.push(end_pos), fns.push(CacheFn::Func { key }))
        },
        None => (ends.push(edge), fns.push(CacheFn::Func { key })),
    }
}

/// The edge at which the instruction at `key` hands over: the start of the
/// next instruction, or the stop position behind the last one.
pub open spec fn next_edge<G>(m: Map<u64, Instr<G>>, stop: u64, key: u64) -> u64 {
    match ceil_key(m, (key + 1) as u64) {
        Some(next) => next,
        None => stop,
    }
}

proof fn lemma_push_contains(s: Seq<u64>, x: u64, p: u64)
    ensures
        s.push(x).contains(p) <==> s.contains(p) || p == x,
{
    let t = s.push(x);
    if s.contains(p) {
        let i = choose|i: int| 0 <= i < s.len() && s[i] == p;
        assert(t[i] == p);
    }
    if p == x {
        assert(t[s.len() as int] == p);
    }
    if t.contains(p) {
        let i = choose|i: int| 0 <= i < t.len() && t[i] == p;
        if i < s.len() {
            assert(s[i] == p);
        }
    }
}

proof fn lemma_push_ascending(s: Seq<u64>, x: u64)
    requires
        ascending(s),
        x > 0,
        forall|i: int| 0 <= i < s.len() ==> s[i] < x,
    ensures
        ascending(s.push(x)),
{
}

/// Before the first instruction there is one edge at most: its start.
pub proof fn lemma_compile_init<G>(m: Map<u64, Instr<G>>, stop: u64, first: u64)
    requires
        disjoint(m),
        last_end(m) matches Some(e) && e <= stop,
        ceil_key(m, 0) == Some(first),
    ensures
        first > 0 ==> compiled_upto(
            m,
            Seq::<u64>::empty().push(first),
            Seq::<CacheFn>::empty().push(CacheFn::Dflt),
            stop,
            first,
        ),
        first == 0 ==> compiled_upto(m, Seq::<u64>::empty(), Seq::<CacheFn>::empty(), stop, first),
{
    lemma_ceil_key(m, 0);
    lemma_last_end_bounds(m, first);
    let ends0 = Seq::<u64>::empty();
    assert forall|p: u64| is_edge(m, stop, p) && p <= first implies p == first by {
        if m.contains_key(p) {
        } else if p != stop {
            let k = choose|k: u64| #[trigger] m.contains_key(k) && m[k].end() == Some(p);
            assert(first <= k);
        }
    }
    if first > 0 {
        let ends = ends0.push(first);
        let fns = Seq::<CacheFn>::empty().push(CacheFn::Dflt);
        assert forall|p: u64| ends.contains(p) <==> is_edge(m, stop, p) && p <= first by {
            lemma_push_contains(ends0, first, p);
        }
        lemma_floor_key(m, (first - 1) as u64);
        assert(fns[0] == source_at(m, (ends[0] - 1) as u64));
    }
}

/// Laying out one instruction extends the compile cache from the start of
/// that instruction to the next edge.
pub proof fn lemma_compile_step<G>(
    m: Map<u64, Instr<G>>,
    ends: Seq<u64>,
    fns: Seq<CacheFn>,
    stop: u64,
    key: u64,
)
    requires
        disjoint(m),
        last_end(m) matches Some(e) && e <= stop,
        m.contains_key(key),
        compiled_upto(m, ends, fns, stop, key),
    ensures
        ({
            let edge = next_edge(m, stop, key);
            let (ends2, fns2) = emit(m, ends, fns, key, edge);
            &&& key < edge <= stop
            &&& m[key].eff_end() <= edge
            &&& compiled_upto(m, ends2, fns2, stop, edge)
            &&& ends2.len() > 0
            &&& ends2.last() == edge
        }),
{
    let edge = next_edge(m, stop, key);
    let (ends2, fns2) = emit(m, ends, fns, key, edge);
    let next = ceil_key(m, (key + 1) as u64);
    lemma_ceil_key(m, (key + 1) as u64);
    lemma_last_end_bounds(m, key);
    if next is Some {
        lemma_last_end_bounds(m, next->Some_0);
    }
    assert(key < edge <= stop);
    assert(m[key].eff_end() <= edge);
    // No instruction starts between `key` and the next edge.
    assert forall|j: u64| key < j < edge implies !m.contains_key(j) by {
        if m.contains_key(j) {
            lemma_last_end_bounds(m, j);
        }
    }
    // Every end position so far is at most `key`.
    assert forall|i: int| 0 <= i < ends.len() implies ends[i] <= key by {
        assert(ends.contains(ends[i]));
    }
    // The edges between `key` and the next edge.
    assert forall|p: u64| key < p <= edge && is_edge(m, stop, p) implies p == edge || m[key].end()
        == Some(p) by {
        if p != stop && !m.contains_key(p) {
            let k = choose|k: u64| #[trigger] m.contains_key(k) && m[k].end() == Some(p);
            if k < key {
                assert(m.contains_key(k) && m.contains_key(key));
            } else if k > key {
                assert(k >= edge);
            }
        }
    }
    assert(is_edge(m, stop, edge));
    match m[key].end_spec {
        Some((end_pos, keep_val)) => {
            assert(m[key].end() == Some(end_pos));
            assert(is_edge(m, stop, end_pos));
            lemma_floor_key_is(m, (end_pos - 1) as u64, key);
            let ends1 = ends.push(end_pos);
            let fns1 = fns.push(CacheFn::Func { key });
            lemma_push_ascending(ends, end_pos);
            if end_pos < edge {
                lemma_floor_key_is(m, (edge - 1) as u64, key);
                lemma_push_ascending(ends1, edge);
                assert forall|p: u64| ends2.contains(p) <==> is_edge(m, stop, p) && p
                    <= edge by {
                    lemma_push_contains(ends, end_pos, p);
                    lemma_push_contains(ends1, edge, p);
                }
                assert forall|i: int| 0 <= i < fns2.len() implies #[trigger] fns2[i]
                    == source_at(m, (ends2[i] - 1) as u64) by {
                    if i < fns.len() {
                        assert(fns2[i] == fns[i]);
                        assert(ends2[i] == ends[i]);
                    }
                }
            } else {
                assert forall|p: u64| ends2.contains(p) <==> is_edge(m, stop, p) && p
                    <= edge by {
                    lemma_push_contains(ends, end_pos, p);
                }
                assert forall|i: int| 0 <= i < fns2.len() implies #[trigger] fns2[i]
                    == source_at(m, (ends2[i] - 1) as u64) by {
                    if i < fns.len() {
                        assert(fns2[i] == fns[i]);
                        assert(ends2[i] == ends[i]);
                    }
                }
            }
        },
        None => {
            lemma_floor_key_is(m, (edge - 1) as u64, key);
            lemma_push_ascending(ends, edge);
            assert forall|p: u64| ends2.contains(p) <==> is_edge(m, stop, p) && p <= edge by {
                lemma_push_contains(ends, edge, p);
            }
            assert forall|i: int| 0 <= i < fns2.len() implies #[trigger] fns2[i] == source_at(
                m,
                (ends2[i] - 1) as u64,
            ) by {
                if i < fns.len() {
                    assert(fns2[i] == fns[i]);
                    assert(ends2[i] == ends[i]);
                }
            }
        },
    }
}

/// Once the last instruction is laid out up to the stop position, the
/// compile cache is complete.
pub proof fn lemma_compile_done<G>(
    m: Map<u64, Instr<G>>,
    ends: Seq<u64>,
    fns: Seq<CacheFn>,
    stop: u64,
)
    requires
        disjoint(m),
        last_end(m) matches Some(e) && e <= stop,
        compiled_upto(m, ends, fns, stop, stop),
        ends.len() > 0,
        ends.last() == stop,
    ensures
        compiled(m, ends, fns, stop),
{
    assert forall|p: u64| is_edge(m, stop, p) implies p <= stop by {
        if m.contains_key(p) {
            lemma_stop_bounds(m, stop, p);
        } else if p != stop {
            let k = choose|k: u64| #[trigger] m.contains_key(k) && m[k].end() == Some(p);
            lemma_stop_bounds(m, stop, k);
        }
    }
}

/// The proportional image of the offset `d` into a tick window of width `w`
/// on `n` samples: `n * d / w`, rounded to the nearest sample, halves upwards.
/// A window of width zero is mapped to sample zero.
pub open spec fn scale(n: int, w: int, d: int) -> int {
    if w <= 0 {
        0
    } else {
        (n * d + w / 2) / w
    }
}

/// The image of a tick window is monotonic and stays within the samples. It
/// maps the start of the window to sample zero and its end to sample `n`.
pub proof fn lemma_scale(n: int, w: int, d1: int, d2: int)
    requires
        0 <= n,
        0 <= d1 <= d2 <= w,
    ensures
        0 <= scale(n, w, d1) <= scale(n, w, d2) <= n,
        scale(n, w, 0) == 0,
        w > 0 ==> scale(n, w, w) == n,
{
    if w > 0 {
        let h = w / 2;
        assert(0 <= h < w);
        assert(n * d1 <= n * d2 <= n * w) by (nonlinear_arith)
            requires
                0 <= n,
                0 <= d1 <= d2 <= w,
        ;
        assert(0 <= n * d1) by (nonlinear_arith)
            requires
                0 <= n,
                0 <= d1,
        ;
        assert((n * d1 + h) / w <= (n * d2 + h) / w) by (nonlinear_arith)
            requires
                w > 0,
                n * d1 + h <= n * d2 + h,
        ;
        assert(0 <= (n * d1 + h) / w) by (nonlinear_arith)
            requires
                w > 0,
                0 <= n * d1 + h,
        ;
        assert((n * d2 + h) / w <= n) by (nonlinear_arith)
            requires
                w > 0,
                n * d2 <= n * w,
                0 <= h < w,
        ;
        assert((n * 0 + h) / w == 0) by (nonlinear_arith)
            requires
                w > 0,
                0 <= h < w,
        ;
        assert((n * w + h) / w == n) by (nonlinear_arith)
            requires
                w > 0,
                0 <= h < w,
        ;
    }
}

/// A window that is as wide in ticks as in samples is mapped tick by tick.
pub proof fn lemma_scale_same(n: int, d: int)
    requires
        0 < n,
        0 <= d,
    ensures
        scale(n, n, d) == d,
{
    let h = n / 2;
    assert(0 <= h < n);
    assert((n * d + h) / n == d) by (nonlinear_arith)
        requires
            n > 0,
            0 <= h < n,
    ;
}

/// `scale`, computed without overflow.
pub fn scale_pos(n: usize, w: u64, d: u64) -> (r: usize)
    requires
        d <= w,
    ensures
        r == scale(n as int, w as int, d as int),
        r <= n,
{
    if w == 0 {
        0
    } else {
        proof {
            lemma_scale(n as int, w as int, d as int, d as int);
            assert(n * d <= 0xffff_ffff_ffff_ffff * 0xffff_ffff_ffff_ffff) by (nonlinear_arith)
                requires
                    0 <= n <= 0xffff_ffff_ffff_ffff,
                    0 <= d <= 0xffff_ffff_ffff_ffff,
            ;
        }
        let num: u128 = (n as u128) * (d as u128) + (w as u128) / 2;
        let q: u128 = num / (w as u128);
        q as usize
    }
}

/// The later of two positions.
pub open spec fn later(a: u64, b: u64) -> u64 {
    if a > b {
        a
    } else {
        b
    }
}

/// The earlier of two positions.
pub open spec fn earlier(a: u64, b: u64) -> u64 {
    if a < b {
        a
    } else {
        b
    }
}

/// The index of the last segment that a window ending at `we` reaches into.
pub open spec fn last_seg(ends: Seq<u64>, we: u64) -> int {
    if we == 0 {
        0
    } else {
        seg_of(ends, (we - 1) as u64)
    }
}

/// The part of segment `seg` that lies in the tick window `ws..we`, mapped
/// proportionally onto `n` samples.
pub open spec fn span_chunk(ends: Seq<u64>, ws: u64, we: u64, n: usize, seg: int) -> Chunk {
    let from = later(seg_start(ends, seg), ws);
    let to = earlier(ends[seg], we);
    Chunk {
        seg: seg as usize,
        lo: scale(n as int, we - ws, from - ws) as usize,
        hi: scale(n as int, we - ws, to - ws) as usize,
    }
}

/// The plan for `n` samples spread evenly over the tick window `ws..we`: one
/// chunk for each segment from the one that holds `ws` to the one that holds
/// the last tick of the window, in order.
pub open spec fn span_chunks(ends: Seq<u64>, ws: u64, we: u64, n: usize) -> Seq<Chunk> {
    let first = seg_of(ends, ws);
    let last = last_seg(ends, we);
    Seq::new((last + 1 - first) as nat, |j: int| span_chunk(ends, ws, we, n, first + j))
}

/// The part of segment `seg` that lies in the window of `n` ticks from `ws`,
/// as offsets into the window.
pub open spec fn window_chunk(ends: Seq<u64>, ws: u64, n: usize, seg: int) -> Chunk {
    let from = later(seg_start(ends, seg), ws);
    let to = if ends[seg] < ws + n {
        ends[seg] as int
    } else {
        ws + n
    };
    Chunk { seg: seg as usize, lo: (from - ws) as usize, hi: (to - ws) as usize }
}

/// The plan for the window of `n` ticks from `ws`, one sample for each tick:
/// one chunk for each segment that the window meets, in order. An empty window
/// has an empty plan.
pub open spec fn window_chunks(ends: Seq<u64>, ws: u64, n: usize) -> Seq<Chunk> {
    if n == 0 {
        Seq::empty()
    } else {
        let first = seg_of(ends, ws);
        let last = seg_of(ends, (ws + n - 1) as u64);
        Seq::new((last + 1 - first) as nat, |j: int| window_chunk(ends, ws, n, first + j))
    }
}

/// The segments that a window within the compiled range meets.
pub proof fn lemma_span_segs(ends: Seq<u64>, ws: u64, we: u64)
    requires
        ascending(ends),
        ends.len() > 0,
        ws <= we <= ends.last(),
    ensures
        0 <= seg_of(ends, ws) <= last_seg(ends, we) + 1,
        0 <= last_seg(ends, we) < ends.len(),
        ws < we ==> seg_of(ends, ws) <= last_seg(ends, we),
        forall|s: int|
            seg_of(ends, ws) <= s <= last_seg(ends, we) ==> #[trigger] seg_start(ends, s) <= we && (
            we > 0 ==> seg_start(ends, s) < we),
        forall|s: int| seg_of(ends, ws) <= s <= last_seg(ends, we) ==> ws < #[trigger] ends[s],
        forall|s: int| seg_of(ends, ws) <= s < last_seg(ends, we) ==> #[trigger] ends[s] < we,
        ws < we ==> ends[last_seg(ends, we)] >= we,
{
    lemma_seg_of(ends, ws);
    let first = seg_of(ends, ws);
    let last = last_seg(ends, we);
    if we == 0 {
        assert(ends[0] > 0);
        if first > 0 {
            assert(ends[first - 1] <= ws);
            assert(first - 1 == 0 || ends[0] < ends[first - 1]);
        }
    } else {
        lemma_seg_of(ends, (we - 1) as u64);
        if last == ends.len() {
            assert(ends[last - 1] <= we - 1);
        }
        if first > last + 1 {
            assert(ends[last] > we - 1);
            assert(ends[last + 1] <= ws);
            assert(ends[last] < ends[last + 1]);
        }
        if ws < we && first > last {
            assert(ends[last] > we - 1);
            assert(ends[first - 1] <= ws);
            assert(last == first - 1 || ends[last] < ends[first - 1]);
        }
        assert forall|s: int| first <= s <= last implies #[trigger] seg_start(ends, s) < we by {
            if s > 0 {
                if s < last {
                    assert(ends[s - 1] < ends[last - 1]);
                }
                assert(ends[last - 1] <= we - 1);
            }
        }
        assert forall|s: int| first <= s < last implies #[trigger] ends[s] < we by {
            assert(ends[last - 1] <= we - 1);
            assert(s == last - 1 || ends[s] < ends[last - 1]);
        }
    }
}

/// The plan for `n` samples spread evenly over the tick window `ws..we`.
pub fn plan_span(ends: &Vec<u64>, ws: u64, we: u64, n: usize) -> (chunks: Vec<Chunk>)
    requires
        ascending(ends@),
        ends@.len() > 0,
        ws <= we <= ends@.last(),
    ensures
        chunks@ == span_chunks(ends@, ws, we, n),
{
    let first: usize = upper_bound(ends, ws);
    let last: usize = if we == 0 {
        0
    } else {
        upper_bound(ends, we - 1)
    };
    proof {
        lemma_span_segs(ends@, ws, we);
    }
    let len: usize = ends.len();
    let w: u64 = we - ws;
    let mut chunks: Vec<Chunk> = Vec::new();
    let mut idx: usize = first;
    while idx <= last
        invariant
            ascending(ends@),
            ws <= we,
            w == we - ws,
            first == seg_of(ends@, ws),
            last == last_seg(ends@, we),
            last < len == ends@.len(),
            first <= idx <= last + 1,
            chunks@.len() == idx - first,
            forall|s: int| first <= s <= last ==> #[trigger] seg_start(ends@, s) <= we,
            forall|s: int| first <= s <= last ==> ws < #[trigger] ends@[s],
            forall|j: int|
                0 <= j < chunks@.len() ==> #[trigger] chunks@[j] == span_chunk(
                    ends@,
                    ws,
                    we,
                    n,
                    first + j,
                ),
        decreases last + 1 - idx,
    {
        let seg_lo: u64 = if idx == 0 {
            0
        } else {
            ends[idx - 1]
        };
        let from: u64 = if seg_lo > ws {
            seg_lo
        } else {
            ws
        };
        let end: u64 = ends[idx];
        let to: u64 = if end < we {
            end
        } else {
            we
        };
        assert(ws < ends@[idx as int]);
        assert(seg_lo == seg_start(ends@, idx as int));
        let lo: usize = scale_pos(n, w, from - ws);
        let hi: usize = scale_pos(n, w, to - ws);
        chunks.push(Chunk { seg: idx, lo, hi });
        idx += 1;
    }
    assert(chunks@ =~= span_chunks(ends@, ws, we, n));
    chunks
}

/// Spreading `n` samples over a window of `n` ticks gives one sample for
/// each tick.
pub proof fn lemma_span_is_window(ends: Seq<u64>, ws: u64, n: usize)
    requires
        ascending(ends),
        ends.len() > 0,
        n > 0,
        ws + n <= ends.last(),
    ensures
        span_chunks(ends, ws, (ws + n) as u64, n) == window_chunks(ends, ws, n),
{
    let we = (ws + n) as u64;
    lemma_span_segs(ends, ws, we);
    let first = seg_of(ends, ws);
    let last = last_seg(ends, we);
    let a = span_chunks(ends, ws, we, n);
    let b = window_chunks(ends, ws, n);
    assert(a.len() == b.len());
    assert forall|j: int| 0 <= j < a.len() implies a[j] == b[j] by {
        let s = first + j;
        assert(ws < ends[s]);
        let from = later(seg_start(ends, s), ws);
        let to = earlier(ends[s], we);
        lemma_scale_same(n as int, from - ws);
        lemma_scale_same(n as int, to - ws);
    }
    assert(a =~= b);
}

/// The chunk that a window within the compiled range cuts out of a segment
/// that it meets is not empty and lies within the window and the segment.
pub proof fn lemma_window_chunk(ends: Seq<u64>, ws: u64, n: usize, s: int)
    requires
        ascending(ends),
        0 < ends.len() <= usize::MAX,
        n > 0,
        ws + n <= ends.last(),
        seg_of(ends, ws) <= s <= seg_of(ends, (ws + n - 1) as u64),
    ensures
        ({
            let c = window_chunk(ends, ws, n, s);
            &&& 0 <= s < ends.len()
            &&& c.seg == s
            &&& c.lo < c.hi <= n
            &&& seg_start(ends, s) <= ws + c.lo
            &&& ws + c.hi <= ends[s]
            &&& s == seg_of(ends, ws) <==> c.lo == 0
            &&& s == seg_of(ends, (ws + n - 1) as u64) <==> c.hi == n
            &&& s < seg_of(ends, (ws + n - 1) as u64) ==> c.hi == ends[s] - ws
            &&& s > seg_of(ends, ws) ==> c.lo == ends[s - 1] - ws
        }),
{
    let we = (ws + n) as u64;
    lemma_span_segs(ends, ws, we);
    lemma_seg_of(ends, ws);
    let first = seg_of(ends, ws);
    let last = last_seg(ends, we);
    assert(ws < ends[s]);
    assert(seg_start(ends, s) < we);
    if s > 0 {
        assert(ends[s - 1] < ends[s]);
    }
    if s < last {
        assert(ends[s] < we);
    } else {
        assert(ends[last] >= we);
    }
    if s > first {
        assert(ends[s - 1] > ws);
    } else {
        assert(seg_start(ends, first) <= ws);
    }
}

/// The plan of a window within the compiled range covers the window without
/// gap or overlap, in order: it starts at sample zero, each chunk begins where
/// the one before it ends, none is empty, and the last ends with the window.
/// Every chunk lies within the ticks of its segment.
pub proof fn lemma_window_chunks(ends: Seq<u64>, ws: u64, n: usize)
    requires
        ascending(ends),
        0 < ends.len() <= usize::MAX,
        n > 0,
        ws + n <= ends.last(),
    ensures
        ({
            let plan = window_chunks(ends, ws, n);
            &&& plan.len() > 0
            &&& plan[0].lo == 0
            &&& plan.last().hi == n
            &&& forall|j: int| 0 <= j < plan.len() - 1 ==> (#[trigger] plan[j]).hi == plan[j + 1].lo
            &&& forall|j: int|
                0 <= j < plan.len() ==> {
                    &&& (#[trigger] plan[j]).lo < plan[j].hi <= n
                    &&& plan[j].seg == seg_of(ends, ws) + j
                    &&& plan[j].seg < ends.len()
                    &&& seg_start(ends, plan[j].seg as int) <= ws + plan[j].lo
                    &&& ws + plan[j].hi <= ends[plan[j].seg as int]
                }
        }),
{
    let we = (ws + n) as u64;
    let first = seg_of(ends, ws);
    let last = seg_of(ends, (ws + n - 1) as u64);
    let plan = window_chunks(ends, ws, n);
    assert(first <= last && plan.len() == last + 1 - first) by {
        lemma_span_segs(ends, ws, we);
    }
    assert forall|j: int| 0 <= j < plan.len() implies {
        &&& (#[trigger] plan[j]).lo < plan[j].hi <= n
        &&& plan[j].seg == first + j
        &&& plan[j].seg < ends.len()
        &&& seg_start(ends, plan[j].seg as int) <= ws + plan[j].lo
        &&& ws + plan[j].hi <= ends[plan[j].seg as int]
    } by {
        assert(plan[j] == window_chunk(ends, ws, n, first + j));
        lemma_window_chunk(ends, ws, n, first + j);
    }
    assert forall|j: int| 0 <= j < plan.len() - 1 implies (#[trigger] plan[j]).hi == plan[j
        + 1].lo by {
        assert(plan[j] == window_chunk(ends, ws, n, first + j));
        assert(plan[j + 1] == window_chunk(ends, ws, n, first + j + 1));
        lemma_window_chunk(ends, ws, n, first + j);
        lemma_window_chunk(ends, ws, n, first + j + 1);
    }
    assert(plan[0] == window_chunk(ends, ws, n, first));
    assert(plan.last() == window_chunk(ends, ws, n, last));
    lemma_window_chunk(ends, ws, n, first);
    lemma_window_chunk(ends, ws, n, last);
}

} // verus!
