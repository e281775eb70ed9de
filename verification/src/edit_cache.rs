//! The edit cache of a channel as a mathematical object: a map from start
//! positions to instructions, with the rules that govern insertion, and the
//! ordered look-ups on the tree that holds it.

use crate::error::Error;
use crate::instruction::Instr;
use std::collections::BTreeMap;
use vstd::prelude::*;

verus! {

/// The greatest key that is at most `p`, if there is one.
pub open spec fn floor_key<V>(m: Map<u64, V>, p: u64) -> Option<u64>
    decreases p,
{
    if m.contains_key(p) {
        Some(p)
    } else if p == 0 {
        None
    } else {
        floor_key(m, (p - 1) as u64)
    }
}

/// The least key that is at least `p`, if there is one.
pub open spec fn ceil_key<V>(m: Map<u64, V>, p: u64) -> Option<u64>
    decreases u64::MAX - p,
{
    if m.contains_key(p) {
        Some(p)
    } else if p == u64::MAX {
        None
    } else {
        ceil_key(m, (p + 1) as u64)
    }
}

/// What `floor_key` finds: a key at most `p` with no key between it and `p`.
pub proof fn lemma_floor_key<V>(m: Map<u64, V>, p: u64)
    ensures
        match floor_key(m, p) {
            Some(k) => m.contains_key(k) && k <= p && forall|j: u64|
                k < j <= p ==> !m.contains_key(j),
            None => forall|j: u64| j <= p ==> !m.contains_key(j),
        },
    decreases p,
{
    if !m.contains_key(p) && p != 0 {
        lemma_floor_key(m, (p - 1) as u64);
    }
}

/// What `ceil_key` finds: a key at least `p` with no key between `p` and it.
pub proof fn lemma_ceil_key<V>(m: Map<u64, V>, p: u64)
    ensures
        match ceil_key(m, p) {
            Some(k) => m.contains_key(k) && p <= k && forall|j: u64|
                p <= j < k ==> !m.contains_key(j),
            None => forall|j: u64| p <= j ==> !m.contains_key(j),
        },
    decreases u64::MAX - p,
{
    if !m.contains_key(p) && p != u64::MAX {
        lemma_ceil_key(m, (p + 1) as u64);
    }
}

/// A key at most `p` with no key between it and `p` is the floor of `p`.
pub proof fn lemma_floor_key_is<V>(m: Map<u64, V>, p: u64, k: u64)
    requires
        m.contains_key(k),
        k <= p,
        forall|j: u64| k < j <= p ==> !m.contains_key(j),
    ensures
        floor_key(m, p) == Some(k),
{
    lemma_floor_key(m, p);
}

/// The edit cache invariant: every instruction is stored under its start
/// position and is at least one tick long, and no instruction starts before
/// an earlier one has ended.
pub open spec fn disjoint<G>(m: Map<u64, Instr<G>>) -> bool {
    &&& forall|k: u64| #[trigger]
        m.contains_key(k) ==> m[k].start_pos == k && m[k].wf()
    &&& forall|a: u64, b: u64|
        #![trigger m.contains_key(a), m.contains_key(b)]
        m.contains_key(a) && m.contains_key(b) && a < b ==> m[a].eff_end() <= b
}

/// The start position of the last instruction.
pub open spec fn last_key<G>(m: Map<u64, Instr<G>>) -> Option<u64> {
    floor_key(m, u64::MAX)
}

/// The effective end of the last instruction.
pub open spec fn last_end<G>(m: Map<u64, Instr<G>>) -> Option<u64> {
    match last_key(m) {
        Some(k) => Some(m[k].eff_end() as u64),
        None => None,
    }
}

/// The effective end of an interval that is not stored yet.
pub open spec fn eff_end_of(start_pos: u64, end_spec: Option<(u64, bool)>) -> int {
    match end_spec {
        Some((end_pos, _)) => end_pos as int,
        None => start_pos + 1,
    }
}

/// The left neighbour of a new instruction: the last one that starts before it.
pub open spec fn left_of<G>(m: Map<u64, Instr<G>>, start_pos: u64) -> Option<u64> {
    if start_pos == 0 {
        None
    } else {
        floor_key(m, (start_pos - 1) as u64)
    }
}

/// Reconciles the start of a new instruction with its left neighbour. An
/// overlap of exactly one tick is taken for a rounding artefact and repaired by
/// starting one tick later, unless that would leave nothing of the pulse.
pub open spec fn fit_left<G>(
    m: Map<u64, Instr<G>>,
    start_pos: u64,
    end_spec: Option<(u64, bool)>,
) -> Result<u64, Error> {
    match left_of(m, start_pos) {
        None => Ok(start_pos),
        Some(prev) => {
            let prev_end = m[prev].eff_end();
            if prev_end <= start_pos {
                Ok(start_pos)
            } else if prev_end == start_pos + 1 {
                match end_spec {
                    Some((end_pos, _)) => if end_pos - start_pos >= 2 {
                        Ok((start_pos + 1) as u64)
                    } else {
                        Err(Error::Unrepairable1Tick { with: prev })
                    },
                    None => Ok((start_pos + 1) as u64),
                }
            } else {
                Err(Error::CollisionLeft { with: prev })
            }
        },
    }
}

/// Reconciles the end of a new instruction with its right neighbour, the first
/// instruction that starts at or behind `start_pos`. An overlap of exactly one
/// tick is repaired by ending one tick earlier, unless that would leave nothing
/// of the pulse; a go-this instruction has no end to trim.
pub open spec fn fit_right<G>(
    m: Map<u64, Instr<G>>,
    start_pos: u64,
    end_spec: Option<(u64, bool)>,
) -> Result<Option<(u64, bool)>, Error> {
    match ceil_key(m, start_pos) {
        None => Ok(end_spec),
        Some(next) => {
            let end = eff_end_of(start_pos, end_spec);
            if end <= next {
                Ok(end_spec)
            } else if end == next + 1 {
                match end_spec {
                    Some((end_pos, keep_val)) => if end_pos - start_pos >= 2 {
                        Ok(Some(((end_pos - 1) as u64, keep_val)))
                    } else {
                        Err(Error::Unrepairable1Tick { with: next })
                    },
                    None => Err(Error::GoThisBeforeInstr { with: next }),
                }
            } else {
                Err(Error::CollisionRight { with: next })
            }
        },
    }
}

/// The interval under which a new instruction is stored, or the reason why it
/// is refused.
pub open spec fn reconcile<G>(
    m: Map<u64, Instr<G>>,
    start_pos: u64,
    end_spec: Option<(u64, bool)>,
) -> Result<(u64, Option<(u64, bool)>), Error> {
    if end_spec matches Some((end_pos, _)) && end_pos <= start_pos {
        Err(Error::ShortPulse)
    } else {
        match fit_left(m, start_pos, end_spec) {
            Err(e) => Err(e),
            Ok(start) => match fit_right(m, start, end_spec) {
                Err(e) => Err(e),
                Ok(end) => Ok((start, end)),
            },
        }
    }
}

/// A reconciled instruction fits: storing it keeps the edit cache free of
/// overlaps, and it takes the place of no other instruction.
pub proof fn lemma_reconcile_fits<G>(
    m: Map<u64, Instr<G>>,
    start_pos: u64,
    end_spec: Option<(u64, bool)>,
    func: G,
)
    requires
        disjoint(m),
        end_spec is None ==> start_pos + 2 <= u64::MAX,
        reconcile(m, start_pos, end_spec) is Ok,
    ensures
        ({
            let (start, end) = reconcile(m, start_pos, end_spec)->Ok_0;
            let instr = Instr { start_pos: start, end_spec: end, func };
            &&& instr.wf()
            &&& !m.contains_key(start)
            &&& disjoint(m.insert(start, instr))
            &&& start_pos <= start <= start_pos + 1
        }),
{
    let (start, end) = reconcile(m, start_pos, end_spec)->Ok_0;
    let instr = Instr { start_pos: start, end_spec: end, func };
    let m2 = m.insert(start, instr);
    if start_pos > 0 {
        lemma_floor_key(m, (start_pos - 1) as u64);
    }
    lemma_ceil_key(m, start);
    assert(!m.contains_key(start));
    assert(instr.wf());
    // Every earlier instruction ends before the new one starts.
    assert forall|a: u64| m.contains_key(a) && a < start implies m[a].eff_end() <= start by {
        if start_pos > 0 {
            let prev = left_of(m, start_pos)->Some_0;
            if a != prev {
                assert(m.contains_key(prev));
                assert(a < prev);
            }
        }
    }
    assert forall|a: u64, b: u64|
        #![trigger m2.contains_key(a), m2.contains_key(b)]
        m2.contains_key(a) && m2.contains_key(b) && a < b implies m2[a].eff_end() <= b by {
        if a == start {
            let next = ceil_key(m, start)->Some_0;
            assert(m.contains_key(b));
            if b != next {
                assert(m.contains_key(next));
                assert(next < b);
                assert(m[next].eff_end() <= b);
            }
        } else if b == start {
            assert(m.contains_key(a));
        } else {
            assert(m.contains_key(a) && m.contains_key(b));
        }
    }
    assert forall|k: u64| #[trigger] m2.contains_key(k) implies m2[k].start_pos == k
        && m2[k].wf() by {
        if k != start {
            assert(m.contains_key(k));
        }
    }
}

/// In a cache free of overlaps the instructions end in the order in which
/// they start: none ends behind the last one.
pub proof fn lemma_last_end_bounds<G>(m: Map<u64, Instr<G>>, k: u64)
    requires
        disjoint(m),
        m.contains_key(k),
    ensures
        last_key(m) matches Some(last) && m.contains_key(last) && k <= last,
        last_end(m) matches Some(e) && m[k].eff_end() <= e && k < e,
{
    lemma_floor_key(m, u64::MAX);
    let last = last_key(m)->Some_0;
    assert(m.contains_key(last));
    if k != last {
        assert(m.contains_key(k) && m.contains_key(last));
    }
}

/// `BTreeMap::range` over the keys up to and including `bound`, and
/// `next_back` on what it yields: the entry with the greatest such key. A
/// `BTreeMap` yields its entries in ascending order of their keys, so this is a
/// key at most `bound` with no key between it and `bound`, or `None` where no
/// key is that small.
#[verifier::external_body]
fn last_at_most<'a, V>(m: &'a BTreeMap<u64, V>, bound: u64) -> (found: Option<(u64, &'a V)>)
    ensures
        match found {
            Some((k, v)) => m@.contains_key(k) && m@[k] == *v && k <= bound && forall|j: u64|
                k < j <= bound ==> !m@.contains_key(j),
            None => forall|j: u64| j <= bound ==> !m@.contains_key(j),
        },
{
    m.range(..=bound).next_back().map(|(k, v)| (*k, v))
}

/// `BTreeMap::range` over the keys from `bound` on, and `next` on what it
/// yields: the entry with the least such key. A `BTreeMap` yields its entries
/// in ascending order of their keys, so this is a key at least `bound` with no
/// key between `bound` and it, or `None` where no key is that large.
#[verifier::external_body]
fn first_at_least<'a, V>(m: &'a BTreeMap<u64, V>, bound: u64) -> (found: Option<(u64, &'a V)>)
    ensures
        match found {
            Some((k, v)) => m@.contains_key(k) && m@[k] == *v && bound <= k && forall|j: u64|
                bound <= j < k ==> !m@.contains_key(j),
            None => forall|j: u64| bound <= j ==> !m@.contains_key(j),
        },
{
    m.range(bound..).next().map(|(k, v)| (*k, v))
}

/// The entry with the greatest key that is at most `p`.
pub fn floor_entry<'a, V>(m: &'a BTreeMap<u64, V>, p: u64) -> (found: Option<(u64, &'a V)>)
    ensures
        match found {
            Some((k, v)) => floor_key(m@, p) == Some(k) && m@.contains_key(k) && m@[k] == *v,
            None => floor_key(m@, p) is None,
        },
{
    let found = last_at_most(m, p);
    proof {
        lemma_floor_key(m@, p);
    }
    found
}

/// The entry with the least key that is at least `p`.
pub fn ceil_entry<'a, V>(m: &'a BTreeMap<u64, V>, p: u64) -> (found: Option<(u64, &'a V)>)
    ensures
        match found {
            Some((k, v)) => ceil_key(m@, p) == Some(k) && m@.contains_key(k) && m@[k] == *v,
            None => ceil_key(m@, p) is None,
        },
{
    let found = first_at_least(m, p);
    proof {
        lemma_ceil_key(m@, p);
    }
    found
}

} // verus!
