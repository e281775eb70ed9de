//! The streamer: devices of both sample types, each on its own sample clock,
//! compiled and validated together.
//!
//! Devices run at different rates, so one moment in time is a different tick
//! on each of them. Operations that speak of a moment take one position for
//! each registered device, in the order of registration.

use crate::device::Device;
use crate::error::Error;
use vstd::prelude::*;

verus! {

/// A device of one of the two sample types: analog samples of type `A`, or
/// digital samples.
pub enum TypedDev<FA, A, FD> {
    AO(Device<FA, A>),
    DO(Device<FD, bool>),
}

impl<FA, A: Clone, FD> TypedDev<FA, A, FD> {
    pub open spec fn wf(&self) -> bool {
        match self {
            TypedDev::AO(dev) => dev.wf(),
            TypedDev::DO(dev) => dev.wf(),
        }
    }

    pub open spec fn label(&self) -> Seq<char> {
        match self {
            TypedDev::AO(dev) => dev.label(),
            TypedDev::DO(dev) => dev.label(),
        }
    }

    pub open spec fn active(&self) -> bool {
        match self {
            TypedDev::AO(dev) => dev.active(),
            TypedDev::DO(dev) => dev.active(),
        }
    }

    pub open spec fn last_end(&self) -> Option<u64> {
        match self {
            TypedDev::AO(dev) => dev.last_end(),
            TypedDev::DO(dev) => dev.last_end(),
        }
    }

    pub open spec fn stop_for(&self, stop_tick: u64) -> int {
        match self {
            TypedDev::AO(dev) => dev.stop_for(stop_tick),
            TypedDev::DO(dev) => dev.stop_for(stop_tick),
        }
    }

    pub open spec fn compiled_to(&self, stop_pos: u64) -> bool {
        match self {
            TypedDev::AO(dev) => dev.compiled_to(stop_pos),
            TypedDev::DO(dev) => dev.compiled_to(stop_pos),
        }
    }

    pub open spec fn validation(&self) -> Result<(), Error> {
        match self {
            TypedDev::AO(dev) => dev.validation(),
            TypedDev::DO(dev) => dev.validation(),
        }
    }

    pub open spec fn stop(&self) -> u64 {
        match self {
            TypedDev::AO(dev) => dev.stop(),
            TypedDev::DO(dev) => dev.stop(),
        }
    }

    /// The device is of the type of `other` and has its edit cache.
    pub open spec fn same_edit_cache(&self, other: &Self) -> bool {
        match (self, other) {
            (TypedDev::AO(dev), TypedDev::AO(before)) => dev.same_edit_cache(before),
            (TypedDev::DO(dev), TypedDev::DO(before)) => dev.same_edit_cache(before),
            _ => false,
        }
    }

    /// The device is `before` with a reset instruction added at `reset_pos` to
    /// every channel.
    pub open spec fn reset_of(&self, before: &Self, reset_pos: u64) -> bool {
        match (self, before) {
            (TypedDev::AO(dev), TypedDev::AO(old)) => dev.reset_of(old, reset_pos),
            (TypedDev::DO(dev), TypedDev::DO(old)) => dev.reset_of(old, reset_pos),
            _ => false,
        }
    }

    /// The device is `before` after a compilation for `stop_tick`: a device
    /// with instructions has a valid compile cache that stops at the position
    /// asked for, or one tick further where the closing edge would be clipped;
    /// a device without instructions is as it was.
    pub open spec fn compiled_as(&self, before: &Self, stop_tick: u64) -> bool {
        if before.active() {
            &&& self.active()
            &&& self.compiled_to(before.stop_for(stop_tick) as u64)
            &&& self.validation() is Ok
            &&& self.stop() == before.stop_for(stop_tick)
        } else {
            *self == *before
        }
    }

    /// The device is `before` with the compile cache of every channel emptied.
    pub open spec fn compile_cache_cleared_of(&self, before: &Self) -> bool {
        match (self, before) {
            (TypedDev::AO(dev), TypedDev::AO(old)) => dev.compile_cache_cleared_of(old),
            (TypedDev::DO(dev), TypedDev::DO(old)) => dev.compile_cache_cleared_of(old),
            _ => false,
        }
    }

    /// The device is `before` with both caches of every channel emptied.
    pub open spec fn edit_cache_cleared_of(&self, before: &Self) -> bool {
        match (self, before) {
            (TypedDev::AO(dev), TypedDev::AO(old)) => dev.edit_cache_cleared_of(old),
            (TypedDev::DO(dev), TypedDev::DO(old)) => dev.edit_cache_cleared_of(old),
            _ => false,
        }
    }

    pub fn tag_name(&self) -> (name: &String)
        ensures
            name@ == self.label(),
    {
        match self {
            TypedDev::AO(dev) => dev.name(),
            TypedDev::DO(dev) => dev.name(),
        }
    }

    pub fn tag_got_instructions(&self) -> (got: bool)
        ensures
            got == self.active(),
    {
        match self {
            TypedDev::AO(dev) => dev.got_instructions(),
            TypedDev::DO(dev) => dev.got_instructions(),
        }
    }

    pub fn tag_last_instr_end_pos(&self) -> (pos: Option<u64>)
        requires
            self.wf(),
        ensures
            pos == self.last_end(),
    {
        match self {
            TypedDev::AO(dev) => dev.last_instr_end_pos(),
            TypedDev::DO(dev) => dev.last_instr_end_pos(),
        }
    }

    pub fn tag_compile(&mut self, stop_tick: u64) -> (res: Result<(), Error>)
        requires
            old(self).wf(),
            stop_tick < u64::MAX,
        ensures
            final(self).wf(),
            final(self).same_edit_cache(old(self)),
            match old(self).last_end() {
                None => res == Err::<(), Error>(Error::NoInstructions) && *final(self)
                    == *old(self),
                Some(e) if stop_tick < e => res == Err::<(), Error>(
                    Error::StopBeforeLast { last_end: e },
                ) && *final(self) == *old(self),
                Some(_) => {
                    &&& res is Ok
                    &&& final(self).active()
                    &&& final(self).compiled_to(old(self).stop_for(stop_tick) as u64)
                    &&& final(self).validation() is Ok
                    &&& final(self).stop() == old(self).stop_for(stop_tick)
                },
            },
    {
        match self {
            TypedDev::AO(dev) => dev.compile(stop_tick),
            TypedDev::DO(dev) => dev.compile(stop_tick),
        }
    }

    pub fn tag_clear_edit_cache(&mut self)
        requires
            old(self).wf(),
        ensures
            final(self).wf(),
            final(self).edit_cache_cleared_of(old(self)),
    {
        match self {
            TypedDev::AO(dev) => dev.clear_edit_cache(),
            TypedDev::DO(dev) => dev.clear_edit_cache(),
        }
    }

    pub fn tag_clear_compile_cache(&mut self)
        requires
            old(self).wf(),
        ensures
            final(self).wf(),
            final(self).compile_cache_cleared_of(old(self)),
    {
        match self {
            TypedDev::AO(dev) => dev.clear_compile_cache(),
            TypedDev::DO(dev) => dev.clear_compile_cache(),
        }
    }

    pub fn tag_validate_compile_cache(&self) -> (res: Result<(), Error>)
        requires
            self.wf(),
        ensures
            res == self.validation(),
    {
        match self {
            TypedDev::AO(dev) => dev.validate_compile_cache(),
            TypedDev::DO(dev) => dev.validate_compile_cache(),
        }
    }

    pub fn tag_compiled_stop_pos(&self) -> (pos: u64)
        requires
            self.wf(),
            self.validation() is Ok,
        ensures
            pos == self.stop(),
    {
        match self {
            TypedDev::AO(dev) => dev.compiled_stop_pos(),
            TypedDev::DO(dev) => dev.compiled_stop_pos(),
        }
    }

    pub fn tag_add_reset_instr(&mut self, reset_pos: u64) -> (res: Result<(), Error>)
        requires
            old(self).wf(),
            reset_pos < u64::MAX,
        ensures
            final(self).wf(),
            final(self).label() == old(self).label(),
            match old(self).last_end() {
                Some(e) if reset_pos < e => res == Err::<(), Error>(
                    Error::StopBeforeLast { last_end: e },
                ) && *final(self) == *old(self),
                _ => res is Ok && final(self).reset_of(old(self), reset_pos),
            },
    {
        match self {
            TypedDev::AO(dev) => dev.add_reset_instr(reset_pos),
            TypedDev::DO(dev) => dev.add_reset_instr(reset_pos),
        }
    }
}

/// The position of the first device among the first `n` that has instructions
/// and for which `ticks` gives a position before the end of its last
/// instruction, with that end.
pub open spec fn first_late<FA, A: Clone, FD>(
    devs: Seq<TypedDev<FA, A, FD>>,
    ticks: Seq<u64>,
    n: int,
) -> Option<(int, u64)>
    decreases n,
{
    if n <= 0 {
        None
    } else {
        match first_late(devs, ticks, n - 1) {
            Some(found) => Some(found),
            None => match devs[n - 1].last_end() {
                Some(e) if ticks[n - 1] < e => Some((n - 1, e)),
                _ => None,
            },
        }
    }
}

/// Some device among the first `n` has instructions.
pub open spec fn any_active<FA, A: Clone, FD>(devs: Seq<TypedDev<FA, A, FD>>, n: int) -> bool
    decreases n,
{
    if n <= 0 {
        false
    } else {
        any_active(devs, n - 1) || devs[n - 1].active()
    }
}

/// The verdict on the first device among the first `n` that has
/// instructions and an invalid compile cache.
pub open spec fn first_invalid<FA, A: Clone, FD>(devs: Seq<TypedDev<FA, A, FD>>, n: int) -> Option<
    Error,
>
    decreases n,
{
    if n <= 0 {
        None
    } else {
        match first_invalid(devs, n - 1) {
            Some(e) => Some(e),
            None => if devs[n - 1].active() {
                match devs[n - 1].validation() {
                    Err(e) => Some(e),
                    Ok(()) => None,
                }
            } else {
                None
            },
        }
    }
}

/// What the recursive searches over the devices find.
pub proof fn lemma_dev_searches<FA, A: Clone, FD>(
    devs: Seq<TypedDev<FA, A, FD>>,
    ticks: Seq<u64>,
    n: int,
)
    requires
        0 <= n <= devs.len(),
        n <= ticks.len(),
    ensures
        any_active(devs, n) <==> exists|i: int| 0 <= i < n && (#[trigger] devs[i]).active(),
        first_late(devs, ticks, n) is None <==> forall|i: int|
            0 <= i < n && (#[trigger] devs[i]).last_end() is Some ==> ticks[i]
                >= devs[i].last_end()->Some_0,
        first_late(devs, ticks, n) matches Some((i, e)) ==> 0 <= i < n && devs[i].last_end()
            == Some(e) && ticks[i] < e,
        first_invalid(devs, n) is None <==> forall|i: int|
            0 <= i < n && (#[trigger] devs[i]).active() ==> devs[i].validation() is Ok,
    decreases n,
{
    if n > 0 {
        lemma_dev_searches(devs, ticks, n - 1);
        if any_active(devs, n) {
            if devs[n - 1].active() {
            } else {
                let i = choose|i: int| 0 <= i < n - 1 && (#[trigger] devs[i]).active();
                assert(0 <= i < n && devs[i].active());
            }
        }
    }
}

/// The streamer: devices of distinct names, in the order of registration.
pub struct Streamer<FA, A, FD> {
    devs: Vec<TypedDev<FA, A, FD>>,
}

impl<FA, A: Clone, FD> Streamer<FA, A, FD> {
    /// The devices, in the order in which they were added.
    pub closed spec fn devices(&self) -> Seq<TypedDev<FA, A, FD>> {
        self.devs@
    }

    /// The streamer invariant: every device is well-formed, and no two devices
    /// have the same name, whatever their types.
    pub open spec fn wf(&self) -> bool {
        &&& forall|i: int| 0 <= i < self.devices().len() ==> (#[trigger] self.devices()[i]).wf()
        &&& forall|i: int, j: int|
            0 <= i < j < self.devices().len() ==> (#[trigger] self.devices()[i]).label() != (
            #[trigger] self.devices()[j]).label()
    }

    /// A device of the streamer is called `name`.
    pub open spec fn has_dev(&self, name: Seq<char>) -> bool {
        exists|i: int|
            0 <= i < self.devices().len() && (#[trigger] self.devices()[i]).label() == name
    }

    /// Some device has instructions.
    pub open spec fn active(&self) -> bool {
        any_active(self.devices(), self.devices().len() as int)
    }

    /// Every device is of the type that it has in `other` and has the edit
    /// cache that it has there.
    pub open spec fn same_edit_cache(&self, other: &Self) -> bool {
        &&& self.devices().len() == other.devices().len()
        &&& forall|i: int|
            0 <= i < self.devices().len() ==> (#[trigger] self.devices()[i]).same_edit_cache(
                &other.devices()[i],
            )
    }

    /// The streamer is `before` after a compilation for the stop positions
    /// `ticks`: edit caches are kept, and every device is compiled for its
    /// own position.
    pub open spec fn compiled_of(&self, before: &Self, ticks: Seq<u64>) -> bool {
        &&& self.same_edit_cache(before)
        &&& forall|i: int|
            0 <= i < self.devices().len() ==> (#[trigger] self.devices()[i]).compiled_as(
                &before.devices()[i],
                ticks[i],
            )
    }

    /// The verdict on the compile caches: some device must have instructions,
    /// and the compile cache of every device with instructions must be valid.
    /// Devices need not stop at the same time: their clocks differ, and each
    /// may run one tick longer for a closing edge.
    pub open spec fn validation(&self) -> Result<(), Error> {
        if !self.active() {
            Err(Error::NoInstructions)
        } else {
            match first_invalid(self.devices(), self.devices().len() as int) {
                Some(e) => Err(e),
                None => Ok(()),
            }
        }
    }

    /// The outcome that `compile` owes for the stop positions `ticks`.
    pub open spec fn compile_verdict(&self, ticks: Seq<u64>) -> Result<(), Error> {
        if ticks.len() != self.devices().len() {
            Err(Error::WrongCount)
        } else if !self.active() {
            Err(Error::NoInstructions)
        } else {
            match first_late(self.devices(), ticks, self.devices().len() as int) {
                Some((_, e)) => Err(Error::StopBeforeLast { last_end: e }),
                None => Ok(()),
            }
        }
    }

    /// The outcome that `add_reset_instr` owes for the reset positions `ticks`.
    pub open spec fn reset_verdict(&self, ticks: Seq<u64>) -> Result<(), Error> {
        if ticks.len() != self.devices().len() {
            Err(Error::WrongCount)
        } else {
            match first_late(self.devices(), ticks, self.devices().len() as int) {
                Some((_, e)) => Err(Error::StopBeforeLast { last_end: e }),
                None => Ok(()),
            }
        }
    }

    /// A streamer without devices.
    pub fn new() -> (streamer: Self)
        ensures
            streamer.wf(),
            streamer.devices().len() == 0,
            !streamer.active(),
    {
        Streamer { devs: Vec::new() }
    }

    pub fn devs(&self) -> (devs: &Vec<TypedDev<FA, A, FD>>)
        ensures
            devs@ == self.devices(),
    {
        &self.devs
    }

    /// The index of the device called `name`.
    pub fn dev_index(&self, name: &str) -> (found: Option<usize>)
        ensures
            match found {
                Some(i) => i < self.devices().len() && self.devices()[i as int].label() == name@,
                None => !self.has_dev(name@),
            },
    {
        let wanted: String = name.to_owned();
        let n: usize = self.devs.len();
        let mut i: usize = 0;
        while i < n
            invariant
                n == self.devices().len(),
                i <= n,
                wanted@ == name@,
                forall|j: int| 0 <= j < i ==> (#[trigger] self.devices()[j]).label() != name@,
            decreases n - i,
        {
            if *self.devs[i].tag_name() == wanted {
                return Some(i);
            }
            i += 1;
        }
        None
    }

    /// The device called `name`.
    pub fn dev(&self, name: &str) -> (res: Result<&TypedDev<FA, A, FD>, Error>)
        ensures
            match res {
                Ok(dev) => exists|i: int|
                    0 <= i < self.devices().len() && #[trigger] self.devices()[i] == *dev
                        && dev.label() == name@,
                Err(e) => e == Error::UnknownName && !self.has_dev(name@),
            },
    {
        match self.dev_index(name) {
            Some(i) => Ok(&self.devs[i]),
            None => Err(Error::UnknownName),
        }
    }

    /// The device called `name`, to edit it. The streamer holds afterwards
    /// what the caller has made of the device.
    pub fn dev_mut(&mut self, name: &str) -> (res: Result<&mut TypedDev<FA, A, FD>, Error>)
        ensures
            match res {
                Ok(dev) => exists|i: int|
                    0 <= i < old(self).devices().len() && #[trigger] old(self).devices()[i] == *dev
                        && dev.label() == name@ && final(self).devices()
                            == old(self).devices().update(i, *final(dev)),
                Err(e) => e == Error::UnknownName && !old(self).has_dev(name@)
                    && final(self).devices() == old(self).devices(),
            },
    {
        match self.dev_index(name) {
            Some(i) => Ok(&mut self.devs[i]),
            None => Err(Error::UnknownName),
        }
    }

    /// Tells whether a device of that name can be added: the name must be new,
    /// among the devices of both types.
    pub fn check_can_add_dev(&self, name: &str) -> (res: Result<(), Error>)
        ensures
            res is Ok <==> !self.has_dev(name@),
            res is Err ==> res == Err::<(), Error>(Error::DuplicateName),
    {
        match self.dev_index(name) {
            Some(_) => Err(Error::DuplicateName),
            None => Ok(()),
        }
    }

    /// Adds a device behind those that the streamer has. A device whose name
    /// is taken is refused, and handed back.
    pub fn add_dev(&mut self, dev: TypedDev<FA, A, FD>) -> (res: Result<
        (),
        (Error, TypedDev<FA, A, FD>),
    >)
        requires
            old(self).wf(),
            dev.wf(),
        ensures
            final(self).wf(),
            match res {
                Ok(()) => !old(self).has_dev(dev.label()) && final(self).devices()
                    == old(self).devices().push(dev),
                Err((e, back)) => e == Error::DuplicateName && back == dev && old(self).has_dev(
                    dev.label(),
                ) && final(self).devices() == old(self).devices(),
            },
    {
        if self.check_can_add_dev(dev.tag_name().as_str()).is_err() {
            return Err((Error::DuplicateName, dev));
        }
        self.devs.push(dev);
        proof {
            let before = old(self).devices();
            let after = self.devices();
            assert(after == before.push(dev));
            assert forall|i: int| 0 <= i < after.len() implies (#[trigger] after[i]).wf() by {
                if i < before.len() {
                    assert(after[i] == before[i]);
                }
            }
            assert forall|i: int, j: int| 0 <= i < j < after.len()
                implies (#[trigger] after[i]).label()
                != (#[trigger] after[j]).label() by {
                assert(after[i] == before[i]);
                if j < before.len() {
                    assert(after[j] == before[j]);
                }
            }
        }
        Ok(())
    }

    /// Adds a device with analog samples.
    pub fn add_ao_device(&mut self, dev: Device<FA, A>) -> (res: Result<
        (),
        (Error, TypedDev<FA, A, FD>),
    >)
        requires
            old(self).wf(),
            dev.wf(),
        ensures
            final(self).wf(),
            match res {
                Ok(()) => !old(self).has_dev(dev.label()) && final(self).devices()
                    == old(self).devices().push(TypedDev::AO(dev)),
                Err((e, back)) => e == Error::DuplicateName && back
                    == TypedDev::<FA, A, FD>::AO(dev)
                    && old(self).has_dev(dev.label()) && final(self).devices()
                        == old(self).devices(),
            },
    {
        self.add_dev(TypedDev::AO(dev))
    }

    /// Adds a device with digital samples.
    pub fn add_do_device(&mut self, dev: Device<FD, bool>) -> (res: Result<
        (),
        (Error, TypedDev<FA, A, FD>),
    >)
        requires
            old(self).wf(),
            dev.wf(),
        ensures
            final(self).wf(),
            match res {
                Ok(()) => !old(self).has_dev(dev.label()) && final(self).devices()
                    == old(self).devices().push(TypedDev::DO(dev)),
                Err((e, back)) => e == Error::DuplicateName && back
                    == TypedDev::<FA, A, FD>::DO(dev)
                    && old(self).has_dev(dev.label()) && final(self).devices()
                        == old(self).devices(),
            },
    {
        self.add_dev(TypedDev::DO(dev))
    }

    /// Whether some device has instructions.
    pub fn got_instructions(&self) -> (got: bool)
        ensures
            got == self.active(),
    {
        let n: usize = self.devs.len();
        let mut i: usize = 0;
        while i < n
            invariant
                n == self.devices().len(),
                i <= n,
                !any_active(self.devices(), i as int),
            decreases n - i,
        {
            if self.devs[i].tag_got_instructions() {
                proof {
                    lemma_dev_searches(self.devices(), Seq::new(n as nat, |k: int| 0u64), n as int);
                }
                return true;
            }
            i += 1;
        }
        false
    }

    /// The indices of the devices with instructions, in ascending order.
    pub fn active_devs(&self) -> (active: Vec<usize>)
        ensures
            forall|k: int|
                0 <= k < active@.len() ==> (#[trigger] active@[k]) < self.devices().len()
                    && self.devices()[active@[k] as int].active(),
            forall|k: int, l: int| 0 <= k < l < active@.len() ==> active@[k] < active@[l],
            forall|i: int|
                0 <= i < self.devices().len() && (#[trigger] self.devices()[i]).active()
                    ==> active@.contains(i as usize),
    {
        let n: usize = self.devs.len();
        let mut active: Vec<usize> = Vec::new();
        let mut i: usize = 0;
        while i < n
            invariant
                n == self.devices().len(),
                i <= n,
                forall|k: int|
                    0 <= k < active@.len() ==> (#[trigger] active@[k]) < i
                        && self.devices()[active@[k] as int].active(),
                forall|k: int, l: int| 0 <= k < l < active@.len() ==> active@[k] < active@[l],
                forall|j: int|
                    0 <= j < i && (#[trigger] self.devices()[j]).active() ==> active@.contains(
                        j as usize,
                    ),
            decreases n - i,
        {
            if self.devs[i].tag_got_instructions() {
                let ghost before = active@;
                active.push(i);
                proof {
                    assert(active@[before.len() as int] == i);
                    assert forall|j: int|
                        0 <= j < i + 1 && (#[trigger] self.devices()[j]).active()
                            implies active@.contains(j as usize) by {
                        if j < i {
                            let k = choose|k: int| 0 <= k < before.len() && before[k] == j as usize;
                            assert(active@[k] == j as usize);
                        }
                    }
                }
            }
            i += 1;
        }
        active
    }

    /// The end of the last instruction on each device, in ticks of that
    /// device.
    pub fn last_instr_end_pos(&self) -> (ends: Vec<Option<u64>>)
        requires
            self.wf(),
        ensures
            ends@.len() == self.devices().len(),
            forall|i: int|
                0 <= i < ends@.len() ==> #[trigger] ends@[i] == self.devices()[i].last_end(),
    {
        let n: usize = self.devs.len();
        let mut ends: Vec<Option<u64>> = Vec::new();
        let mut i: usize = 0;
        while i < n
            invariant
                self.wf(),
                n == self.devices().len(),
                i <= n,
                ends@.len() == i,
                forall|j: int| 0 <= j < i ==> #[trigger] ends@[j] == self.devices()[j].last_end(),
            decreases n - i,
        {
            ends.push(self.devs[i].tag_last_instr_end_pos());
            i += 1;
        }
        ends
    }

    /// The first device for which `ticks` gives a position before the end of
    /// its last instruction.
    fn find_late(&self, ticks: &Vec<u64>) -> (late: Option<u64>)
        requires
            self.wf(),
            ticks@.len() == self.devices().len(),
        ensures
            match first_late(self.devices(), ticks@, self.devices().len() as int) {
                Some((_, e)) => late == Some(e),
                None => late is None,
            },
    {
        let n: usize = self.devs.len();
        let mut i: usize = 0;
        while i < n
            invariant
                self.wf(),
                n == self.devices().len(),
                n == ticks@.len(),
                i <= n,
                first_late(self.devices(), ticks@, i as int) is None,
            decreases n - i,
        {
            if let Some(e) = self.devs[i].tag_last_instr_end_pos() {
                if ticks[i] < e {
                    proof {
                        lemma_first_late_found(self.devices(), ticks@, i as int, n as int);
                    }
                    return Some(e);
                }
            }
            i += 1;
        }
        None
    }

    /// Compiles every device that has instructions, each up to its own stop
    /// position: `stop_ticks` holds one position for each registered device.
    ///
    /// Some device must have instructions, and no position of a device with
    /// instructions may lie before the end of its last instruction; else
    /// nothing is changed. Each device compiles up to its position, or one
    /// tick further where the closing edge would be clipped.
    pub fn compile(&mut self, stop_ticks: &Vec<u64>) -> (res: Result<(), Error>)
        requires
            old(self).wf(),
            forall|i: int| 0 <= i < stop_ticks@.len() ==> stop_ticks@[i] < u64::MAX,
        ensures
            final(self).wf(),
            res == old(self).compile_verdict(stop_ticks@),
            res is Err ==> final(self).devices() == old(self).devices(),
            res is Ok ==> final(self).compiled_of(old(self), stop_ticks@)
                && final(self).validation() is Ok,
    {
        if stop_ticks.len() != self.devs.len() {
            return Err(Error::WrongCount);
        }
        if !self.got_instructions() {
            return Err(Error::NoInstructions);
        }
        if let Some(e) = self.find_late(stop_ticks) {
            return Err(Error::StopBeforeLast { last_end: e });
        }
        let n: usize = self.devs.len();
        let mut i: usize = 0;
        proof {
            lemma_dev_searches(self.devices(), stop_ticks@, n as int);
        }
        while i < n
            invariant
                n == self.devices().len(),
                n == old(self).devices().len(),
                n == stop_ticks@.len(),
                i <= n,
                old(self).wf(),
                forall|j: int| 0 <= j < stop_ticks@.len() ==> stop_ticks@[j] < u64::MAX,
                forall|j: int|
                    0 <= j < n && (#[trigger] old(self).devices()[j]).last_end() is Some
                        ==> stop_ticks@[j] >= old(self).devices()[j].last_end()->Some_0,
                forall|j: int| i <= j < n ==> #[trigger] self.devices()[j]
                    == old(self).devices()[j],
                forall|j: int|
                    0 <= j < i ==> {
                        &&& (#[trigger] self.devices()[j]).wf()
                        &&& self.devices()[j].same_edit_cache(&old(self).devices()[j])
                        &&& self.devices()[j].compiled_as(&old(self).devices()[j], stop_ticks@[j])
                    },
            decreases n - i,
        {
            if self.devs[i].tag_got_instructions() {
                let _ = self.devs[i].tag_compile(stop_ticks[i]);
            } else {
                proof {
                    lemma_same_edit_cache_refl(self.devices()[i as int]);
                }
            }
            i += 1;
        }
        proof {
            lemma_labels_kept(old(self).devices(), self.devices());
            lemma_dev_searches(self.devices(), stop_ticks@, n as int);
            let w = choose|k: int| 0 <= k < n && (#[trigger] old(self).devices()[k]).active();
            assert(self.devices()[w].compiled_as(&old(self).devices()[w], stop_ticks@[w]));
            assert(self.devices()[w].active());
            assert forall|k: int| 0 <= k < n && (#[trigger] self.devices()[k]).active()
                implies self.devices()[k].validation() is Ok by {
                assert(self.devices()[k].compiled_as(&old(self).devices()[k], stop_ticks@[k]));
            }
        }
        Ok(())
    }

    /// Empties the compile cache of every device.
    pub fn clear_compile_cache(&mut self)
        requires
            old(self).wf(),
        ensures
            final(self).wf(),
            final(self).same_edit_cache(old(self)),
            forall|i: int|
                0 <= i < final(self).devices().len()
                    ==> (#[trigger] final(self).devices()[i]).compile_cache_cleared_of(
                    &old(self).devices()[i],
                ),
    {
        let n: usize = self.devs.len();
        let mut i: usize = 0;
        while i < n
            invariant
                n == self.devices().len(),
                n == old(self).devices().len(),
                i <= n,
                old(self).wf(),
                forall|j: int| i <= j < n ==> #[trigger] self.devices()[j]
                    == old(self).devices()[j],
                forall|j: int|
                    0 <= j < i ==> (#[trigger] self.devices()[j]).wf()
                        && self.devices()[j].same_edit_cache(&old(self).devices()[j])
                        && self.devices()[j].compile_cache_cleared_of(&old(self).devices()[j]),
            decreases n - i,
        {
            self.devs[i].tag_clear_compile_cache();
            i += 1;
        }
        proof {
            lemma_labels_kept(old(self).devices(), self.devices());
        }
    }

    /// Empties the edit cache of every device, and with it the compile cache.
    pub fn clear_edit_cache(&mut self)
        requires
            old(self).wf(),
        ensures
            final(self).wf(),
            final(self).devices().len() == old(self).devices().len(),
            !final(self).active(),
            forall|i: int|
                0 <= i < final(self).devices().len()
                    ==> (#[trigger] final(self).devices()[i]).edit_cache_cleared_of(
                    &old(self).devices()[i],
                ),
    {
        let n: usize = self.devs.len();
        let mut i: usize = 0;
        while i < n
            invariant
                n == self.devices().len(),
                n == old(self).devices().len(),
                i <= n,
                old(self).wf(),
                forall|j: int| i <= j < n ==> #[trigger] self.devices()[j]
                    == old(self).devices()[j],
                forall|j: int|
                    0 <= j < i ==> (#[trigger] self.devices()[j]).wf()
                        && self.devices()[j].edit_cache_cleared_of(&old(self).devices()[j]),
            decreases n - i,
        {
            self.devs[i].tag_clear_edit_cache();
            i += 1;
        }
        proof {
            lemma_dev_searches(self.devices(), Seq::new(n as nat, |k: int| 0u64), n as int);
            assert forall|i: int, j: int| 0 <= i < j < self.devices().len() implies (
            #[trigger] self.devices()[i]).label() != (#[trigger] self.devices()[j]).label() by {
                assert(self.devices()[i].edit_cache_cleared_of(&old(self).devices()[i]));
                assert(self.devices()[j].edit_cache_cleared_of(&old(self).devices()[j]));
                assert(old(self).devices()[i].label() != old(self).devices()[j].label());
            }
        }
    }

    /// Tells whether the compile caches are fit for use: valid on every device
    /// with instructions. The first invalid device gives the error.
    pub fn validate_compile_cache(&self) -> (res: Result<(), Error>)
        requires
            self.wf(),
        ensures
            res == self.validation(),
    {
        if !self.got_instructions() {
            return Err(Error::NoInstructions);
        }
        let n: usize = self.devs.len();
        let mut i: usize = 0;
        while i < n
            invariant
                self.wf(),
                self.active(),
                n == self.devices().len(),
                i <= n,
                first_invalid(self.devices(), i as int) is None,
            decreases n - i,
        {
            if self.devs[i].tag_got_instructions() {
                if let Err(e) = self.devs[i].tag_validate_compile_cache() {
                    proof {
                        lemma_first_invalid_found(self.devices(), i as int, n as int);
                    }
                    return Err(e);
                }
            }
            i += 1;
        }
        Ok(())
    }

    /// The devices that have instructions and an invalid compile cache, each
    /// with its verdict, in ascending order.
    pub fn invalid_devs(&self) -> (failed: Vec<(usize, Error)>)
        requires
            self.wf(),
        ensures
            forall|k: int|
                0 <= k < failed@.len() ==> (#[trigger] failed@[k]).0 < self.devices().len()
                    && self.devices()[failed@[k].0 as int].active()
                    && self.devices()[failed@[k].0 as int].validation() == Err::<(), Error>(
                    failed@[k].1,
                ),
            forall|k: int, l: int| 0 <= k < l < failed@.len() ==> failed@[k].0 < failed@[l].0,
            forall|i: int|
                0 <= i < self.devices().len() && (#[trigger] self.devices()[i]).active()
                    && self.devices()[i].validation() is Err ==> exists|k: int|
                    0 <= k < failed@.len() && (#[trigger] failed@[k]).0 == i,
    {
        let n: usize = self.devs.len();
        let mut failed: Vec<(usize, Error)> = Vec::new();
        let mut i: usize = 0;
        while i < n
            invariant
                self.wf(),
                n == self.devices().len(),
                i <= n,
                forall|k: int|
                    0 <= k < failed@.len() ==> (#[trigger] failed@[k]).0 < i
                        && self.devices()[failed@[k].0 as int].active()
                        && self.devices()[failed@[k].0 as int].validation() == Err::<(), Error>(
                        failed@[k].1,
                    ),
                forall|k: int, l: int| 0 <= k < l < failed@.len() ==> failed@[k].0 < failed@[l].0,
                forall|j: int|
                    0 <= j < i && (#[trigger] self.devices()[j]).active()
                        && self.devices()[j].validation() is Err ==> exists|k: int|
                        0 <= k < failed@.len() && (#[trigger] failed@[k]).0 == j,
            decreases n - i,
        {
            if self.devs[i].tag_got_instructions() {
                if let Err(e) = self.devs[i].tag_validate_compile_cache() {
                    let ghost before = failed@;
                    failed.push((i, e));
                    proof {
                        assert(failed@[before.len() as int].0 == i);
                        assert forall|j: int|
                            0 <= j < i + 1 && (#[trigger] self.devices()[j]).active()
                                && self.devices()[j].validation() is Err implies exists|k: int|
                            0 <= k < failed@.len() && (#[trigger] failed@[k]).0 == j by {
                            if j < i {
                                let k = choose|k: int|
                                    0 <= k < before.len() && (#[trigger] before[k]).0 == j;
                                assert(failed@[k].0 == j);
                            }
                        }
                    }
                }
            }
            i += 1;
        }
        failed
    }

    /// Adds a reset instruction to every channel of every device, with or
    /// without instructions: `reset_ticks` holds one position for each
    /// registered device. No position may lie before the end of the last
    /// instruction of its device; else nothing is changed.
    pub fn add_reset_instr(&mut self, reset_ticks: &Vec<u64>) -> (res: Result<(), Error>)
        requires
            old(self).wf(),
            forall|i: int| 0 <= i < reset_ticks@.len() ==> reset_ticks@[i] < u64::MAX,
        ensures
            final(self).wf(),
            res == old(self).reset_verdict(reset_ticks@),
            res is Err ==> final(self).devices() == old(self).devices(),
            res is Ok ==> final(self).devices().len() == old(self).devices().len() && forall|
                i: int,
            |
                0 <= i < final(self).devices().len()
                    ==> (#[trigger] final(self).devices()[i]).reset_of(
                    &old(self).devices()[i],
                    reset_ticks@[i],
                ),
    {
        if reset_ticks.len() != self.devs.len() {
            return Err(Error::WrongCount);
        }
        if let Some(e) = self.find_late(reset_ticks) {
            return Err(Error::StopBeforeLast { last_end: e });
        }
        let n: usize = self.devs.len();
        let mut i: usize = 0;
        proof {
            lemma_dev_searches(self.devices(), reset_ticks@, n as int);
        }
        while i < n
            invariant
                n == self.devices().len(),
                n == old(self).devices().len(),
                n == reset_ticks@.len(),
                i <= n,
                old(self).wf(),
                forall|j: int| 0 <= j < reset_ticks@.len() ==> reset_ticks@[j] < u64::MAX,
                forall|j: int|
                    0 <= j < n && (#[trigger] old(self).devices()[j]).last_end() is Some
                        ==> reset_ticks@[j] >= old(self).devices()[j].last_end()->Some_0,
                forall|j: int| i <= j < n ==> #[trigger] self.devices()[j]
                    == old(self).devices()[j],
                forall|j: int|
                    0 <= j < i ==> (#[trigger] self.devices()[j]).wf()
                        && self.devices()[j].reset_of(&old(self).devices()[j], reset_ticks@[j]),
            decreases n - i,
        {
            let _ = self.devs[i].tag_add_reset_instr(reset_ticks[i]);
            i += 1;
        }
        proof {
            assert forall|i: int, j: int| 0 <= i < j < self.devices().len() implies (
            #[trigger] self.devices()[i]).label() != (#[trigger] self.devices()[j]).label() by {
                assert(self.devices()[i].reset_of(&old(self).devices()[i], reset_ticks@[i]));
                assert(self.devices()[j].reset_of(&old(self).devices()[j], reset_ticks@[j]));
                assert(old(self).devices()[i].label() != old(self).devices()[j].label());
            }
        }
        Ok(())
    }
}

/// A device has its own edit cache.
pub proof fn lemma_same_edit_cache_refl<FA, A: Clone, FD>(dev: TypedDev<FA, A, FD>)
    ensures
        dev.same_edit_cache(&dev),
{
}

/// Devices that keep their edit caches keep their names, and so stay apart.
pub proof fn lemma_labels_kept<FA, A: Clone, FD>(
    before: Seq<TypedDev<FA, A, FD>>,
    after: Seq<TypedDev<FA, A, FD>>,
)
    requires
        before.len() == after.len(),
        forall|i: int| 0 <= i < after.len() ==> (#[trigger] after[i]).same_edit_cache(&before[i]),
        forall|i: int, j: int|
            0 <= i < j < before.len() ==> (#[trigger] before[i]).label() != (
            #[trigger] before[j]).label(),
    ensures
        forall|i: int| 0 <= i < after.len() ==> (#[trigger] after[i]).label() == before[i].label(),
        forall|i: int, j: int|
            0 <= i < j < after.len() ==> (#[trigger] after[i]).label() != (
            #[trigger] after[j]).label(),
{
    assert forall|i: int| 0 <= i < after.len() implies (#[trigger] after[i]).label()
        == before[i].label() by {
        assert(after[i].same_edit_cache(&before[i]));
    }
    assert forall|i: int, j: int| 0 <= i < j < after.len()
        implies (#[trigger] after[i]).label() != (
    #[trigger] after[j]).label() by {
        assert(after[i].label() == before[i].label());
        assert(after[j].label() == before[j].label());
        assert(before[i].label() != before[j].label());
    }
}

/// A late device that follows devices that are not late is the first late
/// one.
pub proof fn lemma_first_late_found<FA, A: Clone, FD>(
    devs: Seq<TypedDev<FA, A, FD>>,
    ticks: Seq<u64>,
    i: int,
    n: int,
)
    requires
        0 <= i < n,
        first_late(devs, ticks, i) is None,
        devs[i].last_end() matches Some(e) && ticks[i] < e,
    ensures
        first_late(devs, ticks, n) == Some((i, devs[i].last_end()->Some_0)),
    decreases n - i,
{
    if n > i + 1 {
        lemma_first_late_found(devs, ticks, i, n - 1);
    }
}

/// An invalid device that follows devices that are valid is the first invalid
/// one.
pub proof fn lemma_first_invalid_found<FA, A: Clone, FD>(
    devs: Seq<TypedDev<FA, A, FD>>,
    i: int,
    n: int,
)
    requires
        0 <= i < n,
        first_invalid(devs, i) is None,
        devs[i].active(),
        devs[i].validation() is Err,
    ensures
        first_invalid(devs, n) == Some(devs[i].validation()->Err_0),
    decreases n - i,
{
    if n > i + 1 {
        lemma_first_invalid_found(devs, i, n - 1);
    }
}

} // verus!
