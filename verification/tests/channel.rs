use wavegen::channel::{ChanFn, Channel, ConstFn};
use wavegen::compile_cache::{CacheFn, Chunk};
use wavegen::error::Error;
use wavegen::instruction::Instr;

/// A sine wave, as a caller's function library would define it.
#[derive(Clone, Debug)]
struct Sine {
    freq: f64,
    amp: f64,
    phase: f64,
    offs: f64,
}

impl Sine {
    fn new(freq: f64, amp: f64, phase: f64, offs: f64) -> Self {
        Sine { freq, amp, phase, offs }
    }

    fn at(&self, t: f64) -> f64 {
        self.offs + self.amp * f64::sin(2.0 * std::f64::consts::PI * self.freq * t + self.phase)
    }
}

type Chan = Channel<Sine, f64>;

fn ticks(t: f64, samp_rate: f64) -> u64 {
    (t * samp_rate).round() as u64
}

fn add(chan: &mut Chan, func: ChanFn<Sine, f64>, rate: f64, t: f64, dur: Option<(f64, bool)>) -> Result<(), Error> {
    let end_spec = dur.map(|(d, keep_val)| (ticks(t + d, rate), keep_val));
    chan.add_instr(func, ticks(t, rate), end_spec)
}

fn value_of(chan: &Chan, func: CacheFn, pos: u64, rate: f64) -> f64 {
    let eval = |f: &ChanFn<Sine, f64>, p: u64| match f {
        ChanFn::Const(c) => *c.val(),
        ChanFn::Func(s) => s.at(p as f64 / rate),
    };
    match func {
        CacheFn::Dflt => *chan.dflt_val(),
        CacheFn::Func { key } => eval(chan.instr(key).unwrap().func(), pos),
        CacheFn::Keep { key, at } => eval(chan.instr(key).unwrap().func(), at),
    }
}

fn materialize(chan: &Chan, start_pos: u64, plan: &[Chunk], n: usize, rate: f64) -> Vec<f64> {
    let mut out = vec![*chan.dflt_val(); n];
    for c in plan {
        let func = chan.compile_cache_fns()[c.seg];
        for i in c.lo..c.hi {
            out[i] = value_of(chan, func, start_pos + i as u64, rate);
        }
    }
    out
}

#[test]
fn channel_last_instr_end_pos() {
    let rate: f64 = 1e6;
    let mut my_chan = Chan::new("ao0", 0.0, 0.0);
    let mock_func = || ChanFn::Const(ConstFn::new(1.23));

    // No instructions
    assert_eq!(my_chan.last_instr_end_pos().unwrap_or(0), 0);
    assert_eq!(my_chan.last_instr_end_pos(), None);

    // Instruction with a specified duration, `eff_end_pos = end_pos`
    add(&mut my_chan, mock_func(), rate, 1.0, Some((1.0, true))).unwrap();
    assert_eq!(my_chan.last_instr_end_pos(), Some(2000000));

    // "Go-this" instruction - unspecified duration, `eff_end_pos = start_pos + 1`
    add(&mut my_chan, mock_func(), rate, 3.0, None).unwrap();
    assert_eq!(my_chan.last_instr_end_pos(), Some(3000001));

    my_chan.clear_edit_cache();
    assert_eq!(my_chan.last_instr_end_pos().unwrap_or(0), 0);
}

#[test]
fn pad_before_first_instr() {
    let rate: f64 = 1e6;
    let chan_dflt = -10.0;
    let mut my_chan = Chan::new("ao0", chan_dflt, chan_dflt);

    // Finite gap
    add(&mut my_chan, ChanFn::Func(Sine::new(1.23, 1.0, 0.0, 0.5)), rate, 1.0, Some((1.0, false))).unwrap();
    let stop = my_chan.last_instr_end_pos().unwrap();
    assert_eq!(stop, ticks(1.0 * 1e6 + 1.0 * 1e6, 1.0));
    my_chan.compile(stop).unwrap();
    assert_eq!(my_chan.compile_cache_ends()[0], 1000000);
    assert_eq!(my_chan.compile_cache_ends(), &vec![1_000_000, 2_000_000]);
    assert!(my_chan.compile_cache_fns()[0] == CacheFn::Dflt);
    assert!({
        let pad_val = value_of(&my_chan, my_chan.compile_cache_fns()[0], 0, rate);
        (pad_val - chan_dflt).abs() < 1e-10
    });

    // No gap
    my_chan.clear_edit_cache();
    add(&mut my_chan, ChanFn::Func(Sine::new(1.23, 1.0, 0.0, 0.5)), rate, 0.0, Some((1.0, false))).unwrap();
    my_chan.compile(my_chan.last_instr_end_pos().unwrap()).unwrap();
    assert_eq!(my_chan.compile_cache_ends()[0], 1000000);
    assert!(my_chan.compile_cache_fns()[0] == CacheFn::Func { key: 0 });
    assert!(matches!(my_chan.instr(0).unwrap().func(), ChanFn::Func(_)));
}

#[test]
fn pad_keep_val() {
    let rate: f64 = 1e6;
    let chan_dflt = -10.0;
    let mut my_chan = Chan::new("ao0", chan_dflt, chan_dflt);

    let freq = 0.12;
    let pulse_dur: f64 = 1.0;
    let comp_stop_pos = (2.0 * pulse_dur * rate).round() as u64;

    // keep_val = true
    add(&mut my_chan, ChanFn::Func(Sine::new(freq, 1.0, 0.0, 0.0)), rate, 0.0, Some((pulse_dur, true))).unwrap();
    my_chan.compile(comp_stop_pos).unwrap();
    let pad_func = my_chan.compile_cache_fns()[1];
    assert!(pad_func == CacheFn::Keep { key: 0, at: 1_000_000 });
    assert!({
        let actual_pad_val = value_of(&my_chan, pad_func, 1_500_000, rate);
        let expected_pad_val = Sine::new(freq, 1.0, 0.0, 0.0).at(pulse_dur);
        (actual_pad_val - expected_pad_val).abs() < 1e-10
    });
    assert!({
        let actual_pad_val = value_of(&my_chan, pad_func, 1_500_000, rate);
        (actual_pad_val - f64::sin(2.0 * std::f64::consts::PI * 0.12 * 1.0)).abs() < 1e-10
    });

    // keep_val = false
    my_chan.clear_edit_cache();
    add(&mut my_chan, ChanFn::Func(Sine::new(freq, 2.0, 0.0, 0.0)), rate, 0.0, Some((pulse_dur, false))).unwrap();
    my_chan.compile(comp_stop_pos).unwrap();
    let pad_func = my_chan.compile_cache_fns()[1];
    assert!(pad_func == CacheFn::Dflt);
    assert!({
        let actual_pad_val = value_of(&my_chan, pad_func, 1_500_000, rate);
        (actual_pad_val - chan_dflt).abs() < 1e-10
    });
}

#[test]
fn instr_accessors() {
    let instr = Instr::new(0, Some((5, true)), 1u8);
    assert_eq!(instr.start_pos(), 0);
    assert_eq!(instr.end_spec(), Some((5, true)));
    assert_eq!(*instr.func(), 1u8);
    assert_eq!(instr.end_pos(), Some(5));
    assert_eq!(instr.eff_end_pos(), 5);
    assert_eq!(instr.dur(), Some(5));

    let go_this = Instr::new(7, None, 2u8);
    assert_eq!(go_this.end_pos(), None);
    assert_eq!(go_this.eff_end_pos(), 8);
    assert_eq!(go_this.dur(), None);

    let shortest = Instr::new(4, Some((5, false)), 3u8);
    assert_eq!(shortest.dur(), Some(1));
}

#[test]
fn const_fn_fills_every_sample() {
    let f = ConstFn::new(2.5);
    assert_eq!(*f.val(), 2.5);
    let t_arr = [0.0, 0.1, 0.2];
    let mut res = [0.0; 3];
    f.calc(&t_arr, &mut res);
    assert_eq!(res, [2.5, 2.5, 2.5]);
    let g = f.clone();
    assert_eq!(*g.val(), 2.5);
    let mut none: [f64; 0] = [];
    g.calc(&t_arr[..0], &mut none);
}

#[test]
fn new_channel_is_empty_and_fresh() {
    let chan = Chan::new("port0/line3", 0.5, 1.5);
    assert_eq!(chan.name(), "port0/line3");
    assert_eq!(*chan.dflt_val(), 0.5);
    assert_eq!(*chan.rst_val(), 1.5);
    assert!(!chan.got_instructions());
    assert!(chan.is_fresh_compiled());
    assert!(chan.compile_cache_ends().is_empty());
    assert!(chan.compile_cache_fns().is_empty());
    assert!(chan.instr_list().is_empty());
    assert!(chan.last_instr().is_none());
    assert_eq!(chan.validate_compile_cache(), Ok(()));
}

#[test]
fn short_pulse_is_refused() {
    let mut chan = Chan::new("ao0", 0.0, 0.0);
    assert_eq!(chan.constant(1.0, 10, Some((10, false))), Err(Error::ShortPulse));
    assert_eq!(chan.constant(1.0, 10, Some((9, false))), Err(Error::ShortPulse));
    // A pulse that collapses on the grid: 0.4 ticks long at 1 Hz.
    assert_eq!(add(&mut chan, ChanFn::Const(ConstFn::new(1.0)), 1.0, 1.0, Some((0.4, false))), Err(Error::ShortPulse));
    assert!(!chan.got_instructions());
    assert!(chan.is_fresh_compiled());
    assert_eq!(chan.constant(1.0, 10, Some((11, false))), Ok(()));
}

#[test]
fn collisions_are_refused() {
    let mut chan = Chan::new("ao0", 0.0, 0.0);
    chan.constant(1.0, 100, Some((200, false))).unwrap();
    // Two ticks of overlap on the left.
    assert_eq!(chan.constant(2.0, 198, Some((300, false))), Err(Error::CollisionLeft { with: 100 }));
    // Starts in the middle of the existing instruction.
    assert_eq!(chan.constant(2.0, 150, None), Err(Error::CollisionLeft { with: 100 }));
    // Two ticks of overlap on the right.
    assert_eq!(chan.constant(2.0, 50, Some((102, false))), Err(Error::CollisionRight { with: 100 }));
    // Same start.
    assert_eq!(chan.constant(2.0, 100, Some((150, false))), Err(Error::CollisionRight { with: 100 }));
    assert_eq!(chan.instr_list().len(), 1);
    // Back to back on both sides is fine.
    assert_eq!(chan.constant(2.0, 50, Some((100, false))), Ok(()));
    assert_eq!(chan.constant(2.0, 200, Some((250, false))), Ok(()));
    assert_eq!(chan.instr_list().len(), 3);
}

#[test]
fn one_tick_left_collision_is_repaired() {
    let mut chan = Chan::new("ao0", 0.0, 0.0);
    chan.constant(1.0, 0, Some((101, false))).unwrap();
    assert_eq!(chan.constant(2.0, 100, Some((200, true))), Ok(()));
    assert!(chan.instr(100).is_none());
    let fixed = chan.instr(101).unwrap();
    assert_eq!(fixed.start_pos(), 101);
    assert_eq!(fixed.end_spec(), Some((200, true)));
    // A go-this instruction is shifted as well.
    let mut other = Chan::new("ao1", 0.0, 0.0);
    other.constant(1.0, 0, Some((101, false))).unwrap();
    assert_eq!(other.constant(2.0, 100, None), Ok(()));
    assert_eq!(other.instr(101).unwrap().end_spec(), None);
    assert_eq!(other.last_instr_end_pos(), Some(102));
}

#[test]
fn one_tick_right_collision_is_repaired() {
    // Channel at 10 MHz: a pulse at t = 1.0 s, then one whose rounded end
    // lies one tick behind the start of the first.
    let rate: f64 = 1e7;
    let mut chan = Chan::new("ao0", 0.0, 0.0);
    add(&mut chan, ChanFn::Const(ConstFn::new(1.0)), rate, 1.0, Some((0.5, false))).unwrap();
    assert_eq!(chan.instr(10_000_000).unwrap().end_spec(), Some((15_000_000, false)));
    assert_eq!(add(&mut chan, ChanFn::Const(ConstFn::new(2.0)), rate, 0.5, Some((0.5000001, true))), Ok(()));
    let fixed = chan.instr(5_000_000).unwrap();
    assert_eq!(fixed.end_spec(), Some((10_000_000, true)));
    assert_eq!(chan.instr_list().len(), 2);
    assert!(!chan.is_fresh_compiled() || chan.compile_cache_ends().is_empty());

    // The same with the positions 5_000_001 and 5_000_000.
    let mut other = Chan::new("ao1", 0.0, 0.0);
    other.constant(1.0, 5_000_000, Some((7_500_000, false))).unwrap();
    assert_eq!(other.constant(2.0, 2_500_000, Some((5_000_001, true))), Ok(()));
    assert_eq!(other.instr(2_500_000).unwrap().end_pos(), Some(5_000_000));
}

#[test]
fn one_tick_pulse_cannot_be_trimmed() {
    let mut chan = Chan::new("ao0", 0.0, 0.0);
    chan.constant(1.0, 0, Some((101, false))).unwrap();
    chan.constant(1.0, 200, Some((300, false))).unwrap();
    assert_eq!(chan.constant(2.0, 100, Some((101, false))), Err(Error::Unrepairable1Tick { with: 0 }));
    assert_eq!(chan.constant(2.0, 200, Some((201, false))), Err(Error::Unrepairable1Tick { with: 200 }));
    // Trimmed on the left to one tick, it cannot be trimmed on the right too.
    let mut tight = Chan::new("ao1", 0.0, 0.0);
    tight.constant(1.0, 0, Some((6, false))).unwrap();
    tight.constant(1.0, 6, Some((9, false))).unwrap();
    assert_eq!(tight.constant(2.0, 5, Some((7, false))), Err(Error::Unrepairable1Tick { with: 6 }));
    assert_eq!(chan.instr_list().len(), 2);
}

#[test]
fn go_this_before_instr_is_refused() {
    let rate: f64 = 1e6;
    let mut chan = Chan::new("ao0", 0.0, 0.0);
    add(&mut chan, ChanFn::Const(ConstFn::new(1.0)), rate, 1.0, Some((0.5, false))).unwrap();
    assert_eq!(
        add(&mut chan, ChanFn::Const(ConstFn::new(2.0)), rate, 1.0, None),
        Err(Error::GoThisBeforeInstr { with: 1_000_000 })
    );
    // One tick earlier there is room for it.
    assert_eq!(chan.constant(2.0, 999_999, None), Ok(()));
}

#[test]
fn fresh_flag_follows_the_edit_cache() {
    let mut chan = Chan::new("ao0", 0.0, 0.0);
    assert!(chan.is_fresh_compiled());
    chan.constant(1.0, 0, Some((10, false))).unwrap();
    assert!(!chan.is_fresh_compiled());
    assert_eq!(chan.validate_compile_cache(), Err(Error::StaleCompile));
    chan.compile(10).unwrap();
    assert!(chan.is_fresh_compiled());
    // A refused instruction leaves the flag alone.
    assert!(chan.constant(1.0, 5, Some((20, false))).is_err());
    assert!(chan.is_fresh_compiled());
    chan.constant(1.0, 20, Some((30, false))).unwrap();
    assert!(!chan.is_fresh_compiled());
    assert_eq!(chan.compile_cache_ends(), &vec![10]);
    chan.clear_compile_cache();
    assert!(!chan.is_fresh_compiled());
    assert!(chan.compile_cache_ends().is_empty());
    chan.clear_edit_cache();
    assert!(chan.is_fresh_compiled());
    assert!(!chan.got_instructions());
}

#[test]
fn compile_needs_instructions_and_room() {
    let mut chan = Chan::new("ao0", 0.0, 0.0);
    assert_eq!(chan.compile(100), Err(Error::NoInstructions));
    assert!(chan.is_fresh_compiled());
    chan.constant(1.0, 0, Some((10, false))).unwrap();
    chan.compile(10).unwrap();
    chan.constant(1.0, 20, None).unwrap();
    assert_eq!(chan.compile(20), Err(Error::StopBeforeLast { last_end: 21 }));
    assert!(chan.compile_cache_ends().is_empty());
    assert!(chan.compile_cache_fns().is_empty());
    assert!(!chan.is_fresh_compiled());
    assert_eq!(chan.compile(21), Ok(()));
    assert_eq!(chan.compiled_stop_pos(), 21);
}

#[test]
fn compile_lays_out_all_kinds_of_segments() {
    let mut chan = Chan::new("ao0", 0.0, 0.0);
    chan.constant(1.0, 10, Some((20, true))).unwrap();
    chan.constant(2.0, 30, Some((40, false))).unwrap();
    chan.constant(3.0, 40, None).unwrap();
    chan.constant(4.0, 60, Some((70, false))).unwrap();
    chan.compile(100).unwrap();
    assert_eq!(chan.compile_cache_ends(), &vec![10, 20, 30, 40, 60, 70, 100]);
    assert_eq!(
        chan.compile_cache_fns(),
        &vec![
            CacheFn::Dflt,
            CacheFn::Func { key: 10 },
            CacheFn::Keep { key: 10, at: 20 },
            CacheFn::Func { key: 30 },
            CacheFn::Func { key: 40 },
            CacheFn::Func { key: 60 },
            CacheFn::Dflt,
        ]
    );
    assert_eq!(chan.compile_cache_ends().len(), chan.compile_cache_fns().len());
    assert_eq!(chan.compiled_stop_pos(), 100);
    // A go-this instruction in the last place runs up to the stop position.
    let mut last = Chan::new("ao1", 0.0, 0.0);
    last.constant(1.0, 0, None).unwrap();
    last.compile(5).unwrap();
    assert_eq!(last.compile_cache_ends(), &vec![5]);
    assert_eq!(last.compile_cache_fns(), &vec![CacheFn::Func { key: 0 }]);
}

#[test]
fn compile_twice_gives_the_same_cache() {
    let mut chan = Chan::new("ao0", 0.0, 0.0);
    chan.constant(1.0, 10, Some((20, true))).unwrap();
    chan.constant(2.0, 30, None).unwrap();
    chan.compile(50).unwrap();
    let ends = chan.compile_cache_ends().clone();
    let fns = chan.compile_cache_fns().clone();
    chan.compile(50).unwrap();
    assert_eq!(chan.compile_cache_ends(), &ends);
    assert_eq!(chan.compile_cache_fns(), &fns);
    for w in ends.windows(2) {
        assert!(w[0] < w[1]);
    }
    assert!(ends[0] > 0);
    assert_eq!(*ends.last().unwrap(), 50);
}

#[test]
fn reset_instr_goes_behind_the_last_instruction() {
    let mut chan = Chan::new("ao0", 0.0, 7.0);
    chan.constant(1.0, 0, Some((10, false))).unwrap();
    chan.compile(10).unwrap();
    assert_eq!(chan.add_reset_instr(9), Err(Error::StopBeforeLast { last_end: 10 }));
    assert!(chan.is_fresh_compiled());
    assert_eq!(chan.add_reset_instr(10), Ok(()));
    assert!(!chan.is_fresh_compiled());
    let reset = chan.instr(10).unwrap();
    assert_eq!(reset.end_spec(), None);
    assert!(matches!(reset.func(), ChanFn::Const(c) if *c.val() == 7.0));
    assert_eq!(chan.last_instr_end_pos(), Some(11));
    // On a channel without instructions any position will do.
    let mut idle = Chan::new("ao1", 0.0, 7.0);
    assert_eq!(idle.add_reset_instr(0), Ok(()));
    assert!(idle.got_instructions());
    assert!(!idle.is_fresh_compiled());
}

#[test]
fn fill_samps_across_instruction_boundary() {
    let rate: f64 = 1e3;
    let mut chan = Chan::new("ao0", 0.0, 0.0);
    chan.constant(1.0, 0, Some((1000, false))).unwrap();
    chan.constant(2.0, 1000, Some((2000, false))).unwrap();
    chan.compile(2000).unwrap();
    let plan = chan.fill_samps(990, 20).unwrap();
    assert_eq!(plan, vec![Chunk { seg: 0, lo: 0, hi: 10 }, Chunk { seg: 1, lo: 10, hi: 20 }]);
    let samps = materialize(&chan, 990, &plan, 20, rate);
    let mut expected = vec![1.0; 10];
    expected.extend(vec![2.0; 10]);
    assert_eq!(samps, expected);
    // Every sample equals what `eval_point` gives for its tick.
    for i in 0..20u64 {
        let src = chan.eval_point(990 + i);
        assert_eq!(value_of(&chan, src, 990 + i, rate), samps[i as usize]);
    }
    // The whole range, and a window within one segment.
    assert_eq!(
        chan.fill_samps(0, 2000).unwrap(),
        vec![Chunk { seg: 0, lo: 0, hi: 1000 }, Chunk { seg: 1, lo: 1000, hi: 2000 }]
    );
    assert_eq!(chan.fill_samps(1000, 5).unwrap(), vec![Chunk { seg: 1, lo: 0, hi: 5 }]);
    assert_eq!(chan.fill_samps(995, 5).unwrap(), vec![Chunk { seg: 0, lo: 0, hi: 5 }]);
    assert_eq!(chan.fill_samps(500, 0).unwrap(), vec![]);
}

#[test]
fn fill_samps_refuses_bad_windows() {
    let mut chan = Chan::new("ao0", 0.0, 0.0);
    assert_eq!(chan.fill_samps(0, 1), Err(Error::NoInstructions));
    chan.constant(1.0, 0, Some((10, false))).unwrap();
    assert_eq!(chan.fill_samps(0, 1), Err(Error::StaleCompile));
    chan.compile(10).unwrap();
    assert_eq!(chan.fill_samps(0, 11), Err(Error::WindowOutOfRange));
    assert_eq!(chan.fill_samps(10, 1), Err(Error::WindowOutOfRange));
    assert_eq!(chan.fill_samps(11, 0), Err(Error::WindowOutOfRange));
    assert_eq!(chan.fill_samps(u64::MAX, 2), Err(Error::WindowOutOfRange));
    assert_eq!(chan.fill_samps(10, 0), Ok(vec![]));
    assert_eq!(chan.fill_samps(9, 1), Ok(vec![Chunk { seg: 0, lo: 0, hi: 1 }]));
}

#[test]
fn calc_nsamps_maps_boundaries_proportionally() {
    let mut chan = Chan::new("ao0", 0.0, 0.0);
    chan.constant(1.0, 0, Some((1000, false))).unwrap();
    chan.constant(2.0, 1000, Some((2000, false))).unwrap();
    chan.compile(2000).unwrap();
    // Defaults: from zero to the compiled stop position.
    assert_eq!(
        chan.calc_nsamps(10, None, None).unwrap(),
        vec![Chunk { seg: 0, lo: 0, hi: 5 }, Chunk { seg: 1, lo: 5, hi: 10 }]
    );
    // 3 * 1000 / 2000 = 1.5 is rounded to 2.
    assert_eq!(
        chan.calc_nsamps(3, Some(0), Some(2000)).unwrap(),
        vec![Chunk { seg: 0, lo: 0, hi: 2 }, Chunk { seg: 1, lo: 2, hi: 3 }]
    );
    // 7 * 250 / 1000 = 1.75 is rounded to 2.
    assert_eq!(
        chan.calc_nsamps(7, Some(750), Some(1750)).unwrap(),
        vec![Chunk { seg: 0, lo: 0, hi: 2 }, Chunk { seg: 1, lo: 2, hi: 7 }]
    );
    // A window that ends on a boundary does not reach into the next segment.
    assert_eq!(chan.calc_nsamps(4, Some(500), Some(1000)).unwrap(), vec![Chunk { seg: 0, lo: 0, hi: 4 }]);
    // No samples, and a window without width.
    assert_eq!(
        chan.calc_nsamps(0, None, None).unwrap(),
        vec![Chunk { seg: 0, lo: 0, hi: 0 }, Chunk { seg: 1, lo: 0, hi: 0 }]
    );
    assert_eq!(chan.calc_nsamps(5, Some(300), Some(300)).unwrap(), vec![Chunk { seg: 0, lo: 0, hi: 0 }]);
    assert_eq!(chan.calc_nsamps(5, Some(1000), Some(1000)).unwrap(), vec![]);
}

#[test]
fn calc_nsamps_refuses_bad_windows() {
    let mut chan = Chan::new("ao0", 0.0, 0.0);
    assert_eq!(chan.calc_nsamps(5, None, None), Err(Error::NoInstructions));
    chan.constant(1.0, 0, Some((10, false))).unwrap();
    assert_eq!(chan.calc_nsamps(5, None, None), Err(Error::StaleCompile));
    chan.compile(10).unwrap();
    assert_eq!(chan.calc_nsamps(5, None, Some(11)), Err(Error::WindowOutOfRange));
    assert_eq!(chan.calc_nsamps(5, Some(6), Some(5)), Err(Error::WindowOutOfRange));
    assert_eq!(chan.calc_nsamps(5, Some(11), None), Err(Error::WindowOutOfRange));
    assert_eq!(chan.calc_nsamps(5, Some(10), None), Ok(vec![]));
}

#[test]
fn eval_point_reads_the_edit_cache() {
    let mut chan = Chan::new("ao0", 0.0, 0.0);
    assert_eq!(chan.eval_point(0), CacheFn::Dflt);
    chan.constant(1.0, 10, Some((20, true))).unwrap();
    chan.constant(2.0, 30, Some((40, false))).unwrap();
    chan.constant(3.0, 50, None).unwrap();
    assert_eq!(chan.eval_point(9), CacheFn::Dflt);
    assert_eq!(chan.eval_point(10), CacheFn::Func { key: 10 });
    assert_eq!(chan.eval_point(19), CacheFn::Func { key: 10 });
    assert_eq!(chan.eval_point(20), CacheFn::Keep { key: 10, at: 20 });
    assert_eq!(chan.eval_point(29), CacheFn::Keep { key: 10, at: 20 });
    assert_eq!(chan.eval_point(39), CacheFn::Func { key: 30 });
    assert_eq!(chan.eval_point(40), CacheFn::Dflt);
    assert_eq!(chan.eval_point(50), CacheFn::Func { key: 50 });
    assert_eq!(chan.eval_point(u64::MAX), CacheFn::Func { key: 50 });
    // It agrees with the compile cache on every tick.
    chan.compile(60).unwrap();
    for tick in 0..60u64 {
        let plan = chan.fill_samps(tick, 1).unwrap();
        assert_eq!(plan.len(), 1);
        assert_eq!(chan.compile_cache_fns()[plan[0].seg], chan.eval_point(tick));
    }
}

#[test]
fn instructions_are_ordered_by_start_pos() {
    let a = Instr::new(5, Some((9, true)), 1u8);
    let b = Instr::new(5, None, 2u8);
    let c = Instr::new(6, Some((7, false)), 1u8);
    assert!(a == b);
    assert!(a != c);
    assert!(a < c);
    assert!(c > b);
    assert!(a <= b && a >= b);
    assert_eq!(a.partial_cmp(&c), Some(std::cmp::Ordering::Less));
    assert_eq!(c.partial_cmp(&a), Some(std::cmp::Ordering::Greater));
    assert_eq!(a.partial_cmp(&b), Some(std::cmp::Ordering::Equal));
}
