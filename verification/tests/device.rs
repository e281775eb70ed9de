use wavegen::channel::{ChanFn, Channel, ConstFn};
use wavegen::compile_cache::CacheFn;
use wavegen::device::{Device, RowChunk};
use wavegen::error::Error;

type Chan = Channel<u8, f64>;
type Dev = Device<u8, f64>;

fn ticks(t: f64, samp_rate: f64) -> u64 {
    (t * samp_rate).round() as u64
}

fn mock() -> ChanFn<u8, f64> {
    ChanFn::Const(ConstFn::new(0.0))
}

fn add(dev: &mut Dev, chan: &str, rate: f64, t: f64, dur: Option<(f64, bool)>) {
    let end_spec = dur.map(|(d, keep_val)| (ticks(t + d, rate), keep_val));
    dev.chan_mut(chan).unwrap().add_instr(mock(), ticks(t, rate), end_spec).unwrap();
}

fn two_chan_dev() -> Dev {
    let mut dev = Dev::new("Dev1");
    assert!(dev.add_channel(Chan::new("ao0", 0.0, 0.0)).is_ok());
    assert!(dev.add_channel(Chan::new("ao1", 0.0, 0.0)).is_ok());
    dev
}

#[test]
fn device_last_instr_end_pos() {
    let rate: f64 = 1e3;
    let mut dev = two_chan_dev();

    // No instructions
    assert_eq!(dev.last_instr_end_pos().unwrap_or(0), 0);
    assert_eq!(dev.last_instr_end_pos(), None);

    // Instruction t=0..1 on ao0
    add(&mut dev, "ao0", rate, 0.0, Some((1.0, false)));
    assert_eq!(dev.last_instr_end_pos(), Some(1000));

    // Instruction t=1..2 on ao1
    add(&mut dev, "ao1", rate, 1.0, Some((1.0, false)));
    assert_eq!(dev.last_instr_end_pos(), Some(2000));

    // "Go-something" instruction on ao1 at t=2
    add(&mut dev, "ao1", rate, 2.0, None);
    assert_eq!(dev.last_instr_end_pos(), Some(2001));

    dev.clear_edit_cache();
    assert_eq!(dev.last_instr_end_pos().unwrap_or(0), 0);
}

#[test]
fn check_end_clipped() {
    let rate: f64 = 1.0;
    let mut dev = Dev::new("Dev1");
    assert!(dev.add_channel(Chan::new("ao0", 0.0, 0.0)).is_ok());

    // (1) No instructions
    assert_eq!(dev.is_closing_edge_clipped(0), false);

    // (2) Finite duration instruction t = 0..1s
    add(&mut dev, "ao0", rate, 0.0, Some((1.0, false)));
    assert_eq!(dev.chan("ao0").unwrap().last_instr_end_pos(), Some(1));
    assert_eq!(dev.is_closing_edge_clipped(2), false);
    assert_eq!(dev.is_closing_edge_clipped(1), true);
    dev.clear_edit_cache();

    // (3) "Go-something" instruction at t = 0s
    add(&mut dev, "ao0", rate, 0.0, None);
    assert_eq!(dev.chan("ao0").unwrap().last_instr_end_pos(), Some(1));
    assert_eq!(dev.is_closing_edge_clipped(1), false);
}

#[test]
fn compile() {
    let rate: f64 = 1e3;
    let mut dev = two_chan_dev();

    // Not compiled yet
    assert_eq!(dev.n_active_chans(), 0);
    assert_eq!(dev.validate_compile_cache(), Err(Error::NoInstructions));

    add(&mut dev, "ao0", rate, 0.0, Some((1.0, false)));
    add(&mut dev, "ao1", rate, 1.0, Some((1.0, false)));
    assert_eq!(dev.last_instr_end_pos(), Some(2000));

    // Compile without clipping of the "closing edge" - no extra sample
    dev.compile(ticks(3.0, rate)).unwrap();
    assert_eq!(dev.validate_compile_cache(), Ok(()));
    assert_eq!(dev.compiled_stop_pos(), 3000);

    // Compile with stop_pos matching the end of an instruction on "ao1"
    dev.compile(ticks(2.0, rate)).unwrap();
    assert_eq!(dev.compiled_stop_pos(), 2001);
    for chan in dev.chans() {
        assert_eq!(chan.compiled_stop_pos(), 2001);
    }
}

#[test]
fn closing_edge_extension() {
    let rate: f64 = 1.0;
    let mut dev = Dev::new("Dev1");
    assert!(dev.add_channel(Chan::new("ao0", 0.0, 0.0)).is_ok());
    add(&mut dev, "ao0", rate, 0.0, Some((1.0, false)));
    dev.compile(ticks(1.0, rate)).unwrap();
    assert_eq!(dev.compiled_stop_pos(), 2);
    assert_eq!(dev.chans()[0].compile_cache_ends(), &vec![1, 2]);
    assert_eq!(dev.chans()[0].compile_cache_fns(), &vec![CacheFn::Func { key: 0 }, CacheFn::Dflt]);
    dev.compile(ticks(2.0, rate)).unwrap();
    assert_eq!(dev.compiled_stop_pos(), 2);
    // The extra tick is part of the last window.
    let plan = dev.calc_samps(2, 0, 2).unwrap();
    assert_eq!(
        plan,
        vec![
            RowChunk { chan: 0, seg: 0, lo: 0, hi: 1, at: 0 },
            RowChunk { chan: 0, seg: 1, lo: 1, hi: 2, at: 1 },
        ]
    );
}

#[test]
fn device_compile_refuses() {
    let mut dev = two_chan_dev();
    assert_eq!(dev.compile(100), Err(Error::NoInstructions));
    add(&mut dev, "ao1", 1.0, 0.0, Some((50.0, false)));
    assert_eq!(dev.compile(49), Err(Error::StopBeforeLast { last_end: 50 }));
    assert!(!dev.chans()[1].is_fresh_compiled());
    assert_eq!(dev.validate_compile_cache(), Err(Error::StaleCompile));
    assert_eq!(dev.stale_chans(), vec![1]);
    assert_eq!(dev.compile(60), Ok(()));
    assert_eq!(dev.stale_chans(), Vec::<usize>::new());
    // The channel without instructions is left alone.
    assert!(dev.chans()[0].compile_cache_ends().is_empty());
    assert_eq!(dev.active_chans(), vec![1]);
    assert!(dev.got_instructions());
}

#[test]
fn channel_names_are_unique() {
    let mut dev = two_chan_dev();
    assert_eq!(dev.name(), "Dev1");
    assert_eq!(dev.check_can_add_chan(&Chan::new("ao0", 0.0, 0.0)), Err(Error::DuplicateName));
    assert_eq!(dev.check_can_add_chan(&Chan::new("ao2", 0.0, 0.0)), Ok(()));
    match dev.add_channel(Chan::new("ao1", 1.0, 1.0)) {
        Err((e, back)) => {
            assert_eq!(e, Error::DuplicateName);
            assert_eq!(back.name(), "ao1");
            assert_eq!(*back.dflt_val(), 1.0);
        },
        Ok(()) => panic!("a second channel ao1 was accepted"),
    }
    assert_eq!(dev.chans().len(), 2);
    assert_eq!(dev.chan_index("ao1"), Some(1));
    assert_eq!(dev.chan_index("ao2"), None);
    assert!(matches!(dev.chan("ao7"), Err(Error::UnknownName)));
    assert!(matches!(dev.chan_mut("ao7"), Err(Error::UnknownName)));
    assert_eq!(dev.chan("ao0").unwrap().name(), "ao0");
}

#[test]
fn validation_finds_different_stops() {
    let mut dev = two_chan_dev();
    add(&mut dev, "ao0", 1.0, 0.0, Some((10.0, false)));
    add(&mut dev, "ao1", 1.0, 0.0, Some((10.0, false)));
    dev.chan_mut("ao0").unwrap().compile(20).unwrap();
    assert_eq!(dev.validate_compile_cache(), Err(Error::StaleCompile));
    dev.chan_mut("ao1").unwrap().compile(30).unwrap();
    assert_eq!(dev.compiled_stops(), vec![20, 30]);
    assert_eq!(dev.validate_compile_cache(), Err(Error::Inconsistent));
    assert_eq!(dev.calc_samps(100, 0, 10), Err(Error::Inconsistent));
    dev.chan_mut("ao1").unwrap().compile(20).unwrap();
    assert_eq!(dev.compiled_stops(), vec![20, 20]);
    assert_eq!(dev.validate_compile_cache(), Ok(()));
    assert_eq!(dev.compiled_stop_pos(), 20);
}

#[test]
fn calc_samps_lays_out_rows() {
    let mut dev = Dev::new("Dev1");
    for name in ["ao0", "ao1", "ao2"] {
        assert!(dev.add_channel(Chan::new(name, 0.0, 0.0)).is_ok());
    }
    // ao1 stays without instructions and gets no row.
    add(&mut dev, "ao0", 1.0, 0.0, Some((1000.0, false)));
    add(&mut dev, "ao0", 1.0, 1000.0, Some((1000.0, false)));
    add(&mut dev, "ao2", 1.0, 995.0, Some((10.0, true)));
    dev.compile(3000).unwrap();
    let plan = dev.calc_samps(40, 990, 1010).unwrap();
    assert_eq!(
        plan,
        vec![
            RowChunk { chan: 0, seg: 0, lo: 0, hi: 10, at: 0 },
            RowChunk { chan: 0, seg: 1, lo: 10, hi: 20, at: 10 },
            RowChunk { chan: 2, seg: 0, lo: 0, hi: 5, at: 20 },
            RowChunk { chan: 2, seg: 1, lo: 5, hi: 15, at: 25 },
            RowChunk { chan: 2, seg: 2, lo: 15, hi: 20, at: 35 },
        ]
    );
    // The same call gives the same plan.
    assert_eq!(dev.calc_samps(40, 990, 1010).unwrap(), plan);
    // Rows cover the buffer without gap or overlap.
    let mut covered = vec![0u8; 40];
    for c in &plan {
        for i in c.lo..c.hi {
            covered[c.at + (i - c.lo)] += 1;
        }
    }
    assert!(covered.iter().all(|n| *n == 1));
}

#[test]
fn calc_samps_refuses() {
    let mut dev = two_chan_dev();
    assert_eq!(dev.calc_samps(10, 0, 1), Err(Error::NoInstructions));
    add(&mut dev, "ao0", 1.0, 0.0, Some((10.0, false)));
    add(&mut dev, "ao1", 1.0, 0.0, Some((5.0, false)));
    assert_eq!(dev.calc_samps(10, 0, 1), Err(Error::StaleCompile));
    dev.compile(20).unwrap();
    assert_eq!(dev.calc_samps(100, 5, 5), Err(Error::WindowOutOfRange));
    assert_eq!(dev.calc_samps(100, 6, 5), Err(Error::WindowOutOfRange));
    assert_eq!(dev.calc_samps(100, 0, 21), Err(Error::WindowOutOfRange));
    assert_eq!(dev.calc_samps(100, u64::MAX, 3), Err(Error::WindowOutOfRange));
    assert_eq!(dev.calc_samps(39, 0, 20), Err(Error::BufferTooSmall));
    assert_eq!(dev.calc_samps(0, 0, 1), Err(Error::BufferTooSmall));
    assert!(dev.calc_samps(40, 0, 20).is_ok());
    assert!(dev.calc_samps(2, 19, 20).is_ok());
}

#[test]
fn device_reset_reaches_every_channel() {
    let mut dev = two_chan_dev();
    add(&mut dev, "ao0", 1.0, 0.0, Some((10.0, false)));
    assert_eq!(dev.add_reset_instr(9), Err(Error::StopBeforeLast { last_end: 10 }));
    assert_eq!(dev.chans()[0].instr_list().len(), 1);
    assert_eq!(dev.add_reset_instr(10), Ok(()));
    assert_eq!(dev.chans()[0].instr_list().len(), 2);
    assert_eq!(dev.chans()[1].instr_list().len(), 1);
    assert_eq!(dev.last_instr_end_pos(), Some(11));
    assert_eq!(dev.n_active_chans(), 2);
}

#[test]
fn device_clear_compile_cache_keeps_instructions() {
    let mut dev = two_chan_dev();
    add(&mut dev, "ao0", 1.0, 0.0, Some((10.0, false)));
    dev.compile(10).unwrap();
    dev.clear_compile_cache();
    assert!(dev.got_instructions());
    assert!(dev.chans()[0].compile_cache_ends().is_empty());
    assert!(!dev.chans()[0].is_fresh_compiled());
    assert!(dev.chans()[1].is_fresh_compiled());
    assert_eq!(dev.validate_compile_cache(), Err(Error::StaleCompile));
}
