use wavegen::channel::{ChanFn, Channel, ConstFn};
use wavegen::device::Device;
use wavegen::error::Error;
use wavegen::streamer::{Streamer, TypedDev};

type Strm = Streamer<u8, f64, u8>;

fn ao_dev(name: &str, chans: &[&str]) -> Device<u8, f64> {
    let mut dev = Device::new(name);
    for c in chans {
        assert!(dev.add_channel(Channel::new(c, 0.0, 0.0)).is_ok());
    }
    dev
}

fn do_dev(name: &str, chans: &[&str]) -> Device<u8, bool> {
    let mut dev = Device::new(name);
    for c in chans {
        assert!(dev.add_channel(Channel::new(c, false, false)).is_ok());
    }
    dev
}

/// An analog device at 1 kHz and a digital device at 10 kHz.
fn two_devs() -> Strm {
    let mut s = Strm::new();
    assert!(s.add_ao_device(ao_dev("ao_card", &["ao0", "ao1"])).is_ok());
    assert!(s.add_do_device(do_dev("do_card", &["port0/line0"])).is_ok());
    s
}

fn pulse_ao(s: &mut Strm, start: u64, end: u64) {
    match s.dev_mut("ao_card").unwrap() {
        TypedDev::AO(dev) => dev.chan_mut("ao0").unwrap().constant(1.0, start, Some((end, false))).unwrap(),
        TypedDev::DO(_) => panic!("ao_card is digital"),
    }
}

fn pulse_do(s: &mut Strm, start: u64, end: u64) {
    match s.dev_mut("do_card").unwrap() {
        TypedDev::DO(dev) => dev
            .chan_mut("port0/line0")
            .unwrap()
            .add_instr(ChanFn::Const(ConstFn::new(true)), start, Some((end, false)))
            .unwrap(),
        TypedDev::AO(_) => panic!("do_card is analog"),
    }
}

#[test]
fn device_names_are_unique_across_types() {
    let mut s = two_devs();
    assert_eq!(s.devs().len(), 2);
    assert_eq!(s.check_can_add_dev("ao_card"), Err(Error::DuplicateName));
    assert_eq!(s.check_can_add_dev("other"), Ok(()));
    assert!(matches!(s.add_do_device(do_dev("ao_card", &[])), Err((Error::DuplicateName, _))));
    assert!(matches!(s.add_ao_device(ao_dev("do_card", &[])), Err((Error::DuplicateName, _))));
    assert_eq!(s.devs().len(), 2);
    assert_eq!(s.dev_index("do_card"), Some(1));
    assert!(matches!(s.dev("nope"), Err(Error::UnknownName)));
    assert!(matches!(s.dev_mut("nope"), Err(Error::UnknownName)));
    assert_eq!(s.dev("do_card").unwrap().tag_name(), "do_card");
    assert!(matches!(s.dev("do_card"), Ok(TypedDev::DO(_))));
}

#[test]
fn streamer_compile_stops_each_device_within_one_tick() {
    let mut s = two_devs();
    assert!(!s.got_instructions());
    assert_eq!(s.compile(&vec![1000, 10_000]), Err(Error::NoInstructions));
    assert_eq!(s.validate_compile_cache(), Err(Error::NoInstructions));
    // One second on both devices.
    pulse_ao(&mut s, 0, 1000);
    pulse_do(&mut s, 5000, 9000);
    assert!(s.got_instructions());
    assert_eq!(s.active_devs(), vec![0, 1]);
    assert_eq!(s.last_instr_end_pos(), vec![Some(1000), Some(9000)]);
    assert_eq!(s.validate_compile_cache(), Err(Error::StaleCompile));
    assert_eq!(s.invalid_devs(), vec![(0, Error::StaleCompile), (1, Error::StaleCompile)]);
    assert_eq!(s.compile(&vec![1000]), Err(Error::WrongCount));
    assert_eq!(s.compile(&vec![1000, 8999]), Err(Error::StopBeforeLast { last_end: 9000 }));
    assert_eq!(s.compile(&vec![999, 8999]), Err(Error::StopBeforeLast { last_end: 1000 }));
    assert_eq!(s.validate_compile_cache(), Err(Error::StaleCompile));
    let stops = vec![1000, 10_000];
    assert_eq!(s.compile(&stops), Ok(()));
    assert_eq!(s.validate_compile_cache(), Ok(()));
    assert_eq!(s.invalid_devs(), vec![]);
    // The analog device runs one tick longer for its closing edge.
    assert_eq!(s.devs()[0].tag_compiled_stop_pos(), 1001);
    assert_eq!(s.devs()[1].tag_compiled_stop_pos(), 10_000);
    for (dev, tick) in s.devs().iter().zip(stops.iter()) {
        let stop = dev.tag_compiled_stop_pos();
        assert!(*tick <= stop && stop <= *tick + 1);
        assert_eq!(dev.tag_validate_compile_cache(), Ok(()));
    }
}

#[test]
fn streamer_skips_devices_without_instructions() {
    let mut s = two_devs();
    pulse_do(&mut s, 0, 10);
    assert_eq!(s.active_devs(), vec![1]);
    assert_eq!(s.last_instr_end_pos(), vec![None, Some(10)]);
    // The position of the idle device is not looked at.
    assert_eq!(s.compile(&vec![0, 20]), Ok(()));
    assert_eq!(s.validate_compile_cache(), Ok(()));
    assert!(!s.devs()[0].tag_got_instructions());
    assert_eq!(s.devs()[0].tag_validate_compile_cache(), Err(Error::NoInstructions));
    assert_eq!(s.devs()[1].tag_compiled_stop_pos(), 20);
}

#[test]
fn streamer_reset_reaches_every_channel() {
    let mut s = two_devs();
    pulse_ao(&mut s, 0, 1000);
    assert_eq!(s.add_reset_instr(&vec![1000]), Err(Error::WrongCount));
    assert_eq!(s.add_reset_instr(&vec![999, 10_000]), Err(Error::StopBeforeLast { last_end: 1000 }));
    assert_eq!(s.last_instr_end_pos(), vec![Some(1000), None]);
    assert_eq!(s.add_reset_instr(&vec![1000, 10_000]), Ok(()));
    assert_eq!(s.last_instr_end_pos(), vec![Some(1001), Some(10_001)]);
    match &s.devs()[0] {
        TypedDev::AO(dev) => {
            assert_eq!(dev.chans()[0].instr_list().len(), 2);
            assert_eq!(dev.chans()[1].instr_list().len(), 1);
        },
        TypedDev::DO(_) => panic!("ao_card is digital"),
    }
    assert_eq!(s.active_devs(), vec![0, 1]);
}

#[test]
fn streamer_clears_caches() {
    let mut s = two_devs();
    pulse_ao(&mut s, 0, 1000);
    pulse_do(&mut s, 0, 10);
    s.compile(&vec![2000, 20_000]).unwrap();
    s.clear_compile_cache();
    assert!(s.got_instructions());
    assert_eq!(s.validate_compile_cache(), Err(Error::StaleCompile));
    s.clear_edit_cache();
    assert!(!s.got_instructions());
    assert_eq!(s.last_instr_end_pos(), vec![None, None]);
    assert_eq!(s.devs().len(), 2);
    assert_eq!(s.devs()[0].tag_name(), "ao_card");
}

#[test]
fn tagged_device_forwards() {
    let mut dev: TypedDev<u8, f64, u8> = TypedDev::DO(do_dev("do_card", &["port0/line0"]));
    assert_eq!(dev.tag_last_instr_end_pos(), None);
    assert_eq!(dev.tag_compile(10), Err(Error::NoInstructions));
    assert_eq!(dev.tag_add_reset_instr(5), Ok(()));
    assert_eq!(dev.tag_last_instr_end_pos(), Some(6));
    assert_eq!(dev.tag_add_reset_instr(5), Err(Error::StopBeforeLast { last_end: 6 }));
    assert_eq!(dev.tag_compile(5), Err(Error::StopBeforeLast { last_end: 6 }));
    assert_eq!(dev.tag_compile(6), Ok(()));
    assert_eq!(dev.tag_compiled_stop_pos(), 6);
    dev.tag_clear_compile_cache();
    assert_eq!(dev.tag_validate_compile_cache(), Err(Error::StaleCompile));
    dev.tag_clear_edit_cache();
    assert!(!dev.tag_got_instructions());
}
