//! The driver against a simulated bus and chip.

use rtc7301dg::bus::{DataLine, Line, Step};
use rtc7301dg::protocol::{POLL_MICROS, SETTLE_MICROS, STATUS_ADDRESS};
use rtc7301dg::rtc7301dg::{Bank, MyDevice, PLAN_CAPACITY};

type Device = MyDevice<(), (), (), (), (), (), (), (), (), (), (), ()>;

fn device() -> Device {
    MyDevice::new((), (), (), (), (), (), (), (), (), (), (), ())
}

fn position(line: Line) -> usize {
    match line {
        Line::Cs0 => 0,
        Line::Cs1 => 1,
        Line::Rd => 2,
        Line::Wr => 3,
        Line::A0 => 4,
        Line::A1 => 5,
        Line::A2 => 6,
        Line::A3 => 7,
        Line::Data(DataLine::D0) => 8,
        Line::Data(DataLine::D1) => 9,
        Line::Data(DataLine::D2) => 10,
        Line::Data(DataLine::D3) => 11,
    }
}

/// The bus as the driver left it, and a chip behind it: sixteen registers of
/// four bits, and a busy flag that shows on `D0` at the status address for a
/// given number of looks.
struct Bench {
    levels: [Option<bool>; 12],
    registers: [[bool; 4]; 16],
    busy_looks: usize,
    trace: Vec<Step>,
}

impl Bench {
    fn new() -> Bench {
        Bench { levels: [None; 12], registers: [[false; 4]; 16], busy_looks: 0, trace: Vec::new() }
    }

    fn level(&self, line: Line) -> Option<bool> {
        self.levels[position(line)]
    }

    fn address(&self) -> usize {
        let bit = |line: Line| if self.level(line) == Some(true) { 1 } else { 0 };
        bit(Line::A0) * 8 + bit(Line::A1) * 4 + bit(Line::A2) * 2 + bit(Line::A3)
    }

    fn sample(&mut self, line: DataLine) -> bool {
        let slot = line.slot();
        if self.address() == 0xF && slot == 0 {
            if self.busy_looks > 0 {
                self.busy_looks -= 1;
                true
            } else {
                false
            }
        } else {
            self.registers[self.address()][slot]
        }
    }

    fn perform(&mut self, device: &mut Device, step: Step) {
        self.trace.push(step);
        match step {
            Step::Drive(line, high) => self.levels[position(line)] = Some(high),
            Step::Sample(line) => {
                let high = self.sample(line);
                device.latch(line, high);
            }
            Step::Wait(_) => {}
        }
    }

    /// Does the steps of the operation that is planned, to its end, and
    /// returns them.
    fn run(&mut self, device: &mut Device) -> Vec<Step> {
        self.trace.clear();
        let mut taken = 0;
        while let Some(step) = device.next_step() {
            self.perform(device, step);
            taken += 1;
            assert!(taken < 100_000, "the operation does not end");
        }
        self.trace.clone()
    }
}

fn settled(line: Line, high: bool) -> Vec<Step> {
    vec![Step::Drive(line, high), Step::Wait(10)]
}

fn address(a0: bool, a1: bool, a2: bool, a3: bool) -> Vec<Step> {
    [settled(Line::A0, a0), settled(Line::A1, a1), settled(Line::A2, a2), settled(Line::A3, a3)]
        .concat()
}

fn wakeup() -> Vec<Step> {
    [settled(Line::Cs0, false), settled(Line::Cs1, true)].concat()
}

fn look() -> Vec<Step> {
    vec![Step::Sample(DataLine::D0), Step::Wait(10)]
}

fn pause_and_look() -> Vec<Step> {
    vec![Step::Wait(240), Step::Sample(DataLine::D0), Step::Wait(10)]
}

fn select_bank(slot: DataLine) -> Vec<Step> {
    [
        address(true, true, true, true),
        wakeup(),
        settled(Line::Wr, false),
        settled(Line::Data(slot), true),
        settled(Line::Wr, true),
        settled(Line::Cs1, false),
        vec![Step::Wait(10)],
    ]
    .concat()
}

#[test]
fn timing_constants() {
    assert_eq!(SETTLE_MICROS, 10);
    assert_eq!(POLL_MICROS, 240);
    assert_eq!(STATUS_ADDRESS, 0xF);
    assert_eq!(PLAN_CAPACITY, 32);
}

#[test]
fn data_line_slots() {
    assert_eq!(DataLine::D0.slot(), 0);
    assert_eq!(DataLine::D1.slot(), 1);
    assert_eq!(DataLine::D2.slot(), 2);
    assert_eq!(DataLine::D3.slot(), 3);
}

#[test]
fn new_keeps_the_pins() {
    let device = MyDevice::new(1u8, 2u8, 3u8, 4u8, 5u8, 6u8, 7u8, 8u8, 9u8, 10u8, 11u8, 12u8);
    assert_eq!(device.cs0, 1);
    assert_eq!(device.cs1, 2);
    assert_eq!(device.rd, 3);
    assert_eq!(device.wr, 4);
    assert_eq!(device.a0, 5);
    assert_eq!(device.a1, 6);
    assert_eq!(device.a2, 7);
    assert_eq!(device.a3, 8);
    assert_eq!(device.d0, 9);
    assert_eq!(device.d1, 10);
    assert_eq!(device.d2, 11);
    assert_eq!(device.d3, 12);
}

#[test]
fn new_device_is_idle_with_nothing_to_do() {
    let mut device = device();
    assert!(device.is_idle());
    assert_eq!(device.data_values(), [None, None, None, None]);
    assert_eq!(device.next_step(), None);
    assert_eq!(device.next_step(), None);
    assert!(device.is_idle());
}

#[test]
fn chip_counts_as_busy_until_d0_is_seen_low() {
    let mut device = device();
    assert!(device.is_busy());
    device.latch(DataLine::D0, true);
    assert!(device.is_busy());
    device.latch(DataLine::D0, false);
    assert!(!device.is_busy());
    device.latch(DataLine::D1, true);
    assert!(!device.is_busy());
    device.latch(DataLine::D0, true);
    assert!(device.is_busy());
}

#[test]
fn latch_fills_the_slot_of_its_line() {
    let mut device = device();
    device.latch(DataLine::D2, true);
    assert_eq!(device.data_values(), [None, None, Some(true), None]);
    device.latch(DataLine::D0, false);
    assert_eq!(device.data_values(), [Some(false), None, Some(true), None]);
    device.latch(DataLine::D3, true);
    device.latch(DataLine::D1, false);
    assert_eq!(device.data_values(), [Some(false), Some(false), Some(true), Some(true)]);
    device.latch(DataLine::D2, false);
    assert_eq!(device.data_values(), [Some(false), Some(false), Some(false), Some(true)]);
}

#[test]
fn write_starts_with_the_address_most_significant_bit_on_a0() {
    let mut device = device();
    let mut bench = Bench::new();
    device.write(0xA, [None, None, None, None]);
    let trace = bench.run(&mut device);
    assert_eq!(trace[..8], address(true, false, true, false)[..]);
    assert_eq!(bench.level(Line::A0), Some(true));
    assert_eq!(bench.level(Line::A1), Some(false));
    assert_eq!(bench.level(Line::A2), Some(true));
    assert_eq!(bench.level(Line::A3), Some(false));
}

#[test]
fn every_address_shows_its_bits_on_the_address_lines() {
    for addr in 0u8..16 {
        let mut device = device();
        let mut bench = Bench::new();
        device.read(addr, &[None, None, None, None]);
        bench.run(&mut device);
        assert_eq!(bench.level(Line::A0), Some(addr & 8 != 0));
        assert_eq!(bench.level(Line::A1), Some(addr & 4 != 0));
        assert_eq!(bench.level(Line::A2), Some(addr & 2 != 0));
        assert_eq!(bench.level(Line::A3), Some(addr & 1 != 0));
        assert_eq!(bench.address(), addr as usize);
    }
}

#[test]
fn only_the_low_four_address_bits_count() {
    let mut device = device();
    let mut bench = Bench::new();
    device.write(0x05, [Some(true), None, None, None]);
    let low = bench.run(&mut device);
    device.write(0xF5, [Some(true), None, None, None]);
    let high = bench.run(&mut device);
    assert_eq!(low, high);
    assert_eq!(low[..8], address(false, true, false, true)[..]);
}

#[test]
fn same_address_twice_changes_no_line() {
    let mut device = device();
    let mut bench = Bench::new();
    device.read(0x6, &[None, None, None, None]);
    bench.run(&mut device);
    let first = bench.levels;
    device.read(0x6, &[None, None, None, None]);
    bench.run(&mut device);
    assert_eq!(bench.levels, first);
}

#[test]
fn write_is_one_whole_transaction() {
    let mut device = device();
    let mut bench = Bench::new();
    device.write(0x3, [Some(true), None, None, Some(false)]);
    assert!(!device.is_idle());
    let trace = bench.run(&mut device);
    let expected = vec![
        Step::Drive(Line::A0, false),
        Step::Wait(10),
        Step::Drive(Line::A1, false),
        Step::Wait(10),
        Step::Drive(Line::A2, true),
        Step::Wait(10),
        Step::Drive(Line::A3, true),
        Step::Wait(10),
        Step::Drive(Line::Cs0, false),
        Step::Wait(10),
        Step::Drive(Line::Cs1, true),
        Step::Wait(10),
        Step::Drive(Line::Wr, false),
        Step::Wait(10),
        Step::Drive(Line::Data(DataLine::D0), true),
        Step::Wait(10),
        Step::Drive(Line::Data(DataLine::D3), false),
        Step::Wait(10),
        Step::Drive(Line::Wr, true),
        Step::Wait(10),
        Step::Drive(Line::Cs1, false),
        Step::Wait(10),
        Step::Wait(10),
    ];
    assert_eq!(trace, expected);
    assert!(device.is_idle());
}

#[test]
fn write_of_four_lines_is_the_longest_plan() {
    let mut device = device();
    let mut bench = Bench::new();
    device.write(0x0, [Some(true), Some(false), Some(true), Some(false)]);
    let trace = bench.run(&mut device);
    assert_eq!(trace.len(), 27);
    assert!(trace.len() <= PLAN_CAPACITY);
    assert_eq!(bench.level(Line::Data(DataLine::D0)), Some(true));
    assert_eq!(bench.level(Line::Data(DataLine::D1)), Some(false));
    assert_eq!(bench.level(Line::Data(DataLine::D2)), Some(true));
    assert_eq!(bench.level(Line::Data(DataLine::D3)), Some(false));
}

#[test]
fn write_of_an_empty_nibble_drives_no_data_line() {
    let mut device = device();
    let mut bench = Bench::new();
    device.write(0x9, [None, None, None, None]);
    let trace = bench.run(&mut device);
    assert_eq!(trace.len(), 19);
    assert!(trace.iter().all(|step| !matches!(step, Step::Drive(Line::Data(_), _))));
    assert_eq!(bench.level(Line::Data(DataLine::D0)), None);
    assert_eq!(bench.level(Line::Data(DataLine::D1)), None);
    assert_eq!(bench.level(Line::Data(DataLine::D2)), None);
    assert_eq!(bench.level(Line::Data(DataLine::D3)), None);
}

#[test]
fn write_leaves_unpopulated_lines_as_they_were() {
    let mut device = device();
    let mut bench = Bench::new();
    device.write(0x1, [Some(true), Some(true), Some(false), Some(false)]);
    bench.run(&mut device);
    device.write(0x1, [None, Some(false), Some(true), None]);
    let trace = bench.run(&mut device);
    assert_eq!(bench.level(Line::Data(DataLine::D0)), Some(true));
    assert_eq!(bench.level(Line::Data(DataLine::D1)), Some(false));
    assert_eq!(bench.level(Line::Data(DataLine::D2)), Some(true));
    assert_eq!(bench.level(Line::Data(DataLine::D3)), Some(false));
    assert!(!trace.contains(&Step::Drive(Line::Data(DataLine::D0), true)));
    assert!(!trace.contains(&Step::Drive(Line::Data(DataLine::D0), false)));
    assert!(!trace.contains(&Step::Drive(Line::Data(DataLine::D3), true)));
    assert!(!trace.contains(&Step::Drive(Line::Data(DataLine::D3), false)));
}

#[test]
fn write_takes_no_sample_and_keeps_what_was_read() {
    let mut device = device();
    let mut bench = Bench::new();
    bench.registers[4] = [true, true, false, true];
    device.read(0x4, &[Some(false), Some(false), Some(false), Some(false)]);
    bench.run(&mut device);
    device.write(0x4, [Some(false), None, None, None]);
    let trace = bench.run(&mut device);
    assert!(trace.iter().all(|step| !matches!(step, Step::Sample(_))));
    assert_eq!(device.data_values(), [Some(true), Some(true), Some(false), Some(true)]);
}

#[test]
fn read_is_one_whole_transaction() {
    let mut device = device();
    let mut bench = Bench::new();
    device.read(0xC, &[Some(false), None, Some(true), None]);
    assert!(!device.is_idle());
    let trace = bench.run(&mut device);
    let expected = vec![
        Step::Drive(Line::A0, true),
        Step::Wait(10),
        Step::Drive(Line::A1, true),
        Step::Wait(10),
        Step::Drive(Line::A2, false),
        Step::Wait(10),
        Step::Drive(Line::A3, false),
        Step::Wait(10),
        Step::Drive(Line::Cs0, false),
        Step::Wait(10),
        Step::Drive(Line::Cs1, true),
        Step::Wait(10),
        Step::Drive(Line::Rd, false),
        Step::Wait(10),
        Step::Sample(DataLine::D0),
        Step::Sample(DataLine::D2),
        Step::Wait(10),
        Step::Drive(Line::Rd, true),
        Step::Wait(10),
        Step::Drive(Line::Cs1, false),
        Step::Wait(10),
        Step::Wait(10),
    ];
    assert_eq!(trace, expected);
    assert!(device.is_idle());
}

#[test]
fn read_of_seconds_register() {
    let mut device = device();
    let mut bench = Bench::new();
    bench.registers[0] = [true, false, true, false];
    device.read(0x00, &[Some(false), Some(false), Some(false), Some(false)]);
    bench.run(&mut device);
    assert_eq!(device.data_values(), [Some(true), Some(false), Some(true), Some(false)]);
}

#[test]
fn read_samples_only_the_populated_slots() {
    let mut device = device();
    let mut bench = Bench::new();
    bench.registers[7] = [true, true, true, true];
    device.read(0x7, &[None, Some(false), None, Some(true)]);
    let trace = bench.run(&mut device);
    assert_eq!(device.data_values(), [None, Some(true), None, Some(true)]);
    assert!(!trace.contains(&Step::Sample(DataLine::D0)));
    assert!(trace.contains(&Step::Sample(DataLine::D1)));
    assert!(!trace.contains(&Step::Sample(DataLine::D2)));
    assert!(trace.contains(&Step::Sample(DataLine::D3)));
}

#[test]
fn read_latches_each_sample_in_the_slot_of_its_line() {
    let mut device = device();
    device.read(0x5, &[None, Some(false), None, Some(false)]);
    let mut shown = vec![false, true];
    let mut sampled = Vec::new();
    while let Some(step) = device.next_step() {
        if let Step::Sample(line) = step {
            sampled.push(line);
            device.latch(line, shown.pop().unwrap());
        }
    }
    assert_eq!(sampled, vec![DataLine::D1, DataLine::D3]);
    assert_eq!(device.data_values(), [None, Some(true), None, Some(false)]);
}

#[test]
fn read_discards_what_the_slots_held() {
    let mut device = device();
    let mut bench = Bench::new();
    bench.registers[2] = [false, true, false, true];
    device.read(0x2, &[Some(true), Some(true), Some(true), Some(true)]);
    bench.run(&mut device);
    let with_true = device.data_values();
    device.read(0x2, &[Some(false), Some(false), Some(false), Some(false)]);
    bench.run(&mut device);
    assert_eq!(device.data_values(), with_true);
    assert_eq!(with_true, [Some(false), Some(true), Some(false), Some(true)]);
}

#[test]
fn read_of_no_slot_returns_an_empty_nibble() {
    let mut device = device();
    let mut bench = Bench::new();
    bench.registers[1] = [true, true, true, true];
    device.read(0x1, &[Some(true), None, None, None]);
    bench.run(&mut device);
    assert_eq!(device.data_values(), [Some(true), None, None, None]);
    device.read(0x1, &[None, None, None, None]);
    let trace = bench.run(&mut device);
    assert_eq!(device.data_values(), [None, None, None, None]);
    assert_eq!(trace.len(), 20);
}

#[test]
fn read_never_drives_a_data_line_or_the_write_strobe() {
    let mut device = device();
    let mut bench = Bench::new();
    device.write(0x8, [Some(true), Some(false), Some(false), Some(true)]);
    bench.run(&mut device);
    let before = bench.levels;
    device.read(0x8, &[Some(false), Some(false), Some(false), Some(false)]);
    let trace = bench.run(&mut device);
    assert!(trace.iter().all(|step| !matches!(step, Step::Drive(Line::Data(_), _))));
    assert!(trace.iter().all(|step| !matches!(step, Step::Drive(Line::Wr, _))));
    for line in [DataLine::D0, DataLine::D1, DataLine::D2, DataLine::D3] {
        assert_eq!(bench.level(Line::Data(line)), before[position(Line::Data(line))]);
    }
    assert_eq!(bench.level(Line::Wr), before[position(Line::Wr)]);
}

#[test]
fn every_transaction_leaves_the_bus_idle() {
    let mut device = device();
    let mut bench = Bench::new();
    device.init(Bank::Bank0);
    bench.run(&mut device);
    assert_eq!(bench.level(Line::Cs1), Some(false));
    assert_eq!(bench.level(Line::Wr), Some(true));
    device.read(0x0, &[Some(false), Some(false), Some(false), Some(false)]);
    bench.run(&mut device);
    assert_eq!(bench.level(Line::Cs1), Some(false));
    assert_eq!(bench.level(Line::Rd), Some(true));
    assert_eq!(bench.level(Line::Wr), Some(true));
    device.write(0xE, [Some(true), None, Some(false), None]);
    bench.run(&mut device);
    assert_eq!(bench.level(Line::Cs1), Some(false));
    assert_eq!(bench.level(Line::Rd), Some(true));
    assert_eq!(bench.level(Line::Wr), Some(true));
}

#[test]
fn init_selects_bank_0_on_d1() {
    let mut device = device();
    let mut bench = Bench::new();
    device.init(Bank::Bank0);
    let trace = bench.run(&mut device);
    let expected = [
        settled(Line::Cs0, true),
        settled(Line::Cs1, false),
        address(true, true, true, true),
        look(),
        select_bank(DataLine::D1),
    ]
    .concat();
    assert_eq!(trace, expected);
    assert!(device.is_idle());
}

#[test]
fn init_selects_bank_1_on_d0() {
    let mut device = device();
    let mut bench = Bench::new();
    device.init(Bank::Bank1);
    let trace = bench.run(&mut device);
    let expected = [
        settled(Line::Cs0, true),
        settled(Line::Cs1, false),
        address(true, true, true, true),
        look(),
        select_bank(DataLine::D0),
    ]
    .concat();
    assert_eq!(trace, expected);
    assert!(device.is_idle());
}

#[test]
fn init_waits_for_a_busy_chip_before_it_selects_the_bank() {
    let mut device = device();
    let mut bench = Bench::new();
    bench.busy_looks = 3;
    device.init(Bank::Bank0);
    let trace = bench.run(&mut device);
    let expected = [
        settled(Line::Cs0, true),
        settled(Line::Cs1, false),
        address(true, true, true, true),
        look(),
        pause_and_look(),
        pause_and_look(),
        pause_and_look(),
        select_bank(DataLine::D1),
    ]
    .concat();
    assert_eq!(trace, expected);
    let pulses = trace.iter().filter(|step| **step == Step::Drive(Line::Cs0, true)).count();
    assert_eq!(pulses, 1);
    assert_eq!(bench.busy_looks, 0);
}

#[test]
fn sleep_while_busy_ends_at_once_when_the_chip_is_ready() {
    let mut device = device();
    let mut bench = Bench::new();
    device.sleep_while_busy();
    assert!(!device.is_idle());
    let trace = bench.run(&mut device);
    assert_eq!(trace, [address(true, true, true, true), look()].concat());
    assert!(device.is_idle());
    assert!(!device.is_busy());
}

#[test]
fn sleep_while_busy_pauses_240_microseconds_between_looks() {
    let mut device = device();
    let mut bench = Bench::new();
    bench.busy_looks = 2;
    device.sleep_while_busy();
    let trace = bench.run(&mut device);
    let expected =
        [address(true, true, true, true), look(), pause_and_look(), pause_and_look()].concat();
    assert_eq!(trace, expected);
    let set = trace.iter().filter(|step| matches!(step, Step::Drive(Line::A0, _))).count();
    assert_eq!(set, 1);
}

#[test]
fn sleep_while_busy_does_not_return_while_d0_is_high() {
    let mut device = device();
    let mut bench = Bench::new();
    bench.busy_looks = usize::MAX;
    device.sleep_while_busy();
    let mut looks = 0;
    for _ in 0..30_000 {
        let step = device.next_step();
        assert!(step.is_some());
        if step == Some(Step::Sample(DataLine::D0)) {
            looks += 1;
        }
        bench.perform(&mut device, step.unwrap());
        assert!(!device.is_idle());
    }
    assert!(looks > 9_000);
    bench.busy_looks = 0;
    let rest = bench.run(&mut device);
    assert!(rest.len() <= 4);
    assert_eq!(rest[rest.len() - 2..], look()[..]);
    assert!(device.is_idle());
}

#[test]
fn sleep_while_busy_goes_on_when_no_level_is_reported() {
    let mut device = device();
    device.sleep_while_busy();
    for _ in 0..1_000 {
        assert!(device.next_step().is_some());
    }
    assert!(!device.is_idle());
    device.latch(DataLine::D0, false);
    let mut rest = 0;
    while device.next_step().is_some() {
        rest += 1;
    }
    assert!(rest <= 2);
    assert!(device.is_idle());
}

#[test]
fn operations_can_follow_each_other_without_end() {
    let mut device = device();
    let mut bench = Bench::new();
    device.init(Bank::Bank1);
    bench.run(&mut device);
    for round in 0..200u32 {
        let addr = (round % 15) as u8;
        let bits = [round & 1 != 0, round & 2 != 0, round & 4 != 0, round & 8 != 0];
        bench.registers[addr as usize] = bits;
        device.write(addr, [Some(bits[0]), Some(bits[1]), Some(bits[2]), Some(bits[3])]);
        assert_eq!(bench.run(&mut device).len(), 27);
        device.read(addr, &[Some(false), Some(false), Some(false), Some(false)]);
        assert_eq!(bench.run(&mut device).len(), 24);
        assert_eq!(
            device.data_values(),
            [Some(bits[0]), Some(bits[1]), Some(bits[2]), Some(bits[3])]
        );
    }
}
