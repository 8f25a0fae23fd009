//! The bus protocol of the chip, written down as sequences of steps.
//!
//! Every operation of the driver is one of these sequences. The second half
//! of the file proves what each of them does to the levels of the lines.

use vstd::prelude::*;
use crate::bus::{
    after, drives, lemma_after_concat, lemma_after_push, lemma_after_undriven,
    lemma_drives_concat, lemma_samples_concat, samples, DataLine, Levels, Line, Step,
};
use crate::rtc7301dg::Bank;

verus! {

/// Microseconds the bus is given to settle after a line has changed. The
/// chip asks for 150 ns.
pub const SETTLE_MICROS: u32 = 10;

/// Microseconds between two looks at the busy flag.
pub const POLL_MICROS: u32 = 240;

/// Address of the register that shows the busy flag when read and selects
/// the bank when written.
pub const STATUS_ADDRESS: u8 = 0xF;

/// Bit `bit` of the address, bit 0 being the least significant.
pub open spec fn address_bit(addr: u8, bit: u8) -> bool {
    (addr >> bit) & 1 == 1
}

/// The settle time.
pub open spec fn wait_steps() -> Seq<Step> {
    seq![Step::Wait(SETTLE_MICROS)]
}

/// A change of one line, and the settle time after it.
pub open spec fn settled(line: Line, high: bool) -> Seq<Step> {
    seq![Step::Drive(line, high), Step::Wait(SETTLE_MICROS)]
}

/// Selects the chip: chip select 0 low, then chip select 1 high.
pub open spec fn wakeup_steps() -> Seq<Step> {
    settled(Line::Cs0, false) + settled(Line::Cs1, true)
}

/// Deselects the chip: chip select 1 low.
pub open spec fn sleep_steps() -> Seq<Step> {
    settled(Line::Cs1, false)
}

/// Puts the low four bits of `addr` on the address lines, most significant
/// bit on `A0`, one line after the other.
pub open spec fn set_address_steps(addr: u8) -> Seq<Step> {
    settled(Line::A0, address_bit(addr, 3)) + settled(Line::A1, address_bit(addr, 2)) + settled(
        Line::A2,
        address_bit(addr, 1),
    ) + settled(Line::A3, address_bit(addr, 0))
}

/// Samples data line `i` if slot `i` of the nibble is populated.
pub open spec fn sample_slot(nibble: Seq<Option<bool>>, i: int) -> Seq<Step> {
    if nibble[i] is Some {
        seq![Step::Sample(DataLine::at(i))]
    } else {
        Seq::empty()
    }
}

/// Samples the data lines of the populated slots, `D0` first.
pub open spec fn sample_steps(nibble: Seq<Option<bool>>) -> Seq<Step> {
    sample_slot(nibble, 0) + sample_slot(nibble, 1) + sample_slot(nibble, 2) + sample_slot(
        nibble,
        3,
    )
}

/// Drives data line `i` to the level in slot `i` of the nibble, if there is
/// one, and lets it settle.
pub open spec fn data_slot(nibble: Seq<Option<bool>>, i: int) -> Seq<Step> {
    match nibble[i] {
        Some(high) => settled(Line::Data(DataLine::at(i)), high),
        None => Seq::empty(),
    }
}

/// Drives the data lines of the populated slots, `D0` first.
pub open spec fn data_steps(nibble: Seq<Option<bool>>) -> Seq<Step> {
    data_slot(nibble, 0) + data_slot(nibble, 1) + data_slot(nibble, 2) + data_slot(nibble, 3)
}

/// A whole read transaction: address, select, read strobe low, the samples,
/// read strobe high, deselect.
pub open spec fn read_steps(addr: u8, nibble: Seq<Option<bool>>) -> Seq<Step> {
    set_address_steps(addr) + wakeup_steps() + settled(Line::Rd, false) + sample_steps(nibble)
        + wait_steps() + settled(Line::Rd, true) + sleep_steps() + wait_steps()
}

/// A whole write transaction: address, select, write strobe low, the data,
/// write strobe high, deselect.
pub open spec fn write_steps(addr: u8, nibble: Seq<Option<bool>>) -> Seq<Step> {
    set_address_steps(addr) + wakeup_steps() + settled(Line::Wr, false) + data_steps(nibble)
        + settled(Line::Wr, true) + sleep_steps() + wait_steps()
}

/// One look at the busy flag: sample `D0`, then the settle time.
pub open spec fn poll_steps() -> Seq<Step> {
    seq![Step::Sample(DataLine::D0), Step::Wait(SETTLE_MICROS)]
}

/// The pause after a look that found the chip busy, and the next look.
pub open spec fn repoll_steps() -> Seq<Step> {
    seq![Step::Wait(POLL_MICROS)] + poll_steps()
}

/// The start of a wait for the chip: the status address, and a first look.
pub open spec fn busy_wait_steps() -> Seq<Step> {
    set_address_steps(STATUS_ADDRESS) + poll_steps()
}

/// The start of the power-up sequence: chip select 0 forced high, the chip
/// deselected, and the start of a wait for it.
pub open spec fn init_steps() -> Seq<Step> {
    settled(Line::Cs0, true) + sleep_steps() + busy_wait_steps()
}

/// The nibble that selects `bank` when written to the status address.
pub open spec fn bank_nibble(bank: Bank) -> Seq<Option<bool>> {
    match bank {
        Bank::Bank0 => seq![None, Some(true), None, None],
        Bank::Bank1 => seq![Some(true), None, None, None],
    }
}

/// The levels with the address lines showing the low four bits of `addr`.
pub open spec fn with_address(levels: Levels, addr: u8) -> Levels {
    levels.insert(Line::A0, address_bit(addr, 3)).insert(Line::A1, address_bit(addr, 2)).insert(
        Line::A2,
        address_bit(addr, 1),
    ).insert(Line::A3, address_bit(addr, 0))
}

/// The levels with data line `i` at the level in slot `i` of the nibble, if
/// there is one.
pub open spec fn with_slot(levels: Levels, nibble: Seq<Option<bool>>, i: int) -> Levels {
    match nibble[i] {
        Some(high) => levels.insert(Line::Data(DataLine::at(i)), high),
        None => levels,
    }
}

/// The levels with the data lines of the populated slots at the levels in
/// those slots.
pub open spec fn with_nibble(levels: Levels, nibble: Seq<Option<bool>>) -> Levels {
    with_slot(with_slot(with_slot(with_slot(levels, nibble, 0), nibble, 1), nibble, 2), nibble, 3)
}

/// The chip is deselected and neither strobe is active.
pub open spec fn bus_idle(levels: Levels) -> bool {
    &&& levels.contains_key(Line::Cs1) && !levels[Line::Cs1]
    &&& levels.contains_key(Line::Rd) && levels[Line::Rd]
    &&& levels.contains_key(Line::Wr) && levels[Line::Wr]
}

/// The line is one of the four address lines.
pub open spec fn is_address_line(line: Line) -> bool {
    line == Line::A0 || line == Line::A1 || line == Line::A2 || line == Line::A3
}

/// The line is one of the two chip selects.
pub open spec fn is_chip_select(line: Line) -> bool {
    line == Line::Cs0 || line == Line::Cs1
}

/// The line is the data line of a populated slot of the nibble.
pub open spec fn is_populated(nibble: Seq<Option<bool>>, line: Line) -> bool {
    line matches Line::Data(d) && nibble[d.index()] is Some
}

/// What two sequences do one after the other, from what each does alone.
pub proof fn lemma_join(a: Seq<Step>, b: Seq<Step>)
    ensures
        forall|levels: Levels| #[trigger] after(levels, a + b) == after(after(levels, a), b),
        forall|line: Line| #[trigger] drives(a + b, line) <==> drives(a, line) || drives(b, line),
        forall|d: DataLine| #[trigger] samples(a + b, d) <==> samples(a, d) || samples(b, d),
{
    assert forall|levels: Levels| #[trigger] after(levels, a + b) == after(after(levels, a), b) by {
        lemma_after_concat(levels, a, b);
    }
    assert forall|line: Line| #[trigger]
        drives(a + b, line) <==> drives(a, line) || drives(b, line) by {
        lemma_drives_concat(a, b, line);
    }
    assert forall|d: DataLine| #[trigger]
        samples(a + b, d) <==> samples(a, d) || samples(b, d) by {
        lemma_samples_concat(a, b, d);
    }
}

/// A wait changes no level, drives no line and samples none.
pub proof fn lemma_wait()
    ensures
        forall|levels: Levels| #[trigger] after(levels, wait_steps()) == levels,
        forall|line: Line| !#[trigger] drives(wait_steps(), line),
        forall|d: DataLine| !#[trigger] samples(wait_steps(), d),
{
    assert(wait_steps() =~= Seq::<Step>::empty().push(Step::Wait(SETTLE_MICROS)));
    assert forall|levels: Levels| #[trigger] after(levels, wait_steps()) == levels by {
        lemma_after_push(levels, Seq::empty(), Step::Wait(SETTLE_MICROS));
    }
}

/// A settled change sets its line and no other, and samples none.
pub proof fn lemma_settled(line: Line, high: bool)
    ensures
        forall|levels: Levels| #[trigger]
            after(levels, settled(line, high)) == levels.insert(line, high),
        forall|l: Line| #[trigger] drives(settled(line, high), l) <==> l == line,
        forall|d: DataLine| !#[trigger] samples(settled(line, high), d),
{
    let first = Seq::<Step>::empty().push(Step::Drive(line, high));
    assert(settled(line, high) =~= first.push(Step::Wait(SETTLE_MICROS)));
    assert forall|levels: Levels| #[trigger]
        after(levels, settled(line, high)) == levels.insert(line, high) by {
        lemma_after_push(levels, Seq::empty(), Step::Drive(line, high));
        lemma_after_push(levels, first, Step::Wait(SETTLE_MICROS));
    }
    assert(settled(line, high)[0] == Step::Drive(line, high));
}

/// Waking the chip leaves chip select 0 low and chip select 1 high.
pub proof fn lemma_wakeup()
    ensures
        forall|levels: Levels| #[trigger]
            after(levels, wakeup_steps()) == levels.insert(Line::Cs0, false).insert(
                Line::Cs1,
                true,
            ),
        forall|line: Line| #[trigger] drives(wakeup_steps(), line) <==> is_chip_select(line),
        forall|d: DataLine| !#[trigger] samples(wakeup_steps(), d),
{
    lemma_join(settled(Line::Cs0, false), settled(Line::Cs1, true));
    lemma_settled(Line::Cs0, false);
    lemma_settled(Line::Cs1, true);
}

/// Setting an address leaves its low four bits on the address lines, the
/// most significant on `A0`, and changes no other line. It drives the
/// address lines and no other, and samples none.
pub proof fn lemma_set_address(addr: u8)
    ensures
        forall|levels: Levels| #[trigger]
            after(levels, set_address_steps(addr)) == with_address(levels, addr),
        forall|line: Line| #[trigger]
            drives(set_address_steps(addr), line) <==> is_address_line(line),
        forall|d: DataLine| !#[trigger] samples(set_address_steps(addr), d),
{
    let s0 = settled(Line::A0, address_bit(addr, 3));
    let s1 = settled(Line::A1, address_bit(addr, 2));
    let s2 = settled(Line::A2, address_bit(addr, 1));
    let s3 = settled(Line::A3, address_bit(addr, 0));
    lemma_join(s0, s1);
    lemma_join(s0 + s1, s2);
    lemma_join(s0 + s1 + s2, s3);
    lemma_settled(Line::A0, address_bit(addr, 3));
    lemma_settled(Line::A1, address_bit(addr, 2));
    lemma_settled(Line::A2, address_bit(addr, 1));
    lemma_settled(Line::A3, address_bit(addr, 0));
}

/// Sampling the populated slots changes no level and drives no line.
pub proof fn lemma_sample(nibble: Seq<Option<bool>>)
    ensures
        forall|levels: Levels| #[trigger] after(levels, sample_steps(nibble)) == levels,
        forall|line: Line| !#[trigger] drives(sample_steps(nibble), line),
        forall|d: DataLine| #[trigger]
            samples(sample_steps(nibble), d) <==> nibble[d.index()] is Some,
{
    let s0 = sample_slot(nibble, 0);
    let s1 = sample_slot(nibble, 1);
    let s2 = sample_slot(nibble, 2);
    let s3 = sample_slot(nibble, 3);
    lemma_join(s0, s1);
    lemma_join(s0 + s1, s2);
    lemma_join(s0 + s1 + s2, s3);
    lemma_sample_slot(nibble, 0);
    lemma_sample_slot(nibble, 1);
    lemma_sample_slot(nibble, 2);
    lemma_sample_slot(nibble, 3);
}

/// Sampling one slot changes no level and drives no line.
pub proof fn lemma_sample_slot(nibble: Seq<Option<bool>>, i: int)
    requires
        0 <= i < 4,
    ensures
        forall|levels: Levels| #[trigger] after(levels, sample_slot(nibble, i)) == levels,
        forall|line: Line| !#[trigger] drives(sample_slot(nibble, i), line),
        forall|d: DataLine| #[trigger]
            samples(sample_slot(nibble, i), d) <==> d.index() == i && nibble[i] is Some,
{
    if nibble[i] is Some {
        let step = Step::Sample(DataLine::at(i));
        assert(sample_slot(nibble, i) =~= Seq::<Step>::empty().push(step));
        assert forall|levels: Levels| #[trigger]
            after(levels, sample_slot(nibble, i)) == levels by {
            lemma_after_push(levels, Seq::empty(), step);
        }
        assert(sample_slot(nibble, i)[0] == step);
    }
}

/// Driving the populated slots sets their data lines and no other line.
pub proof fn lemma_data(nibble: Seq<Option<bool>>)
    ensures
        forall|levels: Levels| #[trigger]
            after(levels, data_steps(nibble)) == with_nibble(levels, nibble),
        forall|line: Line| #[trigger]
            drives(data_steps(nibble), line) <==> is_populated(nibble, line),
        forall|d: DataLine| !#[trigger] samples(data_steps(nibble), d),
{
    let s0 = data_slot(nibble, 0);
    let s1 = data_slot(nibble, 1);
    let s2 = data_slot(nibble, 2);
    let s3 = data_slot(nibble, 3);
    lemma_join(s0, s1);
    lemma_join(s0 + s1, s2);
    lemma_join(s0 + s1 + s2, s3);
    lemma_data_slot(nibble, 0);
    lemma_data_slot(nibble, 1);
    lemma_data_slot(nibble, 2);
    lemma_data_slot(nibble, 3);
}

/// Driving one slot sets its data line, if the slot is populated, and no
/// other line.
pub proof fn lemma_data_slot(nibble: Seq<Option<bool>>, i: int)
    requires
        0 <= i < 4,
    ensures
        forall|levels: Levels| #[trigger]
            after(levels, data_slot(nibble, i)) == with_slot(levels, nibble, i),
        forall|line: Line| #[trigger]
            drives(data_slot(nibble, i), line) <==> line == Line::Data(DataLine::at(i))
                && nibble[i] is Some,
        forall|d: DataLine| !#[trigger] samples(data_slot(nibble, i), d),
{
    match nibble[i] {
        Some(high) => {
            lemma_settled(Line::Data(DataLine::at(i)), high);
        },
        None => {},
    }
}

/// Setting the same address a second time changes no level.
pub proof fn lemma_set_address_idempotent(levels: Levels, addr: u8)
    ensures
        after(after(levels, set_address_steps(addr)), set_address_steps(addr)) == after(
            levels,
            set_address_steps(addr),
        ),
{
    lemma_set_address(addr);
    assert(with_address(with_address(levels, addr), addr) =~= with_address(levels, addr));
}

/// A read leaves the address on the address lines, both chip selects low
/// and the read strobe high, and changes no other line. It drives the
/// address lines, the chip selects and the read strobe and no other line,
/// and samples exactly the data lines of the populated slots.
pub proof fn lemma_read(addr: u8, nibble: Seq<Option<bool>>)
    ensures
        forall|levels: Levels| #[trigger]
            after(levels, read_steps(addr, nibble)) == with_address(levels, addr).insert(
                Line::Cs0,
                false,
            ).insert(Line::Cs1, false).insert(Line::Rd, true),
        forall|line: Line| #[trigger]
            drives(read_steps(addr, nibble), line) <==> is_address_line(line) || is_chip_select(
                line,
            ) || line == Line::Rd,
        forall|d: DataLine| #[trigger]
            samples(read_steps(addr, nibble), d) <==> nibble[d.index()] is Some,
{
    let f1 = set_address_steps(addr);
    let f2 = f1 + wakeup_steps();
    let f3 = f2 + settled(Line::Rd, false);
    let f4 = f3 + sample_steps(nibble);
    let f5 = f4 + wait_steps();
    let f6 = f5 + settled(Line::Rd, true);
    let f7 = f6 + sleep_steps();
    lemma_join(f1, wakeup_steps());
    lemma_join(f2, settled(Line::Rd, false));
    lemma_join(f3, sample_steps(nibble));
    lemma_join(f4, wait_steps());
    lemma_join(f5, settled(Line::Rd, true));
    lemma_join(f6, sleep_steps());
    lemma_join(f7, wait_steps());
    lemma_set_address(addr);
    lemma_wakeup();
    lemma_settled(Line::Rd, false);
    lemma_sample(nibble);
    lemma_wait();
    lemma_settled(Line::Rd, true);
    lemma_settled(Line::Cs1, false);
    assert forall|levels: Levels| #[trigger]
        after(levels, read_steps(addr, nibble)) == with_address(levels, addr).insert(
            Line::Cs0,
            false,
        ).insert(Line::Cs1, false).insert(Line::Rd, true) by {
        let l1 = with_address(levels, addr);
        let l2 = l1.insert(Line::Cs0, false).insert(Line::Cs1, true);
        let l3 = l2.insert(Line::Rd, false);
        let l6 = l3.insert(Line::Rd, true);
        let l7 = l6.insert(Line::Cs1, false);
        assert(after(levels, f1) == l1);
        assert(after(levels, f2) == l2);
        assert(after(levels, f3) == l3);
        assert(after(levels, f4) == l3);
        assert(after(levels, f5) == l3);
        assert(after(levels, f6) == l6);
        assert(after(levels, f7) == l7);
        assert(l7 =~= l1.insert(Line::Cs0, false).insert(Line::Cs1, false).insert(Line::Rd, true));
    }
}

/// A write leaves the address on the address lines, the data of the
/// populated slots on their data lines, both chip selects low and the write
/// strobe high, and changes no other line. It drives those lines and no
/// other, and samples none.
pub proof fn lemma_write(addr: u8, nibble: Seq<Option<bool>>)
    ensures
        forall|levels: Levels| #[trigger]
            after(levels, write_steps(addr, nibble)) == with_nibble(
                with_address(levels, addr),
                nibble,
            ).insert(Line::Cs0, false).insert(Line::Cs1, false).insert(Line::Wr, true),
        forall|line: Line| #[trigger]
            drives(write_steps(addr, nibble), line) <==> is_address_line(line) || is_chip_select(
                line,
            ) || line == Line::Wr || is_populated(nibble, line),
        forall|d: DataLine| !#[trigger] samples(write_steps(addr, nibble), d),
{
    let f1 = set_address_steps(addr);
    let f2 = f1 + wakeup_steps();
    let f3 = f2 + settled(Line::Wr, false);
    let f4 = f3 + data_steps(nibble);
    let f5 = f4 + settled(Line::Wr, true);
    let f6 = f5 + sleep_steps();
    lemma_join(f1, wakeup_steps());
    lemma_join(f2, settled(Line::Wr, false));
    lemma_join(f3, data_steps(nibble));
    lemma_join(f4, settled(Line::Wr, true));
    lemma_join(f5, sleep_steps());
    lemma_join(f6, wait_steps());
    lemma_set_address(addr);
    lemma_wakeup();
    lemma_settled(Line::Wr, false);
    lemma_data(nibble);
    lemma_wait();
    lemma_settled(Line::Wr, true);
    lemma_settled(Line::Cs1, false);
    assert forall|levels: Levels| #[trigger]
        after(levels, write_steps(addr, nibble)) == with_nibble(
            with_address(levels, addr),
            nibble,
        ).insert(Line::Cs0, false).insert(Line::Cs1, false).insert(Line::Wr, true) by {
        let l1 = with_address(levels, addr);
        let l2 = l1.insert(Line::Cs0, false).insert(Line::Cs1, true);
        let l3 = l2.insert(Line::Wr, false);
        let l4 = with_nibble(l3, nibble);
        let l5 = l4.insert(Line::Wr, true);
        let l6 = l5.insert(Line::Cs1, false);
        assert(after(levels, f1) == l1);
        assert(after(levels, f2) == l2);
        assert(after(levels, f3) == l3);
        assert(after(levels, f4) == l4);
        assert(after(levels, f5) == l5);
        assert(after(levels, f6) == l6);
        assert(l6 =~= with_nibble(l1, nibble).insert(Line::Cs0, false).insert(
            Line::Cs1,
            false,
        ).insert(Line::Wr, true));
    }
}

/// One look at the busy flag samples `D0` and nothing else, and drives no
/// line.
pub proof fn lemma_poll()
    ensures
        forall|levels: Levels| #[trigger] after(levels, poll_steps()) == levels,
        forall|line: Line| !#[trigger] drives(poll_steps(), line),
        forall|d: DataLine| #[trigger] samples(poll_steps(), d) <==> d == DataLine::D0,
{
    let first = Seq::<Step>::empty().push(Step::Sample(DataLine::D0));
    assert(poll_steps() =~= first.push(Step::Wait(SETTLE_MICROS)));
    assert forall|levels: Levels| #[trigger] after(levels, poll_steps()) == levels by {
        lemma_after_push(levels, Seq::empty(), Step::Sample(DataLine::D0));
        lemma_after_push(levels, first, Step::Wait(SETTLE_MICROS));
    }
    assert(poll_steps()[0] == Step::Sample(DataLine::D0));
}

/// The start of a wait for the chip leaves the status address on the
/// address lines and changes no other line. It drives no other line, and
/// samples `D0` only.
pub proof fn lemma_busy_wait()
    ensures
        forall|levels: Levels| #[trigger]
            after(levels, busy_wait_steps()) == with_address(levels, STATUS_ADDRESS),
        forall|line: Line| #[trigger] drives(busy_wait_steps(), line) <==> is_address_line(line),
        forall|d: DataLine| #[trigger] samples(busy_wait_steps(), d) <==> d == DataLine::D0,
{
    lemma_join(set_address_steps(STATUS_ADDRESS), poll_steps());
    lemma_set_address(STATUS_ADDRESS);
    lemma_poll();
}

/// The start of the power-up sequence leaves chip select 0 high, chip
/// select 1 low and the status address on the address lines, and changes no
/// other line. It drives no other line, and samples `D0` only.
pub proof fn lemma_init()
    ensures
        forall|levels: Levels| #[trigger]
            after(levels, init_steps()) == with_address(
                levels.insert(Line::Cs0, true).insert(Line::Cs1, false),
                STATUS_ADDRESS,
            ),
        forall|line: Line| #[trigger]
            drives(init_steps(), line) <==> is_address_line(line) || is_chip_select(line),
        forall|d: DataLine| #[trigger] samples(init_steps(), d) <==> d == DataLine::D0,
{
    let f1 = settled(Line::Cs0, true);
    let f2 = f1 + sleep_steps();
    lemma_join(f1, sleep_steps());
    lemma_join(f2, busy_wait_steps());
    lemma_settled(Line::Cs0, true);
    lemma_settled(Line::Cs1, false);
    lemma_busy_wait();
}

/// A read never drives a data line, nor the write strobe: each keeps the
/// level it had.
pub proof fn lemma_read_drives_no_data(
    levels: Levels,
    addr: u8,
    nibble: Seq<Option<bool>>,
    d: DataLine,
)
    ensures
        !drives(read_steps(addr, nibble), Line::Data(d)),
        !drives(read_steps(addr, nibble), Line::Wr),
        after(levels, read_steps(addr, nibble)).contains_key(Line::Data(d)) == levels.contains_key(
            Line::Data(d),
        ),
        after(levels, read_steps(addr, nibble))[Line::Data(d)] == levels[Line::Data(d)],
        after(levels, read_steps(addr, nibble)).contains_key(Line::Wr) == levels.contains_key(
            Line::Wr,
        ),
        after(levels, read_steps(addr, nibble))[Line::Wr] == levels[Line::Wr],
{
    lemma_read(addr, nibble);
    lemma_after_undriven(levels, read_steps(addr, nibble), Line::Data(d));
    lemma_after_undriven(levels, read_steps(addr, nibble), Line::Wr);
}

/// A write drives the data line of each populated slot to the level in the
/// slot, and drives no other data line: that one keeps the level it had.
pub proof fn lemma_write_drives_only_populated(
    levels: Levels,
    addr: u8,
    nibble: Seq<Option<bool>>,
    d: DataLine,
)
    ensures
        match nibble[d.index()] {
            Some(high) => {
                &&& drives(write_steps(addr, nibble), Line::Data(d))
                &&& after(levels, write_steps(addr, nibble)).contains_key(Line::Data(d))
                &&& after(levels, write_steps(addr, nibble))[Line::Data(d)] == high
            },
            None => {
                &&& !drives(write_steps(addr, nibble), Line::Data(d))
                &&& after(levels, write_steps(addr, nibble)).contains_key(Line::Data(d))
                    == levels.contains_key(Line::Data(d))
                &&& after(levels, write_steps(addr, nibble))[Line::Data(d)] == levels[Line::Data(
                    d,
                )]
            },
        },
{
    lemma_write(addr, nibble);
    if nibble[d.index()] is None {
        lemma_after_undriven(levels, write_steps(addr, nibble), Line::Data(d));
    }
}

/// A read on a bus whose write strobe is high leaves the bus idle, whatever
/// the address and the nibble.
pub proof fn lemma_read_leaves_bus_idle(levels: Levels, addr: u8, nibble: Seq<Option<bool>>)
    requires
        levels.contains_key(Line::Wr) && levels[Line::Wr],
    ensures
        bus_idle(after(levels, read_steps(addr, nibble))),
{
    lemma_read(addr, nibble);
}

/// A write on a bus whose read strobe is high leaves the bus idle, whatever
/// the address and the nibble.
pub proof fn lemma_write_leaves_bus_idle(levels: Levels, addr: u8, nibble: Seq<Option<bool>>)
    requires
        levels.contains_key(Line::Rd) && levels[Line::Rd],
    ensures
        bus_idle(after(levels, write_steps(addr, nibble))),
{
    lemma_write(addr, nibble);
}

} // verus!
