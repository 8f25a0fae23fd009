//! The driver.
//!
//! [`MyDevice`] owns the twelve pins and decides what happens on the bus,
//! but it does not move a pin and does not wait. An operation ([`MyDevice::init`],
//! [`MyDevice::read`], [`MyDevice::write`], [`MyDevice::sleep_while_busy`])
//! plans its steps; the caller then takes them one at a time with
//! [`MyDevice::next_step`], does each on the pins, and reports every sampled
//! level with [`MyDevice::latch`]. When `next_step` returns `None` the
//! operation is over.

use vstd::prelude::*;
use crate::bus::{DataLine, Line, Step};
use crate::protocol::{
    address_bit, bank_nibble, busy_wait_steps, data_slot, data_steps, init_steps, poll_steps,
    read_steps, repoll_steps, sample_slot, sample_steps, set_address_steps, settled,
    sleep_steps, wait_steps, wakeup_steps, write_steps,
    POLL_MICROS, SETTLE_MICROS, STATUS_ADDRESS,
};

verus! {

/// One of the two register banks of the chip.
#[derive(Clone, Copy, PartialEq, Eq, Structural, Debug)]
pub enum Bank {
    Bank0,
    Bank1,
}

/// What the driver does once the steps it has planned are done.
#[derive(Clone, Copy, Debug)]
pub enum Follow {
    /// Nothing: the operation is over.
    Stop,
    /// It judges the busy flag it was last shown. While the chip is busy it
    /// pauses and looks again; once the chip is ready it selects the bank,
    /// if there is one to select, and stops.
    Poll(Option<Bank>),
}

/// Where an operation of the driver stands.
#[verifier::ext_equal]
pub struct Progress {
    /// The steps that are planned and not yet handed out, next one first.
    pub pending: Seq<Step>,
    /// What comes after them.
    pub follow: Follow,
    /// The level last reported for each data line since the latest read or
    /// wait for the chip began, `D0` first.
    pub latched: Seq<Option<bool>>,
}

/// A nibble with no slot populated.
pub open spec fn empty_nibble() -> Seq<Option<bool>> {
    seq![None, None, None, None]
}

impl Progress {
    /// Nothing planned, nothing latched.
    pub open spec fn fresh() -> Progress {
        Progress { pending: Seq::empty(), follow: Follow::Stop, latched: empty_nibble() }
    }

    /// No operation is under way.
    pub open spec fn is_idle(self) -> bool {
        self.pending.len() == 0 && self.follow is Stop
    }

    /// With `steps` planned after those that are pending.
    pub open spec fn plus(self, steps: Seq<Step>) -> Progress {
        Progress { pending: self.pending + steps, ..self }
    }

    /// The chip counts as busy until `D0` has been seen low.
    pub open spec fn is_busy(self) -> bool {
        self.latched[0] != Some(false)
    }

    /// With `high` reported as the level of `line`.
    pub open spec fn latch(self, line: DataLine, high: bool) -> Progress {
        Progress { latched: self.latched.update(line.index(), Some(high)), ..self }
    }

    /// With the next steps planned, where none is pending and something is
    /// to follow: after a look at a busy chip the pause and another look,
    /// after a look at a ready chip the write that selects the bank.
    pub open spec fn resume(self) -> Progress {
        if self.pending.len() > 0 {
            self
        } else {
            match self.follow {
                Follow::Stop => self,
                Follow::Poll(select) => if self.is_busy() {
                    Progress { pending: repoll_steps(), ..self }
                } else {
                    Progress {
                        pending: match select {
                            Some(bank) => write_steps(STATUS_ADDRESS, bank_nibble(bank)),
                            None => Seq::empty(),
                        },
                        follow: Follow::Stop,
                        ..self
                    }
                },
            }
        }
    }

    /// The step to do next, if the operation is not over, and where the
    /// operation stands once it is handed out.
    pub open spec fn next(self) -> (Progress, Option<Step>) {
        let resumed = self.resume();
        if resumed.pending.len() > 0 {
            (Progress { pending: resumed.pending.drop_first(), ..resumed }, Some(resumed.pending[0]))
        } else {
            (resumed, None)
        }
    }
}

/// The driver of one chip, with the twelve pins that lead to it.
///
/// The data pins are driven during a write and sampled during a read, never
/// both within one transaction.
pub struct MyDevice<CS0, CS1, RD, WR, A0, A1, A2, A3, D0, D1, D2, D3> {
    /// Chip select 0, active low, pulled up inside the chip.
    pub cs0: CS0,
    /// Chip select 1, active high, pulled down inside the chip. While it is
    /// low the chip's output is in high impedance.
    pub cs1: CS1,
    /// Read strobe: while it is low the chip can be read.
    pub rd: RD,
    /// Write strobe: the chip takes the data on its rising edge.
    pub wr: WR,
    /// Address line for the most significant of the four address bits.
    pub a0: A0,
    pub a1: A1,
    pub a2: A2,
    /// Address line for the least significant of the four address bits.
    pub a3: A3,
    /// Data lines, in and out.
    pub d0: D0,
    pub d1: D1,
    pub d2: D2,
    pub d3: D3,
    /// What the driver has planned and what it has been shown.
    pub sequencer: Sequencer,
}

/// The most steps that can be planned ahead. No operation plans more than
/// a write of four data lines does, which takes 27.
pub const PLAN_CAPACITY: usize = 32;

/// The part of the driver that keeps track of an operation: the steps that
/// are planned, what follows them, and the levels that were reported. The
/// steps lie in a fixed array; nothing is allocated.
pub struct Sequencer {
    plan: [Step; PLAN_CAPACITY],
    len: usize,
    cursor: usize,
    follow: Follow,
    latched: [Option<bool>; 4],
}

impl View for Sequencer {
    type V = Progress;

    closed spec fn view(&self) -> Progress {
        Progress {
            pending: self.plan@.subrange(self.cursor as int, self.len as int),
            follow: self.follow,
            latched: self.latched@,
        }
    }
}

impl Sequencer {
    #[verifier::type_invariant]
    spec fn well_formed(self) -> bool {
        self.cursor <= self.len <= PLAN_CAPACITY
    }

    /// How many more steps can be planned.
    closed spec fn room(self) -> int {
        PLAN_CAPACITY - self.len
    }

    /// With nothing planned and nothing latched.
    fn new() -> (sequencer: Sequencer)
        ensures
            sequencer@ == Progress::fresh(),
    {
        let sequencer = Sequencer {
            plan: [Step::Wait(0); PLAN_CAPACITY],
            len: 0,
            cursor: 0,
            follow: Follow::Stop,
            latched: [None, None, None, None],
        };
        assert(sequencer@.pending =~= Seq::<Step>::empty());
        assert(sequencer@.latched =~= empty_nibble());
        sequencer
    }

    /// Makes room for a whole operation once no step is pending.
    fn rewind(&mut self)
        requires
            old(self)@.pending.len() == 0,
        ensures
            final(self)@ == old(self)@,
            final(self).room() == PLAN_CAPACITY,
    {
        proof {
            use_type_invariant(&*self);
        }
        self.cursor = 0;
        self.len = 0;
        assert(self@.pending =~= old(self)@.pending);
    }

    /// Plans one step after those that are pending.
    fn push(&mut self, step: Step)
        requires
            old(self).room() >= 1,
        ensures
            final(self)@ == old(self)@.plus(seq![step]),
            final(self).room() == old(self).room() - 1,
    {
        proof {
            use_type_invariant(&*self);
        }
        self.plan[self.len] = step;
        self.len += 1;
        assert(self@.pending =~= old(self)@.pending + seq![step]);
    }

    /// Hands out the step that is pending first, if there is one.
    fn pop(&mut self) -> (step: Option<Step>)
        ensures
            old(self)@.pending.len() > 0 ==> step == Some(old(self)@.pending[0]) && final(self)@
                == (Progress { pending: old(self)@.pending.drop_first(), ..old(self)@ }),
            old(self)@.pending.len() == 0 ==> step is None && final(self)@ == old(self)@,
    {
        proof {
            use_type_invariant(&*self);
        }
        if self.cursor < self.len {
            let step = self.plan[self.cursor];
            self.cursor += 1;
            assert(self@.pending =~= old(self)@.pending.drop_first());
            Some(step)
        } else {
            None
        }
    }

    /// Whether no step is pending.
    fn is_empty(&self) -> (empty: bool)
        ensures
            empty == (self@.pending.len() == 0),
    {
        proof {
            use_type_invariant(self);
        }
        self.cursor == self.len
    }

    /// Notes what is to follow the pending steps.
    fn set_follow(&mut self, follow: Follow)
        ensures
            final(self)@ == (Progress { follow, ..old(self)@ }),
            final(self).room() == old(self).room(),
    {
        proof {
            use_type_invariant(&*self);
        }
        self.follow = follow;
    }

    /// Forgets the levels that were reported.
    fn forget(&mut self)
        ensures
            final(self)@ == (Progress { latched: empty_nibble(), ..old(self)@ }),
            final(self).room() == old(self).room(),
    {
        proof {
            use_type_invariant(&*self);
        }
        self.latched = [None, None, None, None];
        assert(self@.latched =~= empty_nibble());
    }

    /// Takes note of a level that was reported.
    fn latch(&mut self, line: DataLine, high: bool)
        ensures
            final(self)@ == old(self)@.latch(line, high),
            final(self).room() == old(self).room(),
    {
        proof {
            use_type_invariant(&*self);
        }
        self.latched[line.slot()] = Some(high);
    }
}

impl<CS0, CS1, RD, WR, A0, A1, A2, A3, D0, D1, D2, D3> View for MyDevice<
    CS0,
    CS1,
    RD,
    WR,
    A0,
    A1,
    A2,
    A3,
    D0,
    D1,
    D2,
    D3,
> {
    type V = Progress;

    open spec fn view(&self) -> Progress {
        self.sequencer@
    }
}

impl<CS0, CS1, RD, WR, A0, A1, A2, A3, D0, D1, D2, D3> MyDevice<
    CS0,
    CS1,
    RD,
    WR,
    A0,
    A1,
    A2,
    A3,
    D0,
    D1,
    D2,
    D3,
> {
    /// Both devices hold the same twelve pins.
    pub open spec fn same_pins(&self, other: &Self) -> bool {
        &&& self.cs0 == other.cs0
        &&& self.cs1 == other.cs1
        &&& self.rd == other.rd
        &&& self.wr == other.wr
        &&& self.a0 == other.a0
        &&& self.a1 == other.a1
        &&& self.a2 == other.a2
        &&& self.a3 == other.a3
        &&& self.d0 == other.d0
        &&& self.d1 == other.d1
        &&& self.d2 == other.d2
        &&& self.d3 == other.d3
    }

    /// A driver for the chip behind these pins, with nothing planned yet.
    pub fn new(
        cs0: CS0,
        cs1: CS1,
        rd: RD,
        wr: WR,
        a0: A0,
        a1: A1,
        a2: A2,
        a3: A3,
        d0: D0,
        d1: D1,
        d2: D2,
        d3: D3,
    ) -> (device: Self)
        ensures
            device.cs0 == cs0,
            device.cs1 == cs1,
            device.rd == rd,
            device.wr == wr,
            device.a0 == a0,
            device.a1 == a1,
            device.a2 == a2,
            device.a3 == a3,
            device.d0 == d0,
            device.d1 == d1,
            device.d2 == d2,
            device.d3 == d3,
            device@ == Progress::fresh(),
    {
        MyDevice {
            cs0,
            cs1,
            rd,
            wr,
            a0,
            a1,
            a2,
            a3,
            d0,
            d1,
            d2,
            d3,
            sequencer: Sequencer::new(),
        }
    }

    /// Plans one step after those that are pending.
    fn plan(&mut self, step: Step)
        requires
            old(self).sequencer.room() >= 1,
        ensures
            final(self)@ == old(self)@.plus(seq![step]),
            final(self).sequencer.room() == old(self).sequencer.room() - 1,
            final(self).same_pins(old(self)),
    {
        self.sequencer.push(step);
    }

    /// Plans the settle time that has to follow every change of a line.
    fn wait(&mut self)
        requires
            old(self).sequencer.room() >= 1,
        ensures
            final(self)@ == old(self)@.plus(wait_steps()),
            final(self).sequencer.room() == old(self).sequencer.room() - 1,
            final(self).same_pins(old(self)),
    {
        self.plan(Step::Wait(SETTLE_MICROS));  // > 150 ns
    }

    /// Plans a change of one line, with the settle time after it.
    fn drive(&mut self, line: Line, high: bool)
        requires
            old(self).sequencer.room() >= 2,
        ensures
            final(self)@ == old(self)@.plus(settled(line, high)),
            final(self).sequencer.room() == old(self).sequencer.room() - 2,
            final(self).same_pins(old(self)),
    {
        self.plan(Step::Drive(line, high));
        self.wait();
        proof {
            assert(seq![Step::Drive(line, high)] + wait_steps() =~= settled(line, high));
            lemma_plus(old(self)@, seq![Step::Drive(line, high)], wait_steps());
        }
    }

    /// Plans the selection of the chip.
    fn wakeup(&mut self)
        requires
            old(self).sequencer.room() >= 4,
        ensures
            final(self)@ == old(self)@.plus(wakeup_steps()),
            final(self).sequencer.room() == old(self).sequencer.room() - 4,
            final(self).same_pins(old(self)),
    {
        // The chip can be accessed while chip select 0 is low and chip
        // select 1 is high.
        self.drive(Line::Cs0, false);
        self.drive(Line::Cs1, true);
        proof {
            lemma_plus(old(self)@, settled(Line::Cs0, false), settled(Line::Cs1, true));
        }
    }

    /// Plans the deselection of the chip.
    fn sleep(&mut self)
        requires
            old(self).sequencer.room() >= 2,
        ensures
            final(self)@ == old(self)@.plus(sleep_steps()),
            final(self).sequencer.room() == old(self).sequencer.room() - 2,
            final(self).same_pins(old(self)),
    {
        self.drive(Line::Cs1, false);
    }

    /// Plans the selection of the register at `addr`. Only the low four
    /// bits of the address count.
    fn set_address(&mut self, addr: u8)
        requires
            old(self).sequencer.room() >= 8,
        ensures
            final(self)@ == old(self)@.plus(set_address_steps(addr)),
            final(self).sequencer.room() == old(self).sequencer.room() - 8,
            final(self).same_pins(old(self)),
    {
        self.drive(Line::A0, addr & 0b1000 == 0b1000);
        self.drive(Line::A1, addr & 0b0100 == 0b0100);
        self.drive(Line::A2, addr & 0b0010 == 0b0010);
        self.drive(Line::A3, addr & 0b0001 == 0b0001);
        proof {
            lemma_address_bits(addr);
            let s0 = settled(Line::A0, address_bit(addr, 3));
            let s1 = settled(Line::A1, address_bit(addr, 2));
            let s2 = settled(Line::A2, address_bit(addr, 1));
            let s3 = settled(Line::A3, address_bit(addr, 0));
            lemma_plus(old(self)@, s0, s1);
            lemma_plus(old(self)@, s0 + s1, s2);
            lemma_plus(old(self)@, s0 + s1 + s2, s3);
        }
    }

    /// Plans one look at the busy flag.
    fn sample_busy(&mut self)
        requires
            old(self).sequencer.room() >= 2,
        ensures
            final(self)@ == old(self)@.plus(poll_steps()),
            final(self).sequencer.room() == old(self).sequencer.room() - 2,
            final(self).same_pins(old(self)),
    {
        self.plan(Step::Sample(DataLine::D0));
        self.wait();
        proof {
            assert(seq![Step::Sample(DataLine::D0)] + wait_steps() =~= poll_steps());
            lemma_plus(old(self)@, seq![Step::Sample(DataLine::D0)], wait_steps());
        }
    }

    /// Whether the chip counts as busy: it does until `D0` has been
    /// reported low.
    pub fn is_busy(&self) -> (busy: bool)
        ensures
            busy == self@.is_busy(),
    {
        match self.sequencer.latched[0] {
            Some(high) => high,
            None => true,
        }
    }

    /// Whether no operation is under way, so that one may begin.
    pub fn is_idle(&self) -> (idle: bool)
        ensures
            idle == self@.is_idle(),
    {
        let stopped = match self.sequencer.follow {
            Follow::Stop => true,
            Follow::Poll(_) => false,
        };
        stopped && self.sequencer.is_empty()
    }

    /// Plans the start of a wait for the chip after the steps that are
    /// pending, and notes what is to come once the chip is ready.
    fn await_ready(&mut self, select: Option<Bank>)
        requires
            old(self).sequencer.room() >= 10,
        ensures
            final(self)@ == (Progress {
                pending: old(self)@.pending + busy_wait_steps(),
                follow: Follow::Poll(select),
                latched: empty_nibble(),
            }),
            final(self).sequencer.room() == old(self).sequencer.room() - 10,
            final(self).same_pins(old(self)),
    {
        self.sequencer.forget();
        self.sequencer.set_follow(Follow::Poll(select));
        let ghost begun = self@;
        self.set_address(STATUS_ADDRESS);
        self.sample_busy();
        proof {
            assert(begun.latched =~= empty_nibble());
            lemma_plus(begun, set_address_steps(STATUS_ADDRESS), poll_steps());
        }
    }

    /// Plans a wait for the chip: the status address is selected once, then
    /// the busy flag is looked at, every 240 µs, until it is seen low.
    /// Nothing bounds the wait.
    pub fn sleep_while_busy(&mut self)
        requires
            old(self)@.is_idle(),
        ensures
            final(self)@ == (Progress {
                pending: busy_wait_steps(),
                follow: Follow::Poll(None),
                latched: empty_nibble(),
            }),
            final(self).same_pins(old(self)),
    {
        self.sequencer.rewind();
        self.await_ready(None);
        proof {
            lemma_first_steps(old(self)@.pending, busy_wait_steps());
        }
    }

    /// Plans a read of the register at `addr`. The data lines of the
    /// populated slots of `data_values` are sampled; what the slots hold
    /// does not matter. Once the steps are done, [`Self::data_values`]
    /// holds the levels.
    pub fn read(&mut self, addr: u8, data_values: &[Option<bool>; 4])
        requires
            old(self)@.is_idle(),
        ensures
            final(self)@ == (Progress {
                pending: read_steps(addr, data_values@),
                follow: Follow::Stop,
                latched: empty_nibble(),
            }),
            final(self).same_pins(old(self)),
    {
        self.sequencer.rewind();
        self.sequencer.forget();
        let ghost begun = self@;
        let ghost nibble = data_values@;
        assert(begun.latched =~= empty_nibble());

        self.set_address(addr);

        self.wakeup();

        // read strobe active
        self.drive(Line::Rd, false);

        let ghost f1 = set_address_steps(addr);
        let ghost f2 = f1 + wakeup_steps();
        let ghost f3 = f2 + settled(Line::Rd, false);
        proof {
            lemma_plus(begun, f1, wakeup_steps());
            lemma_plus(begun, f2, settled(Line::Rd, false));
        }
        let ghost strobed = self@;
        if data_values[0].is_some() {
            self.plan(Step::Sample(DataLine::D0));
        }
        let ghost s0 = sample_slot(nibble, 0);
        assert(self@ == strobed.plus(s0)) by {
            lemma_plus_nothing(strobed);
        }
        if data_values[1].is_some() {
            self.plan(Step::Sample(DataLine::D1));
        }
        let ghost s1 = sample_slot(nibble, 1);
        assert(self@ == strobed.plus(s0 + s1)) by {
            lemma_plus_nothing(strobed.plus(s0));
            lemma_plus(strobed, s0, s1);
        }
        if data_values[2].is_some() {
            self.plan(Step::Sample(DataLine::D2));
        }
        let ghost s2 = sample_slot(nibble, 2);
        assert(self@ == strobed.plus(s0 + s1 + s2)) by {
            lemma_plus_nothing(strobed.plus(s0 + s1));
            lemma_plus(strobed, s0 + s1, s2);
        }
        if data_values[3].is_some() {
            self.plan(Step::Sample(DataLine::D3));
        }
        let ghost s3 = sample_slot(nibble, 3);
        assert(self@ == strobed.plus(sample_steps(nibble))) by {
            lemma_plus_nothing(strobed.plus(s0 + s1 + s2));
            lemma_plus(strobed, s0 + s1 + s2, s3);
        }
        self.wait();

        // read strobe back
        self.drive(Line::Rd, true);

        self.sleep();
        self.wait();

        proof {
            let f4 = f3 + sample_steps(nibble);
            let f5 = f4 + wait_steps();
            let f6 = f5 + settled(Line::Rd, true);
            let f7 = f6 + sleep_steps();
            lemma_plus(begun, f3, sample_steps(nibble));
            lemma_plus(begun, f4, wait_steps());
            lemma_plus(begun, f5, settled(Line::Rd, true));
            lemma_plus(begun, f6, sleep_steps());
            lemma_plus(begun, f7, wait_steps());
            lemma_first_steps(begun.pending, read_steps(addr, nibble));
        }
    }

    /// Plans a write to the register at `addr`. The data line of each
    /// populated slot of `data_values` is driven to the level in the slot;
    /// the other data lines are left alone.
    pub fn write(&mut self, addr: u8, data_values: [Option<bool>; 4])
        requires
            old(self)@.is_idle(),
        ensures
            final(self)@ == (Progress {
                pending: write_steps(addr, data_values@),
                follow: Follow::Stop,
                latched: old(self)@.latched,
            }),
            final(self).same_pins(old(self)),
    {
        self.sequencer.rewind();
        let ghost begun = self@;
        let ghost nibble = data_values@;

        self.set_address(addr);

        self.wakeup();

        // write strobe active
        self.drive(Line::Wr, false);

        let ghost f1 = set_address_steps(addr);
        let ghost f2 = f1 + wakeup_steps();
        let ghost f3 = f2 + settled(Line::Wr, false);
        proof {
            lemma_plus(begun, f1, wakeup_steps());
            lemma_plus(begun, f2, settled(Line::Wr, false));
        }
        let ghost strobed = self@;
        if let Some(d0) = data_values[0] {
            self.drive(Line::Data(DataLine::D0), d0);
        }
        let ghost s0 = data_slot(nibble, 0);
        assert(self@ == strobed.plus(s0)) by {
            lemma_plus_nothing(strobed);
        }
        if let Some(d1) = data_values[1] {
            self.drive(Line::Data(DataLine::D1), d1);
        }
        let ghost s1 = data_slot(nibble, 1);
        assert(self@ == strobed.plus(s0 + s1)) by {
            lemma_plus_nothing(strobed.plus(s0));
            lemma_plus(strobed, s0, s1);
        }
        if let Some(d2) = data_values[2] {
            self.drive(Line::Data(DataLine::D2), d2);
        }
        let ghost s2 = data_slot(nibble, 2);
        assert(self@ == strobed.plus(s0 + s1 + s2)) by {
            lemma_plus_nothing(strobed.plus(s0 + s1));
            lemma_plus(strobed, s0 + s1, s2);
        }
        if let Some(d3) = data_values[3] {
            self.drive(Line::Data(DataLine::D3), d3);
        }
        let ghost s3 = data_slot(nibble, 3);
        assert(self@ == strobed.plus(data_steps(nibble))) by {
            lemma_plus_nothing(strobed.plus(s0 + s1 + s2));
            lemma_plus(strobed, s0 + s1 + s2, s3);
        }

        // write strobe back: the chip takes the data
        self.drive(Line::Wr, true);

        self.sleep();
        self.wait();

        proof {
            let f4 = f3 + data_steps(nibble);
            let f5 = f4 + settled(Line::Wr, true);
            let f6 = f5 + sleep_steps();
            lemma_plus(begun, f3, data_steps(nibble));
            lemma_plus(begun, f4, settled(Line::Wr, true));
            lemma_plus(begun, f5, sleep_steps());
            lemma_plus(begun, f6, wait_steps());
            lemma_first_steps(begun.pending, write_steps(addr, nibble));
        }
    }

    /// Plans the power-up sequence, which has to come before any read or
    /// write: chip select 0 is forced high, the chip is deselected and
    /// waited for, and `bank` is selected by a write to the status address.
    pub fn init(&mut self, bank: Bank)
        requires
            old(self)@.is_idle(),
        ensures
            final(self)@ == (Progress {
                pending: init_steps(),
                follow: Follow::Poll(Some(bank)),
                latched: empty_nibble(),
            }),
            final(self).same_pins(old(self)),
    {
        self.sequencer.rewind();

        // Chip select 0 may be low when power comes up; the chip asks to
        // see it high once before it is used.
        self.drive(Line::Cs0, true);

        self.sleep();

        self.await_ready(Some(bank));

        proof {
            let begun = old(self)@;
            let f1 = settled(Line::Cs0, true);
            lemma_plus(begun, f1, sleep_steps());
            assert(begun.pending + (f1 + sleep_steps()) + busy_wait_steps() =~= begun.pending + (
                f1 + sleep_steps() + busy_wait_steps()));
            lemma_first_steps(begun.pending, init_steps());
        }
    }

    /// The step to do next, or `None` when the operation is over. A wait
    /// for the chip goes on for as long as the chip counts as busy.
    pub fn next_step(&mut self) -> (step: Option<Step>)
        ensures
            (final(self)@, step) == old(self)@.next(),
            step is None ==> final(self)@.is_idle(),
            final(self).same_pins(old(self)),
    {
        if self.sequencer.is_empty() {
            match self.sequencer.follow {
                Follow::Stop => {},
                Follow::Poll(select) => {
                    if self.is_busy() {
                        self.sequencer.rewind();
                        self.plan(Step::Wait(POLL_MICROS));
                        self.sample_busy();
                    } else {
                        self.sequencer.set_follow(Follow::Stop);
                        match select {
                            Some(Bank::Bank0) => {
                                self.write(STATUS_ADDRESS, [None, Some(true), None, None]);
                            },
                            Some(Bank::Bank1) => {
                                self.write(STATUS_ADDRESS, [Some(true), None, None, None]);
                            },
                            None => {},
                        }
                    }
                },
            }
        }
        self.sequencer.pop()
    }

    /// Takes note of a level that was sampled on a data line.
    pub fn latch(&mut self, line: DataLine, high: bool)
        ensures
            final(self)@ == old(self)@.latch(line, high),
            final(self).same_pins(old(self)),
    {
        self.sequencer.latch(line, high);
    }

    /// The levels reported since the latest read or wait for the chip was
    /// planned: `Some` for each data line that was sampled, `None` for the
    /// others.
    pub fn data_values(&self) -> (data_values: [Option<bool>; 4])
        ensures
            data_values@ == self@.latched,
    {
        self.sequencer.latched
    }
}

/// Steps planned in two goes are planned as if in one.
proof fn lemma_plus(progress: Progress, a: Seq<Step>, b: Seq<Step>)
    ensures
        progress.plus(a).plus(b) == progress.plus(a + b),
{
    assert(progress.pending + a + b =~= progress.pending + (a + b));
}

/// To plan no step changes nothing.
proof fn lemma_plus_nothing(progress: Progress)
    ensures
        progress.plus(Seq::empty()) == progress,
{
    assert(progress.pending + Seq::<Step>::empty() =~= progress.pending);
}

/// Steps planned when none is pending are the pending steps.
proof fn lemma_first_steps(pending: Seq<Step>, steps: Seq<Step>)
    requires
        pending.len() == 0,
    ensures
        pending + steps == steps,
{
    assert(pending + steps =~= steps);
}

/// The masks that the driver tests an address with pick its bits.
proof fn lemma_address_bits(addr: u8)
    ensures
        address_bit(addr, 3) == (addr & 0b1000 == 0b1000),
        address_bit(addr, 2) == (addr & 0b0100 == 0b0100),
        address_bit(addr, 1) == (addr & 0b0010 == 0b0010),
        address_bit(addr, 0) == (addr & 0b0001 == 0b0001),
{
    assert(((addr >> 3u8) & 1 == 1) == (addr & 0b1000 == 0b1000)) by (bit_vector);
    assert(((addr >> 2u8) & 1 == 1) == (addr & 0b0100 == 0b0100)) by (bit_vector);
    assert(((addr >> 1u8) & 1 == 1) == (addr & 0b0010 == 0b0010)) by (bit_vector);
    assert(((addr >> 0u8) & 1 == 1) == (addr & 0b0001 == 0b0001)) by (bit_vector);
}

} // verus!
