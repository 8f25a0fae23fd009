//! What comes of an operation when its steps are carried out.
//!
//! The driver plans and decides; somebody else does the steps and reports
//! the levels. This file describes that somebody as simply as can be: it
//! asks for a step, does it, reports the level if the step was a sample, and
//! asks again. The chip it talks to is a function that says which level a
//! data line shows at the moment it is sampled. The proofs say, for each
//! operation, exactly which steps such a run consists of and what the
//! driver has latched at its end.

use vstd::prelude::*;
use crate::bus::{samples, DataLine, Line, Step};
use crate::protocol::{
    bank_nibble, busy_wait_steps, init_steps, lemma_join, lemma_set_address, lemma_settled,
    lemma_wait, lemma_wakeup, lemma_write, poll_steps, read_steps, repoll_steps, sample_slot,
    sample_steps, set_address_steps, settled, sleep_steps, wait_steps, wakeup_steps,
    write_steps, POLL_MICROS, STATUS_ADDRESS,
};
use crate::rtc7301dg::{empty_nibble, Bank, Follow, Progress};

verus! {

/// The chip as the driver sees it: the level that a data line shows when it
/// is sampled, given how many samples were taken before.
pub type Chip = spec_fn(nat, DataLine) -> bool;

/// What the samples taken so far have left: the latched levels, and how
/// many samples there were.
pub struct Seen {
    pub latched: Seq<Option<bool>>,
    pub count: nat,
}

/// A run of the driver: where it stands, how many samples were taken, and
/// the steps that were done, in order.
#[verifier::ext_equal]
pub struct Run {
    pub state: Progress,
    pub count: nat,
    pub trace: Seq<Step>,
}

/// What is latched and counted once `step` is done against `chip`.
pub open spec fn seen_after_step(seen: Seen, chip: Chip, step: Step) -> Seen {
    match step {
        Step::Sample(line) => Seen {
            latched: seen.latched.update(line.index(), Some(chip(seen.count, line))),
            count: seen.count + 1,
        },
        _ => seen,
    }
}

/// What is latched and counted once `steps` are done against `chip`.
pub open spec fn seen_after(seen: Seen, chip: Chip, steps: Seq<Step>) -> Seen
    decreases steps.len(),
{
    if steps.len() == 0 {
        seen
    } else {
        seen_after(seen_after_step(seen, chip, steps[0]), chip, steps.drop_first())
    }
}

/// The run that starts at `state`, with `count` samples taken before, and
/// goes on for `n` steps or until the operation is over.
pub open spec fn run(state: Progress, chip: Chip, count: nat, n: nat) -> Run
    decreases n,
{
    if n == 0 {
        Run { state, count, trace: Seq::empty() }
    } else {
        let (handed, next) = state.next();
        match next {
            None => Run { state: handed, count, trace: Seq::empty() },
            Some(step) => {
                let seen = seen_after_step(Seen { latched: handed.latched, count }, chip, step);
                let rest = run(
                    Progress { latched: seen.latched, ..handed },
                    chip,
                    seen.count,
                    (n - 1) as nat,
                );
                Run { state: rest.state, count: rest.count, trace: seq![step] + rest.trace }
            },
        }
    }
}

/// Steps done one sequence after the other leave latched what the second
/// leaves of what the first left.
pub proof fn lemma_seen_concat(seen: Seen, chip: Chip, a: Seq<Step>, b: Seq<Step>)
    ensures
        seen_after(seen, chip, a + b) == seen_after(seen_after(seen, chip, a), chip, b),
    decreases a.len(),
{
    if a.len() == 0 {
        assert(a + b =~= b);
    } else {
        assert((a + b).drop_first() =~= a.drop_first() + b);
        lemma_seen_concat(seen_after_step(seen, chip, a[0]), chip, a.drop_first(), b);
    }
}

/// Steps that sample nothing leave what is latched as it was.
pub proof fn lemma_seen_unsampled(seen: Seen, chip: Chip, steps: Seq<Step>)
    requires
        forall|d: DataLine| !samples(steps, d),
    ensures
        seen_after(seen, chip, steps) == seen,
    decreases steps.len(),
{
    if steps.len() > 0 {
        let rest = steps.drop_first();
        assert forall|d: DataLine| !samples(rest, d) by {
            if samples(rest, d) {
                let i = choose|i: int| 0 <= i < rest.len() && rest[i] == Step::Sample(d);
                assert(steps[i + 1] == Step::Sample(d));
                assert(samples(steps, d));
            }
        }
        match steps[0] {
            Step::Sample(d) => {
                assert(samples(steps, d));
            },
            _ => {},
        }
        lemma_seen_unsampled(seen, chip, rest);
    }
}

/// Once the operation is over, nothing more is done.
pub proof fn lemma_run_idle(state: Progress, chip: Chip, count: nat, n: nat)
    requires
        state.is_idle(),
    ensures
        run(state, chip, count, n) == (Run { state, count, trace: Seq::empty() }),
{
}

/// While steps are pending they are done in order, whatever is to follow.
pub proof fn lemma_run_pending(state: Progress, chip: Chip, count: nat, n: nat)
    requires
        n <= state.pending.len(),
    ensures
        run(state, chip, count, n) == ({
            let seen = seen_after(
                Seen { latched: state.latched, count },
                chip,
                state.pending.take(n as int),
            );
            Run {
                state: Progress {
                    pending: state.pending.skip(n as int),
                    follow: state.follow,
                    latched: seen.latched,
                },
                count: seen.count,
                trace: state.pending.take(n as int),
            }
        }),
    decreases n,
{
    if n == 0 {
        assert(state.pending.skip(0) =~= state.pending);
        assert(state.pending.take(0) =~= Seq::<Step>::empty());
    } else {
        let (handed, next) = state.next();
        let step = state.pending[0];
        assert(next == Some(step));
        let seen = seen_after_step(Seen { latched: handed.latched, count }, chip, step);
        let then = Progress { latched: seen.latched, ..handed };
        lemma_run_pending(then, chip, seen.count, (n - 1) as nat);
        let done = state.pending.take(n as int);
        assert(done.drop_first() =~= then.pending.take(n - 1));
        assert(done[0] == step);
        assert(seq![step] + then.pending.take(n - 1) =~= done);
        assert(then.pending.skip(n - 1) =~= state.pending.skip(n as int));
    }
}

/// A run of `m + n` steps is a run of `m` steps and then one of `n` steps.
pub proof fn lemma_run_split(state: Progress, chip: Chip, count: nat, m: nat, n: nat)
    requires
        run(state, chip, count, m).trace.len() == m,
    ensures
        run(state, chip, count, m + n) == ({
            let first = run(state, chip, count, m);
            let rest = run(first.state, chip, first.count, n);
            Run { state: rest.state, count: rest.count, trace: first.trace + rest.trace }
        }),
    decreases m,
{
    if m == 0 {
        let rest = run(state, chip, count, n);
        assert(Seq::<Step>::empty() + rest.trace =~= rest.trace);
    } else {
        let (handed, next) = state.next();
        match next {
            None => {},
            Some(step) => {
                let seen = seen_after_step(Seen { latched: handed.latched, count }, chip, step);
                let then = Progress { latched: seen.latched, ..handed };
                let first_rest = run(then, chip, seen.count, (m - 1) as nat);
                assert((seq![step] + first_rest.trace).len() == 1 + first_rest.trace.len());
                lemma_run_split(then, chip, seen.count, (m - 1) as nat, n);
                let rest = run(first_rest.state, chip, first_rest.count, n);
                assert(seq![step] + (first_rest.trace + rest.trace) =~= seq![step]
                    + first_rest.trace + rest.trace);
                assert((m + n - 1) as nat == (m - 1) as nat + n);
            },
        }
    }
}

/// An operation with no wait for the chip in it consists of its pending
/// steps, in order, and is over after them.
pub proof fn lemma_run_to_end(state: Progress, chip: Chip, count: nat, n: nat)
    requires
        state.follow is Stop,
        n >= state.pending.len(),
    ensures
        run(state, chip, count, n) == ({
            let seen = seen_after(Seen { latched: state.latched, count }, chip, state.pending);
            Run {
                state: Progress {
                    pending: Seq::empty(),
                    follow: Follow::Stop,
                    latched: seen.latched,
                },
                count: seen.count,
                trace: state.pending,
            }
        }),
{
    let len = state.pending.len();
    lemma_run_pending(state, chip, count, len);
    assert(state.pending.take(len as int) =~= state.pending);
    assert(state.pending.skip(len as int) =~= Seq::<Step>::empty());
    let first = run(state, chip, count, len);
    lemma_run_split(state, chip, count, len, (n - len) as nat);
    lemma_run_idle(first.state, chip, first.count, (n - len) as nat);
    assert(first.trace + Seq::<Step>::empty() =~= first.trace);
}

/// Steps after which nothing is sampled leave latched what the steps
/// before them left.
pub proof fn lemma_seen_front(seen: Seen, chip: Chip, a: Seq<Step>, b: Seq<Step>)
    requires
        forall|d: DataLine| !samples(b, d),
    ensures
        seen_after(seen, chip, a + b) == seen_after(seen, chip, a),
{
    lemma_seen_concat(seen, chip, a, b);
    lemma_seen_unsampled(seen_after(seen, chip, a), chip, b);
}

/// Steps before which nothing is sampled leave latched what they would
/// leave alone.
pub proof fn lemma_seen_back(seen: Seen, chip: Chip, a: Seq<Step>, b: Seq<Step>)
    requires
        forall|d: DataLine| !samples(a, d),
    ensures
        seen_after(seen, chip, a + b) == seen_after(seen, chip, b),
{
    lemma_seen_concat(seen, chip, a, b);
    lemma_seen_unsampled(seen, chip, a);
}

/// A write consists of the steps of a write transaction, in order, and is
/// over after them. It takes no sample and leaves what is latched as it
/// was.
pub proof fn lemma_write_run(
    latched: Seq<Option<bool>>,
    addr: u8,
    nibble: Seq<Option<bool>>,
    chip: Chip,
    count: nat,
    n: nat,
)
    requires
        n >= write_steps(addr, nibble).len(),
    ensures
        run(
            Progress { pending: write_steps(addr, nibble), follow: Follow::Stop, latched },
            chip,
            count,
            n,
        ) == (Run {
            state: Progress { pending: Seq::empty(), follow: Follow::Stop, latched },
            count,
            trace: write_steps(addr, nibble),
        }),
{
    let start = Progress { pending: write_steps(addr, nibble), follow: Follow::Stop, latched };
    lemma_write(addr, nibble);
    lemma_seen_unsampled(Seen { latched, count }, chip, write_steps(addr, nibble));
    lemma_run_to_end(start, chip, count, n);
}

/// How many of the slots before slot `i` are populated.
pub open spec fn populated_before(nibble: Seq<Option<bool>>, i: int) -> nat
    decreases i,
{
    if i <= 0 {
        0
    } else {
        populated_before(nibble, i - 1) + if nibble[i - 1] is Some {
            1nat
        } else {
            0nat
        }
    }
}

/// What a read of the populated slots of `nibble` returns from `chip`
/// after `count` earlier samples: for each populated slot the level that its
/// data line shows when its turn comes, `D0` first, and `None` for the
/// others.
pub open spec fn read_result(nibble: Seq<Option<bool>>, chip: Chip, count: nat) -> Seq<
    Option<bool>,
> {
    Seq::new(
        4,
        |i: int|
            if nibble[i] is Some {
                Some(chip(count + populated_before(nibble, i), DataLine::at(i)))
            } else {
                None
            },
    )
}

/// What is latched once slot `i` has had its turn.
proof fn lemma_seen_slot(seen: Seen, chip: Chip, nibble: Seq<Option<bool>>, i: int)
    requires
        0 <= i < 4,
    ensures
        seen_after(seen, chip, sample_slot(nibble, i)) == if nibble[i] is Some {
            seen_after_step(seen, chip, Step::Sample(DataLine::at(i)))
        } else {
            seen
        },
{
    reveal_with_fuel(seen_after, 2);
    if nibble[i] is Some {
        let steps = sample_slot(nibble, i);
        assert(steps.drop_first() =~= Seq::<Step>::empty());
        assert(steps[0] == Step::Sample(DataLine::at(i)));
    }
}

/// What is latched once the populated slots were sampled.
proof fn lemma_seen_samples(chip: Chip, nibble: Seq<Option<bool>>, count: nat)
    ensures
        seen_after(Seen { latched: empty_nibble(), count }, chip, sample_steps(nibble)) == (Seen {
            latched: read_result(nibble, chip, count),
            count: count + populated_before(nibble, 4),
        }),
{
    reveal_with_fuel(populated_before, 5);
    let s0 = sample_slot(nibble, 0);
    let s1 = sample_slot(nibble, 1);
    let s2 = sample_slot(nibble, 2);
    let s3 = sample_slot(nibble, 3);
    let m0 = Seen { latched: empty_nibble(), count };
    let m1 = seen_after(m0, chip, s0);
    let m2 = seen_after(m1, chip, s1);
    let m3 = seen_after(m2, chip, s2);
    let m4 = seen_after(m3, chip, s3);
    lemma_seen_slot(m0, chip, nibble, 0);
    lemma_seen_slot(m1, chip, nibble, 1);
    lemma_seen_slot(m2, chip, nibble, 2);
    lemma_seen_slot(m3, chip, nibble, 3);
    lemma_seen_concat(m0, chip, s0, s1);
    lemma_seen_concat(m0, chip, s0 + s1, s2);
    lemma_seen_concat(m0, chip, s0 + s1 + s2, s3);
    assert(m1.count == count + populated_before(nibble, 1));
    assert(m2.count == count + populated_before(nibble, 2));
    assert(m3.count == count + populated_before(nibble, 3));
    assert(m4.count == count + populated_before(nibble, 4));
    assert(m4.latched =~= read_result(nibble, chip, count));
}

/// A read consists of the steps of a read transaction, in order, and is
/// over after them. It leaves latched, for each populated slot, the level
/// that the chip showed on the slot's data line, and `None` for the other
/// slots.
pub proof fn lemma_read_run(addr: u8, nibble: Seq<Option<bool>>, chip: Chip, count: nat, n: nat)
    requires
        n >= read_steps(addr, nibble).len(),
    ensures
        run(
            Progress {
                pending: read_steps(addr, nibble),
                follow: Follow::Stop,
                latched: empty_nibble(),
            },
            chip,
            count,
            n,
        ) == (Run {
            state: Progress {
                pending: Seq::empty(),
                follow: Follow::Stop,
                latched: read_result(nibble, chip, count),
            },
            count: count + populated_before(nibble, 4),
            trace: read_steps(addr, nibble),
        }),
{
    let start = Progress {
        pending: read_steps(addr, nibble),
        follow: Follow::Stop,
        latched: empty_nibble(),
    };
    let seen = Seen { latched: empty_nibble(), count };
    let f1 = set_address_steps(addr);
    let f2 = f1 + wakeup_steps();
    let f3 = f2 + settled(Line::Rd, false);
    let f4 = f3 + sample_steps(nibble);
    let f5 = f4 + wait_steps();
    let f6 = f5 + settled(Line::Rd, true);
    let f7 = f6 + sleep_steps();
    lemma_set_address(addr);
    lemma_wakeup();
    lemma_settled(Line::Rd, false);
    lemma_settled(Line::Rd, true);
    lemma_settled(Line::Cs1, false);
    lemma_wait();
    lemma_join(f1, wakeup_steps());
    lemma_join(f2, settled(Line::Rd, false));
    lemma_seen_front(seen, chip, f7, wait_steps());
    lemma_seen_front(seen, chip, f6, sleep_steps());
    lemma_seen_front(seen, chip, f5, settled(Line::Rd, true));
    lemma_seen_front(seen, chip, f4, wait_steps());
    lemma_seen_back(seen, chip, f3, sample_steps(nibble));
    lemma_seen_samples(chip, nibble, count);
    lemma_run_to_end(start, chip, count, n);
}

/// The pause and the look that follow a look at a busy chip, `k` times.
pub open spec fn repolls(k: nat) -> Seq<Step>
    decreases k,
{
    if k == 0 {
        Seq::empty()
    } else {
        repolls((k - 1) as nat) + repoll_steps()
    }
}

/// The chip shows busy at each of the `k` looks that come after `count`
/// samples.
pub open spec fn busy_for(chip: Chip, count: nat, k: nat) -> bool {
    forall|i: nat| count <= i < count + k ==> #[trigger] chip(i, DataLine::D0)
}

/// The write that ends a wait for the chip: the one that selects the bank,
/// if a bank is to be selected.
pub open spec fn select_steps(select: Option<Bank>) -> Seq<Step> {
    match select {
        Some(bank) => write_steps(STATUS_ADDRESS, bank_nibble(bank)),
        None => Seq::empty(),
    }
}

/// A wait for the chip that begins after `prefix`: what is planned at its
/// start.
pub open spec fn wait_start(prefix: Seq<Step>, select: Option<Bank>) -> Progress {
    Progress {
        pending: prefix + poll_steps(),
        follow: Follow::Poll(select),
        latched: empty_nibble(),
    }
}

/// `k` pauses and looks are `3 * k` steps.
proof fn lemma_repolls_len(k: nat)
    ensures
        repolls(k).len() == 3 * k,
    decreases k,
{
    if k > 0 {
        lemma_repolls_len((k - 1) as nat);
    }
}

/// A run that did all of `m + n` steps did all of its first `m`.
pub proof fn lemma_run_shorter(state: Progress, chip: Chip, count: nat, m: nat, n: nat)
    requires
        run(state, chip, count, m + n).trace.len() == m + n,
    ensures
        run(state, chip, count, m).trace.len() == m,
    decreases m,
{
    if m > 0 {
        let (handed, next) = state.next();
        match next {
            None => {},
            Some(step) => {
                let seen = seen_after_step(Seen { latched: handed.latched, count }, chip, step);
                let then = Progress { latched: seen.latched, ..handed };
                assert((m + n - 1) as nat == (m - 1) as nat + n);
                lemma_run_shorter(then, chip, seen.count, (m - 1) as nat, n);
            },
        }
    }
}

/// After a look at a busy chip come the pause and another look.
proof fn lemma_run_busy(state: Progress, chip: Chip, count: nat)
    requires
        state.pending.len() == 0,
        state.follow is Poll,
        state.is_busy(),
        state.latched.len() == 4,
    ensures
        run(state, chip, count, 3) == (Run {
            state: Progress {
                latched: state.latched.update(0, Some(chip(count, DataLine::D0))),
                ..state
            },
            count: count + 1,
            trace: repoll_steps(),
        }),
{
    let (handed, next) = state.next();
    assert(repoll_steps()[0] == Step::Wait(POLL_MICROS));
    assert(next == Some(repoll_steps()[0]));
    assert(handed.pending =~= poll_steps());
    lemma_run_pending(handed, chip, count, 2);
    lemma_seen_look(Seen { latched: state.latched, count }, chip);
    assert(poll_steps().take(2) =~= poll_steps());
    assert(poll_steps().skip(2) =~= state.pending);
    assert(seq![repoll_steps()[0]] + poll_steps() =~= repoll_steps());
}

/// A look latches the level that the chip shows on `D0`.
proof fn lemma_seen_look(seen: Seen, chip: Chip)
    ensures
        seen_after(seen, chip, poll_steps()) == (Seen {
            latched: seen.latched.update(0, Some(chip(seen.count, DataLine::D0))),
            count: seen.count + 1,
        }),
{
    reveal_with_fuel(seen_after, 3);
    let steps = poll_steps();
    assert(steps.drop_first().drop_first() =~= Seq::<Step>::empty());
}

/// After a look at a ready chip comes the write that selects the bank, if
/// there is one to select, and then the wait is over.
proof fn lemma_run_ready(state: Progress, select: Option<Bank>, chip: Chip, count: nat, n: nat)
    requires
        state.pending.len() == 0,
        state.follow == Follow::Poll(select),
        !state.is_busy(),
        n > select_steps(select).len(),
    ensures
        run(state, chip, count, n) == (Run {
            state: Progress { follow: Follow::Stop, ..state },
            count,
            trace: select_steps(select),
        }),
{
    match select {
        None => {
            assert(state.next().1 is None);
        },
        Some(bank) => {
            let steps = write_steps(STATUS_ADDRESS, bank_nibble(bank));
            let write = Progress { pending: steps, follow: Follow::Stop, ..state };
            lemma_write_run(state.latched, STATUS_ADDRESS, bank_nibble(bank), chip, count, n);
            lemma_write_not_empty(STATUS_ADDRESS, bank_nibble(bank));
            assert(state.next() == write.next());
            assert(state.pending =~= Seq::<Step>::empty());
        },
    }
}

/// A write transaction has steps.
proof fn lemma_write_not_empty(addr: u8, nibble: Seq<Option<bool>>)
    ensures
        write_steps(addr, nibble).len() > 0,
{
}

/// While the chip shows busy the wait goes on: after `k` looks at a busy
/// chip the driver has paused and looked again `k` times, has latched what
/// the last look showed, and has not yet judged it.
proof fn lemma_run_looks(
    latched: Seq<Option<bool>>,
    select: Option<Bank>,
    chip: Chip,
    count: nat,
    k: nat,
)
    requires
        latched.len() == 4,
        busy_for(chip, count, k),
    ensures
        run(
            Progress { pending: poll_steps(), follow: Follow::Poll(select), latched },
            chip,
            count,
            2 + 3 * k,
        ) == (Run {
            state: Progress {
                pending: Seq::empty(),
                follow: Follow::Poll(select),
                latched: latched.update(0, Some(chip(count + k, DataLine::D0))),
            },
            count: count + k + 1,
            trace: poll_steps() + repolls(k),
        }),
    decreases k,
{
    let start = Progress { pending: poll_steps(), follow: Follow::Poll(select), latched };
    if k == 0 {
        lemma_run_pending(start, chip, count, 2);
        lemma_seen_look(Seen { latched, count }, chip);
        assert(poll_steps().take(2) =~= poll_steps());
        assert(poll_steps().skip(2) =~= Seq::<Step>::empty());
        assert(poll_steps() + repolls(0) =~= poll_steps());
    } else {
        let j = (k - 1) as nat;
        lemma_run_looks(latched, select, chip, count, j);
        lemma_repolls_len(j);
        let first = run(start, chip, count, 2 + 3 * j);
        assert(chip(count + j, DataLine::D0));
        lemma_run_busy(first.state, chip, first.count);
        lemma_run_split(start, chip, count, 2 + 3 * j, 3);
        assert(2 + 3 * j + 3 == 2 + 3 * k);
        assert(poll_steps() + repolls(j) + repoll_steps() =~= poll_steps() + repolls(k));
        assert(first.state.latched.update(0, Some(chip(first.count, DataLine::D0)))
            =~= latched.update(0, Some(chip(count + k, DataLine::D0))));
    }
}

/// While the chip shows busy the wait goes on. If it shows busy at each of
/// `k` looks, then after the steps before the wait, the first look, and `k`
/// pauses each with its look, the driver is still waiting: it has done
/// exactly those steps and is about to judge the look it took last.
pub proof fn lemma_wait_goes_on(
    prefix: Seq<Step>,
    select: Option<Bank>,
    chip: Chip,
    count: nat,
    k: nat,
)
    requires
        forall|d: DataLine| !samples(prefix, d),
        busy_for(chip, count, k),
    ensures
        run(wait_start(prefix, select), chip, count, prefix.len() + 2 + 3 * k) == (Run {
            state: Progress {
                pending: Seq::empty(),
                follow: Follow::Poll(select),
                latched: empty_nibble().update(0, Some(chip(count + k, DataLine::D0))),
            },
            count: count + k + 1,
            trace: prefix + poll_steps() + repolls(k),
        }),
{
    let start = wait_start(prefix, select);
    let len = prefix.len();
    lemma_run_pending(start, chip, count, len);
    assert(start.pending.take(len as int) =~= prefix);
    assert(start.pending.skip(len as int) =~= poll_steps());
    lemma_seen_unsampled(Seen { latched: empty_nibble(), count }, chip, prefix);
    lemma_run_looks(empty_nibble(), select, chip, count, k);
    lemma_run_split(start, chip, count, len, 2 + 3 * k);
    assert(prefix + (poll_steps() + repolls(k)) =~= prefix + poll_steps() + repolls(k));
}

/// A chip that shows busy at every look is waited for without end: however
/// many steps are asked for, that many are done.
pub proof fn lemma_wait_never_ends(
    prefix: Seq<Step>,
    select: Option<Bank>,
    chip: Chip,
    count: nat,
    n: nat,
)
    requires
        forall|d: DataLine| !samples(prefix, d),
        forall|i: nat| count <= i ==> #[trigger] chip(i, DataLine::D0),
    ensures
        run(wait_start(prefix, select), chip, count, n).trace.len() == n,
{
    lemma_wait_goes_on(prefix, select, chip, count, n);
    lemma_repolls_len(n);
    let all = prefix.len() + 2 + 3 * n;
    assert(all == n + (all - n) as nat);
    lemma_run_shorter(wait_start(prefix, select), chip, count, n, (all - n) as nat);
}

/// The wait ends with the first look that shows the chip ready. If the chip
/// shows busy at `k` looks and ready at the next, the driver does the steps
/// before the wait, the first look, `k` pauses each with its look, and the
/// write that selects the bank if there is one to select; then the
/// operation is over.
pub proof fn lemma_wait_run(
    prefix: Seq<Step>,
    select: Option<Bank>,
    chip: Chip,
    count: nat,
    k: nat,
    n: nat,
)
    requires
        forall|d: DataLine| !samples(prefix, d),
        busy_for(chip, count, k),
        !chip(count + k, DataLine::D0),
        n > prefix.len() + 2 + 3 * k + select_steps(select).len(),
    ensures
        run(wait_start(prefix, select), chip, count, n) == (Run {
            state: Progress {
                pending: Seq::empty(),
                follow: Follow::Stop,
                latched: empty_nibble().update(0, Some(false)),
            },
            count: count + k + 1,
            trace: prefix + poll_steps() + repolls(k) + select_steps(select),
        }),
{
    let start = wait_start(prefix, select);
    let looks = prefix.len() + 2 + 3 * k;
    lemma_wait_goes_on(prefix, select, chip, count, k);
    lemma_repolls_len(k);
    let first = run(start, chip, count, looks);
    lemma_run_ready(first.state, select, chip, first.count, (n - looks) as nat);
    lemma_run_split(start, chip, count, looks, (n - looks) as nat);
}

/// A wait for the chip on its own: the status address is set once, the
/// flag is looked at, and for each look that shows the chip busy the driver
/// pauses and looks again. With the first look that shows it ready the wait
/// is over.
pub proof fn lemma_sleep_while_busy_run(chip: Chip, count: nat, k: nat, n: nat)
    requires
        busy_for(chip, count, k),
        !chip(count + k, DataLine::D0),
        n > busy_wait_steps().len() + 3 * k,
    ensures
        run(
            Progress {
                pending: busy_wait_steps(),
                follow: Follow::Poll(None),
                latched: empty_nibble(),
            },
            chip,
            count,
            n,
        ) == (Run {
            state: Progress {
                pending: Seq::empty(),
                follow: Follow::Stop,
                latched: empty_nibble().update(0, Some(false)),
            },
            count: count + k + 1,
            trace: busy_wait_steps() + repolls(k),
        }),
{
    let prefix = set_address_steps(STATUS_ADDRESS);
    lemma_set_address(STATUS_ADDRESS);
    lemma_wait_run(prefix, None, chip, count, k, n);
    assert(busy_wait_steps() + repolls(k) + Seq::<Step>::empty() =~= busy_wait_steps()
        + repolls(k));
}

/// The steps of the power-up sequence that come before its first look.
pub open spec fn init_prefix() -> Seq<Step> {
    settled(Line::Cs0, true) + sleep_steps() + set_address_steps(STATUS_ADDRESS)
}

/// The power-up sequence: chip select 0 is forced high once, the chip is
/// deselected, the chip is waited for once, and then the bank is selected
/// by one write to the status address, of `[None, Some(true), None, None]`
/// for bank 0 and of `[Some(true), None, None, None]` for bank 1.
pub proof fn lemma_init_run(bank: Bank, chip: Chip, count: nat, k: nat, n: nat)
    requires
        busy_for(chip, count, k),
        !chip(count + k, DataLine::D0),
        n > init_steps().len() + 3 * k + write_steps(STATUS_ADDRESS, bank_nibble(bank)).len(),
    ensures
        run(
            Progress {
                pending: init_steps(),
                follow: Follow::Poll(Some(bank)),
                latched: empty_nibble(),
            },
            chip,
            count,
            n,
        ) == (Run {
            state: Progress {
                pending: Seq::empty(),
                follow: Follow::Stop,
                latched: empty_nibble().update(0, Some(false)),
            },
            count: count + k + 1,
            trace: settled(Line::Cs0, true) + sleep_steps() + (busy_wait_steps() + repolls(k))
                + write_steps(
                STATUS_ADDRESS,
                match bank {
                    Bank::Bank0 => seq![None, Some(true), None, None],
                    Bank::Bank1 => seq![Some(true), None, None, None],
                },
            ),
        }),
{
    let prefix = init_prefix();
    lemma_init_prefix();
    assert(prefix + poll_steps() =~= init_steps());
    lemma_wait_run(prefix, Some(bank), chip, count, k, n);
    assert(prefix + poll_steps() + repolls(k) =~= settled(Line::Cs0, true) + sleep_steps() + (
        busy_wait_steps() + repolls(k)));
}

/// The power-up sequence samples nothing before its first look.
proof fn lemma_init_prefix()
    ensures
        forall|d: DataLine| !samples(init_prefix(), d),
{
    lemma_settled(Line::Cs0, true);
    lemma_settled(Line::Cs1, false);
    lemma_set_address(STATUS_ADDRESS);
    lemma_join(settled(Line::Cs0, true), sleep_steps());
    lemma_join(settled(Line::Cs0, true) + sleep_steps(), set_address_steps(STATUS_ADDRESS));
}

} // verus!
