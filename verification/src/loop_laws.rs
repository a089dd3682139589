//! The scheduler loop as a run of steps, and what holds over every run:
//! a tick opens at most one flyby, only a due one while nothing is muted or
//! on screen, and a meeting flies at most once while it is under a day old.

use vstd::prelude::*;
use crate::scheduler::JobView;
use crate::service::EventValidity;
use crate::tick::{
    a_tick_opens_one_due_new_flyby, fired_kept, key_young, lemma_kept_young, lemma_mark_keeps, mark,
    retries_kept, tick_blocked, tick_spec, LATE_LIMIT,
};

verus! {

/// What the scheduler keeps between steps: the queue, the keys flown and
/// the unknown verdicts counted per key.
pub struct LoopState {
    pub queue: Seq<(int, JobView)>,
    pub fired: Seq<Seq<char>>,
    pub retries: Seq<(Seq<char>, u8)>,
}

/// One step of the scheduler loop: a poll at `now` that rebuilt the queue
/// into `queue`, or a tick at `now` with the mute and whether an overlay
/// is on screen, the verdicts its last checks came back with, and whether
/// the window of the flyby it chose opened.
pub enum LoopStep {
    Poll { now: i64, queue: Seq<(int, JobView)> },
    Tick {
        now: i64,
        mute_until: Option<i64>,
        overlay_open: bool,
        verdicts: Seq<EventValidity>,
        window_opened: bool,
    },
}

/// The state after one step and the key of the flyby it opened, if any, as
/// `TickState`'s `apply_poll`, `run_tick` and `after_open` make them; `None`
/// when the verdicts do not fit the tick.
pub open spec fn loop_step(s: LoopState, step: LoopStep) -> Option<(LoopState, Option<Seq<char>>)> {
    match step {
        LoopStep::Poll { now, queue } => {
            let f = fired_kept(s.fired, now);
            Some((LoopState { queue: queue, fired: f, retries: retries_kept(s.retries, f) }, None))
        },
        LoopStep::Tick { now, mute_until, overlay_open, verdicts, window_opened } => if tick_blocked(
            mute_until,
            now,
            overlay_open,
        ) {
            if verdicts.len() == 0 {
                Some((s, None))
            } else {
                None
            }
        } else {
            match tick_spec(s.queue, s.fired, s.retries, now, verdicts) {
                None => None,
                Some((f2, r2, opened)) => match opened {
                    None => Some((LoopState { queue: s.queue, fired: f2, retries: r2 }, None)),
                    Some(i) => {
                        let k = s.queue[i].1.key;
                        if window_opened {
                            Some((LoopState { queue: s.queue, fired: mark(f2, k), retries: r2 }, Some(k)))
                        } else {
                            Some((LoopState { queue: s.queue, fired: f2, retries: r2 }, None))
                        }
                    },
                },
            }
        },
    }
}

/// For each step of a run from `s`, the key of the flyby it opened, if
/// any: one entry per step, so at most one flyby per tick. A run ends at a
/// step whose verdicts do not fit.
pub open spec fn run_flights(s: LoopState, steps: Seq<LoopStep>) -> Seq<Option<Seq<char>>>
    decreases steps.len(),
{
    if steps.len() == 0 {
        Seq::empty()
    } else {
        match loop_step(s, steps[0]) {
            None => Seq::empty(),
            Some((s1, fl)) => seq![fl] + run_flights(s1, steps.drop_first()),
        }
    }
}

proof fn lemma_run_len(s: LoopState, steps: Seq<LoopStep>)
    ensures
        run_flights(s, steps).len() <= steps.len(),
    decreases steps.len(),
{
    if steps.len() > 0 {
        if let Some((s1, fl)) = loop_step(s, steps[0]) {
            lemma_run_len(s1, steps.drop_first());
        }
    }
}

/// A poll at which the key `k` is forgotten: a day old, or without a time.
pub open spec fn poll_forgets(step: LoopStep, k: Seq<char>) -> bool {
    match step {
        LoopStep::Poll { now, .. } => !key_young(k, now),
        _ => false,
    }
}

/// A flyby opens only in a tick that is neither muted nor under another
/// overlay, for a queue entry that is due, not too late, and not flown.
pub proof fn a_flight_is_due_unmuted_and_new(s: LoopState, step: LoopStep)
    ensures
        loop_step(s, step) matches Some((_, Some(k))) ==> step matches LoopStep::Tick {
            now,
            mute_until,
            overlay_open,
            ..
        } && !tick_blocked(mute_until, now, overlay_open) && exists|i: int|
            0 <= i < s.queue.len() && #[trigger] s.queue[i].1.key == k && s.queue[i].0 <= now && now
                < s.queue[i].1.start + LATE_LIMIT && !s.fired.contains(k),
{
    match step {
        LoopStep::Tick { now, mute_until, overlay_open, verdicts, window_opened } => {
            if !tick_blocked(mute_until, now, overlay_open) {
                a_tick_opens_one_due_new_flyby(s.queue, s.fired, s.retries, now, verdicts, Seq::empty());
                match tick_spec(s.queue, s.fired, s.retries, now, verdicts) {
                    Some((_, _, Some(i))) => {
                        assert(s.queue[i].1.key == s.queue[i].1.key);
                    },
                    _ => {},
                }
            }
        },
        _ => {},
    }
}

/// A flown key stays flown, and never flies, while no poll forgets it.
proof fn lemma_flown_stays(s: LoopState, steps: Seq<LoopStep>, k: Seq<char>, n: int)
    requires
        s.fired.contains(k),
        forall|p: int| 0 <= p < n && p < steps.len() ==> !poll_forgets(#[trigger] steps[p], k),
    ensures
        forall|p: int| 0 <= p <= n && p < run_flights(s, steps).len() ==> #[trigger] run_flights(s, steps)[p] != Some(k),
    decreases steps.len(),
{
    if steps.len() > 0 {
        match loop_step(s, steps[0]) {
            None => {},
            Some((s1, fl)) => {
                match steps[0] {
                    LoopStep::Poll { now, queue } => {
                        if n > 0 {
                            lemma_kept_young(s.fired, now, k);
                        }
                    },
                    LoopStep::Tick { now, mute_until, overlay_open, verdicts, window_opened } => {
                        if !tick_blocked(mute_until, now, overlay_open) {
                            a_tick_opens_one_due_new_flyby(s.queue, s.fired, s.retries, now, verdicts, k);
                            match tick_spec(s.queue, s.fired, s.retries, now, verdicts) {
                                Some((f2, _, Some(i))) => {
                                    lemma_mark_keeps(f2, s.queue[i].1.key, k);
                                },
                                _ => {},
                            }
                        }
                    },
                }
                assert(fl != Some(k));
                let rest = steps.drop_first();
                if n > 0 {
                    assert(s1.fired.contains(k));
                    assert forall|p: int| 0 <= p < n - 1 && p < rest.len() implies !poll_forgets(
                        #[trigger] rest[p],
                        k,
                    ) by {
                        assert(rest[p] == steps[p + 1]);
                    }
                    lemma_flown_stays(s1, rest, k, n - 1);
                }
                assert forall|p: int| 0 <= p <= n && p < run_flights(s, steps).len() implies #[trigger] run_flights(
                    s,
                    steps,
                )[p] != Some(k) by {
                    if p > 0 {
                        assert(run_flights(s, steps)[p] == run_flights(s1, rest)[p - 1]);
                    }
                }
            },
        }
    }
}

/// A meeting flies at most once while it is under a day old: in any run of
/// the loop, between two flights of the same key lies a poll at which that
/// key was forgotten, its meeting a day old.
pub proof fn a_meeting_flies_once_a_day(s: LoopState, steps: Seq<LoopStep>, a: int, b: int, k: Seq<char>)
    requires
        0 <= a < b < run_flights(s, steps).len(),
        run_flights(s, steps)[a] == Some(k),
        run_flights(s, steps)[b] == Some(k),
    ensures
        exists|p: int| a < p < b && #[trigger] poll_forgets(steps[p], k),
    decreases steps.len(),
{
    let (s1, fl) = loop_step(s, steps[0])->0;
    let rest = steps.drop_first();
    assert(run_flights(s, steps) == seq![fl] + run_flights(s1, rest));
    assert(run_flights(s, steps)[b] == run_flights(s1, rest)[b - 1]);
    if a == 0 {
        if !(exists|p: int| a < p < b && #[trigger] poll_forgets(steps[p], k)) {
            match steps[0] {
                LoopStep::Tick { now, mute_until, overlay_open, verdicts, window_opened } => {
                    match tick_spec(s.queue, s.fired, s.retries, now, verdicts) {
                        Some((f2, _, Some(i))) => {
                            lemma_mark_keeps(f2, s.queue[i].1.key, k);
                        },
                        _ => {},
                    }
                },
                _ => {},
            }
            assert(s1.fired.contains(k));
            assert forall|p: int| 0 <= p < b - 1 && p < rest.len() implies !poll_forgets(#[trigger] rest[p], k) by {
                assert(rest[p] == steps[p + 1]);
            }
            lemma_flown_stays(s1, rest, k, b - 1);
        }
    } else {
        assert(run_flights(s, steps)[a] == run_flights(s1, rest)[a - 1]);
        a_meeting_flies_once_a_day(s1, rest, a - 1, b - 1, k);
        let p = choose|p: int| a - 1 < p < b - 1 && #[trigger] poll_forgets(rest[p], k);
        lemma_run_len(s, steps);
        assert(rest[p] == steps[p + 1]);
    }
}

} // verus!
