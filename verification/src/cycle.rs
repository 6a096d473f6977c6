//! The cycle that decides how much sand the pile wants: the endless round of filling,
//! sinking and pausing, or a timer that fills the pile over a period.
//!
//! Times are milliseconds on a clock that only moves forward. The shares of a full pile
//! that are fractions of it (the opening dusting and spread, a timer's progress) come
//! in worked out, in a `Quota`.
use vstd::prelude::*;

use crate::rng::{Rng, advance, below_from, draw, lemma_scale_below};
use crate::text::{chars_of, read_unsigned, same_text, unsigned_value};

verus! {

/// Grains added on each dribble.
pub const DRIBBLE_GRAINS: usize = 3;

/// Grains a nudge adds.
pub const NUDGE_GRAINS: usize = 5;

/// The shortest and the longest wait between dribbles, in milliseconds.
pub const DRIBBLE_GAP_LOW: u64 = 1_000;
pub const DRIBBLE_GAP_HIGH: u64 = 5_000;

/// How long each step of the sway lasts, in milliseconds.
pub const SWAY_STEP: u64 = 50;

/// How long the emptied floor stays empty before the next round, in milliseconds.
pub const EMPTY_PAUSE: u64 = 600;

/// What the cycle wants done with the pile.
#[derive(Clone, Copy, PartialEq, Eq, Debug, Structural)]
pub enum Want {
    /// Pour until the pile holds this many grains.
    Sand(usize),
    /// Pull the floor out, and draw the pile this many columns off centre.
    Drain(isize),
    Nothing,
}

/// What the cycle is told of the pile.
#[derive(Clone, Copy)]
pub struct Pile {
    pub filled: usize,
    pub resting: bool,
}

/// The amounts that are shares of a full pile: all of it, the least an opening asks for,
/// how far above that an opening may reach, and what a timer asks for now.
#[derive(Clone, Copy)]
pub struct Quota {
    pub full: usize,
    pub dusting: usize,
    pub spread: usize,
    pub timed: usize,
}

/// Where the endless round is.
#[derive(Clone, Copy, PartialEq, Eq, Debug, Structural)]
pub enum Phase {
    Filling,
    /// Sinking since this time.
    Draining(u64),
    /// Empty since this time.
    Waiting(u64),
}

/// The default cycle: fill to full, sink the pile, open again with a fresh handful.
pub struct Endless {
    goal: usize,
    grew: u64,
    gap: u64,
    phase: Phase,
}

/// The state of an endless round: the grains it asks for, when they last grew, how long
/// until they grow again, and the phase.
pub struct EndlessView {
    pub goal: nat,
    pub grew: u64,
    pub gap: u64,
    pub phase: Phase,
}

impl View for Endless {
    type V = EndlessView;

    closed spec fn view(&self) -> EndlessView {
        EndlessView { goal: self.goal as nat, grew: self.grew, gap: self.gap, phase: self.phase }
    }
}

/// The wait before the next dribble, drawn by a generator in state `rng`.
pub open spec fn gap_from(rng: u64) -> u64 {
    (DRIBBLE_GAP_LOW + below_from(rng, (DRIBBLE_GAP_HIGH - DRIBBLE_GAP_LOW + 1) as usize)) as u64
}

/// A round opened at `now`, asking for `dusting` grains and a draw below `spread` more,
/// and the generator's state after it.
pub open spec fn opening_from(now: u64, dusting: usize, spread: usize, rng: u64) -> (EndlessView, u64) {
    let span = if spread > 1 { spread } else { 1usize };
    let goal = dusting + below_from(rng, span);
    let r1 = advance(rng);
    (EndlessView { goal: goal as nat, grew: now, gap: gap_from(r1), phase: Phase::Filling }, advance(r1))
}

/// The column offset the sinking pile is drawn at after `spent` milliseconds: it shakes
/// as one body, right, back, left, back.
pub open spec fn sway_at(spent: u64) -> isize {
    let step = (spent / SWAY_STEP) % 4;
    if step == 1 {
        1
    } else if step == 3 {
        -1isize
    } else {
        0
    }
}

/// `now - since`, or 0 if `since` is later.
pub open spec fn since(now: u64, then: u64) -> u64 {
    if now >= then {
        (now - then) as u64
    } else {
        0
    }
}

/// One step of the endless round at `now`: the round after it, the generator's state,
/// and what it wants.
pub open spec fn endless_step(e: EndlessView, now: u64, q: Quota, pile: Pile, rng: u64) -> (EndlessView, u64, Want) {
    match e.phase {
        Phase::Filling => {
            let grows = since(now, e.grew) >= e.gap;
            let e1 = if grows {
                EndlessView { goal: (e.goal + DRIBBLE_GRAINS) as nat, grew: now, gap: gap_from(rng), ..e }
            } else {
                e
            };
            let r1 = if grows { advance(rng) } else { rng };
            if pile.filled >= q.full && pile.resting {
                (EndlessView { phase: Phase::Draining(now), ..e1 }, r1, Want::Drain(0))
            } else {
                (e1, r1, Want::Sand(e1.goal as usize))
            }
        },
        Phase::Draining(start) => {
            if pile.filled > 0 {
                (e, rng, Want::Drain(sway_at(since(now, start))))
            } else {
                (EndlessView { phase: Phase::Waiting(now), ..e }, rng, Want::Nothing)
            }
        },
        Phase::Waiting(start) => {
            if since(now, start) < EMPTY_PAUSE {
                (e, rng, Want::Nothing)
            } else {
                let (opened, r1) = opening_from(now, q.dusting, q.spread, rng);
                (opened, r1, Want::Sand(opened.goal as usize))
            }
        },
    }
}

/// Whether a step at `now` adds a dribble: the round is filling and its wait has passed.
pub open spec fn grows(e: EndlessView, now: u64) -> bool {
    e.phase == Phase::Filling && since(now, e.grew) >= e.gap
}

/// Whether a step at `now` fits its goal in a `usize`: a dribble only comes while filling.
pub open spec fn step_fits(e: EndlessView, now: u64) -> bool {
    grows(e, now) ==> e.goal + DRIBBLE_GRAINS <= usize::MAX
}

/// Whether a nudge fits the goal in a `usize`: a nudge only adds while filling.
pub open spec fn nudge_fits(e: EndlessView) -> bool {
    e.phase == Phase::Filling ==> e.goal + NUDGE_GRAINS <= usize::MAX
}

/// The goal after a nudge: more, but never past full.
pub open spec fn nudged(e: EndlessView, full: usize) -> EndlessView {
    match e.phase {
        Phase::Filling => EndlessView {
            goal: if e.goal + NUDGE_GRAINS <= full { (e.goal + NUDGE_GRAINS) as nat } else { full as nat },
            ..e
        },
        _ => e,
    }
}

/// The wait before a dribble lies between one and five seconds.
pub proof fn lemma_gap_bounds(rng: u64)
    ensures
        DRIBBLE_GAP_LOW <= gap_from(rng) <= DRIBBLE_GAP_HIGH,
{
    lemma_scale_below(draw(rng), (DRIBBLE_GAP_HIGH - DRIBBLE_GAP_LOW + 1) as usize);
}

/// An endless round's wait is one a dribble can have.
pub open spec fn endless_wf(e: EndlessView) -> bool {
    DRIBBLE_GAP_LOW <= e.gap <= DRIBBLE_GAP_HIGH
}

/// Every step keeps an endless round's wait between one and five seconds, and no sand
/// arrives sooner than the shortest wait after the last: while the round is filling and
/// less than `DRIBBLE_GAP_LOW` has passed since the goal last grew, it does not grow.
pub proof fn lemma_dribble_waits(e: EndlessView, now: u64, q: Quota, pile: Pile, rng: u64)
    requires
        endless_wf(e),
    ensures
        endless_wf(endless_step(e, now, q, pile, rng).0),
        e.phase == Phase::Filling && since(now, e.grew) < DRIBBLE_GAP_LOW ==> endless_step(
            e,
            now,
            q,
            pile,
            rng,
        ).0.goal == e.goal,
{
    lemma_gap_bounds(rng);
    lemma_gap_bounds(advance(rng));
}

/// A filling round collapses only once the pile is full and nothing in it moves.
pub proof fn lemma_collapse_waits_for_rest(e: EndlessView, now: u64, q: Quota, pile: Pile, rng: u64)
    requires
        e.phase == Phase::Filling,
    ensures
        endless_step(e, now, q, pile, rng).2 is Drain ==> pile.filled >= q.full && pile.resting,
{
}

/// A nudge asks for more but never past full, and does nothing unless the round is filling.
pub proof fn lemma_nudge_caps(e: EndlessView, full: usize)
    ensures
        e.phase == Phase::Filling ==> nudged(e, full).goal == if e.goal + NUDGE_GRAINS <= full {
            e.goal + NUDGE_GRAINS
        } else {
            full as int
        },
        e.phase == Phase::Filling ==> nudged(e, full).goal <= full,
        e.phase != Phase::Filling ==> nudged(e, full) == e,
{
}

/// Dribbles come one to five seconds apart. Once a step grows a filling round's goal, no
/// step less than `DRIBBLE_GAP_LOW` later grows it again, whatever the pile and the
/// generator; and a filling round that has not grown for `DRIBBLE_GAP_HIGH` grows at its
/// next step, by `DRIBBLE_GRAINS`.
pub proof fn lemma_dribbles_are_spaced(
    e: EndlessView,
    now1: u64,
    now2: u64,
    q: Quota,
    pile1: Pile,
    pile2: Pile,
    rng1: u64,
    rng2: u64,
)
    requires
        endless_wf(e),
    ensures
        ({
            let e1 = endless_step(e, now1, q, pile1, rng1).0;
            &&& e.phase == Phase::Filling && e1.goal > e.goal && now2 < now1 + DRIBBLE_GAP_LOW
                ==> endless_step(e1, now2, q, pile2, rng2).0.goal == e1.goal
            &&& e.phase == Phase::Filling && since(now1, e.grew) >= DRIBBLE_GAP_HIGH ==> e1.goal == e.goal
                + DRIBBLE_GRAINS
        }),
{
    lemma_gap_bounds(rng1);
    lemma_dribble_waits(e, now1, q, pile1, rng1);
    let e1 = endless_step(e, now1, q, pile1, rng1).0;
    lemma_dribble_waits(e1, now2, q, pile2, rng2);
}

/// The emptied floor stays empty for `EMPTY_PAUSE`: until then a waiting round answers
/// `Nothing` and changes nothing. From then on it opens a new filling round, timed from
/// now, asking for between `dusting` and `dusting + spread` grains (below the top when
/// there is a spread), and answers with that goal.
pub proof fn lemma_pause_then_reopen(e: EndlessView, start: u64, now: u64, q: Quota, pile: Pile, rng: u64)
    requires
        e.phase == Phase::Waiting(start),
        q.dusting + q.spread <= usize::MAX,
    ensures
        since(now, start) < EMPTY_PAUSE ==> endless_step(e, now, q, pile, rng) == (e, rng, Want::Nothing),
        since(now, start) >= EMPTY_PAUSE ==> ({
            let (e1, r1, w) = endless_step(e, now, q, pile, rng);
            &&& e1.phase == Phase::Filling
            &&& e1.grew == now
            &&& endless_wf(e1)
            &&& q.dusting <= e1.goal <= q.dusting + q.spread
            &&& (q.spread > 0 ==> e1.goal < q.dusting + q.spread)
            &&& w == Want::Sand(e1.goal as usize)
        }),
{
    let span = if q.spread > 1 { q.spread } else { 1usize };
    lemma_scale_below(draw(rng), span);
    lemma_gap_bounds(advance(rng));
}

/// A sinking round keeps pulling the floor out while the pile holds grains, drawing it at
/// most one column off centre, and changes nothing else; once the pile is empty it
/// answers `Nothing` and waits from now.
pub proof fn lemma_drain_until_empty(e: EndlessView, start: u64, now: u64, q: Quota, pile: Pile, rng: u64)
    requires
        e.phase == Phase::Draining(start),
    ensures
        pile.filled > 0 ==> ({
            let (e1, r1, w) = endless_step(e, now, q, pile, rng);
            &&& e1 == e
            &&& r1 == rng
            &&& w matches Want::Drain(o) && -1 <= o <= 1
        }),
        pile.filled == 0 ==> endless_step(e, now, q, pile, rng) == (EndlessView { phase: Phase::Waiting(now), ..e }, rng, Want::Nothing),
{
    lemma_sway_steps(since(now, start));
}

/// The sinking pile shakes right, back, left, back, a quarter of every 200 ms each: no
/// offset for the first 50 ms of each 200, one column right for the next 50, none for the
/// next, one column left for the last.
pub proof fn lemma_sway_steps(spent: u64)
    ensures
        -1 <= sway_at(spent) <= 1,
        spent % 200 < 50 ==> sway_at(spent) == 0,
        50 <= spent % 200 < 100 ==> sway_at(spent) == 1,
        100 <= spent % 200 < 150 ==> sway_at(spent) == 0,
        150 <= spent % 200 ==> sway_at(spent) == -1,
        spent + 200 <= u64::MAX ==> sway_at((spent + 200) as u64) == sway_at(spent),
{
    let t = spent as int;
    let q = t / 200;
    let r = t % 200;
    assert(t == 200 * q + r);
    assert(t / 50 == 4 * q + r / 50);
    assert((4 * q + r / 50) % 4 == r / 50);
    assert((t + 200) / 50 == 4 * (q + 1) + r / 50);
    assert((4 * (q + 1) + r / 50) % 4 == r / 50);
}

/// Draws the wait before the next dribble.
pub fn next_gap(rng: &mut Rng) -> (gap: u64)
    ensures
        final(rng)@ == advance(old(rng)@),
        gap == gap_from(old(rng)@),
        DRIBBLE_GAP_LOW <= gap <= DRIBBLE_GAP_HIGH,
{
    let wait = rng.below((DRIBBLE_GAP_HIGH - DRIBBLE_GAP_LOW + 1) as usize);
    DRIBBLE_GAP_LOW + wait as u64
}

/// Nothing moves within the sand, so the pile shakes as one body.
pub fn sway(spent: u64) -> (offset: isize)
    ensures
        offset == sway_at(spent),
{
    let step = (spent / SWAY_STEP) % 4;
    if step == 1 {
        1
    } else if step == 3 {
        -1
    } else {
        0
    }
}

impl Endless {
    /// A fresh round at `now`, asking for between `dusting` and `dusting + spread` grains.
    pub fn opening(now: u64, dusting: usize, spread: usize, rng: &mut Rng) -> (e: Self)
        requires
            dusting + spread <= usize::MAX,
        ensures
            (e@, final(rng)@) == opening_from(now, dusting, spread, old(rng)@),
            dusting <= e@.goal <= dusting + spread,
            spread > 0 ==> e@.goal < dusting + spread,
    {
        let span = if spread > 1 {
            spread
        } else {
            1
        };
        let goal = dusting + rng.below(span);
        Endless { goal, grew: now, gap: next_gap(rng), phase: Phase::Filling }
    }

    /// The grains this round asks for.
    pub fn goal(&self) -> (g: usize)
        ensures
            g == self@.goal,
    {
        self.goal
    }

    fn want(&mut self, now: u64, q: Quota, pile: Pile, rng: &mut Rng) -> (w: Want)
        requires
            step_fits(old(self)@, now),
            q.dusting + q.spread <= usize::MAX,
        ensures
            (final(self)@, final(rng)@, w) == endless_step(old(self)@, now, q, pile, old(rng)@),
    {
        match self.phase {
            Phase::Filling => {
                if now.saturating_sub(self.grew) >= self.gap {
                    self.goal = self.goal + DRIBBLE_GRAINS;
                    self.grew = now;
                    self.gap = next_gap(rng);
                }
                // Sand still in the air would look like the floor gave way early.
                if pile.filled >= q.full && pile.resting {
                    self.phase = Phase::Draining(now);
                    return Want::Drain(0);
                }
                Want::Sand(self.goal)
            },
            Phase::Draining(start) => {
                if pile.filled > 0 {
                    return Want::Drain(sway(now.saturating_sub(start)));
                }
                self.phase = Phase::Waiting(now);
                Want::Nothing
            },
            Phase::Waiting(start) => {
                if now.saturating_sub(start) < EMPTY_PAUSE {
                    return Want::Nothing;
                }
                *self = Self::opening(now, q.dusting, q.spread, rng);
                Want::Sand(self.goal)
            },
        }
    }

    fn nudge(&mut self, full: usize)
        requires
            nudge_fits(old(self)@),
        ensures
            final(self)@ == nudged(old(self)@, full),
    {
        if self.phase == Phase::Filling {
            let more = self.goal + NUDGE_GRAINS;
            self.goal = if more <= full {
                more
            } else {
                full
            };
        }
    }
}

/// Which cycle runs.
pub enum Cycle {
    Endless(Endless),
    /// Fills the pile over `period` milliseconds from `start`, a wall-clock time in
    /// milliseconds; how far it has got comes in as `Quota::timed`.
    Timer { period: u64, start: u64 },
}

/// The state of a cycle.
pub enum CycleView {
    Endless(EndlessView),
    Timer { period: u64, start: u64 },
}

impl View for Cycle {
    type V = CycleView;

    open spec fn view(&self) -> CycleView {
        match self {
            Cycle::Endless(e) => CycleView::Endless(e@),
            Cycle::Timer { period, start } => CycleView::Timer { period: *period, start: *start },
        }
    }
}

/// Whether a step of the cycle at `now` keeps its goal in a `usize`.
pub open spec fn cycle_step_fits(c: CycleView, now: u64) -> bool {
    match c {
        CycleView::Endless(e) => step_fits(e, now),
        CycleView::Timer { .. } => true,
    }
}

/// Whether a nudge keeps the cycle's goal in a `usize`.
pub open spec fn cycle_nudge_fits(c: CycleView) -> bool {
    match c {
        CycleView::Endless(e) => nudge_fits(e),
        CycleView::Timer { .. } => true,
    }
}

/// The most sand a cycle wants right now.
pub open spec fn asked_of(c: CycleView, q: Quota) -> usize {
    match c {
        CycleView::Endless(e) => if e.goal <= q.full { e.goal as usize } else { q.full },
        CycleView::Timer { .. } => q.timed,
    }
}

/// What a cycle asks for never passes a full pile: an endless round asks for its goal, or
/// for a full pile once the goal has grown past it; a timer asks for what its progress
/// comes to.
pub proof fn lemma_asked_caps_at_full(c: CycleView, q: Quota)
    ensures
        c is Endless ==> asked_of(c, q) <= q.full,
        c is Endless && c->Endless_0.goal <= q.full ==> asked_of(c, q) == c->Endless_0.goal,
        c is Endless && c->Endless_0.goal > q.full ==> asked_of(c, q) == q.full,
        c is Timer ==> asked_of(c, q) == q.timed,
{
}

/// One step of a cycle at `now`: the cycle after it, the generator's state, and what it
/// wants. A timer asks for what its progress comes to and changes nothing.
pub open spec fn cycle_step(c: CycleView, now: u64, q: Quota, pile: Pile, rng: u64) -> (CycleView, u64, Want) {
    match c {
        CycleView::Endless(e) => {
            let (e1, r1, w) = endless_step(e, now, q, pile, rng);
            (CycleView::Endless(e1), r1, w)
        },
        CycleView::Timer { .. } => (c, rng, Want::Sand(q.timed)),
    }
}

impl Cycle {
    pub fn takes_input(&self) -> (r: bool)
        ensures
            r == (self@ is Endless),
    {
        match self {
            Cycle::Endless(_) => true,
            Cycle::Timer { .. } => false,
        }
    }

    /// Whether a step at `now` keeps the goal in a `usize`.
    pub fn can_step(&self, now: u64) -> (r: bool)
        ensures
            r == cycle_step_fits(self@, now),
    {
        match self {
            Cycle::Endless(e) => !(e.phase == Phase::Filling && now.saturating_sub(e.grew) >= e.gap)
                || e.goal <= usize::MAX - DRIBBLE_GRAINS,
            Cycle::Timer { .. } => true,
        }
    }

    /// Whether a nudge keeps the goal in a `usize`.
    pub fn can_nudge(&self) -> (r: bool)
        ensures
            r == cycle_nudge_fits(self@),
    {
        match self {
            Cycle::Endless(e) => e.phase != Phase::Filling || e.goal <= usize::MAX - NUDGE_GRAINS,
            Cycle::Timer { .. } => true,
        }
    }

    pub fn want(&mut self, now: u64, q: Quota, pile: Pile, rng: &mut Rng) -> (w: Want)
        requires
            cycle_step_fits(old(self)@, now),
            q.dusting + q.spread <= usize::MAX,
        ensures
            (final(self)@, final(rng)@, w) == cycle_step(old(self)@, now, q, pile, old(rng)@),
            match old(self)@ {
                CycleView::Endless(e) => ({
                    let (e1, r1, w1) = endless_step(e, now, q, pile, old(rng)@);
                    final(self)@ == CycleView::Endless(e1) && final(rng)@ == r1 && w == w1
                }),
                CycleView::Timer { .. } => final(self)@ == old(self)@ && final(rng)@ == old(rng)@
                    && w == Want::Sand(q.timed),
            },
    {
        match self {
            Cycle::Endless(endless) => endless.want(now, q, pile, rng),
            Cycle::Timer { .. } => Want::Sand(q.timed),
        }
    }

    /// The most sand this cycle wants right now, for capping a resized pile.
    pub fn asked(&self, q: Quota) -> (n: usize)
        ensures
            n == asked_of(self@, q),
    {
        match self {
            Cycle::Endless(endless) => if endless.goal <= q.full {
                endless.goal
            } else {
                q.full
            },
            Cycle::Timer { .. } => q.timed,
        }
    }

    pub fn nudge(&mut self, full: usize)
        requires
            cycle_nudge_fits(old(self)@),
        ensures
            match old(self)@ {
                CycleView::Endless(e) => final(self)@ == CycleView::Endless(nudged(e, full)),
                CycleView::Timer { .. } => final(self)@ == old(self)@,
            },
    {
        match self {
            Cycle::Endless(endless) => endless.nudge(full),
            Cycle::Timer { .. } => {},
        }
    }
}

/// How a duration text reads: seconds, or a complaint; `None` where reading it would cut
/// into a character (the unit must be a one-byte character) or the seconds overflow.
/// The text is a count and a unit: `s`, `m` or `h`.
pub open spec fn duration_reading(t: Seq<char>) -> Option<Result<nat, Seq<char>>> {
    if t.len() > 0 && (t.last() as u32) >= 128 {
        None
    } else {
        let scale: nat = if t.len() > 0 && t.last() == 's' {
            1
        } else if t.len() > 0 && t.last() == 'm' {
            60
        } else if t.len() > 0 && t.last() == 'h' {
            3600
        } else {
            0
        };
        if scale == 0 {
            Some(Err(t + " needs a unit: 90s, 25m or 1h"@))
        } else {
            match unsigned_value(t.drop_last(), 10, u64::MAX as nat) {
                None => Some(Err(t + " needs a number before the unit"@)),
                Some(count) => if count == 0 {
                    Some(Err(t + " is not long enough to watch"@))
                } else if count * scale > u64::MAX {
                    None
                } else {
                    Some(Ok(count * scale))
                },
            }
        }
    }
}

/// How the arguments from `i` on read, a period of `period` seconds read so far: the
/// period, or a complaint; `None` where a duration does not read.
pub open spec fn args_reading(args: Seq<Seq<char>>, i: int, period: Option<nat>) -> Option<Result<Option<nat>, Seq<char>>>
    decreases args.len() - i,
{
    if i >= args.len() || i < 0 {
        Some(Ok(period))
    } else if args[i] == "--timer"@ {
        if i + 1 >= args.len() {
            Some(Err("--timer wants a duration, e.g. 25m"@))
        } else {
            match duration_reading(args[i + 1]) {
                None => None,
                Some(Err(m)) => Some(Err(m)),
                Some(Ok(secs)) => args_reading(args, i + 2, Some(secs)),
            }
        }
    } else {
        Some(Err("unknown argument "@ + args[i]))
    }
}

/// The texts of the arguments.
pub open spec fn texts(args: Seq<String>) -> Seq<Seq<char>> {
    args.map_values(|a: String| a@)
}

/// `text` followed by `tail`.
fn joined(text: &str, tail: &str) -> (s: String)
    ensures
        s@ == text@ + tail@,
{
    let mut s = String::from_str(text);
    s.append(tail);
    s
}

/// Reads a duration such as `90s`, `25m` or `1h`, in seconds; `None` where the text cuts
/// a character at its unit or the seconds overflow.
pub fn read_duration(text: &str) -> (r: Option<Result<u64, String>>)
    ensures
        match duration_reading(text@) {
            None => r is None,
            Some(Ok(secs)) => r matches Some(Ok(v)) && v == secs,
            Some(Err(m)) => r matches Some(Err(e)) && e@ == m,
        },
{
    let chars = chars_of(text);
    let n = chars.len();
    if n > 0 && (chars[n - 1] as u32) >= 128 {
        return None;
    }
    let scale: u64 = if n > 0 && chars[n - 1] == 's' {
        1
    } else if n > 0 && chars[n - 1] == 'm' {
        60
    } else if n > 0 && chars[n - 1] == 'h' {
        3600
    } else {
        0
    };
    if scale == 0 {
        return Some(Err(joined(text, " needs a unit: 90s, 25m or 1h")));
    }
    proof {
        assert(chars@.subrange(0, n - 1) =~= text@.drop_last());
    }
    match read_unsigned(&chars, 0, n - 1, 10, u64::MAX) {
        None => Some(Err(joined(text, " needs a number before the unit"))),
        Some(count) => {
            if count == 0 {
                Some(Err(joined(text, " is not long enough to watch")))
            } else {
                match count.checked_mul(scale) {
                    Some(secs) => Some(Ok(secs)),
                    None => None,
                }
            }
        },
    }
}

/// Reads a duration such as `90s`, `25m` or `1h`, in seconds.
pub fn parse_duration(text: &str) -> (r: Result<u64, String>)
    requires
        duration_reading(text@) is Some,
    ensures
        match duration_reading(text@) {
            Some(Ok(secs)) => r matches Ok(v) && v == secs,
            Some(Err(m)) => r matches Err(e) && e@ == m,
            None => false,
        },
{
    match read_duration(text) {
        Some(r) => r,
        None => Err(String::new()),
    }
}

/// Reads `--timer <dur>`: the period in seconds, or none for the endless pile; `None`
/// where a duration does not read.
pub fn read_timer_args(args: &Vec<String>) -> (r: Option<Result<Option<u64>, String>>)
    ensures
        match args_reading(texts(args@), 0, None) {
            None => r is None,
            Some(Ok(p)) => r matches Some(Ok(v)) && (match p {
                None => v is None,
                Some(secs) => v == Some(secs as u64),
            }),
            Some(Err(m)) => r matches Some(Err(e)) && e@ == m,
        },
{
    let ghost all = texts(args@);
    let mut period: Option<u64> = None;
    let mut i: usize = 0;
    while i < args.len()
        invariant
            all == texts(args@),
            i <= args@.len() + 1,
            args_reading(all, 0, None) == args_reading(all, i as int, match period {
                None => None,
                Some(p) => Some(p as nat),
            }),
        decreases args@.len() + 1 - i,
    {
        let arg = args[i].as_str();
        if same_text(arg, "--timer") {
            if i + 1 >= args.len() {
                return Some(Err(String::from_str("--timer wants a duration, e.g. 25m")));
            }
            match read_duration(args[i + 1].as_str()) {
                None => {
                    return None;
                },
                Some(Err(m)) => {
                    return Some(Err(m));
                },
                Some(Ok(secs)) => {
                    period = Some(secs);
                },
            }
            i = i + 2;
        } else {
            return Some(Err(joined("unknown argument ", arg)));
        }
    }
    Some(Ok(period))
}

/// Reads `--timer <dur>`; without it the cycle is the endless pile.
pub fn timer_from_args(args: &Vec<String>) -> (r: Result<Option<u64>, String>)
    requires
        args_reading(texts(args@), 0, None) is Some,
    ensures
        match args_reading(texts(args@), 0, None) {
            Some(Ok(p)) => r matches Ok(v) && (match p {
                None => v is None,
                Some(secs) => v == Some(secs as u64),
            }),
            Some(Err(m)) => r matches Err(e) && e@ == m,
            None => false,
        },
{
    match read_timer_args(args) {
        Some(r) => r,
        None => Err(String::new()),
    }
}

} // verus!
