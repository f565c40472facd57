//! The playback transport: cursor time, speed ladder, play and pause. It advances by the time it
//! is given and never reads a clock.

use vstd::prelude::*;

use crate::time::Nanos;

verus! {

/// The number of rungs of the speed ladder.
pub const RUNGS: usize = 6;

/// The rung a transport starts on: real time.
pub const DEFAULT_RUNG: usize = 2;

/// The speed of a rung as a fraction: 0.1, 0.5, 1, 2, 5 and 10 times real time.
pub open spec fn rung_ratio(rung: int) -> (u64, u64) {
    if rung == 0 {
        (1, 10)
    } else if rung == 1 {
        (1, 2)
    } else if rung == 2 {
        (1, 1)
    } else if rung == 3 {
        (2, 1)
    } else if rung == 4 {
        (5, 1)
    } else {
        (10, 1)
    }
}

/// What a transport says.
pub struct TransportModel {
    pub start: Nanos,
    pub end: Nanos,
    pub cursor: Nanos,
    pub rung: int,
    pub playing: bool,
}

impl TransportModel {
    /// A paused transport at `start` in real time.
    pub open spec fn fresh(start: Nanos, end: Nanos) -> TransportModel {
        TransportModel { start, end, cursor: start, rung: DEFAULT_RUNG as int, playing: false }
    }

    /// The cursor lies between the ends.
    pub open spec fn in_bounds(self) -> bool {
        self.start.0 <= self.cursor.0 <= self.end.0
    }

    /// With play and pause swapped. Playing from the end starts over.
    pub open spec fn toggled(self) -> TransportModel {
        if self.playing {
            TransportModel { playing: false, ..self }
        } else if self.cursor.0 >= self.end.0 {
            TransportModel { cursor: self.start, playing: true, ..self }
        } else {
            TransportModel { playing: true, ..self }
        }
    }

    /// One rung up, as far as there is one.
    pub open spec fn up(self) -> TransportModel {
        TransportModel {
            rung: if self.rung + 1 < RUNGS {
                self.rung + 1
            } else {
                RUNGS - 1
            },
            ..self
        }
    }

    /// One rung down, as far as there is one.
    pub open spec fn down(self) -> TransportModel {
        TransportModel {
            rung: if self.rung > 0 {
                self.rung - 1
            } else {
                0
            },
            ..self
        }
    }

    /// With the cursor at `t`, or at the end that is nearer if `t` lies outside.
    pub open spec fn at(self, t: int) -> TransportModel {
        TransportModel {
            cursor: if t < self.start.0 {
                self.start
            } else if t > self.end.0 {
                self.end
            } else {
                Nanos(t as u64)
            },
            ..self
        }
    }

    /// How far a seek goes: a fiftieth of the whole, and at least a nanosecond.
    pub open spec fn stride(self) -> int {
        let span = self.end.0 - self.start.0;
        if span / 50 < 1 {
            1
        } else {
            span / 50
        }
    }

    /// With the cursor one stride on or back, as far as it goes.
    pub open spec fn sought(self, forward: bool) -> TransportModel {
        if forward {
            self.at(self.cursor.0 + self.stride())
        } else {
            self.at(self.cursor.0 - self.stride())
        }
    }

    /// After `dt` of real time: a playing cursor goes on at its speed up to the end, and pauses
    /// there.
    pub open spec fn ticked(self, dt: Nanos) -> TransportModel {
        if !self.playing {
            self
        } else {
            let (num, den) = rung_ratio(self.rung);
            let next = self.cursor.0 + (dt.0 * num) / (den as int);
            if next >= self.end.0 {
                TransportModel { cursor: self.end, playing: false, ..self }
            } else {
                TransportModel { cursor: Nanos(next as u64), ..self }
            }
        }
    }
}

/// Cursor, speed and play state over the time from `start` to `end`.
#[derive(Debug)]
pub struct Transport {
    start: Nanos,
    end: Nanos,
    cursor: Nanos,
    rung: usize,
    playing: bool,
}

impl View for Transport {
    type V = TransportModel;

    closed spec fn view(&self) -> TransportModel {
        TransportModel {
            start: self.start,
            end: self.end,
            cursor: self.cursor,
            rung: self.rung as int,
            playing: self.playing,
        }
    }
}

impl Transport {
    #[verifier::type_invariant]
    spec fn on_ladder(self) -> bool {
        self.rung < RUNGS
    }

    /// A paused transport at `start` in real time.
    #[must_use]
    pub fn new(start: Nanos, end: Nanos) -> (res: Transport)
        ensures
            res@ == TransportModel::fresh(start, end),
    {
        Transport { start, end, cursor: start, rung: DEFAULT_RUNG, playing: false }
    }

    /// The cursor.
    #[must_use]
    pub fn cursor(&self) -> (res: Nanos)
        ensures
            res == self@.cursor,
    {
        self.cursor
    }

    /// The speed as a fraction of real time.
    #[must_use]
    pub fn speed(&self) -> (res: (u64, u64))
        ensures
            0 <= self@.rung < RUNGS,
            res == rung_ratio(self@.rung),
    {
        proof {
            use_type_invariant(self);
        }
        match self.rung {
            0 => (1, 10),
            1 => (1, 2),
            2 => (1, 1),
            3 => (2, 1),
            4 => (5, 1),
            _ => (10, 1),
        }
    }

    /// Whether the cursor moves by itself.
    #[must_use]
    pub fn is_playing(&self) -> (res: bool)
        ensures
            res == self@.playing,
    {
        self.playing
    }

    /// The ends of the time covered.
    #[must_use]
    pub fn bounds(&self) -> (res: (Nanos, Nanos))
        ensures
            res == (self@.start, self@.end),
    {
        (self.start, self.end)
    }

    /// Swaps play and pause. Playing from the end starts over.
    pub fn toggle_play(&mut self)
        ensures
            final(self)@ == old(self)@.toggled(),
    {
        proof {
            use_type_invariant(&*self);
        }
        if self.playing {
            self.playing = false;
        } else {
            if self.cursor.0 >= self.end.0 {
                self.cursor = self.start;
            }
            self.playing = true;
        }
    }

    /// Goes one rung up the speed ladder, as far as there is one.
    pub fn faster(&mut self)
        ensures
            final(self)@ == old(self)@.up(),
    {
        proof {
            use_type_invariant(&*self);
        }
        if self.rung + 1 < RUNGS {
            self.rung = self.rung + 1;
        }
    }

    /// Goes one rung down the speed ladder, as far as there is one.
    pub fn slower(&mut self)
        ensures
            final(self)@ == old(self)@.down(),
    {
        proof {
            use_type_invariant(&*self);
        }
        if self.rung > 0 {
            self.rung = self.rung - 1;
        }
    }

    /// Moves the cursor by a fiftieth of the whole, at least a nanosecond, within the ends.
    pub fn seek(&mut self, forward: bool)
        requires
            old(self)@.start.0 <= old(self)@.end.0,
        ensures
            final(self)@ == old(self)@.sought(forward),
    {
        let share: u64 = (self.end.0 - self.start.0) / 50;
        let step: u64 = if share < 1 {
            1
        } else {
            share
        };
        let next: u64 = if forward {
            self.cursor.0.saturating_add(step)
        } else {
            self.cursor.0.saturating_sub(step)
        };
        self.set_cursor(Nanos(next));
    }

    /// Sets the cursor, within the ends.
    pub fn set_cursor(&mut self, t: Nanos)
        requires
            old(self)@.start.0 <= old(self)@.end.0,
        ensures
            final(self)@ == old(self)@.at(t.0 as int),
    {
        proof {
            use_type_invariant(&*self);
        }
        if t.0 < self.start.0 {
            self.cursor = self.start;
        } else if t.0 > self.end.0 {
            self.cursor = self.end;
        } else {
            self.cursor = t;
        }
    }

    /// Lets `dt` of real time pass: a playing cursor goes on at its speed up to the end, and
    /// pauses there.
    pub fn tick(&mut self, dt: Nanos)
        ensures
            final(self)@ == old(self)@.ticked(dt),
    {
        if !self.playing {
            return;
        }
        let (num, den) = self.speed();
        let advance: u128 = dt.0 as u128 * num as u128 / den as u128;
        let next: u128 = self.cursor.0 as u128 + advance;
        if next >= self.end.0 as u128 {
            self.cursor = self.end;
            self.playing = false;
        } else {
            self.cursor = Nanos(next as u64);
        }
    }
}

/// A cursor between the ends stays there whatever is done to the transport.
pub proof fn law_cursor_stays_in_bounds(tr: TransportModel, t: int, forward: bool, dt: Nanos)
    requires
        tr.in_bounds(),
        0 <= tr.rung < RUNGS,
    ensures
        tr.toggled().in_bounds(),
        tr.up().in_bounds(),
        tr.down().in_bounds(),
        tr.at(t).in_bounds(),
        tr.sought(forward).in_bounds(),
        tr.ticked(dt).in_bounds(),
{
    let (num, den) = rung_ratio(tr.rung);
    assert(0 <= (dt.0 * num) / (den as int)) by (nonlinear_arith)
        requires
            dt.0 >= 0,
            num >= 0,
            den > 0,
    ;
}

/// Time never runs backwards, and stands still while paused.
pub proof fn law_ticks_never_rewind(tr: TransportModel, dt: Nanos)
    requires
        tr.in_bounds(),
        0 <= tr.rung < RUNGS,
    ensures
        tr.cursor.0 <= tr.ticked(dt).cursor.0,
        !tr.playing ==> tr.ticked(dt) == tr,
        tr.ticked(dt).playing ==> tr.ticked(dt).cursor.0 < tr.end.0,
{
    law_cursor_stays_in_bounds(tr, 0, true, dt);
    let (num, den) = rung_ratio(tr.rung);
    assert(0 <= (dt.0 * num) / (den as int)) by (nonlinear_arith)
        requires
            dt.0 >= 0,
            num >= 0,
            den > 0,
    ;
}

/// Going up and down again, or pausing and playing again short of the end, changes nothing.
pub proof fn law_steps_undo_each_other(tr: TransportModel)
    requires
        0 <= tr.rung < RUNGS,
    ensures
        tr.rung < RUNGS - 1 ==> tr.up().down() == tr,
        tr.rung > 0 ==> tr.down().up() == tr,
        tr.cursor.0 < tr.end.0 ==> tr.toggled().toggled() == tr,
{
}

/// Playback runs at the speed of its rung: a tenth, half, once, twice, five and ten times real time
/// from the lowest rung to the highest. Within the ends the cursor moves on by the time given at that
/// speed, rounded down; where that reaches the end it stops there.
pub proof fn law_playback_keeps_its_speed(tr: TransportModel, dt: Nanos)
    requires
        tr.playing,
        tr.in_bounds(),
        0 <= tr.rung < 6,
    ensures
        ({
            let next = tr.ticked(dt);
            let moved = next.cursor.0 - tr.cursor.0;
            let ended = next.cursor == tr.end;
            &&& next.start == tr.start && next.end == tr.end && next.rung == tr.rung
            &&& next.playing == !ended
            &&& !ended ==> {
                &&& tr.rung == 0 ==> 10 * moved <= dt.0 < 10 * (moved + 1)
                &&& tr.rung == 1 ==> 2 * moved <= dt.0 < 2 * (moved + 1)
                &&& tr.rung == 2 ==> moved == dt.0
                &&& tr.rung == 3 ==> moved == 2 * dt.0
                &&& tr.rung == 4 ==> moved == 5 * dt.0
                &&& tr.rung == 5 ==> moved == 10 * dt.0
            }
            &&& ended ==> {
                let left = tr.end.0 - tr.cursor.0;
                &&& tr.rung == 0 ==> dt.0 >= 10 * left
                &&& tr.rung == 1 ==> dt.0 >= 2 * left
                &&& tr.rung == 2 ==> dt.0 >= left
                &&& tr.rung == 3 ==> 2 * dt.0 >= left
                &&& tr.rung == 4 ==> 5 * dt.0 >= left
                &&& tr.rung == 5 ==> 10 * dt.0 >= left
            }
        }),
{
    let (num, den) = rung_ratio(tr.rung);
    let t = dt.0 as int;
    let on = (dt.0 * num) / (den as int);
    if tr.rung == 0 {
        assert(num == 1 && den == 10);
        assert(on == t / 10) by {
            assert(dt.0 * num == t) by (nonlinear_arith)
                requires
                    num == 1,
                    t == dt.0,
            ;
        }
    } else if tr.rung == 1 {
        assert(num == 1 && den == 2);
        assert(on == t / 2) by {
            assert(dt.0 * num == t) by (nonlinear_arith)
                requires
                    num == 1,
                    t == dt.0,
            ;
        }
    } else if tr.rung == 2 {
        assert(num == 1 && den == 1);
        assert(on == t) by {
            assert(dt.0 * num == t) by (nonlinear_arith)
                requires
                    num == 1,
                    t == dt.0,
            ;
        }
    } else if tr.rung == 3 {
        assert(num == 2 && den == 1);
        assert(on == 2 * t) by {
            assert(dt.0 * num == 2 * t) by (nonlinear_arith)
                requires
                    num == 2,
                    t == dt.0,
            ;
        }
    } else if tr.rung == 4 {
        assert(num == 5 && den == 1);
        assert(on == 5 * t) by {
            assert(dt.0 * num == 5 * t) by (nonlinear_arith)
                requires
                    num == 5,
                    t == dt.0,
            ;
        }
    } else {
        assert(num == 10 && den == 1);
        assert(on == 10 * t) by {
            assert(dt.0 * num == 10 * t) by (nonlinear_arith)
                requires
                    num == 10,
                    t == dt.0,
            ;
        }
    }
}

/// A transport starts paused at its first moment at real time; play and pause take turns, and play
/// from the end starts over.
pub proof fn law_play_starts_over_from_the_end(tr: TransportModel, start: Nanos, end: Nanos)
    ensures
        ({
            let new = TransportModel::fresh(start, end);
            new.cursor == start && !new.playing && new.rung == 2 && new.start == start && new.end
                == end
        }),
        tr.toggled().playing == !tr.playing,
        tr.toggled().rung == tr.rung,
        tr.toggled().cursor == (if !tr.playing && tr.cursor.0 >= tr.end.0 {
            tr.start
        } else {
            tr.cursor
        }),
        tr.toggled().start == tr.start && tr.toggled().end == tr.end,
{
}

/// Seeking moves the cursor by a fiftieth of the span and by one nanosecond at least, either way, as
/// far as the ends allow, and changes nothing else. Faster and slower move one rung each way, as far
/// as the ladder goes, and change nothing else.
pub proof fn law_seeking_moves_a_fiftieth(tr: TransportModel)
    requires
        tr.in_bounds(),
        0 <= tr.rung < 6,
    ensures
        ({
            let step = tr.sought(true).cursor.0 - tr.cursor.0;
            let back = tr.cursor.0 - tr.sought(false).cursor.0;
            let span = tr.end.0 - tr.start.0;
            let full = if span < 100 {
                1
            } else {
                span / 50
            };
            &&& step == (if tr.cursor.0 + full > tr.end.0 {
                tr.end.0 - tr.cursor.0
            } else {
                full
            })
            &&& back == (if tr.cursor.0 - full < tr.start.0 {
                tr.cursor.0 - tr.start.0
            } else {
                full
            })
            &&& tr.sought(true) == (TransportModel { cursor: tr.sought(true).cursor, ..tr })
            &&& tr.sought(false) == (TransportModel { cursor: tr.sought(false).cursor, ..tr })
            &&& tr.up() == (TransportModel {
                rung: if tr.rung == 5 {
                    5
                } else {
                    tr.rung + 1
                },
                ..tr
            })
            &&& tr.down() == (TransportModel {
                rung: if tr.rung == 0 {
                    0
                } else {
                    tr.rung - 1
                },
                ..tr
            })
        }),
{
}

/// The cursor goes where it is set, or to the nearer end.
pub proof fn law_the_cursor_goes_where_it_is_set(tr: TransportModel, t: int)
    requires
        tr.start.0 <= tr.end.0,
    ensures
        tr.start.0 <= t <= tr.end.0 ==> tr.at(t).cursor.0 == t,
        t < tr.start.0 ==> tr.at(t).cursor == tr.start,
        t > tr.end.0 ==> tr.at(t).cursor == tr.end,
        tr.at(t) == (TransportModel { cursor: tr.at(t).cursor, ..tr }),
{
}

} // verus!
