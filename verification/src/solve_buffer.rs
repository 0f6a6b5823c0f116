//! The buffer between the search and the screen. The search computes all its
//! steps at once and queues one batch of colour changes for each; the host
//! replays them later, one batch for each interval of time that has passed.
use crate::grid::GridError;
use crate::tile::{paint, painted, Color, Sprite};
use bevy::time::{Timer, TimerMode};
use std::collections::VecDeque;
use std::time::Duration;
use vstd::prelude::*;

verus! {

/// One colour change: the sprite of `sprite_entity` takes `color`.
#[derive(Clone, Copy, Debug, PartialEq, Eq, Structural)]
pub struct TileColorEvent {
    pub sprite_entity: u64,
    pub color: Color,
}

/// The sprites after the events of `batch` were applied in order.
pub open spec fn applied(sprites: Seq<Sprite>, batch: Seq<TileColorEvent>) -> Seq<Sprite>
    decreases batch.len(),
{
    if batch.len() == 0 {
        sprites
    } else {
        painted(
            applied(sprites, batch.drop_last()),
            batch.last().sprite_entity,
            batch.last().color,
        )
    }
}

/// The sprites after the batches of `batches` were applied in order.
pub open spec fn applied_all(sprites: Seq<Sprite>, batches: Seq<Seq<TileColorEvent>>) -> Seq<
    Sprite,
>
    decreases batches.len(),
{
    if batches.len() == 0 {
        sprites
    } else {
        applied(applied_all(sprites, batches.drop_last()), batches.last())
    }
}

impl TileColorEvent {
    pub fn new(sprite_entity: u64, color: Color) -> (event: TileColorEvent)
        ensures
            event == (TileColorEvent { sprite_entity, color }),
    {
        TileColorEvent { sprite_entity, color }
    }

    /// Gives the event's sprite its colour. An event whose entity the table
    /// does not hold is dropped: nothing changes, and the error says so.
    pub fn apply(self, sprites: &mut Vec<Sprite>) -> (result: Result<(), GridError>)
        ensures
            final(sprites)@ == painted(old(sprites)@, self.sprite_entity, self.color),
            self.sprite_entity < old(sprites)@.len() ==> result == Ok::<(), GridError>(()),
            self.sprite_entity >= old(sprites)@.len() ==> result == Err::<(), GridError>(
                GridError::StaleHandle,
            ) && final(sprites)@ == old(sprites)@,
    {
        if paint(sprites, self.sprite_entity, self.color) {
            Ok(())
        } else {
            Err(GridError::StaleHandle)
        }
    }
}

/// Applies the events of `batch` in order; those whose entity the table does
/// not hold are dropped.
pub fn apply_batch(batch: &Vec<TileColorEvent>, sprites: &mut Vec<Sprite>)
    ensures
        final(sprites)@ == applied(old(sprites)@, batch@),
{
    let mut i: usize = 0;
    while i < batch.len()
        invariant
            i <= batch@.len(),
            sprites@ == applied(old(sprites)@, batch@.take(i as int)),
        decreases batch@.len() - i,
    {
        let event = batch[i];
        let _ = event.apply(sprites);
        proof {
            assert(batch@.take(i + 1).drop_last() =~= batch@.take(i as int));
        }
        i += 1;
    }
    proof {
        assert(batch@.take(batch@.len() as int) =~= batch@);
    }
}

/// The queue of batches that wait to be shown, oldest first.
pub struct SolveBuffer(pub VecDeque<Vec<TileColorEvent>>);

impl View for SolveBuffer {
    type V = Seq<Seq<TileColorEvent>>;

    open spec fn view(&self) -> Seq<Seq<TileColorEvent>> {
        Seq::new(self.0@.len(), |i: int| self.0@[i]@)
    }
}

impl Default for SolveBuffer {
    fn default() -> (buffer: SolveBuffer)
        ensures
            buffer@ == Seq::<Seq<TileColorEvent>>::empty(),
    {
        let buffer = SolveBuffer(VecDeque::new());
        assert(buffer@ =~= Seq::<Seq<TileColorEvent>>::empty());
        buffer
    }
}

impl SolveBuffer {
    /// The number of batches that wait.
    pub fn len(&self) -> (len: usize)
        ensures
            len == self@.len(),
    {
        self.0.len()
    }

    /// Queues `batch` behind the batches that already wait.
    pub fn enqueue(&mut self, batch: Vec<TileColorEvent>)
        ensures
            final(self)@ == old(self)@.push(batch@),
    {
        self.0.push_back(batch);
        assert(self@ =~= old(self)@.push(batch@));
    }

    /// Drops every batch that waits.
    pub fn clear(&mut self)
        ensures
            final(self)@ == Seq::<Seq<TileColorEvent>>::empty(),
    {
        self.0.clear();
        assert(self@ =~= Seq::<Seq<TileColorEvent>>::empty());
    }

    /// Takes the oldest batch off the queue and applies it. Returns whether
    /// there was one.
    pub fn process_frame(&mut self, sprites: &mut Vec<Sprite>) -> (shown: bool)
        ensures
            shown == (old(self)@.len() > 0),
            shown ==> final(self)@ == old(self)@.skip(1) && final(sprites)@ == applied(
                old(sprites)@,
                old(self)@[0],
            ),
            !shown ==> final(self)@ == old(self)@ && final(sprites)@ == old(sprites)@,
    {
        match self.0.pop_front() {
            Some(batch) => {
                apply_batch(&batch, sprites);
                assert(self@ =~= old(self)@.skip(1));
                true
            },
            None => {
                assert(self@ =~= old(self)@);
                false
            },
        }
    }
}

/// The shortest interval between two batches, in nanoseconds: 1 ms.
pub const MIN_INTERVAL_NANOS: u64 = 1_000_000;

/// The longest interval between two batches, in nanoseconds: 1000 ms.
pub const MAX_INTERVAL_NANOS: u64 = 1_000_000_000;

/// Whether batches can be shown `interval_nanos` apart.
pub open spec fn valid_interval(interval_nanos: u64) -> bool {
    MIN_INTERVAL_NANOS <= interval_nanos <= MAX_INTERVAL_NANOS
}

/// The longest span that the timer takes in one go, in nanoseconds. A longer
/// tick is taken in parts. With the shortest interval the interval is crossed
/// fewer than 2^32 times in such a span.
pub const LONGEST_SPAN_NANOS: u64 = 4_000_000_000_000_000;

/// `Timer::tick` of `bevy`, on a repeating timer with the interval
/// `interval_nanos` that has collected `elapsed_nanos`: what
/// `times_finished_this_tick` and `elapsed` give after a tick of `delta_nanos`.
/// That is how many times the interval goes into the time collected with the
/// tick, and what is left over. It is taken on trust from the timer's source.
/// The timer divides by the interval, so the interval is not zero; it counts
/// the crossings in a `u32`, so there are no more than that holds.
#[verifier::external_body]
fn timer_advance(elapsed_nanos: u64, interval_nanos: u64, delta_nanos: u64) -> (advanced: (u32, u64))
    requires
        interval_nanos > 0,
        (elapsed_nanos + delta_nanos) / (interval_nanos as int) <= u32::MAX,
    ensures
        advanced.0 == (elapsed_nanos + delta_nanos) / (interval_nanos as int),
        advanced.1 == (elapsed_nanos + delta_nanos) % (interval_nanos as int),
{
    let mut timer = Timer::new(Duration::from_nanos(interval_nanos), TimerMode::Repeating);
    timer.set_elapsed(Duration::from_nanos(elapsed_nanos));
    timer.tick(Duration::from_nanos(delta_nanos));
    (timer.times_finished_this_tick(), timer.elapsed().as_nanos() as u64)
}

/// The quotient and the rest of a sum, from those of its parts: if `count`
/// intervals and `rest` make up `part`, and `times` intervals and `left` make up
/// `rest` and `more`, then `count + times` intervals and `left` make up `part`
/// and `more`.
proof fn lemma_crossings_add(count: int, times: int, interval: int, rest: int, more: int, left: int)
    requires
        interval > 0,
        times == (rest + more) / interval,
        left == (rest + more) % interval,
    ensures
        (count + times) * interval + left == count * interval + rest + more,
{
    vstd::arithmetic::div_mod::lemma_fundamental_div_mod(rest + more, interval);
    assert((count + times) * interval == count * interval + interval * times) by (nonlinear_arith);
}

/// Crossings of an interval of a millisecond or more in a time that two `u64`
/// can hold fit in a `u64`.
proof fn lemma_crossings_fit(count: int, interval: int, whole: int)
    requires
        0 <= count,
        interval >= MIN_INTERVAL_NANOS,
        count * interval <= whole,
        whole <= 2 * u64::MAX,
    ensures
        count <= 0xffff_ffff_ffff,
{
    assert(count * 1_000_000 <= count * interval) by (nonlinear_arith)
        requires
            0 <= count,
            interval >= 1_000_000,
    ;
}

/// A repeating timer: it collects the time that passes and tells how many
/// times the interval was crossed.
pub struct UpdateTimer {
    interval_nanos: u64,
    elapsed_nanos: u64,
}

impl UpdateTimer {
    #[verifier::type_invariant]
    spec fn well_formed(&self) -> bool {
        valid_interval(self.interval_nanos) && self.elapsed_nanos < MAX_INTERVAL_NANOS
    }

    /// The interval between two batches, in nanoseconds.
    pub closed spec fn spec_interval(&self) -> u64 {
        self.interval_nanos
    }

    /// The time collected since the interval was last crossed, in nanoseconds.
    pub closed spec fn spec_elapsed(&self) -> u64 {
        self.elapsed_nanos
    }

    /// A timer with the interval `interval_nanos` that has collected no time.
    pub fn new(interval_nanos: u64) -> (result: Result<UpdateTimer, GridError>)
        ensures
            match result {
                Ok(timer) => {
                    &&& valid_interval(interval_nanos)
                    &&& timer.spec_interval() == interval_nanos
                    &&& timer.spec_elapsed() == 0
                },
                Err(error) => !valid_interval(interval_nanos) && error
                    == GridError::InvalidConfiguration,
            },
    {
        if interval_nanos < MIN_INTERVAL_NANOS || interval_nanos > MAX_INTERVAL_NANOS {
            return Err(GridError::InvalidConfiguration);
        }
        Ok(UpdateTimer { interval_nanos, elapsed_nanos: 0 })
    }

    /// The interval between two batches, in nanoseconds.
    #[verifier::when_used_as_spec(spec_interval)]
    pub fn interval(&self) -> (nanos: u64)
        ensures
            nanos == self.spec_interval(),
            valid_interval(nanos),
    {
        proof {
            use_type_invariant(self);
        }
        self.interval_nanos
    }

    /// The time collected since the interval was last crossed, in nanoseconds.
    #[verifier::when_used_as_spec(spec_elapsed)]
    pub fn elapsed(&self) -> (nanos: u64)
        ensures
            nanos == self.spec_elapsed(),
    {
        self.elapsed_nanos
    }

    /// Changes the interval. The time collected so far stays, so the change
    /// shows at the next tick. An interval outside the range is refused, and
    /// nothing changes.
    pub fn set_interval(&mut self, interval_nanos: u64) -> (result: Result<(), GridError>)
        ensures
            final(self).spec_elapsed() == old(self).spec_elapsed(),
            valid_interval(interval_nanos) ==> result == Ok::<(), GridError>(()) && final(self).spec_interval() == interval_nanos,
            !valid_interval(interval_nanos) ==> result == Err::<(), GridError>(
                GridError::InvalidConfiguration,
            ) && final(self).spec_interval() == old(self).spec_interval(),
    {
        proof {
            use_type_invariant(&*self);
        }
        if interval_nanos < MIN_INTERVAL_NANOS || interval_nanos > MAX_INTERVAL_NANOS {
            return Err(GridError::InvalidConfiguration);
        }
        self.interval_nanos = interval_nanos;
        Ok(())
    }

    /// Lets `delta_nanos` pass. Returns how many times the interval was
    /// crossed; what is left over stays collected for the next tick.
    pub fn tick(&mut self, delta_nanos: u64) -> (crossings: u64)
        ensures
            final(self).spec_interval() == old(self).spec_interval(),
            crossings == (old(self).spec_elapsed() + delta_nanos) / (old(self).spec_interval() as int),
            final(self).spec_elapsed() == (old(self).spec_elapsed() + delta_nanos) % (old(self).spec_interval() as int),
    {
        proof {
            use_type_invariant(&*self);
        }
        let interval = self.interval_nanos;
        let ghost whole = self.elapsed_nanos + delta_nanos;
        let mut crossings: u64 = 0;
        let mut elapsed = self.elapsed_nanos;
        let mut left = delta_nanos;
        assert(crossings * interval == 0) by (nonlinear_arith)
            requires
                crossings == 0,
        ;
        while left > LONGEST_SPAN_NANOS
            invariant
                valid_interval(interval),
                elapsed < MAX_INTERVAL_NANOS,
                whole <= 2 * u64::MAX,
                crossings * interval + elapsed + left == whole,
            decreases left,
        {
            proof {
                vstd::arithmetic::div_mod::lemma_div_is_ordered_by_denominator(
                    elapsed + LONGEST_SPAN_NANOS,
                    1_000_000,
                    interval as int,
                );
            }
            let (times, rest) = timer_advance(elapsed, interval, LONGEST_SPAN_NANOS);
            proof {
                vstd::arithmetic::div_mod::lemma_mod_bound(
                    elapsed + LONGEST_SPAN_NANOS,
                    interval as int,
                );
                lemma_crossings_add(
                    crossings as int,
                    times as int,
                    interval as int,
                    elapsed as int,
                    LONGEST_SPAN_NANOS as int,
                    rest as int,
                );
                lemma_crossings_fit(crossings + times, interval as int, whole);
            }
            crossings = crossings + times as u64;
            elapsed = rest;
            left = left - LONGEST_SPAN_NANOS;
        }
        proof {
            vstd::arithmetic::div_mod::lemma_div_is_ordered_by_denominator(
                elapsed + left,
                1_000_000,
                interval as int,
            );
        }
        let (times, rest) = timer_advance(elapsed, interval, left);
        proof {
            vstd::arithmetic::div_mod::lemma_mod_bound(elapsed + left, interval as int);
            lemma_crossings_add(
                crossings as int,
                times as int,
                interval as int,
                elapsed as int,
                left as int,
                rest as int,
            );
            lemma_crossings_fit(crossings + times, interval as int, whole);
            vstd::arithmetic::div_mod::lemma_fundamental_div_mod_converse(
                whole,
                interval as int,
                crossings + times,
                rest as int,
            );
        }
        self.elapsed_nanos = rest;
        crossings + times as u64
    }
}

impl Default for UpdateTimer {
    /// A timer with the shortest interval.
    fn default() -> (timer: UpdateTimer)
        ensures
            timer.spec_interval() == MIN_INTERVAL_NANOS,
            timer.spec_elapsed() == 0,
    {
        UpdateTimer { interval_nanos: MIN_INTERVAL_NANOS, elapsed_nanos: 0 }
    }
}

/// The buffer and the sprites after the oldest `count` batches were shown.
pub open spec fn shown(
    batches: Seq<Seq<TileColorEvent>>,
    sprites: Seq<Sprite>,
    count: int,
) -> (Seq<Seq<TileColorEvent>>, Seq<Sprite>) {
    (batches.skip(count), applied_all(sprites, batches.take(count)))
}

/// How many batches a tick shows: one for each crossing of the interval, as
/// long as batches wait.
pub open spec fn due(crossings: int, waiting: int) -> int {
    if crossings < waiting {
        crossings
    } else {
        waiting
    }
}

/// One frame of the replay: lets `delta_nanos` pass and shows one batch for
/// each crossing of the interval, oldest first, as long as batches wait.
/// Returns the number of batches shown.
pub fn process_update_buffer_system(
    timer: &mut UpdateTimer,
    delta_nanos: u64,
    solve_buffer: &mut SolveBuffer,
    sprites: &mut Vec<Sprite>,
) -> (count: usize)
    ensures
        final(timer).spec_interval() == old(timer).spec_interval(),
        final(timer).spec_elapsed() == (old(timer).spec_elapsed() + delta_nanos) % (old(timer).spec_interval() as int),
        count == due(
            (old(timer).spec_elapsed() + delta_nanos) / (old(timer).spec_interval() as int),
            old(solve_buffer)@.len() as int,
        ),
        (final(solve_buffer)@, final(sprites)@) == shown(
            old(solve_buffer)@,
            old(sprites)@,
            count as int,
        ),
{
    let crossings = timer.tick(delta_nanos);
    let waiting = solve_buffer.len();
    let mut count: usize = 0;
    proof {
        assert(old(solve_buffer)@.skip(0) =~= old(solve_buffer)@);
        assert(old(solve_buffer)@.take(0) =~= Seq::<Seq<TileColorEvent>>::empty());
    }
    while (count as u64) < crossings && count < waiting
        invariant
            waiting == old(solve_buffer)@.len(),
            count <= waiting,
            count <= crossings,
            (solve_buffer@, sprites@) == shown(old(solve_buffer)@, old(sprites)@, count as int),
        decreases waiting - count,
    {
        proof {
            let all = old(solve_buffer)@;
            assert(all.take(count + 1).drop_last() =~= all.take(count as int));
            assert(all.skip(count as int).skip(1) =~= all.skip(count + 1));
        }
        solve_buffer.process_frame(sprites);
        count += 1;
    }
    count
}

} // verus!
