//! The pace of the replay: what a row of frames shows.
use crate::solve_buffer::{applied, applied_all, due, shown, TileColorEvent};
use crate::tile::Sprite;
use vstd::prelude::*;

verus! {

/// The timer, the queue of batches and the sprites together.
pub struct Replay {
    /// The interval between two batches, in nanoseconds.
    pub interval: int,
    /// The time collected since the interval was last crossed.
    pub elapsed: int,
    pub batches: Seq<Seq<TileColorEvent>>,
    pub sprites: Seq<Sprite>,
}

impl Replay {
    /// What a frame of `delta` nanoseconds does: what
    /// `process_update_buffer_system` does to the timer, the queue and the
    /// sprites.
    pub open spec fn frame(self, delta: int) -> Replay {
        let total = self.elapsed + delta;
        let count = due(total / self.interval, self.batches.len() as int);
        Replay {
            interval: self.interval,
            elapsed: total % self.interval,
            batches: shown(self.batches, self.sprites, count).0,
            sprites: shown(self.batches, self.sprites, count).1,
        }
    }

    /// What `times` frames of `delta` nanoseconds each do.
    pub open spec fn frames(self, delta: int, times: nat) -> Replay
        decreases times,
    {
        if times == 0 {
            self
        } else {
            self.frames(delta, (times - 1) as nat).frame(delta)
        }
    }
}

/// Showing `count` batches and then one more is showing `count + 1`.
pub proof fn lemma_shown_one_more(
    batches: Seq<Seq<TileColorEvent>>,
    sprites: Seq<Sprite>,
    count: int,
)
    requires
        0 <= count < batches.len(),
    ensures
        shown(shown(batches, sprites, count).0, shown(batches, sprites, count).1, 1) == shown(
            batches,
            sprites,
            count + 1,
        ),
{
    let rest = batches.skip(count);
    let so_far = applied_all(sprites, batches.take(count));
    assert(rest.skip(1) =~= batches.skip(count + 1));
    assert(rest.take(1).drop_last() =~= Seq::<Seq<TileColorEvent>>::empty());
    assert(rest.take(1).last() == batches[count]);
    assert(applied_all(so_far, rest.take(1)) == applied(
        applied_all(so_far, rest.take(1).drop_last()),
        batches[count],
    ));
    assert(batches.take(count + 1).drop_last() =~= batches.take(count));
    assert(batches.take(count + 1).last() == batches[count]);
}

/// Frames that each last exactly one interval show exactly one batch each, in
/// the order in which the batches were queued, as long as batches wait: after
/// `times` such frames the oldest `times` batches were shown, none was passed
/// over and none shown twice, and the others still wait.
pub proof fn lemma_one_batch_per_interval(replay: Replay, times: nat)
    requires
        0 <= replay.elapsed < replay.interval,
    ensures
        replay.frames(replay.interval, times) == (Replay {
            interval: replay.interval,
            elapsed: replay.elapsed,
            batches: shown(
                replay.batches,
                replay.sprites,
                due(times as int, replay.batches.len() as int),
            ).0,
            sprites: shown(
                replay.batches,
                replay.sprites,
                due(times as int, replay.batches.len() as int),
            ).1,
        }),
    decreases times,
{
    let waiting = replay.batches.len() as int;
    if times == 0 {
        assert(replay.batches.skip(0) =~= replay.batches);
        assert(replay.batches.take(0) =~= Seq::<Seq<TileColorEvent>>::empty());
    } else {
        lemma_one_batch_per_interval(replay, (times - 1) as nat);
        let before = replay.frames(replay.interval, (times - 1) as nat);
        let count = due(times - 1, waiting);
        vstd::arithmetic::div_mod::lemma_fundamental_div_mod_converse(
            replay.elapsed + replay.interval,
            replay.interval,
            1,
            replay.elapsed,
        );
        if count < waiting {
            lemma_shown_one_more(replay.batches, replay.sprites, count);
        } else {
            assert(before.batches.skip(0) =~= before.batches);
            assert(before.batches.take(0) =~= Seq::<Seq<TileColorEvent>>::empty());
        }
    }
}

} // verus!
