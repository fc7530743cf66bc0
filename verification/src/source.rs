//! Where the carver gets its numbers from.

use vstd::prelude::*;

verus! {

/// A supply of unsigned integers that remembers what it has handed out.
///
/// Nothing is promised about the values themselves. The record of them is
/// what lets a maze be described as a function of the draws that shaped it.
pub trait DrawSource {
    /// Every value handed out so far, oldest first.
    spec fn drawn(&self) -> Seq<usize>;

    /// Hands out the next value and appends it to the record.
    fn next_draw(&mut self) -> (d: usize)
        ensures
            final(self).drawn() == old(self).drawn().push(d),
    ;
}

/// The handle to `rand`'s generator of the current thread. Nothing of its
/// state is visible here.
#[verifier::external_type_specification]
#[verifier::external_body]
pub struct ExThreadRng(rand::rngs::ThreadRng);

/// Calls `rand::thread_rng`, which hands out a handle to the generator of the
/// current thread, seeding that generator from the operating system on first
/// use. Nothing is claimed of the handle. The call panics if the operating
/// system cannot supply a seed.
#[verifier::external_body]
fn thread_generator() -> rand::rngs::ThreadRng {
    rand::thread_rng()
}

/// Calls `rand::Rng::gen::<usize>` on the thread's generator, which samples
/// a `usize` from the standard distribution. Nothing is claimed of the value:
/// two calls may return anything.
#[verifier::external_body]
fn sample_usize(rng: &mut rand::rngs::ThreadRng) -> usize {
    rand::Rng::gen::<usize>(rng)
}

/// Draws from the random number generator of the current thread.
pub struct ThreadSource {
    rng: rand::rngs::ThreadRng,
    log: Ghost<Seq<usize>>,
}

impl ThreadSource {
    /// A source that has handed out nothing yet.
    pub fn new() -> (source: ThreadSource)
        ensures
            source.drawn() == Seq::<usize>::empty(),
    {
        ThreadSource { rng: thread_generator(), log: Ghost(Seq::empty()) }
    }
}

impl DrawSource for ThreadSource {
    closed spec fn drawn(&self) -> Seq<usize> {
        self.log@
    }

    fn next_draw(&mut self) -> (d: usize) {
        let d = sample_usize(&mut self.rng);
        self.log = Ghost(self.log@.push(d));
        d
    }
}

/// The value that replaying `items` round and round hands out at step `k`.
/// Replaying nothing hands out zero.
pub open spec fn replay_value(items: Seq<usize>, k: nat) -> usize {
    if items.len() == 0 {
        0
    } else {
        items[(k % items.len()) as int]
    }
}

/// Hands out a fixed list of values in order, starting over at its end, so
/// that a maze can be produced again.
pub struct ReplaySource {
    items: Vec<usize>,
    next: usize,
    log: Ghost<Seq<usize>>,
}

impl ReplaySource {
    /// The list being replayed.
    pub closed spec fn items(&self) -> Seq<usize> {
        self.items@
    }

    /// Position in the list of the value that comes next.
    pub closed spec fn cursor(&self) -> nat {
        self.next as nat
    }

    /// A source that replays `items` from its first value.
    pub fn new(items: Vec<usize>) -> (source: ReplaySource)
        ensures
            source.items() == items@,
            source.cursor() == 0,
            source.drawn() == Seq::<usize>::empty(),
    {
        ReplaySource { items, next: 0, log: Ghost(Seq::empty()) }
    }
}

impl DrawSource for ReplaySource {
    closed spec fn drawn(&self) -> Seq<usize> {
        self.log@
    }

    fn next_draw(&mut self) -> (d: usize)
        ensures
            d == replay_value(old(self).items(), old(self).cursor()),
            final(self).items() == old(self).items(),
            final(self).cursor() == if old(self).items().len() == 0 {
                old(self).cursor()
            } else if old(self).cursor() % old(self).items().len() + 1 == old(self).items().len() {
                0
            } else {
                old(self).cursor() % old(self).items().len() + 1
            },
    {
        let len = self.items.len();
        if len == 0 {
            self.log = Ghost(self.log@.push(0));
            return 0;
        }
        let i = self.next % len;
        let d = self.items[i];
        self.next = if i + 1 == len {
            0
        } else {
            i + 1
        };
        self.log = Ghost(self.log@.push(d));
        d
    }
}

} // verus!
