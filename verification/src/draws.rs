//! Random numbers, and what is decided by them.

use vstd::prelude::*;

verus! {

/// The thread-local generator of the `rand` crate.
#[verifier::external_type_specification]
#[verifier::external_body]
pub struct ExThreadRng(rand::rngs::ThreadRng);

/// `rand::thread_rng`. Nothing is claimed of the generator.
#[verifier::external_body]
fn thread_generator() -> (rng: rand::rngs::ThreadRng) {
    rand::thread_rng()
}

/// `next_u32` of `rand::RngCore` for the thread-local generator. The number is
/// random: nothing is claimed of it.
#[verifier::external_body]
fn generate_u32(rng: &mut rand::rngs::ThreadRng) -> (number: u32) {
    rand::RngCore::next_u32(rng)
}

/// A source of random numbers that knows which numbers it has handed out. It hands
/// out the numbers that it was given first, if any, and random ones after them, so
/// that a run can be repeated.
pub struct Draws {
    rng: rand::rngs::ThreadRng,
    given: Vec<u32>,
    next: usize,
    taken: Ghost<Seq<u32>>,
}

impl Draws {
    /// The numbers handed out so far.
    pub closed spec fn taken(self) -> Seq<u32> {
        self.taken@
    }

    /// The numbers that will be handed out before any random one.
    pub closed spec fn pending(self) -> Seq<u32> {
        if self.next < self.given@.len() {
            self.given@.skip(self.next as int)
        } else {
            Seq::empty()
        }
    }

    /// The numbers handed out since the source was as in `before`.
    pub open spec fn since(self, before: Draws) -> Seq<u32> {
        self.taken().skip(before.taken().len() as int)
    }

    /// This is the source `before` after it has handed out some more numbers: those
    /// that were pending, in their order, and then random ones.
    pub open spec fn follows(self, before: Draws) -> bool {
        let d = self.since(before);
        let given = before.pending();
        &&& before.taken().len() <= self.taken().len()
        &&& self.taken() == before.taken() + d
        &&& forall|i: int| 0 <= i < d.len() && i < given.len() ==> #[trigger] d[i] == given[i]
        &&& self.pending() == if d.len() <= given.len() {
            given.skip(d.len() as int)
        } else {
            Seq::empty()
        }
    }

    /// A source of random numbers.
    pub fn new() -> (draws: Draws)
        ensures
            draws.taken().len() == 0,
            draws.pending().len() == 0,
    {
        Draws { rng: thread_generator(), given: Vec::new(), next: 0, taken: Ghost(Seq::empty()) }
    }

    /// A source that hands out the given numbers, and random ones after them.
    pub fn replay(given: Vec<u32>) -> (draws: Draws)
        ensures
            draws.taken().len() == 0,
            draws.pending() == given@,
    {
        let draws = Draws {
            rng: thread_generator(),
            given,
            next: 0,
            taken: Ghost(Seq::empty()),
        };
        assert(draws.pending() =~= given@);
        draws
    }

    /// The next number.
    pub fn next_u32(&mut self) -> (number: u32)
        ensures
            final(self).follows(*old(self)),
            final(self).since(*old(self)) == seq![number],
    {
        let number: u32 = if self.next < self.given.len() {
            let number: u32 = self.given[self.next];
            self.next = self.next + 1;
            number
        } else {
            generate_u32(&mut self.rng)
        };
        let ghost taken: Seq<u32> = self.taken@.push(number);
        self.taken = Ghost(taken);
        assert(self.since(*old(self)) =~= seq![number]);
        assert(self.taken() =~= old(self).taken() + seq![number]);
        assert(self.pending() =~= if old(self).pending().len() > 0 {
            old(self).pending().skip(1)
        } else {
            Seq::empty()
        });
        number
    }
}

/// A source that has handed out nothing follows itself.
pub proof fn lemma_follows_reflexive(a: Draws)
    ensures
        a.follows(a),
        a.since(a) == Seq::<u32>::empty(),
{
    assert(a.since(a) =~= Seq::empty());
    assert(a.taken() =~= a.taken() + a.since(a));
    assert(a.pending() =~= a.pending().skip(0));
}

/// What is handed out in two stretches is handed out in one.
pub proof fn lemma_follows_transitive(a: Draws, b: Draws, c: Draws)
    requires
        b.follows(a),
        c.follows(b),
    ensures
        c.follows(a),
        c.since(a) == b.since(a) + c.since(b),
{
    let first = b.since(a);
    let second = c.since(b);
    assert(c.taken() =~= a.taken() + (first + second));
    assert(c.since(a) =~= first + second);
    let given = a.pending();
    assert forall|i: int| 0 <= i < (first + second).len() && i < given.len() implies #[trigger] (
    first + second)[i] == given[i] by {
        if i >= first.len() {
            assert(b.pending()[i - first.len()] == given[i]);
            assert(second[i - first.len()] == b.pending()[i - first.len()]);
        } else {
            assert(first[i] == given[i]);
        }
    }
    let d = first + second;
    assert(c.pending() =~= if d.len() <= given.len() {
        given.skip(d.len() as int)
    } else {
        Seq::empty()
    });
}

/// Whether something with the chance `numerator / denominator` happens on `draw`:
/// whether the share of `draw` in the largest draw is below that chance.
pub open spec fn happens(draw: u32, numerator: u64, denominator: u64) -> bool {
    draw * denominator < numerator * u32::MAX
}

/// Decides on something that has the chance `numerator / denominator`.
pub fn random_chance(rng: &mut Draws, numerator: u64, denominator: u64) -> (happened: bool)
    ensures
        final(rng).follows(*old(rng)),
        final(rng).since(*old(rng)).len() == 1,
        happened == happens(final(rng).since(*old(rng))[0], numerator, denominator),
{
    let draw: u32 = rng.next_u32();
    proof {
        assert(draw * denominator <= 0xffff_ffff * 0xffff_ffff_ffff_ffff) by (nonlinear_arith)
            requires
                draw <= 0xffff_ffff,
                denominator <= 0xffff_ffff_ffff_ffff,
        ;
    }
    (draw as u128) * (denominator as u128) < (numerator as u128) * 0xffff_ffff
}

/// An index below `len`, taken from a draw.
pub open spec fn pick(draw: u32, len: int) -> int {
    draw as int % len
}

/// Picks one of the indices below `len`.
pub fn pick_index(rng: &mut Draws, len: usize) -> (index: usize)
    requires
        len > 0,
    ensures
        final(rng).follows(*old(rng)),
        final(rng).since(*old(rng)).len() == 1,
        index == pick(final(rng).since(*old(rng))[0], len as int),
        index < len,
{
    let draw: u32 = rng.next_u32();
    (draw as usize) % len
}

/// A chance is a share of the draws: something with the chance `numerator /
/// denominator` happens on the draws below a limit and on no others, and the limit is
/// that share of the largest draw, rounded up.
pub proof fn chance_is_a_share(numerator: u64, denominator: u64) -> (limit: int)
    requires
        0 < numerator <= denominator,
    ensures
        forall|draw: u32| #[trigger] happens(draw, numerator, denominator) <==> draw < limit,
        denominator * (limit - 1) < numerator * 0xffff_ffff <= denominator * limit,
        0 < limit <= 0xffff_ffff,
{
    let share = numerator * 0xffff_ffff;
    let d = denominator as int;
    let limit = (share + d - 1) / d;
    vstd::arithmetic::div_mod::lemma_fundamental_div_mod(share + d - 1, d);
    vstd::arithmetic::div_mod::lemma_mod_bound(share + d - 1, d);
    assert(d * (limit - 1) == d * limit - d) by (nonlinear_arith);
    assert forall|draw: u32| #[trigger]
        happens(draw, numerator, denominator) <==> draw < limit by {
        let x = draw as int;
        assert(x * d == draw * denominator);
        if x < limit {
            assert(x * d <= (limit - 1) * d) by (nonlinear_arith)
                requires
                    x <= limit - 1,
                    d > 0,
            ;
            assert((limit - 1) * d == d * (limit - 1)) by (nonlinear_arith);
        } else {
            assert(x * d >= limit * d) by (nonlinear_arith)
                requires
                    x >= limit,
                    d > 0,
            ;
            assert(limit * d == d * limit) by (nonlinear_arith);
        }
    }
    assert(limit > 0) by (nonlinear_arith)
        requires
            share <= d * limit,
            share > 0,
            d > 0,
    ;
    assert(limit <= 0xffff_ffff) by (nonlinear_arith)
        requires
            d * (limit - 1) < share,
            share == numerator * 0xffff_ffff,
            numerator <= d,
            d > 0,
    ;
    limit
}

/// A pick is the remainder of the draw: it is an index, what it leaves of the draw is a
/// multiple of the length, and an index that is drawn is picked.
pub proof fn pick_is_the_remainder(draw: u32, len: int) -> (times: int)
    requires
        len > 0,
    ensures
        0 <= pick(draw, len) < len,
        draw == times * len + pick(draw, len),
        draw < len ==> pick(draw, len) == draw,
{
    vstd::arithmetic::div_mod::lemma_fundamental_div_mod(draw as int, len);
    vstd::arithmetic::div_mod::lemma_mod_bound(draw as int, len);
    let times = draw as int / len;
    assert(len * times == times * len) by (nonlinear_arith);
    if draw < len {
        vstd::arithmetic::div_mod::lemma_small_mod(draw as nat, len as nat);
    }
    times
}

/// The numbers that a source was given come first and in their order, however the source
/// is used in between: the first of them are what it has handed out, and the others are
/// still to come.
pub proof fn given_numbers_come_in_order(source: Draws, later: Draws)
    requires
        later.follows(source),
        later.since(source).len() <= source.pending().len(),
    ensures
        later.since(source) + later.pending() == source.pending(),
{
    let d = later.since(source);
    assert(d =~= source.pending().take(d.len() as int));
    assert(d + later.pending() =~= source.pending());
}

} // verus!
