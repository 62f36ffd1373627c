//! The shuffle that deals the game of a seed: a Fisher-Yates shuffle driven
//! by a PCG32 generator.

use crate::parser::{number_read, parse_number, ParseError};
use rand::RngCore;
use rand_pcg::Pcg32;
use vstd::prelude::*;
use vstd::slice::slice_subrange;
use vstd::string::StringSliceAdditionalSpecFns;

verus! {

/// The stream of the generator that the shuffle uses.
pub const STREAM: u64 = 1442695040888963407;

/// `rand_pcg::Pcg32` (`rand_pcg::Lcg64Xsh32`), the generator of the shuffle.
/// Nothing of what is in it is known here.
#[verifier::external_type_specification]
#[verifier::external_body]
pub struct ExPcg32(rand_pcg::Lcg64Xsh32);

/// The numbers that a generator will give from now on: at `k`, the number
/// that it gives after `k` others.
pub uninterp spec fn pcg32_upcoming(generator: Pcg32) -> Map<nat, u32>;

/// The numbers that a generator newly made by `Pcg32::new` of `state` and
/// `stream` gives: at `k`, the number that it gives after `k` others.
pub uninterp spec fn pcg32_seeded(state: u64, stream: u64) -> Map<nat, u32>;

/// `rand_pcg::Pcg32::new`: makes a generator. What the generator will give
/// depends on the state and the stream alone.
#[verifier::external_body]
fn pcg32_new(state: u64, stream: u64) -> (generator: Pcg32)
    ensures
        pcg32_upcoming(generator) == pcg32_seeded(state, stream),
{
    Pcg32::new(state, stream)
}

/// `rand::RngCore::next_u32` on a `Pcg32`: returns the first of the numbers
/// that the generator was to give, and leaves the generator to give the
/// numbers after that one.
#[verifier::external_body]
fn pcg32_next(generator: &mut Pcg32) -> (r: u32)
    ensures
        r == pcg32_upcoming(*old(generator))[0],
        forall|k: nat|
            #[trigger] pcg32_upcoming(*final(generator))[k] == pcg32_upcoming(*old(generator))[k
                + 1],
{
    generator.next_u32()
}

/// `<[T]>::swap` of the standard library: exchanges the items at two
/// positions of a slice. Both positions must be within the slice.
pub assume_specification<E>[ <[E]>::swap ](slice: &mut [E], a: usize, b: usize)
    requires
        a < old(slice).len(),
        b < old(slice).len(),
    ensures
        final(slice)@ == swapped(old(slice)@, a as int, b as int),
;

/// A sequence with the items at two positions exchanged.
pub open spec fn swapped<T>(items: Seq<T>, a: int, b: int) -> Seq<T> {
    items.update(a, items[b]).update(b, items[a])
}

/// The first `count` of the numbers that a generator gives.
pub open spec fn first_draws(numbers: Map<nat, u32>, count: nat) -> Seq<u32> {
    Seq::new(count, |k: int| numbers[k as nat])
}

/// A deck after the first `steps` exchanges of the shuffle: the exchange
/// number `k`, counted from 1, exchanges the card at position `len - k`
/// with one at or below it, chosen by the draw number `k`.
pub open spec fn shuffled_upto<T>(deck: Seq<T>, draws: Seq<u32>, steps: nat) -> Seq<T>
    decreases steps,
{
    if steps == 0 {
        deck
    } else {
        let before = shuffled_upto(deck, draws, (steps - 1) as nat);
        let i = deck.len() - steps;
        swapped(before, i, (draws[steps - 1] as int) % (i + 1))
    }
}

/// A deck after the shuffle with the given draws: one exchange for each
/// position from the last down to the second.
pub open spec fn shuffled<T>(deck: Seq<T>, draws: Seq<u32>) -> Seq<T> {
    if deck.len() <= 1 {
        deck
    } else {
        shuffled_upto(deck, draws, (deck.len() - 1) as nat)
    }
}

/// The shuffle neither makes a card nor loses one.
pub proof fn shuffle_keeps_the_cards<T>(deck: Seq<T>, draws: Seq<u32>, steps: nat)
    requires
        steps < deck.len(),
    ensures
        shuffled_upto(deck, draws, steps).len() == deck.len(),
        shuffled_upto(deck, draws, steps).to_multiset() == deck.to_multiset(),
    decreases steps,
{
    if steps > 0 {
        shuffle_keeps_the_cards(deck, draws, (steps - 1) as nat);
        let before = shuffled_upto(deck, draws, (steps - 1) as nat);
        let i = deck.len() - steps;
        let j = (draws[steps - 1] as int) % (i + 1);
        lemma_swap_keeps_the_items(before, i, j);
    }
}

/// Exchanging two items neither makes an item nor loses one.
pub proof fn lemma_swap_keeps_the_items<T>(items: Seq<T>, a: int, b: int)
    requires
        0 <= a < items.len(),
        0 <= b < items.len(),
    ensures
        swapped(items, a, b).len() == items.len(),
        swapped(items, a, b).to_multiset() == items.to_multiset(),
{
    let first = items.update(a, items[b]);
    items.to_multiset_ensures();
    first.to_multiset_ensures();
    assert(first.to_multiset() =~= items.to_multiset().remove(items[a]).insert(items[b])) by {
        lemma_update_multiset(items, a, items[b]);
    }
    assert(swapped(items, a, b).to_multiset() =~= first.to_multiset().remove(first[b]).insert(
        items[a],
    )) by {
        lemma_update_multiset(first, b, items[a]);
    }
    assert(items.to_multiset().count(items[a]) > 0) by {
        assert(items.contains(items[a]));
    }
    assert(items.to_multiset().count(items[b]) > 0) by {
        assert(items.contains(items[b]));
    }
    assert(swapped(items, a, b).to_multiset() =~= items.to_multiset());
}

proof fn lemma_update_multiset<T>(items: Seq<T>, at: int, item: T)
    requires
        0 <= at < items.len(),
    ensures
        items.update(at, item).to_multiset() == items.to_multiset().remove(items[at]).insert(item),
{
    let dropped = items.remove(at);
    items.to_multiset_ensures();
    assert(dropped.to_multiset() == items.to_multiset().remove(items[at]));
    vstd::seq_lib::to_multiset_insert(dropped, at, item);
    assert(dropped.insert(at, item) =~= items.update(at, item));
}

/// The seed of a deal.
pub struct Seed(i64);

impl Seed {
    /// The seed as the generator takes it: the 64 bits of its number.
    pub closed spec fn bits(&self) -> u64 {
        if self.0 >= 0 {
            self.0 as u64
        } else {
            (self.0 + 0x1_0000_0000_0000_0000) as u64
        }
    }

    /// The seed whose 64 bits are `bits`.
    pub fn from_bits(bits: u64) -> (r: Seed)
        ensures
            r.bits() == bits,
    {
        if bits <= 0x7fff_ffff_ffff_ffff {
            Seed(bits as i64)
        } else {
            Seed((bits - 0x8000_0000_0000_0000) as i64 + i64::MIN)
        }
    }

    /// The 64 bits of the seed.
    pub fn to_bits(&self) -> (r: u64)
        ensures
            r == self.bits(),
    {
        if self.0 >= 0 {
            self.0 as u64
        } else {
            (self.0 - i64::MIN) as u64 + 0x8000_0000_0000_0000
        }
    }

    /// Reads a seed: a number, or an underscore and a number for the seed
    /// below zero of that size.
    pub fn parse(text: &[u8]) -> (r: Result<Seed, ParseError>)
        ensures
            match r {
                Ok(seed) => seed_read(text@) == Some(seed.bits()),
                Err(e) => seed_read(text@).is_none() && e == ParseError::InvalidNumber,
            },
    {
        if text.len() > 0 && text[0] == 95 {
            let rest = slice_subrange(text, 1, text.len());
            proof {
                assert(rest@ =~= text@.skip(1));
            }
            match parse_number(rest, u64::MAX) {
                Some(size) => Ok(Seed::from_bits(0u64.wrapping_sub(size))),
                None => Err(ParseError::InvalidNumber),
            }
        } else {
            match parse_number(text, u64::MAX) {
                Some(number) => Ok(Seed::from_bits(number)),
                None => Err(ParseError::InvalidNumber),
            }
        }
    }
}

/// The 64 bits of the number below zero of the given size.
pub open spec fn below_zero(size: u64) -> u64 {
    if size == 0 {
        0
    } else {
        (0x1_0000_0000_0000_0000 - size) as u64
    }
}

/// The bits of the seed that a text reads as.
pub open spec fn seed_read(text: Seq<u8>) -> Option<u64> {
    if text.len() > 0 && text[0] == 95 {
        match number_read(text.skip(1), u64::MAX) {
            Some(size) => Some(below_zero(size)),
            None => None,
        }
    } else {
        number_read(text, u64::MAX)
    }
}

impl std::str::FromStr for Seed {
    type Err = ParseError;

    fn from_str(s: &str) -> (r: Result<Seed, ParseError>)
        ensures
            match r {
                Ok(seed) => seed_read(s.spec_bytes()) == Some(seed.bits()),
                Err(e) => seed_read(s.spec_bytes()).is_none() && e == ParseError::InvalidNumber,
            },
    {
        Seed::parse(s.as_bytes())
    }
}

/// Shuffles a deck with the given draws: for each position from the last
/// down to the second, the card there changes places with one at or below
/// it, which the next draw chooses.
pub fn shuffle_with<T>(deck: &mut [T], draws: &[u32])
    requires
        old(deck).len() <= draws.len() + 1,
    ensures
        final(deck)@ == shuffled(old(deck)@, draws@),
        final(deck)@.to_multiset() == old(deck)@.to_multiset(),
{
    if deck.len() <= 1 {
        return ;
    }
    let n = deck.len();
    let mut i: usize = n - 1;
    while i >= 1
        invariant
            n == old(deck).len(),
            n == deck.len(),
            n <= draws.len() + 1,
            i < n,
            deck@ == shuffled_upto(old(deck)@, draws@, (n - 1 - i) as nat),
        decreases i,
    {
        let r = draws[n - 1 - i];
        let j = r as usize % (i + 1);
        deck.swap(i, j);
        i -= 1;
    }
    proof {
        shuffle_keeps_the_cards(old(deck)@, draws@, (n - 1) as nat);
    }
}

/// Shuffles a deck as the seed has it: with the draws of the PCG32
/// generator of that seed.
pub fn shuffle<T>(deck: &mut [T], seed: Seed)
    ensures
        final(deck)@ == shuffled(
            old(deck)@,
            first_draws(pcg32_seeded(seed.bits(), STREAM), (old(deck).len() - 1) as nat),
        ),
        final(deck)@.to_multiset() == old(deck)@.to_multiset(),
{
    let mut pcg = pcg32_new(seed.to_bits(), STREAM);
    if deck.len() <= 1 {
        return ;
    }
    let count = deck.len() - 1;
    let ghost numbers = pcg32_seeded(seed.bits(), STREAM);
    let mut draws: Vec<u32> = Vec::new();
    while draws.len() < count
        invariant
            draws.len() <= count,
            draws@ == first_draws(numbers, draws.len() as nat),
            forall|k: nat| #[trigger] pcg32_upcoming(pcg)[k] == numbers[(k + draws.len()) as nat],
        decreases count - draws.len(),
    {
        let ghost before = draws@;
        let ghost upcoming = pcg32_upcoming(pcg);
        let r = pcg32_next(&mut pcg);
        draws.push(r);
        proof {
            assert(upcoming[0] == numbers[(0 + before.len()) as nat]);
            assert(draws@ =~= first_draws(numbers, draws.len() as nat));
            assert forall|k: nat| #[trigger] pcg32_upcoming(pcg)[k] == numbers[(k + draws.len()) as nat] by {
                assert(upcoming[k + 1] == numbers[(k + 1 + before.len()) as nat]);
            }
        }
    }
    shuffle_with(deck, draws.as_slice());
}

} // verus!
