//! The draw pile: how many copies of each card are left.
use crate::card::{amount_spec, card_of, Card};
use rand::rngs::StdRng;
use vstd::prelude::*;

verus! {

#[verifier::external_type_specification]
#[verifier::external_body]
pub struct ExStdRng(StdRng);

/// Calls `SeedableRng::seed_from_u64` for `StdRng`. Nothing is stated of the generator.
#[verifier::external_body]
pub(crate) fn std_rng_from_seed(seed: u64) -> StdRng {
    <StdRng as rand::SeedableRng>::seed_from_u64(seed)
}

/// Calls `SeedableRng::from_rng` for `StdRng` with `OsRng`, which fails, rather than
/// panics, when the operating system gives no entropy: `None` then. Nothing is
/// stated of the generator.
#[verifier::external_body]
fn std_rng_from_os() -> Option<StdRng> {
    <StdRng as rand::SeedableRng>::from_rng(rand::rngs::OsRng).ok()
}

/// A generator seeded by the operating system, or with the seed 0 when the operating
/// system gives no entropy.
pub(crate) fn std_rng_from_entropy() -> StdRng {
    match std_rng_from_os() {
        Some(rng) => rng,
        None => std_rng_from_seed(0),
    }
}

/// Calls `Rng::gen_range` on `0..n`, which panics on an empty range: some number
/// below `n`. Which one is left open.
#[verifier::external_body]
pub(crate) fn std_rng_below(rng: &mut StdRng, n: usize) -> (r: usize)
    requires
        n > 0,
    ensures
        r < n,
{
    rand::Rng::gen_range(rng, 0..n)
}

/// Calls `Rng::gen` for a `u64`: any 64-bit value. Nothing is stated of it.
#[verifier::external_body]
pub(crate) fn std_rng_u64(rng: &mut StdRng) -> u64 {
    rand::Rng::gen::<u64>(rng)
}

/// Sum of the weights `w[0 .. n]`.
pub open spec fn weight_sum(w: Seq<u8>, n: int) -> int
    decreases n,
{
    if n <= 0 {
        0
    } else {
        weight_sum(w, n - 1) + w[n - 1]
    }
}

/// Calls `SliceRandom::choose_weighted` on the weights and returns the position
/// picked. The outcome is random: what holds of every outcome is that the
/// position picked has a positive weight.
#[verifier::external_body]
fn choose_weighted_index(rng: &mut StdRng, weights: &[u8; 18]) -> (r: usize)
    requires
        exists|i: int| 0 <= i < 18 && weights@[i] > 0,
        weight_sum(weights@, 18) <= 255,
    ensures
        r < 18,
        weights@[r as int] > 0,
{
    let positions: [usize; 18] = [0, 1, 2, 3, 4, 5, 6, 7, 8, 9, 10, 11, 12, 13, 14, 15, 16, 17];
    *rand::seq::SliceRandom::choose_weighted(&positions[..], rng, |i: &usize| weights[*i])
        .expect("some weight is positive")
}

/// The draw pile: for each card, how many copies are left.
#[derive(Debug, Clone, Copy)]
pub struct Deck {
    cards: [u8; 18],
    times_dealt: u8,
}

/// The number of cards a full deck holds.
pub open spec fn full_total() -> int {
    104
}

/// Cards left in a deck that has dealt `d` rounds since it was full: 20 per round,
/// and 24 on the fifth.
pub open spec fn expected_total(d: int) -> int {
    if d >= 5 {
        0
    } else {
        full_total() - 20 * d
    }
}

impl Deck {
    /// Copies of card number `i` left.
    pub closed spec fn count(&self, i: int) -> int {
        self.cards@[i] as int
    }

    pub closed spec fn counts(&self) -> Seq<u8> {
        self.cards@
    }

    /// How many hands have been dealt from this deck since it was last full.
    pub closed spec fn dealt(&self) -> int {
        self.times_dealt as int
    }

    /// Cards left in the pile.
    pub open spec fn total(&self) -> int {
        weight_sum(self.counts(), 18)
    }

    /// No card is left more often than the full deck holds it.
    pub closed spec fn wf(&self) -> bool {
        &&& self.cards@.len() == 18
        &&& forall|i: int| 0 <= i < 18 ==> self.cards@[i] <= amount_spec(#[trigger] card_of(i))
        &&& self.times_dealt <= 5
    }

    pub proof fn lemma_counts(&self)
        ensures
            self.counts().len() == 18,
            forall|i: int| 0 <= i < 18 ==> #[trigger] self.count(i) == self.counts()[i],
            self.wf() ==> forall|i: int| 0 <= i < 18 ==> 0 <= #[trigger] self.count(i) <= amount_spec(card_of(i)),
            self.wf() ==> 0 <= self.total() <= full_total(),
            self.wf() ==> self.dealt() <= 5,
    {
        if self.wf() {
            lemma_sum_bounded(self.cards@, 18);
        }
    }

    pub fn new() -> (r: Self)
        ensures
            r.wf(),
            forall|i: int| 0 <= i < 18 ==> #[trigger] r.count(i) == amount_spec(card_of(i)),
            r.dealt() == 0,
            r.total() == full_total(),
    {
        let r = Self { cards: [9, 7, 7, 7, 7, 7, 8, 7, 7, 7, 7, 9, 7, 1, 1, 1, 1, 4], times_dealt: 0 };
        proof {
            reveal_with_fuel(weight_sum, 19);
        }
        r
    }

    /// Deals the cards of one round: 24 on the fifth deal, 20 otherwise. After five
    /// deals the deck is refilled first.
    pub fn deal(&mut self, rng: &mut StdRng) -> (r: Vec<Card>)
        requires
            old(self).wf(),
            old(self).dealt() == 5 || old(self).total() == expected_total(old(self).dealt()),
        ensures
            final(self).wf(),
            ({
                let start = if old(self).dealt() == 5 { 0 } else { old(self).dealt() };
                &&& r.len() == if start == 4 { 24int } else { 20int }
                &&& final(self).dealt() == start + 1
                &&& final(self).total() == expected_total(start + 1)
            }),
    {
        if self.times_dealt == 5 {
            *self = Self::new();
        }
        let deal_amount: usize = if self.times_dealt == 4 {
            24
        } else {
            20
        };
        let mut cards: Vec<Card> = Vec::new();
        let mut i: usize = 0;
        let ghost t0 = self.times_dealt;
        assert(t0 == if old(self).dealt() == 5 { 0 } else { old(self).dealt() });
        while i < deal_amount
            invariant
                self.wf(),
                self.times_dealt == t0,
                self.times_dealt <= 4,
                deal_amount == if self.times_dealt == 4 { 24usize } else { 20usize },
                i <= deal_amount,
                cards.len() == i,
                self.total() == full_total() - 20 * self.times_dealt - i,
            decreases deal_amount - i,
        {
            let card = self.draw_one(rng);
            cards.push(card);
            i += 1;
        }
        self.times_dealt = self.times_dealt + 1;
        cards
    }

    /// Takes one copy of `card` out of the pile.
    pub fn take(&mut self, card: Card)
        requires
            old(self).wf(),
            old(self).count(card.idx()) > 0,
        ensures
            final(self).wf(),
            final(self).counts() == old(self).counts().update(card.idx(), (old(self).count(card.idx()) - 1) as u8),
            final(self).dealt() == old(self).dealt(),
            final(self).total() == old(self).total() - 1,
    {
        let i = card.index();
        let ghost before = self.cards@;
        self.cards[i] = self.cards[i] - 1;
        proof {
            lemma_sum_update(before, i as int, self.cards@, 18);
        }
    }

    /// Puts one copy of `card` back into the pile.
    pub fn put_back(&mut self, card: Card)
        requires
            old(self).wf(),
            old(self).count(card.idx()) < amount_spec(card),
        ensures
            final(self).wf(),
            final(self).counts() == old(self).counts().update(card.idx(), (old(self).count(card.idx()) + 1) as u8),
            final(self).dealt() == old(self).dealt(),
            final(self).total() == old(self).total() + 1,
    {
        let i = card.index();
        let ghost before = self.cards@;
        self.cards[i] = self.cards[i] + 1;
        proof {
            lemma_sum_update(before, i as int, self.cards@, 18);
        }
    }

    /// Picks a random card of the pile, each copy left being equally likely, without
    /// taking it out.
    pub fn pick_one(&self, rng: &mut StdRng) -> (r: Card)
        requires
            self.wf(),
            self.total() > 0,
        ensures
            self.count(r.idx()) > 0,
    {
        proof {
            lemma_sum_bounded(self.cards@, 18);
            lemma_sum_positive(self.cards@, 18);
        }
        let i = choose_weighted_index(rng, &self.cards);
        Card::from_index(i)
    }

    /// Draws a random card from the pile, each copy left being equally likely.
    pub fn draw_one(&mut self, rng: &mut StdRng) -> (r: Card)
        requires
            old(self).wf(),
            old(self).total() > 0,
        ensures
            final(self).wf(),
            old(self).count(r.idx()) > 0,
            final(self).counts() == old(self).counts().update(r.idx(), (old(self).count(r.idx()) - 1) as u8),
            final(self).dealt() == old(self).dealt(),
            final(self).total() == old(self).total() - 1,
    {
        let card = self.pick_one(rng);
        self.take(card);
        card
    }

    /// Picks a random card among those whose position is not excluded, each copy of an
    /// allowed card being equally likely, without taking it out.
    pub fn pick_one_except(&self, rng: &mut StdRng, excluded: &[bool; 18]) -> (r: Card)
        requires
            self.wf(),
            exists|i: int| 0 <= i < 18 && !excluded@[i] && self.count(i) > 0,
        ensures
            self.count(r.idx()) > 0,
            !excluded@[r.idx()],
    {
        let mut weights: [u8; 18] = [0; 18];
        let mut i: usize = 0;
        while i < 18
            invariant
                i <= 18,
                self.wf(),
                weights@.len() == 18,
                forall|j: int| 0 <= j < i ==> #[trigger] weights@[j] == if excluded@[j] { 0 } else { self.cards@[j] },
                forall|j: int| i <= j < 18 ==> #[trigger] weights@[j] == 0,
            decreases 18 - i,
        {
            if !excluded[i] {
                weights[i] = self.cards[i];
            }
            i += 1;
        }
        proof {
            assert forall|j: int| 0 <= j < 18 implies #[trigger] weights@[j] <= self.cards@[j] by {}
            lemma_sum_le(weights@, self.cards@, 18);
            lemma_sum_bounded(self.cards@, 18);
            let k = choose|k: int| 0 <= k < 18 && !excluded@[k] && self.count(k) > 0;
            assert(weights@[k] > 0);
        }
        let i = choose_weighted_index(rng, &weights);
        Card::from_index(i)
    }

    /// Draws a random card among those whose position is not excluded, each copy of
    /// an allowed card being equally likely.
    pub fn draw_one_except(&mut self, rng: &mut StdRng, excluded: &[bool; 18]) -> (r: Card)
        requires
            old(self).wf(),
            exists|i: int| 0 <= i < 18 && !excluded@[i] && old(self).count(i) > 0,
        ensures
            final(self).wf(),
            old(self).count(r.idx()) > 0,
            !excluded@[r.idx()],
            final(self).counts() == old(self).counts().update(r.idx(), (old(self).count(r.idx()) - 1) as u8),
            final(self).dealt() == old(self).dealt(),
            final(self).total() == old(self).total() - 1,
    {
        let card = self.pick_one_except(rng, excluded);
        self.take(card);
        card
    }

    /// True on the first round dealt from a full deck.
    pub fn fresh(&self) -> (r: bool)
        ensures
            r == (self.dealt() == 1),
    {
        self.times_dealt == 1
    }

    /// Copies of `card` left in the pile.
    pub fn copies(&self, card: Card) -> (r: u8)
        requires
            self.wf(),
        ensures
            r as int == self.count(card.idx()),
    {
        self.cards[card.index()]
    }

    /// Some card whose position is not excluded is left in the pile.
    pub fn any_allowed(&self, excluded: &[bool; 18]) -> (r: bool)
        requires
            self.wf(),
        ensures
            r == exists|i: int| 0 <= i < 18 && !excluded@[i] && self.count(i) > 0,
    {
        let mut i: usize = 0;
        while i < 18
            invariant
                i <= 18,
                self.wf(),
                forall|j: int| 0 <= j < i ==> excluded@[j] || self.count(j) == 0,
            decreases 18 - i,
        {
            if !excluded[i] && self.cards[i] > 0 {
                return true;
            }
            i = i + 1;
        }
        false
    }
}

/// Putting back a card just taken gives the pile back.
pub proof fn law_put_back_undoes_take(d: Deck, card: Card)
    requires
        d.wf(),
        d.count(card.idx()) > 0,
    ensures
        ({
            let taken = d.counts().update(card.idx(), (d.count(card.idx()) - 1) as u8);
            taken.update(card.idx(), (taken[card.idx()] + 1) as u8) == d.counts()
        }),
{
    d.lemma_counts();
    let taken = d.counts().update(card.idx(), (d.count(card.idx()) - 1) as u8);
    assert(taken.update(card.idx(), (taken[card.idx()] + 1) as u8) =~= d.counts());
}

proof fn lemma_sum_bounded(w: Seq<u8>, n: int)
    requires
        0 <= n <= 18,
        w.len() == 18,
        forall|i: int| 0 <= i < 18 ==> w[i] <= amount_spec(#[trigger] card_of(i)),
    ensures
        0 <= weight_sum(w, n),
        weight_sum(w, 18) <= full_total(),
        forall|i: int| 0 <= i < 18 ==> w[i] <= #[trigger] weight_sum(w, 18),
    decreases n,
{
    lemma_sum_nonneg(w, n);
    lemma_sum_le_full(w, 18);
    assert forall|i: int| 0 <= i < 18 implies w[i] <= #[trigger] weight_sum(w, 18) by {
        lemma_sum_ge_elem(w, i, 18);
    }
}

proof fn lemma_sum_nonneg(w: Seq<u8>, n: int)
    requires
        n <= w.len(),
    ensures
        0 <= weight_sum(w, n),
    decreases n,
{
    if n > 0 {
        lemma_sum_nonneg(w, n - 1);
    }
}

proof fn lemma_sum_ge_elem(w: Seq<u8>, i: int, n: int)
    requires
        0 <= i < n <= w.len(),
    ensures
        w[i] <= weight_sum(w, n),
    decreases n,
{
    if n - 1 > i {
        lemma_sum_ge_elem(w, i, n - 1);
    } else {
        lemma_sum_nonneg(w, n - 1);
    }
}

proof fn lemma_sum_le_full(w: Seq<u8>, n: int)
    requires
        0 <= n <= 18,
        w.len() == 18,
        forall|i: int| 0 <= i < 18 ==> w[i] <= amount_spec(#[trigger] card_of(i)),
    ensures
        weight_sum(w, n) <= weight_sum(seq![9u8, 7, 7, 7, 7, 7, 8, 7, 7, 7, 7, 9, 7, 1, 1, 1, 1, 4], n),
        weight_sum(seq![9u8, 7, 7, 7, 7, 7, 8, 7, 7, 7, 7, 9, 7, 1, 1, 1, 1, 4], 18) == full_total(),
    decreases n,
{
    let full = seq![9u8, 7, 7, 7, 7, 7, 8, 7, 7, 7, 7, 9, 7, 1, 1, 1, 1, 4];
    if n > 0 {
        lemma_sum_le_full(w, n - 1);
        assert(w[n - 1] <= amount_spec(card_of(n - 1)));
        assert(amount_spec(card_of(n - 1)) == full[n - 1]);
    }
    assert(weight_sum(full, 18) == full_total()) by {
        reveal_with_fuel(weight_sum, 19);
    }
}

proof fn lemma_sum_le(a: Seq<u8>, b: Seq<u8>, n: int)
    requires
        0 <= n <= a.len(),
        a.len() == b.len(),
        forall|i: int| 0 <= i < a.len() ==> #[trigger] a[i] <= b[i],
    ensures
        weight_sum(a, n) <= weight_sum(b, n),
    decreases n,
{
    if n > 0 {
        lemma_sum_le(a, b, n - 1);
    }
}

proof fn lemma_sum_positive(w: Seq<u8>, n: int)
    requires
        0 <= n <= w.len(),
        weight_sum(w, n) > 0,
    ensures
        exists|i: int| 0 <= i < n && w[i] > 0,
    decreases n,
{
    if n > 0 && w[n - 1] == 0 {
        lemma_sum_positive(w, n - 1);
    }
}

proof fn lemma_sum_update(a: Seq<u8>, k: int, b: Seq<u8>, n: int)
    requires
        0 <= k < a.len(),
        0 <= n <= a.len(),
        b.len() == a.len(),
        forall|i: int| 0 <= i < a.len() && i != k ==> a[i] == b[i],
    ensures
        weight_sum(b, n) == weight_sum(a, n) + if k < n { b[k] - a[k] } else { 0 },
    decreases n,
{
    if n > 0 {
        lemma_sum_update(a, k, b, n - 1);
    }
}

} // verus!
