//! The cards a player holds.
use crate::card::Card;
use smallvec::SmallVec;
use vstd::prelude::*;

verus! {

/// A `SmallVec` of cards with room for six inline. Its contents are opaque here; what
/// it holds is named by `smallvec_cards`.
#[verifier::external_body]
#[derive(Debug)]
pub struct CardVec {
    inner: SmallVec<[Card; 6]>,
}

/// The cards a `CardVec` holds, in order.
pub uninterp spec fn smallvec_cards(v: CardVec) -> Seq<Card>;

/// Calls `SmallVec::from_vec`: the vector's items, in the same order.
#[verifier::external_body]
fn sv_from_vec(v: Vec<Card>) -> (r: CardVec)
    ensures
        smallvec_cards(r) == v@,
{
    CardVec { inner: SmallVec::from_vec(v) }
}

/// Calls `SmallVec::len`: the number of items.
#[verifier::external_body]
fn sv_len(v: &CardVec) -> (r: usize)
    ensures
        r as nat == smallvec_cards(*v).len(),
{
    v.inner.len()
}

/// Calls `SmallVec::push`: appends one item at the end.
#[verifier::external_body]
fn sv_push(v: &mut CardVec, c: Card)
    ensures
        smallvec_cards(*final(v)) == smallvec_cards(*old(v)).push(c),
{
    v.inner.push(c)
}

/// Calls `SmallVec::remove`: takes out the item at `idx` and shifts the rest down.
#[verifier::external_body]
fn sv_remove(v: &mut CardVec, idx: usize) -> (r: Card)
    requires
        idx < smallvec_cards(*old(v)).len(),
    ensures
        r == smallvec_cards(*old(v))[idx as int],
        smallvec_cards(*final(v)) == smallvec_cards(*old(v)).remove(idx as int),
{
    v.inner.remove(idx)
}

/// Reads the item at `idx` through `SmallVec`'s indexing.
#[verifier::external_body]
fn sv_get(v: &CardVec, idx: usize) -> (r: Card)
    requires
        idx < smallvec_cards(*v).len(),
    ensures
        r == smallvec_cards(*v)[idx as int],
{
    v.inner[idx]
}

/// Calls `SmallVec::clear`: removes every item.
#[verifier::external_body]
fn sv_clear(v: &mut CardVec)
    ensures
        smallvec_cards(*final(v)) == Seq::<Card>::empty(),
{
    v.inner.clear()
}

/// Calls `SmallVec::clone`: for items that are `Copy`, the same items in the same order.
#[verifier::external_body]
fn sv_clone(v: &CardVec) -> (r: CardVec)
    ensures
        smallvec_cards(r) == smallvec_cards(*v),
{
    CardVec { inner: v.inner.clone() }
}

/// Position of the first copy of `card` in `s` (the length when there is none).
pub open spec fn first_index(s: Seq<Card>, card: Card) -> int
    decreases s.len(),
{
    if s.len() == 0 {
        0
    } else if s[0] == card {
        0
    } else {
        1 + first_index(s.drop_first(), card)
    }
}

/// `s` with the first copy of `card` taken out.
pub open spec fn remove_first(s: Seq<Card>, card: Card) -> Seq<Card> {
    s.remove(first_index(s, card))
}

/// `new` is `old` with the first copy of `card` taken out.
pub open spec fn removed_first(old: Seq<Card>, new: Seq<Card>, card: Card) -> bool {
    new == remove_first(old, card)
}

/// A card the sequence holds has its first copy within it, and taking it out
/// leaves one card fewer.
pub proof fn lemma_remove_first_len(s: Seq<Card>, card: Card)
    requires
        s.contains(card),
    ensures
        0 <= first_index(s, card) < s.len(),
        s[first_index(s, card)] == card,
        remove_first(s, card).len() == s.len() - 1,
    decreases s.len(),
{
    if s[0] != card {
        let k = choose|k: int| 0 <= k < s.len() && s[k] == card;
        assert(s.drop_first()[k - 1] == card);
        lemma_remove_first_len(s.drop_first(), card);
    }
}

/// The first copy sits at `first_index`.
pub proof fn lemma_first_index(s: Seq<Card>, card: Card, i: int)
    requires
        0 <= i < s.len(),
        s[i] == card,
        forall|j: int| 0 <= j < i ==> s[j] != card,
    ensures
        first_index(s, card) == i,
    decreases i,
{
    if i > 0 {
        lemma_first_index(s.drop_first(), card, i - 1);
    }
}

/// A player's hand of cards.
#[derive(Debug)]
pub struct Hand(pub CardVec);

impl View for Hand {
    type V = Seq<Card>;

    open spec fn view(&self) -> Seq<Card> {
        smallvec_cards(self.0)
    }
}

impl Clone for Hand {
    fn clone(&self) -> (r: Self)
        ensures
            r@ == self@,
    {
        Hand(sv_clone(&self.0))
    }
}

impl Hand {
    pub fn new(cards: Vec<Card>) -> (r: Self)
        ensures
            r@ == cards@,
    {
        Self(sv_from_vec(cards))
    }

    /// A copy of the hand.
    pub fn copy(&self) -> (r: Self)
        ensures
            r@ == self@,
    {
        Hand(sv_clone(&self.0))
    }

    /// Number of cards in the hand.
    pub fn amount(&self) -> (r: usize)
        ensures
            r as nat == self@.len(),
    {
        sv_len(&self.0)
    }

    pub fn is_empty(&self) -> (r: bool)
        ensures
            r == (self@.len() == 0),
    {
        sv_len(&self.0) == 0
    }

    /// The card at position `idx`.
    pub fn get(&self, idx: usize) -> (r: Card)
        requires
            idx < self@.len(),
        ensures
            r == self@[idx as int],
    {
        sv_get(&self.0, idx)
    }

    pub fn push(&mut self, card: Card)
        ensures
            final(self)@ == old(self)@.push(card),
    {
        sv_push(&mut self.0, card)
    }

    /// Removes all cards.
    pub fn clear(&mut self)
        ensures
            final(self)@ == Seq::<Card>::empty(),
    {
        sv_clear(&mut self.0)
    }

    /// Position of the first copy of `card`, if the hand holds one.
    pub fn position(&self, card: Card) -> (r: Option<usize>)
        ensures
            r matches Some(i) ==> i < self@.len() && self@[i as int] == card && forall|j: int|
                0 <= j < i ==> self@[j] != card,
            r is None ==> !self@.contains(card),
    {
        let n = self.amount();
        let mut i: usize = 0;
        while i < n
            invariant
                n == self@.len(),
                i <= n,
                forall|j: int| 0 <= j < i ==> self@[j] != card,
            decreases n - i,
        {
            if self.get(i) == card {
                return Some(i);
            }
            i += 1;
        }
        None
    }

    /// The different cards of the hand, each once, in card order.
    pub fn distinct_cards(&self) -> (r: Vec<Card>)
        ensures
            forall|i: int| 0 <= i < r.len() ==> self@.contains(#[trigger] r[i]),
            forall|c: Card| self@.contains(c) ==> #[trigger] r@.contains(c),
            forall|i: int, j: int| 0 <= i < j < r.len() ==> (#[trigger] r[i]).idx() < (#[trigger] r[j]).idx(),
    {
        let mut r: Vec<Card> = Vec::new();
        let mut k: usize = 0;
        while k < 18
            invariant
                k <= 18,
                forall|i: int| 0 <= i < r.len() ==> self@.contains(#[trigger] r[i]),
                forall|i: int| 0 <= i < r.len() ==> (#[trigger] r[i]).idx() < k,
                forall|c: Card| self@.contains(c) && c.idx() < k ==> #[trigger] r@.contains(c),
                forall|i: int, j: int| 0 <= i < j < r.len() ==> (#[trigger] r[i]).idx() < (#[trigger] r[j]).idx(),
            decreases 18 - k,
        {
            let card = Card::from_index(k);
            if self.position(card).is_some() {
                let ghost before = r@;
                assert(forall|c: Card| self@.contains(c) && c.idx() < k ==> #[trigger] before.contains(c));
                r.push(card);
                proof {
                    assert forall|c: Card| self@.contains(c) && c.idx() < k + 1 implies #[trigger] r@.contains(c) by {
                        if c.idx() < k {
                            assert(before.contains(c));
                            let i = choose|i: int| 0 <= i < before.len() && before[i] == c;
                            assert(r@[i] == c);
                        } else {
                            assert(r@[r.len() - 1] == c);
                        }
                    }
                }
            } else {
                proof {
                    assert forall|c: Card| self@.contains(c) && c.idx() < k + 1 implies #[trigger] r@.contains(c) by {
                        if c.idx() == k {
                            assert(c == card);
                        }
                    }
                }
            }
            k = k + 1;
        }
        r
    }

    /// Removes the first copy of `card`.
    /// # Panics
    /// If card is not in hand
    pub fn remove(&mut self, card: Card)
        requires
            old(self)@.contains(card),
        ensures
            removed_first(old(self)@, final(self)@, card),
            final(self)@.to_multiset() == old(self)@.to_multiset().remove(card),
    {
        let idx = match self.position(card) {
            Some(i) => i,
            None => {
                proof {
                    assert(false);
                }
                0
            },
        };
        let ghost s = self@;
        proof {
            vstd::seq_lib::to_multiset_remove(s, idx as int);
            lemma_first_index(s, card, idx as int);
        }
        sv_remove(&mut self.0, idx);
        assert(self@ == s.remove(idx as int));
    }
}

} // verus!
