//! A generic ordered, double-ended pile of cards: draw and peek at the
//! front, insert at either end, and a Fisher-Yates shuffle driven by an
//! injectable random source.

use vstd::prelude::*;
use vstd::seq_lib::group_to_multiset_ensures;
use rand::distributions::Distribution;
use crate::random_engine::RandomEngine;

verus! {

/// An ordered pile. Index 0 of the view is the top: the card that `draw`
/// and `peek` reach.
#[derive(Debug, Clone)]
pub struct Deck<T> {
    cards: std::collections::VecDeque<T>,
}

impl<T> View for Deck<T> {
    type V = Seq<T>;

    closed spec fn view(&self) -> Seq<T> {
        self.cards@
    }
}

/// Relies on rand's Uniform integer sampler: a value drawn from
/// `new_inclusive(0, bound)` lies between 0 and `bound`. The sampler is fed
/// by rand's stepped mock generator seeded with the raw engine draw, whose
/// odd increment eventually reaches a value the rejection zone accepts.
#[verifier::external_body]
fn uniform_index(raw: u64, bound: usize) -> (j: usize)
    ensures
        j <= bound,
{
    let mut rng = rand::rngs::mock::StepRng::new(raw, 0x9E3779B97F4A7C15);
    rand::distributions::Uniform::new_inclusive(0, bound).sample(&mut rng)
}

/// Exchanging the elements at two positions keeps the sequence's multiset
/// of elements.
proof fn lemma_swap_preserves_multiset<T>(s: Seq<T>, i: int, j: int)
    requires
        0 <= i < s.len(),
        0 <= j < s.len(),
    ensures
        s.update(i, s[j]).update(j, s[i]).to_multiset() == s.to_multiset(),
{
    broadcast use group_to_multiset_ensures;
    broadcast use vstd::multiset::group_multiset_axioms;

    let s2 = s.update(i, s[j]).update(j, s[i]);
    if i == j {
        assert(s2 =~= s);
    } else {
        let a = s[i];
        let b = s[j];
        let m = s.to_multiset();
        assert(s.contains(a) && s.contains(b));
        assert(m.count(a) > 0 && m.count(b) > 0);
        let s1 = s.update(i, b);
        assert(s1.to_multiset() == m.insert(b).remove(a));
        assert(s1[j] == b);
        assert(s2.to_multiset() == s1.to_multiset().insert(a).remove(b));
        assert(s2.to_multiset() =~= m);
    }
}

impl<T> Deck<T> {
    /// Builds an empty pile.
    pub fn new() -> (d: Self)
        ensures
            d@ == Seq::<T>::empty(),
    {
        Deck { cards: std::collections::VecDeque::new() }
    }

    /// Builds a pile holding the given cards, front first.
    pub fn from_vec(cards: Vec<T>) -> (d: Self)
        ensures
            d@ == cards@,
    {
        let mut d = Deck::new();
        d.put_bottom_many(cards);
        d
    }

    /// Returns whether the pile holds no card.
    pub fn is_empty(&self) -> (r: bool)
        ensures
            r == (self@.len() == 0),
    {
        self.cards.len() == 0
    }

    /// Returns how many cards the pile holds.
    pub fn len(&self) -> (n: usize)
        ensures
            n == self@.len(),
    {
        self.cards.len()
    }

    /// Removes and returns the top card, or nothing when the pile is empty.
    pub fn draw(&mut self) -> (r: Option<T>)
        ensures
            match r {
                Some(c) => old(self)@.len() > 0 && c == old(self)@[0] && final(self)@ == old(
                    self,
                )@.drop_first(),
                None => old(self)@.len() == 0 && final(self)@ == old(self)@,
            },
    {
        if self.cards.len() == 0 {
            None
        } else {
            self.cards.pop_front()
        }
    }

    /// Removes and returns the `size` topmost cards, top first.
    pub fn draw_many(&mut self, size: usize) -> (r: Vec<T>)
        requires
            size <= old(self)@.len(),
        ensures
            r@ == old(self)@.take(size as int),
            final(self)@ == old(self)@.skip(size as int),
    {
        let mut r: Vec<T> = Vec::new();
        let mut k: usize = 0;
        while k < size
            invariant
                k <= size <= old(self)@.len(),
                r@ == old(self)@.take(k as int),
                self@ == old(self)@.skip(k as int),
            decreases size - k,
        {
            let c = self.cards.pop_front();
            proof {
                assert(old(self)@.skip(k as int)[0] == old(self)@[k as int]);
                assert(old(self)@.skip(k as int).subrange(
                    1,
                    old(self)@.skip(k as int).len() as int,
                ) =~= old(self)@.skip(k + 1));
                assert(old(self)@.take(k as int).push(old(self)@[k as int]) =~= old(self)@.take(
                    k + 1,
                ));
            }
            r.push(c.unwrap());
            k = k + 1;
        }
        proof {
            assert(r@ =~= old(self)@.take(size as int));
        }
        r
    }

    /// Removes and returns every card, top first.
    pub fn draw_all(&mut self) -> (r: Vec<T>)
        ensures
            r@ == old(self)@,
            final(self)@ == Seq::<T>::empty(),
    {
        let n = self.len();
        let r = self.draw_many(n);
        proof {
            assert(old(self)@.take(n as int) =~= old(self)@);
            assert(old(self)@.skip(n as int) =~= Seq::<T>::empty());
        }
        r
    }

    /// Returns the top card without removing it.
    pub fn peek(&self) -> (r: Option<&T>)
        ensures
            match r {
                Some(c) => self@.len() > 0 && *c == self@[0],
                None => self@.len() == 0,
            },
    {
        if self.cards.len() == 0 {
            None
        } else {
            Some(&self.cards[0])
        }
    }

    /// Returns copies of the topmost cards, at most `count` of them, top
    /// first.
    pub fn peek_many(&self, count: usize) -> (r: Vec<T>) where T: Copy
        ensures
            r@ == self@.take(if count <= self@.len() {
                count as int
            } else {
                self@.len() as int
            }),
    {
        let n = if count <= self.cards.len() {
            count
        } else {
            self.cards.len()
        };
        let mut r: Vec<T> = Vec::new();
        let mut k: usize = 0;
        while k < n
            invariant
                k <= n <= self@.len(),
                r@ == self@.take(k as int),
            decreases n - k,
        {
            r.push(self.cards[k]);
            proof {
                assert(self@.take(k as int).push(self@[k as int]) =~= self@.take(k + 1));
            }
            k = k + 1;
        }
        r
    }

    /// Puts one card on top of the pile.
    pub fn put_top(&mut self, card: T)
        ensures
            final(self)@ == seq![card] + old(self)@,
    {
        self.cards.push_front(card)
    }

    /// Puts the given cards on top of the pile, keeping their order: the
    /// first given card becomes the new top.
    pub fn put_top_many(&mut self, cards: Vec<T>)
        ensures
            final(self)@ == cards@ + old(self)@,
    {
        let ghost given = cards@;
        let mut cards = cards;
        while cards.len() > 0
            invariant
                cards@ + self@ == given + old(self)@,
            decreases cards@.len(),
        {
            let ghost before_cards = cards@;
            let ghost before_deck = self@;
            let c = cards.pop().unwrap();
            self.put_top(c);
            proof {
                assert(cards@ + self@ =~= before_cards + before_deck);
            }
        }
        proof {
            assert(cards@ + self@ =~= self@);
        }
    }

    /// Puts one card at the bottom of the pile.
    pub fn put_bottom(&mut self, card: T)
        ensures
            final(self)@ == old(self)@.push(card),
    {
        self.cards.push_back(card)
    }

    /// Appends the given cards below the pile, keeping their order.
    pub fn put_bottom_many(&mut self, cards: Vec<T>)
        ensures
            final(self)@ == old(self)@ + cards@,
    {
        let ghost given = cards@;
        let mut cards = cards;
        while cards.len() > 0
            invariant
                self@ + cards@ == old(self)@ + given,
            decreases cards@.len(),
        {
            let ghost before_cards = cards@;
            let ghost before_deck = self@;
            let c = cards.remove(0);
            self.cards.push_back(c);
            proof {
                assert(before_cards.remove(0) =~= before_cards.drop_first());
                assert(self@ + cards@ =~= before_deck + before_cards);
            }
        }
        proof {
            assert(self@ + cards@ =~= self@);
        }
    }

    /// Rearranges the pile in place with a Fisher-Yates pass, drawing each
    /// exchange position from the random source. The pile afterwards holds
    /// exactly the cards it held before.
    pub fn shuffle<R: RandomEngine>(deck: &mut Deck<T>, r: &mut R) where T: Copy
        ensures
            final(deck)@.to_multiset() == old(deck)@.to_multiset(),
            final(deck)@.len() == old(deck)@.len(),
    {
        broadcast use group_to_multiset_ensures;

        let mut cards: Vec<T> = deck.draw_all();
        let len = cards.len();
        let mut i = len;
        while i > 1
            invariant
                i <= len,
                cards@.len() == len,
                cards@.to_multiset() == old(deck)@.to_multiset(),
            decreases i,
        {
            i = i - 1;
            let raw = r.next();
            let j = uniform_index(raw, i);
            let ghost before = cards@;
            let a = cards[i];
            let b = cards[j];
            cards[i] = b;
            cards[j] = a;
            proof {
                lemma_swap_preserves_multiset(before, i as int, j as int);
            }
        }
        let ghost shuffled = cards@;
        deck.put_bottom_many(cards);
        proof {
            assert(deck@ =~= shuffled);
        }
    }
}

impl<T> Default for Deck<T> {
    /// Builds an empty pile.
    fn default() -> (d: Self)
        ensures
            d@ == Seq::<T>::empty(),
    {
        Deck::new()
    }
}

} // verus!
