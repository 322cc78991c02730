//! The Klondike rules engine: one game's draw pile, waste pile, four
//! foundations and seven tableaus, mutated only through [`MemoryGame::act`],
//! which either fully commits a legal move or leaves the state untouched.

use vstd::prelude::*;
use vstd::multiset::Multiset;
use vstd::assert_multisets_equal;
use crate::cards::Deck;
use crate::french::{lemma_standard_52_valid, standard_52_deck, standard_52_seq, Card, Suite, ACE, KING};
use crate::random_engine::RandomEngine;

verus! {

broadcast use vstd::seq_lib::group_to_multiset_ensures, vstd::seq_lib::lemma_multiset_commutative, vstd::multiset::group_multiset_axioms;

/// How many tableaus a game owns.
pub const TABLEAUS_COUNT: usize = 7;

/// The four per-suite foundation counters. Each holds the highest rank
/// placed so far for its suite, 0 when the foundation is empty.
#[derive(Copy, Clone, Debug, PartialEq, Eq, Structural)]
pub struct Foundations {
    pub hearts: u8,
    pub diamonds: u8,
    pub clubs: u8,
    pub spades: u8,
}

/// One foundation counter paired with its suite, as handed out by
/// [`Foundations::iter`].
#[derive(Copy, Clone, Debug, PartialEq, Eq, Structural)]
pub struct Foundation {
    pub suite: Suite,
    pub value: u8,
}

impl Foundations {
    /// The counter of the given suite.
    pub open spec fn spec_value(self, s: Suite) -> u8 {
        match s {
            Suite::Hearts => self.hearts,
            Suite::Diamonds => self.diamonds,
            Suite::Clubs => self.clubs,
            Suite::Spades => self.spades,
        }
    }

    /// This value with the counter of the given suite replaced.
    pub open spec fn spec_with(self, s: Suite, v: u8) -> Foundations {
        match s {
            Suite::Hearts => Foundations { hearts: v, ..self },
            Suite::Diamonds => Foundations { diamonds: v, ..self },
            Suite::Clubs => Foundations { clubs: v, ..self },
            Suite::Spades => Foundations { spades: v, ..self },
        }
    }

    /// Every counter stays within the thirteen ranks.
    pub open spec fn wf(self) -> bool {
        self.hearts <= KING && self.diamonds <= KING && self.clubs <= KING && self.spades <= KING
    }

    /// All four suites have reached the king.
    pub open spec fn all_complete(self) -> bool {
        self.hearts == KING && self.diamonds == KING && self.clubs == KING && self.spades == KING
    }

    /// How many cards the four foundations hold together.
    pub open spec fn total(self) -> int {
        self.hearts + self.diamonds + self.clubs + self.spades
    }

    /// Builds four empty foundations.
    pub fn new() -> (f: Foundations)
        ensures
            f == (Foundations { hearts: 0, diamonds: 0, clubs: 0, spades: 0 }),
    {
        Foundations { hearts: 0, diamonds: 0, clubs: 0, spades: 0 }
    }

    /// Returns the counter of the given suite.
    pub fn value(&self, s: Suite) -> (v: u8)
        ensures
            v == self.spec_value(s),
    {
        match s {
            Suite::Hearts => self.hearts,
            Suite::Diamonds => self.diamonds,
            Suite::Clubs => self.clubs,
            Suite::Spades => self.spades,
        }
    }

    /// Replaces the counter of the given suite.
    pub fn set_value(&mut self, s: Suite, v: u8)
        ensures
            *final(self) == old(self).spec_with(s, v),
    {
        match s {
            Suite::Hearts => self.hearts = v,
            Suite::Diamonds => self.diamonds = v,
            Suite::Clubs => self.clubs = v,
            Suite::Spades => self.spades = v,
        }
    }

    /// Returns the four counters paired with their suites, hearts first,
    /// then diamonds, clubs and spades.
    pub fn iter(&self) -> (v: Vec<Foundation>)
        ensures
            v@ == seq![
                Foundation { suite: Suite::Hearts, value: self.hearts },
                Foundation { suite: Suite::Diamonds, value: self.diamonds },
                Foundation { suite: Suite::Clubs, value: self.clubs },
                Foundation { suite: Suite::Spades, value: self.spades },
            ],
    {
        let mut v: Vec<Foundation> = Vec::new();
        v.push(Foundation { suite: Suite::Hearts, value: self.hearts });
        v.push(Foundation { suite: Suite::Diamonds, value: self.diamonds });
        v.push(Foundation { suite: Suite::Clubs, value: self.clubs });
        v.push(Foundation { suite: Suite::Spades, value: self.spades });
        proof {
            assert(v@ =~= seq![
                Foundation { suite: Suite::Hearts, value: self.hearts },
                Foundation { suite: Suite::Diamonds, value: self.diamonds },
                Foundation { suite: Suite::Clubs, value: self.clubs },
                Foundation { suite: Suite::Spades, value: self.spades },
            ]);
        }
        v
    }
}

/// The mathematical shape of one tableau: its full pile, bottom of the
/// screen last, and how many of its trailing cards are upturned.
#[verifier::ext_equal]
pub ghost struct TabView {
    pub pile: Seq<Card>,
    pub up: nat,
}

/// A tableau is well formed when the upturned count stays within the pile
/// and a non-empty pile always exposes at least one card.
pub open spec fn tab_wf(t: TabView) -> bool {
    &&& t.up <= t.pile.len()
    &&& (t.pile.len() > 0 ==> t.up >= 1)
}

/// Reveal-on-empty: a tableau that still holds cards but exposes none
/// exposes its last card.
pub open spec fn spec_maybe_upturn(t: TabView) -> TabView {
    if t.up == 0 && t.pile.len() > 0 {
        TabView { up: 1, ..t }
    } else {
        t
    }
}

/// The tableau after its bottom-most card left for a foundation: the pile
/// loses its last card, the upturned count drops by one, and
/// reveal-on-empty applies.
pub open spec fn spec_remove_bottom(t: TabView) -> TabView {
    spec_maybe_upturn(
        TabView {
            pile: t.pile.drop_last(),
            up: if t.up > 0 {
                (t.up - 1) as nat
            } else {
                0
            },
        },
    )
}

/// The tableau after a run of `size` upturned cards left its end, with
/// reveal-on-empty applied.
pub open spec fn spec_take_upturned(t: TabView, size: nat) -> TabView {
    spec_maybe_upturn(
        TabView { pile: t.pile.take(t.pile.len() - size), up: (t.up - size) as nat },
    )
}

/// The tableau after a run landed on it: the run joins the end of the pile
/// and every card of it counts as upturned.
pub open spec fn spec_add_upturned(t: TabView, run: Seq<Card>) -> TabView {
    TabView { pile: t.pile + run, up: (t.up + run.len()) as nat }
}

/// The exposed bottom-most card of a tableau, if it exposes any.
pub open spec fn tab_bottom(t: TabView) -> Option<Card> {
    if t.up > 0 && t.pile.len() > 0 {
        Some(t.pile.last())
    } else {
        None
    }
}

/// One tableau as stored: the pile and its upturned count.
struct MemoryTableau {
    pile: Vec<Card>,
    upturned: usize,
}

impl View for MemoryTableau {
    type V = TabView;

    closed spec fn view(&self) -> TabView {
        TabView { pile: self.pile@, up: self.upturned as nat }
    }
}

impl MemoryTableau {
    /// Returns the exposed bottom-most card, if any card is exposed.
    fn bottom(&self) -> (r: Option<&Card>)
        ensures
            match r {
                Some(c) => tab_bottom(self@) == Some(*c),
                None => tab_bottom(self@) is None,
            },
    {
        if self.upturned > 0 && self.pile.len() > 0 {
            Some(&self.pile[self.pile.len() - 1])
        } else {
            None
        }
    }

    /// Applies reveal-on-empty.
    fn maybe_upturn(&mut self)
        ensures
            final(self)@ == spec_maybe_upturn(old(self)@),
    {
        if self.upturned == 0 && self.pile.len() > 0 {
            self.upturned = 1;
        }
        proof {
            assert(self@ =~= spec_maybe_upturn(old(self)@));
        }
    }

    /// Removes the last `size` cards, all upturned, and returns them in
    /// pile order.
    fn take_upturned(&mut self, size: usize) -> (sent: Vec<Card>)
        requires
            tab_wf(old(self)@),
            size <= old(self)@.up,
        ensures
            sent@ == old(self)@.pile.skip(old(self)@.pile.len() - size),
            final(self)@ == spec_take_upturned(old(self)@, size as nat),
    {
        self.upturned = self.upturned - size;
        let at = self.pile.len() - size;
        let sent = self.pile.split_off(at);
        self.maybe_upturn();
        proof {
            assert(sent@ =~= old(self)@.pile.skip(old(self)@.pile.len() - size));
            assert(old(self)@.pile.subrange(0, at as int) =~= old(self)@.pile.take(
                old(self)@.pile.len() - size,
            ));
        }
        sent
    }

    /// Appends the run to the pile, every card of it upturned.
    fn add_upturned(&mut self, cards: Vec<Card>)
        requires
            old(self)@.up <= old(self)@.pile.len(),
        ensures
            final(self)@ == spec_add_upturned(old(self)@, cards@),
    {
        let ghost given = cards@;
        let mut cards = cards;
        while cards.len() > 0
            invariant
                self@.up <= self@.pile.len(),
                self@.pile + cards@ == old(self)@.pile + given,
                self@.up == old(self)@.up + given.len() - cards@.len(),
            decreases cards@.len(),
        {
            let ghost before_pile = self@.pile;
            let ghost before_cards = cards@;
            let c = cards.remove(0);
            self.pile.push(c);
            let n = self.pile.len();
            proof {
                assert(self@.up < n);
            }
            self.upturned = self.upturned + 1;
            proof {
                assert(before_cards.remove(0) =~= before_cards.drop_first());
                assert(self@.pile + cards@ =~= before_pile + before_cards);
            }
        }
        proof {
            assert(self@.pile + cards@ =~= self@.pile);
            assert(self@ =~= spec_add_upturned(old(self)@, given));
        }
    }

    /// Removes the bottom-most card after it left for a foundation.
    fn remove_bottom(&mut self)
        requires
            old(self)@.pile.len() > 0,
        ensures
            final(self)@ == spec_remove_bottom(old(self)@),
    {
        self.pile.pop();
        if self.upturned > 0 {
            self.upturned = self.upturned - 1;
        }
        self.maybe_upturn();
        proof {
            assert(self@ =~= spec_remove_bottom(old(self)@));
        }
    }

    /// Returns the pile length.
    fn pile_len(&self) -> (n: usize)
        ensures
            n == self@.pile.len(),
    {
        self.pile.len()
    }

    /// Returns how many trailing cards are upturned.
    fn upturned_len(&self) -> (n: usize)
        ensures
            n == self@.up,
    {
        self.upturned
    }

    /// Returns the last card of the pile, which must not be empty.
    fn last_card(&self) -> (c: Card)
        requires
            self@.pile.len() > 0,
        ensures
            c == self@.pile.last(),
    {
        self.pile[self.pile.len() - 1]
    }

    /// Returns copies of the upturned cards, in pile order.
    fn upturned_vec(&self) -> (r: Vec<Card>)
        requires
            tab_wf(self@),
        ensures
            r@ == self@.pile.skip(self@.pile.len() - self@.up),
    {
        let down = self.pile.len() - self.upturned;
        let mut r: Vec<Card> = Vec::new();
        let mut k: usize = down;
        while k < self.pile.len()
            invariant
                down <= k <= self@.pile.len(),
                down == self@.pile.len() - self@.up,
                r@ == self@.pile.subrange(down as int, k as int),
            decreases self@.pile.len() - k,
        {
            r.push(self.pile[k]);
            proof {
                assert(self@.pile.subrange(down as int, k as int).push(self@.pile[k as int])
                    =~= self@.pile.subrange(down as int, k + 1));
            }
            k = k + 1;
        }
        r
    }
}

/// The mathematical shape of one game: the two face piles, the four
/// foundation counters and the seven tableaus.
#[verifier::ext_equal]
pub ghost struct GameView {
    pub draw: Seq<Card>,
    pub waste: Seq<Card>,
    pub found: Foundations,
    pub tabs: Seq<TabView>,
}

/// Every card of the sequence is a valid playing card.
pub open spec fn cards_valid(s: Seq<Card>) -> bool {
    forall|i: int| 0 <= i < s.len() ==> (#[trigger] s[i]).valid()
}

/// How many cards the tableaus hold together.
pub open spec fn tabs_card_count(tabs: Seq<TabView>) -> int
    decreases tabs.len(),
{
    if tabs.len() == 0 {
        0
    } else {
        tabs_card_count(tabs.drop_last()) + tabs.last().pile.len()
    }
}

/// How many cards the whole game holds, over every zone.
pub open spec fn total_cards(g: GameView) -> int {
    g.draw.len() + g.waste.len() + g.found.total() + tabs_card_count(g.tabs)
}

/// A game is well formed when it owns seven tableaus, each well formed and
/// holding valid cards, valid cards on its face piles, and foundation
/// counters within the thirteen ranks.
pub open spec fn wf(g: GameView) -> bool {
    &&& g.tabs.len() == TABLEAUS_COUNT
    &&& g.found.wf()
    &&& forall|i: int| 0 <= i < g.tabs.len() ==> tab_wf(#[trigger] g.tabs[i])
    &&& cards_valid(g.draw)
    &&& cards_valid(g.waste)
    &&& forall|i: int| 0 <= i < g.tabs.len() ==> cards_valid((#[trigger] g.tabs[i]).pile)
}

/// The source of a card played onto a foundation: the top of the waste, or
/// a tableau's exposed bottom card.
#[derive(Copy, Clone, Debug, PartialEq, Eq, Structural)]
pub enum FoundationSource {
    Upturned,
    Tableau(usize),
}

/// The source of a run moved between tableaus: the single waste-top card,
/// or `size` upturned cards ending a tableau.
#[derive(Copy, Clone, Debug, PartialEq, Eq, Structural)]
pub enum TableauSource {
    Upturned,
    Tableau { index: usize, size: usize },
}

/// One move against a game.
#[derive(Copy, Clone, Debug, PartialEq, Eq, Structural)]
pub enum Action {
    Draw,
    BuildFoundation { src: FoundationSource },
    BuildTableau { src: TableauSource, dst: usize },
}

/// The visible outcome of a move.
#[derive(Clone, Debug, PartialEq, Eq)]
pub enum ActionResult {
    Victory,
    OnGoing,
    Failed(String),
}

/// Why a move was rejected.
#[derive(Copy, Clone, Debug, PartialEq, Eq, Structural)]
pub enum Reason {
    NoSourceCard,
    InvalidRank,
    InvalidDest,
    InvalidSource,
    InvalidTarget,
}

/// The outcome of a move in the mathematical model.
#[derive(Copy, Clone, Debug, PartialEq, Eq, Structural)]
pub enum StepOut {
    Victory,
    OnGoing,
    Fail(Reason),
}

/// The state a move leads to, together with its outcome.
#[verifier::ext_equal]
pub ghost struct StepResult {
    pub post: GameView,
    pub out: StepOut,
}

/// The reason string that a rejected move reports.
pub open spec fn fail_text(k: Reason) -> Seq<char> {
    match k {
        Reason::NoSourceCard => "No source card"@,
        Reason::InvalidRank => "Invalid rank"@,
        Reason::InvalidDest => "Invalid dest"@,
        Reason::InvalidSource => "Invalid source"@,
        Reason::InvalidTarget => "Invalid target"@,
    }
}

/// The executable outcome `r` reports exactly the model outcome `o`,
/// including the reason string of a rejection.
pub open spec fn out_matches(r: ActionResult, o: StepOut) -> bool {
    match o {
        StepOut::Victory => r is Victory,
        StepOut::OnGoing => r is OnGoing,
        StepOut::Fail(k) => r matches ActionResult::Failed(m) && m@ == fail_text(k),
    }
}

/// The game after a draw: an empty draw pile is first refilled by the whole
/// waste pile, order preserved top to bottom; then the draw pile's top
/// card, if any, moves onto the top of the waste.
pub open spec fn spec_draw(g: GameView) -> GameView {
    let g1 = if g.draw.len() == 0 {
        GameView { draw: g.waste, waste: Seq::empty(), ..g }
    } else {
        g
    };
    if g1.draw.len() > 0 {
        GameView { draw: g1.draw.drop_first(), waste: seq![g1.draw[0]] + g1.waste, ..g1 }
    } else {
        g1
    }
}

/// The card a foundation move would play: the waste top, or the last card
/// of the named tableau's pile.
pub open spec fn foundation_source_card(g: GameView, src: FoundationSource) -> Option<Card> {
    match src {
        FoundationSource::Upturned => if g.waste.len() > 0 {
            Some(g.waste[0])
        } else {
            None
        },
        FoundationSource::Tableau(idx) => if idx < g.tabs.len() && g.tabs[
            idx as int
        ].pile.len() > 0 {
            Some(g.tabs[idx as int].pile.last())
        } else {
            None
        },
    }
}

/// A foundation move: valid exactly when the source card exists and its
/// rank is one above its suite's counter. On success the counter takes the
/// card's rank, the card leaves its source, and the outcome is Victory
/// exactly when all four counters reach the king.
pub open spec fn spec_build_foundation(g: GameView, src: FoundationSource) -> StepResult {
    match foundation_source_card(g, src) {
        None => StepResult { post: g, out: StepOut::Fail(Reason::NoSourceCard) },
        Some(c) => {
            if c.rank != g.found.spec_value(c.suite) + 1 {
                StepResult { post: g, out: StepOut::Fail(Reason::InvalidRank) }
            } else {
                let f2 = g.found.spec_with(c.suite, c.rank);
                let g2 = match src {
                    FoundationSource::Upturned => GameView {
                        waste: g.waste.drop_first(),
                        found: f2,
                        ..g
                    },
                    FoundationSource::Tableau(idx) => GameView {
                        found: f2,
                        tabs: g.tabs.update(idx as int, spec_remove_bottom(g.tabs[idx as int])),
                        ..g
                    },
                };
                StepResult {
                    post: g2,
                    out: if f2.all_complete() {
                        StepOut::Victory
                    } else {
                        StepOut::OnGoing
                    },
                }
            }
        },
    }
}

/// The joint of a tableau move: the waste-top card, or the first card of
/// the run of `size` upturned cards ending the source tableau. There is no
/// joint when the source tableau is out of range, equals the destination,
/// or cannot spare `size` upturned cards.
pub open spec fn tableau_joint(g: GameView, src: TableauSource, dst: usize) -> Option<Card> {
    match src {
        TableauSource::Upturned => if g.waste.len() > 0 {
            Some(g.waste[0])
        } else {
            None
        },
        TableauSource::Tableau { index, size } => if index < g.tabs.len() && 0 < size <= g.tabs[
            index as int
        ].up && index != dst {
            Some(g.tabs[index as int].pile[g.tabs[index as int].pile.len() - size])
        } else {
            None
        },
    }
}

/// The run of cards a tableau move relocates.
pub open spec fn tableau_run(g: GameView, src: TableauSource) -> Seq<Card> {
    match src {
        TableauSource::Upturned => seq![g.waste[0]],
        TableauSource::Tableau { index, size } => g.tabs[index as int].pile.skip(
            g.tabs[index as int].pile.len() - size,
        ),
    }
}

/// A tableau move: the joint must exist, and must be a king onto an empty
/// destination, or one rank below the destination's exposed bottom card and
/// of the other color. On success the whole run moves onto the destination
/// as newly upturned cards.
pub open spec fn spec_build_tableau(g: GameView, src: TableauSource, dst: usize) -> StepResult {
    if dst >= g.tabs.len() {
        StepResult { post: g, out: StepOut::Fail(Reason::InvalidDest) }
    } else {
        match tableau_joint(g, src, dst) {
            None => StepResult { post: g, out: StepOut::Fail(Reason::InvalidSource) },
            Some(joint) => {
                let valid = match tab_bottom(g.tabs[dst as int]) {
                    None => joint.rank == KING,
                    Some(bottom) => joint.suite.spec_color() != bottom.suite.spec_color()
                        && joint.rank == bottom.rank - 1,
                };
                if !valid {
                    StepResult { post: g, out: StepOut::Fail(Reason::InvalidTarget) }
                } else {
                    let run = tableau_run(g, src);
                    let g1 = match src {
                        TableauSource::Upturned => GameView { waste: g.waste.drop_first(), ..g },
                        TableauSource::Tableau { index, size } => GameView {
                            tabs: g.tabs.update(
                                index as int,
                                spec_take_upturned(g.tabs[index as int], size as nat),
                            ),
                            ..g
                        },
                    };
                    let g2 = GameView {
                        tabs: g1.tabs.update(
                            dst as int,
                            spec_add_upturned(g1.tabs[dst as int], run),
                        ),
                        ..g1
                    };
                    StepResult { post: g2, out: StepOut::OnGoing }
                }
            },
        }
    }
}

/// One move of the rules engine, as a function from state and action to
/// state and outcome.
pub open spec fn spec_step(g: GameView, a: Action) -> StepResult {
    match a {
        Action::Draw => StepResult { post: spec_draw(g), out: StepOut::OnGoing },
        Action::BuildFoundation { src } => spec_build_foundation(g, src),
        Action::BuildTableau { src, dst } => spec_build_tableau(g, src, dst),
    }
}

/// Two sequences with the same multiset either both hold only valid cards
/// or neither does.
proof fn lemma_same_multiset_valid(s1: Seq<Card>, s2: Seq<Card>)
    requires
        s1.to_multiset() == s2.to_multiset(),
        cards_valid(s1),
    ensures
        cards_valid(s2),
{

    assert forall|i: int| 0 <= i < s2.len() implies (#[trigger] s2[i]).valid() by {
        assert(s2.contains(s2[i]));
        assert(s2.to_multiset().count(s2[i]) > 0);
        assert(s1.contains(s2[i]));
        let j = choose|j: int| 0 <= j < s1.len() && s1[j] == s2[i];
        assert(s1[j].valid());
    }
}

/// How many cards the first `n` tableaus of a fresh deal hold: the n-th
/// triangular number.
pub open spec fn tri(n: nat) -> int
    decreases n,
{
    if n == 0 {
        0
    } else {
        tri((n - 1) as nat) + n
    }
}

proof fn lemma_tri_mono(a: nat, b: nat)
    requires
        a <= b,
    ensures
        tri(a) <= tri(b),
    decreases b,
{
    if a < b {
        lemma_tri_mono(a, (b - 1) as nat);
    }
}

/// One game held in memory, mutated only through [`MemoryGame::act`].
pub struct MemoryGame {
    draw_pile: Deck<Card>,
    waste: Deck<Card>,
    foundations: Foundations,
    tableaus: Vec<MemoryTableau>,
}

impl View for MemoryGame {
    type V = GameView;

    closed spec fn view(&self) -> GameView {
        GameView {
            draw: self.draw_pile@,
            waste: self.waste@,
            found: self.foundations,
            tabs: self.tableaus@.map_values(|t: MemoryTableau| t@),
        }
    }
}

impl MemoryGame {
    /// Builds a fresh game: the 52-card deck is shuffled with the given
    /// random source and dealt into seven tableaus of one through seven
    /// cards, each exposing exactly its last card; the 24 remaining cards
    /// form the draw pile and the waste starts empty.
    pub fn new<R: RandomEngine>(rand: &mut R) -> (g: MemoryGame)
        ensures
            wf(g@),
            total_cards(g@) == 52,
            game_cards(g@) == standard_52_seq().to_multiset(),
            g@.draw.len() == 24,
            g@.waste == Seq::<Card>::empty(),
            g@.found == (Foundations { hearts: 0, diamonds: 0, clubs: 0, spades: 0 }),
            forall|i: int|
                0 <= i < TABLEAUS_COUNT ==> (#[trigger] g@.tabs[i]).pile.len() == i + 1
                    && g@.tabs[i].up == 1,
    {
        let mut draw_pile = standard_52_deck();
        Deck::shuffle(&mut draw_pile, rand);
        proof {
            lemma_standard_52_valid();
            assert(cards_valid(standard_52_seq()));
            lemma_same_multiset_valid(standard_52_seq(), draw_pile@);
        }
        let ghost deck0 = draw_pile@;
        let mut tableaus: Vec<MemoryTableau> = Vec::new();
        let mut i: usize = 0;
        while i < TABLEAUS_COUNT
            invariant
                i <= TABLEAUS_COUNT,
                tableaus@.len() == i,
                draw_pile@.len() == 52 - tri(i as nat),
                cards_valid(draw_pile@),
                tabs_card_count(tableaus@.map_values(|t: MemoryTableau| t@)) == tri(i as nat),
                draw_pile@.to_multiset().add(
                    tabs_cards(tableaus@.map_values(|t: MemoryTableau| t@)),
                ) == deck0.to_multiset(),
                forall|k: int|
                    0 <= k < i ==> (#[trigger] tableaus@[k])@.pile.len() == k + 1
                        && tableaus@[k]@.up == 1 && cards_valid(tableaus@[k]@.pile),
            decreases TABLEAUS_COUNT - i,
        {
            proof {
                lemma_tri_mono((i + 1) as nat, 7);
                assert(tri(7) == 28) by {
                    reveal_with_fuel(tri, 8);
                }
            }
            let ghost before_draw = draw_pile@;
            let ghost before_tabs = tableaus@.map_values(|t: MemoryTableau| t@);
            let pile = draw_pile.draw_many(i + 1);
            proof {
                assert forall|k: int| 0 <= k < pile@.len() implies (#[trigger] pile@[k]).valid() by {
                    assert(pile@[k] == before_draw[k]);
                }
                assert forall|k: int| 0 <= k < draw_pile@.len() implies (#[trigger] draw_pile@[
                    k
                ]).valid() by {
                    assert(draw_pile@[k] == before_draw[k + i + 1]);
                }
            }
            let tab = MemoryTableau { pile, upturned: 1 };
            tableaus.push(tab);
            proof {
                let after_tabs = tableaus@.map_values(|t: MemoryTableau| t@);
                assert(after_tabs.drop_last() =~= before_tabs);
                assert(after_tabs.last() == tab@);
                assert(tab@.pile + draw_pile@ =~= before_draw);
                assert_multisets_equal!(
                    draw_pile@.to_multiset().add(tabs_cards(after_tabs)),
                    deck0.to_multiset(),
                    v => {
                        assert((tab@.pile + draw_pile@).to_multiset().count(v)
                            == tab@.pile.to_multiset().count(v) + draw_pile@.to_multiset().count(
                            v,
                        ));
                    }
                );
            }
            i = i + 1;
        }
        proof {
            assert(tri(7) == 28) by {
                reveal_with_fuel(tri, 8);
            }
        }
        let g = MemoryGame {
            draw_pile,
            waste: Deck::new(),
            foundations: Foundations::new(),
            tableaus,
        };
        proof {
            assert(Seq::<Card>::empty().to_multiset() =~= Multiset::<Card>::empty());
            assert(game_cards(g@) =~= deck0.to_multiset());
        }
        g
    }

    /// Decides well-formedness at run time, for callers that cannot carry
    /// the proof: it returns exactly whether [`wf`] holds of the state.
    pub fn is_well_formed(&self) -> (r: bool)
        ensures
            r == wf(self@),
    {
        if self.tableaus.len() != TABLEAUS_COUNT {
            return false;
        }
        let f = &self.foundations;
        if !(f.hearts <= KING && f.diamonds <= KING && f.clubs <= KING && f.spades <= KING) {
            return false;
        }
        let draw = self.draw_pile.peek_many(self.draw_pile.len());
        proof {
            assert(draw@ =~= self@.draw);
        }
        if !valid_cards(&draw) {
            return false;
        }
        let waste = self.waste.peek_many(self.waste.len());
        proof {
            assert(waste@ =~= self@.waste);
        }
        if !valid_cards(&waste) {
            return false;
        }
        let mut k: usize = 0;
        while k < self.tableaus.len()
            invariant
                k <= self.tableaus@.len(),
                self.tableaus@.len() == TABLEAUS_COUNT,
                forall|j: int|
                    0 <= j < k ==> tab_wf(#[trigger] self@.tabs[j]) && cards_valid(
                        self@.tabs[j].pile,
                    ),
            decreases self.tableaus@.len() - k,
        {
            proof {
                assert(self@.tabs[k as int] == self.tableaus@[k as int]@);
            }
            let t = &self.tableaus[k];
            if t.upturned > t.pile.len() {
                return false;
            }
            if t.pile.len() > 0 && t.upturned == 0 {
                return false;
            }
            if !valid_cards(&t.pile) {
                return false;
            }
            k = k + 1;
        }
        true
    }

    /// Returns how many cards wait on the draw pile.
    pub fn draw_pile_size(&self) -> (n: usize)
        ensures
            n == self@.draw.len(),
    {
        self.draw_pile.len()
    }

    /// Returns the card showing on top of the waste, if any.
    pub fn upturned(&self) -> (r: Option<Card>)
        ensures
            r == spec_waste_top(self@),
    {
        match self.waste.peek() {
            None => None,
            Some(c) => Some(*c),
        }
    }

    /// Returns the four foundation counters.
    pub fn foundations(&self) -> (f: Foundations)
        ensures
            f == self@.found,
    {
        self.foundations
    }

    /// Returns each tableau as its concealed count and its exposed run.
    pub fn tableaus(&self) -> (v: Vec<Tableau>)
        requires
            wf(self@),
        ensures
            v.deep_view() == spec_tableaus(self@),
    {
        let mut v: Vec<Tableau> = Vec::new();
        let mut k: usize = 0;
        while k < self.tableaus.len()
            invariant
                wf(self@),
                k <= self.tableaus@.len(),
                v@.len() == k,
                forall|j: int| 0 <= j < k ==> (#[trigger] v@[j])@ == spec_tableaus(self@)[j],
            decreases self.tableaus@.len() - k,
        {
            proof {
                assert(self@.tabs[k as int] == self.tableaus@[k as int]@);
                assert(tab_wf(self.tableaus@[k as int]@));
            }
            let t = &self.tableaus[k];
            let down = t.pile_len() - t.upturned_len();
            let up = t.upturned_vec();
            v.push(Tableau { downfaced_len: down, upturned: up });
            proof {
                assert(v@[k as int]@ == spec_tableaus(self@)[k as int]);
            }
            k = k + 1;
        }
        proof {
            assert(v.deep_view() =~= spec_tableaus(self@));
        }
        v
    }

    /// Returns a complete rendering of the current state.
    pub fn snapshot(&self) -> (s: Snapshot)
        requires
            wf(self@),
        ensures
            s@ == spec_snapshot(self@),
    {
        let s = Snapshot {
            draw_pile_size: self.draw_pile_size(),
            upturned: self.upturned(),
            foundations: self.foundations(),
            tableaus: self.tableaus(),
        };
        proof {
            assert(s@ =~= spec_snapshot(self@));
        }
        s
    }
}

/// Builds the outcome of a rejected move, carrying its reason string.
fn failed(k: Reason) -> (r: ActionResult)
    ensures
        out_matches(r, StepOut::Fail(k)),
{
    proof {
        reveal_strlit("No source card");
        reveal_strlit("Invalid rank");
        reveal_strlit("Invalid dest");
        reveal_strlit("Invalid source");
        reveal_strlit("Invalid target");
    }
    let s = match k {
        Reason::NoSourceCard => "No source card",
        Reason::InvalidRank => "Invalid rank",
        Reason::InvalidDest => "Invalid dest",
        Reason::InvalidSource => "Invalid source",
        Reason::InvalidTarget => "Invalid target",
    };
    let m = s.to_owned();
    proof {
        assert(m@ =~= fail_text(k));
    }
    ActionResult::Failed(m)
}

/// Updating one stored tableau updates the same position of the viewed
/// tableau sequence.
proof fn lemma_map_view_update(tabs: Seq<MemoryTableau>, i: int, t: MemoryTableau)
    requires
        0 <= i < tabs.len(),
    ensures
        tabs.update(i, t).map_values(|x: MemoryTableau| x@) =~= tabs.map_values(
            |x: MemoryTableau| x@,
        ).update(i, t@),
{
}

impl MemoryGame {
    /// Performs a draw: refill an empty draw pile from the waste, order
    /// preserved, then turn the draw pile's top card onto the waste.
    fn act_draw(&mut self) -> (r: ActionResult)
        ensures
            final(self)@ == spec_draw(old(self)@),
            r is OnGoing,
    {
        if self.draw_pile.is_empty() {
            let w = self.waste.draw_all();
            self.draw_pile.put_bottom_many(w);
            proof {
                assert(self@.draw =~= old(self)@.waste);
            }
        }
        match self.draw_pile.draw() {
            Some(c) => {
                self.waste.put_top(c);
            },
            None => {},
        }
        proof {
            assert(self@ =~= spec_draw(old(self)@));
        }
        ActionResult::OnGoing
    }

    /// Performs a foundation move.
    fn act_build_foundation(&mut self, src: FoundationSource) -> (r: ActionResult)
        requires
            wf(old(self)@),
        ensures
            final(self)@ == spec_build_foundation(old(self)@, src).post,
            out_matches(r, spec_build_foundation(old(self)@, src).out),
    {
        let maybe_card: Option<Card> = match src {
            FoundationSource::Upturned => match self.waste.peek() {
                Some(c) => Some(*c),
                None => None,
            },
            FoundationSource::Tableau(idx) => {
                if idx >= self.tableaus.len() {
                    None
                } else {
                    proof {
                        assert(old(self)@.tabs[idx as int] == self.tableaus@[idx as int]@);
                    }
                    let t = &self.tableaus[idx];
                    if t.pile_len() > 0 {
                        Some(t.last_card())
                    } else {
                        None
                    }
                }
            },
        };
        proof {
            assert(maybe_card == foundation_source_card(old(self)@, src));
        }
        match maybe_card {
            None => failed(Reason::NoSourceCard),
            Some(c) => {
                proof {
                    assert(c.valid()) by {
                        match src {
                            FoundationSource::Upturned => {
                                assert(old(self)@.waste[0].valid());
                            },
                            FoundationSource::Tableau(idx) => {
                                let pile = old(self)@.tabs[idx as int].pile;
                                assert(pile[pile.len() - 1].valid());
                            },
                        }
                    }
                }
                let suite = c.suite();
                let dest = self.foundations.value(suite);
                proof {
                    assert(dest <= KING);
                }
                if c.rank() != dest + 1 {
                    failed(Reason::InvalidRank)
                } else {
                    self.foundations.set_value(suite, c.rank());
                    match src {
                        FoundationSource::Tableau(idx) => {
                            let ghost before = self.tableaus@;
                            let t = &mut self.tableaus[idx];
                            t.remove_bottom();
                            proof {
                                lemma_map_view_update(before, idx as int, *t);
                            }
                        },
                        FoundationSource::Upturned => {
                            let _ = self.waste.draw();
                        },
                    }
                    proof {
                        assert(self@ =~= spec_build_foundation(old(self)@, src).post);
                    }
                    if self.foundations.hearts == KING && self.foundations.diamonds == KING
                        && self.foundations.clubs == KING && self.foundations.spades == KING {
                        ActionResult::Victory
                    } else {
                        ActionResult::OnGoing
                    }
                }
            },
        }
    }

    /// Performs a tableau move.
    fn act_build_tableau(&mut self, src: TableauSource, dst: usize) -> (r: ActionResult)
        requires
            wf(old(self)@),
        ensures
            final(self)@ == spec_build_tableau(old(self)@, src, dst).post,
            out_matches(r, spec_build_tableau(old(self)@, src, dst).out),
    {
        let joint: Option<Card> = match src {
            TableauSource::Upturned => match self.waste.peek() {
                Some(c) => Some(*c),
                None => None,
            },
            TableauSource::Tableau { index, size } => {
                if index >= self.tableaus.len() || size == 0 {
                    None
                } else {
                    proof {
                        assert(old(self)@.tabs[index as int] == self.tableaus@[index as int]@);
                        assert(tab_wf(old(self)@.tabs[index as int]));
                    }
                    let t = &self.tableaus[index];
                    if size > t.upturned_len() || index == dst {
                        None
                    } else {
                        Some(t.pile[t.pile.len() - size])
                    }
                }
            },
        };
        if dst >= self.tableaus.len() {
            return failed(Reason::InvalidDest);
        }
        proof {
            assert(joint == tableau_joint(old(self)@, src, dst));
        }
        match joint {
            None => failed(Reason::InvalidSource),
            Some(joint) => {
                proof {
                    assert(old(self)@.tabs[dst as int] == self.tableaus@[dst as int]@);
                }
                let valid = {
                    let dt = &self.tableaus[dst];
                    match dt.bottom() {
                        None => joint.rank() == KING,
                        Some(b) => {
                            let b = *b;
                            joint.suite().color() != b.suite().color() && (joint.rank() as u16) + 1
                                == (b.rank() as u16)
                        },
                    }
                };
                if !valid {
                    failed(Reason::InvalidTarget)
                } else {
                    let cards: Vec<Card> = match src {
                        TableauSource::Upturned => {
                            let c = self.waste.draw().unwrap();
                            let mut v: Vec<Card> = Vec::new();
                            v.push(c);
                            proof {
                                assert(v@ =~= seq![old(self)@.waste[0]]);
                            }
                            v
                        },
                        TableauSource::Tableau { index, size } => {
                            let ghost before = self.tableaus@;
                            let t = &mut self.tableaus[index];
                            let v = t.take_upturned(size);
                            proof {
                                lemma_map_view_update(before, index as int, *t);
                            }
                            v
                        },
                    };
                    proof {
                        assert(cards@ == tableau_run(old(self)@, src));
                    }
                    let ghost mid = self.tableaus@;
                    let d = &mut self.tableaus[dst];
                    d.add_upturned(cards);
                    proof {
                        lemma_map_view_update(mid, dst as int, *d);
                        assert(self@ =~= spec_build_tableau(old(self)@, src, dst).post);
                    }
                    ActionResult::OnGoing
                }
            },
        }
    }

    /// Applies one action: either the whole move commits and the new state
    /// is exactly the model's step, or the state stays untouched and the
    /// reported failure carries the model's reason.
    pub fn act(&mut self, action: Action) -> (r: ActionResult)
        requires
            wf(old(self)@),
        ensures
            final(self)@ == spec_step(old(self)@, action).post,
            out_matches(r, spec_step(old(self)@, action).out),
            wf(final(self)@),
            total_cards(final(self)@) == total_cards(old(self)@),
            game_cards(final(self)@) == game_cards(old(self)@),
    {
        let r = match action {
            Action::Draw => self.act_draw(),
            Action::BuildFoundation { src } => self.act_build_foundation(src),
            Action::BuildTableau { src, dst } => self.act_build_tableau(src, dst),
        };
        proof {
            lemma_step_preserves_invariants(old(self)@, action);
            lemma_step_preserves_cards(old(self)@, action);
        }
        r
    }
}

/// Replacing one tableau changes the shared card count by the difference
/// of the two piles.
proof fn lemma_tabs_count_update(tabs: Seq<TabView>, i: int, t: TabView)
    requires
        0 <= i < tabs.len(),
    ensures
        tabs_card_count(tabs.update(i, t)) == tabs_card_count(tabs) - tabs[i].pile.len()
            + t.pile.len(),
    decreases tabs.len(),
{
    let u = tabs.update(i, t);
    if i == tabs.len() - 1 {
        assert(u.drop_last() =~= tabs.drop_last());
        assert(u.last() == t);
    } else {
        assert(u.drop_last() =~= tabs.drop_last().update(i, t));
        assert(u.last() == tabs.last());
        lemma_tabs_count_update(tabs.drop_last(), i, t);
    }
}

/// Every reachable state keeps the game well formed, and no move creates
/// or destroys a card: the count over every zone is preserved. Together
/// with [`MemoryGame::new`], every reachable game keeps 52 cards and every
/// tableau's exposed count within its pile, at least one when cards remain.
pub proof fn lemma_step_preserves_invariants(g: GameView, a: Action)
    requires
        wf(g),
    ensures
        wf(spec_step(g, a).post),
        total_cards(spec_step(g, a).post) == total_cards(g),
{
    let post = spec_step(g, a).post;
    match a {
        Action::Draw => {
            let g1 = if g.draw.len() == 0 {
                GameView { draw: g.waste, waste: Seq::empty(), ..g }
            } else {
                g
            };
            assert(cards_valid(g1.draw) && cards_valid(g1.waste));
            assert(total_cards(g1) == total_cards(g));
            if g1.draw.len() > 0 {
                assert forall|i: int| 0 <= i < post.waste.len() implies (#[trigger] post.waste[
                    i
                ]).valid() by {
                    if i == 0 {
                        assert(g1.draw[0].valid());
                    } else {
                        assert(g1.waste[i - 1].valid());
                    }
                }
                assert(cards_valid(post.draw));
            }
        },
        Action::BuildFoundation { src } => {
            match foundation_source_card(g, src) {
                None => {},
                Some(c) => {
                    if c.rank == g.found.spec_value(c.suite) + 1 {
                        proof_foundation_success(g, src, c);
                    }
                },
            }
        },
        Action::BuildTableau { src, dst } => {
            if dst < g.tabs.len() {
                match tableau_joint(g, src, dst) {
                    None => {},
                    Some(joint) => {
                        let valid = match tab_bottom(g.tabs[dst as int]) {
                            None => joint.rank == KING,
                            Some(bottom) => joint.suite.spec_color() != bottom.suite.spec_color()
                                && joint.rank == bottom.rank - 1,
                        };
                        if valid {
                            proof_tableau_success(g, src, dst);
                        }
                    },
                }
            }
        },
    }
}

/// The well-formedness and counting argument for an accepted foundation
/// move.
proof fn proof_foundation_success(g: GameView, src: FoundationSource, c: Card)
    requires
        wf(g),
        foundation_source_card(g, src) == Some(c),
        c.rank == g.found.spec_value(c.suite) + 1,
    ensures
        wf(spec_build_foundation(g, src).post),
        total_cards(spec_build_foundation(g, src).post) == total_cards(g),
{
    let post = spec_build_foundation(g, src).post;
    let f2 = g.found.spec_with(c.suite, c.rank);
    match src {
        FoundationSource::Upturned => {
            assert(c == g.waste[0]);
            assert(c.valid());
            assert(f2.wf() && f2.total() == g.found.total() + 1);
            assert(cards_valid(post.waste)) by {
                assert forall|i: int| 0 <= i < post.waste.len() implies (#[trigger] post.waste[
                    i
                ]).valid() by {
                    assert(g.waste[i + 1].valid());
                }
            }
        },
        FoundationSource::Tableau(idx) => {
            let i = idx as int;
            let t = g.tabs[i];
            assert(tab_wf(t) && cards_valid(t.pile));
            assert(c == t.pile[t.pile.len() - 1]);
            assert(c.valid());
            assert(f2.wf() && f2.total() == g.found.total() + 1);
            let t2 = spec_remove_bottom(t);
            assert(tab_wf(t2));
            assert(cards_valid(t2.pile)) by {
                assert forall|k: int| 0 <= k < t2.pile.len() implies (#[trigger] t2.pile[
                    k
                ]).valid() by {
                    assert(t.pile[k].valid());
                }
            }
            lemma_tabs_count_update(g.tabs, i, t2);
            assert forall|k: int| 0 <= k < post.tabs.len() implies tab_wf(#[trigger] post.tabs[k])
                && cards_valid(post.tabs[k].pile) by {
                if k != i {
                    assert(post.tabs[k] == g.tabs[k]);
                }
            }
        },
    }
}

/// The well-formedness and counting argument for an accepted tableau move.
proof fn proof_tableau_success(g: GameView, src: TableauSource, dst: usize)
    requires
        wf(g),
        dst < g.tabs.len(),
        tableau_joint(g, src, dst) is Some,
    ensures
        ({
            let r = spec_build_tableau(g, src, dst);
            r.out is OnGoing ==> wf(r.post) && total_cards(r.post) == total_cards(g)
        }),
{
    let r = spec_build_tableau(g, src, dst);
    if r.out is OnGoing {
        let run = tableau_run(g, src);
        let d = dst as int;
        match src {
            TableauSource::Upturned => {
                assert(run =~= seq![g.waste[0]]);
                assert(g.waste[0].valid());
                let g1 = GameView { waste: g.waste.drop_first(), ..g };
                assert(cards_valid(g1.waste)) by {
                    assert forall|i: int| 0 <= i < g1.waste.len() implies (#[trigger] g1.waste[
                        i
                    ]).valid() by {
                        assert(g.waste[i + 1].valid());
                    }
                }
                let t2 = spec_add_upturned(g.tabs[d], run);
                assert(tab_wf(t2) && cards_valid(t2.pile)) by {
                    lemma_add_upturned_wf(g.tabs[d], run);
                }
                lemma_tabs_count_update(g.tabs, d, t2);
                assert forall|k: int| 0 <= k < r.post.tabs.len() implies tab_wf(
                    #[trigger] r.post.tabs[k],
                ) && cards_valid(r.post.tabs[k].pile) by {
                    if k != d {
                        assert(r.post.tabs[k] == g.tabs[k]);
                    }
                }
            },
            TableauSource::Tableau { index, size } => {
                let i = index as int;
                let t = g.tabs[i];
                assert(tab_wf(t) && cards_valid(t.pile));
                assert(0 < size <= t.up && i != d);
                let taken = spec_take_upturned(t, size as nat);
                assert(tab_wf(taken));
                assert(cards_valid(taken.pile)) by {
                    assert forall|k: int| 0 <= k < taken.pile.len() implies (#[trigger] taken.pile[
                        k
                    ]).valid() by {
                        assert(t.pile[k].valid());
                    }
                }
                assert(cards_valid(run)) by {
                    assert forall|k: int| 0 <= k < run.len() implies (#[trigger] run[k]).valid() by {
                        assert(t.pile[t.pile.len() - size + k].valid());
                    }
                }
                let g1 = GameView { tabs: g.tabs.update(i, taken), ..g };
                assert(g1.tabs[d] == g.tabs[d]);
                let t2 = spec_add_upturned(g.tabs[d], run);
                assert(tab_wf(t2) && cards_valid(t2.pile)) by {
                    lemma_add_upturned_wf(g.tabs[d], run);
                }
                lemma_tabs_count_update(g.tabs, i, taken);
                lemma_tabs_count_update(g1.tabs, d, t2);
                assert(taken.pile.len() == t.pile.len() - size);
                assert(run.len() == size);
                assert forall|k: int| 0 <= k < r.post.tabs.len() implies tab_wf(
                    #[trigger] r.post.tabs[k],
                ) && cards_valid(r.post.tabs[k].pile) by {
                    if k != d && k != i {
                        assert(r.post.tabs[k] == g.tabs[k]);
                    }
                }
            },
        }
    }
}

/// Landing a run of valid cards on a well-formed tableau keeps it well
/// formed and its cards valid.
proof fn lemma_add_upturned_wf(t: TabView, run: Seq<Card>)
    requires
        tab_wf(t),
        cards_valid(t.pile),
        cards_valid(run),
        run.len() > 0,
    ensures
        tab_wf(spec_add_upturned(t, run)),
        cards_valid(spec_add_upturned(t, run).pile),
{
    let t2 = spec_add_upturned(t, run);
    assert forall|k: int| 0 <= k < t2.pile.len() implies (#[trigger] t2.pile[k]).valid() by {
        if k < t.pile.len() {
            assert(t.pile[k].valid());
        } else {
            assert(run[k - t.pile.len()].valid());
        }
    }
}

/// The cards a foundation counter stands for: every rank from the ace up
/// to the counter, in its suite.
pub open spec fn suite_cards(s: Suite, v: nat) -> Multiset<Card>
    decreases v,
{
    if v == 0 {
        Multiset::empty()
    } else {
        suite_cards(s, (v - 1) as nat).insert(Card { rank: v as u8, suite: s })
    }
}

/// The cards all four foundations hold together.
pub open spec fn foundation_cards(f: Foundations) -> Multiset<Card> {
    suite_cards(Suite::Hearts, f.hearts as nat).add(
        suite_cards(Suite::Diamonds, f.diamonds as nat),
    ).add(suite_cards(Suite::Clubs, f.clubs as nat)).add(
        suite_cards(Suite::Spades, f.spades as nat),
    )
}

/// The cards the tableaus hold together.
pub open spec fn tabs_cards(tabs: Seq<TabView>) -> Multiset<Card>
    decreases tabs.len(),
{
    if tabs.len() == 0 {
        Multiset::empty()
    } else {
        tabs_cards(tabs.drop_last()).add(tabs.last().pile.to_multiset())
    }
}

/// Every card a game holds, over every zone.
pub open spec fn game_cards(g: GameView) -> Multiset<Card> {
    g.draw.to_multiset().add(g.waste.to_multiset()).add(foundation_cards(g.found)).add(
        tabs_cards(g.tabs),
    )
}

/// Replacing one tableau exchanges exactly that tableau's cards in the
/// shared pool.
proof fn lemma_tabs_cards_update(tabs: Seq<TabView>, i: int, t: TabView)
    requires
        0 <= i < tabs.len(),
    ensures
        tabs_cards(tabs.update(i, t)).add(tabs[i].pile.to_multiset()) == tabs_cards(tabs).add(
            t.pile.to_multiset(),
        ),
    decreases tabs.len(),
{

    let u = tabs.update(i, t);
    assert(tabs_cards(u) == tabs_cards(u.drop_last()).add(u.last().pile.to_multiset()));
    assert(tabs_cards(tabs) == tabs_cards(tabs.drop_last()).add(tabs.last().pile.to_multiset()));
    if i == tabs.len() - 1 {
        assert(u.drop_last() =~= tabs.drop_last());
        assert(u.last() == t);
        assert(tabs.last() == tabs[i]);
        assert_multisets_equal!(
            tabs_cards(u).add(tabs[i].pile.to_multiset()),
            tabs_cards(tabs).add(t.pile.to_multiset()),
            v => {
                assert(tabs_cards(u.drop_last()) == tabs_cards(tabs.drop_last()));
            }
        );
    } else {
        assert(u.drop_last() =~= tabs.drop_last().update(i, t));
        assert(u.last() == tabs.last());
        assert(tabs.drop_last()[i] == tabs[i]);
        lemma_tabs_cards_update(tabs.drop_last(), i, t);
        assert_multisets_equal!(
            tabs_cards(u).add(tabs[i].pile.to_multiset()),
            tabs_cards(tabs).add(t.pile.to_multiset()),
            v => {
                assert(tabs_cards(tabs.drop_last().update(i, t)).add(
                    tabs.drop_last()[i].pile.to_multiset(),
                ).count(v) == tabs_cards(tabs.drop_last()).add(t.pile.to_multiset()).count(v));
            }
        );
    }
}

/// A counter one step higher stands for one more card: the one whose rank
/// it reached.
proof fn lemma_foundation_gain(f: Foundations, c: Card)
    requires
        f.wf(),
        c.valid(),
        c.rank == f.spec_value(c.suite) + 1,
    ensures
        foundation_cards(f.spec_with(c.suite, c.rank)) == foundation_cards(f).insert(c),
{

    let f2 = f.spec_with(c.suite, c.rank);
    match c.suite {
        Suite::Hearts => {
            assert(suite_cards(Suite::Hearts, f2.hearts as nat) == suite_cards(
                Suite::Hearts,
                f.hearts as nat,
            ).insert(c));
        },
        Suite::Diamonds => {
            assert(suite_cards(Suite::Diamonds, f2.diamonds as nat) == suite_cards(
                Suite::Diamonds,
                f.diamonds as nat,
            ).insert(c));
        },
        Suite::Clubs => {
            assert(suite_cards(Suite::Clubs, f2.clubs as nat) == suite_cards(
                Suite::Clubs,
                f.clubs as nat,
            ).insert(c));
        },
        Suite::Spades => {
            assert(suite_cards(Suite::Spades, f2.spades as nat) == suite_cards(
                Suite::Spades,
                f.spades as nat,
            ).insert(c));
        },
    }
    assert(foundation_cards(f2) =~= foundation_cards(f).insert(c));
}

/// No move creates, destroys or duplicates a card: the pool over every
/// zone, counting each foundation as the cards its counter stands for, is
/// untouched by every step. With the fresh deal holding exactly the 52
/// standard cards, no reachable state ever holds a card in two zones.
pub proof fn lemma_step_preserves_cards(g: GameView, a: Action)
    requires
        wf(g),
    ensures
        game_cards(spec_step(g, a).post) == game_cards(g),
{

    let post = spec_step(g, a).post;
    match a {
        Action::Draw => {
            let g1 = if g.draw.len() == 0 {
                GameView { draw: g.waste, waste: Seq::empty(), ..g }
            } else {
                g
            };
            assert(Seq::<Card>::empty().to_multiset() =~= Multiset::<Card>::empty());
            assert(game_cards(g1) =~= game_cards(g));
            if g1.draw.len() > 0 {
                let c = g1.draw[0];
                assert(g1.draw.drop_first() =~= g1.draw.remove(0));
                assert(seq![c] =~= Seq::<Card>::empty().push(c));
                assert(g1.draw.to_multiset().contains(c)) by {
                    assert(g1.draw.contains(c));
                }
                assert(game_cards(post) =~= game_cards(g1));
            }
        },
        Action::BuildFoundation { src } => {
            match foundation_source_card(g, src) {
                None => {},
                Some(c) => {
                    if c.rank == g.found.spec_value(c.suite) + 1 {
                        assert(c.valid()) by {
                            match src {
                                FoundationSource::Upturned => {
                                    assert(g.waste[0].valid());
                                },
                                FoundationSource::Tableau(idx) => {
                                    let pile = g.tabs[idx as int].pile;
                                    assert(pile[pile.len() - 1].valid());
                                },
                            }
                        }
                        lemma_foundation_gain(g.found, c);
                        match src {
                            FoundationSource::Upturned => {
                                assert(g.waste.drop_first() =~= g.waste.remove(0));
                                assert(g.waste.to_multiset().contains(c)) by {
                                    assert(g.waste.contains(c));
                                }
                                assert(game_cards(post) =~= game_cards(g));
                            },
                            FoundationSource::Tableau(idx) => {
                                let i = idx as int;
                                let t = g.tabs[i];
                                let t2 = spec_remove_bottom(t);
                                assert(t2.pile == t.pile.drop_last());
                                assert(t.pile.drop_last() =~= t.pile.remove(t.pile.len() - 1));
                                assert(t.pile.to_multiset().contains(c)) by {
                                    assert(t.pile.contains(c));
                                }
                                assert(t.pile.remove(t.pile.len() - 1).to_multiset()
                                    == t.pile.to_multiset().remove(c));
                                lemma_tabs_cards_update(g.tabs, i, t2);
                                assert_multisets_equal!(game_cards(post), game_cards(g), v => {
                                    assert(tabs_cards(g.tabs.update(i, t2)).add(
                                        g.tabs[i].pile.to_multiset(),
                                    ).count(v) == tabs_cards(g.tabs).add(
                                        t2.pile.to_multiset(),
                                    ).count(v));
                                    assert(foundation_cards(post.found).count(v)
                                        == foundation_cards(g.found).insert(c).count(v));
                                });
                            },
                        }
                    }
                },
            }
        },
        Action::BuildTableau { src, dst } => {
            if dst < g.tabs.len() && tableau_joint(g, src, dst) is Some
                && spec_build_tableau(g, src, dst).out is OnGoing {
                let d = dst as int;
                let run = tableau_run(g, src);
                match src {
                    TableauSource::Upturned => {
                        let c = g.waste[0];
                        let g1 = GameView { waste: g.waste.drop_first(), ..g };
                        let t2 = spec_add_upturned(g.tabs[d], run);
                        assert(g.waste.drop_first() =~= g.waste.remove(0));
                        assert(g.waste.to_multiset().contains(c)) by {
                            assert(g.waste.contains(c));
                        }
                        assert(g.waste.remove(0).to_multiset() == g.waste.to_multiset().remove(
                            c,
                        ));
                        assert(seq![c] =~= Seq::<Card>::empty().push(c));
                        assert(Seq::<Card>::empty().push(c).to_multiset() == Seq::<
                            Card,
                        >::empty().to_multiset().insert(c));
                        assert(Seq::<Card>::empty().to_multiset() =~= Multiset::<Card>::empty());
                        lemma_tabs_cards_update(g.tabs, d, t2);
                        assert(t2.pile == g.tabs[d].pile + run);
                        assert_multisets_equal!(game_cards(post), game_cards(g), v => {
                            assert((g.tabs[d].pile + run).to_multiset().count(v) == g.tabs[
                                d
                            ].pile.to_multiset().count(v) + run.to_multiset().count(v));
                            assert(tabs_cards(g.tabs.update(d, t2)).add(
                                g.tabs[d].pile.to_multiset(),
                            ).count(v) == tabs_cards(g.tabs).add(t2.pile.to_multiset()).count(
                                v,
                            ));
                        });
                    },
                    TableauSource::Tableau { index, size } => {
                        let i = index as int;
                        let t = g.tabs[i];
                        let taken = spec_take_upturned(t, size as nat);
                        assert(taken.pile == t.pile.take(t.pile.len() - size));
                        assert(taken.pile + run =~= t.pile);
                        assert((taken.pile + run).to_multiset() == t.pile.to_multiset());
                        let g1 = GameView { tabs: g.tabs.update(i, taken), ..g };
                        assert(g1.tabs[d] == g.tabs[d]);
                        let t2 = spec_add_upturned(g.tabs[d], run);
                        lemma_tabs_cards_update(g.tabs, i, taken);
                        lemma_tabs_cards_update(g1.tabs, d, t2);
                        assert(t2.pile == g.tabs[d].pile + run);
                        assert_multisets_equal!(game_cards(post), game_cards(g), v => {
                            assert((taken.pile + run).to_multiset().count(v)
                                == taken.pile.to_multiset().count(v) + run.to_multiset().count(
                                v,
                            ));
                            assert((g.tabs[d].pile + run).to_multiset().count(v) == g.tabs[
                                d
                            ].pile.to_multiset().count(v) + run.to_multiset().count(v));
                            assert(tabs_cards(g.tabs.update(i, taken)).add(
                                g.tabs[i].pile.to_multiset(),
                            ).count(v) == tabs_cards(g.tabs).add(
                                taken.pile.to_multiset(),
                            ).count(v));
                            assert(tabs_cards(g1.tabs.update(d, t2)).add(
                                g1.tabs[d].pile.to_multiset(),
                            ).count(v) == tabs_cards(g1.tabs).add(t2.pile.to_multiset()).count(
                                v,
                            ));
                        });
                    },
                }
            }
        },
    }
}

/// What an observer sees of a well-formed tableau is exactly the trailing
/// run of its pile, and a tableau that still holds cards always exposes at
/// least one of them. Together with [`lemma_step_preserves_invariants`],
/// a non-empty tableau exposing nothing never outlives the move that
/// uncovered it.
pub proof fn lemma_exposed_run_is_suffix(g: GameView, i: int)
    requires
        wf(g),
        0 <= i < g.tabs.len(),
    ensures
        spec_tableaus(g)[i].upturned == g.tabs[i].pile.skip(
            g.tabs[i].pile.len() - g.tabs[i].up,
        ),
        g.tabs[i].pile.len() > 0 ==> g.tabs[i].up >= 1,
{
}

/// A rejected move leaves the state, and so its snapshot, untouched.
pub proof fn lemma_failed_keeps_state(g: GameView, a: Action)
    ensures
        spec_step(g, a).out is Fail ==> spec_step(g, a).post == g,
        spec_step(g, a).out is Fail ==> spec_snapshot(spec_step(g, a).post) == spec_snapshot(g),
{
}

/// Drawing with an empty draw pile and a non-empty waste recycles the whole
/// waste, order preserved, so the rebuilt draw pile held every waste card
/// before its top moved off, and exactly the old waste top ends up as the
/// only exposed waste card.
pub proof fn lemma_draw_recycles_waste(g: GameView)
    requires
        g.draw.len() == 0,
        g.waste.len() > 0,
    ensures
        spec_step(g, Action::Draw).post.draw == g.waste.drop_first(),
        spec_step(g, Action::Draw).post.draw.len() + 1 == g.waste.len(),
        spec_step(g, Action::Draw).post.waste == seq![g.waste[0]],
{
    let post = spec_step(g, Action::Draw).post;
    assert(post.waste =~= seq![g.waste[0]]);
}

/// Decides whether every card of the vector is a valid playing card.
fn valid_cards(v: &Vec<Card>) -> (r: bool)
    ensures
        r == cards_valid(v@),
{
    let mut k: usize = 0;
    while k < v.len()
        invariant
            k <= v@.len(),
            forall|j: int| 0 <= j < k ==> (#[trigger] v@[j]).valid(),
        decreases v@.len() - k,
    {
        let c = &v[k];
        if c.rank < ACE || c.rank > KING {
            return false;
        }
        k = k + 1;
    }
    true
}

/// The card showing on top of the waste.
pub open spec fn spec_waste_top(g: GameView) -> Option<Card> {
    if g.waste.len() > 0 {
        Some(g.waste[0])
    } else {
        None
    }
}

/// Each tableau reduced to what an observer sees: its concealed count and
/// its exposed run.
pub open spec fn spec_tableaus(g: GameView) -> Seq<TableauV> {
    g.tabs.map_values(
        |t: TabView|
            TableauV {
                downfaced_len: (t.pile.len() - t.up) as nat,
                upturned: t.pile.skip(t.pile.len() - t.up),
            },
    )
}

/// A complete rendering of a game state.
pub open spec fn spec_snapshot(g: GameView) -> SnapshotV {
    SnapshotV {
        draw_pile_size: g.draw.len(),
        upturned: spec_waste_top(g),
        foundations: g.found,
        tableaus: spec_tableaus(g),
    }
}

/// One tableau as an observer sees it: how many cards lie concealed and the
/// ordered exposed run.
#[derive(Clone, Debug, PartialEq)]
pub struct Tableau {
    pub downfaced_len: usize,
    pub upturned: Vec<Card>,
}

/// The mathematical shape of an observed tableau.
#[verifier::ext_equal]
pub ghost struct TableauV {
    pub downfaced_len: nat,
    pub upturned: Seq<Card>,
}

impl View for Tableau {
    type V = TableauV;

    open spec fn view(&self) -> TableauV {
        TableauV { downfaced_len: self.downfaced_len as nat, upturned: self.upturned@ }
    }
}

impl DeepView for Tableau {
    type V = TableauV;

    open spec fn deep_view(&self) -> TableauV {
        self@
    }
}

/// A complete, immutable rendering of a game state, as sent to callers and
/// observers after a successful action.
#[derive(Clone, Debug, PartialEq)]
pub struct Snapshot {
    pub draw_pile_size: usize,
    pub upturned: Option<Card>,
    pub foundations: Foundations,
    pub tableaus: Vec<Tableau>,
}

/// The mathematical shape of a snapshot.
#[verifier::ext_equal]
pub ghost struct SnapshotV {
    pub draw_pile_size: nat,
    pub upturned: Option<Card>,
    pub foundations: Foundations,
    pub tableaus: Seq<TableauV>,
}

impl View for Snapshot {
    type V = SnapshotV;

    open spec fn view(&self) -> SnapshotV {
        SnapshotV {
            draw_pile_size: self.draw_pile_size as nat,
            upturned: self.upturned,
            foundations: self.foundations,
            tableaus: self.tableaus.deep_view(),
        }
    }
}

} // verus!
