//! The session registry: a mapping from opaque game identifier to one
//! running game with its set of watcher channels. Lookup, mutation and
//! broadcast for one identifier happen inside one registry call, so a
//! caller that serialises the calls (one lock around the registry) gets a
//! total order of successful actions per game, and every attached watcher
//! is offered exactly that sequence of snapshots.

use vstd::prelude::*;
use std::collections::HashMap;
use crate::game::{
    game_cards,
    spec_snapshot, spec_step, total_cards, out_matches, wf, Action, ActionResult, Foundations,
    GameView, MemoryGame, Snapshot, StepOut, Tableau, TABLEAUS_COUNT,
};
use crate::french::{standard_52_seq, Card};
use crate::random_engine::RandomEngine;

verus! {

broadcast use vstd::std_specs::hash::group_hash_axioms;

/// What a watcher receives: either the snapshot that a successful action
/// produced, paired with that action (no action for the seed snapshot a
/// fresh watcher gets), or the terminal signal that the game was destroyed.
#[derive(Debug)]
pub enum Notification {
    Update { action: Option<Action>, snapshot: Snapshot },
    Finished,
}

/// The outbound channel half on which a watcher is served.
#[verifier::external_type_specification]
#[verifier::external_body]
#[verifier::reject_recursive_types(T)]
pub struct ExSender<T>(tokio::sync::mpsc::Sender<T>);

/// Relies on tokio's bounded mpsc `Sender::try_send`: without blocking, it
/// either enqueues the message for the receiving half and succeeds, or
/// fails because the channel is full or closed.
#[verifier::external_body]
fn try_send(tx: &tokio::sync::mpsc::Sender<Notification>, msg: Notification) -> (ok: bool) {
    tx.try_send(msg).is_ok()
}

/// Relies on uuid's `Uuid::new_v4`: a freshly drawn random identifier.
/// Nothing is promised of it; in particular uniqueness is not.
#[verifier::external_body]
fn fresh_id() -> (id: u128) {
    uuid::Uuid::new_v4().as_u128()
}

/// Returns a card-for-card copy of the cards.
fn copy_cards(v: &Vec<Card>) -> (r: Vec<Card>)
    ensures
        r@ == v@,
{
    let mut r: Vec<Card> = Vec::new();
    let mut k: usize = 0;
    while k < v.len()
        invariant
            k <= v@.len(),
            r@ == v@.take(k as int),
        decreases v@.len() - k,
    {
        r.push(v[k]);
        proof {
            assert(v@.take(k as int).push(v@[k as int]) =~= v@.take(k + 1));
        }
        k = k + 1;
    }
    proof {
        assert(v@.take(v@.len() as int) =~= v@);
    }
    r
}

/// Returns a field-for-field copy of the snapshot: both render the same
/// state.
pub fn copy_snapshot(s: &Snapshot) -> (r: Snapshot)
    ensures
        r@ == s@,
{
    let mut tableaus: Vec<Tableau> = Vec::new();
    let mut k: usize = 0;
    while k < s.tableaus.len()
        invariant
            k <= s.tableaus@.len(),
            tableaus@.len() == k,
            forall|j: int| 0 <= j < k ==> (#[trigger] tableaus@[j])@ == s.tableaus@[j]@,
        decreases s.tableaus@.len() - k,
    {
        let t = &s.tableaus[k];
        tableaus.push(Tableau { downfaced_len: t.downfaced_len, upturned: copy_cards(&t.upturned) });
        k = k + 1;
    }
    let r = Snapshot {
        draw_pile_size: s.draw_pile_size,
        upturned: s.upturned,
        foundations: s.foundations,
        tableaus,
    };
    proof {
        assert(r.tableaus.deep_view() =~= s.tableaus.deep_view());
        assert(r@ =~~= s@);
    }
    r
}

/// The two notifications describe the same event.
pub open spec fn notif_eq(a: Notification, b: Notification) -> bool {
    match (a, b) {
        (
            Notification::Update { action: aa, snapshot: asn },
            Notification::Update { action: ba, snapshot: bsn },
        ) => aa == ba && asn@ == bsn@,
        (Notification::Finished, Notification::Finished) => true,
        _ => false,
    }
}

/// Returns a copy of the notification describing the same event.
fn copy_notification(n: &Notification) -> (r: Notification)
    ensures
        notif_eq(r, *n),
{
    match n {
        Notification::Update { action, snapshot } => Notification::Update {
            action: *action,
            snapshot: copy_snapshot(snapshot),
        },
        Notification::Finished => Notification::Finished,
    }
}

/// One game paired with the channels of its current watchers.
pub struct ActiveSession {
    game: MemoryGame,
    watchers: Vec<tokio::sync::mpsc::Sender<Notification>>,
}

/// The mathematical shape of a session: the game's state and the watcher
/// channels, in attachment order.
#[verifier::ext_equal]
pub ghost struct SessionV {
    pub game: GameView,
    pub watchers: Seq<tokio::sync::mpsc::Sender<Notification>>,
}

impl View for ActiveSession {
    type V = SessionV;

    closed spec fn view(&self) -> SessionV {
        SessionV { game: self.game@, watchers: self.watchers@ }
    }
}

impl ActiveSession {
    /// Offers one notification, copied per watcher, to every watcher in
    /// attachment order. A watcher whose delivery fails (its channel is
    /// closed or full) is dropped without disturbing delivery to the rest;
    /// the game itself is untouched.
    fn notify_all(&mut self, msg: &Notification)
        ensures
            final(self)@.game == old(self)@.game,
            final(self)@.watchers.len() <= old(self)@.watchers.len(),
            forall|i: int|
                0 <= i < final(self)@.watchers.len() ==> old(self)@.watchers.contains(
                    #[trigger] final(self)@.watchers[i],
                ),
    {
        let mut i: usize = 0;
        while i < self.watchers.len()
            invariant
                self@.game == old(self)@.game,
                i <= self@.watchers.len(),
                self@.watchers.len() <= old(self)@.watchers.len(),
                forall|j: int|
                    0 <= j < self@.watchers.len() ==> old(self)@.watchers.contains(
                        #[trigger] self@.watchers[j],
                    ),
            decreases self@.watchers.len() - i,
        {
            let m = copy_notification(msg);
            if try_send(&self.watchers[i], m) {
                i = i + 1;
            } else {
                let _ = self.watchers.swap_remove(i);
            }
        }
    }
}

/// Every stored session holds a well-formed game over exactly the 52
/// standard cards: no card is ever lost, invented or duplicated.
spec fn registry_inv(m: Map<u128, ActiveSession>) -> bool {
    forall|id: u128|
        m.dom().contains(id) ==> wf((#[trigger] m[id])@.game) && total_cards(m[id]@.game) == 52
            && game_cards(m[id]@.game) == standard_52_seq().to_multiset()
}

/// The registry: every running game, keyed by its opaque identifier. It is
/// created empty, entries are added on create and removed on destroy, and
/// it never outlives the process.
pub struct Registry {
    games: HashMap<u128, ActiveSession>,
}

impl View for Registry {
    type V = Map<u128, ActiveSession>;

    closed spec fn view(&self) -> Map<u128, ActiveSession> {
        self.games@
    }
}

impl Registry {
    /// The registry can never hold a malformed game, whoever drives it.
    #[verifier::type_invariant]
    spec fn inv(self) -> bool {
        registry_inv(self.games@)
    }

    /// Builds an empty registry.
    pub fn new() -> (r: Registry)
        ensures
            r@ == Map::<u128, ActiveSession>::empty(),
    {
        Registry { games: HashMap::new() }
    }

    /// Creates a fresh game under a newly drawn identifier and returns the
    /// identifier with the initial snapshot. A collision with an existing
    /// identifier replaces that entry, as a map insert does.
    pub fn create_game<R: RandomEngine>(&mut self, rand: &mut R) -> (r: (u128, Snapshot))
        ensures
            final(self)@.dom().contains(r.0),
            final(self)@ == old(self)@.insert(r.0, final(self)@[r.0]),
            ({
                let s = final(self)@[r.0]@;
                &&& s.watchers.len() == 0
                &&& wf(s.game)
                &&& total_cards(s.game) == 52
                &&& game_cards(s.game) == standard_52_seq().to_multiset()
                &&& s.game.draw.len() == 24
                &&& s.game.waste.len() == 0
                &&& s.game.found == (Foundations { hearts: 0, diamonds: 0, clubs: 0, spades: 0 })
                &&& forall|i: int|
                    0 <= i < TABLEAUS_COUNT ==> (#[trigger] s.game.tabs[i]).pile.len() == i + 1
                        && s.game.tabs[i].up == 1
                &&& r.1@ == spec_snapshot(s.game)
            }),
    {
        proof {
            use_type_invariant(&*self);
        }
        let id = fresh_id();
        let game = MemoryGame::new(rand);
        let snap = game.snapshot();
        let sess = ActiveSession { game, watchers: Vec::new() };
        let mut games: HashMap<u128, ActiveSession> = HashMap::new();
        std::mem::swap(&mut games, &mut self.games);
        games.insert(id, sess);
        std::mem::swap(&mut games, &mut self.games);
        (id, snap)
    }

    /// Destroys the game of the given identifier: the entry leaves the
    /// registry, and every watcher of it is offered the terminal signal.
    /// Returns whether the identifier was known; an unknown identifier
    /// changes nothing.
    pub fn destroy_game(&mut self, id: u128) -> (ok: bool)
        ensures
            ok == old(self)@.dom().contains(id),
            final(self)@ == if old(self)@.dom().contains(id) {
                old(self)@.remove(id)
            } else {
                old(self)@
            },
    {
        proof {
            use_type_invariant(&*self);
        }
        let mut games: HashMap<u128, ActiveSession> = HashMap::new();
        std::mem::swap(&mut games, &mut self.games);
        let removed = games.remove(&id);
        std::mem::swap(&mut games, &mut self.games);
        match removed {
            None => false,
            Some(mut sess) => {
                sess.notify_all(&Notification::Finished);
                true
            },
        }
    }

    /// Applies one action to the game of the given identifier, or returns
    /// nothing when the identifier is unknown. A successful action commits
    /// the model's step and offers the new snapshot, paired with the
    /// action, to every watcher; a rejected action leaves the game and its
    /// watchers untouched and is reported to the caller alone. Either way
    /// the caller receives the outcome and the snapshot of the state the
    /// call left behind.
    pub fn act(&mut self, id: u128, action: Action) -> (r: Option<(ActionResult, Snapshot)>)
        ensures
            r is Some <==> old(self)@.dom().contains(id),
            r is None ==> final(self)@ == old(self)@,
            r matches Some((res, snap)) ==> ({
                let pre = old(self)@[id]@;
                let step = spec_step(pre.game, action);
                let post = final(self)@[id]@;
                &&& final(self)@ == old(self)@.insert(id, final(self)@[id])
                &&& post.game == step.post
                &&& out_matches(res, step.out)
                &&& snap@ == spec_snapshot(step.post)
                &&& (step.out is Fail ==> post.game == pre.game && post.watchers
                    == pre.watchers)
                &&& post.watchers.len() <= pre.watchers.len()
                &&& forall|i: int|
                    0 <= i < post.watchers.len() ==> pre.watchers.contains(
                        #[trigger] post.watchers[i],
                    )
            }),
    {
        proof {
            use_type_invariant(&*self);
        }
        let mut games: HashMap<u128, ActiveSession> = HashMap::new();
        std::mem::swap(&mut games, &mut self.games);
        let removed = games.remove(&id);
        std::mem::swap(&mut games, &mut self.games);
        match removed {
            None => None,
            Some(mut sess) => {
                let res = sess.game.act(action);
                let snap = sess.game.snapshot();
                let failed = match &res {
                    ActionResult::Failed(_) => true,
                    _ => false,
                };
                if !failed {
                    let m = Notification::Update {
                        action: Some(action),
                        snapshot: copy_snapshot(&snap),
                    };
                    sess.notify_all(&m);
                }
                let ghost final_sess = sess;
                let mut games: HashMap<u128, ActiveSession> = HashMap::new();
                std::mem::swap(&mut games, &mut self.games);
                games.insert(id, sess);
                std::mem::swap(&mut games, &mut self.games);
                proof {
                    assert(self@ =~= old(self)@.insert(id, final_sess));
                }
                Some((res, snap))
            },
        }
    }

    /// Attaches a watcher channel to the game of the given identifier:
    /// the channel is seeded with the current snapshot, so a late joiner
    /// never starts blind, and then joins the watcher list. Returns whether
    /// the identifier was known; an unknown identifier changes nothing.
    pub fn watch(&mut self, id: u128, tx: tokio::sync::mpsc::Sender<Notification>) -> (ok: bool)
        ensures
            ok == old(self)@.dom().contains(id),
            !ok ==> final(self)@ == old(self)@,
            ok ==> ({
                let pre = old(self)@[id]@;
                let post = final(self)@[id]@;
                &&& final(self)@ == old(self)@.insert(id, final(self)@[id])
                &&& post.game == pre.game
                &&& post.watchers == pre.watchers.push(tx)
            }),
    {
        proof {
            use_type_invariant(&*self);
        }
        let mut games: HashMap<u128, ActiveSession> = HashMap::new();
        std::mem::swap(&mut games, &mut self.games);
        let removed = games.remove(&id);
        std::mem::swap(&mut games, &mut self.games);
        match removed {
            None => false,
            Some(mut sess) => {
                let snap = sess.game.snapshot();
                let _ = try_send(&tx, Notification::Update { action: None, snapshot: snap });
                sess.watchers.push(tx);
                let ghost final_sess = sess;
                let mut games: HashMap<u128, ActiveSession> = HashMap::new();
                std::mem::swap(&mut games, &mut self.games);
                games.insert(id, sess);
                std::mem::swap(&mut games, &mut self.games);
                proof {
                    assert(self@ =~= old(self)@.insert(id, final_sess));
                }
                true
            },
        }
    }
}

} // verus!
