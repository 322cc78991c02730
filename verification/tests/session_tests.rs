use solitaire::game::{Action, FoundationSource, Snapshot};
use solitaire::random_engine::XorShifEngine;
use solitaire::session::{copy_snapshot, Notification, Registry};
use tokio::sync::mpsc;

fn drain(rx: &mut mpsc::Receiver<Notification>) -> Vec<Notification> {
    let mut out = Vec::new();
    while let Ok(n) = rx.try_recv() {
        out.push(n);
    }
    out
}

fn snapshot_of(n: &Notification) -> &Snapshot {
    match n {
        Notification::Update { snapshot, .. } => snapshot,
        Notification::Finished => panic!("expected an update"),
    }
}

#[test]
fn create_returns_fresh_snapshot() {
    let mut reg = Registry::new();
    let (id, snap) = reg.create_game(&mut XorShifEngine::new(1));
    let (id2, _) = reg.create_game(&mut XorShifEngine::new(1));
    assert_ne!(id, id2, "identifiers are drawn fresh per game");
    assert_eq!(snap.draw_pile_size, 24);
    assert_eq!(snap.upturned, None);
    assert_eq!(snap.tableaus.len(), 7);
    for (i, t) in snap.tableaus.iter().enumerate() {
        assert_eq!(t.downfaced_len, i);
        assert_eq!(t.upturned.len(), 1);
    }
}

#[test]
fn watch_is_seeded_with_the_current_snapshot() {
    let mut reg = Registry::new();
    let (id, snap) = reg.create_game(&mut XorShifEngine::new(2));
    let (tx, mut rx) = mpsc::channel(8);
    assert!(reg.watch(id, tx));
    let msgs = drain(&mut rx);
    assert_eq!(msgs.len(), 1);
    match &msgs[0] {
        Notification::Update { action, snapshot } => {
            assert_eq!(*action, None);
            assert_eq!(*snapshot, snap);
        }
        Notification::Finished => panic!("the seed is a snapshot"),
    }
}

#[test]
fn watchers_see_identical_ordered_snapshots() {
    let mut reg = Registry::new();
    let (id, _) = reg.create_game(&mut XorShifEngine::new(3));
    let (tx1, mut rx1) = mpsc::channel(32);
    let (tx2, mut rx2) = mpsc::channel(32);
    assert!(reg.watch(id, tx1));
    assert!(reg.watch(id, tx2));

    // Interleave successful draws with failing foundation builds: the
    // failures produce no entry for either watcher.
    let mut successes = 0;
    for k in 0..7 {
        if k % 2 == 0 {
            let (res, _snap) = reg.act(id, Action::Draw).expect("the game exists");
            assert!(!matches!(res, solitaire::game::ActionResult::Failed(_)));
            successes += 1;
        } else {
            // An out-of-range tableau never holds a source card.
            let (res, _snap) = reg
                .act(id, Action::BuildFoundation { src: FoundationSource::Tableau(42) })
                .expect("the game exists");
            assert!(matches!(res, solitaire::game::ActionResult::Failed(_)));
        }
    }

    let m1 = drain(&mut rx1);
    let m2 = drain(&mut rx2);
    assert_eq!(m1.len(), 1 + successes);
    assert_eq!(m2.len(), 1 + successes);
    for (a, b) in m1.iter().zip(m2.iter()) {
        match (a, b) {
            (
                Notification::Update { action: a1, snapshot: s1 },
                Notification::Update { action: a2, snapshot: s2 },
            ) => {
                assert_eq!(a1, a2);
                assert_eq!(s1, s2);
            }
            _ => panic!("both watchers see the same kind of message"),
        }
    }
    // Every update after the seed carries the action that produced it.
    for n in m1.iter().skip(1) {
        match n {
            Notification::Update { action, .. } => assert_eq!(*action, Some(Action::Draw)),
            Notification::Finished => panic!("the game was not destroyed"),
        }
    }
}

#[test]
fn destroy_ends_streams_and_forgets_the_id() {
    let mut reg = Registry::new();
    let (id, _) = reg.create_game(&mut XorShifEngine::new(4));
    let (tx, mut rx) = mpsc::channel(8);
    assert!(reg.watch(id, tx));

    assert!(reg.destroy_game(id));
    let msgs = drain(&mut rx);
    assert!(matches!(msgs.last(), Some(Notification::Finished)));

    // The identifier is gone: every later call reports that.
    assert!(reg.act(id, Action::Draw).is_none());
    let (tx2, _rx2) = mpsc::channel(8);
    assert!(!reg.watch(id, tx2));
    assert!(!reg.destroy_game(id));
}

#[test]
fn act_on_unknown_id_is_distinct() {
    let mut reg = Registry::new();
    assert!(reg.act(12345, Action::Draw).is_none());
}

#[test]
fn a_full_channel_is_pruned_without_hurting_others() {
    let mut reg = Registry::new();
    let (id, _) = reg.create_game(&mut XorShifEngine::new(5));
    // Capacity one: the seed snapshot fills the channel, so the first
    // broadcast fails and the watcher is dropped.
    let (tx_full, mut rx_full) = mpsc::channel(1);
    let (tx_ok, mut rx_ok) = mpsc::channel(32);
    assert!(reg.watch(id, tx_full));
    assert!(reg.watch(id, tx_ok));

    reg.act(id, Action::Draw).expect("the game exists");
    reg.act(id, Action::Draw).expect("the game exists");

    let full_msgs = drain(&mut rx_full);
    assert_eq!(full_msgs.len(), 1, "only the seed went through");
    let ok_msgs = drain(&mut rx_ok);
    assert_eq!(ok_msgs.len(), 3, "the healthy watcher saw the seed and both draws");
}

#[test]
fn act_reports_outcome_and_snapshot() {
    let mut reg = Registry::new();
    let (id, first) = reg.create_game(&mut XorShifEngine::new(6));
    let (res, snap) = reg.act(id, Action::Draw).expect("the game exists");
    assert!(matches!(res, solitaire::game::ActionResult::OnGoing));
    assert_eq!(snap.draw_pile_size, 23);
    assert!(snap.upturned.is_some());
    assert_ne!(snap, first);
}

#[test]
fn copied_snapshots_render_the_same_state() {
    let mut reg = Registry::new();
    let (_, snap) = reg.create_game(&mut XorShifEngine::new(7));
    let copy = copy_snapshot(&snap);
    assert_eq!(copy, snap);
}
