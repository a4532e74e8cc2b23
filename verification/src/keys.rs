//! Steering keys: which key is held, the events that change it, and the
//! start-up key sequence.

use vstd::prelude::*;

verus! {

/// The steering key held down, if any.
#[derive(Clone, Copy, Debug, PartialEq, Eq, Structural)]
pub enum HeldKey {
    NoKey,
    A,
    D,
}

/// Keys the bot sends.
#[derive(Clone, Copy, Debug, PartialEq, Eq, Structural)]
pub enum KeyCode {
    A,
    D,
    Space,
}

/// A key press (`up == false`) or release (`up == true`).
#[derive(Clone, Copy, Debug, PartialEq, Eq, Structural)]
pub struct KeyEvent {
    pub key: KeyCode,
    pub up: bool,
}

pub open spec fn press(key: KeyCode) -> KeyEvent {
    KeyEvent { key, up: false }
}

pub open spec fn release(key: KeyCode) -> KeyEvent {
    KeyEvent { key, up: true }
}

/// The releases that `release_keys` sends from the held state `held`.
pub open spec fn release_events(held: HeldKey, force_all: bool) -> Seq<KeyEvent> {
    match held {
        HeldKey::A => seq![release(KeyCode::A)],
        HeldKey::D => seq![release(KeyCode::D)],
        HeldKey::NoKey => if force_all {
            seq![release(KeyCode::A), release(KeyCode::D)]
        } else {
            seq![]
        },
    }
}

/// The events that `hold_key` sends to go from holding `held` to holding `key`.
pub open spec fn hold_events(held: HeldKey, key: HeldKey) -> Seq<KeyEvent> {
    if held == key {
        seq![]
    } else {
        release_events(held, false) + match key {
            HeldKey::A => seq![press(KeyCode::A)],
            HeldKey::D => seq![press(KeyCode::D)],
            HeldKey::NoKey => seq![],
        }
    }
}

/// Releases the held steering key (or both steering keys when `force_all`
/// and none is held) and records that none is held. Returns the key events
/// to send, in order.
pub fn release_keys(held: &mut HeldKey, force_all: bool) -> (events: Vec<KeyEvent>)
    ensures
        *final(held) == HeldKey::NoKey,
        events@ == release_events(*old(held), force_all),
{
    let mut events: Vec<KeyEvent> = Vec::new();
    match *held {
        HeldKey::A => events.push(KeyEvent { key: KeyCode::A, up: true }),
        HeldKey::D => events.push(KeyEvent { key: KeyCode::D, up: true }),
        HeldKey::NoKey => {
            if force_all {
                events.push(KeyEvent { key: KeyCode::A, up: true });
                events.push(KeyEvent { key: KeyCode::D, up: true });
            }
        },
    }
    *held = HeldKey::NoKey;
    proof {
        assert(events@ =~= release_events(*old(held), force_all));
    }
    events
}

/// Holds `key` down instead of the key held now: nothing happens when it is
/// already held; otherwise the held key is released and `key` pressed.
/// Returns the key events to send, in order.
pub fn hold_key(held: &mut HeldKey, key: HeldKey) -> (events: Vec<KeyEvent>)
    ensures
        *final(held) == key,
        events@ == hold_events(*old(held), key),
{
    if *held == key {
        let events: Vec<KeyEvent> = Vec::new();
        proof {
            assert(events@ =~= hold_events(*old(held), key));
        }
        return events;
    }
    let mut events = release_keys(held, false);
    match key {
        HeldKey::A => events.push(KeyEvent { key: KeyCode::A, up: false }),
        HeldKey::D => events.push(KeyEvent { key: KeyCode::D, up: false }),
        HeldKey::NoKey => {},
    }
    *held = key;
    proof {
        assert(events@ =~= hold_events(*old(held), key));
    }
    events
}

/// The keys down after `events`, starting from the keys in `down`.
pub open spec fn keys_after(down: Set<KeyCode>, events: Seq<KeyEvent>) -> Set<KeyCode>
    decreases events.len(),
{
    if events.len() == 0 {
        down
    } else {
        let before = keys_after(down, events.drop_last());
        let e = events.last();
        if e.up {
            before.remove(e.key)
        } else {
            before.insert(e.key)
        }
    }
}

/// The keys down while `held` is held.
pub open spec fn keys_down(held: HeldKey) -> Set<KeyCode> {
    match held {
        HeldKey::NoKey => Set::empty(),
        HeldKey::A => set![KeyCode::A],
        HeldKey::D => set![KeyCode::D],
    }
}

/// After the events of `release_keys`, no key is down, as the held state says.
pub proof fn lemma_release_keys_matches_keyboard(held: HeldKey, force_all: bool)
    ensures
        keys_after(keys_down(held), release_events(held, force_all)) == keys_down(HeldKey::NoKey),
{
    let evs = release_events(held, force_all);
    let down = keys_down(held);
    match held {
        HeldKey::NoKey => {
            if force_all {
                let first = evs.drop_last();
                assert(first =~= seq![release(KeyCode::A)]);
                assert(first.drop_last() =~= Seq::<KeyEvent>::empty());
                assert(keys_after(down, first.drop_last()) == down);
                assert(keys_after(down, first) =~= Set::<KeyCode>::empty());
                assert(keys_after(down, evs) =~= Set::<KeyCode>::empty());
            } else {
                assert(evs =~= Seq::<KeyEvent>::empty());
            }
        },
        _ => {
            assert(evs.drop_last() =~= Seq::<KeyEvent>::empty());
            assert(keys_after(down, evs.drop_last()) == down);
        },
    }
    assert(keys_after(down, evs) =~= keys_down(HeldKey::NoKey));
}

/// After the events of `hold_key`, exactly the newly held key is down.
pub proof fn lemma_hold_key_matches_keyboard(held: HeldKey, key: HeldKey)
    ensures
        keys_after(keys_down(held), hold_events(held, key)) == keys_down(key),
{
    let evs = hold_events(held, key);
    if held != key {
        let rel = release_events(held, false);
        lemma_release_keys_matches_keyboard(held, false);
        match key {
            HeldKey::NoKey => {
                assert(evs =~= rel);
            },
            _ => {
                assert(evs.drop_last() =~= rel);
            },
        }
    }
    assert(keys_after(keys_down(held), evs) =~= keys_down(key));
}

proof fn lemma_keys_after_concat(down: Set<KeyCode>, a: Seq<KeyEvent>, b: Seq<KeyEvent>)
    ensures
        keys_after(down, a + b) == keys_after(keys_after(down, a), b),
    decreases b.len(),
{
    if b.len() == 0 {
        assert(a + b =~= a);
    } else {
        lemma_keys_after_concat(down, a, b.drop_last());
        assert((a + b).drop_last() =~= a + b.drop_last());
        assert((a + b).last() == b.last());
    }
}

/// Holding a key and then releasing the keys leaves no key down, whatever
/// was held before.
pub proof fn lemma_hold_then_release(held: HeldKey, key: HeldKey)
    ensures
        keys_after(keys_down(held), hold_events(held, key) + release_events(key, false)) == keys_down(
            HeldKey::NoKey,
        ),
{
    lemma_keys_after_concat(keys_down(held), hold_events(held, key), release_events(key, false));
    lemma_hold_key_matches_keyboard(held, key);
    lemma_release_keys_matches_keyboard(key, false);
}

/// Holding the same key twice sends nothing the second time.
pub proof fn lemma_hold_key_idempotent(key: HeldKey)
    ensures
        hold_events(key, key) == Seq::<KeyEvent>::empty(),
{
}

/// One step of the start-up sequence: send `event`, then wait `wait_ms`
/// milliseconds.
#[derive(Clone, Copy, Debug, PartialEq, Eq, Structural)]
pub struct StartupStep {
    pub event: KeyEvent,
    pub wait_ms: u64,
}

pub open spec fn tap(key: KeyCode, hold_ms: u64, after_ms: u64) -> Seq<StartupStep> {
    seq![
        StartupStep { event: press(key), wait_ms: hold_ms },
        StartupStep { event: release(key), wait_ms: after_ms },
    ]
}

/// The start-up sequence: hold D for 600 ms, tap Space twice, hold A for
/// 600 ms, tap Space twice; each Space is held 250 ms and followed by 180 ms.
pub open spec fn startup_steps() -> Seq<StartupStep> {
    tap(KeyCode::D, 600, 0) + tap(KeyCode::Space, 250, 180) + tap(KeyCode::Space, 250, 180) + tap(
        KeyCode::A,
        600,
        0,
    ) + tap(KeyCode::Space, 250, 180) + tap(KeyCode::Space, 250, 180)
}

fn push_tap(steps: &mut Vec<StartupStep>, key: KeyCode, hold_ms: u64, after_ms: u64)
    ensures
        final(steps)@ == old(steps)@ + tap(key, hold_ms, after_ms),
{
    steps.push(StartupStep { event: KeyEvent { key, up: false }, wait_ms: hold_ms });
    steps.push(StartupStep { event: KeyEvent { key, up: true }, wait_ms: after_ms });
    proof {
        assert(steps@ =~= old(steps)@ + tap(key, hold_ms, after_ms));
    }
}

/// The key events that start the minigame, with the pause after each.
pub fn startup_sequence() -> (steps: Vec<StartupStep>)
    ensures
        steps@ == startup_steps(),
{
    let mut steps: Vec<StartupStep> = Vec::new();
    push_tap(&mut steps, KeyCode::D, 600, 0);
    push_tap(&mut steps, KeyCode::Space, 250, 180);
    push_tap(&mut steps, KeyCode::Space, 250, 180);
    push_tap(&mut steps, KeyCode::A, 600, 0);
    push_tap(&mut steps, KeyCode::Space, 250, 180);
    push_tap(&mut steps, KeyCode::Space, 250, 180);
    proof {
        assert(Seq::<StartupStep>::empty() + tap(KeyCode::D, 600, 0) =~= tap(KeyCode::D, 600, 0));
    }
    steps
}

} // verus!
