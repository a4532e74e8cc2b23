use lib::keys::{hold_key, release_keys, startup_sequence, HeldKey, KeyCode, KeyEvent, StartupStep};

fn up(key: KeyCode) -> KeyEvent {
    KeyEvent { key, up: true }
}

fn down(key: KeyCode) -> KeyEvent {
    KeyEvent { key, up: false }
}

#[test]
fn release_held_key() {
    let mut held = HeldKey::A;
    assert_eq!(release_keys(&mut held, false), vec![up(KeyCode::A)]);
    assert_eq!(held, HeldKey::NoKey);
    let mut held = HeldKey::D;
    assert_eq!(release_keys(&mut held, true), vec![up(KeyCode::D)]);
    assert_eq!(held, HeldKey::NoKey);
}

#[test]
fn release_nothing_held() {
    let mut held = HeldKey::NoKey;
    assert_eq!(release_keys(&mut held, false), vec![]);
    assert_eq!(release_keys(&mut held, true), vec![up(KeyCode::A), up(KeyCode::D)]);
    assert_eq!(held, HeldKey::NoKey);
}

#[test]
fn hold_switches_keys() {
    let mut held = HeldKey::NoKey;
    assert_eq!(hold_key(&mut held, HeldKey::D), vec![down(KeyCode::D)]);
    assert_eq!(held, HeldKey::D);
    assert_eq!(hold_key(&mut held, HeldKey::D), vec![]);
    assert_eq!(hold_key(&mut held, HeldKey::A), vec![up(KeyCode::D), down(KeyCode::A)]);
    assert_eq!(held, HeldKey::A);
    assert_eq!(hold_key(&mut held, HeldKey::NoKey), vec![up(KeyCode::A)]);
    assert_eq!(held, HeldKey::NoKey);
}

#[test]
fn startup_keys() {
    let steps = startup_sequence();
    let tap = |key, hold, after| {
        vec![StartupStep { event: down(key), wait_ms: hold }, StartupStep { event: up(key), wait_ms: after }]
    };
    let mut expected = Vec::new();
    expected.extend(tap(KeyCode::D, 600, 0));
    expected.extend(tap(KeyCode::Space, 250, 180));
    expected.extend(tap(KeyCode::Space, 250, 180));
    expected.extend(tap(KeyCode::A, 600, 0));
    expected.extend(tap(KeyCode::Space, 250, 180));
    expected.extend(tap(KeyCode::Space, 250, 180));
    assert_eq!(steps, expected);
}

#[test]
fn hold_then_release_leaves_no_key_down() {
    let mut held = HeldKey::A;
    let mut events = hold_key(&mut held, HeldKey::D);
    events.extend(release_keys(&mut held, false));
    assert_eq!(events, vec![up(KeyCode::A), down(KeyCode::D), up(KeyCode::D)]);
    assert_eq!(held, HeldKey::NoKey);
}
