use lockbox::id::Uid;
use lockbox::purge::Purge;
use lockbox::sessions::Sessions;
use lockbox::shares::Seed;

#[test]
fn test_consume_token_is_one_shot() {
    let mut sessions = Sessions::new();
    let token = Seed { bytes: [7u8; 32] };
    sessions.add_token(Uid::new(5), token);
    let first = sessions.consume_token_by_id(Uid::new(5));
    assert_eq!(first, Some(Seed { bytes: [7u8; 32] }));
    let second = sessions.consume_token_by_id(Uid::new(5));
    assert_eq!(second, None);
}

#[test]
fn test_consume_missing_token() {
    let mut sessions = Sessions::new();
    assert_eq!(sessions.consume_token_by_id(Uid::new(1)), None);
}

#[test]
fn test_add_token_replaces() {
    let mut sessions = Sessions::new();
    sessions.add_token(Uid::new(1), Seed { bytes: [1u8; 32] });
    sessions.add_token(Uid::new(1), Seed { bytes: [2u8; 32] });
    assert_eq!(sessions.consume_token_by_id(Uid::new(1)), Some(Seed { bytes: [2u8; 32] }));
}

#[test]
fn test_purge_empties_sessions() {
    let mut sessions = Sessions::new();
    sessions.add_token(Uid::new(1), Seed { bytes: [1u8; 32] });
    sessions.purge();
    assert_eq!(sessions.consume_token_by_id(Uid::new(1)), None);
}
