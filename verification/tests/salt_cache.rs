use snell::cipher::SnellCipher;
use snell::obfs::accept_salt;
use snell::salt_cache::SaltCache;
use snell::SnellError;
use std::sync::{Arc, Mutex};

const MS: u64 = 1_000_000;
const SEC: u64 = 1_000 * MS;

#[test]
fn fresh_salt_accepted() {
    let mut c = SaltCache::new();
    assert!(c.is_empty());
    assert!(c.check_and_insert(&[1u8; 16], 0));
    assert_eq!(c.len(), 1);
}

#[test]
fn duplicate_salt_within_ttl_rejected() {
    let mut c = SaltCache::new();
    let s = [2u8; 16];
    assert!(c.check_and_insert(&s, 5));
    assert!(!c.check_and_insert(&s, 5));
    assert!(!c.check_and_insert(&s, 5 + 300 * SEC - 1));
}

#[test]
fn expired_salt_re_accepted_after_ttl() {
    let mut c = SaltCache::with_capacity(100, 50 * MS);
    let s = [3u8; 16];
    assert!(c.check_and_insert(&s, 0));
    assert!(c.check_and_insert(&s, 100 * MS));
    assert!(!c.check_and_insert(&s, 149 * MS));
    assert_eq!(c.len(), 1);
}

#[test]
fn lru_evicts_oldest_when_capacity_reached() {
    let mut c = SaltCache::with_capacity(2, 60 * SEC);
    assert!(c.check_and_insert(&[0u8; 16], 0));
    assert!(c.check_and_insert(&[1u8; 16], 1));
    assert!(c.check_and_insert(&[2u8; 16], 2));
    assert!(!c.check_and_insert(&[1u8; 16], 3));
    assert!(!c.check_and_insert(&[2u8; 16], 4));
    assert!(c.check_and_insert(&[0u8; 16], 5));
    assert_eq!(c.len(), 2);
}

#[test]
fn distinct_salts_all_accepted() {
    let mut c = SaltCache::default();
    for i in 0..100u8 {
        assert!(c.check_and_insert(&[i; 16], 0));
    }
    assert_eq!(c.len(), 100);
}

#[test]
fn clone_shares_state() {
    let a = Arc::new(Mutex::new(SaltCache::new()));
    let b = a.clone();
    let s = [9u8; 16];
    assert!(a.lock().unwrap().check_and_insert(&s, 0));
    assert!(!b.lock().unwrap().check_and_insert(&s, 0));
}

#[test]
fn rejected_replay_does_not_bump_lru_position() {
    let mut c = SaltCache::with_capacity(2, 60 * SEC);
    let a = [0xAAu8; 16];
    let b = [0xBBu8; 16];
    let new = [0xCCu8; 16];
    assert!(c.check_and_insert(&a, 0));
    assert!(c.check_and_insert(&b, 0));
    for _ in 0..5 {
        assert!(!c.check_and_insert(&a, 0));
    }
    assert!(c.check_and_insert(&new, 0));
    assert!(!c.check_and_insert(&b, 0));
    assert!(c.check_and_insert(&a, 0));
}

#[test]
fn entry_outlives_as_many_others_as_there_is_room() {
    let mut c = SaltCache::with_capacity(4, 60 * SEC);
    let a = [0xAAu8; 16];
    assert!(c.check_and_insert(&a, 0));
    for i in 0..3u8 {
        assert!(c.check_and_insert(&[i; 16], 1));
        assert!(!c.check_and_insert(&a, 1));
    }
    assert!(c.check_and_insert(&[3u8; 16], 1));
    assert!(c.check_and_insert(&a, 1));
}

#[test]
fn tcp_handshake_replay_is_rejected() {
    let mut salts = SaltCache::new();
    let psk = b"integration-test-psk-0123456789";
    let salt = [0x11u8; 16];
    let mut rx = accept_salt(&mut salts, psk, &salt, 0).unwrap();
    let wire = SnellCipher::new(psk, &salt).unwrap().seal_zero().unwrap();
    assert_eq!(rx.open_header(&wire.try_into().unwrap()), Ok(None));
    assert_eq!(
        accept_salt(&mut salts, psk, &salt, SEC).err(),
        Some(SnellError::SaltReplay)
    );
}

#[test]
fn fresh_salts_both_accepted() {
    let mut salts = SaltCache::new();
    let psk = b"integration-test-psk-0123456789";
    assert!(accept_salt(&mut salts, psk, &[1u8; 16], 0).is_ok());
    assert!(accept_salt(&mut salts, psk, &[2u8; 16], 0).is_ok());
}
