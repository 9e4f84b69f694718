use snell::cipher::SnellCipher;
use snell::relay::{copy_t2c_adaptive, AdaptiveSizer};
use snell::session::Session;
use snell::snell::read_chunk;

#[test]
fn sizer_ramps_after_two_full_reads() {
    let mut s = AdaptiveSizer::new();
    assert_eq!(s.next_size(), 1024);
    s.on_full();
    assert_eq!(s.next_size(), 1024);
    s.on_full();
    assert_eq!(s.next_size(), 2048);
    for _ in 0..10 {
        s.on_full();
        s.on_full();
    }
    assert_eq!(s.next_size(), 16384);
}

#[test]
fn sizer_backs_off_on_partial() {
    let mut s = AdaptiveSizer::new();
    s.on_full();
    s.on_full();
    s.on_partial();
    assert_eq!(s.next_size(), 1024);
}

#[test]
fn sizer_resets_streak_on_partial() {
    let mut s = AdaptiveSizer::new();
    s.on_full();
    s.on_partial();
    s.on_full();
    assert_eq!(s.next_size(), 1024);
}

#[test]
fn relay_turns_chunk_what_was_read() {
    let psk = b"relay-test-psk-0123456789";
    let mut tx = SnellCipher::new(psk, &[1u8; 16]).unwrap();
    let mut rx = SnellCipher::new(psk, &[1u8; 16]).unwrap();
    let mut sizer = AdaptiveSizer::default();
    let data = vec![3u8; 1024];
    for _ in 0..2 {
        let step = copy_t2c_adaptive(&mut sizer, &mut tx, &data).unwrap();
        assert!(!step.done);
        let (got, used) = read_chunk(&step.wire, &mut rx).unwrap();
        assert_eq!(got.unwrap(), data);
        assert_eq!(used, step.wire.len());
    }
    assert_eq!(sizer.next_size(), 2048);
    let end = copy_t2c_adaptive(&mut sizer, &mut tx, &[]).unwrap();
    assert!(end.done);
    assert_eq!(end.wire.len(), 23);
    assert!(read_chunk(&end.wire, &mut rx).unwrap().0.is_none());
    assert_eq!(sizer.next_size(), 2048);
}

#[test]
fn relay_works_in_the_raw_mode() {
    let mut sizer = AdaptiveSizer::new();
    let step = Session::Raw.relay(&mut sizer, b"abc").unwrap();
    assert_eq!(step.wire, vec![4, 0, 0, 0, 3, b'a', b'b', b'c']);
    let end = Session::Raw.relay(&mut sizer, &[]).unwrap();
    assert!(end.done);
    assert_eq!(end.wire, vec![4, 0, 0, 0, 0]);
}
