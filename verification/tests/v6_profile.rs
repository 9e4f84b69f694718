use snell::v6::Profile;
use snell::SnellError;

const PSK_A: &[u8] = b"test-psk-0123456789abcdef";
const PSK_B: &[u8] = b"test-psk-fedcba9876543210";

fn hex(b: &[u8]) -> String {
    b.iter().map(|x| format!("{x:02x}")).collect()
}

#[test]
fn seed_matches_reference_psk_a() {
    let p = Profile::derive(b"test-psk-0123456789abcdef");
    assert_eq!(p.seed_at(0), 0xecad11149a98ae33);
    assert_eq!(p.seed_at(136), 0x3949ad7f58be7803);
}

#[test]
fn f_field_param_matches_reference() {
    let p = Profile::derive(b"test-psk-0123456789abcdef");
    assert_eq!(p.param(18, 0x51A7, 17, 251), 251);
}

#[test]
fn draw_covers_all_route_arms_and_high_category() {
    let p = Profile::derive(b"test-psk-0123456789abcdef");
    let _ = p.draw(2, 0);
    let _ = p.draw(21, 0);
    let _ = p.draw(28, 0);
    let _ = p.draw(4, 0);
    let _ = p.draw(40, 0);
    assert_eq!(p.draw(2, 0), p.draw(2, 0));
}

#[test]
fn param_returns_lo_when_hi_not_greater() {
    let p = Profile::derive(b"test-psk-0123456789abcdef");
    assert_eq!(p.param(0, 0, 5, 5), 5);
    assert_eq!(p.param(0, 0, 9, 3), 9);
}

#[test]
fn bound_stays_in_range() {
    let p = Profile::derive(PSK_A);
    assert_eq!(p.bound(0, 10, 20), 10);
    assert_eq!(p.bound(10, 10, 20), 20);
    assert_eq!(p.bound(11, 10, 20), 10);
    assert_eq!(p.bound(u32::MAX, 7, 7), 7);
}

#[test]
fn master_digest_determines_the_profile() {
    let a = Profile::from_master(&[0u8; 32]);
    let b = Profile::from_master(&[1u8; 32]);
    assert_ne!(a.seed_at(0), b.seed_at(0));
    assert_eq!(a.seed_at(216), Profile::from_master(&[0u8; 32]).seed_at(216));
}

#[test]
fn frame_fields_match_reference_psk_a() {
    let p = Profile::derive(b"test-psk-0123456789abcdef");
    assert_eq!(p.f_field(), 251);
    assert_eq!(p.shuffle_rounds(), 4);
    assert_eq!(p.frame_lo(), 65);
    assert_eq!(p.frame_hi(), 128);
    assert_eq!(p.frame_len(), 120);
    assert_eq!(hex(&p.keystream()), "b2095ec2e8d0fb88c863a972cf7e2a5c");
}

#[test]
fn salt_round_trips_through_frame() {
    let p = Profile::derive(b"test-psk-fedcba9876543210");
    let salt = [
        0x01, 0x0e, 0x1b, 0x28, 0x35, 0x42, 0x4f, 0x5c, 0x69, 0x76, 0x83, 0x90, 0x9d, 0xaa,
        0xb7, 0xc4,
    ];
    let frame = p.encode_first_frame(&salt, None).unwrap();
    assert_eq!(frame.len(), p.frame_len());
    assert_eq!(p.decode_first_frame(&frame).unwrap(), salt);
}

#[test]
fn encode_accepts_correct_length_filler_and_rejects_wrong() {
    let p = Profile::derive(b"test-psk-0123456789abcdef");
    let salt = [0u8; 16];
    let n = p.frame_len();
    let frame = p.encode_first_frame(&salt, Some(&vec![0xAB; n])).unwrap();
    assert_eq!(frame.len(), n);
    assert_eq!(p.decode_first_frame(&frame).unwrap(), salt);
    assert!(p.encode_first_frame(&salt, Some(&[0u8; 3])).is_err());
    assert_eq!(
        p.encode_first_frame(&salt, Some(&[0u8; 3])).err(),
        Some(SnellError::FillerLength { found: 3, expected: n })
    );
}

#[test]
fn decode_rejects_wrong_length_frame() {
    let p = Profile::derive(b"test-psk-0123456789abcdef");
    assert!(p.decode_first_frame(&[0u8; 5]).is_err());
    assert_eq!(
        p.decode_first_frame(&[0u8; 5]).err(),
        Some(SnellError::FrameLength { found: 5, expected: 120 })
    );
}

#[test]
fn positions_are_permuted() {
    for i in 0..32u32 {
        let p = Profile::derive(format!("perm-psk-{i}").as_bytes());
        let n = p.frame_len();
        assert!((32..=144).contains(&n));
        let mut seen = p.perm();
        seen.sort();
        assert_eq!(seen, (0..n).collect::<Vec<usize>>());
    }
}

#[test]
fn mix_is_an_involution_across_profiles_and_shapes() {
    for i in 0..64u32 {
        let p = Profile::derive(format!("involution-psk-{i:04}").as_bytes());
        for (jl, cl) in [
            (0, 0),
            (1, 1),
            (7, 130),
            (879, 102),
            (1022, 102),
            (300, 4096),
        ] {
            for chunk in 0..3u64 {
                let junk0: Vec<u8> = (0..jl).map(|x| (x * 7 + 1) as u8).collect();
                let ct0: Vec<u8> = (0..cl).map(|x| (x * 13 + 5) as u8).collect();
                let (mut junk, mut ct) = (junk0.clone(), ct0.clone());
                p.mix(chunk, &mut junk, &mut ct);
                p.mix(chunk, &mut junk, &mut ct);
                assert_eq!(junk, junk0, "junk psk={i} shape=({jl},{cl}) chunk={chunk}");
                assert_eq!(ct, ct0, "ct psk={i} shape=({jl},{cl}) chunk={chunk}");
            }
        }
    }
}

#[test]
fn mix_actually_moves_bytes() {
    for i in 0..64u32 {
        let p = Profile::derive(format!("involution-psk-{i:04}").as_bytes());
        let mut junk = vec![0xAAu8; 4096];
        let mut ct = vec![0x55u8; 4096];
        p.mix(0, &mut junk, &mut ct);
        assert!(
            ct.iter().any(|&b| b != 0x55),
            "psk {i} left the record untouched"
        );
    }
}

#[test]
fn mix_fields_match_reference_psks() {
    let a = Profile::derive(b"test-psk-0123456789abcdef");
    assert_eq!((a.mix_mode(), a.mix_rounds(), a.mix_block()), (1, 1, 51));
    assert_eq!((a.mix_stride_base(), a.mix_start_base()), (8, 10));

    let b = Profile::derive(b"test-psk-fedcba9876543210");
    assert_eq!((b.mix_mode(), b.mix_rounds(), b.mix_block()), (2, 2, 30));
}

#[test]
fn block_mix_moves_the_even_blocks() {
    // One round of 51-byte blocks: blocks 0 and 2 change sides.
    let p = Profile::derive(PSK_A);
    let mut junk = vec![1u8; 160];
    let mut ct = vec![2u8; 200];
    p.mix(5, &mut junk, &mut ct);
    for o in 0..160 {
        let moved = o < 51 || (102..153).contains(&o);
        assert_eq!(junk[o], if moved { 2 } else { 1 }, "junk {o}");
        assert_eq!(ct[o], if moved { 1 } else { 2 }, "ct {o}");
    }
    assert!(ct[160..].iter().all(|&b| b == 2));
}

#[test]
fn prefix_fields_match_reference_psk_a() {
    let p = Profile::derive(PSK_A);
    assert_eq!(p.prefix_lo(), 78);
    assert_eq!(p.prefix_hi(), 128);
    assert_eq!(p.prefix_len(0), 107);
}

#[test]
fn plan_interleave_matches_captures() {
    let a = Profile::derive(b"test-psk-0123456789abcdef");
    assert_eq!(a.plan_interleave(0, 86, true), 879, "PSK A interleave");

    let b = Profile::derive(b"test-psk-fedcba9876543210");
    assert_eq!(b.plan_interleave(0, 86, true), 1022, "PSK B interleave");
}

#[test]
fn junk_lengths_stay_within_the_cap() {
    for i in 0..40u32 {
        let p = Profile::derive(format!("sizing-psk-{i}").as_bytes());
        for k in 0..20u64 {
            for pl in [0usize, 1, 86, 700, 1400, 0x3fff] {
                assert!(p.plan_interleave(k, pl, k == 0) <= 1460);
                assert!((8..=128).contains(&p.prefix_len(k)));
            }
        }
    }
}

#[test]
fn target_size_covers_the_record() {
    let p = Profile::derive(PSK_B);
    for total in [0u64, 1, 319, 700, 1459, 1460, 9000, 0xfffe, 0xffff, 1 << 40] {
        let t = p.target_size(3, total);
        assert!(t as u64 >= total.min(0xffff));
    }
    assert_eq!(p.target_size(0, 2000), 2000);
    assert_eq!(p.target_size(0, 1 << 40), 0xffff);
}

#[test]
fn filler_has_one_bit_count_under_both_reference_keys() {
    for psk in [PSK_A, PSK_B] {
        let p = Profile::derive(psk);
        for len in [107usize, 879, 1022] {
            let mut out = vec![0u8; len];
            p.fill_filler(0, &mut out);
            assert!(out.iter().all(|b| b.count_ones() == 4));
        }
    }
}

fn filler_hex(psk: &[u8], chunk: u64, len: usize) -> String {
    let mut out = vec![0u8; len];
    Profile::derive(psk).fill_filler(chunk, &mut out);
    hex(&out)
}

#[test]
fn filler_bytes_of_each_rule() {
    assert_eq!(
        filler_hex(PSK_A, 0, 24),
        "785c7287f0b8667478a3ccf087b166c51ee239c3e1c6c3e1"
    );
    assert_eq!(
        filler_hex(b"arm-psk-1", 5, 40),
        "81882121a02122182824c081281890500c50031182c044900a900c5012220c09180a908882068812"
    );
    assert_eq!(
        filler_hex(b"arm-psk-0", 5, 40),
        "f226f37d9942e448b8613c855d9f3840543825359e51cacdd74155454f36c2dec13d3257a168416d"
    );
    assert_eq!(
        filler_hex(b"arm-psk-4", 5, 40),
        "250373d79399180791a623c572a5879710c8088797c625d6d628a491831566e8279077a6c3730500"
    );
    assert_eq!(
        filler_hex(b"arm-psk-9", 5, 40),
        "3733e322f5a456eb96505a9342ed6c4a06a31e35339843821544b60b36f0fa33228d0c2aa603bec2"
    );
}

#[test]
fn permutation_of_reference_key() {
    let p = Profile::derive(PSK_A).perm();
    assert_eq!(
        &p[..16],
        &[21, 113, 57, 77, 28, 81, 41, 68, 96, 87, 51, 90, 76, 17, 24, 89]
    );
}

/// Which positions move, as a string of 0 and 1.
fn moved(psk: &[u8], chunk: u64, n: usize) -> String {
    let mut junk = vec![b'0'; n];
    let mut ct = vec![b'1'; n];
    Profile::derive(psk).mix(chunk, &mut junk, &mut ct);
    String::from_utf8(junk).unwrap()
}

#[test]
fn mix_positions_of_each_variant() {
    assert_eq!(
        moved(b"mix-psk-28", 2, 48),
        "100100100100100100100100100100100100100100100100"
    );
    assert_eq!(
        moved(b"mix-psk-1", 2, 48),
        "000000110000101000100100100010100001100000000000"
    );
    assert_eq!(
        moved(b"mix-psk-3", 2, 48),
        "000010000001110000101010010010011000100110001010"
    );
    assert_eq!(
        moved(b"mix-psk-27", 2, 48),
        "000010000010000010000010000010000010000010000010"
    );
    assert_eq!(
        moved(b"mix-psk-4", 2, 48),
        "000110000000000000110000010100001001000100010010"
    );
    assert_eq!(
        moved(b"mix-psk-2", 2, 48),
        "100100000000110100000000000100000000000010000000"
    );
    let blocks = moved(b"mix-psk-6", 2, 140);
    assert_eq!(&blocks[..32], &"0".repeat(32));
    assert_eq!(&blocks[32..64], &"1".repeat(32));
    assert_eq!(&blocks[64..96], &"0".repeat(32));
    assert_eq!(&blocks[96..128], &"1".repeat(32));
    assert_eq!(&blocks[128..], &"0".repeat(12));
}

#[test]
fn filler_depends_on_chunk_and_length_only() {
    for i in 0..24u32 {
        let p = Profile::derive(format!("filler-psk-{i}").as_bytes());
        let mut a = vec![0u8; 200];
        let mut b = vec![0xFFu8; 200];
        p.fill_filler(7, &mut a);
        p.fill_filler(7, &mut b);
        assert_eq!(a, b);
        let mut c = vec![0u8; 201];
        p.fill_filler(7, &mut c);
        assert_ne!(&a[..], &c[..200]);
        let mut d = vec![0u8; 200];
        p.fill_filler(8, &mut d);
        assert_ne!(a, d);
        p.fill_filler(7, &mut []);
    }
}

#[test]
fn every_filler_rule_keeps_its_byte_classes() {
    let mut arms = [0u32; 4];
    for i in 0..64u32 {
        let p = Profile::derive(format!("arm-psk-{i}").as_bytes());
        let arm = (p.draw(6, 0) & 3) as usize;
        arms[arm] += 1;
        let mut out = vec![0u8; 300];
        p.fill_filler(1, &mut out);
        match arm {
            0 => {
                let n = out[0].count_ones();
                assert!((2..=6).contains(&n));
                assert!(out.iter().all(|b| b.count_ones() == n));
            }
            1 => assert!(out.iter().all(|&b| (32..=126).contains(&b) || b >= 0x80)),
            2 => assert!(out.iter().all(|&b| b & 0x0f <= 9)),
            _ => {
                let d = p.param(6, 6, 7, 23) as usize;
                for (i, b) in out.iter().enumerate() {
                    if i % d == d - 3 || i % d == d - 2 {
                        assert!(b.is_ascii_digit());
                    }
                }
            }
        }
    }
    assert!(arms.iter().all(|&n| n > 0));
}

#[test]
fn first_record_reaches_its_floor() {
    for i in 0..64u32 {
        let p = Profile::derive(format!("floor-psk-{i}").as_bytes());
        for pl in [0usize, 1, 86, 300] {
            let seen = p.frame_len() - 16 + p.prefix_len(0) + p.plan_interleave(0, pl, true);
            assert!(seen >= 192, "psk {i} payload {pl}");
        }
    }
}
