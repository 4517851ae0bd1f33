use sparse_hash_delta::Compression::{Match, Raw};
use sparse_hash_delta::{
    can_restore, delta, extract_matches, restore, Compression, MatchInterval, RollingHash,
};

/// `len` bytes below `alphabet`, the same for the same `seed`.
fn sample(seed: u64, len: usize, alphabet: u64) -> Vec<u8> {
    let mut state = seed;
    let mut bytes = Vec::with_capacity(len);
    for _ in 0..len {
        state = state
            .wrapping_mul(6364136223846793005)
            .wrapping_add(1442695040888963407);
        bytes.push(((state >> 33) % alphabet) as u8);
    }
    bytes
}

/// The target that a delta replays to.
fn replay(a: &[u8], ops: &[Compression]) -> Vec<u8> {
    restore(a, ops).concat()
}

#[test]
fn delta_123_567() {
    let a = [0, 1, 2, 3, 4, 5, 6, 7];
    let b = [5, 6, 7, 9, 9, 1, 2, 3];
    let result = delta(&a, &b, 3);
    assert_eq!(result, vec![Match(5, 3), Raw(&[9, 9]), Match(1, 3)]);
}

#[test]
fn delta_no_match() {
    let a = [0, 1, 2, 3, 4, 5];
    let b = [9, 9, 9, 9, 9, 9];
    let result = delta(&a, &b, 3);
    assert_eq!(result, vec![Raw(&b[..])]);
}

#[test]
fn delta_ends_with_raw() {
    let a = [0, 1, 2, 3, 4, 5];
    let b = [9, 9, 9, 3, 4, 5, 9];
    let result = delta(&a, &b, 3);
    assert_eq!(result, vec![Raw(&[9, 9, 9]), Match(3, 3), Raw(&[9])]);
}

#[test]
fn restore_123_567() {
    let a = [0, 1, 2, 3, 4, 5, 6, 7];
    let b = [5, 6, 7, 9, 9, 1, 2, 3];
    let delta = delta(&a, &b, 3);
    let result = restore(&a, &delta);
    assert_eq!(result, vec![&b[0..3], &b[3..5], &b[5..]]);
}

#[test]
fn delta_2345_is_one_copy() {
    let a = [0, 1, 2, 3, 4, 5, 6, 7];
    let b = [2, 3, 4, 5];
    assert_eq!(
        extract_matches(&a, &b, 4),
        vec![MatchInterval { la: 2, lb: 0, len: 4 }]
    );
    assert_eq!(delta(&a, &b, 4), vec![Compression::Match(2, 4)]);
}

#[test]
fn delta_of_empty_target_is_empty() {
    let a = [0, 1, 2, 3, 4, 5];
    assert_eq!(delta(&a, &[], 3), vec![]);
    assert_eq!(delta(&[], &[], 3), vec![]);
    assert_eq!(delta(&a, &[], 1), vec![]);
    assert_eq!(delta(&a, &[], 0), vec![]);
}

#[test]
fn delta_from_empty_reference_is_one_literal() {
    let b = [9, 8, 7];
    assert_eq!(delta(&[], &b, 3), vec![Compression::Raw(&b[..])]);
    assert_eq!(delta(&[], &b, 1), vec![Compression::Raw(&b[..])]);
    assert_eq!(delta(&[], &[4], 1), vec![Compression::Raw(&[4])]);
}

#[test]
fn delta_with_window_length_zero_is_one_literal() {
    let a = [0, 1, 2, 3, 4, 5];
    assert_eq!(delta(&a, &a, 0), vec![Compression::Raw(&a[..])]);
}

#[test]
fn delta_of_buffers_shorter_than_the_window_is_one_literal() {
    let a = [1, 2, 3];
    let b = [1, 2, 3];
    assert_eq!(delta(&a, &b, 20), vec![Compression::Raw(&b[..])]);
    // A target as long as one window has no window that is hashed.
    assert_eq!(delta(&a, &[1, 2], 4), vec![Compression::Raw(&[1, 2])]);
}

#[test]
fn delta_of_equal_buffers_is_one_copy() {
    let a = [0, 1, 2, 3, 4, 5, 6, 7];
    assert_eq!(delta(&a, &a, 3), vec![Compression::Match(0, 8)]);
}

#[test]
fn delta_starts_and_ends_with_raw() {
    let a = [1, 2, 3, 4, 5, 6];
    let b = [9, 1, 2, 3, 4, 5, 6, 9];
    assert_eq!(delta(&a, &b, 2), vec![Raw(&[9]), Match(0, 6), Raw(&[9])]);
}

#[test]
fn delta_trims_one_byte_more_than_overlaps() {
    let a = [0, 1, 1, 2, 1, 2, 0];
    let b = [0, 1, 2, 1, 2, 2, 0, 0];
    // The run 1 2 found at b[3] reaches back to b[3] only, where the run
    // before it ends; the run 2 found at b[4] overlaps nothing and is taken
    // whole, and the byte b[3] between them is left as a literal.
    assert_eq!(
        delta(&a, &b, 1),
        vec![
            Match(6, 1),
            Match(4, 2),
            Raw(&[1]),
            Match(5, 1),
            Match(5, 2),
            Match(6, 1),
        ]
    );
}

#[test]
fn delta_without_common_hash_is_one_literal() {
    let a = sample(7, 200, 100);
    let b: Vec<u8> = sample(8, 150, 100).iter().map(|x| x + 100).collect();
    for min_match_len in [1usize, 2, 3, 8, 16] {
        let hash_len = (min_match_len + 1) / 2;
        // No window of b has the hash of a window of a.
        let mut of_a = Vec::new();
        let mut hashes = RollingHash::new(&a, hash_len);
        while let Some((hash, _)) = hashes.next() {
            of_a.push(hash);
        }
        let mut hashes = RollingHash::new(&b, hash_len);
        while let Some((hash, _)) = hashes.next() {
            assert!(!of_a.contains(&hash));
        }
        assert_eq!(delta(&a, &b, min_match_len), vec![Compression::Raw(&b[..])]);
    }
}

#[test]
fn delta_round_trip() {
    for seed in 0..60 {
        for alphabet in [2u64, 3, 16, 256] {
            let a = sample(seed, 120 + (seed as usize % 7), alphabet);
            let b = sample(seed + 500, 100 + (seed as usize % 11), alphabet);
            for min_match_len in 0..12 {
                let ops = delta(&a, &b, min_match_len);
                assert_eq!(replay(&a, &ops), b);
            }
        }
    }
}

#[test]
fn delta_round_trip_of_an_edited_buffer() {
    for seed in 0..20 {
        let a = sample(seed, 2000, 256);
        let mut b = a.clone();
        b.splice(300..310, sample(seed + 1, 25, 256));
        b.drain(900..1000);
        b.extend_from_slice(&a[100..400]);
        for min_match_len in [1usize, 4, 10, 33] {
            let ops = delta(&a, &b, min_match_len);
            assert_eq!(replay(&a, &ops), b);
            // Most of b is copied.
            let copied: usize = ops
                .iter()
                .map(|op| match op {
                    Compression::Match(_, len) => *len,
                    Compression::Raw(_) => 0,
                })
                .sum();
            assert!(copied * 10 >= b.len() * 9);
        }
    }
}

#[test]
fn delta_round_trip_of_short_buffers() {
    // Every pair of buffers of up to four bytes over two letters.
    let mut buffers: Vec<Vec<u8>> = vec![vec![]];
    let mut from = 0;
    for _ in 0..4 {
        let to = buffers.len();
        for i in from..to {
            for letter in 0..2u8 {
                let mut longer = buffers[i].clone();
                longer.push(letter);
                buffers.push(longer);
            }
        }
        from = to;
    }
    assert_eq!(buffers.len(), 31);
    for a in &buffers {
        for b in &buffers {
            for min_match_len in 0..6 {
                let ops = delta(a, b, min_match_len);
                assert_eq!(&replay(a, &ops), b);
                assert_eq!(ops.is_empty(), b.is_empty());
            }
        }
    }
}

#[test]
fn delta_is_deterministic() {
    for seed in 0..20 {
        let a = sample(seed, 300, 4);
        let b = sample(seed + 77, 300, 4);
        for min_match_len in 1..6 {
            let first = delta(&a, &b, min_match_len);
            let second = delta(&a, &b, min_match_len);
            assert_eq!(first, second);
            // Copies of the buffers give the same delta.
            let a_copy = a.clone();
            let b_copy = b.clone();
            assert_eq!(delta(&a_copy, &b_copy, min_match_len), first);
        }
    }
}

#[test]
fn delta_copies_are_matches_in_ascending_places() {
    for seed in 0..40 {
        let a = sample(seed, 250, 3);
        let b = sample(seed + 9, 260, 3);
        for min_match_len in 1..7 {
            let ops = delta(&a, &b, min_match_len);
            let mut place = 0;
            let mut last_copy_end = 0;
            let mut copies = 0;
            for op in &ops {
                match op {
                    Compression::Match(la, len) => {
                        assert!(*len > 0);
                        assert_eq!(a[*la..*la + *len], b[place..place + *len]);
                        if copies > 0 {
                            assert!(last_copy_end <= place);
                        }
                        place += *len;
                        last_copy_end = place;
                        copies += 1;
                    }
                    Compression::Raw(bytes) => {
                        assert!(!bytes.is_empty());
                        assert_eq!(**bytes, b[place..place + bytes.len()]);
                        place += bytes.len();
                    }
                }
            }
            assert_eq!(place, b.len());
        }
    }
}

#[test]
fn delta_has_no_two_literals_in_a_row() {
    for seed in 0..40 {
        let a = sample(seed, 250, 3);
        let b = sample(seed + 9, 260, 3);
        let ops = delta(&a, &b, 3);
        for pair in ops.windows(2) {
            let both_raw =
                matches!(pair[0], Compression::Raw(_)) && matches!(pair[1], Compression::Raw(_));
            assert!(!both_raw);
        }
    }
}

#[test]
fn delta_literals_borrow_from_the_target() {
    let a = [0, 1, 2, 3, 4, 5];
    let b = [9, 9, 9, 3, 4, 5, 9];
    let ops = delta(&a, &b, 3);
    match ops[0] {
        Compression::Raw(bytes) => assert!(std::ptr::eq(bytes.as_ptr(), b.as_ptr())),
        Compression::Match(..) => panic!("the delta starts with a literal"),
    }
}

#[test]
fn restore_resolves_each_operation() {
    let a = [10, 11, 12, 13, 14];
    let ops = [Match(1, 3), Raw(&[7, 7]), Match(0, 0), Match(4, 1), Raw(&[])];
    let parts = restore(&a, &ops);
    let expected: Vec<&[u8]> = vec![&[11, 12, 13], &[7, 7], &[], &[14], &[]];
    assert_eq!(parts, expected);
}

#[test]
fn restore_of_no_operations_is_nothing() {
    let a = [10, 11, 12];
    assert_eq!(restore(&a, &[]), Vec::<&[u8]>::new());
    assert_eq!(restore(&[], &[]), Vec::<&[u8]>::new());
}

#[test]
fn restore_copies_borrow_from_the_reference() {
    let a = [10, 11, 12, 13, 14];
    let parts = restore(&a, &[Compression::Match(2, 2)]);
    assert!(std::ptr::eq(parts[0].as_ptr(), a[2..].as_ptr()));
}

#[test]
fn restore_takes_literals_from_elsewhere() {
    // The bytes of a literal need not lie in the target that the delta was
    // computed for.
    let a = [10, 11, 12, 13, 14];
    let sent: Vec<u8> = vec![1, 2, 3];
    let ops = [Compression::Match(0, 2), Compression::Raw(&sent)];
    assert_eq!(restore(&a, &ops).concat(), vec![10, 11, 1, 2, 3]);
}

#[test]
fn can_restore_what_delta_returns() {
    for seed in 0..20 {
        let a = sample(seed, 200, 3);
        let b = sample(seed + 3, 210, 3);
        for min_match_len in 0..6 {
            assert!(can_restore(&a, &delta(&a, &b, min_match_len)));
        }
    }
}

#[test]
fn can_restore_checks_every_copy() {
    let a = [10, 11, 12, 13, 14];
    assert!(can_restore(&a, &[]));
    assert!(can_restore(&a, &[Raw(&[1, 2, 3, 4, 5, 6, 7])]));
    assert!(can_restore(&a, &[Match(0, 5)]));
    assert!(can_restore(&a, &[Match(5, 0)]));
    assert!(can_restore(&a, &[Match(2, 3), Raw(&[9]), Match(4, 1)]));
    assert!(!can_restore(&a, &[Match(0, 6)]));
    assert!(!can_restore(&a, &[Match(6, 0)]));
    assert!(!can_restore(&a, &[Match(3, 3)]));
    assert!(!can_restore(&a, &[Match(2, 3), Raw(&[9]), Match(5, 1)]));
    assert!(!can_restore(&[], &[Match(0, 1)]));
    assert!(can_restore(&[], &[Match(0, 0)]));
}

#[test]
fn can_restore_where_offset_and_length_do_not_add_up() {
    let a = [10, 11, 12];
    assert!(!can_restore(&a, &[Match(usize::MAX, 1)]));
    assert!(!can_restore(&a, &[Match(1, usize::MAX)]));
    assert!(!can_restore(&a, &[Match(usize::MAX, usize::MAX)]));
}

#[test]
fn delta_against_another_reference_may_not_be_restorable() {
    let a = sample(1, 400, 2);
    let b = sample(2, 400, 2);
    let ops = delta(&a, &b, 4);
    assert!(can_restore(&a, &ops));
    assert!(!can_restore(&a[..3], &ops));
}

/// A number that stands for a delta: deltas that differ in an operation
/// have, but for chance, different numbers.
fn digest(ops: &[Compression]) -> u64 {
    let mut h: u64 = 0;
    for op in ops {
        match op {
            Match(la, len) => {
                h = h
                    .wrapping_mul(1_000_003)
                    .wrapping_add(1 + 2 * *la as u64 + 7 * *len as u64);
            }
            Raw(bytes) => {
                h = h
                    .wrapping_mul(1_000_003)
                    .wrapping_add(3 + 5 * bytes.len() as u64);
                for byte in bytes.iter() {
                    h = h.wrapping_mul(31).wrapping_add(*byte as u64);
                }
            }
        }
    }
    h
}

#[test]
fn delta_keeps_its_recorded_results() {
    // Seed, alphabet, minimum match length; then the number of operations
    // and the digest of the delta.
    let recorded: [(u64, u64, usize, usize, u64); 36] = [
        (0, 2, 1, 57, 4706344754565593873),
        (0, 2, 3, 42, 16023872129510284533),
        (0, 2, 8, 24, 10789364238976725772),
        (0, 3, 1, 59, 3140622458911259240),
        (0, 3, 3, 44, 7097476282326895595),
        (0, 3, 8, 16, 6758348077473696278),
        (0, 5, 1, 71, 2760752374355638696),
        (0, 5, 3, 44, 15921509699800939661),
        (0, 5, 8, 5, 4561769102594803633),
        (1, 2, 1, 58, 18426697633758134206),
        (1, 2, 3, 44, 18204049079446052626),
        (1, 2, 8, 21, 3619730988655578138),
        (1, 3, 1, 64, 13311583157073588783),
        (1, 3, 3, 44, 1916608120560972272),
        (1, 3, 8, 20, 8271857244683582639),
        (1, 5, 1, 68, 8876741240838887385),
        (1, 5, 3, 43, 5317248503991728635),
        (1, 5, 8, 8, 7123107571014576460),
        (2, 2, 1, 51, 6819799763885187351),
        (2, 2, 3, 37, 8791204799737100582),
        (2, 2, 8, 23, 12481998503797644050),
        (2, 3, 1, 60, 13105262996889959707),
        (2, 3, 3, 39, 17066934807314579972),
        (2, 3, 8, 19, 11960001967136404549),
        (2, 5, 1, 69, 11466640385522321594),
        (2, 5, 3, 40, 14819336340543580874),
        (2, 5, 8, 3, 10302107175573889509),
        (3, 2, 1, 53, 16117616979102622702),
        (3, 2, 3, 36, 7690666729220128593),
        (3, 2, 8, 22, 4527208060708321413),
        (3, 3, 1, 69, 961841420801718229),
        (3, 3, 3, 31, 9084549367402595944),
        (3, 3, 8, 19, 4322626790717101358),
        (3, 5, 1, 71, 16027462461488735799),
        (3, 5, 3, 39, 15410447629280787053),
        (3, 5, 8, 3, 14576151078759712194),
    ];
    for (seed, alphabet, min_match_len, count, expected) in recorded {
        let a = sample(seed * 3 + alphabet, 90, alphabet);
        let b = sample(seed * 5 + alphabet + 100, 80, alphabet);
        let ops = delta(&a, &b, min_match_len);
        assert_eq!(ops.len(), count);
        assert_eq!(digest(&ops), expected);
    }
}
