use passgen_embedded::generate;
use passgen_embedded::generate_password;
use passgen_embedded::get_random_value;
use passgen_embedded::rng::scale_draw;
use passgen_embedded::Prng;
use passgen_embedded::shuffle;
use passgen_embedded::symbols::category_len;
use passgen_embedded::symbols::category_symbol;
use passgen_embedded::symbols::NUM_CATEGORIES;

fn category_of(b: u8) -> Option<usize> {
    for k in 0..NUM_CATEGORIES {
        for i in 0..category_len(k) {
            if category_symbol(k, i) == b {
                return Some(k);
            }
        }
    }
    None
}

#[test]
fn test_random_numbers() {
    let mut rng = Prng::new(1);
    let result = get_random_value(&mut rng, 0, 100);
    assert_eq!(result < 101, true);
    assert_eq!(result > 0, true);
}

#[test]
fn random_value_stays_within_bound() {
    for seed in 0..200u64 {
        let mut rng = Prng::new(seed);
        for _ in 0..50 {
            let v = get_random_value(&mut rng, 0, 100);
            assert!(v <= 100);
        }
    }
}

#[test]
fn random_value_of_seed_one() {
    let mut rng = Prng::new(1);
    assert_eq!(get_random_value(&mut rng, 0, 100), 71);
}

#[test]
fn random_value_with_offset_range() {
    for seed in 0..100u64 {
        let mut rng = Prng::new(seed);
        let v = get_random_value(&mut rng, 10, 20);
        assert!(10 <= v && v <= 20);
    }
}

#[test]
fn test_shuffle() {
    let mut rng = Prng::new(42);
    let mut data = [2, 12, 85, 0, 6];
    shuffle(data.len(), &mut data, &mut rng);
    assert_eq!(data, [2, 85, 6, 0, 12]);
}

#[test]
fn shuffle_of_one_slot_is_no_op() {
    let mut rng = Prng::new(42);
    let mut data = [9, 8, 7];
    shuffle(1, &mut data, &mut rng);
    assert_eq!(data, [9, 8, 7]);
}

#[test]
fn shuffle_keeps_suffix_and_elements() {
    let mut rng = Prng::new(5);
    let mut data = [1, 2, 3, 4, 5, 6, 7, 8];
    shuffle(6, &mut data, &mut rng);
    assert_eq!(&data[6..], &[7, 8]);
    let mut head = data[..6].to_vec();
    head.sort();
    assert_eq!(head, vec![1, 2, 3, 4, 5, 6]);
}

#[test]
fn test_generate() {
    let mut buffer = [0; 12];
    generate(&mut buffer, 12, 42);
    assert_eq!(buffer, [75, 62, 40, 78, 42, 55, 122, 38, 103, 55, 64, 65]);
}

#[test]
fn generate_short_passwords() {
    let mut one = [0; 1];
    generate(&mut one, 1, 1);
    assert_eq!(one, [b'7']);
    let mut two = [0; 2];
    generate(&mut two, 2, 3);
    assert_eq!(two, [b'5', b'd']);
    let mut four = [0; 4];
    generate(&mut four, 4, 7);
    assert_eq!(&four, b"-8pC");
}

#[test]
fn generation_is_deterministic() {
    for seed in [0u64, 1, 42, u64::MAX] {
        let mut a = [0u8; 20];
        let mut b = [0xAAu8; 20];
        generate(&mut a, 20, seed);
        generate(&mut b, 20, seed);
        assert_eq!(a, b);
    }
}

#[test]
fn every_category_is_covered() {
    for length in [4usize, 5, 12, 64] {
        for seed in 0..50u64 {
            let mut buffer = vec![0u8; length];
            generate(&mut buffer, length, seed);
            let mut seen = [false; NUM_CATEGORIES];
            for &b in &buffer {
                let k = category_of(b).expect("symbol outside the pool");
                seen[k] = true;
            }
            assert_eq!(seen, [true; NUM_CATEGORIES]);
        }
    }
}

#[test]
fn zero_length_is_rejected() {
    let mut buffer = [7u8; 4];
    let r = generate_password(Some(&mut buffer[..0]), 0, 42);
    assert!(!r.success);
    assert_eq!(r.error_string, "len(password) == 0.");
    assert_eq!(buffer, [7u8; 4]);
    for seed in [0u64, 1, u64::MAX] {
        let r = generate_password(None, 0, seed);
        assert!(!r.success);
        assert_eq!(r.error_string, "len(password) == 0.");
    }
}

#[test]
fn missing_buffer_is_rejected() {
    let r = generate_password(None, 8, 42);
    assert!(!r.success);
    assert_eq!(r.error_string, "Buffer is nullptr.");
}

#[test]
fn generate_password_fills_buffer() {
    let mut buffer = [0u8; 12];
    let r = generate_password(Some(&mut buffer), 12, 42);
    assert!(r.success);
    assert_eq!(r.error_string, "");
    assert_eq!(buffer, [75, 62, 40, 78, 42, 55, 122, 38, 103, 55, 64, 65]);
}

#[test]
fn scale_draw_of_given_words() {
    assert_eq!(scale_draw(0, 0, 79), 0);
    assert_eq!(scale_draw(0x8000_0000, 0, 100), 50);
    assert_eq!(scale_draw(0x8000_0000, 10, 20), 15);
    assert_eq!(scale_draw(4294967167, 0, 100), 99);
}

#[test]
fn scale_draw_reaches_bound_near_max_word() {
    assert_eq!(scale_draw(4294967168, 0, 100), 100);
    assert_eq!(scale_draw(u32::MAX, 0, 79), 79);
    assert_eq!(scale_draw(u32::MAX, 0, 8), 8);
}

#[test]
fn short_password_below_category_count() {
    for length in 1..4usize {
        let mut buffer = vec![0u8; length];
        let r = generate_password(Some(&mut buffer), length, 9);
        assert!(r.success);
        assert_eq!(r.error_string, "");
        for &b in &buffer {
            assert!(category_of(b).is_some());
        }
    }
}
