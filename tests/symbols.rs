use passgen_embedded::get_symbol_by_offset;
use passgen_embedded::symbols::category_len;
use passgen_embedded::symbols::category_symbol;
use passgen_embedded::symbols::total_symbol_count;
use passgen_embedded::symbols::NUM_CATEGORIES;

#[test]
fn test_get_symbol_by_offset() {
    let indices: [usize; 4] = [7, 45, 22, 17];
    let result = indices.map(get_symbol_by_offset);
    assert_eq!(result, [57, 81, 114, 107]);
}

#[test]
fn flat_index_boundaries() {
    let table: [(usize, u8); 8] = [
        (0, b'2'),
        (7, b'9'),
        (8, b'a'),
        (30, b'z'),
        (31, b'A'),
        (54, b'Z'),
        (55, b'!'),
        (78, b'~'),
    ];
    for (index, symbol) in table {
        assert_eq!(get_symbol_by_offset(index), symbol);
    }
}

#[test]
fn total_symbol_count_is_sum_of_categories() {
    assert_eq!(total_symbol_count(), 79);
    let mut sum = 0;
    for k in 0..NUM_CATEGORIES {
        sum += category_len(k);
    }
    assert_eq!(sum, 79);
}

#[test]
fn categories_exclude_ambiguous_symbols() {
    for k in 0..NUM_CATEGORIES {
        for i in 0..category_len(k) {
            let b = category_symbol(k, i);
            assert!(b.is_ascii_graphic());
            assert!(!b"01ilo IO\"',.;\\`|".contains(&b));
        }
    }
    assert_eq!(category_symbol(0, 0), b'2');
    assert_eq!(category_symbol(3, 23), b'~');
}
