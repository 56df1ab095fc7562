use tcg_loader::memory::page_count;

#[test]
fn page_count_of_zero_is_zero() {
    assert_eq!(page_count(0), 0);
}

#[test]
fn page_count_of_one_page_is_one() {
    assert_eq!(page_count(4096), 1);
}

#[test]
fn page_count_rounds_up() {
    assert_eq!(page_count(1), 1);
    assert_eq!(page_count(4095), 1);
    assert_eq!(page_count(4097), 2);
    assert_eq!(page_count(8192), 2);
    assert_eq!(page_count(8193), 3);
}

#[test]
fn page_count_matches_ceiling_over_a_range() {
    for b in 0usize..20000 {
        let expected = (b + 4095) / 4096;
        assert_eq!(page_count(b), expected);
    }
}
