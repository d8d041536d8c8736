use sevend::generate_seed;

#[test]
fn it_works() {
    assert_eq!(2 + 2, 4);
}

#[test]
fn seed_is_the_seconds_where_they_fit() {
    assert_eq!(generate_seed(1_500_000_000, 17), 1_500_000_000usize);
    assert_eq!(generate_seed(0, 999), 0usize);
}
