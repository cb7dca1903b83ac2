use tdm::id::gen_id;

#[test]
fn test_gen_id() {
    let mut previous: u64 = 0;
    for _ in 0..1000 {
        let current: u64 = gen_id();
        if previous == current {
            assert!(false);
        }
        previous = current;
    }
    assert!(true);
}
