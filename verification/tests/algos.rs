use cache_algos::Algos;

#[test]
fn algos_are_named() {
    assert_eq!(format!("{:?}", Algos::Belady), "Belady");
    assert_eq!(format!("{:?}", Algos::FIFO), "FIFO");
    assert_eq!(format!("{:?}", Algos::SLRU), "SLRU");
    assert_eq!(format!("{:?}", Algos::TwoQ), "TwoQ");
}
