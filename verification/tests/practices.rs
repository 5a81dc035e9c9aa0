use my_zoo::panic_result_example;

#[test]
fn panic_result_example_works() {
    assert!(panic_result_example(1).is_err());
    assert!(panic_result_example(2).is_ok());
}

#[test]
fn larger_numbers_succeed() {
    assert_eq!(panic_result_example(3), Ok(()));
    assert_eq!(panic_result_example(usize::MAX), Ok(()));
    assert_eq!(panic_result_example(1), Err(()));
}
