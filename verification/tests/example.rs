use arithmetic_coding::alphabet::Alphabet;
use arithmetic_coding::example::ExampleAlphabet;
use arithmetic_coding::example::ExampleSymbol::{A, B, C, Eof};

#[test]
fn test_symbols() {
    let alphabet = ExampleAlphabet::new();
    assert_eq!(*alphabet.symbols(), vec![A, B, C, Eof]);
}

#[test]
fn test_eof() {
    let alphabet = ExampleAlphabet::new();
    assert!(alphabet.eof() == Eof);
}

#[test]
fn test_lower_bound() {
    let alphabet = ExampleAlphabet::new();
    assert_eq!(alphabet.interval_lower_bound(&A), 0);
    assert_eq!(alphabet.interval_lower_bound(&B), 25);
    assert_eq!(alphabet.interval_lower_bound(&C), 75);
    assert_eq!(alphabet.interval_lower_bound(&Eof), 90);
}

#[test]
fn test_upper_bound() {
    let alphabet = ExampleAlphabet::new();
    assert_eq!(alphabet.interval_upper_bound(&A), 25);
    assert_eq!(alphabet.interval_upper_bound(&B), 75);
    assert_eq!(alphabet.interval_upper_bound(&C), 90);
    assert_eq!(alphabet.interval_upper_bound(&Eof), 100);
}

#[test]
fn test_total_width() {
    let alphabet = ExampleAlphabet::new();
    assert_eq!(alphabet.total_interval_width(), 100);
}
