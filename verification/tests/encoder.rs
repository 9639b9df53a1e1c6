use arithmetic_coding::bit::Bit;
use arithmetic_coding::bit::Bit::{One, Zero};
use arithmetic_coding::encoder::{EncodeError, Encoder};
use arithmetic_coding::example::{ExampleAlphabet, ExampleSymbol};
use arithmetic_coding::example::ExampleSymbol::{A, B, C, Eof};

// The below test cases assume 32-bit precision.
const BITS_OF_PRECISION: usize = 32;

/// Convenience function for encoding a vector of symbols using the example
/// alphabet definition, and collecting the output into a single Result.
fn encode(input: Vec<ExampleSymbol>) -> Result<Vec<Bit>, EncodeError> {
    let alphabet = ExampleAlphabet::new();
    let mut output = alphabet.encode(input, BITS_OF_PRECISION);
    let mut bits = Vec::new();
    loop {
        match output.next_bit() {
            None => return Ok(bits),
            Some(Ok(bit)) => bits.push(bit),
            Some(Err(e)) => return Err(e),
        }
    }
}

#[test]
fn encode_empty_message() {
    assert_eq!(encode(vec![Eof]), Ok(vec![One, One, One, Zero, One]));
}

#[test]
fn encode_very_small_message() {
    assert_eq!(
        encode(vec![C, Eof]),
        Ok(vec![One, One, One, Zero, Zero, One, Zero]),
    );
}

#[test]
fn encode_small_message() {
    assert_eq!(
        encode(vec![B, A, C, Eof]),
        Ok(vec![Zero, One, Zero, One, One, One, Zero, Zero, One, Zero]),
    )
}

#[test]
fn error_on_unterminated_stream() {
    assert_eq!(encode(vec![A, B, C]), Err(EncodeError::UnterminatedStream))
}

#[test]
fn error_repeats_after_unterminated_stream() {
    let alphabet = ExampleAlphabet::new();
    let mut output = alphabet.encode(vec![A], BITS_OF_PRECISION);
    // Bits produced before the point of failure are still emitted.
    let mut item = output.next_bit();
    while let Some(Ok(_)) = item {
        item = output.next_bit();
    }
    assert_eq!(item, Some(Err(EncodeError::UnterminatedStream)));
    assert_eq!(output.next_bit(), Some(Err(EncodeError::UnterminatedStream)));
}

#[test]
fn encode_symbols_after_terminator_are_ignored() {
    // The encoder reads one message: everything after the first EOF is not
    // consumed and does not change the output.
    assert_eq!(encode(vec![C, Eof, B, A]), encode(vec![C, Eof]));
}
