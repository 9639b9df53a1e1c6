use arithmetic_coding::bit::Bit;
use arithmetic_coding::bit::Bit::{One, Zero};
use arithmetic_coding::decoder::{Decoder, DecoderEvent};
use arithmetic_coding::decoder::DecoderEvent::{DecodedSymbol, MessageLength};
use arithmetic_coding::example::{ExampleAlphabet, ExampleSymbol};
use arithmetic_coding::example::ExampleSymbol::{A, B, C, Eof};

// The below test cases assume 32-bit precision.
const BITS_OF_PRECISION: usize = 32;

fn decode(input: Vec<Bit>) -> Vec<DecoderEvent<ExampleSymbol>> {
    let alphabet = ExampleAlphabet::new();
    let mut output = alphabet.decode(input, BITS_OF_PRECISION);
    let mut events = Vec::new();
    while let Some(event) = output.next_event() {
        events.push(event);
    }
    events
}

#[test]
fn decode_empty_message() {
    assert_eq!(
        decode(vec![One, One, One, Zero, One]),
        vec![DecodedSymbol(Eof), MessageLength(5)],
    );
}

#[test]
fn decode_very_small_message() {
    assert_eq!(
        decode(vec![One, One, One, Zero, Zero, One, Zero]),
        vec![DecodedSymbol(C), DecodedSymbol(Eof), MessageLength(7)],
    );
}

#[test]
fn decode_small_message() {
    assert_eq!(
        decode(vec![Zero, One, Zero, One, One, One, Zero, Zero, One, Zero]),
        vec![
            DecodedSymbol(B),
            DecodedSymbol(A),
            DecodedSymbol(C),
            DecodedSymbol(Eof),
            MessageLength(10),
        ],
    );
}

#[test]
fn decode_message_with_middle_rescaling() {
    assert_eq!(
        decode(vec![One, Zero, Zero, One, One, One]),
        vec![
            DecodedSymbol(B),
            DecodedSymbol(B),
            DecodedSymbol(Eof),
            MessageLength(6),
        ],
    );
}

#[test]
fn decodes_single_message() {
    // Even if the input stream contains multiple messages (terminated by
    // EOF), a call to decode decodes only the first one.
    assert_eq!(
        decode(vec![
            // First message: C, Eof
            One, One, One, Zero, Zero, One, Zero,
            // Second message: B, A, C, Eof
            Zero, One, Zero, One, One, One, Zero, Zero, One, Zero,
        ]),
        vec![DecodedSymbol(C), DecodedSymbol(Eof), MessageLength(7)],
    )
}

#[test]
fn decode_exhausted_after_message_length() {
    let alphabet = ExampleAlphabet::new();
    let mut output = alphabet.decode(vec![One, One, One, Zero, One], BITS_OF_PRECISION);
    assert_eq!(output.next_event(), Some(DecodedSymbol(Eof)));
    assert_eq!(output.next_event(), Some(MessageLength(5)));
    assert_eq!(output.next_event(), None);
    assert_eq!(output.next_event(), None);
}
