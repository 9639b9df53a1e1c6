use arithmetic_coding::alphabet::Alphabet;
use arithmetic_coding::bit::Bit;
use arithmetic_coding::decoder::{Decoder, DecoderEvent};
use arithmetic_coding::encoder::{EncodeError, Encoder};
use arithmetic_coding::numeric::{NumAlphabet, NumSymbol};

const BITS_OF_PRECISION: usize = 32;

fn encode(alphabet: &NumAlphabet, input: Vec<NumSymbol>) -> Vec<Bit> {
    let mut output = alphabet.encode(input, BITS_OF_PRECISION);
    let mut bits = Vec::new();
    loop {
        match output.next_bit() {
            None => return bits,
            Some(Ok(bit)) => bits.push(bit),
            Some(Err(e @ EncodeError::UnterminatedStream)) => {
                panic!("Encoding failed: {:?}", e)
            }
        }
    }
}

struct Decoded {
    symbols: Vec<NumSymbol>,
    length: Option<usize>,
}

fn decode(alphabet: &NumAlphabet, bits: Vec<Bit>) -> Decoded {
    let mut output = alphabet.decode(bits, BITS_OF_PRECISION);
    let mut symbols = Vec::new();
    let mut length = None;
    while let Some(event) = output.next_event() {
        match event {
            DecoderEvent::DecodedSymbol(symbol) => symbols.push(symbol),
            DecoderEvent::MessageLength(message_length) => length = Some(message_length),
        };
    }
    Decoded { symbols, length }
}

#[test]
fn minimal_failure() {
    let alphabet = NumAlphabet::new(vec![47549061, 9539461]);
    let mut input: Vec<NumSymbol> = Vec::new();
    for _ in 0..13 {
        input.push(NumSymbol(1));
    }
    input.push(NumSymbol::eof());
    let expected_output = input.clone();

    let bits = encode(&alphabet, input);
    let decoded = decode(&alphabet, bits);

    assert_eq!(decoded.symbols, expected_output);
}

#[test]
fn round_trip_returns_input() {
    // Decoding an encoded stream of symbols yields the same stream.
    let alphabet = NumAlphabet::new(vec![7, 5, 2, 3]);
    let input = vec![
        NumSymbol(2),
        NumSymbol(1),
        NumSymbol(1),
        NumSymbol(3),
        NumSymbol(2),
        NumSymbol(1),
        NumSymbol::eof(),
    ];
    let expected_output = input.clone();

    let bits = encode(&alphabet, input);
    let decoded = decode(&alphabet, bits);

    assert_eq!(decoded.symbols, expected_output);
}

#[test]
fn decoder_reports_encoded_length() {
    // The "bits consumed" value reported by decode equals the number of
    // bits produced by the corresponding encode call.
    let alphabet = NumAlphabet::new(vec![7, 5, 2, 3]);
    let input = vec![
        NumSymbol(1),
        NumSymbol(3),
        NumSymbol(3),
        NumSymbol(2),
        NumSymbol::eof(),
    ];

    let bits = encode(&alphabet, input);
    let encoding_length = bits.len();
    let decoded = decode(&alphabet, bits);

    assert_eq!(decoded.length, Some(encoding_length));
}

#[test]
fn large_widths_round_trip() {
    // Widths near the precision constraint (total just under 2^30 for
    // 32-bit precision) still round-trip.
    let alphabet = NumAlphabet::new(vec![536870912, 536870911]);
    let input = vec![NumSymbol(1), NumSymbol(1), NumSymbol::eof()];
    let expected_output = input.clone();

    let bits = encode(&alphabet, input);
    let encoding_length = bits.len();
    let decoded = decode(&alphabet, bits);

    assert_eq!(decoded.symbols, expected_output);
    assert_eq!(decoded.length, Some(encoding_length));
}

#[test]
fn bounds_tile_the_total_width() {
    // The `[lowerBound, upperBound)` ranges, in enumeration order, tile
    // `[0, totalWidth)` with no gap or overlap.
    let alphabet = NumAlphabet::new(vec![3, 1, 4, 1, 5]);
    assert_eq!(alphabet.interval_lower_bound(&NumSymbol(0)), 0);
    let n = alphabet.symbols().len();
    for i in 0..n {
        let symbol = NumSymbol(i);
        let lower = alphabet.interval_lower_bound(&symbol);
        let upper = alphabet.interval_upper_bound(&symbol);
        assert!(lower < upper);
        if i + 1 < n {
            assert_eq!(upper, alphabet.interval_lower_bound(&NumSymbol(i + 1)));
        } else {
            assert_eq!(upper, alphabet.total_interval_width());
        }
    }
    assert_eq!(alphabet.total_interval_width(), 14);
}
