use crate::alphabet::{
    lemma_symbol_index, lemma_symbol_index_in_range, lemma_width_sum_bounds, lower_bound_at,
    symbol_index, total_width, upper_bound_at, wf_alphabet, Alphabet, Symbol,
};
use crate::bit::Bit;
use crate::encoder::{lemma_whole_parts, narrow_high, narrow_low};
use vstd::arithmetic::div_mod::{
    lemma_div_is_ordered, lemma_div_multiples_vanish, lemma_div_pos_is_pos,
    lemma_fundamental_div_mod, lemma_mod_bound, lemma_multiply_divide_lt,
};
use vstd::arithmetic::power2::{lemma_pow2_adds, lemma_pow2_pos, pow2};
use vstd::prelude::*;

verus! {

/// The phases of the decoder state machine, in the order they are visited.
#[derive(Copy, Clone, PartialEq, Eq, Structural, Debug)]
pub enum DecoderState {
    Initial,
    TopOfSymbolLoop,
    Rescaling,
    CalculateLength,
    Final,
}

/// What the decoder hands to its caller, one item per pull.
#[derive(Copy, Clone, PartialEq, Eq, Debug)]
pub enum DecoderEvent<S: Symbol> {
    /// A symbol was decoded from the input stream.
    DecodedSymbol(S),
    /// Decoding of a single message is complete. The count reports how many
    /// bits of the input correspond to the decoded message.
    MessageLength(usize),
}

/// The mathematical state of the decoder machine: the alphabet as a width
/// table, the input bit sequence with a read cursor, the working interval
/// and the position accumulator `z`.
#[verifier::ext_equal]
pub ghost struct DecoderModel {
    /// Interval widths in enumeration order.
    pub widths: Seq<int>,
    /// Index of the terminator symbol.
    pub eof_index: int,
    /// The input bit sequence.
    pub input: Seq<Bit>,
    /// How many input bits have been consumed.
    pub cursor: int,
    pub state: DecoderState,
    /// Lower end of the working interval.
    pub a: int,
    /// Upper end of the working interval (exclusive).
    pub b: int,
    /// The position accumulator: a fixed-width window into the bit stream.
    pub z: int,
    /// How many bits rescaling has folded into `z` (saturating).
    pub counter: int,
    /// The precision parameter `P`; the working range is `[0, 2^P)`.
    pub precision: nat,
}

impl DecoderModel {
    pub open spec fn whole(&self) -> int {
        pow2(self.precision) as int
    }

    pub open spec fn half(&self) -> int {
        self.whole() / 2
    }

    pub open spec fn quarter(&self) -> int {
        self.whole() / 4
    }
}

/// The machine invariant: a well-formed width table, the cursor within the
/// input, and `0 <= a <= z < b <= 2^P` once running — the position
/// accumulator always lies inside the working interval.
pub open spec fn dec_inv(m: DecoderModel) -> bool {
    &&& m.widths.len() > 0
    &&& forall|i: int| 0 <= i < m.widths.len() ==> #[trigger] m.widths[i] >= 1
    &&& 0 <= m.eof_index < m.widths.len()
    &&& m.precision >= 2
    &&& 0 <= m.cursor <= m.input.len()
    &&& 0 <= m.counter <= usize::MAX
    &&& (m.state != DecoderState::Initial ==> 0 <= m.a && m.a <= m.z && m.z < m.b && m.b
        <= m.whole())
    &&& (m.state == DecoderState::Initial ==> m.cursor == 0 && m.counter == 0)
}

/// An increment that sticks at the largest representable count.
pub open spec fn sat_inc(c: int) -> int {
    if c < usize::MAX {
        c + 1
    } else {
        c
    }
}

/// A sum that sticks at the largest representable count.
pub open spec fn sat_add(x: int, y: int) -> int {
    if x + y <= usize::MAX {
        x + y
    } else {
        usize::MAX as int
    }
}

/// The value `z` takes from input bits `i` onward: bit `i` (0-based)
/// contributes `2^(P-1-i)` when it is one, and bits past the end of the
/// input or past the precision contribute nothing (implicit zero padding).
pub open spec fn z_init_from(input: Seq<Bit>, precision: nat, i: int) -> int
    decreases precision - i,
{
    if i < 0 || i >= precision || i >= input.len() {
        0
    } else {
        (if input[i] == Bit::One {
            pow2((precision - 1 - i) as nat) as int
        } else {
            0
        }) + z_init_from(input, precision, i + 1)
    }
}

/// How many bits initialization consumes: up to `P`, fewer if the input is
/// shorter.
pub open spec fn z_init_cursor(input: Seq<Bit>, precision: nat) -> int {
    if input.len() < precision {
        input.len() as int
    } else {
        precision as int
    }
}

/// The partial sums of `z` initialization stay under `2^(P-i)`.
pub proof fn lemma_z_init_bound(input: Seq<Bit>, precision: nat, i: int)
    requires
        0 <= i <= precision,
    ensures
        0 <= z_init_from(input, precision, i),
        z_init_from(input, precision, i) <= pow2((precision - i) as nat) - 1,
    decreases precision - i,
{
    lemma_pow2_pos((precision - i) as nat);
    if i < precision && i < input.len() {
        lemma_z_init_bound(input, precision, i + 1);
        lemma_pow2_adds(1, (precision - 1 - i) as nat);
        lemma_pow2_pos((precision - 1 - i) as nat);
        assert(pow2(1) == 2) by {
            vstd::arithmetic::power2::lemma2_to64();
        }
    }
}

pub open spec fn dec_step_initial(m: DecoderModel) -> DecoderModel {
    DecoderModel {
        state: DecoderState::TopOfSymbolLoop,
        a: 0,
        b: m.whole(),
        z: z_init_from(m.input, m.precision, 0),
        cursor: z_init_cursor(m.input, m.precision),
        ..m
    }
}

/// The lower end of the sub-range the decoder computes for the symbol at
/// index `j`, by the same floor-division rule as the encoder.
pub open spec fn dec_sub_low(m: DecoderModel, j: int) -> int {
    narrow_low(m.a, m.b, lower_bound_at(m.widths, j), total_width(m.widths))
}

/// The upper end of that sub-range.
pub open spec fn dec_sub_high(m: DecoderModel, j: int) -> int {
    narrow_high(m.a, m.b, upper_bound_at(m.widths, j), total_width(m.widths))
}

/// The first symbol index from `j` onward whose sub-range contains `z`
/// (`widths.len()` if none does, which cannot happen while `z` is inside
/// the working interval).
pub open spec fn dec_select_from(m: DecoderModel, j: int) -> int
    decreases m.widths.len() - j,
{
    if j < 0 || j >= m.widths.len() {
        m.widths.len() as int
    } else if dec_sub_low(m, j) <= m.z && m.z < dec_sub_high(m, j) {
        j
    } else {
        dec_select_from(m, j + 1)
    }
}

/// The symbol the decoder emits from configuration `m`: the first symbol, in
/// enumeration order, whose sub-range contains `z`.
pub open spec fn dec_select(m: DecoderModel) -> int {
    dec_select_from(m, 0)
}

pub open spec fn dec_step_select(m: DecoderModel) -> DecoderModel {
    let j = dec_select(m);
    DecoderModel {
        a: dec_sub_low(m, j),
        b: dec_sub_high(m, j),
        state: if j == m.eof_index {
            DecoderState::CalculateLength
        } else {
            DecoderState::Rescaling
        },
        ..m
    }
}

/// The next input bit folded into `z` during rescaling: a real bit while any
/// are left, an implicit zero afterwards.
pub open spec fn dec_next_bit(m: DecoderModel) -> int {
    if m.cursor < m.input.len() && m.input[m.cursor] == Bit::One {
        1
    } else {
        0
    }
}

pub open spec fn dec_advance_cursor(m: DecoderModel) -> int {
    if m.cursor < m.input.len() {
        m.cursor + 1
    } else {
        m.cursor
    }
}

pub open spec fn dec_step_side_lo(m: DecoderModel) -> DecoderModel {
    DecoderModel {
        a: 2 * m.a,
        b: 2 * m.b,
        z: 2 * m.z + dec_next_bit(m),
        cursor: dec_advance_cursor(m),
        counter: sat_inc(m.counter),
        ..m
    }
}

pub open spec fn dec_step_side_hi(m: DecoderModel) -> DecoderModel {
    DecoderModel {
        a: 2 * (m.a - m.half()),
        b: 2 * (m.b - m.half()),
        z: 2 * (m.z - m.half()) + dec_next_bit(m),
        cursor: dec_advance_cursor(m),
        counter: sat_inc(m.counter),
        ..m
    }
}

pub open spec fn dec_step_middle(m: DecoderModel) -> DecoderModel {
    DecoderModel {
        a: 2 * (m.a - m.quarter()),
        b: 2 * (m.b - m.quarter()),
        z: 2 * (m.z - m.quarter()) + dec_next_bit(m),
        cursor: dec_advance_cursor(m),
        counter: sat_inc(m.counter),
        ..m
    }
}

pub open spec fn dec_step_exit_rescale(m: DecoderModel) -> DecoderModel {
    DecoderModel { state: DecoderState::TopOfSymbolLoop, ..m }
}

/// Whether the `k` most significant bits of `z` pin `z` down to a range that
/// lies inside `[a, b)`: the range of all `P`-bit values sharing those `k`
/// leading bits is `[floor(z / 2^(P-k)) * 2^(P-k), ... + 2^(P-k) - 1]`.
pub open spec fn prefix_contained(z: int, a: int, b: int, precision: nat, k: int) -> bool {
    let block = pow2((precision - k) as nat) as int;
    &&& (z / block) * block >= a
    &&& (z / block) * block + block - 1 < b
}

pub open spec fn min_prefix_from(z: int, a: int, b: int, precision: nat, k: int) -> int
    decreases precision - k,
{
    if k < 1 || k >= precision {
        precision as int
    } else if prefix_contained(z, a, b, precision, k) {
        k
    } else {
        min_prefix_from(z, a, b, precision, k + 1)
    }
}

/// The minimal prefix length of `z`: the smallest number of most-significant
/// bits of `z` whose shared-prefix range lies inside `[a, b)`.
pub open spec fn min_prefix(z: int, a: int, b: int, precision: nat) -> int {
    min_prefix_from(z, a, b, precision, 1)
}

/// With `a <= z < b`, the full-precision prefix (all `P` bits) is
/// contained: its range is the single value `z` itself.
pub proof fn lemma_prefix_contained_full(z: int, a: int, b: int, precision: nat)
    requires
        precision >= 1,
        a <= z,
        z < b,
    ensures
        prefix_contained(z, a, b, precision, precision as int),
{
    assert(pow2(0) == 1) by {
        vstd::arithmetic::power2::lemma2_to64();
    }
    assert(1 * z == z) by (nonlinear_arith);
    assert((z * 1) / 1 == z) by {
        lemma_div_multiples_vanish(z, 1);
    }
    assert(z * 1 == z) by (nonlinear_arith);
}

/// `min_prefix` scanned from `k` lands between `k` and `P`, on a contained
/// prefix, and skips only prefixes that are not contained.
pub proof fn lemma_min_prefix_from_props(z: int, a: int, b: int, precision: nat, k: int)
    requires
        1 <= k <= precision,
        a <= z,
        z < b,
    ensures
        k <= min_prefix_from(z, a, b, precision, k) <= precision,
        prefix_contained(z, a, b, precision, min_prefix_from(z, a, b, precision, k)),
        forall|i: int|
            k <= i < min_prefix_from(z, a, b, precision, k) ==> !prefix_contained(
                z,
                a,
                b,
                precision,
                i,
            ),
    decreases precision - k,
{
    if k >= precision {
        lemma_prefix_contained_full(z, a, b, precision);
    } else if prefix_contained(z, a, b, precision, k) {
    } else {
        lemma_min_prefix_from_props(z, a, b, precision, k + 1);
    }
}

/// Law: the minimal prefix length is the smallest count of leading bits of
/// `z` whose shared-prefix range lies inside `[a, b)`; it always exists,
/// because the full-precision prefix is `z` itself.
pub proof fn lemma_min_prefix_props(z: int, a: int, b: int, precision: nat)
    requires
        precision >= 1,
        a <= z,
        z < b,
    ensures
        1 <= min_prefix(z, a, b, precision) <= precision,
        prefix_contained(z, a, b, precision, min_prefix(z, a, b, precision)),
        forall|k: int|
            1 <= k < min_prefix(z, a, b, precision) ==> !prefix_contained(z, a, b, precision, k),
{
    lemma_min_prefix_from_props(z, a, b, precision, 1);
}

/// Scanning from `i`, the first contained sub-range is at `j` when none of
/// the sub-ranges before `j` contain `z` and `j`'s does.
pub proof fn lemma_dec_select_from_found(m: DecoderModel, i: int, j: int)
    requires
        0 <= i <= j < m.widths.len(),
        forall|t: int|
            i <= t < j ==> !(#[trigger] dec_sub_low(m, t) <= m.z && m.z < dec_sub_high(m, t)),
        dec_sub_low(m, j) <= m.z && m.z < dec_sub_high(m, j),
    ensures
        dec_select_from(m, i) == j,
    decreases j - i,
{
    if i < j {
        lemma_dec_select_from_found(m, i + 1, j);
    }
}

/// A rank for the decoder states; every transition that does not emit an
/// event lowers this rank or grows the working interval.
pub open spec fn dec_rank(state: DecoderState) -> int {
    match state {
        DecoderState::Initial => 2,
        DecoderState::Rescaling => 1,
        DecoderState::TopOfSymbolLoop => 0,
        DecoderState::CalculateLength => 0,
        DecoderState::Final => 0,
    }
}

/// One observable step of the decoder: the configuration after it, and the
/// event it emits (`None` only once decoding has finished). This is the
/// decoding algorithm itself: initialize `z` from up to `P` input bits,
/// emit the symbol whose sub-range contains `z`, rescale exactly as the
/// encoder does while folding one more input bit into `z` per step, and
/// after the terminator report the minimal prefix length of `z` plus the
/// rescale-bit count.
pub open spec fn dec_next<S: Symbol>(symbols: Seq<S>, m: DecoderModel) -> (
    DecoderModel,
    Option<DecoderEvent<S>>,
)
    decreases dec_rank(m.state), m.whole() + 1 - (m.b - m.a),
        when dec_inv(m)
{
    match m.state {
        DecoderState::Initial => {
            proof {
                lemma_whole_parts(m.precision);
            }
            dec_next(symbols, dec_step_initial(m))
        },
        DecoderState::TopOfSymbolLoop => {
            let j = dec_select(m);
            (dec_step_select(m), Some(DecoderEvent::DecodedSymbol(symbols[j])))
        },
        DecoderState::Rescaling => {
            if m.b < m.half() {
                proof {
                    lemma_whole_parts(m.precision);
                }
                dec_next(symbols, dec_step_side_lo(m))
            } else if m.a > m.half() {
                proof {
                    lemma_whole_parts(m.precision);
                }
                dec_next(symbols, dec_step_side_hi(m))
            } else if m.a > m.quarter() && m.b < 3 * m.quarter() {
                proof {
                    lemma_whole_parts(m.precision);
                }
                dec_next(symbols, dec_step_middle(m))
            } else {
                dec_next(symbols, dec_step_exit_rescale(m))
            }
        },
        DecoderState::CalculateLength => {
            (
                DecoderModel { state: DecoderState::Final, ..m },
                Some(
                    DecoderEvent::MessageLength(
                        sat_add(min_prefix(m.z, m.a, m.b, m.precision), m.counter) as usize,
                    ),
                ),
            )
        },
        DecoderState::Final => (m, None),
    }
}

/// The machine configuration at the start of a decoding run.
pub open spec fn dec_init(
    widths: Seq<int>,
    eof_index: int,
    input: Seq<Bit>,
    precision: nat,
) -> DecoderModel {
    DecoderModel {
        widths,
        eof_index,
        input,
        cursor: 0,
        state: DecoderState::Initial,
        a: 0,
        b: 0,
        z: 0,
        counter: 0,
        precision,
    }
}

/// Initialization establishes the machine invariant with `z` inside the
/// full working range.
pub proof fn lemma_dec_initial_step(m: DecoderModel)
    requires
        dec_inv(m),
        m.state == DecoderState::Initial,
    ensures
        dec_inv(dec_step_initial(m)),
{
    lemma_whole_parts(m.precision);
    lemma_z_init_bound(m.input, m.precision, 0);
}

/// Each rescaling step keeps `a <= z < b` inside `[0, 2^P)`, advances the
/// cursor by at most one, and doubles the interval width.
pub proof fn lemma_dec_rescale_steps(m: DecoderModel)
    requires
        dec_inv(m),
        m.state == DecoderState::Rescaling,
    ensures
        m.b < m.half() ==> dec_inv(dec_step_side_lo(m)) && dec_step_side_lo(m).b
            - dec_step_side_lo(m).a == 2 * (m.b - m.a),
        !(m.b < m.half()) && m.a > m.half() ==> dec_inv(dec_step_side_hi(m)) && dec_step_side_hi(
            m,
        ).b - dec_step_side_hi(m).a == 2 * (m.b - m.a),
        !(m.b < m.half()) && !(m.a > m.half()) && m.a > m.quarter() && m.b < 3 * m.quarter()
            ==> dec_inv(dec_step_middle(m)) && dec_step_middle(m).b - dec_step_middle(m).a == 2 * (
        m.b - m.a),
        dec_inv(dec_step_exit_rescale(m)),
{
    lemma_whole_parts(m.precision);
}

/// The symbol search is total: scanning from an index whose lower bound is
/// at most `z` finds a sub-range containing `z`, because consecutive
/// sub-ranges share their boundary and the last one ends exactly at `b`.
pub proof fn lemma_dec_select_from(m: DecoderModel, j: int)
    requires
        dec_inv(m),
        m.state != DecoderState::Initial,
        0 <= j < m.widths.len(),
        dec_sub_low(m, j) <= m.z,
    ensures
        j <= dec_select_from(m, j) < m.widths.len(),
        dec_sub_low(m, dec_select_from(m, j)) <= m.z,
        m.z < dec_sub_high(m, dec_select_from(m, j)),
    decreases m.widths.len() - j,
{
    let w = m.b - m.a;
    let total = total_width(m.widths);
    lemma_width_sum_bounds(m.widths, 0, m.widths.len() as int);
    if dec_sub_low(m, j) <= m.z && m.z < dec_sub_high(m, j) {
    } else {
        // Not contained and `z >= dec_sub_low(m, j)` force `z` past the
        // shared boundary `dec_sub_high(m, j) == dec_sub_low(m, j + 1)`.
        assert(dec_sub_high(m, j) == dec_sub_low(m, j + 1));
        if j + 1 == m.widths.len() {
            // The last upper bound is b itself: (w * R) / R == w.
            assert(upper_bound_at(m.widths, j) == total);
            assert(w * total == total * w) by (nonlinear_arith);
            assert((w * total) / total == w) by {
                lemma_div_multiples_vanish(w, total);
            }
            assert(dec_sub_high(m, j) == m.b);
            assert(false);
        } else {
            lemma_dec_select_from(m, j + 1);
        }
    }
}

/// The decoded symbol's sub-range contains `z` and the selection step
/// preserves the machine invariant: decoding never fails.
pub proof fn lemma_dec_select_step(m: DecoderModel)
    requires
        dec_inv(m),
        m.state == DecoderState::TopOfSymbolLoop,
    ensures
        dec_sub_low(m, 0) == m.a,
        0 <= dec_select(m) < m.widths.len(),
        dec_sub_low(m, dec_select(m)) <= m.z,
        m.z < dec_sub_high(m, dec_select(m)),
        dec_inv(dec_step_select(m)),
    decreases m.widths.len(),
{
    let total = total_width(m.widths);
    let w = m.b - m.a;
    lemma_width_sum_bounds(m.widths, 0, m.widths.len() as int);
    // The first lower bound is `a` itself.
    assert(lower_bound_at(m.widths, 0) == 0);
    assert(w * 0 == 0) by (nonlinear_arith);
    assert((0int) / total == 0) by {
        vstd::arithmetic::div_mod::lemma_div_of0(total);
    }
    assert(dec_sub_low(m, 0) == m.a);
    lemma_dec_select_from(m, 0);
    let j = dec_select(m);
    // The selected sub-range lies inside [a, b): its bounds are monotone.
    lemma_width_sum_bounds(m.widths, 0, j);
    assert(w * lower_bound_at(m.widths, j) >= 0) by (nonlinear_arith)
        requires
            w >= 0,
            lower_bound_at(m.widths, j) >= 0,
    ;
    lemma_div_pos_is_pos(w * lower_bound_at(m.widths, j), total);
    let d = upper_bound_at(m.widths, j);
    lemma_width_sum_bounds(m.widths, j + 1, m.widths.len() as int);
    assert(w * d <= w * total) by (nonlinear_arith)
        requires
            w >= 0,
            d <= total,
    ;
    lemma_div_is_ordered(w * d, w * total, total);
    assert(w * total == total * w) by (nonlinear_arith);
    assert((w * total) / total == w) by {
        lemma_div_multiples_vanish(w, total);
    }
}

/// Law: decoding has no error path and always makes progress. From any
/// configuration satisfying the machine invariant, the invariant is
/// preserved, a configuration that is not final yields an event on the next
/// pull, and a final one yields none and stays put — every bit sequence
/// decodes to some symbol sequence.
pub proof fn lemma_dec_next_total<S: Symbol>(symbols: Seq<S>, m: DecoderModel)
    requires
        dec_inv(m),
    ensures
        dec_inv(dec_next(symbols, m).0),
        m.state != DecoderState::Final ==> dec_next(symbols, m).1 is Some,
        m.state == DecoderState::Final ==> dec_next(symbols, m) == (m, None::<DecoderEvent<S>>),
    decreases dec_rank(m.state), m.whole() + 1 - (m.b - m.a),
{
    match m.state {
        DecoderState::Initial => {
            lemma_dec_initial_step(m);
            lemma_whole_parts(m.precision);
            lemma_dec_next_total(symbols, dec_step_initial(m));
        },
        DecoderState::TopOfSymbolLoop => {
            lemma_dec_select_step(m);
        },
        DecoderState::Rescaling => {
            lemma_dec_rescale_steps(m);
            lemma_whole_parts(m.precision);
            if m.b < m.half() {
                lemma_dec_next_total(symbols, dec_step_side_lo(m));
            } else if m.a > m.half() {
                lemma_dec_next_total(symbols, dec_step_side_hi(m));
            } else if m.a > m.quarter() && m.b < 3 * m.quarter() {
                lemma_dec_next_total(symbols, dec_step_middle(m));
            } else {
                lemma_dec_next_total(symbols, dec_step_exit_rescale(m));
            }
        },
        DecoderState::CalculateLength => {},
        DecoderState::Final => {},
    }
}

/// Law (single message, tail part): once the terminator has been decoded,
/// the rest of the input is ignored. The reported message length is computed
/// from the interval state alone — two configurations that differ only in
/// their input bits and cursor report the same length — and after it no
/// further event comes.
pub proof fn lemma_decode_ignores_remainder<S: Symbol>(
    symbols: Seq<S>,
    m1: DecoderModel,
    m2: DecoderModel,
)
    requires
        dec_inv(m1),
        dec_inv(m2),
        m1.state == DecoderState::CalculateLength,
        m2 == (DecoderModel { input: m2.input, cursor: m2.cursor, ..m1 }),
    ensures
        dec_next(symbols, m1).1 == dec_next(symbols, m2).1,
        dec_next(symbols, m1).1 is Some,
        dec_next(symbols, dec_next(symbols, m1).0).1 is None,
{
}

/// The incremental decoder: pulled one event at a time via
/// [`Self::next_event`], it advances the state machine just far enough to
/// produce each event. Decoding never fails: every bit sequence decodes to
/// some symbol sequence.
pub struct DecoderOutput<'a, A: Alphabet> {
    input: Vec<Bit>,
    cursor: usize,
    alphabet: &'a A,
    state: DecoderState,
    event_to_emit: Option<DecoderEvent<A::S>>,
    a: usize,
    b: usize,
    z: usize,
    z_rescale_counter: usize,
    precision: usize,
    whole: usize,
    half: usize,
    quarter: usize,
}

impl<'a, A: Alphabet> DecoderOutput<'a, A> {
    /// The alphabet this decoder reads bounds from.
    pub closed spec fn spec_alphabet(&self) -> A {
        *self.alphabet
    }

    /// The input bit sequence.
    pub closed spec fn spec_input(&self) -> Seq<Bit> {
        self.input@
    }

    /// The precision parameter.
    pub closed spec fn spec_precision(&self) -> nat {
        self.precision as nat
    }

    /// The fixed configuration of this run.
    pub open spec fn setup(&self) -> (A, Seq<Bit>, nat) {
        (self.spec_alphabet(), self.spec_input(), self.spec_precision())
    }

    /// The machine configuration this decoder is in.
    pub closed spec fn model(&self) -> DecoderModel {
        DecoderModel {
            widths: self.alphabet.spec_widths(),
            eof_index: symbol_index(self.alphabet.spec_symbols(), self.alphabet.spec_eof()),
            input: self.input@,
            cursor: self.cursor as int,
            state: self.state,
            a: self.a as int,
            b: self.b as int,
            z: self.z as int,
            counter: self.z_rescale_counter as int,
            precision: self.precision as nat,
        }
    }

    /// Representation invariant, except that no event is pending.
    pub closed spec fn wf_core(&self) -> bool {
        &&& wf_alphabet(self.alphabet)
        &&& dec_inv(self.model())
        &&& self.whole as int == pow2(self.precision as nat)
        &&& self.half as int == self.whole as int / 2
        &&& self.quarter as int == self.whole as int / 4
        &&& pow2(self.precision as nat) * total_width(self.alphabet.spec_widths()) <= usize::MAX
    }

    /// Full struct invariant: between pulls, no event is pending.
    pub closed spec fn wf(&self) -> bool {
        &&& self.wf_core()
        &&& self.event_to_emit is None
    }

    /// Construct a new decoder from a stream of bits, an alphabet and a
    /// precision.
    fn new(input: Vec<Bit>, alphabet: &'a A, precision: usize) -> (r: Self)
        requires
            wf_alphabet(alphabet),
            2 <= precision,
            pow2(precision as nat) * total_width(alphabet.spec_widths()) <= usize::MAX,
        ensures
            r.wf(),
            r.model() == dec_init(
                alphabet.spec_widths(),
                symbol_index(alphabet.spec_symbols(), alphabet.spec_eof()),
                input@,
                precision as nat,
            ),
            r.spec_alphabet() == *alphabet,
            r.spec_input() == input@,
            r.spec_precision() == precision as nat,
    {
        proof {
            lemma_width_sum_bounds(alphabet.spec_widths(), 0, alphabet.spec_widths().len() as int);
            lemma_pow2_pos(precision as nat);
            assert(pow2(precision as nat) * 1 <= pow2(precision as nat) * total_width(
                alphabet.spec_widths(),
            )) by (nonlinear_arith)
                requires
                    total_width(alphabet.spec_widths()) >= 1,
                    pow2(precision as nat) >= 0,
            ;
            lemma_symbol_index_in_range(alphabet.spec_symbols(), alphabet.spec_eof());
        }
        let whole = crate::encoder::pow2_exec(precision);
        let r = DecoderOutput {
            input,
            cursor: 0,
            alphabet,
            state: DecoderState::Initial,
            event_to_emit: None,
            a: 0,
            b: 0,
            z: 0,
            z_rescale_counter: 0,
            precision,
            whole,
            half: whole / 2,
            quarter: whole / 4,
        };
        proof {
            assert(r.model() =~= dec_init(
                alphabet.spec_widths(),
                symbol_index(alphabet.spec_symbols(), alphabet.spec_eof()),
                r.spec_input(),
                precision as nat,
            ));
        }
        r
    }

    /// Set `z` to its initial value by reading up to `P` bits from the input
    /// and adding them at their positions; a shorter input leaves the low
    /// bits implicitly zero.
    fn initialize_z(&mut self)
        requires
            old(self).cursor == 0,
            old(self).precision >= 2,
            old(self).whole as int == pow2(old(self).precision as nat),
            old(self).half as int == old(self).whole as int / 2,
        ensures
            final(self).z as int == z_init_from(
                old(self).input@,
                old(self).precision as nat,
                0,
            ),
            final(self).cursor as int == z_init_cursor(
                old(self).input@,
                old(self).precision as nat,
            ),
            final(self).input == old(self).input,
            final(self).alphabet == old(self).alphabet,
            final(self).state == old(self).state,
            final(self).event_to_emit == old(self).event_to_emit,
            final(self).a == old(self).a,
            final(self).b == old(self).b,
            final(self).z_rescale_counter == old(self).z_rescale_counter,
            final(self).precision == old(self).precision,
            final(self).whole == old(self).whole,
            final(self).half == old(self).half,
            final(self).quarter == old(self).quarter,
    {
        let ghost inp = self.input@;
        let ghost p = self.precision as nat;
        self.z = 0;
        let mut i: usize = 0;
        let mut place: usize = self.half;
        proof {
            lemma_whole_parts(p);
            lemma_z_init_bound(inp, p, 0);
        }
        while i < self.precision && i < self.input.len()
            invariant
                inp == self.input@,
                p == self.precision as nat,
                self.precision >= 2,
                i <= self.precision,
                i as int <= z_init_cursor(inp, p),
                self.whole as int == pow2(p),
                self.z as int + z_init_from(inp, p, i as int) == z_init_from(inp, p, 0),
                z_init_from(inp, p, 0) <= pow2(p) - 1,
                i < self.precision ==> place as int == pow2((p - 1 - i) as nat),
                self.input == old(self).input,
                self.alphabet == old(self).alphabet,
                self.state == old(self).state,
                self.event_to_emit == old(self).event_to_emit,
                self.a == old(self).a,
                self.b == old(self).b,
                self.z_rescale_counter == old(self).z_rescale_counter,
                self.precision == old(self).precision,
                self.whole == old(self).whole,
                self.half == old(self).half,
                self.quarter == old(self).quarter,
            decreases self.precision - i,
        {
            proof {
                lemma_z_init_bound(inp, p, i as int);
                lemma_z_init_bound(inp, p, i + 1);
                assert(z_init_from(inp, p, i as int) == (if inp[i as int] == Bit::One {
                    pow2((p - 1 - i as nat) as nat) as int
                } else {
                    0int
                }) + z_init_from(inp, p, i + 1));
            }
            if self.input[i] == Bit::One {
                self.z = self.z + place;
            }
            proof {
                if i + 1 < self.precision {
                    lemma_pow2_adds(1, (p - 2 - i) as nat);
                    assert(pow2(1) == 2) by {
                        vstd::arithmetic::power2::lemma2_to64();
                    }
                    assert(pow2((p - 1 - i) as nat) as int / 2 == pow2((p - 2 - i) as nat) as int)
                        by {
                        lemma_div_multiples_vanish(pow2((p - 2 - i) as nat) as int, 2);
                    }
                }
            }
            place = place / 2;
            i = i + 1;
        }
        proof {
            assert(z_init_from(inp, p, i as int) == 0);
        }
        self.cursor = i;
    }

    fn execute_initial(&mut self)
        requires
            old(self).wf(),
            old(self).model().state == DecoderState::Initial,
        ensures
            final(self).wf(),
            final(self).setup() == old(self).setup(),
            final(self).model() == dec_step_initial(old(self).model()),
    {
        let ghost m0 = self.model();
        self.a = 0;
        self.b = self.whole;
        self.initialize_z();
        self.state = DecoderState::TopOfSymbolLoop;
        proof {
            lemma_dec_initial_step(m0);
            assert(self.model() =~= dec_step_initial(m0));
        }
    }

    /// Determine the lower and upper bounds for the sub-range corresponding
    /// to the given symbol, by the same floor-division rule as the encoder.
    fn subinterval_for_symbol(&self, symbol: &A::S) -> (r: (usize, usize))
        requires
            wf_alphabet(self.alphabet),
            self.alphabet.spec_symbols().contains(*symbol),
            self.precision >= 2,
            self.whole as int == pow2(self.precision as nat),
            pow2(self.precision as nat) * total_width(self.alphabet.spec_widths()) <= usize::MAX,
            self.a < self.b,
            self.b <= self.whole,
        ensures
            ({
                let widths = self.alphabet.spec_widths();
                let j = symbol_index(self.alphabet.spec_symbols(), *symbol);
                let total = total_width(widths);
                &&& r.0 as int == narrow_low(
                    self.a as int,
                    self.b as int,
                    lower_bound_at(widths, j),
                    total,
                )
                &&& r.1 as int == narrow_high(
                    self.a as int,
                    self.b as int,
                    upper_bound_at(widths, j),
                    total,
                )
            }),
            self.a <= r.0,
            r.1 <= self.b,
    {
        proof {
            let widths = self.alphabet.spec_widths();
            let syms = self.alphabet.spec_symbols();
            lemma_symbol_index_in_range(syms, *symbol);
            let j = symbol_index(syms, *symbol);
            lemma_width_sum_bounds(widths, 0, j);
            lemma_width_sum_bounds(widths, j + 1, widths.len() as int);
            lemma_width_sum_bounds(widths, 0, widths.len() as int);
            lemma_pow2_pos(self.precision as nat);
            assert(1 * total_width(widths) <= pow2(self.precision as nat) * total_width(widths))
                by (nonlinear_arith)
                requires
                    total_width(widths) >= 0,
                    pow2(self.precision as nat) >= 1,
            ;
        }
        let total = self.alphabet.total_interval_width();
        let upper = self.alphabet.interval_upper_bound(symbol);
        let lower = self.alphabet.interval_lower_bound(symbol);
        let w = self.b - self.a;
        proof {
            assert(w as int * upper as int <= self.whole as int * total as int) by (
            nonlinear_arith)
                requires
                    0 <= w as int <= self.whole as int,
                    0 <= upper as int <= total as int,
            ;
            assert(w as int * upper as int <= w as int * total as int) by (nonlinear_arith)
                requires
                    w as int >= 0,
                    upper as int <= total as int,
            ;
            assert(w as int * lower as int <= w as int * upper as int) by (nonlinear_arith)
                requires
                    w as int >= 0,
                    0 <= lower as int <= upper as int,
            ;
            assert(w as int * lower as int >= 0) by (nonlinear_arith)
                requires
                    w as int >= 0,
                    lower as int >= 0,
            ;
            lemma_div_pos_is_pos(w as int * lower as int, total as int);
            lemma_div_is_ordered(w as int * upper as int, w as int * total as int, total as int);
            assert(w as int * total as int == total as int * w as int) by (nonlinear_arith);
            assert((w as int * total as int) / (total as int) == w as int) by {
                lemma_div_multiples_vanish(w as int, total as int);
            }
            lemma_div_is_ordered(w as int * lower as int, w as int * upper as int, total as int);
        }
        let sub_b = self.a + (w * upper) / total;
        let sub_a = self.a + (w * lower) / total;
        (sub_a, sub_b)
    }

    /// Search the enumeration for the symbol whose sub-range contains `z`;
    /// emit it and narrow the working interval to its sub-range.
    fn execute_top_of_symbol_loop(&mut self)
        requires
            old(self).wf(),
            old(self).model().state == DecoderState::TopOfSymbolLoop,
        ensures
            final(self).wf_core(),
            final(self).setup() == old(self).setup(),
            final(self).model() == dec_step_select(old(self).model()),
            final(self).event_to_emit == Some(
                DecoderEvent::<A::S>::DecodedSymbol(
                    old(self).spec_alphabet().spec_symbols()[dec_select(old(self).model())],
                ),
            ),
    {
        let ghost m0 = self.model();
        proof {
            lemma_dec_select_step(m0);
            lemma_symbol_index_in_range(
                self.alphabet.spec_symbols(),
                self.alphabet.spec_eof(),
            );
        }
        let alphabet = self.alphabet;
        let syms = alphabet.symbols();
        let n = syms.len();
        let eof_symbol = alphabet.eof();
        let mut j: usize = 0;
        while j < n
            invariant
                *self == *old(self),
                old(self).wf(),
                m0 == old(self).model(),
                m0.state == DecoderState::TopOfSymbolLoop,
                syms@ == old(self).spec_alphabet().spec_symbols(),
                n == syms@.len(),
                eof_symbol == old(self).spec_alphabet().spec_eof(),
                j <= n,
                dec_sub_low(m0, j as int) <= m0.z,
                forall|t: int|
                    0 <= t < j ==> !(#[trigger] dec_sub_low(m0, t) <= m0.z && m0.z < dec_sub_high(
                        m0,
                        t,
                    )),
            decreases n - j,
        {
            let symbol = syms[j];
            proof {
                lemma_symbol_index(syms@, symbol, j as int);
            }
            let (sub_a, sub_b) = self.subinterval_for_symbol(&symbol);
            if sub_a <= self.z && self.z < sub_b {
                self.event_to_emit = Some(DecoderEvent::DecodedSymbol(symbol));
                self.a = sub_a;
                self.b = sub_b;
                let at_eof = symbol.sym_eq(&eof_symbol);
                if at_eof {
                    self.state = DecoderState::CalculateLength;
                } else {
                    self.state = DecoderState::Rescaling;
                }
                proof {
                    lemma_dec_select_from_found(m0, 0, j as int);
                    lemma_symbol_index_in_range(syms@, eof_symbol);
                    if at_eof {
                        assert(j as int == m0.eof_index);
                    } else {
                        assert(j as int != m0.eof_index);
                    }
                    assert(self.model() =~= dec_step_select(m0));
                    lemma_dec_select_step(m0);
                }
                return ;
            }
            proof {
                assert(dec_sub_high(m0, j as int) == dec_sub_low(m0, j + 1));
            }
            j = j + 1;
        }
        proof {
            lemma_dec_select_step(m0);
            assert(false);
        }
    }

    /// Take the next bit from the input stream (an implicit zero once the
    /// input is exhausted), add it as the least significant bit of `z`, and
    /// count it. The count saturates at the largest representable value, a
    /// point no physical input can reach.
    fn add_next_bit_to_z(&mut self)
        requires
            old(self).z < usize::MAX,
            old(self).cursor <= old(self).input@.len(),
        ensures
            final(self).z as int == old(self).z as int + (
            if old(self).cursor < old(self).input@.len() && old(self).input@[old(
                self,
            ).cursor as int] == Bit::One {
                1int
            } else {
                0int
            }),
            final(self).cursor as int == (
            if old(self).cursor < old(self).input@.len() {
                old(self).cursor as int + 1
            } else {
                old(self).cursor as int
            }),
            final(self).z_rescale_counter as int == sat_inc(old(self).z_rescale_counter as int),
            final(self).input == old(self).input,
            final(self).alphabet == old(self).alphabet,
            final(self).state == old(self).state,
            final(self).event_to_emit == old(self).event_to_emit,
            final(self).a == old(self).a,
            final(self).b == old(self).b,
            final(self).precision == old(self).precision,
            final(self).whole == old(self).whole,
            final(self).half == old(self).half,
            final(self).quarter == old(self).quarter,
    {
        if self.z_rescale_counter < usize::MAX {
            self.z_rescale_counter = self.z_rescale_counter + 1;
        }
        if self.cursor < self.input.len() {
            let bitv = self.input[self.cursor];
            if bitv == Bit::One {
                self.z = self.z + 1;
            }
            self.cursor = self.cursor + 1;
        }
    }

    /// Perform "side rescaling": while the interval lies entirely in one
    /// half of the working range, double it about that half and fold the
    /// next input bit into `z`.
    fn side_rescaling(&mut self)
        requires
            old(self).wf(),
            old(self).model().state == DecoderState::Rescaling,
        ensures
            final(self).wf(),
            final(self).setup() == old(self).setup(),
            final(self).model().state == DecoderState::Rescaling,
            dec_next(old(self).spec_alphabet().spec_symbols(), final(self).model()) == dec_next(
                old(self).spec_alphabet().spec_symbols(),
                old(self).model(),
            ),
            !(final(self).b < final(self).half),
            !(final(self).a > final(self).half),
            final(self).whole == old(self).whole,
            final(self).half == old(self).half,
            final(self).quarter == old(self).quarter,
            final(self).precision == old(self).precision,
    {
        while self.b < self.half || self.a > self.half
            invariant
                self.wf(),
                self.model().state == DecoderState::Rescaling,
                self.setup() == old(self).setup(),
                self.whole == old(self).whole,
                self.half == old(self).half,
                self.quarter == old(self).quarter,
                self.precision == old(self).precision,
                dec_next(old(self).spec_alphabet().spec_symbols(), self.model()) == dec_next(
                    old(self).spec_alphabet().spec_symbols(),
                    old(self).model(),
                ),
            decreases self.whole as int - (self.b as int - self.a as int),
        {
            let ghost m_prev = self.model();
            proof {
                lemma_dec_rescale_steps(m_prev);
                lemma_whole_parts(self.precision as nat);
            }
            if self.b < self.half {
                self.a = self.a * 2;
                self.b = self.b * 2;
                self.z = self.z * 2;
            } else {
                self.a = 2 * (self.a - self.half);
                self.b = 2 * (self.b - self.half);
                self.z = 2 * (self.z - self.half);
            }
            self.add_next_bit_to_z();
            proof {
                if m_prev.b < m_prev.half() {
                    assert(self.model() =~= dec_step_side_lo(m_prev));
                } else {
                    assert(self.model() =~= dec_step_side_hi(m_prev));
                }
            }
        }
    }

    /// Perform "middle rescaling": while the interval straddles the midpoint
    /// within the middle half, double it about the midpoint and fold the
    /// next input bit into `z`.
    fn middle_rescaling(&mut self)
        requires
            old(self).wf(),
            old(self).model().state == DecoderState::Rescaling,
            !(old(self).b < old(self).half),
            !(old(self).a > old(self).half),
        ensures
            final(self).wf(),
            final(self).setup() == old(self).setup(),
            final(self).model().state == DecoderState::Rescaling,
            dec_next(old(self).spec_alphabet().spec_symbols(), final(self).model()) == dec_next(
                old(self).spec_alphabet().spec_symbols(),
                old(self).model(),
            ),
            !(final(self).b < final(self).half),
            !(final(self).a > final(self).half),
            !(final(self).a > final(self).quarter && final(self).b < 3 * final(self).quarter),
            final(self).whole == old(self).whole,
            final(self).half == old(self).half,
            final(self).quarter == old(self).quarter,
            final(self).precision == old(self).precision,
    {
        proof {
            lemma_whole_parts(self.precision as nat);
        }
        while self.a > self.quarter && self.b < 3 * self.quarter
            invariant
                self.wf(),
                self.model().state == DecoderState::Rescaling,
                self.setup() == old(self).setup(),
                self.whole == old(self).whole,
                self.half == old(self).half,
                self.quarter == old(self).quarter,
                self.precision == old(self).precision,
                !(self.b < self.half),
                !(self.a > self.half),
                dec_next(old(self).spec_alphabet().spec_symbols(), self.model()) == dec_next(
                    old(self).spec_alphabet().spec_symbols(),
                    old(self).model(),
                ),
            decreases self.whole as int - (self.b as int - self.a as int),
        {
            let ghost m_prev = self.model();
            proof {
                lemma_dec_rescale_steps(m_prev);
                lemma_whole_parts(self.precision as nat);
            }
            self.a = 2 * (self.a - self.quarter);
            self.b = 2 * (self.b - self.quarter);
            self.z = 2 * (self.z - self.quarter);
            self.add_next_bit_to_z();
            proof {
                assert(self.model() =~= dec_step_middle(m_prev));
            }
        }
    }

    /// Perform rescaling operations as necessary to keep the working
    /// interval from narrowing too far.
    fn execute_rescaling(&mut self)
        requires
            old(self).wf(),
            old(self).model().state == DecoderState::Rescaling,
        ensures
            final(self).wf(),
            final(self).setup() == old(self).setup(),
            final(self).model().state == DecoderState::TopOfSymbolLoop,
            dec_next(old(self).spec_alphabet().spec_symbols(), final(self).model()) == dec_next(
                old(self).spec_alphabet().spec_symbols(),
                old(self).model(),
            ),
    {
        self.side_rescaling();
        self.middle_rescaling();
        let ghost m1 = self.model();
        self.state = DecoderState::TopOfSymbolLoop;
        proof {
            lemma_dec_rescale_steps(m1);
            assert(self.model() =~= dec_step_exit_rescale(m1));
        }
    }

    /// Find the size of the smallest prefix of `z` that describes a range
    /// contained in `[a, b)`.
    fn minimal_z_prefix_size(&self) -> (r: usize)
        requires
            self.precision >= 2,
            self.whole as int == pow2(self.precision as nat),
            self.half as int == self.whole as int / 2,
            self.a <= self.z,
            self.z < self.b,
            self.b <= self.whole,
        ensures
            r as int == min_prefix(
                self.z as int,
                self.a as int,
                self.b as int,
                self.precision as nat,
            ),
    {
        let ghost p = self.precision as nat;
        let ghost zz = self.z as int;
        let ghost aa = self.a as int;
        let ghost bb = self.b as int;
        let mut k: usize = 1;
        let mut block: usize = self.half;
        proof {
            lemma_whole_parts(p);
        }
        while k < self.precision
            invariant
                p == self.precision as nat,
                zz == self.z as int,
                aa == self.a as int,
                bb == self.b as int,
                self.precision >= 2,
                self.whole as int == pow2(p),
                aa <= zz < bb <= self.whole as int,
                1 <= k <= self.precision,
                block as int == pow2((p - k as nat) as nat),
                min_prefix(zz, aa, bb, p) == min_prefix_from(zz, aa, bb, p, k as int),
            decreases self.precision - k,
        {
            proof {
                lemma_pow2_pos((p - k as nat) as nat);
                lemma_fundamental_div_mod(zz, block as int);
                lemma_mod_bound(zz, block as int);
                lemma_pow2_adds(k as nat, (p - k as nat) as nat);
                let q = pow2(k as nat) as int;
                lemma_pow2_pos(k as nat);
                assert(q * (block as int) == (block as int) * q) by (nonlinear_arith);
                assert(zz < (block as int) * q);
                lemma_multiply_divide_lt(zz, block as int, q);
                assert((zz / (block as int)) * (block as int) <= zz);
                assert((zz / (block as int) + 1) * (block as int) <= q * (block as int)) by (
                nonlinear_arith)
                    requires
                        zz / (block as int) + 1 <= q,
                        block as int >= 0,
                ;
                assert((zz / (block as int) + 1) * (block as int) == (zz / (block as int)) * (
                block as int) + block as int) by (nonlinear_arith);
            }
            let lower = (self.z / block) * block;
            let upper = lower + (block - 1);
            if lower >= self.a && upper < self.b {
                proof {
                    assert(prefix_contained(zz, aa, bb, p, k as int));
                }
                return k;
            }
            proof {
                assert(!prefix_contained(zz, aa, bb, p, k as int));
                lemma_pow2_adds(1, (p - k as nat - 1) as nat);
                assert(pow2(1) == 2) by {
                    vstd::arithmetic::power2::lemma2_to64();
                }
                assert(pow2((p - k as nat) as nat) as int / 2 == pow2(
                    (p - k as nat - 1) as nat,
                ) as int) by {
                    lemma_div_multiples_vanish(pow2((p - k as nat - 1) as nat) as int, 2);
                }
            }
            k = k + 1;
            block = block / 2;
        }
        self.precision
    }

    /// Report how many input bits specified the decoded message: the minimal
    /// prefix length of `z` plus the bits folded in during rescaling.
    fn execute_calculate_length(&mut self)
        requires
            old(self).wf(),
            old(self).model().state == DecoderState::CalculateLength,
        ensures
            final(self).wf_core(),
            final(self).setup() == old(self).setup(),
            final(self).model() == (DecoderModel {
                state: DecoderState::Final,
                ..old(self).model()
            }),
            final(self).event_to_emit == Some(
                DecoderEvent::<A::S>::MessageLength(
                    sat_add(
                        min_prefix(
                            old(self).model().z,
                            old(self).model().a,
                            old(self).model().b,
                            old(self).model().precision,
                        ),
                        old(self).model().counter,
                    ) as usize,
                ),
            ),
    {
        let prefix_size = self.minimal_z_prefix_size();
        let encoded_message_length = if prefix_size <= usize::MAX - self.z_rescale_counter {
            prefix_size + self.z_rescale_counter
        } else {
            usize::MAX
        };
        self.event_to_emit = Some(DecoderEvent::MessageLength(encoded_message_length));
        self.state = DecoderState::Final;
        proof {
            assert(self.model() =~= (DecoderModel {
                state: DecoderState::Final,
                ..old(self).model()
            }));
        }
    }

    /// Continue the decoding process until the next event is emitted.
    /// `None` indicates no more events are available.
    pub fn next_event(&mut self) -> (r: Option<DecoderEvent<A::S>>)
        requires
            old(self).wf(),
        ensures
            final(self).wf(),
            final(self).setup() == old(self).setup(),
            ({
                let (m2, ev) = dec_next(
                    old(self).spec_alphabet().spec_symbols(),
                    old(self).model(),
                );
                r == ev && final(self).model() == m2
            }),
    {
        loop
            invariant
                self.wf_core(),
                self.setup() == old(self).setup(),
                match self.event_to_emit {
                    None => dec_next(old(self).spec_alphabet().spec_symbols(), self.model())
                        == dec_next(old(self).spec_alphabet().spec_symbols(), old(self).model()),
                    Some(ev) => dec_next(
                        old(self).spec_alphabet().spec_symbols(),
                        old(self).model(),
                    ) == (self.model(), Some(ev)),
                },
            decreases
                (if self.event_to_emit is None {
                    1int
                } else {
                    0int
                }),
                dec_rank(self.model().state),
                self.model().whole() + 1 - (self.model().b - self.model().a),
        {
            let ev_opt = self.event_to_emit;
            if let Some(ev) = ev_opt {
                self.event_to_emit = None;
                return Some(ev);
            }
            match self.state {
                DecoderState::Final => {
                    return None;
                },
                DecoderState::Initial => {
                    let ghost m0 = self.model();
                    self.execute_initial();
                    proof {
                        assert(dec_next(old(self).spec_alphabet().spec_symbols(), m0) == dec_next(
                            old(self).spec_alphabet().spec_symbols(),
                            self.model(),
                        ));
                    }
                },
                DecoderState::TopOfSymbolLoop => {
                    let ghost m0 = self.model();
                    self.execute_top_of_symbol_loop();
                },
                DecoderState::Rescaling => {
                    self.execute_rescaling();
                },
                DecoderState::CalculateLength => {
                    let ghost m0 = self.model();
                    self.execute_calculate_length();
                },
            }
        }
    }
}

/// Decodes bit streams over this alphabet.
pub trait Decoder: Alphabet + Sized {
    /// Decode a stream of bits as a stream of symbols.
    ///
    /// The returned machine decodes a single message, yielding all the
    /// decoded symbols (including the EOF symbol), and then indicating
    /// completion with the MessageLength event.
    fn decode(&self, input: Vec<Bit>, precision: usize) -> (r: DecoderOutput<'_, Self>)
        requires
            wf_alphabet(self),
            2 <= precision,
            pow2(precision as nat) * total_width(self.spec_widths()) <= usize::MAX,
        ensures
            r.wf(),
            r.model() == dec_init(
                self.spec_widths(),
                symbol_index(self.spec_symbols(), self.spec_eof()),
                input@,
                precision as nat,
            ),
            r.spec_alphabet() == *self,
            r.spec_input() == input@,
            r.spec_precision() == precision as nat,
    ;
}

impl<A: Alphabet> Decoder for A {
    fn decode(&self, input: Vec<Bit>, precision: usize) -> (r: DecoderOutput<'_, A>) {
        DecoderOutput::new(input, self, precision)
    }
}

} // verus!
