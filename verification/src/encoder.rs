use crate::alphabet::{
    lemma_symbol_index_in_range, lemma_width_sum_bounds, lower_bound_at, symbol_index,
    total_width, upper_bound_at, wf_alphabet, Alphabet, Symbol,
};
use crate::bit::Bit;
use vstd::arithmetic::div_mod::{
    lemma_div_is_ordered, lemma_div_multiples_vanish, lemma_div_plus_one, lemma_div_pos_is_pos,
};
use vstd::arithmetic::power2::{lemma_pow2_adds, lemma_pow2_pos, lemma_pow2_strictly_increases, pow2};
use vstd::prelude::*;

verus! {

/// Errors that can occur while encoding.
#[derive(Copy, Clone, PartialEq, Eq, Structural, Debug)]
pub enum EncodeError {
    /// The input symbol sequence ended before the terminator symbol appeared.
    UnterminatedStream,
}

/// The phases of the encoder state machine, in the order they are visited.
#[derive(Copy, Clone, PartialEq, Eq, Structural, Debug)]
pub enum EncoderState {
    /// The initial state, before encoding has begun.
    Initial,
    /// State at the top of the loop iterating over input symbols.
    TopOfSymbolLoop,
    /// State at the top of the loop performing rescaling when the `[a, b)`
    /// interval is entirely below or above the midpoint.
    TopOfRescaleLoop,
    /// State after the loop iterating over input symbols has terminated.
    AfterSymbolLoop,
    /// Final state, when encoding has finished.
    Final,
}

/// The mathematical state of the encoder machine: the alphabet as a width
/// table, the input as enumeration indices, and the fixed-point interval.
/// The pending-emission queue is tracked separately.
#[verifier::ext_equal]
pub ghost struct EncoderModel {
    /// Interval widths in enumeration order.
    pub widths: Seq<int>,
    /// Input symbols, each as its index in enumeration order.
    pub input: Seq<int>,
    /// Index of the terminator symbol.
    pub eof_index: int,
    /// How many input symbols have been consumed.
    pub pos: int,
    pub state: EncoderState,
    /// Lower end of the working interval.
    pub a: int,
    /// Upper end of the working interval (exclusive).
    pub b: int,
    /// Count of deferred follow bits.
    pub s: int,
    /// Whether the terminator has been consumed.
    pub eof_reached: bool,
    /// The precision parameter `P`; the working range is `[0, 2^P)`.
    pub precision: nat,
}

impl EncoderModel {
    pub open spec fn whole(&self) -> int {
        pow2(self.precision) as int
    }

    pub open spec fn half(&self) -> int {
        self.whole() / 2
    }

    pub open spec fn quarter(&self) -> int {
        self.whole() / 4
    }
}

/// The outcome of draining an encoder: the bits it emits, and whether it
/// completes (`ok`) or ends in an `UnterminatedStream` error.
#[verifier::ext_equal]
pub ghost struct EncOutcome {
    pub bits: Seq<Bit>,
    pub ok: bool,
}

/// One emission burst: a lead bit followed by `follow` bits of the opposite
/// polarity (the deferred follow bits).
pub open spec fn emit_run(lead: Bit, follow: int) -> Seq<Bit> {
    seq![lead] + Seq::new(follow as nat, |i: int| lead.spec_opposite())
}

/// A rank for the machine states; transitions that keep the input position
/// either lower this rank or grow the working interval.
pub open spec fn enc_rank(state: EncoderState) -> int {
    match state {
        EncoderState::Initial => 4,
        EncoderState::TopOfRescaleLoop => 3,
        EncoderState::TopOfSymbolLoop => 2,
        EncoderState::AfterSymbolLoop => 1,
        EncoderState::Final => 0,
    }
}

/// Narrowing the working interval `[a, b)` to the sub-range assigned to the
/// bounds `c` (lower) under total width `total`, by floor division.
pub open spec fn narrow_low(a: int, b: int, c: int, total: int) -> int {
    a + ((b - a) * c) / total
}

/// Narrowing: the new upper end for cumulative upper bound `d`.
pub open spec fn narrow_high(a: int, b: int, d: int, total: int) -> int {
    a + ((b - a) * d) / total
}

/// The machine invariant: a well-formed width table with the working range
/// wide enough (`4 * R <= 2^P`), the cursor within the input, all pending
/// symbols in range, and the interval `0 <= a < b <= 2^P`, with a full
/// quarter of slack whenever a symbol is about to be consumed.
pub open spec fn enc_inv(m: EncoderModel) -> bool {
    &&& m.widths.len() > 0
    &&& forall|i: int| 0 <= i < m.widths.len() ==> #[trigger] m.widths[i] >= 1
    &&& 0 <= m.eof_index < m.widths.len()
    &&& m.precision >= 2
    &&& 4 * total_width(m.widths) <= m.whole()
    &&& 0 <= m.pos <= m.input.len()
    &&& forall|i: int| m.pos <= i < m.input.len() ==> 0 <= #[trigger] m.input[i] < m.widths.len()
    &&& m.s >= 0
    &&& (m.state != EncoderState::Initial ==> 0 <= m.a < m.b <= m.whole())
    &&& (m.state == EncoderState::Initial ==> m.pos == 0 && m.s == 0)
    &&& (m.state == EncoderState::TopOfSymbolLoop ==> m.b - m.a >= m.quarter())
}

pub open spec fn enc_step_initial(m: EncoderModel) -> EncoderModel {
    EncoderModel { state: EncoderState::TopOfSymbolLoop, a: 0, b: m.whole(), s: 0, ..m }
}

pub open spec fn enc_step_to_after(m: EncoderModel) -> EncoderModel {
    EncoderModel { state: EncoderState::AfterSymbolLoop, ..m }
}

pub open spec fn enc_step_narrow(m: EncoderModel) -> EncoderModel {
    let j = m.input[m.pos];
    let total = total_width(m.widths);
    EncoderModel {
        state: EncoderState::TopOfRescaleLoop,
        pos: m.pos + 1,
        a: narrow_low(m.a, m.b, lower_bound_at(m.widths, j), total),
        b: narrow_high(m.a, m.b, upper_bound_at(m.widths, j), total),
        eof_reached: m.eof_reached || j == m.eof_index,
        ..m
    }
}

pub open spec fn enc_step_side_lo(m: EncoderModel) -> EncoderModel {
    EncoderModel { a: 2 * m.a, b: 2 * m.b, s: 0, ..m }
}

pub open spec fn enc_step_side_hi(m: EncoderModel) -> EncoderModel {
    EncoderModel { a: 2 * (m.a - m.half()), b: 2 * (m.b - m.half()), s: 0, ..m }
}

pub open spec fn enc_step_middle(m: EncoderModel) -> EncoderModel {
    EncoderModel { a: 2 * (m.a - m.quarter()), b: 2 * (m.b - m.quarter()), s: m.s + 1, ..m }
}

pub open spec fn enc_step_exit_rescale(m: EncoderModel) -> EncoderModel {
    EncoderModel { state: EncoderState::TopOfSymbolLoop, ..m }
}

/// Everything the machine still emits from configuration `m`, and whether
/// it completes. This is the encoding algorithm itself, one transition per
/// recursive step: narrowing by floor division, side rescaling that flushes
/// the deferred bits, middle rescaling that defers one more bit, and the
/// final flush after the terminator.
pub open spec fn enc_future(m: EncoderModel) -> EncOutcome
    decreases m.input.len() - m.pos, enc_rank(m.state), m.whole() + 1 - (m.b - m.a),
        when enc_inv(m)
{
    match m.state {
        EncoderState::Initial => {
            proof {
                lemma_whole_parts(m.precision);
            }
            enc_future(enc_step_initial(m))
        },
        EncoderState::TopOfSymbolLoop => {
            if m.eof_reached {
                enc_future(enc_step_to_after(m))
            } else if m.pos >= m.input.len() {
                EncOutcome { bits: Seq::empty(), ok: false }
            } else {
                proof {
                    lemma_enc_narrow_in_range(m);
                }
                enc_future(enc_step_narrow(m))
            }
        },
        EncoderState::TopOfRescaleLoop => {
            if m.b < m.half() {
                proof {
                    lemma_whole_parts(m.precision);
                }
                let rest = enc_future(enc_step_side_lo(m));
                EncOutcome { bits: emit_run(Bit::Zero, m.s) + rest.bits, ok: rest.ok }
            } else if m.a > m.half() {
                proof {
                    lemma_whole_parts(m.precision);
                }
                let rest = enc_future(enc_step_side_hi(m));
                EncOutcome { bits: emit_run(Bit::One, m.s) + rest.bits, ok: rest.ok }
            } else if m.a > m.quarter() && m.b < 3 * m.quarter() {
                proof {
                    lemma_whole_parts(m.precision);
                }
                enc_future(enc_step_middle(m))
            } else {
                enc_future(enc_step_exit_rescale(m))
            }
        },
        EncoderState::AfterSymbolLoop => {
            let lead = if m.a <= m.quarter() {
                Bit::Zero
            } else {
                Bit::One
            };
            EncOutcome { bits: emit_run(lead, m.s + 1), ok: true }
        },
        EncoderState::Final => EncOutcome { bits: Seq::empty(), ok: true },
    }
}

/// The machine configuration at the start of an encoding run.
pub open spec fn enc_init(
    widths: Seq<int>,
    input: Seq<int>,
    eof_index: int,
    precision: nat,
) -> EncoderModel {
    EncoderModel {
        widths,
        input,
        eof_index,
        pos: 0,
        state: EncoderState::Initial,
        a: 0,
        b: 0,
        s: 0,
        eof_reached: false,
        precision,
    }
}

/// What encoding the given input over the given width table produces: the
/// emitted bits and whether the run completes without an
/// `UnterminatedStream` error.
pub open spec fn spec_encode(
    widths: Seq<int>,
    input: Seq<int>,
    eof_index: int,
    precision: nat,
) -> EncOutcome {
    enc_future(enc_init(widths, input, eof_index, precision))
}

/// The encoder outcome for an alphabet and symbol sequence, with symbols
/// translated to their enumeration indices.
pub open spec fn encode_outcome_of<A: Alphabet>(
    alphabet: &A,
    input: Seq<A::S>,
    precision: nat,
) -> EncOutcome {
    spec_encode(
        alphabet.spec_widths(),
        input.map_values(|s: A::S| symbol_index(alphabet.spec_symbols(), s)),
        symbol_index(alphabet.spec_symbols(), alphabet.spec_eof()),
        precision,
    )
}

/// `2^P = 2 * 2^(P-1) = 4 * 2^(P-2)` for `P >= 2`, so the half and quarter
/// marks are exact and positive.
pub proof fn lemma_whole_parts(precision: nat)
    requires
        precision >= 2,
    ensures
        pow2(precision) == 2 * pow2((precision - 1) as nat),
        pow2(precision) == 4 * pow2((precision - 2) as nat),
        pow2(precision) as int / 2 == pow2((precision - 1) as nat) as int,
        pow2(precision) as int / 4 == pow2((precision - 2) as nat) as int,
        pow2(precision) >= 4,
        pow2(precision) as int / 2 == 2 * (pow2(precision) as int / 4),
{
    lemma_pow2_adds(1, (precision - 1) as nat);
    lemma_pow2_adds(2, (precision - 2) as nat);
    lemma_pow2_adds(1, (precision - 2) as nat);
    lemma_pow2_pos((precision - 1) as nat);
    lemma_pow2_pos((precision - 2) as nat);
    assert(pow2(1) == 2 && pow2(2) == 4) by {
        vstd::arithmetic::power2::lemma2_to64();
    }
    let w = pow2(precision) as int;
    let h = pow2((precision - 1) as nat) as int;
    let q = pow2((precision - 2) as nat) as int;
    assert(w == 2 * h);
    assert(w == 4 * q);
    assert(h == 2 * q);
    assert(w / 2 == h) by {
        lemma_div_multiples_vanish(h, 2);
    }
    assert(w / 4 == q) by {
        lemma_div_multiples_vanish(q, 4);
    }
}

/// Exact bounds for interval narrowing: with `w = b - a >= total`, the
/// sub-range `[narrow_low, narrow_high)` for bounds `0 <= c < d <= total`
/// is a non-empty sub-range of `[a, b)`.
pub proof fn lemma_narrow_in_range(a: int, b: int, c: int, d: int, total: int)
    requires
        0 <= a < b,
        0 <= c < d,
        d <= total,
        1 <= total,
        b - a >= total,
    ensures
        a <= narrow_low(a, b, c, total),
        narrow_low(a, b, c, total) < narrow_high(a, b, d, total),
        narrow_high(a, b, d, total) <= b,
{
    let w = b - a;
    assert(w * c >= 0) by (nonlinear_arith)
        requires
            w >= 0,
            c >= 0,
    ;
    assert((w * c) / total >= 0) by {
        lemma_div_pos_is_pos(w * c, total);
    }
    assert(w * d <= w * total) by (nonlinear_arith)
        requires
            w >= 0,
            d <= total,
    ;
    assert((w * d) / total <= (w * total) / total) by {
        lemma_div_is_ordered(w * d, w * total, total);
    }
    assert((w * total) / total == w) by {
        lemma_div_multiples_vanish(w, total);
    }
    assert(w * c + total <= w * d) by (nonlinear_arith)
        requires
            c + 1 <= d,
            w >= total,
            total >= 1,
            c >= 0,
            w >= 0,
    ;
    assert((w * c + total) / total == (w * c) / total + 1) by {
        lemma_div_plus_one(w * c, total);
    }
    assert((w * c + total) / total <= (w * d) / total) by {
        lemma_div_is_ordered(w * c + total, w * d, total);
    }
}

/// The narrowing bounds hold for the machine's own step: the chosen symbol's
/// sub-range is a non-empty sub-range of `[a, b)`, and the step preserves the
/// invariant.
pub proof fn lemma_enc_narrow_in_range(m: EncoderModel)
    requires
        enc_inv(m),
        m.state == EncoderState::TopOfSymbolLoop,
        !m.eof_reached,
        0 <= m.pos < m.input.len(),
    ensures
        m.a <= enc_step_narrow(m).a,
        enc_step_narrow(m).a < enc_step_narrow(m).b,
        enc_step_narrow(m).b <= m.b,
        enc_inv(enc_step_narrow(m)),
{
    let j = m.input[m.pos];
    let total = total_width(m.widths);
    lemma_whole_parts(m.precision);
    lemma_width_sum_bounds(m.widths, 0, j);
    lemma_width_sum_bounds(m.widths, j + 1, m.widths.len() as int);
    assert(m.widths[j] >= 1);
    assert(upper_bound_at(m.widths, j) == lower_bound_at(m.widths, j) + m.widths[j]);
    lemma_narrow_in_range(
        m.a,
        m.b,
        lower_bound_at(m.widths, j),
        upper_bound_at(m.widths, j),
        total,
    );
}

/// Each rescaling step keeps the interval inside `[0, 2^P)` and doubles its
/// width; leaving the rescale loop leaves at least a quarter of slack.
pub proof fn lemma_enc_rescale_steps(m: EncoderModel)
    requires
        enc_inv(m),
        m.state == EncoderState::TopOfRescaleLoop,
    ensures
        m.b < m.half() ==> enc_inv(enc_step_side_lo(m)) && enc_step_side_lo(m).b
            - enc_step_side_lo(m).a == 2 * (m.b - m.a),
        !(m.b < m.half()) && m.a > m.half() ==> enc_inv(enc_step_side_hi(m)) && enc_step_side_hi(
            m,
        ).b - enc_step_side_hi(m).a == 2 * (m.b - m.a),
        !(m.b < m.half()) && !(m.a > m.half()) && m.a > m.quarter() && m.b < 3 * m.quarter()
            ==> enc_inv(enc_step_middle(m)) && enc_step_middle(m).b - enc_step_middle(m).a == 2 * (
        m.b - m.a),
        !(m.b < m.half()) && !(m.a > m.half()) && !(m.a > m.quarter() && m.b < 3 * m.quarter())
            ==> enc_inv(enc_step_exit_rescale(m)) && m.b - m.a >= m.quarter(),
{
    lemma_whole_parts(m.precision);
}

/// From any reachable configuration, the encoder completes exactly when the
/// terminator has already been consumed or still lies ahead in the input;
/// otherwise it ends in `UnterminatedStream`.
pub proof fn lemma_enc_future_ok(m: EncoderModel)
    requires
        enc_inv(m),
    ensures
        enc_future(m).ok <==> (m.state == EncoderState::Final || m.state
            == EncoderState::AfterSymbolLoop || m.eof_reached || exists|i: int|
            m.pos <= i < m.input.len() && m.input[i] == m.eof_index),
    decreases m.input.len() - m.pos, enc_rank(m.state), m.whole() + 1 - (m.b - m.a),
{
    match m.state {
        EncoderState::Initial => {
            lemma_whole_parts(m.precision);
            lemma_enc_future_ok(enc_step_initial(m));
        },
        EncoderState::TopOfSymbolLoop => {
            if m.eof_reached {
                lemma_enc_future_ok(enc_step_to_after(m));
            } else if m.pos >= m.input.len() {
                assert(!enc_future(m).ok);
            } else {
                lemma_enc_narrow_in_range(m);
                let m2 = enc_step_narrow(m);
                lemma_enc_future_ok(m2);
                let j = m.input[m.pos];
                if j == m.eof_index {
                    assert(m.pos <= m.pos < m.input.len() && m.input[m.pos] == m.eof_index);
                } else {
                    if exists|i: int| m.pos <= i < m.input.len() && m.input[i] == m.eof_index {
                        let i0 = choose|i: int|
                            m.pos <= i < m.input.len() && m.input[i] == m.eof_index;
                        assert(m2.pos <= i0 < m2.input.len() && m2.input[i0] == m2.eof_index);
                    }
                    if exists|i: int| m2.pos <= i < m2.input.len() && m2.input[i] == m2.eof_index {
                        let i1 = choose|i: int|
                            m2.pos <= i < m2.input.len() && m2.input[i] == m2.eof_index;
                        assert(m.pos <= i1 < m.input.len() && m.input[i1] == m.eof_index);
                    }
                }
            }
        },
        EncoderState::TopOfRescaleLoop => {
            lemma_enc_rescale_steps(m);
            if m.b < m.half() {
                lemma_enc_future_ok(enc_step_side_lo(m));
            } else if m.a > m.half() {
                lemma_enc_future_ok(enc_step_side_hi(m));
            } else if m.a > m.quarter() && m.b < 3 * m.quarter() {
                lemma_enc_future_ok(enc_step_middle(m));
            } else {
                lemma_enc_future_ok(enc_step_exit_rescale(m));
            }
        },
        EncoderState::AfterSymbolLoop => {},
        EncoderState::Final => {},
    }
}

/// Law (error case): an encoding run completes exactly when the input
/// contains the terminator; an input without it ends in
/// `UnterminatedStream`.
pub proof fn lemma_spec_encode_ok(
    widths: Seq<int>,
    input: Seq<int>,
    eof_index: int,
    precision: nat,
)
    requires
        widths.len() > 0,
        forall|i: int| 0 <= i < widths.len() ==> #[trigger] widths[i] >= 1,
        0 <= eof_index < widths.len(),
        precision >= 2,
        4 * total_width(widths) <= pow2(precision),
        forall|i: int| 0 <= i < input.len() ==> 0 <= #[trigger] input[i] < widths.len(),
    ensures
        spec_encode(widths, input, eof_index, precision).ok <==> exists|i: int|
            0 <= i < input.len() && input[i] == eof_index,
{
    lemma_enc_future_ok(enc_init(widths, input, eof_index, precision));
}

/// Monotonicity of `pow2`.
pub proof fn lemma_pow2_le(e1: nat, e2: nat)
    requires
        e1 <= e2,
    ensures
        pow2(e1) <= pow2(e2),
{
    if e1 < e2 {
        lemma_pow2_strictly_increases(e1, e2);
    }
}

/// Computes `2^precision`.
pub(crate) fn pow2_exec(precision: usize) -> (r: usize)
    requires
        pow2(precision as nat) <= usize::MAX,
    ensures
        r as int == pow2(precision as nat),
{
    let mut result: usize = 1;
    let mut i: usize = 0;
    assert(pow2(0) == 1) by {
        vstd::arithmetic::power2::lemma2_to64();
    }
    while i < precision
        invariant
            i <= precision,
            result as int == pow2(i as nat),
            pow2(precision as nat) <= usize::MAX,
        decreases precision - i,
    {
        proof {
            lemma_pow2_adds(1, i as nat);
            assert(pow2(1) == 2) by {
                vstd::arithmetic::power2::lemma2_to64();
            }
            lemma_pow2_le((i + 1) as nat, precision as nat);
        }
        result = result * 2;
        i = i + 1;
    }
    result
}

/// The incremental encoder: pulled one bit at a time via [`Self::next_bit`],
/// it advances the state machine just far enough to produce each bit.
pub struct EncoderOutput<'a, A: Alphabet> {
    input: Vec<A::S>,
    pos: usize,
    alphabet: &'a A,
    state: EncoderState,
    pending_first: Option<Bit>,
    pending_bit: Bit,
    pending_count: usize,
    a: usize,
    b: usize,
    s: usize,
    eof_reached: bool,
    precision: usize,
    whole: usize,
    half: usize,
    quarter: usize,
}

impl<'a, A: Alphabet> EncoderOutput<'a, A> {
    /// The alphabet this encoder reads bounds from.
    pub closed spec fn spec_alphabet(&self) -> A {
        *self.alphabet
    }

    /// The input symbol sequence.
    pub closed spec fn spec_input(&self) -> Seq<A::S> {
        self.input@
    }

    /// The precision parameter.
    pub closed spec fn spec_precision(&self) -> nat {
        self.precision as nat
    }

    /// The fixed configuration of this run.
    pub open spec fn setup(&self) -> (A, Seq<A::S>, nat) {
        (self.spec_alphabet(), self.spec_input(), self.spec_precision())
    }

    /// The machine configuration this encoder is in.
    pub closed spec fn model(&self) -> EncoderModel {
        EncoderModel {
            widths: self.alphabet.spec_widths(),
            input: self.input@.map_values(
                |s: A::S| symbol_index(self.alphabet.spec_symbols(), s),
            ),
            eof_index: symbol_index(self.alphabet.spec_symbols(), self.alphabet.spec_eof()),
            pos: self.pos as int,
            state: self.state,
            a: self.a as int,
            b: self.b as int,
            s: self.s as int,
            eof_reached: self.eof_reached,
            precision: self.precision as nat,
        }
    }

    /// The queued bits not yet handed to the caller.
    pub closed spec fn pending(&self) -> Seq<Bit> {
        (match self.pending_first {
            Some(x) => seq![x],
            None => Seq::<Bit>::empty(),
        }) + Seq::new(self.pending_count as nat, |i: int| self.pending_bit)
    }

    /// The bits this encoder will still emit, and whether it completes.
    pub open spec fn remaining(&self) -> EncOutcome {
        EncOutcome {
            bits: self.pending() + enc_future(self.model()).bits,
            ok: enc_future(self.model()).ok,
        }
    }

    /// Representation invariant, except the state-dependent bound on the
    /// follow-bit counter.
    pub closed spec fn wf_repr(&self) -> bool {
        &&& wf_alphabet(self.alphabet)
        &&& enc_inv(self.model())
        &&& forall|i: int|
            0 <= i < self.input@.len() ==> self.alphabet.spec_symbols().contains(
                #[trigger] self.input@[i],
            )
        &&& self.whole as int == pow2(self.precision as nat)
        &&& self.half as int == self.whole as int / 2
        &&& self.quarter as int == self.whole as int / 4
        &&& pow2(self.precision as nat) * total_width(self.alphabet.spec_widths()) <= usize::MAX
        &&& (self.precision as int + 1) * (self.input@.len() as int + 1) <= usize::MAX
    }

    /// Full struct invariant: the representation invariant plus a bound on
    /// the follow-bit counter, which never exceeds one fewer than the
    /// precision per symbol consumed.
    pub closed spec fn wf(&self) -> bool {
        &&& self.wf_repr()
        &&& (self.state == EncoderState::TopOfSymbolLoop ==> self.s as int <= (
        self.precision as int - 1) * self.pos as int)
        &&& (self.state == EncoderState::TopOfRescaleLoop ==> self.pos as int >= 1
            && self.s as int <= (self.precision as int - 1) * (self.pos as int - 1))
        &&& (self.state == EncoderState::AfterSymbolLoop ==> self.s as int <= (
        self.precision as int - 1) * self.pos as int)
    }

    /// Construct a new encoder from an input stream of symbols, an alphabet
    /// and a precision.
    fn new(input: Vec<A::S>, alphabet: &'a A, precision: usize) -> (r: Self)
        requires
            wf_alphabet(alphabet),
            forall|i: int|
                0 <= i < input@.len() ==> alphabet.spec_symbols().contains(#[trigger] input@[i]),
            2 <= precision,
            4 * total_width(alphabet.spec_widths()) <= pow2(precision as nat),
            pow2(precision as nat) * total_width(alphabet.spec_widths()) <= usize::MAX,
            (precision as int + 1) * (input@.len() as int + 1) <= usize::MAX,
        ensures
            r.wf(),
            r.remaining() == encode_outcome_of(alphabet, input@, precision as nat),
            r.spec_alphabet() == *alphabet,
            r.spec_input() == input@,
            r.spec_precision() == precision as nat,
    {
        proof {
            lemma_width_sum_bounds(alphabet.spec_widths(), 0, alphabet.spec_widths().len() as int);
            lemma_pow2_pos(precision as nat);
            assert(pow2(precision as nat) * 1 <= pow2(precision as nat) * total_width(
                alphabet.spec_widths(),
            )) by (nonlinear_arith)
                requires
                    total_width(alphabet.spec_widths()) >= 1,
                    pow2(precision as nat) >= 0,
            ;
        }
        let whole = pow2_exec(precision);
        let r = EncoderOutput {
            input,
            pos: 0,
            alphabet,
            state: EncoderState::Initial,
            pending_first: None,
            pending_bit: Bit::Zero,
            pending_count: 0,
            a: 0,
            b: 0,
            s: 0,
            eof_reached: false,
            precision,
            whole,
            half: whole / 2,
            quarter: whole / 4,
        };
        proof {
            lemma_symbol_index_in_range(alphabet.spec_symbols(), alphabet.spec_eof());
            assert forall|i: int|
                0 <= i < r.model().input.len() implies 0 <= #[trigger] r.model().input[i]
                < r.model().widths.len() by {
                lemma_symbol_index_in_range(alphabet.spec_symbols(), r.spec_input()[i]);
            }
            assert(r.model() =~= enc_init(
                alphabet.spec_widths(),
                r.spec_input().map_values(|s: A::S| symbol_index(alphabet.spec_symbols(), s)),
                symbol_index(alphabet.spec_symbols(), alphabet.spec_eof()),
                precision as nat,
            ));
            assert(r.pending() =~= Seq::<Bit>::empty());
            assert(r.remaining().bits =~= enc_future(r.model()).bits);
            assert(r.remaining() =~= encode_outcome_of(alphabet, r.spec_input(), precision as nat));
        }
        r
    }

    fn execute_initial(&mut self)
        requires
            old(self).wf(),
            old(self).model().state == EncoderState::Initial,
        ensures
            final(self).wf(),
            final(self).setup() == old(self).setup(),
            final(self).pending() == old(self).pending(),
            final(self).model() == enc_step_initial(old(self).model()),
    {
        self.a = 0;
        self.b = self.whole;
        self.s = 0;
        self.state = EncoderState::TopOfSymbolLoop;
        proof {
            lemma_whole_parts(self.precision as nat);
            assert(self.model() =~= enc_step_initial(old(self).model()));
        }
    }

    /// Narrow the working interval to the sub-range assigned to `symbol` by
    /// the shared floor-division rule.
    fn set_a_and_b_for_symbol(&mut self, symbol: &A::S)
        requires
            wf_alphabet(old(self).alphabet),
            old(self).alphabet.spec_symbols().contains(*symbol),
            old(self).precision >= 2,
            old(self).whole as int == pow2(old(self).precision as nat),
            4 * total_width(old(self).alphabet.spec_widths()) <= old(self).whole as int,
            pow2(old(self).precision as nat) * total_width(old(self).alphabet.spec_widths())
                <= usize::MAX,
            old(self).a < old(self).b,
            old(self).b <= old(self).whole,
            old(self).b as int - old(self).a as int >= old(self).whole as int / 4,
        ensures
            ({
                let widths = old(self).alphabet.spec_widths();
                let j = symbol_index(old(self).alphabet.spec_symbols(), *symbol);
                let total = total_width(widths);
                &&& final(self).a as int == narrow_low(
                    old(self).a as int,
                    old(self).b as int,
                    lower_bound_at(widths, j),
                    total,
                )
                &&& final(self).b as int == narrow_high(
                    old(self).a as int,
                    old(self).b as int,
                    upper_bound_at(widths, j),
                    total,
                )
            }),
            old(self).a <= final(self).a,
            final(self).a < final(self).b,
            final(self).b <= old(self).b,
            final(self).input == old(self).input,
            final(self).pos == old(self).pos,
            final(self).alphabet == old(self).alphabet,
            final(self).state == old(self).state,
            final(self).pending_first == old(self).pending_first,
            final(self).pending_bit == old(self).pending_bit,
            final(self).pending_count == old(self).pending_count,
            final(self).s == old(self).s,
            final(self).eof_reached == old(self).eof_reached,
            final(self).precision == old(self).precision,
            final(self).whole == old(self).whole,
            final(self).half == old(self).half,
            final(self).quarter == old(self).quarter,
    {
        proof {
            let widths = self.alphabet.spec_widths();
            let syms = self.alphabet.spec_symbols();
            lemma_whole_parts(self.precision as nat);
            lemma_symbol_index_in_range(syms, *symbol);
            let j = symbol_index(syms, *symbol);
            lemma_width_sum_bounds(widths, 0, j);
            lemma_width_sum_bounds(widths, j + 1, widths.len() as int);
            lemma_width_sum_bounds(widths, 0, widths.len() as int);
            assert(widths[j] >= 1);
            assert(total_width(widths) * 1 <= total_width(widths) * 4) by (nonlinear_arith)
                requires
                    total_width(widths) >= 0,
            ;
        }
        let total = self.alphabet.total_interval_width();
        let upper = self.alphabet.interval_upper_bound(symbol);
        let lower = self.alphabet.interval_lower_bound(symbol);
        let w = self.b - self.a;
        proof {
            let widths = self.alphabet.spec_widths();
            let j = symbol_index(self.alphabet.spec_symbols(), *symbol);
            assert(w as int * upper as int <= self.whole as int * total as int) by (
            nonlinear_arith)
                requires
                    0 <= w as int <= self.whole as int,
                    0 <= upper as int <= total as int,
            ;
            assert(w as int * lower as int <= w as int * upper as int) by (nonlinear_arith)
                requires
                    w as int >= 0,
                    0 <= lower as int <= upper as int,
            ;
            lemma_narrow_in_range(
                self.a as int,
                self.b as int,
                lower_bound_at(widths, j),
                upper_bound_at(widths, j),
                total as int,
            );
        }
        self.b = self.a + (w * upper) / total;
        self.a = self.a + (w * lower) / total;
    }

    fn execute_top_of_symbol_loop(&mut self) -> (r: Option<EncodeError>)
        requires
            old(self).wf(),
            old(self).model().state == EncoderState::TopOfSymbolLoop,
        ensures
            final(self).wf(),
            final(self).setup() == old(self).setup(),
            final(self).pending() == old(self).pending(),
            match r {
                None => {
                    if old(self).model().eof_reached {
                        final(self).model() == enc_step_to_after(old(self).model())
                    } else {
                        &&& old(self).model().pos < old(self).model().input.len()
                        &&& final(self).model() == enc_step_narrow(old(self).model())
                    }
                },
                Some(e) => {
                    &&& e == EncodeError::UnterminatedStream
                    &&& final(self).model() == old(self).model()
                    &&& !old(self).model().eof_reached
                    &&& old(self).model().pos == old(self).model().input.len()
                },
            },
    {
        let ghost m0 = self.model();
        if self.eof_reached {
            self.state = EncoderState::AfterSymbolLoop;
            proof {
                assert(self.model() =~= enc_step_to_after(m0));
            }
            return None;
        }
        if self.pos == self.input.len() {
            return Some(EncodeError::UnterminatedStream);
        }
        let symbol = self.input[self.pos];
        self.pos = self.pos + 1;
        let eof_symbol = self.alphabet.eof();
        if symbol.sym_eq(&eof_symbol) {
            self.eof_reached = true;
        }
        proof {
            let syms = self.alphabet.spec_symbols();
            lemma_symbol_index_in_range(syms, symbol);
            lemma_symbol_index_in_range(syms, self.alphabet.spec_eof());
            lemma_whole_parts(self.precision as nat);
            lemma_width_sum_bounds(
                self.alphabet.spec_widths(),
                0,
                self.alphabet.spec_widths().len() as int,
            );
        }
        self.set_a_and_b_for_symbol(&symbol);
        self.state = EncoderState::TopOfRescaleLoop;
        proof {
            lemma_enc_narrow_in_range(m0);
            assert(m0.input[m0.pos] == symbol_index(self.alphabet.spec_symbols(), symbol));
            assert(self.model() =~= enc_step_narrow(m0));
            assert((self.precision as int - 1) * (self.pos as int - 1) == (self.precision as int
                - 1) * (m0.pos)) by (nonlinear_arith)
                requires
                    self.pos as int == m0.pos + 1,
            ;
        }
        None
    }

    /// Perform "middle rescaling": while the interval straddles the midpoint
    /// within the middle half, double it about the midpoint and defer one
    /// more follow bit.
    fn perform_middle_rescaling(&mut self)
        requires
            old(self).wf_repr(),
            old(self).model().state == EncoderState::TopOfRescaleLoop,
            !(old(self).b < old(self).half),
            !(old(self).a > old(self).half),
            old(self).pos >= 1,
            old(self).s as int <= (old(self).precision as int - 1) * (old(self).pos as int - 1),
        ensures
            final(self).wf_repr(),
            final(self).setup() == old(self).setup(),
            final(self).pending() == old(self).pending(),
            final(self).model().state == EncoderState::TopOfRescaleLoop,
            final(self).model().pos == old(self).model().pos,
            final(self).model().eof_reached == old(self).model().eof_reached,
            enc_future(final(self).model()) == enc_future(old(self).model()),
            final(self).s as int <= old(self).s as int + (old(self).precision as int - 1),
            !(final(self).b < final(self).half),
            !(final(self).a > final(self).half),
            !(final(self).a > final(self).quarter && final(self).b < 3 * final(self).quarter),
            final(self).whole == old(self).whole,
            final(self).half == old(self).half,
            final(self).quarter == old(self).quarter,
            final(self).precision == old(self).precision,
    {
        let ghost m_entry = self.model();
        let ghost w0 = self.b as int - self.a as int;
        let ghost mut k: int = 0;
        proof {
            assert(pow2(0) == 1) by {
                vstd::arithmetic::power2::lemma2_to64();
            }
            assert(pow2(k as nat) == 1);
            assert(self.b as int - self.a as int == pow2(k as nat) * w0);
        }
        while self.a > self.quarter && self.b < 3 * self.quarter
            invariant
                self.wf_repr(),
                self.model().state == EncoderState::TopOfRescaleLoop,
                self.model() == (EncoderModel {
                    a: self.a as int,
                    b: self.b as int,
                    s: self.s as int,
                    ..m_entry
                }),
                self.whole == old(self).whole,
                self.half == old(self).half,
                self.quarter == old(self).quarter,
                self.precision == old(self).precision,
                self.pending_first == old(self).pending_first,
                self.pending_bit == old(self).pending_bit,
                self.pending_count == old(self).pending_count,
                self.alphabet == old(self).alphabet,
                self.input == old(self).input,
                !(self.b < self.half),
                !(self.a > self.half),
                0 <= k <= self.precision as int - 1,
                self.s as int == m_entry.s + k,
                self.b as int - self.a as int == pow2(k as nat) * w0,
                w0 >= 1,
                1 <= m_entry.pos,
                m_entry.s <= (self.precision as int - 1) * (m_entry.pos - 1),
                enc_future(self.model()) == enc_future(m_entry),
            decreases self.whole as int - (self.b as int - self.a as int),
        {
            let ghost m_prev = self.model();
            proof {
                lemma_enc_rescale_steps(m_prev);
                lemma_whole_parts(self.precision as nat);
                // The interval is still in the middle half, so fewer than
                // `precision - 1` doublings can have happened.
                let p2k = pow2(k as nat) as int;
                assert(p2k * 1 <= p2k * w0) by (nonlinear_arith)
                    requires
                        w0 >= 1,
                        p2k >= 0,
                ;
                assert((self.b as int - self.a as int) < (self.half as int));
                if k >= self.precision as int - 1 {
                    lemma_pow2_le((self.precision - 1) as nat, k as nat);
                    assert(false);
                }
                // Headroom for the increment of `s`: at most `precision - 1`
                // deferrals fit on top of the bound carried at entry.
                assert((self.precision as int - 1) * (m_entry.pos - 1) + (self.precision as int
                    - 1) == (self.precision as int - 1) * m_entry.pos) by (nonlinear_arith);
                assert((self.precision as int - 1) * m_entry.pos <= (self.precision as int + 1) * (
                self.input@.len() as int + 1)) by (nonlinear_arith)
                    requires
                        2 <= self.precision as int,
                        0 <= m_entry.pos <= self.input@.len() as int,
                ;
                assert(self.s as int + 1 <= usize::MAX as int);
            }
            self.s = self.s + 1;
            self.a = 2 * (self.a - self.quarter);
            self.b = 2 * (self.b - self.quarter);
            proof {
                k = k + 1;
                assert(self.model() =~= enc_step_middle(m_prev));
                lemma_pow2_adds(1, (k - 1) as nat);
                assert(pow2(1) == 2) by {
                    vstd::arithmetic::power2::lemma2_to64();
                }
                assert(2 * (pow2((k - 1) as nat) as int * w0) == (2 * pow2((k - 1) as nat) as int)
                    * w0) by (nonlinear_arith);
            }
        }
    }

    fn execute_top_of_rescale_loop(&mut self)
        requires
            old(self).wf(),
            old(self).model().state == EncoderState::TopOfRescaleLoop,
            old(self).pending().len() == 0,
        ensures
            final(self).wf(),
            final(self).setup() == old(self).setup(),
            final(self).remaining() == old(self).remaining(),
            ({
                let mnew = final(self).model();
                let mold = old(self).model();
                let pnew = final(self).pending();
                ||| (mnew.state == EncoderState::TopOfRescaleLoop && mnew.pos == mold.pos
                    && mnew.b - mnew.a == 2 * (mold.b - mold.a) && pnew.len() > 0)
                ||| (mnew.state == EncoderState::TopOfSymbolLoop && mnew.pos == mold.pos
                    && pnew.len() == 0)
            }),
    {
        let ghost m0 = self.model();
        proof {
            lemma_enc_rescale_steps(m0);
        }
        if self.b < self.half {
            self.pending_first = Some(Bit::Zero);
            self.pending_bit = Bit::One;
            self.pending_count = self.s;
            self.s = 0;
            self.a = self.a * 2;
            self.b = self.b * 2;
            proof {
                assert(self.model() =~= enc_step_side_lo(m0));
                assert(self.pending() =~= emit_run(Bit::Zero, m0.s));
                assert(self.remaining().bits =~= old(self).remaining().bits);
                assert(self.remaining() =~= old(self).remaining());
            }
        } else if self.a > self.half {
            self.pending_first = Some(Bit::One);
            self.pending_bit = Bit::Zero;
            self.pending_count = self.s;
            self.s = 0;
            self.a = 2 * (self.a - self.half);
            self.b = 2 * (self.b - self.half);
            proof {
                assert(self.model() =~= enc_step_side_hi(m0));
                assert(self.pending() =~= emit_run(Bit::One, m0.s));
                assert(self.remaining().bits =~= old(self).remaining().bits);
                assert(self.remaining() =~= old(self).remaining());
            }
        } else {
            self.perform_middle_rescaling();
            let ghost m1 = self.model();
            self.state = EncoderState::TopOfSymbolLoop;
            proof {
                lemma_enc_rescale_steps(m1);
                assert(self.model() =~= enc_step_exit_rescale(m1));
                assert(enc_future(m1) == enc_future(self.model()));
                assert(self.remaining() =~= old(self).remaining());
                assert((self.precision as int - 1) * (self.pos as int - 1) + (
                self.precision as int - 1) == (self.precision as int - 1) * self.pos as int) by (
                nonlinear_arith);
            }
        }
    }

    fn execute_after_symbol_loop(&mut self)
        requires
            old(self).wf(),
            old(self).model().state == EncoderState::AfterSymbolLoop,
            old(self).pending().len() == 0,
        ensures
            final(self).wf(),
            final(self).setup() == old(self).setup(),
            final(self).remaining() == old(self).remaining(),
            final(self).model().state == EncoderState::Final,
            final(self).model().pos == old(self).model().pos,
            final(self).pending().len() > 0,
    {
        let ghost m0 = self.model();
        proof {
            assert((self.precision as int - 1) * self.pos as int + 1 <= (self.precision as int + 1)
                * (self.input@.len() as int + 1)) by (nonlinear_arith)
                requires
                    2 <= self.precision as int,
                    0 <= self.pos as int <= self.input@.len() as int,
            ;
        }
        self.s = self.s + 1;
        if self.a <= self.quarter {
            self.pending_first = Some(Bit::Zero);
            self.pending_bit = Bit::One;
            self.pending_count = self.s;
        } else {
            self.pending_first = Some(Bit::One);
            self.pending_bit = Bit::Zero;
            self.pending_count = self.s;
        }
        self.state = EncoderState::Final;
        proof {
            let lead = if m0.a <= m0.quarter() {
                Bit::Zero
            } else {
                Bit::One
            };
            assert(self.pending() =~= emit_run(lead, m0.s + 1));
            assert(self.remaining().bits =~= old(self).remaining().bits);
            assert(self.remaining() =~= old(self).remaining());
        }
    }

    /// Determine the next bit in the encoded output. `None` indicates the
    /// end of the output; an `Err` item reports that the input ended before
    /// the terminator symbol (after which the same error repeats).
    pub fn next_bit(&mut self) -> (r: Option<Result<Bit, EncodeError>>)
        requires
            old(self).wf(),
        ensures
            final(self).wf(),
            final(self).setup() == old(self).setup(),
            match r {
                None => {
                    &&& old(self).remaining().bits.len() == 0
                    &&& old(self).remaining().ok
                    &&& final(self).remaining() == old(self).remaining()
                },
                Some(item) => match item {
                    Ok(bitv) => {
                        &&& old(self).remaining().bits.len() > 0
                        &&& bitv == old(self).remaining().bits[0]
                        &&& final(self).remaining().bits == old(self).remaining().bits.skip(1)
                        &&& final(self).remaining().ok == old(self).remaining().ok
                    },
                    Err(e) => {
                        &&& e == EncodeError::UnterminatedStream
                        &&& old(self).remaining().bits.len() == 0
                        &&& !old(self).remaining().ok
                        &&& final(self).remaining() == old(self).remaining()
                    },
                },
            },
    {
        loop
            invariant
                self.wf(),
                self.setup() == old(self).setup(),
                self.remaining() == old(self).remaining(),
            decreases
                self.model().input.len() - self.model().pos,
                enc_rank(self.model().state),
                self.model().whole() + 1 - (self.model().b - self.model().a),
        {
            if let Some(x) = self.pending_first {
                let ghost pend0 = self.pending();
                self.pending_first = None;
                proof {
                    assert(pend0[0] == x);
                    assert(self.pending() =~= pend0.skip(1));
                    assert(self.remaining().bits =~= old(self).remaining().bits.skip(1));
                }
                return Some(Ok(x));
            }
            if self.pending_count > 0 {
                let x = self.pending_bit;
                let ghost pend0 = self.pending();
                self.pending_count = self.pending_count - 1;
                proof {
                    assert(pend0[0] == x);
                    assert(self.pending() =~= pend0.skip(1));
                    assert(self.remaining().bits =~= old(self).remaining().bits.skip(1));
                }
                return Some(Ok(x));
            }
            proof {
                assert(self.pending() =~= Seq::<Bit>::empty());
                assert(self.remaining().bits =~= enc_future(self.model()).bits);
            }
            match self.state {
                EncoderState::Final => {
                    return None;
                },
                EncoderState::Initial => {
                    let ghost m0 = self.model();
                    self.execute_initial();
                    proof {
                        assert(enc_future(m0) == enc_future(self.model()));
                        assert(self.remaining() =~= old(self).remaining());
                    }
                },
                EncoderState::TopOfSymbolLoop => {
                    let ghost m0 = self.model();
                    if let Some(e) = self.execute_top_of_symbol_loop() {
                        proof {
                            assert(enc_future(m0).bits =~= Seq::<Bit>::empty());
                            assert(!enc_future(m0).ok);
                        }
                        return Some(Err(e));
                    }
                    proof {
                        assert(enc_future(m0) == enc_future(self.model()));
                        assert(self.remaining() =~= old(self).remaining());
                    }
                },
                EncoderState::TopOfRescaleLoop => {
                    self.execute_top_of_rescale_loop();
                },
                EncoderState::AfterSymbolLoop => {
                    self.execute_after_symbol_loop();
                },
            }
        }
    }
}

/// Encodes symbol streams over this alphabet.
pub trait Encoder: Alphabet + Sized {
    /// Encode a stream of symbols as a stream of bits.
    ///
    /// The input stream must consist of symbols from the alphabet. The
    /// returned machine encodes a single message from the stream (the
    /// symbols up to and including the EOF symbol).
    fn encode(&self, input: Vec<Self::S>, precision: usize) -> (r: EncoderOutput<'_, Self>)
        requires
            wf_alphabet(self),
            forall|i: int|
                0 <= i < input@.len() ==> self.spec_symbols().contains(#[trigger] input@[i]),
            2 <= precision,
            4 * total_width(self.spec_widths()) <= pow2(precision as nat),
            pow2(precision as nat) * total_width(self.spec_widths()) <= usize::MAX,
            (precision as int + 1) * (input@.len() as int + 1) <= usize::MAX,
        ensures
            r.wf(),
            r.remaining() == encode_outcome_of(self, input@, precision as nat),
            r.spec_alphabet() == *self,
            r.spec_input() == input@,
            r.spec_precision() == precision as nat,
    ;
}

impl<A: Alphabet> Encoder for A {
    fn encode(&self, input: Vec<A::S>, precision: usize) -> (r: EncoderOutput<'_, A>) {
        EncoderOutput::new(input, self, precision)
    }
}

} // verus!
