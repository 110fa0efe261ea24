//! What a draw makes of a coefficient: the draw's residue, uniform over the
//! non-zero elements.

use super::weighted::{byte_of, drawn_element, drawn_elements, element_of_draw};
use super::{NeighborGen, WeightedUniform, WeightedWindowedUniform};
use crate::degree::DegreeDistribution;
use crate::field::{Field, FieldKernels, Gf16, Gf8};
use crate::id::CheckId;
use crate::rng;
use crate::sampling::{state_after, state_after_adds, state_after_first};
use crate::weight::Weighted;
use vstd::arithmetic::power::pow;
use vstd::prelude::*;

verus! {

/// The number that bytes stand for, the least significant first.
pub open spec fn number_of(bytes: Seq<u8>) -> nat
    decreases bytes.len(),
{
    if bytes.len() == 0 {
        0
    } else {
        bytes[0] as nat + 256 * number_of(bytes.drop_first())
    }
}

/// A number of `n` bytes is below `256^n`.
proof fn number_is_bounded(bytes: Seq<u8>)
    ensures
        number_of(bytes) < pow(256, bytes.len()),
        pow(256, bytes.len()) > 0,
    decreases bytes.len(),
{
    reveal(pow);
    if bytes.len() > 0 {
        number_is_bounded(bytes.drop_first());
    }
}

/// Byte strings of one length that stand for the same number are the same.
proof fn number_tells_bytes(a: Seq<u8>, b: Seq<u8>)
    requires
        a.len() == b.len(),
        number_of(a) == number_of(b),
    ensures
        a == b,
    decreases a.len(),
{
    if a.len() > 0 {
        number_tells_bytes(a.drop_first(), b.drop_first());
        assert forall|i: int| 0 <= i < a.len() implies a[i] == b[i] by {
            if i > 0 {
                assert(a[i] == a.drop_first()[i - 1]);
                assert(b[i] == b.drop_first()[i - 1]);
            }
        }
        assert(a =~= b);
    } else {
        assert(a =~= b);
    }
}

/// Bytes that are the base-256 digits of a number stand for its residue.
proof fn digits_give_residue(bytes: Seq<u8>, value: nat)
    requires
        forall|i: int|
            0 <= i < bytes.len() ==> #[trigger] bytes[i] as int == (value as int / pow(
                256,
                i as nat,
            )) % 256,
    ensures
        pow(256, bytes.len()) > 0,
        number_of(bytes) as int == value as int % pow(256, bytes.len()),
    decreases bytes.len(),
{
    reveal(pow);
    number_is_bounded(bytes);
    if bytes.len() > 0 {
        let rest = bytes.drop_first();
        let above = (value / 256) as nat;
        assert(bytes[0] as int == (value as int / pow(256, 0)) % 256);
        assert forall|i: int| 0 <= i < rest.len() implies #[trigger] rest[i] as int == (
        above as int / pow(256, i as nat)) % 256 by {
            assert(bytes[i + 1] == rest[i]);
            let place = pow(256, i as nat);
            vstd::arithmetic::power::lemma_pow_positive(256, i as nat);
            assert(pow(256, (i + 1) as nat) == 256 * place);
            vstd::arithmetic::div_mod::lemma_div_denominator(value as int, 256, place);
        }
        digits_give_residue(rest, above);
        let modulus = pow(256, rest.len());
        let low = (value % 256) as int;
        let high = above as int % modulus;
        let quotient = above as int / modulus;
        assert(pow(256, bytes.len()) == 256 * modulus);
        vstd::arithmetic::div_mod::lemma_fundamental_div_mod(above as int, modulus);
        assert(value as int == quotient * (256 * modulus) + (low + 256 * high))
            by (nonlinear_arith)
            requires
                value as int == 256 * (above as int) + low,
                above as int == modulus * quotient + high,
        ;
        vstd::arithmetic::div_mod::lemma_fundamental_div_mod_converse(
            value as int,
            256 * modulus,
            quotient,
            low + 256 * high,
        );
    } else {
        vstd::arithmetic::div_mod::lemma_mod_self_0(1);
    }
}

/// One byte of a word is its base-256 digit in that place.
proof fn byte_is_digit(word: u64, i: nat)
    requires
        i < 8,
    ensures
        byte_of(word, i as int) as int == (word as int / pow(256, i)) % 256,
{
    let shift = (8 * i) as u64;
    let shifted = word >> shift;
    vstd::bits::lemma_u64_shr_is_div(word, shift);
    assert(shifted as u8 as u64 == shifted % 256) by (bit_vector);
    vstd::arithmetic::power2::lemma_pow2(8);
    vstd::arithmetic::power2::lemma_pow2(8 * i);
    vstd::arithmetic::power::lemma_pow_multiplies(2, 8, i);
    vstd::arithmetic::power2::lemma2_to64();
}

/// The bytes of a draw's element are the draw's low bytes, each in its place: the
/// first is the draw modulo 256, and byte `i` is what is left of the draw after
/// `i` divisions by 256, modulo 256.
pub proof fn element_holds_the_low_bytes<F: FieldKernels>(draw: u64)
    ensures
        F::encoding(element_of_draw::<F>(draw)).len() == F::BYTES,
        forall|i: int|
            0 <= i < F::BYTES ==> #[trigger] F::encoding(element_of_draw::<F>(draw))[i] as int == (
            draw as int / pow(256, i as nat)) % 256,
{
    let bytes = Seq::new(F::BYTES as nat, |i: int| byte_of(draw, i));
    F::codec_laws(element_of_draw::<F>(draw), F::nought(), bytes);
    assert forall|i: int| 0 <= i < F::BYTES implies #[trigger] F::encoding(
        element_of_draw::<F>(draw),
    )[i] as int == (draw as int / pow(256, i as nat)) % 256 by {
        byte_is_digit(draw, i as nat);
    }
}

/// The element of a draw is the draw modulo `256^BYTES`: that residue is the
/// number its encoding stands for.
pub proof fn element_is_the_residue<F: FieldKernels>(draw: u64)
    ensures
        pow(256, F::BYTES as nat) > 0,
        number_of(F::encoding(element_of_draw::<F>(draw))) as int == draw as int % pow(
            256,
            F::BYTES as nat,
        ),
{
    element_holds_the_low_bytes::<F>(draw);
    digits_give_residue(F::encoding(element_of_draw::<F>(draw)), draw as nat);
}

/// The residues are all drawn: `256^BYTES` divides the number of draws.
proof fn residues_divide_draws(bytes: nat)
    requires
        1 <= bytes <= 8,
    ensures
        pow(256, bytes) > 0,
        pow(256, (8 - bytes) as nat) > 0,
        pow(256, bytes) * pow(256, (8 - bytes) as nat) == u64::MAX + 1,
{
    vstd::arithmetic::power::lemma_pow_positive(256, bytes);
    vstd::arithmetic::power::lemma_pow_positive(256, (8 - bytes) as nat);
    vstd::arithmetic::power::lemma_pow_adds(256, bytes, (8 - bytes) as nat);
    assert(pow(256, 8) == 0x1_0000_0000_0000_0000) by {
        reveal_with_fuel(pow, 9);
    }
}

/// A draw gives an element exactly when its residue is the element's number, and
/// some draw gives every element.
pub proof fn draws_of_an_element<F: FieldKernels>(element: F::Elem, draw: u64)
    ensures
        element_of_draw::<F>(draw) == element <==> draw as int % pow(256, F::BYTES as nat)
            == number_of(F::encoding(element)),
        number_of(F::encoding(element)) < pow(256, F::BYTES as nat) <= u64::MAX + 1,
        element_of_draw::<F>(number_of(F::encoding(element)) as u64) == element,
{
    let modulus = pow(256, F::BYTES as nat);
    let number = number_of(F::encoding(element));
    F::codec_laws(element, element, Seq::empty());
    number_is_bounded(F::encoding(element));
    residues_divide_draws(F::BYTES as nat);
    let rest = pow(256, (8 - F::BYTES) as nat);
    assert(modulus <= modulus * rest) by (nonlinear_arith)
        requires
            modulus > 0,
            rest > 0,
    ;
    same_element::<F>(element, draw);
    vstd::arithmetic::div_mod::lemma_small_mod(number, modulus as nat);
    same_element::<F>(element, number as u64);
}

proof fn same_element<F: FieldKernels>(element: F::Elem, draw: u64)
    ensures
        element_of_draw::<F>(draw) == element <==> draw as int % pow(256, F::BYTES as nat)
            == number_of(F::encoding(element)),
{
    let drawn = element_of_draw::<F>(draw);
    element_is_the_residue::<F>(draw);
    F::codec_laws(element, drawn, Seq::empty());
    F::codec_laws(drawn, element, Seq::empty());
    if number_of(F::encoding(drawn)) == number_of(F::encoding(element)) {
        number_tells_bytes(F::encoding(drawn), F::encoding(element));
    }
}

/// The draws that give an element.
pub open spec fn draws_giving<F: FieldKernels>(element: F::Elem) -> Set<int> {
    Set::new(|draw: int| 0 <= draw <= u64::MAX && element_of_draw::<F>(draw as u64) == element)
}

/// Every element has equally many draws, one in `256^BYTES` of all: a coefficient,
/// drawn until it is not zero, is uniform over the non-zero elements.
pub proof fn draws_are_shared_evenly<F: FieldKernels>(element: F::Elem)
    ensures
        draws_giving::<F>(element).finite(),
        draws_giving::<F>(element).len() * pow(256, F::BYTES as nat) == u64::MAX + 1,
{
    let modulus = pow(256, F::BYTES as nat);
    let number = number_of(F::encoding(element)) as int;
    F::codec_laws(element, element, Seq::empty());
    residues_divide_draws(F::BYTES as nat);
    let shares = pow(256, (8 - F::BYTES) as nat);
    draws_of_an_element::<F>(element, 0);
    let turns = vstd::set_lib::set_int_range(0, shares);
    let nth = |turn: int| turn * modulus + number;
    let given = draws_giving::<F>(element);
    assert forall|turn: int| turns.contains(turn) implies given.contains(nth(turn)) by {
        assert(0 <= turn * modulus && (turn + 1) * modulus <= shares * modulus && (turn + 1)
            * modulus == turn * modulus + modulus && shares * modulus == modulus * shares)
            by (nonlinear_arith)
            requires
                0 <= turn < shares,
                modulus > 0,
        ;
        let draw = nth(turn) as u64;
        draws_of_an_element::<F>(element, draw);
        vstd::arithmetic::div_mod::lemma_fundamental_div_mod_converse(
            nth(turn),
            modulus,
            turn,
            number,
        );
    }
    assert forall|draw: int| given.contains(draw) implies turns.contains(draw / modulus) && nth(
        draw / modulus,
    ) == draw by {
        draws_of_an_element::<F>(element, draw as u64);
        vstd::arithmetic::div_mod::lemma_fundamental_div_mod(draw, modulus);
        let turn = draw / modulus;
        assert(draw == turn * modulus + number) by (nonlinear_arith)
            requires
                draw == modulus * turn + number,
        ;
        assert(0 <= turn < shares) by (nonlinear_arith)
            requires
                draw == turn * modulus + number,
                0 <= number < modulus,
                0 <= draw < modulus * shares,
                modulus > 0,
        ;
    }
    assert(turns.map(nth) =~= given) by {
        assert forall|draw: int| given.contains(draw) implies turns.map(nth).contains(draw) by {
            let turn = draw / modulus;
            assert(turns.contains(turn) && nth(turn) == draw);
        }
    }
    assert(vstd::relations::injective_on(nth, turns)) by {
        assert forall|a: int, b: int|
            turns.contains(a) && turns.contains(b) && #[trigger] nth(a) == #[trigger] nth(
                b,
            ) implies a == b by {
            assert(a == b) by (nonlinear_arith)
                requires
                    a * modulus + number == b * modulus + number,
                    modulus > 0,
            ;
        }
    }
    vstd::set_lib::lemma_int_range(0, shares);
    vstd::set_lib::lemma_map_size(turns, given, nth);
    assert(shares * modulus == modulus * shares) by (nonlinear_arith);
}

/// The elements of the first `count` draws from `state`, zeros among them.
pub open spec fn candidates<F: FieldKernels>(state: u64, count: nat) -> Seq<F::Elem> {
    Seq::new(count, |i: int| element_of_draw::<F>(rng::mix(state_after(state, (i + 1) as nat))))
}

/// A drawn element is the first candidate that is not zero, and the generator
/// stands right after it: no draw is passed over, and none is made beyond it.
pub proof fn first_nonzero_candidate_is_drawn<F: FieldKernels>(state: u64) -> (count: nat)
    ensures
        count >= 1,
        drawn_element::<F>(state).1 == state_after(state, count),
        drawn_element::<F>(state).0 == candidates::<F>(state, count)[count - 1],
        drawn_element::<F>(state).0 != F::nought(),
        forall|i: int|
            0 <= i < count - 1 ==> #[trigger] candidates::<F>(state, count)[i] == F::nought(),
    decreases rng::draws_to_pivot(rng::next_state(state)),
{
    let next = rng::next_state(state);
    assert(state_after(state, 0) == state);
    assert(state_after(state, 1) == next);
    super::weighted::drawn_element_is_nonzero::<F>(state);
    if element_of_draw::<F>(rng::mix(next)) == F::nought() {
        super::weighted::zero_draw_approaches_pivot::<F>(state);
        let later = first_nonzero_candidate_is_drawn::<F>(next);
        state_after_first(state, later);
        let all = candidates::<F>(state, later + 1);
        let rest = candidates::<F>(next, later);
        assert forall|i: int| 1 <= i <= later implies #[trigger] all[i] == rest[i - 1] by {
            state_after_first(state, i as nat);
        }
        later + 1
    } else {
        1
    }
}

/// The coefficients of a check are the candidates that are not zero, all of them
/// and in the order of the draws, up to the last one needed.
pub proof fn nonzero_candidates_are_drawn<F: FieldKernels>(state: u64, count: nat) -> (draws: nat)
    ensures
        drawn_elements::<F>(state, count).1 == state_after(state, draws),
        drawn_elements::<F>(state, count).0 == candidates::<F>(state, draws).filter(
            |element: F::Elem| element != F::nought(),
        ),
        drawn_elements::<F>(state, count).0.len() == count,
        count == 0 ==> draws == 0,
        count > 0 ==> draws > 0 && candidates::<F>(state, draws)[draws - 1] != F::nought(),
    decreases count,
{
    let kept = |element: F::Elem| element != F::nought();
    if count == 0 {
        assert(candidates::<F>(state, 0) =~= Seq::empty());
        reveal(Seq::filter);
        assert(candidates::<F>(state, 0).filter(kept) =~= Seq::empty());
        0
    } else {
        let before = nonzero_candidates_are_drawn::<F>(state, (count - 1) as nat);
        let at = state_after(state, before);
        let more = first_nonzero_candidate_is_drawn::<F>(at);
        state_after_adds(state, before, more);
        let all = candidates::<F>(state, before + more);
        let first = candidates::<F>(state, before);
        let last = candidates::<F>(at, more);
        assert(all =~= first + last) by {
            assert forall|i: int| before <= i < before + more implies #[trigger] all[i] == last[i
                - before] by {
                state_after_adds(state, before, (i - before + 1) as nat);
            }
        }
        Seq::filter_distributes_over_add(first, last, kept);
        assert(last =~= last.drop_last().push(last.last()));
        only_the_last_is_kept(last, kept);
        assert(first.filter(kept) + last.filter(kept) =~= first.filter(kept).push(last.last()));
        before + more
    }
}

proof fn only_the_last_is_kept<A>(items: Seq<A>, kept: spec_fn(A) -> bool)
    requires
        items.len() > 0,
        kept(items.last()),
        forall|i: int| 0 <= i < items.len() - 1 ==> !kept(#[trigger] items[i]),
    ensures
        items.filter(kept) == seq![items.last()],
{
    reveal(Seq::filter);
    none_is_kept(items.drop_last(), kept);
    assert(items.filter(kept) =~= seq![items.last()]);
}

proof fn none_is_kept<A>(items: Seq<A>, kept: spec_fn(A) -> bool)
    requires
        forall|i: int| 0 <= i < items.len() ==> !kept(#[trigger] items[i]),
    ensures
        items.filter(kept) == Seq::<A>::empty(),
    decreases items.len(),
{
    reveal(Seq::filter);
    if items.len() > 0 {
        assert(!kept(items.last()));
        none_is_kept(items.drop_last(), kept);
    }
}

/// The coefficients of a check are the non-zero elements drawn from the stream of
/// its number and the weights' separator, in the order of the draws: one for each
/// variable, whatever the variables are.
pub proof fn coefficients_come_in_draw_order<F: FieldKernels, D: DegreeDistribution>(
    generator: WeightedWindowedUniform<F, D>,
    id: CheckId,
) -> (draws: nat)
    ensures
        ({
            let drawn = candidates::<F>(id.0 ^ generator.weight_separator(), draws).filter(
                |element: F::Elem| element != F::nought(),
            );
            match generator.edges_of(id) {
                Ok((support, weights)) => {
                    &&& weights.len() == support.len()
                    &&& drawn.len() == weights.len()
                    &&& forall|i: int|
                        0 <= i < weights.len() ==> weights[i] == Weighted::<F>::of(
                            #[trigger] drawn[i],
                        )
                },
                Err(_) => false,
            }
        }),
{
    let offsets = super::uniform::seeded_offsets(
        generator.distribution(),
        id.0 ^ generator.separator(),
        generator.width(),
        generator.cap(),
    );
    nonzero_candidates_are_drawn::<F>(id.0 ^ generator.weight_separator(), offsets.len())
}

/// The same over a fixed block.
pub proof fn block_coefficients_come_in_draw_order<F: FieldKernels, D: DegreeDistribution>(
    generator: WeightedUniform<F, D>,
    id: CheckId,
) -> (draws: nat)
    ensures
        ({
            let drawn = candidates::<F>(id.0 ^ generator.weight_separator(), draws).filter(
                |element: F::Elem| element != F::nought(),
            );
            match generator.edges_of(id) {
                Ok((support, weights)) => {
                    &&& weights.len() == support.len()
                    &&& drawn.len() == weights.len()
                    &&& forall|i: int|
                        0 <= i < weights.len() ==> weights[i] == Weighted::<F>::of(
                            #[trigger] drawn[i],
                        )
                },
                Err(_) => false,
            }
        }),
{
    let offsets = super::uniform::seeded_offsets(
        generator.distribution(),
        id.0 ^ generator.separator(),
        generator.block(),
        generator.cap(),
    );
    nonzero_candidates_are_drawn::<F>(id.0 ^ generator.weight_separator(), offsets.len())
}

/// Elements are encoded little-endian: the encoding stands for the element's own
/// number, in both fields.
pub proof fn encodings_are_little_endian(byte: u8, word: u16)
    ensures
        number_of(Gf8::encoding(byte)) == byte,
        number_of(Gf16::encoding(word)) == word,
{
    reveal_with_fuel(number_of, 3);
    let one = Gf8::encoding(byte);
    assert(one.drop_first() =~= Seq::empty());
    let two = Gf16::encoding(word);
    assert(two.drop_first().drop_first() =~= Seq::empty());
    assert((word & 0xFF) as u8 + 256 * ((word >> 8u16) as u8) == word && word as u8 + 256 * ((word
        >> 8u16) as u8) == word && (word % 256) as u8 + 256 * ((word / 256) as u8) == word)
        by (bit_vector);
}

} // verus!
