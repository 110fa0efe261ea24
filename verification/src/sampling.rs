//! What the samplers draw: the first draw that is accepted, and every subset
//! equally often.

use crate::rng::{below, floyd, mix, next_state, reduce_draw};
use vstd::prelude::*;

verus! {

/// The generator state after `count` draws from `state`.
pub open spec fn state_after(state: u64, count: nat) -> u64
    decreases count,
{
    if count == 0 {
        state
    } else {
        next_state(state_after(state, (count - 1) as nat))
    }
}

/// The output of draw number `i` from `state`, counted from one.
pub open spec fn draw_number(state: u64, i: nat) -> u64 {
    mix(state_after(state, i))
}

pub proof fn state_after_first(state: u64, count: nat)
    ensures
        state_after(next_state(state), count) == state_after(state, count + 1),
    decreases count,
{
    if count > 0 {
        state_after_first(state, (count - 1) as nat);
    } else {
        assert(state_after(state, 0) == state);
    }
}

pub proof fn state_after_adds(state: u64, first: nat, more: nat)
    ensures
        state_after(state, first + more) == state_after(state_after(state, first), more),
    decreases more,
{
    if more > 0 {
        state_after_adds(state, first, (more - 1) as nat);
    }
}

/// A value below a bound comes from the first draw that the reduction accepts, and
/// the generator stands right after it.
pub proof fn first_accepted_draw_is_taken(state: u64, bound: u32) -> (count: nat)
    requires
        bound > 0,
    ensures
        count >= 1,
        below(state, bound).1 == state_after(state, count),
        reduce_draw(draw_number(state, count), bound) == Some(below(state, bound).0 as nat),
        forall|i: nat|
            1 <= i < count ==> reduce_draw(#[trigger] draw_number(state, i), bound) is None,
    decreases crate::rng::draws_to_pivot(next_state(state)),
{
    let next = next_state(state);
    assert(state_after(state, 0) == state);
    assert(state_after(state, 1) == next);
    crate::rng::reduced_draw_is_small(mix(next), bound);
    if reduce_draw(mix(next), bound) is None {
        crate::rng::rejected_draw_approaches_pivot(state, bound);
        let later = first_accepted_draw_is_taken(next, bound);
        state_after_first(state, later);
        assert forall|i: nat| 1 <= i < later + 1 implies reduce_draw(
            #[trigger] draw_number(state, i),
            bound,
        ) is None by {
            if i > 1 {
                let less = (i - 1) as nat;
                state_after_first(state, less);
                assert(draw_number(next, less) == draw_number(state, i));
            }
        }
        later + 1
    } else {
        1
    }
}

/// What a sequence of values picks out, one at a time: each value itself, or the
/// end of its range when the value is taken already. Value number `i` ranges over
/// `0..=first + i`.
pub open spec fn picked(first: int, values: Seq<int>) -> Seq<int>
    decreases values.len(),
{
    if values.len() == 0 {
        Seq::empty()
    } else {
        let prior = picked(first, values.drop_last());
        let value = values.last();
        prior.push(
            if prior.contains(value) {
                first + values.len() - 1
            } else {
                value
            },
        )
    }
}

/// Whether every value is in its range.
pub open spec fn in_range(first: int, values: Seq<int>) -> bool {
    forall|i: int| 0 <= i < values.len() ==> 0 <= #[trigger] values[i] <= first + i
}

/// Whether values are drawn one after the other from a generator that passes
/// through these states.
pub open spec fn drawn_in_turn(states: Seq<u64>, first: int, values: Seq<int>) -> bool {
    &&& states.len() == values.len() + 1
    &&& forall|i: int|
        0 <= i < values.len() ==> below(states[i], (first + i + 1) as u32) == (
            (#[trigger] values[i]) as u32,
            states[i + 1],
        )
}

/// The offsets are what the drawn values pick out: each one drawn uniformly from
/// its range, from one generator and in turn.
pub proof fn offsets_are_picked_by_draws(state: u64, span: u32, count: nat, taken: nat) -> (draws: (
    Seq<int>,
    Seq<u64>,
))
    requires
        taken <= count <= span,
    ensures
        draws.0.len() == taken,
        in_range(span - count, draws.0),
        drawn_in_turn(draws.1, span - count, draws.0),
        draws.1[0] == state,
        draws.1.last() == floyd(state, span as nat, count, taken).1,
        floyd(state, span as nat, count, taken).0.map_values(|offset: u32| offset as int) == picked(
            span - count,
            draws.0,
        ),
    decreases taken,
{
    let first = span - count;
    let widen = |offset: u32| offset as int;
    if taken == 0 {
        assert(floyd(state, span as nat, count, 0).0.map_values(widen) =~= picked(
            first,
            Seq::empty(),
        ));
        (Seq::empty(), seq![state])
    } else {
        let less = (taken - 1) as nat;
        let (before, passed) = offsets_are_picked_by_draws(state, span, count, less);
        let (prior, at) = floyd(state, span as nat, count, less);
        let top = first + less;
        let (value, after) = below(at, (top + 1) as u32);
        crate::rng::below_in_range(at, (top + 1) as u32);
        let values = before.push(value as int);
        let states = passed.push(after);
        assert(values.drop_last() =~= before);
        let wide = prior.map_values(widen);
        assert(wide.contains(value as int) <==> prior.contains(value)) by {
            if prior.contains(value) {
                let i = choose|i: int| 0 <= i < prior.len() && prior[i] == value;
                assert(wide[i] == value as int);
            }
            if wide.contains(value as int) {
                let i = choose|i: int| 0 <= i < wide.len() && wide[i] == value as int;
                assert(prior[i] == value);
            }
        }
        assert(floyd(state, span as nat, count, taken).0.map_values(widen) =~= picked(
            first,
            values,
        ));
        assert forall|i: int| 0 <= i < values.len() implies below(
            states[i],
            (first + i + 1) as u32,
        ) == ((#[trigger] values[i]) as u32, states[i + 1]) by {
            if i < less {
                assert(before[i] == values[i]);
                assert(states[i] == passed[i] && states[i + 1] == passed[i + 1]);
            }
        }
        (values, states)
    }
}

/// What is picked out is distinct and in range, as many as there are values.
pub proof fn picked_are_distinct(first: int, values: Seq<int>)
    requires
        first >= 0,
        in_range(first, values),
    ensures
        picked(first, values).len() == values.len(),
        picked(first, values).no_duplicates(),
        forall|i: int| 0 <= i < values.len() ==> 0 <= #[trigger] picked(first, values)[i] <= first + i,
    decreases values.len(),
{
    if values.len() > 0 {
        let front = values.drop_last();
        assert forall|i: int| 0 <= i < front.len() implies 0 <= #[trigger] front[i] <= first
            + i by {
            assert(front[i] == values[i]);
        }
        picked_are_distinct(first, front);
        assert(values.last() == values[values.len() - 1]);
    }
}

/// The number of orders of `n` things.
pub open spec fn factorial(n: nat) -> nat
    decreases n,
{
    if n == 0 {
        1
    } else {
        n * factorial((n - 1) as nat)
    }
}

/// The sequences of `n` values, each in its range, that pick out a set.
pub open spec fn ways(first: int, n: nat, set: Set<int>) -> Set<Seq<int>> {
    Set::new(
        |values: Seq<int>|
            values.len() == n && in_range(first, values) && picked(first, values).to_set() == set,
    )
}

/// The set that is picked before the last value.
spec fn before_last(first: int, n: nat, set: Set<int>, value: int) -> Set<int> {
    let top = first + n - 1;
    if set.contains(top) {
        set.remove(top)
    } else {
        set.remove(value)
    }
}

/// The sequences whose last value is one of `lasts` and whose others pick out what
/// is left.
spec fn ways_ending(first: int, n: nat, set: Set<int>, lasts: Set<int>) -> Set<Seq<int>> {
    Set::new(
        |values: Seq<int>|
            values.len() == n && lasts.contains(values.last()) && ways(
                first,
                (n - 1) as nat,
                before_last(first, n, set, values.last()),
            ).contains(values.drop_last()),
    )
}

proof fn pushed_set(items: Seq<int>, item: int)
    ensures
        items.push(item).to_set() == items.to_set().insert(item),
{
    let pushed = items.push(item);
    assert forall|x: int| pushed.to_set().contains(x) <==> items.to_set().insert(item).contains(
        x,
    ) by {
        if items.contains(x) {
            let i = choose|i: int| 0 <= i < items.len() && items[i] == x;
            assert(pushed[i] == x);
        }
        if x == item {
            assert(pushed[items.len() as int] == x);
        }
        if pushed.contains(x) {
            let i = choose|i: int| 0 <= i < pushed.len() && pushed[i] == x;
            if i < items.len() {
                assert(items[i] == x);
            }
        }
    }
    assert(pushed.to_set() =~= items.to_set().insert(item));
}

proof fn ways_by_last_value(first: int, n: nat, set: Set<int>)
    requires
        first >= 0,
        n > 0,
        set.finite(),
        set.len() == n,
        forall|x: int| #[trigger] set.contains(x) ==> 0 <= x < first + n,
    ensures
        ways(first, n, set) == ways_ending(first, n, set, set),
{
    let top = first + n - 1;
    let less = (n - 1) as nat;
    assert forall|values: Seq<int>| ways(first, n, set).contains(values) implies ways_ending(
        first,
        n,
        set,
        set,
    ).contains(values) by {
        let front = values.drop_last();
        let last = values.last();
        let prior = picked(first, front);
        assert(in_range(first, front)) by {
            assert forall|i: int| 0 <= i < front.len() implies 0 <= #[trigger] front[i] <= first
                + i by {
                assert(front[i] == values[i]);
            }
        }
        assert(last == values[n - 1]);
        picked_are_distinct(first, front);
        let item = if prior.contains(last) {
            top
        } else {
            last
        };
        pushed_set(prior, item);
        assert(picked(first, values) == prior.push(item));
        assert(set.contains(item));
        assert(!prior.contains(top)) by {
            if prior.contains(top) {
                let i = choose|i: int| 0 <= i < prior.len() && prior[i] == top;
                assert(prior[i] <= first + i);
            }
        }
        if prior.contains(last) {
            assert(prior.to_set().contains(last));
            assert(set.contains(last));
        }
        assert(before_last(first, n, set, last) =~= prior.to_set()) by {
            assert(!prior.to_set().contains(item));
            if set.contains(top) {
                assert(item == top) by {
                    if item != top {
                        assert(prior.to_set().contains(top));
                    }
                }
            }
        }
    }
    assert forall|values: Seq<int>| ways_ending(first, n, set, set).contains(values) implies ways(
        first,
        n,
        set,
    ).contains(values) by {
        let front = values.drop_last();
        let last = values.last();
        let prior = picked(first, front);
        let rest = before_last(first, n, set, last);
        assert(prior.to_set() == rest);
        let item = if prior.contains(last) {
            top
        } else {
            last
        };
        pushed_set(prior, item);
        assert(prior.contains(last) <==> rest.contains(last)) by {
            assert(prior.to_set().contains(last) <==> prior.contains(last));
        }
        assert(rest.insert(item) =~= set);
        assert forall|i: int| 0 <= i < values.len() implies 0 <= #[trigger] values[i] <= first
            + i by {
            if i < front.len() {
                assert(front[i] == values[i]);
            } else {
                assert(set.contains(values[i]));
            }
        }
    }
    assert(ways(first, n, set) =~= ways_ending(first, n, set, set));
}

proof fn ways_ending_count(first: int, n: nat, set: Set<int>, lasts: Set<int>)
    requires
        first >= 0,
        n > 0,
        set.finite(),
        set.len() == n,
        forall|x: int| #[trigger] set.contains(x) ==> 0 <= x < first + n,
        lasts.subset_of(set),
        lasts.finite(),
    ensures
        ways_ending(first, n, set, lasts).finite(),
        ways_ending(first, n, set, lasts).len() == lasts.len() * factorial((n - 1) as nat),
    decreases n, lasts.len(),
{
    let less = (n - 1) as nat;
    let all = ways_ending(first, n, set, lasts);
    if lasts.len() == 0 {
        lasts.lemma_len0_is_empty();
        assert(all =~= Set::empty());
        assert(lasts.len() * factorial(less) == 0) by (nonlinear_arith)
            requires
                lasts.len() == 0,
        ;
    } else {
        let value = lasts.choose();
        let others = lasts.remove(value);
        ways_ending_count(first, n, set, others);
        let rest = before_last(first, n, set, value);
        let top = first + n - 1;
        assert(rest.len() == less);
        assert forall|x: int| #[trigger] rest.contains(x) implies 0 <= x < first + less by {
            assert(set.contains(x));
            if x == top {
                assert(set.contains(top));
            }
        }
        subsets_are_drawn_equally_often(first, less, rest);
        let fronts = ways(first, less, rest);
        let append = |front: Seq<int>| front.push(value);
        let ending = fronts.map(append);
        assert(vstd::relations::injective_on(append, fronts)) by {
            assert forall|a: Seq<int>, b: Seq<int>|
                fronts.contains(a) && fronts.contains(b) && #[trigger] append(a)
                    == #[trigger] append(b) implies a == b by {
                assert(append(a).drop_last() =~= a);
                assert(append(b).drop_last() =~= b);
            }
        }
        vstd::set_lib::lemma_map_size(fronts, ending, append);
        let before = ways_ending(first, n, set, others);
        assert forall|values: Seq<int>| all.contains(values) <==> before.union(ending).contains(
            values,
        ) by {
            if all.contains(values) && values.last() == value {
                assert(values =~= append(values.drop_last()));
                assert(fronts.contains(values.drop_last()));
            }
            if ending.contains(values) {
                let front = choose|front: Seq<int>|
                    fronts.contains(front) && #[trigger] append(front) == values;
                assert(values.drop_last() =~= front);
                assert(values.last() == value);
            }
        }
        assert(all =~= before.union(ending));
        assert(before.disjoint(ending)) by {
            assert forall|values: Seq<int>| !(before.contains(values) && ending.contains(
                values,
            )) by {
                if ending.contains(values) {
                    let front = choose|front: Seq<int>|
                        fronts.contains(front) && #[trigger] append(front) == values;
                    assert(values.last() == value);
                }
            }
        }
        vstd::set_lib::lemma_set_disjoint_lens(before, ending);
        assert(lasts.len() * factorial(less) == others.len() * factorial(less) + factorial(less))
            by (nonlinear_arith)
            requires
                lasts.len() == others.len() + 1,
        ;
    }
}

/// The sampling is uniform over subsets: every set of `n` offsets below `first + n`
/// is picked out by the same number of value sequences, one for each order of its
/// offsets.
pub proof fn subsets_are_drawn_equally_often(first: int, n: nat, set: Set<int>)
    requires
        first >= 0,
        set.finite(),
        set.len() == n,
        forall|x: int| #[trigger] set.contains(x) ==> 0 <= x < first + n,
    ensures
        ways(first, n, set).finite(),
        ways(first, n, set).len() == factorial(n),
    decreases n, n + 1,
{
    if n == 0 {
        set.lemma_len0_is_empty();
        let only = set![Seq::<int>::empty()];
        assert(ways(first, n, set) =~= only) by {
            assert forall|values: Seq<int>| ways(first, n, set).contains(values) <==> only.contains(
                values,
            ) by {
                if values.len() == 0 {
                    assert(values =~= Seq::empty());
                    assert(picked(first, values).to_set() =~= Set::empty());
                }
            }
        }
    } else {
        ways_by_last_value(first, n, set);
        ways_ending_count(first, n, set, set);
    }
}

/// A draw moves the generator by a fixed step around the circle of all states.
pub proof fn states_step_around_the_circle(state: u64, count: nat)
    ensures
        state_after(state, count) as int == (state + count * 0x9E37_79B9_7F4A_7C15)
            % 0x1_0000_0000_0000_0000,
    decreases count,
{
    let circle: int = 0x1_0000_0000_0000_0000;
    let step: int = 0x9E37_79B9_7F4A_7C15;
    if count > 0 {
        let less = (count - 1) as nat;
        states_step_around_the_circle(state, less);
        let before = state + less * step;
        assert(state + count * step == before + step) by (nonlinear_arith)
            requires
                before == state + less * step,
                count == less + 1,
        ;
        vstd::arithmetic::div_mod::lemma_add_mod_noop(before, step, circle);
        vstd::arithmetic::div_mod::lemma_small_mod(step as nat, circle as nat);
        let at = state_after(state, less);
        assert(next_state(at) as int == (at + step) % circle);
    } else {
        vstd::arithmetic::div_mod::lemma_small_mod(state as nat, circle as nat);
    }
}

/// The generator passes through every state before it repeats one.
pub proof fn states_do_not_repeat(state: u64, count: nat)
    ensures
        state_after(state, count) == state <==> count as int % 0x1_0000_0000_0000_0000 == 0,
{
    let circle: int = 0x1_0000_0000_0000_0000;
    let step: int = 0x9E37_79B9_7F4A_7C15;
    let inverse: int = 0xF1DE83E19937733D;
    states_step_around_the_circle(state, count);
    let moved = count * step;
    vstd::arithmetic::div_mod::lemma_fundamental_div_mod(state + moved, circle);
    vstd::arithmetic::div_mod::lemma_fundamental_div_mod(count as int, circle);
    let turns = (state + moved) / circle;
    let rounds = count as int / circle;
    let wraps: int = 10771413168148108919;
    assert(step * inverse == 1 + wraps * circle);
    if state_after(state, count) == state {
        assert(moved == circle * turns);
        assert(count == circle * (turns * inverse - count * wraps)) by (nonlinear_arith)
            requires
                count * step == circle * turns,
                step * inverse == 1 + wraps * circle,
        ;
        vstd::arithmetic::div_mod::lemma_mod_multiples_basic(
            turns * inverse - count * wraps,
            circle,
        );
        assert((turns * inverse - count * wraps) * circle == circle * (turns * inverse - count
            * wraps)) by (nonlinear_arith);
    }
    if count as int % circle == 0 {
        assert(state + moved == circle * (rounds * step) + state) by (nonlinear_arith)
            requires
                moved == count * step,
                count == circle * rounds,
        ;
        vstd::arithmetic::div_mod::lemma_mod_multiples_vanish(rounds * step, state as int, circle);
        vstd::arithmetic::div_mod::lemma_small_mod(state as nat, circle as nat);
    }
}

/// Multiplying by an odd number loses nothing: with the inverse it comes back.
proof fn odd_products_come_back(a: u64, factor: u64, inverse: u64, wraps: int)
    requires
        factor * inverse == 1 + wraps * 0x1_0000_0000_0000_0000,
    ensures
        (a.wrapping_mul(factor) * inverse) % 0x1_0000_0000_0000_0000 == a,
{
    let circle: int = 0x1_0000_0000_0000_0000;
    let product = (a * factor) as int;
    assert(a.wrapping_mul(factor) as int == product % circle);
    vstd::arithmetic::div_mod::lemma_mul_mod_noop_left(product, inverse as int, circle);
    assert(product * inverse == circle * (a * wraps) + a) by (nonlinear_arith)
        requires
            product == a * factor,
            factor * inverse == 1 + wraps * circle,
    ;
    vstd::arithmetic::div_mod::lemma_mod_multiples_vanish(a * wraps, a as int, circle);
    vstd::arithmetic::div_mod::lemma_small_mod(a as nat, circle as nat);
}

/// The output function loses nothing: different states have different outputs, so
/// that over a full round every 64-bit value comes exactly once.
pub proof fn outputs_tell_states_apart(a: u64, b: u64)
    requires
        mix(a) == mix(b),
    ensures
        a == b,
{
    let (a1, b1) = (a ^ (a >> 30), b ^ (b >> 30));
    let (a2, b2) = (
        a1.wrapping_mul(0xBF58_476D_1CE4_E5B9),
        b1.wrapping_mul(0xBF58_476D_1CE4_E5B9),
    );
    let (a3, b3) = (a2 ^ (a2 >> 27), b2 ^ (b2 >> 27));
    let (a4, b4) = (
        a3.wrapping_mul(0x94D0_49BB_1331_11EB),
        b3.wrapping_mul(0x94D0_49BB_1331_11EB),
    );
    assert(a4 ^ (a4 >> 31) == b4 ^ (b4 >> 31) ==> a4 == b4) by (bit_vector);
    odd_products_come_back(a3, 0x94D0_49BB_1331_11EB, 0x319642B2D24D8EC3, 2077064247507883091);
    odd_products_come_back(b3, 0x94D0_49BB_1331_11EB, 0x319642B2D24D8EC3, 2077064247507883091);
    assert(a2 ^ (a2 >> 27) == b2 ^ (b2 >> 27) ==> a2 == b2) by (bit_vector);
    odd_products_come_back(a1, 0xBF58_476D_1CE4_E5B9, 0x96DE1B173F119089, 8125545580553827436);
    odd_products_come_back(b1, 0xBF58_476D_1CE4_E5B9, 0x96DE1B173F119089, 8125545580553827436);
    assert(a ^ (a >> 30) == b ^ (b >> 30) ==> a == b) by (bit_vector);
}

} // verus!
