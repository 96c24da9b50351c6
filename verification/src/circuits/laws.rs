//! What holds of every series and every component.
use vstd::prelude::*;
use crate::binary64::format::SIGN_BIT;
use crate::binary64::format::INFINITY;
use crate::binary64::format::is_nan;
use crate::binary64::format::lemma_fields;
use crate::binary64::arithmetic::reciprocal_spec;
use crate::binary64::arithmetic::sum_spec;
use crate::binary64::laws::lemma_sum_with_zero;
use crate::binary64::laws::lemma_reciprocal_classes;
use crate::binary64::laws::lemma_reciprocal_of_power_of_two;
use crate::binary64::laws::lemma_sum_with_itself;
use crate::binary64::laws::lemma_reciprocal_twice_is_near;
use crate::binary64::laws::lemma_reciprocal_of_normal;
use crate::binary64::laws::lemma_reciprocal_of_double;
use crate::binary64::format::fraction;
use crate::binary64::format::HIDDEN_BIT;
use crate::binary64::format::biased_exponent;
use crate::binary64::laws::is_normal_power_of_two;
use crate::binary64::laws::lemma_reciprocal_twice_of_normal;
use crate::binary64::laws::lemma_sum_of_subnormal_with_itself;
use crate::binary64::format::is_finite;
use crate::binary64::format::is_normal;
use crate::binary64::laws::lemma_reciprocal_twice_of_power_of_two;
use crate::circuits::components::Components;
use crate::circuits::series::reciprocal_sum;
use crate::circuits::series::series_capacitance;
use crate::circuits::series::same_components;
use crate::units::farad::Farad;

verus! {

/// The magnitude of a component, whatever its kind.
pub open spec fn magnitude_of(component: Components) -> u64 {
    match component {
        Components::Resistor(ohm) => ohm.bits,
        Components::Capacitor(farad) => farad.bits,
        Components::Inductor(henry) => henry.bits,
        Components::Voltage(volt) => volt.bits,
    }
}

/// A component whose magnitude is a number equals itself, and so the
/// component that wraps a quantity equals the one built from the magnitude
/// of that quantity. With a NaN for magnitude it equals nothing.
pub proof fn lemma_component_equals_itself(component: Components)
    ensures
        component.same(component) <==> !is_nan(magnitude_of(component)),
{
}

/// A series whose magnitudes are all numbers equals itself.
pub proof fn lemma_series_equals_itself(components: Seq<Components>)
    requires
        forall|i: int| 0 <= i < components.len() ==> !is_nan(magnitude_of(#[trigger] components[i])),
    ensures
        same_components(components, components),
{
    assert forall|i: int| 0 <= i < components.len() implies (#[trigger] components[i]).same(
        components[i],
    ) by {
        lemma_component_equals_itself(components[i]);
    }
}

/// Components stay in the order in which they were added: a series made
/// with `a`, to which `b` and then `c` were added, is exactly `a`, `b`, `c`.
pub proof fn lemma_order_of_three(a: Components, b: Components, c: Components)
    ensures
        seq![a].push(b).push(c) == seq![a, b, c],
{
    assert(seq![a].push(b).push(c) =~= seq![a, b, c]);
}

/// Adding a component moves none of those already there, and puts the new
/// one behind them.
pub proof fn lemma_order_is_kept(components: Seq<Components>, added: Components)
    ensures
        components.push(added).len() == components.len() + 1,
        components.push(added).last() == added,
        forall|i: int| 0 <= i < components.len() ==> components.push(added)[i] == components[i],
{
}

/// A component that is no capacitor can be taken out of a series without a
/// change to the capacitance.
pub proof fn lemma_other_components_do_not_count(components: Seq<Components>, at: int)
    requires
        0 <= at < components.len(),
        !(components[at] is Capacitor),
    ensures
        reciprocal_sum(components.remove(at)) == reciprocal_sum(components),
        series_capacitance(components.remove(at)) == series_capacitance(components),
    decreases components.len(),
{
    let without = components.remove(at);
    if at == components.len() - 1 {
        assert(without =~= components.drop_last());
    } else {
        assert(without.drop_last() =~= components.drop_last().remove(at));
        assert(without.last() == components.last());
        lemma_other_components_do_not_count(components.drop_last(), at);
    }
}

/// Adding a component that is no capacitor leaves the capacitance as it was.
pub proof fn lemma_adding_another_component(components: Seq<Components>, added: Components)
    requires
        !(added is Capacitor),
    ensures
        series_capacitance(components.push(added)) == series_capacitance(components),
{
    assert(components.push(added).drop_last() =~= components);
}

/// A series without a capacitor has a sum of reciprocals of zero, and for
/// capacitance the reciprocal of zero: positive infinity.
pub proof fn lemma_without_capacitors(components: Seq<Components>)
    requires
        forall|i: int| 0 <= i < components.len() ==> !(#[trigger] components[i] is Capacitor),
    ensures
        reciprocal_sum(components) == 0,
        series_capacitance(components) == INFINITY,
    decreases components.len(),
{
    if components.len() > 0 {
        lemma_without_capacitors(components.drop_last());
    }
    lemma_fields(0);
}

/// The sums of reciprocals of one capacitor alone and of two capacitors of
/// one capacitance, written out.
pub proof fn lemma_reciprocal_sum_of_equal_capacitors(farad: Farad)
    ensures
        reciprocal_sum(seq![Components::Capacitor(farad)]) == sum_spec(
            0,
            reciprocal_spec(farad.bits),
        ),
        reciprocal_sum(seq![Components::Capacitor(farad), Components::Capacitor(farad)])
            == sum_spec(sum_spec(0, reciprocal_spec(farad.bits)), reciprocal_spec(farad.bits)),
{
    let capacitor = Components::Capacitor(farad);
    assert(seq![capacitor, capacitor].drop_last() =~= seq![capacitor]);
    assert(seq![capacitor].drop_last() =~= Seq::<Components>::empty());
    assert(reciprocal_sum(Seq::<Components>::empty()) == 0);
    assert(reciprocal_sum(seq![capacitor]) == sum_spec(0, reciprocal_spec(farad.bits)));
}

/// The capacitance of one capacitor alone is its own capacitance after two
/// reciprocals. Negative infinity is left out: its reciprocal is negative
/// zero, which the sum turns into positive zero.
pub proof fn lemma_one_capacitor(farad: Farad)
    requires
        farad.bits != SIGN_BIT + INFINITY,
    ensures
        series_capacitance(seq![Components::Capacitor(farad)]) == reciprocal_spec(
            reciprocal_spec(farad.bits),
        ),
{
    lemma_reciprocal_sum_of_equal_capacitors(farad);
    let once = reciprocal_spec(farad.bits);
    lemma_fields(farad.bits);
    lemma_reciprocal_classes(farad.bits);
    lemma_fields(once);
    if !is_nan(farad.bits) {
        lemma_sum_with_zero(once);
    }
}

/// The capacitance of one capacitor alone is its own capacitance wherever
/// two reciprocals give a capacitance back, as they do for a normal power of
/// two and for a subnormal capacitance whose reciprocal is finite.
pub proof fn lemma_one_capacitor_exact(farad: Farad)
    requires
        farad.bits != SIGN_BIT + INFINITY,
        reciprocal_spec(reciprocal_spec(farad.bits)) == farad.bits,
    ensures
        series_capacitance(seq![Components::Capacitor(farad)]) == farad.bits,
{
    lemma_one_capacitor(farad);
}

/// The capacitance of one capacitor of a normal power of two alone is that
/// power of two.
pub proof fn lemma_one_capacitor_of_power_of_two(farad: Farad)
    requires
        is_normal_power_of_two(farad.bits),
    ensures
        series_capacitance(seq![Components::Capacitor(farad)]) == farad.bits,
{
    lemma_fields(farad.bits);
    lemma_reciprocal_twice_of_power_of_two(farad.bits);
    lemma_one_capacitor_exact(farad);
}

/// The capacitance of one capacitor alone is its own capacitance to within
/// one unit in the last place, wherever the reciprocal of the capacitance is
/// a normal number: no overflow and no underflow on the way. For a subnormal
/// capacitance and for a power of two it is the capacitance itself.
pub proof fn lemma_one_capacitor_is_near(farad: Farad)
    requires
        is_finite(farad.bits),
        is_normal(reciprocal_spec(farad.bits)),
    ensures
        farad.bits - 1 <= series_capacitance(seq![Components::Capacitor(farad)]) <= farad.bits
            + 1,
        biased_exponent(farad.bits) == 0 || fraction(farad.bits) == 0 ==> series_capacitance(
            seq![Components::Capacitor(farad)],
        ) == farad.bits,
{
    lemma_fields(farad.bits);
    lemma_one_capacitor(farad);
    lemma_reciprocal_twice_is_near(farad.bits);
}

/// Two capacitors of one normal power of two in series have half the
/// capacitance of each: the power of two whose exponent is one less. The
/// smallest normal power of two is left out: its half is subnormal.
pub proof fn lemma_two_capacitors_of_power_of_two(farad: Farad)
    requires
        is_normal_power_of_two(farad.bits),
        biased_exponent(farad.bits) >= 2,
    ensures
        series_capacitance(seq![Components::Capacitor(farad), Components::Capacitor(farad)])
            == farad.bits - HIDDEN_BIT,
{
    lemma_reciprocal_sum_of_equal_capacitors(farad);
    let once = reciprocal_spec(farad.bits);
    lemma_fields(farad.bits);
    lemma_reciprocal_of_power_of_two(farad.bits);
    lemma_fields(once);
    lemma_sum_with_zero(once);
    if biased_exponent(farad.bits) <= 2045 {
        lemma_sum_with_itself(once);
    } else {
        // The reciprocal is subnormal, and its double the smallest normal
        // number.
        lemma_sum_of_subnormal_with_itself(once);
    }
    let twice = sum_spec(once, once);
    lemma_fields(twice);
    lemma_reciprocal_of_power_of_two(twice);
}

/// Two capacitors of one capacitance in series have half of what two
/// reciprocals make of that capacitance: the sum of the two equal
/// reciprocals and the reciprocal of that sum add no rounding. This holds of
/// the normal capacitances below two to the power 1022 whose half is normal
/// too.
pub proof fn lemma_two_equal_capacitors(farad: Farad)
    requires
        2 <= biased_exponent(farad.bits) <= 2044,
    ensures
        series_capacitance(seq![Components::Capacitor(farad), Components::Capacitor(farad)])
            == reciprocal_spec(reciprocal_spec(farad.bits)) - HIDDEN_BIT,
{
    let once = reciprocal_spec(farad.bits);
    lemma_fields(farad.bits);
    if fraction(farad.bits) == 0 {
        lemma_two_capacitors_of_power_of_two(farad);
        lemma_reciprocal_twice_of_power_of_two(farad.bits);
    } else {
        lemma_reciprocal_sum_of_equal_capacitors(farad);
        lemma_reciprocal_of_normal(farad.bits);
        lemma_fields(once);
        lemma_sum_with_zero(once);
        lemma_sum_with_itself(once);
        lemma_reciprocal_of_double(once);
    }
}

/// Two capacitors of one capacitance in series have exactly half that
/// capacitance, the number whose exponent is one less, wherever two
/// reciprocals give the capacitance back.
pub proof fn lemma_two_equal_capacitors_exact(farad: Farad)
    requires
        2 <= biased_exponent(farad.bits) <= 2044,
        reciprocal_spec(reciprocal_spec(farad.bits)) == farad.bits,
    ensures
        series_capacitance(seq![Components::Capacitor(farad), Components::Capacitor(farad)])
            == farad.bits - HIDDEN_BIT,
{
    lemma_two_equal_capacitors(farad);
}

/// Two capacitors of one capacitance in series have half that capacitance to
/// within one unit in the last place, for every capacitance that is a normal
/// number below two to the power 1022, of either sign, and whose half is
/// normal too.
pub proof fn lemma_two_equal_capacitors_are_near(farad: Farad)
    requires
        2 <= biased_exponent(farad.bits) <= 2044,
    ensures
        farad.bits - HIDDEN_BIT - 1 <= series_capacitance(
            seq![Components::Capacitor(farad), Components::Capacitor(farad)],
        ) <= farad.bits - HIDDEN_BIT + 1,
{
    lemma_two_equal_capacitors(farad);
    lemma_reciprocal_twice_of_normal(farad.bits);
}

/// A resistor and a capacitor in series, in either order, have the
/// capacitance of the capacitor alone.
pub proof fn lemma_resistor_and_capacitor(resistor: Components, farad: Farad)
    requires
        resistor is Resistor,
    ensures
        series_capacitance(seq![resistor, Components::Capacitor(farad)]) == series_capacitance(
            seq![Components::Capacitor(farad)],
        ),
        series_capacitance(seq![Components::Capacitor(farad), resistor]) == series_capacitance(
            seq![Components::Capacitor(farad)],
        ),
{
    let capacitor = Components::Capacitor(farad);
    assert(seq![resistor, capacitor].remove(0) =~= seq![capacitor]);
    lemma_other_components_do_not_count(seq![resistor, capacitor], 0);
    assert(seq![capacitor, resistor].remove(1) =~= seq![capacitor]);
    lemma_other_components_do_not_count(seq![capacitor, resistor], 1);
}

} // verus!
