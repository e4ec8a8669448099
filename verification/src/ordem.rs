use vstd::prelude::*;
use vstd::std_specs::cmp::PartialOrdIs;
use vstd::std_specs::cmp::PartialOrdSpec;
use vstd::std_specs::cmp::OrdSpec;
use std::cmp::Ordering;

verus! {

/// The element type's `Ord` is a lawful total order: the requirement that
/// Rust's `Ord` documentation places on every implementation.
pub open spec fn ordem_total<T: Ord>() -> bool {
    vstd::laws_cmp::obeys_cmp::<T>()
}

/// `x <= y` under the element type's `Ord`.
pub open spec fn menor_igual<T: Ord>(x: T, y: T) -> bool {
    x.is_le(&y)
}

/// `x < y` under the element type's `Ord`.
pub open spec fn menor<T: Ord>(x: T, y: T) -> bool {
    !menor_igual(y, x)
}

/// Neither element precedes the other: they are equal keys.
pub open spec fn equivalentes<T: Ord>(x: T, y: T) -> bool {
    menor_igual(x, y) && menor_igual(y, x)
}

/// A lawful `Ord` makes `<=` a total preorder.
pub proof fn lema_preordem_total<T: Ord>()
    requires
        ordem_total::<T>(),
    ensures
        forall|x: T| #[trigger] menor_igual(x, x),
        forall|x: T, y: T| #[trigger] menor_igual(x, y) || menor_igual(y, x),
        forall|x: T, y: T, z: T|
            #[trigger] menor_igual(x, y) && #[trigger] menor_igual(y, z) ==> menor_igual(x, z),
{
    reveal(vstd::laws_cmp::obeys_cmp_partial_ord);
    reveal(vstd::laws_cmp::obeys_cmp_ord);
    reveal(vstd::laws_cmp::obeys_partial_cmp_spec_properties);
    reveal(vstd::laws_eq::obeys_eq_spec_properties);
    assert forall|x: T| #[trigger] menor_igual(x, x) by {
        assert(x.partial_cmp_spec(&x) == Some(x.cmp_spec(&x)));
    }
    assert forall|x: T, y: T| #[trigger] menor_igual(x, y) || menor_igual(y, x) by {
        assert(x.partial_cmp_spec(&y) == Some(x.cmp_spec(&y)));
        assert(y.partial_cmp_spec(&x) == Some(y.cmp_spec(&x)));
    }
    assert forall|x: T, y: T, z: T|
        #[trigger] menor_igual(x, y) && #[trigger] menor_igual(y, z) implies menor_igual(x, z) by {
        assert(x.partial_cmp_spec(&y) == Some(x.cmp_spec(&y)));
        assert(y.partial_cmp_spec(&z) == Some(y.cmp_spec(&z)));
        assert(x.partial_cmp_spec(&z) == Some(x.cmp_spec(&z)));
        assert(z.partial_cmp_spec(&x) == Some(z.cmp_spec(&x)));
        assert(y.partial_cmp_spec(&x) == Some(y.cmp_spec(&x)));
        assert(z.partial_cmp_spec(&y) == Some(z.cmp_spec(&y)));
    }
}

/// `x <= y`, computed by the element type's `Ord`.
pub fn compara_le<T: Ord>(x: &T, y: &T) -> (r: bool)
    requires
        ordem_total::<T>(),
    ensures
        r == menor_igual(*x, *y),
{
    proof {
        reveal(vstd::laws_cmp::obeys_cmp_partial_ord);
    }
    *x <= *y
}

/// `x < y`, computed by the element type's `Ord`.
pub fn compara_lt<T: Ord>(x: &T, y: &T) -> (r: bool)
    requires
        ordem_total::<T>(),
    ensures
        r == menor(*x, *y),
{
    proof {
        reveal(vstd::laws_cmp::obeys_cmp_partial_ord);
        reveal(vstd::laws_cmp::obeys_cmp_ord);
        reveal(vstd::laws_cmp::obeys_partial_cmp_spec_properties);
        assert(x.partial_cmp_spec(y) == Some(x.cmp_spec(y)));
        assert(y.partial_cmp_spec(x) == Some(y.cmp_spec(x)));
    }
    *x < *y
}

/// The three outcomes of a comparison.
#[derive(Clone, Copy, Debug, PartialEq, Eq, Structural)]
pub enum Comparacao {
    Menor,
    Igual,
    Maior,
}

/// Compares `x` with `y` by the element type's `Ord`, once.
pub fn compara<T: Ord>(x: &T, y: &T) -> (r: Comparacao)
    requires
        ordem_total::<T>(),
    ensures
        (r == Comparacao::Menor) == menor(*x, *y),
        (r == Comparacao::Igual) == equivalentes(*x, *y),
        (r == Comparacao::Maior) == !menor_igual(*x, *y),
{
    proof {
        reveal(vstd::laws_cmp::obeys_cmp_partial_ord);
        reveal(vstd::laws_cmp::obeys_cmp_ord);
        reveal(vstd::laws_cmp::obeys_partial_cmp_spec_properties);
        reveal(vstd::laws_eq::obeys_eq_spec_properties);
        assert(x.partial_cmp_spec(y) == Some(x.cmp_spec(y)));
        assert(y.partial_cmp_spec(x) == Some(y.cmp_spec(x)));
    }
    match x.cmp(y) {
        Ordering::Less => Comparacao::Menor,
        Ordering::Equal => Comparacao::Igual,
        Ordering::Greater => Comparacao::Maior,
    }
}

} // verus!
