//! The complex numbers with whole parts, as numbers without rounding.
use crate::exact::{conjugate_roots, powers, root_table, roots_of_unity, sum, Exact, Number};
use vstd::prelude::*;

verus! {

/// Three whole numbers multiply to the same product however they are grouped
/// and ordered.
proof fn lemma_triple(x: int, y: int, z: int)
    ensures
        (x * y) * z == x * (y * z),
        (x * y) * z == (y * z) * x,
{
    vstd::arithmetic::mul::lemma_mul_is_associative(x, y, z);
    vstd::arithmetic::mul::lemma_mul_is_commutative(x, y * z);
}

/// A sum times a number is the sum of the products, on either side.
proof fn lemma_spread(x: int, y: int, z: int)
    ensures
        (x + y) * z == x * z + y * z,
        z * (x + y) == x * z + y * z,
{
    vstd::arithmetic::mul::lemma_mul_is_distributive_add_other_way(z, x, y);
    vstd::arithmetic::mul::lemma_mul_is_commutative(z, x + y);
}

/// The sign of a factor is the sign of the product.
proof fn lemma_negated(x: int, z: int)
    ensures
        (-x) * z == -(x * z),
{
    vstd::arithmetic::mul::lemma_mul_unary_negation(x, z);
}

/// A complex number whose parts are whole numbers.
pub struct Gaussian {
    pub re: int,
    pub im: int,
}

impl Number for Gaussian {
    open spec fn zero() -> Self {
        Gaussian { re: 0, im: 0 }
    }

    open spec fn one() -> Self {
        Gaussian { re: 1, im: 0 }
    }

    open spec fn plus(self, other: Self) -> Self {
        Gaussian { re: self.re + other.re, im: self.im + other.im }
    }

    open spec fn times(self, other: Self) -> Self {
        Gaussian {
            re: self.re * other.re - self.im * other.im,
            im: self.re * other.im + self.im * other.re,
        }
    }

    open spec fn conj(self) -> Self {
        Gaussian { re: self.re, im: -self.im }
    }

    /// Whole numbers do not divide: only the division by 1 is meant.
    open spec fn over(self, count: usize) -> Self {
        self
    }

    /// The powers of the imaginary unit for the order 4 and those of -1 for
    /// the order 2. No other order but 1 has a root with whole parts.
    open spec fn unit_root(size: usize, power: usize) -> Self {
        if size == 4 {
            fourth_roots()[power as int % 4]
        } else if size == 2 && power % 2 == 1 {
            Gaussian { re: -1, im: 0 }
        } else {
            Gaussian { re: 1, im: 0 }
        }
    }

    open spec fn finite(self) -> bool {
        true
    }
}

impl Exact for Gaussian {
    proof fn plus_commutes(a: Self, b: Self) {
    }

    proof fn plus_associates(a: Self, b: Self, c: Self) {
    }

    proof fn plus_zero(a: Self) {
    }

    proof fn times_commutes(a: Self, b: Self) {
        assert(a.re * b.re - a.im * b.im == b.re * a.re - b.im * a.im) by (nonlinear_arith);
        assert(a.re * b.im + a.im * b.re == b.re * a.im + b.im * a.re) by (nonlinear_arith);
    }

    proof fn times_associates(a: Self, b: Self, c: Self) {
        lemma_triple(a.re, b.re, c.re);
        lemma_triple(a.im, b.im, c.re);
        lemma_triple(a.re, b.im, c.im);
        lemma_triple(a.im, b.re, c.im);
        lemma_triple(a.re, b.re, c.im);
        lemma_triple(a.im, b.im, c.im);
        lemma_triple(a.re, b.im, c.re);
        lemma_triple(a.im, b.re, c.re);
        lemma_spread(a.re * b.re, -(a.im * b.im), c.re);
        lemma_spread(a.re * b.im, a.im * b.re, c.im);
        lemma_spread(a.re * b.re, -(a.im * b.im), c.im);
        lemma_spread(a.re * b.im, a.im * b.re, c.re);
        lemma_spread(b.re * c.re, -(b.im * c.im), a.re);
        lemma_spread(b.re * c.im, b.im * c.re, a.im);
        lemma_spread(b.re * c.im, b.im * c.re, a.re);
        lemma_spread(b.re * c.re, -(b.im * c.im), a.im);
        lemma_negated(a.im * b.im, c.re);
        lemma_negated(a.im * b.im, c.im);
        lemma_negated(b.im * c.im, a.re);
        lemma_negated(b.im * c.im, a.im);
    }

    proof fn times_one(a: Self) {
        assert(a.re * 1 - a.im * 0 == a.re) by (nonlinear_arith);
        assert(a.re * 0 + a.im * 1 == a.im) by (nonlinear_arith);
    }

    proof fn times_zero(a: Self) {
        assert(a.re * 0 - a.im * 0 == 0) by (nonlinear_arith);
        assert(a.re * 0 + a.im * 0 == 0) by (nonlinear_arith);
    }

    proof fn times_distributes(a: Self, b: Self, c: Self) {
        assert(a.re * (b.re + c.re) - a.im * (b.im + c.im) == (a.re * b.re - a.im * b.im) + (a.re
            * c.re - a.im * c.im)) by (nonlinear_arith);
        assert(a.re * (b.im + c.im) + a.im * (b.re + c.re) == (a.re * b.im + a.im * b.re) + (a.re
            * c.im + a.im * c.re)) by (nonlinear_arith);
    }

    proof fn conj_zero() {
    }

    proof fn conj_plus(a: Self, b: Self) {
    }

    proof fn conj_times(a: Self, b: Self) {
        assert(a.re * b.re - a.im * b.im == a.re * b.re - (-a.im) * (-b.im)) by (nonlinear_arith);
        assert(-(a.re * b.im + a.im * b.re) == a.re * (-b.im) + (-a.im) * b.re)
            by (nonlinear_arith);
    }

    proof fn conj_conj(a: Self) {
    }
}

/// The product of two numbers whose parts are -1, 0 or 1, written out.
proof fn lemma_units_multiply(x: Gaussian, y: Gaussian)
    requires
        -1 <= x.re <= 1 && -1 <= x.im <= 1,
        -1 <= y.re <= 1 && -1 <= y.im <= 1,
    ensures
        x.times(y).re == (if x.re == 0 || y.re == 0 {
            0int
        } else if x.re == y.re {
            1int
        } else {
            -1int
        }) - (if x.im == 0 || y.im == 0 {
            0int
        } else if x.im == y.im {
            1int
        } else {
            -1int
        }),
        x.times(y).im == (if x.re == 0 || y.im == 0 {
            0int
        } else if x.re == y.im {
            1int
        } else {
            -1int
        }) + (if x.im == 0 || y.re == 0 {
            0int
        } else if x.im == y.re {
            1int
        } else {
            -1int
        }),
{
    lemma_unit_product(x.re, y.re);
    lemma_unit_product(x.im, y.im);
    lemma_unit_product(x.re, y.im);
    lemma_unit_product(x.im, y.re);
}

/// The product of two whole numbers that are -1, 0 or 1.
proof fn lemma_unit_product(x: int, y: int)
    requires
        -1 <= x <= 1,
        -1 <= y <= 1,
    ensures
        x * y == if x == 0 || y == 0 {
            0int
        } else if x == y {
            1int
        } else {
            -1int
        },
{
    if x == 0 {
        assert(0 * y == 0);
    } else if x == 1 {
        assert(1 * y == y);
    } else {
        assert((-1) * y == -y);
    }
}

/// The four powers of the imaginary unit: 1, i, -1 and -i.
pub open spec fn fourth_roots() -> Seq<Gaussian> {
    seq![
        Gaussian { re: 1, im: 0 },
        Gaussian { re: 0, im: 1 },
        Gaussian { re: -1, im: 0 },
        Gaussian { re: 0, im: -1 },
    ]
}

/// The product of two powers of the imaginary unit is the power at the sum of
/// their places.
pub(crate) proof fn lemma_fourth_products(a: int, b: int)
    requires
        0 <= a < 4,
        0 <= b < 4,
    ensures
        fourth_roots()[a].times(fourth_roots()[b]) == fourth_roots()[(a + b) % 4],
{
    lemma_units_multiply(fourth_roots()[a], fourth_roots()[b]);
}

/// The powers of a power of the imaginary unit other than 1 add up to 0.
proof fn lemma_fourth_powers(j: int)
    requires
        0 < j < 4,
    ensures
        sum(powers(fourth_roots(), j)) == Gaussian::zero(),
{
    let w = fourth_roots();
    let turns = powers(w, j);
    assert(j * 0 == 0 && j * 1 == j && j * 2 == 2 * j && j * 3 == 3 * j) by (nonlinear_arith);
    let first = seq![w[0]];
    let second = first.push(w[j]);
    let third = second.push(w[(2 * j) % 4]);
    let fourth = third.push(w[(3 * j) % 4]);
    assert(turns =~= fourth);
    assert(first.drop_last() =~= Seq::<Gaussian>::empty());
    assert(second.drop_last() =~= first);
    assert(third.drop_last() =~= second);
    assert(fourth.drop_last() =~= third);
    assert(sum(Seq::<Gaussian>::empty()) == Gaussian::zero());
    assert(sum(first) == Gaussian::zero().plus(w[0]));
    assert(sum(second) == sum(first).plus(w[j]));
    assert(sum(third) == sum(second).plus(w[(2 * j) % 4]));
    assert(sum(fourth) == sum(third).plus(w[(3 * j) % 4]));
}

/// The powers of the imaginary unit are a table of roots of unity, each the
/// conjugate of the one at the opposite place. So there are numbers and tables
/// of which the statements about roots of unity speak.
pub proof fn lemma_fourth_roots()
    ensures
        roots_of_unity(fourth_roots()),
        conjugate_roots(fourth_roots()),
{
    let w = fourth_roots();
    assert forall|a: int, b: int| 0 <= a < 4 && 0 <= b < 4 implies #[trigger] w[a].times(w[b])
        == w[(a + b) % 4] by {
        lemma_fourth_products(a, b);
    }
    assert forall|j: int| 0 < j < 4 implies sum(#[trigger] powers(w, j)) == Gaussian::zero() by {
        lemma_fourth_powers(j);
    }
    assert forall|a: int| 0 <= a < 4 implies (#[trigger] w[a]).conj() == w[(4 - a) % 4] by {}
}

/// The table of the roots of order 4 holds the powers of the imaginary unit.
pub proof fn lemma_root_table_of_four()
    ensures
        root_table::<Gaussian>(4) == fourth_roots(),
{
    assert(root_table::<Gaussian>(4) =~= fourth_roots());
}

/// The orders 1, 2 and 4 have tables of roots of unity with whole parts, and
/// each root is the conjugate of the one at the opposite place.
pub proof fn lemma_gaussian_roots(n: nat)
    requires
        n == 1 || n == 2 || n == 4,
    ensures
        roots_of_unity(root_table::<Gaussian>(n)),
        conjugate_roots(root_table::<Gaussian>(n)),
{
    let w = root_table::<Gaussian>(n);
    if n == 4 {
        lemma_root_table_of_four();
        lemma_fourth_roots();
    } else {
        assert forall|a: int, b: int| 0 <= a < n && 0 <= b < n implies #[trigger] w[a].times(w[b])
            == w[(a + b) % (n as int)] by {
            lemma_units_multiply(w[a], w[b]);
        }
        assert forall|j: int| 0 < j < n implies sum(#[trigger] powers(w, j))
            == Gaussian::zero() by {
            let turns = powers(w, j);
            assert(j * 0 == 0 && j * 1 == j) by (nonlinear_arith);
            let first = seq![w[0]];
            let second = first.push(w[1]);
            assert(turns =~= second);
            assert(first.drop_last() =~= Seq::<Gaussian>::empty());
            assert(second.drop_last() =~= first);
            assert(sum(Seq::<Gaussian>::empty()) == Gaussian::zero());
            assert(sum(first) == Gaussian::zero().plus(w[0]));
            assert(sum(second) == sum(first).plus(w[1]));
        }
        assert forall|a: int| 0 <= a < n implies (#[trigger] w[a]).conj() == w[(n - a) % (
        n as int)] by {}
    }
}

} // verus!
