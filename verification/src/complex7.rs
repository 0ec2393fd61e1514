//! The complex numbers whose parts are whole numbers modulo 7, as numbers
//! without rounding with which a program can compute.
//!
//! There are 49 of them, and their conjugation is a true one. The imaginary
//! unit is a root of unity of order 4 among them, and every count that is not
//! a multiple of 7 divides. What holds of them is carried over from the complex
//! numbers with whole parts, of which they are the remainders.
use crate::exact::{
    conjugate_roots, multiple, powers, root_table, roots_of_unity, sum, Arithmetic, Exact, Number,
};
use crate::gaussian::{lemma_gaussian_roots, Gaussian};
use crate::inversion::divides_by;
use crate::residue::Mod7;
use vstd::arithmetic::div_mod::{
    lemma_add_mod_noop, lemma_mod_multiples_vanish, lemma_mul_mod_noop_general, lemma_small_mod,
    lemma_sub_mod_noop,
};
use vstd::prelude::*;

verus! {

/// A complex number whose parts are whole numbers modulo 7.
#[derive(Clone, Copy, Debug, PartialEq, Eq, Structural)]
pub struct Complex7 {
    pub re: Mod7,
    pub im: Mod7,
}

impl Complex7 {
    /// The complex number with whole parts from 0 to 6 that stands for this one.
    pub open spec fn lift(self) -> Gaussian {
        Gaussian { re: self.re.number(), im: self.im.number() }
    }

    /// The remainder of a complex number with whole parts.
    pub open spec fn reduce(g: Gaussian) -> Complex7 {
        Complex7 { re: Mod7::of(g.re), im: Mod7::of(g.im) }
    }

    /// The number on the real axis whose product with the count is 1.
    pub open spec fn inverse_of(count: usize) -> Complex7 {
        Complex7 { re: Mod7::of(count as int).inverse(), im: Mod7::N0 }
    }

    /// The number with the given parts, each taken modulo 7.
    pub fn new(re: u64, im: u64) -> (r: Complex7)
        ensures
            r == Complex7::reduce(Gaussian { re: re as int, im: im as int }),
    {
        Complex7 { re: Mod7::new(re), im: Mod7::new(im) }
    }
}

impl Number for Complex7 {
    open spec fn zero() -> Self {
        Complex7 { re: Mod7::N0, im: Mod7::N0 }
    }

    open spec fn one() -> Self {
        Complex7 { re: Mod7::N1, im: Mod7::N0 }
    }

    open spec fn plus(self, other: Self) -> Self {
        Complex7::reduce(self.lift().plus(other.lift()))
    }

    open spec fn times(self, other: Self) -> Self {
        Complex7::reduce(self.lift().times(other.lift()))
    }

    open spec fn conj(self) -> Self {
        Complex7::reduce(self.lift().conj())
    }

    /// The product with the inverse of the count. A multiple of 7 does not
    /// divide: the quotient is then 0.
    open spec fn over(self, count: usize) -> Self {
        self.times(Complex7::inverse_of(count))
    }

    /// The remainders of the roots with whole parts: the powers of the
    /// imaginary unit for the order 4 and those of -1 for the order 2.
    open spec fn unit_root(size: usize, power: usize) -> Self {
        Complex7::reduce(Gaussian::unit_root(size, power))
    }

    open spec fn finite(self) -> bool {
        true
    }
}

impl Arithmetic for Complex7 {
    fn new_zero() -> (r: Self) {
        Complex7 { re: Mod7::N0, im: Mod7::N0 }
    }

    fn added(&self, other: &Self) -> (r: Self) {
        Complex7 { re: self.re.added(&other.re), im: self.im.added(&other.im) }
    }

    fn multiplied(&self, other: &Self) -> (r: Self) {
        let (a, b) = (self.re.value() as u64, self.im.value() as u64);
        let (c, d) = (other.re.value() as u64, other.im.value() as u64);
        assert(a * c <= 36 && b * d <= 36 && a * d <= 36 && b * c <= 36) by (nonlinear_arith)
            requires
                a <= 6 && b <= 6 && c <= 6 && d <= 6,
        ;
        proof {
            // 49 more is the same modulo 7.
            lemma_mod_multiples_vanish(7, a * c - b * d, 7);
        }
        Complex7 { re: Mod7::new(a * c + 49 - b * d), im: Mod7::new(a * d + b * c) }
    }

    fn conjugated(&self) -> (r: Self) {
        let b = self.im.value() as u64;
        proof {
            lemma_mod_multiples_vanish(1, -(b as int), 7);
        }
        Complex7 { re: self.re, im: Mod7::new(7 - b) }
    }

    fn divided(&self, count: usize) -> (r: Self) {
        let by = Mod7::new((count % 7) as u64);
        assert(Mod7::of((count % 7) as int) == Mod7::of(count as int)) by {
            vstd::arithmetic::div_mod::lemma_mod_twice(count as int, 7);
        }
        let inverse = match by {
            Mod7::N0 => Mod7::N0,
            Mod7::N1 => Mod7::N1,
            Mod7::N2 => Mod7::N4,
            Mod7::N3 => Mod7::N5,
            Mod7::N4 => Mod7::N2,
            Mod7::N5 => Mod7::N3,
            Mod7::N6 => Mod7::N6,
        };
        self.multiplied(&Complex7 { re: inverse, im: Mod7::N0 })
    }

    fn root(size: usize, power: usize) -> (r: Self) {
        if size == 4 {
            match power % 4 {
                0 => Complex7 { re: Mod7::N1, im: Mod7::N0 },
                1 => Complex7 { re: Mod7::N0, im: Mod7::N1 },
                2 => Complex7 { re: Mod7::N6, im: Mod7::N0 },
                _ => Complex7 { re: Mod7::N0, im: Mod7::N6 },
            }
        } else if size == 2 && power % 2 == 1 {
            Complex7 { re: Mod7::N6, im: Mod7::N0 }
        } else {
            Complex7 { re: Mod7::N1, im: Mod7::N0 }
        }
    }

    fn is_finite(&self) -> (r: bool) {
        true
    }
}

/// A number is the remainder of the number that stands for it.
proof fn lemma_reduce_lift(a: Complex7)
    ensures
        Complex7::reduce(a.lift()) == a,
{
}

/// The remainder of a sum is the sum of the remainders.
proof fn lemma_reduce_plus(g: Gaussian, h: Gaussian)
    ensures
        Complex7::reduce(g.plus(h)) == Complex7::reduce(g).plus(Complex7::reduce(h)),
{
    lemma_add_mod_noop(g.re, h.re, 7);
    lemma_add_mod_noop(g.im, h.im, 7);
}

/// The remainder of a product is the product of the remainders.
proof fn lemma_reduce_times(g: Gaussian, h: Gaussian)
    ensures
        Complex7::reduce(g.times(h)) == Complex7::reduce(g).times(Complex7::reduce(h)),
{
    lemma_mul_mod_noop_general(g.re, h.re, 7);
    lemma_mul_mod_noop_general(g.im, h.im, 7);
    lemma_mul_mod_noop_general(g.re, h.im, 7);
    lemma_mul_mod_noop_general(g.im, h.re, 7);
    lemma_sub_mod_noop(g.re * h.re, g.im * h.im, 7);
    lemma_sub_mod_noop((g.re % 7) * (h.re % 7), (g.im % 7) * (h.im % 7), 7);
    lemma_add_mod_noop(g.re * h.im, g.im * h.re, 7);
    lemma_add_mod_noop((g.re % 7) * (h.im % 7), (g.im % 7) * (h.re % 7), 7);
}

/// The remainder of a conjugate is the conjugate of the remainder.
proof fn lemma_reduce_conj(g: Gaussian)
    ensures
        Complex7::reduce(g.conj()) == Complex7::reduce(g).conj(),
{
    lemma_sub_mod_noop(0, g.im, 7);
    lemma_sub_mod_noop(0, g.im % 7, 7);
}

impl Exact for Complex7 {
    proof fn plus_commutes(a: Self, b: Self) {
        Gaussian::plus_commutes(a.lift(), b.lift());
    }

    proof fn plus_associates(a: Self, b: Self, c: Self) {
        let (x, y, z) = (a.lift(), b.lift(), c.lift());
        lemma_reduce_plus(x.plus(y), z);
        lemma_reduce_plus(x, y.plus(z));
        lemma_reduce_lift(a);
        lemma_reduce_lift(c);
        Gaussian::plus_associates(x, y, z);
    }

    proof fn plus_zero(a: Self) {
        lemma_reduce_lift(a);
    }

    proof fn times_commutes(a: Self, b: Self) {
        Gaussian::times_commutes(a.lift(), b.lift());
    }

    proof fn times_associates(a: Self, b: Self, c: Self) {
        let (x, y, z) = (a.lift(), b.lift(), c.lift());
        lemma_reduce_times(x.times(y), z);
        lemma_reduce_times(x, y.times(z));
        lemma_reduce_lift(a);
        lemma_reduce_lift(c);
        Gaussian::times_associates(x, y, z);
    }

    proof fn times_one(a: Self) {
        Gaussian::times_one(a.lift());
        lemma_reduce_lift(a);
    }

    proof fn times_zero(a: Self) {
        Gaussian::times_zero(a.lift());
    }

    proof fn times_distributes(a: Self, b: Self, c: Self) {
        let (x, y, z) = (a.lift(), b.lift(), c.lift());
        lemma_reduce_times(x, y.plus(z));
        lemma_reduce_plus(x.times(y), x.times(z));
        lemma_reduce_lift(a);
        Gaussian::times_distributes(x, y, z);
    }

    proof fn conj_zero() {
    }

    proof fn conj_plus(a: Self, b: Self) {
        let (x, y) = (a.lift(), b.lift());
        lemma_reduce_conj(x.plus(y));
        lemma_reduce_plus(x.conj(), y.conj());
        Gaussian::conj_plus(x, y);
    }

    proof fn conj_times(a: Self, b: Self) {
        let (x, y) = (a.lift(), b.lift());
        lemma_reduce_conj(x.times(y));
        lemma_reduce_times(x.conj(), y.conj());
        Gaussian::conj_times(x, y);
    }

    proof fn conj_conj(a: Self) {
        lemma_reduce_conj(a.lift().conj());
        lemma_reduce_lift(a);
    }
}

/// The remainders of a sequence of complex numbers with whole parts.
pub open spec fn reduce_all(values: Seq<Gaussian>) -> Seq<Complex7> {
    Seq::new(values.len(), |k: int| Complex7::reduce(values[k]))
}

/// The sum of the remainders is the remainder of the sum.
proof fn lemma_reduce_sum(values: Seq<Gaussian>)
    ensures
        sum(reduce_all(values)) == Complex7::reduce(sum(values)),
    decreases values.len(),
{
    if values.len() > 0 {
        assert(reduce_all(values).drop_last() =~= reduce_all(values.drop_last()));
        lemma_reduce_sum(values.drop_last());
        lemma_reduce_plus(sum(values.drop_last()), values.last());
    }
}

/// The entries of the table of roots are the remainders of the roots with
/// whole parts.
proof fn lemma_reduced_root_table(n: nat)
    ensures
        root_table::<Complex7>(n) == reduce_all(root_table::<Gaussian>(n)),
{
    assert(root_table::<Complex7>(n) =~= reduce_all(root_table::<Gaussian>(n)));
}

/// The product of two roots is the root at the sum of their places.
proof fn lemma_reduced_root_product(whole: Seq<Gaussian>, a: int, b: int)
    requires
        roots_of_unity(whole),
        0 <= a < whole.len(),
        0 <= b < whole.len(),
    ensures
        0 <= (a + b) % (whole.len() as int) < whole.len(),
        Complex7::reduce(whole[a]).times(Complex7::reduce(whole[b])) == Complex7::reduce(
            whole[(a + b) % (whole.len() as int)],
        ),
{
    vstd::arithmetic::div_mod::lemma_mod_bound(a + b, whole.len() as int);
    lemma_reduce_times(whole[a], whole[b]);
    assert(whole[a].times(whole[b]) == whole[(a + b) % (whole.len() as int)]);
}

/// The powers of a root other than 1 add up to 0.
proof fn lemma_reduced_root_powers(whole: Seq<Gaussian>, j: int)
    requires
        roots_of_unity(whole),
        0 < j < whole.len(),
    ensures
        sum(powers(reduce_all(whole), j)) == Complex7::reduce(Gaussian::zero()),
{
    let n = whole.len() as int;
    assert forall|k: int| 0 <= k < n implies #[trigger] powers(reduce_all(whole), j)[k]
        == reduce_all(powers(whole, j))[k] by {
        vstd::arithmetic::div_mod::lemma_mod_bound(j * k, n);
    }
    assert(powers(reduce_all(whole), j) =~= reduce_all(powers(whole, j)));
    lemma_reduce_sum(powers(whole, j));
    assert(sum(powers(whole, j)) == Gaussian::zero());
}

/// Every root is the conjugate of the root at the opposite place.
proof fn lemma_reduced_root_conj(whole: Seq<Gaussian>, a: int)
    requires
        conjugate_roots(whole),
        0 <= a < whole.len(),
    ensures
        0 <= (whole.len() - a) % (whole.len() as int) < whole.len(),
        Complex7::reduce(whole[a]).conj() == Complex7::reduce(
            whole[(whole.len() - a) % (whole.len() as int)],
        ),
{
    vstd::arithmetic::div_mod::lemma_mod_bound(whole.len() - a, whole.len() as int);
    lemma_reduce_conj(whole[a]);
    assert(whole[a].conj() == whole[(whole.len() - a) % (whole.len() as int)]);
}

/// The orders 1, 2 and 4 have tables of roots of unity among these numbers, and
/// each root is the conjugate of the one at the opposite place.
pub proof fn lemma_roots_of_complex7(n: nat)
    requires
        n == 1 || n == 2 || n == 4,
    ensures
        roots_of_unity(root_table::<Complex7>(n)),
        conjugate_roots(root_table::<Complex7>(n)),
{
    let whole = root_table::<Gaussian>(n);
    let w = root_table::<Complex7>(n);
    lemma_gaussian_roots(n);
    lemma_reduced_root_table(n);
    assert(w.len() == n && whole.len() == n);
    assert(w[0] == Complex7::reduce(whole[0]));
    assert(whole[0] == Gaussian::one());
    assert forall|a: int, b: int| 0 <= a < n && 0 <= b < n implies #[trigger] w[a].times(w[b])
        == w[(a + b) % (n as int)] by {
        lemma_reduced_root_product(whole, a, b);
    }
    assert forall|j: int| 0 < j < n implies sum(#[trigger] powers(w, j)) == Complex7::zero() by {
        lemma_reduced_root_powers(whole, j);
    }
    assert forall|a: int| 0 <= a < n implies (#[trigger] w[a]).conj() == w[(n - a) % (
    n as int)] by {
        lemma_reduced_root_conj(whole, a);
    }
}

/// A number added to itself `count` times is the remainder of `count` times
/// the number that stands for it.
proof fn lemma_multiple(count: nat, x: Complex7)
    ensures
        multiple(count, x) == Complex7::reduce(
            Gaussian { re: count * x.re.number(), im: count * x.im.number() },
        ),
    decreases count,
{
    let copies = Seq::new(count, |k: int| x);
    if count == 0 {
        assert(0 * x.re.number() == 0 && 0 * x.im.number() == 0);
    } else {
        let fewer = (count - 1) as nat;
        assert(copies.drop_last() =~= Seq::new(fewer, |k: int| x));
        lemma_multiple(fewer, x);
        let before = Gaussian { re: fewer * x.re.number(), im: fewer * x.im.number() };
        lemma_reduce_plus(before, x.lift());
        lemma_reduce_lift(x);
        assert(fewer * x.re.number() + x.re.number() == count * x.re.number()
            && fewer * x.im.number() + x.im.number() == count * x.im.number())
            by (nonlinear_arith)
            requires
                fewer + 1 == count,
        ;
    }
}

/// The quotient of a sum is the sum of the quotients.
proof fn lemma_over_plus(a: Complex7, b: Complex7, n: usize)
    ensures
        a.plus(b).over(n) == a.over(n).plus(b.over(n)),
{
    let by = Complex7::inverse_of(n);
    Complex7::times_commutes(a.plus(b), by);
    Complex7::times_distributes(by, a, b);
    Complex7::times_commutes(by, a);
    Complex7::times_commutes(by, b);
}

/// The quotient of a product is the product with the quotient of a factor.
proof fn lemma_over_times(a: Complex7, b: Complex7, n: usize)
    ensures
        a.times(b).over(n) == a.over(n).times(b),
{
    let by = Complex7::inverse_of(n);
    Complex7::times_associates(a, b, by);
    Complex7::times_commutes(b, by);
    Complex7::times_associates(a, by, b);
}

/// A number on the real axis is its own conjugate.
proof fn lemma_real_conj(part: Mod7)
    ensures
        (Complex7 { re: part, im: Mod7::N0 }).conj() == (Complex7 { re: part, im: Mod7::N0 }),
{
    assert(Mod7::of(part.number()) == part);
    assert(Mod7::of(-0) == Mod7::N0);
}

/// The quotient of a conjugate is the conjugate of the quotient.
proof fn lemma_over_conj(a: Complex7, n: usize)
    ensures
        a.conj().over(n) == a.over(n).conj(),
{
    let by = Complex7::inverse_of(n);
    lemma_real_conj(Mod7::of(n as int).inverse());
    let turned = a.conj();
    let quotient = a.times(by);
    assert(quotient.conj() == turned.times(by.conj())) by {
        Complex7::conj_times(a, by);
    }
}

/// The product of the number that stands for a multiple with the inverse of
/// the count.
proof fn lemma_grown_times_inverse(n: int, e: int, x: Gaussian)
    ensures
        (Gaussian { re: n * x.re, im: n * x.im }).times(Gaussian { re: e, im: 0 }) == (Gaussian {
            re: (n * e) * x.re,
            im: (n * e) * x.im,
        }),
{
    assert((n * x.re) * e - (n * x.im) * 0 == (n * e) * x.re) by (nonlinear_arith);
    assert((n * x.re) * 0 + (n * x.im) * e == (n * e) * x.im) by (nonlinear_arith);
}

/// A part multiplied by a number that is 1 modulo 7 keeps its remainder.
proof fn lemma_times_unit(u: int, part: Mod7)
    requires
        u % 7 == 1,
    ensures
        Mod7::of(u * part.number()) == part,
{
    lemma_mul_mod_noop_general(u, part.number(), 7);
    lemma_small_mod(part.number() as nat, 7);
    assert(1 * part.number() == part.number());
}

/// Dividing by the count undoes adding a number to itself that many times.
proof fn lemma_over_multiple(x: Complex7, n: usize)
    requires
        n % 7 != 0,
    ensures
        multiple(n as nat, x).over(n) == x,
{
    let by = Complex7::inverse_of(n);
    let e = Mod7::of(n as int).inverse().number();
    let grown = Gaussian { re: n * x.re.number(), im: n * x.im.number() };
    lemma_multiple(n as nat, x);
    lemma_reduce_times(grown, by.lift());
    lemma_reduce_lift(by);
    // The count times its inverse is 1 modulo 7.
    assert(((n as int) * e) % 7 == 1) by {
        lemma_mul_mod_noop_general(n as int, e, 7);
        lemma_small_mod(e as nat, 7);
    }
    lemma_grown_times_inverse(n as int, e, x.lift());
    lemma_times_unit((n as int) * e, x.re);
    lemma_times_unit((n as int) * e, x.im);
}

/// Every count that is not a multiple of 7 divides among these numbers.
pub proof fn lemma_divides_in_complex7(n: usize)
    requires
        n % 7 != 0,
    ensures
        divides_by::<Complex7>(n),
{
    assert forall|a: Complex7, b: Complex7| #[trigger]
        a.plus(b).over(n) == a.over(n).plus(b.over(n)) by {
        lemma_over_plus(a, b, n);
    }
    assert forall|a: Complex7, b: Complex7| #[trigger]
        a.times(b).over(n) == a.over(n).times(b) by {
        lemma_over_times(a, b, n);
    }
    assert forall|a: Complex7| #[trigger] a.conj().over(n) == a.over(n).conj() by {
        lemma_over_conj(a, n);
    }
    assert forall|x: Complex7| (#[trigger] multiple(n as nat, x)).over(n) == x by {
        lemma_over_multiple(x, n);
    }
}

} // verus!
