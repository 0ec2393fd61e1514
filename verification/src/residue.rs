//! The whole numbers modulo 7, as numbers without rounding with which a
//! program can compute.
//!
//! They have roots of unity of the orders 1, 2, 3 and 6, and every count that
//! is not a multiple of 7 divides among them. So a transform of one of these
//! sizes can be run in them without rounding.
use crate::exact::{
    multiple, powers, root_table, roots_of_unity, sum, Arithmetic, Exact, Number,
};
use crate::inversion::divides_by;
use vstd::arithmetic::div_mod::{
    lemma_add_mod_noop, lemma_mul_mod_noop_general, lemma_mul_mod_noop_right,
};
use vstd::arithmetic::mul::{lemma_mul_is_associative, lemma_mul_is_distributive_add};
use vstd::prelude::*;

verus! {

/// A whole number modulo 7.
#[derive(Clone, Copy, Debug, PartialEq, Eq, Structural)]
pub enum Mod7 {
    N0,
    N1,
    N2,
    N3,
    N4,
    N5,
    N6,
}

impl Mod7 {
    /// The number from 0 to 6 that stands for the residue.
    pub open spec fn number(self) -> int {
        match self {
            Mod7::N0 => 0,
            Mod7::N1 => 1,
            Mod7::N2 => 2,
            Mod7::N3 => 3,
            Mod7::N4 => 4,
            Mod7::N5 => 5,
            Mod7::N6 => 6,
        }
    }

    /// The residue of a whole number.
    pub open spec fn of(n: int) -> Mod7 {
        let r = n % 7;
        if r == 0 {
            Mod7::N0
        } else if r == 1 {
            Mod7::N1
        } else if r == 2 {
            Mod7::N2
        } else if r == 3 {
            Mod7::N3
        } else if r == 4 {
            Mod7::N4
        } else if r == 5 {
            Mod7::N5
        } else {
            Mod7::N6
        }
    }

    /// The residue whose product with this one is 1, and 0 for 0.
    pub open spec fn inverse(self) -> Mod7 {
        match self {
            Mod7::N0 => Mod7::N0,
            Mod7::N1 => Mod7::N1,
            Mod7::N2 => Mod7::N4,
            Mod7::N3 => Mod7::N5,
            Mod7::N4 => Mod7::N2,
            Mod7::N5 => Mod7::N3,
            Mod7::N6 => Mod7::N6,
        }
    }

    /// The power `power` of 3, which runs through all residues but 0.
    pub open spec fn power_of_three(power: int) -> Mod7 {
        let r = power % 6;
        if r == 0 {
            Mod7::N1
        } else if r == 1 {
            Mod7::N3
        } else if r == 2 {
            Mod7::N2
        } else if r == 3 {
            Mod7::N6
        } else if r == 4 {
            Mod7::N4
        } else {
            Mod7::N5
        }
    }

    /// The number from 0 to 6 that stands for the residue.
    pub fn value(&self) -> (v: u8)
        ensures
            v == self.number(),
    {
        match self {
            Mod7::N0 => 0,
            Mod7::N1 => 1,
            Mod7::N2 => 2,
            Mod7::N3 => 3,
            Mod7::N4 => 4,
            Mod7::N5 => 5,
            Mod7::N6 => 6,
        }
    }

    /// The residue of a whole number.
    pub fn new(n: u64) -> (r: Mod7)
        ensures
            r == Mod7::of(n as int),
    {
        let v = n % 7;
        if v == 0 {
            Mod7::N0
        } else if v == 1 {
            Mod7::N1
        } else if v == 2 {
            Mod7::N2
        } else if v == 3 {
            Mod7::N3
        } else if v == 4 {
            Mod7::N4
        } else if v == 5 {
            Mod7::N5
        } else {
            Mod7::N6
        }
    }

    fn inverted(&self) -> (r: Mod7)
        ensures
            r == self.inverse(),
    {
        match self {
            Mod7::N0 => Mod7::N0,
            Mod7::N1 => Mod7::N1,
            Mod7::N2 => Mod7::N4,
            Mod7::N3 => Mod7::N5,
            Mod7::N4 => Mod7::N2,
            Mod7::N5 => Mod7::N3,
            Mod7::N6 => Mod7::N6,
        }
    }
}

impl Number for Mod7 {
    open spec fn zero() -> Self {
        Mod7::N0
    }

    open spec fn one() -> Self {
        Mod7::N1
    }

    open spec fn plus(self, other: Self) -> Self {
        Mod7::of(self.number() + other.number())
    }

    open spec fn times(self, other: Self) -> Self {
        Mod7::of(self.number() * other.number())
    }

    /// Every residue is its own conjugate.
    open spec fn conj(self) -> Self {
        self
    }

    /// The product with the inverse of the count. A multiple of 7 does not
    /// divide: the quotient is then 0.
    open spec fn over(self, count: usize) -> Self {
        self.times(Mod7::of(count as int).inverse())
    }

    /// A power of 3 for the orders 1, 2, 3 and 6: 3 is a root of order 6, and
    /// its powers 2, 6 and 1 are roots of the orders 3, 2 and 1. No other order
    /// has a root: 1 stands in its place.
    open spec fn unit_root(size: usize, power: usize) -> Self {
        if size == 1 || size == 2 || size == 3 || size == 6 {
            Mod7::power_of_three((6int / (size as int)) * ((power as int) % (size as int)))
        } else {
            Mod7::N1
        }
    }

    open spec fn finite(self) -> bool {
        true
    }
}

impl Arithmetic for Mod7 {
    fn new_zero() -> (r: Self) {
        Mod7::N0
    }

    fn added(&self, other: &Self) -> (r: Self) {
        Mod7::new((self.value() + other.value()) as u64)
    }

    fn multiplied(&self, other: &Self) -> (r: Self) {
        assert(self.number() * other.number() <= 36) by (nonlinear_arith)
            requires
                0 <= self.number() <= 6,
                0 <= other.number() <= 6,
        ;
        Mod7::new((self.value() * other.value()) as u64)
    }

    fn conjugated(&self) -> (r: Self) {
        *self
    }

    fn divided(&self, count: usize) -> (r: Self) {
        let by = Mod7::new((count % 7) as u64);
        assert(Mod7::of((count % 7) as int) == Mod7::of(count as int)) by {
            vstd::arithmetic::div_mod::lemma_mod_twice(count as int, 7);
        }
        self.multiplied(&by.inverted())
    }

    fn root(size: usize, power: usize) -> (r: Self) {
        if size == 1 || size == 2 || size == 3 || size == 6 {
            let step = 6 / size;
            let place = power % size;
            assert(step * place <= 36) by (nonlinear_arith)
                requires
                    0 <= step <= 6,
                    0 <= place <= 6,
            ;
            let turns = step * place;
            match turns % 6 {
                0 => Mod7::N1,
                1 => Mod7::N3,
                2 => Mod7::N2,
                3 => Mod7::N6,
                4 => Mod7::N4,
                _ => Mod7::N5,
            }
        } else {
            Mod7::N1
        }
    }

    fn is_finite(&self) -> (r: bool) {
        true
    }
}

/// The residue of the number of a residue is the residue itself, and the
/// number of the residue of a whole number is its remainder.
proof fn lemma_residue(a: Mod7, n: int)
    ensures
        Mod7::of(a.number()) == a,
        Mod7::of(n).number() == n % 7,
        0 <= a.number() < 7,
{
}

impl Exact for Mod7 {
    proof fn plus_commutes(a: Self, b: Self) {
    }

    proof fn plus_associates(a: Self, b: Self, c: Self) {
        lemma_residue(a, a.number() + b.number());
        lemma_residue(a, b.number() + c.number());
    }

    proof fn plus_zero(a: Self) {
        lemma_residue(a, 0);
    }

    proof fn times_commutes(a: Self, b: Self) {
        assert(a.number() * b.number() == b.number() * a.number()) by (nonlinear_arith);
    }

    proof fn times_associates(a: Self, b: Self, c: Self) {
        let (x, y, z) = (a.number(), b.number(), c.number());
        lemma_residue(a, x * y);
        lemma_residue(a, y * z);
        lemma_mul_mod_noop_general(x * y, z, 7);
        lemma_mul_mod_noop_general(x, y * z, 7);
        lemma_mul_is_associative(x, y, z);
        lemma_residue(c, 0);
        vstd::arithmetic::div_mod::lemma_small_mod(z as nat, 7);
        vstd::arithmetic::div_mod::lemma_small_mod(x as nat, 7);
    }

    proof fn times_one(a: Self) {
        lemma_residue(a, 0);
        assert(a.number() * 1 == a.number());
    }

    proof fn times_zero(a: Self) {
        assert(a.number() * 0 == 0);
    }

    proof fn times_distributes(a: Self, b: Self, c: Self) {
        let (x, y, z) = (a.number(), b.number(), c.number());
        lemma_residue(a, y + z);
        lemma_residue(a, x * y);
        lemma_residue(a, x * z);
        lemma_mul_mod_noop_right(x, y + z, 7);
        lemma_mul_is_distributive_add(x, y, z);
        lemma_add_mod_noop(x * y, x * z, 7);
    }

    proof fn conj_zero() {
    }

    proof fn conj_plus(a: Self, b: Self) {
    }

    proof fn conj_times(a: Self, b: Self) {
    }

    proof fn conj_conj(a: Self) {
    }
}

/// The powers of 3 multiply as powers do.
proof fn lemma_power_product(p: int, q: int)
    ensures
        Mod7::power_of_three(p).times(Mod7::power_of_three(q)) == Mod7::power_of_three(p + q),
{
    lemma_add_mod_noop(p, q, 6);
    let a = p % 6;
    let b = q % 6;
    let x = Mod7::power_of_three(p).number();
    let y = Mod7::power_of_three(q).number();
    assert(x * y == if a == 0 {
        y
    } else if a == 1 {
        3 * y
    } else if a == 2 {
        2 * y
    } else if a == 3 {
        6 * y
    } else if a == 4 {
        4 * y
    } else {
        5 * y
    }) by (nonlinear_arith)
        requires
            x == if a == 0 {
                1int
            } else if a == 1 {
                3int
            } else if a == 2 {
                2int
            } else if a == 3 {
                6int
            } else if a == 4 {
                4int
            } else {
                5int
            },
    ;
}

/// The entries of the table of roots of an order that has a root.
proof fn lemma_root_entry(n: nat, m: int)
    requires
        n == 1 || n == 2 || n == 3 || n == 6,
        0 <= m < n,
    ensures
        root_table::<Mod7>(n)[m] == Mod7::power_of_three((6int / (n as int)) * m),
{
}

/// The product of two roots is the root at the sum of their places.
proof fn lemma_root_product(n: nat, a: int, b: int)
    requires
        n == 1 || n == 2 || n == 3 || n == 6,
        0 <= a < n,
        0 <= b < n,
    ensures
        root_table::<Mod7>(n)[a].times(root_table::<Mod7>(n)[b]) == root_table::<Mod7>(n)[(a + b)
            % (n as int)],
{
    let step = 6int / (n as int);
    lemma_root_entry(n, a);
    lemma_root_entry(n, b);
    lemma_root_entry(n, (a + b) % (n as int));
    lemma_power_product(step * a, step * b);
    assert(step * a + step * b == step * (a + b)) by (nonlinear_arith);
    // A whole turn of the table is a whole turn of the powers of 3.
    let whole = (a + b) / (n as int);
    assert(a + b == (n as int) * whole + (a + b) % (n as int)) by {
        vstd::arithmetic::div_mod::lemma_fundamental_div_mod(a + b, n as int);
    }
    assert(step * (a + b) == 6 * whole + step * ((a + b) % (n as int))) by (nonlinear_arith)
        requires
            a + b == (n as int) * whole + (a + b) % (n as int),
            step * (n as int) == 6,
    ;
    vstd::arithmetic::div_mod::lemma_mod_multiples_vanish(
        whole,
        step * ((a + b) % (n as int)),
        6,
    );
}

/// The sum of a sequence of residues is the residue of the sum of their
/// numbers.
pub open spec fn numbers_sum(values: Seq<Mod7>) -> int
    decreases values.len(),
{
    if values.len() == 0 {
        0
    } else {
        numbers_sum(values.drop_last()) + values.last().number()
    }
}

proof fn lemma_sum_of_numbers(values: Seq<Mod7>)
    ensures
        sum(values) == Mod7::of(numbers_sum(values)),
    decreases values.len(),
{
    if values.len() > 0 {
        lemma_sum_of_numbers(values.drop_last());
        lemma_residue(values.last(), numbers_sum(values.drop_last()));
        lemma_add_mod_noop(numbers_sum(values.drop_last()), values.last().number(), 7);
        vstd::arithmetic::div_mod::lemma_small_mod(values.last().number() as nat, 7);
    }
}

/// A sequence with one residue more adds the number of that residue.
proof fn lemma_numbers_push(values: Seq<Mod7>, last: Mod7)
    ensures
        numbers_sum(values.push(last)) == numbers_sum(values) + last.number(),
{
    assert(values.push(last).drop_last() =~= values);
}

/// The numbers of the powers of a root add up to the sum of the numbers of the
/// first `count` of them.
spec fn powers_sum(n: nat, j: int, count: int) -> int
    decreases count,
{
    if count <= 0 {
        0
    } else {
        powers_sum(n, j, count - 1) + Mod7::power_of_three(
            (6int / (n as int)) * ((j * (count - 1)) % (n as int)),
        ).number()
    }
}

proof fn lemma_powers_sum(n: nat, j: int, count: int)
    requires
        n == 1 || n == 2 || n == 3 || n == 6,
        0 <= count <= n,
    ensures
        numbers_sum(powers(root_table::<Mod7>(n), j).take(count)) == powers_sum(n, j, count),
    decreases count,
{
    let turns = powers(root_table::<Mod7>(n), j);
    if count > 0 {
        lemma_powers_sum(n, j, count - 1);
        assert(turns.take(count) =~= turns.take(count - 1).push(turns[count - 1]));
        lemma_numbers_push(turns.take(count - 1), turns[count - 1]);
        vstd::arithmetic::div_mod::lemma_mod_bound(j * (count - 1), n as int);
        lemma_root_entry(n, (j * (count - 1)) % (n as int));
    } else {
        assert(turns.take(0) =~= Seq::<Mod7>::empty());
    }
}

/// The number of a power of 3.
spec fn number_of_power(turn: int) -> int {
    if turn == 0 {
        1
    } else if turn == 1 {
        3
    } else if turn == 2 {
        2
    } else if turn == 3 {
        6
    } else if turn == 4 {
        4
    } else {
        5
    }
}

/// One more power in the sum of the numbers of the powers of a root.
proof fn lemma_powers_sum_next(n: nat, j: int, count: int, before: int, turn: int)
    requires
        n > 0,
        count >= 1,
        powers_sum(n, j, count - 1) == before,
        0 <= turn < 6,
        turn == ((6int / (n as int)) * ((j * (count - 1)) % (n as int))) % 6,
    ensures
        powers_sum(n, j, count) == before + number_of_power(turn),
{
}

/// The powers of a root other than 1 add up to 0.
proof fn lemma_root_powers(n: nat, j: int)
    requires
        n == 1 || n == 2 || n == 3 || n == 6,
        0 < j < n,
    ensures
        sum(powers(root_table::<Mod7>(n), j)) == Mod7::N0,
{
    let turns = powers(root_table::<Mod7>(n), j);
    lemma_sum_of_numbers(turns);
    lemma_powers_sum(n, j, n as int);
    assert(turns.take(n as int) =~= turns);
    assert(powers_sum(n, j, 0) == 0);
    if n == 2 && j == 1 {
        lemma_powers_sum_next(2, 1, 1, 0, 0);
        lemma_powers_sum_next(2, 1, 2, 1, 3);
        assert(powers_sum(2, 1, 2) == 7);
    } else if n == 3 && j == 1 {
        lemma_powers_sum_next(3, 1, 1, 0, 0);
        lemma_powers_sum_next(3, 1, 2, 1, 2);
        lemma_powers_sum_next(3, 1, 3, 3, 4);
        assert(powers_sum(3, 1, 3) == 7);
    } else if n == 3 && j == 2 {
        lemma_powers_sum_next(3, 2, 1, 0, 0);
        lemma_powers_sum_next(3, 2, 2, 1, 4);
        lemma_powers_sum_next(3, 2, 3, 5, 2);
        assert(powers_sum(3, 2, 3) == 7);
    } else if n == 6 && j == 1 {
        lemma_powers_sum_next(6, 1, 1, 0, 0);
        lemma_powers_sum_next(6, 1, 2, 1, 1);
        lemma_powers_sum_next(6, 1, 3, 4, 2);
        lemma_powers_sum_next(6, 1, 4, 6, 3);
        lemma_powers_sum_next(6, 1, 5, 12, 4);
        lemma_powers_sum_next(6, 1, 6, 16, 5);
        assert(powers_sum(6, 1, 6) == 21);
    } else if n == 6 && j == 2 {
        lemma_powers_sum_next(6, 2, 1, 0, 0);
        lemma_powers_sum_next(6, 2, 2, 1, 2);
        lemma_powers_sum_next(6, 2, 3, 3, 4);
        lemma_powers_sum_next(6, 2, 4, 7, 0);
        lemma_powers_sum_next(6, 2, 5, 8, 2);
        lemma_powers_sum_next(6, 2, 6, 10, 4);
        assert(powers_sum(6, 2, 6) == 14);
    } else if n == 6 && j == 3 {
        lemma_powers_sum_next(6, 3, 1, 0, 0);
        lemma_powers_sum_next(6, 3, 2, 1, 3);
        lemma_powers_sum_next(6, 3, 3, 7, 0);
        lemma_powers_sum_next(6, 3, 4, 8, 3);
        lemma_powers_sum_next(6, 3, 5, 14, 0);
        lemma_powers_sum_next(6, 3, 6, 15, 3);
        assert(powers_sum(6, 3, 6) == 21);
    } else if n == 6 && j == 4 {
        lemma_powers_sum_next(6, 4, 1, 0, 0);
        lemma_powers_sum_next(6, 4, 2, 1, 4);
        lemma_powers_sum_next(6, 4, 3, 5, 2);
        lemma_powers_sum_next(6, 4, 4, 7, 0);
        lemma_powers_sum_next(6, 4, 5, 8, 4);
        lemma_powers_sum_next(6, 4, 6, 12, 2);
        assert(powers_sum(6, 4, 6) == 14);
    } else if n == 6 && j == 5 {
        lemma_powers_sum_next(6, 5, 1, 0, 0);
        lemma_powers_sum_next(6, 5, 2, 1, 5);
        lemma_powers_sum_next(6, 5, 3, 6, 4);
        lemma_powers_sum_next(6, 5, 4, 10, 3);
        lemma_powers_sum_next(6, 5, 5, 16, 2);
        lemma_powers_sum_next(6, 5, 6, 18, 1);
        assert(powers_sum(6, 5, 6) == 21);
    }
}

/// The orders 1, 2, 3 and 6 have tables of roots of unity modulo 7.
pub proof fn lemma_roots_modulo_seven(n: nat)
    requires
        n == 1 || n == 2 || n == 3 || n == 6,
    ensures
        roots_of_unity(root_table::<Mod7>(n)),
{
    let w = root_table::<Mod7>(n);
    lemma_root_entry(n, 0);
    assert((6int / (n as int)) * 0 == 0);
    assert(w[0] == Mod7::N1);
    assert forall|a: int, b: int| 0 <= a < w.len() && 0 <= b < w.len() implies #[trigger] w[a]
        .times(w[b]) == w[(a + b) % (w.len() as int)] by {
        lemma_root_product(n, a, b);
    }
    assert forall|j: int| 0 < j < w.len() implies sum(#[trigger] powers(w, j)) == Mod7::zero() by {
        lemma_root_powers(n, j);
    }
}

/// A number added to itself `count` times is the residue of `count` times its
/// number.
proof fn lemma_multiple(count: nat, x: Mod7)
    ensures
        multiple(count, x) == Mod7::of(count * x.number()),
    decreases count,
{
    let copies = Seq::new(count, |k: int| x);
    if count == 0 {
        assert(0 * x.number() == 0);
    } else {
        let fewer = (count - 1) as nat;
        assert(copies.drop_last() =~= Seq::new(fewer, |k: int| x));
        lemma_multiple(fewer, x);
        lemma_residue(x, fewer * x.number());
        lemma_add_mod_noop(fewer * x.number(), x.number(), 7);
        vstd::arithmetic::div_mod::lemma_small_mod(x.number() as nat, 7);
        assert(fewer * x.number() + x.number() == count * x.number()) by (nonlinear_arith)
            requires
                fewer + 1 == count,
        ;
    }
}

/// Every count that is not a multiple of 7 divides modulo 7.
pub proof fn lemma_divides_modulo_seven(n: usize)
    requires
        n % 7 != 0,
    ensures
        divides_by::<Mod7>(n),
{
    let by = Mod7::of(n as int).inverse();
    assert forall|a: Mod7, b: Mod7| #[trigger] a.plus(b).over(n) == a.over(n).plus(b.over(n)) by {
        Mod7::times_commutes(a.plus(b), by);
        Mod7::times_distributes(by, a, b);
        Mod7::times_commutes(by, a);
        Mod7::times_commutes(by, b);
    }
    assert forall|a: Mod7, b: Mod7| #[trigger] a.times(b).over(n) == a.over(n).times(b) by {
        Mod7::times_associates(a, b, by);
        Mod7::times_commutes(b, by);
        Mod7::times_associates(a, by, b);
    }
    assert forall|x: Mod7| (#[trigger] multiple(n as nat, x)).over(n) == x by {
        lemma_multiple(n as nat, x);
        // n * x / n: the count times its inverse is 1.
        let count = Mod7::of(n as int);
        assert(count.times(by) == Mod7::N1);
        lemma_residue(x, (n as int) * x.number());
        lemma_mul_mod_noop_general(n as int, x.number(), 7);
        vstd::arithmetic::div_mod::lemma_small_mod(x.number() as nat, 7);
        assert(Mod7::of((n as int) * x.number()) == count.times(x));
        Mod7::times_commutes(count, x);
        Mod7::times_associates(x, count, by);
        Mod7::times_one(x);
    }
}

} // verus!
