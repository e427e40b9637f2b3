//! Arithmetic on single elements of GF(2^16), directly and through logarithm tables.

use vstd::prelude::*;

use crate::galois::field;
use crate::galois::order;

verus! {

/// The polynomial that PAR2 reduces by, `x^16 + x^12 + x^3 + x + 1`.
pub const PRIMITIVE_POLY: u32 = 0x1100B;

/// The number of elements of the field.
pub const GF_SIZE: usize = 65536;

/// Multiplying by 2 is multiplying by `x`.
pub proof fn lemma_double(p: u16)
    ensures
        field::product(2, p) == field::xtime(p),
{
    assert(field::product(2, p) == field::xtime(p)) by (bit_vector);
}

/// Twice an element: the bits move up by one, and if the highest one moves out, the polynomial
/// `x^16 + x^12 + x^3 + x + 1` is taken away.
pub proof fn law_doubling(a: u16)
    ensures
        a < 0x8000 ==> field::product(2, a) == 2 * a,
        a >= 0x8000 ==> field::product(2, a) == (((2 * a - 0x10000) as u16) ^ 0x100B),
{
    lemma_double(a);
    let twice = a << 1;
    assert(a < 0x8000 ==> a & 0x8000 == 0 && (a << 1) == 2 * a) by (bit_vector);
    assert(a >= 0x8000 ==> a & 0x8000 != 0 && (a << 1) == 2 * a - 0x10000) by (bit_vector);
}

/// Multiply two elements of GF(2^16).
pub fn gf_mul(a: u16, b: u16) -> (r: u16)
    ensures
        r == field::product(a, b),
{
    let mut acc: u16 = 0;
    let mut x: u16 = a;
    let mut y: u16 = b;
    proof {
        field::law_xor(field::product(a, b), 0, 0);
    }
    for i in 0..16u32
        invariant
            acc ^ field::times_bits(x, y, (16 - i) as nat) == field::product(a, b),
    {
        let ghost rest = field::times_bits(field::xtime(x), y >> 1, (16 - i - 1) as nat);
        proof {
            field::law_xor(acc, x, rest);
            field::law_xor(rest, 0, 0);
            assert(field::times_bits(x, y, (16 - i) as nat) == (if y & 1 == 1 {
                x
            } else {
                0u16
            }) ^ rest);
        }
        if y & 1 == 1 {
            acc = acc ^ x;
        }
        if x & 0x8000 != 0 {
            x = (x << 1) ^ 0x100B;
        } else {
            x = x << 1;
        }
        y = y >> 1;
    }
    proof {
        field::law_xor(acc, 0, 0);
    }
    acc
}

/// Raise an element of GF(2^16) to a power.
///
/// The power 0 of every element is 1, that of 0 too.
pub fn gf_pow(a: u16, n: usize) -> (r: u16)
    ensures
        r == field::power(a, n as nat),
{
    let mut acc: u16 = 1;
    let mut base: u16 = a;
    let mut e: usize = n;
    proof {
        field::law_product_one(field::power(a, n as nat));
    }
    while e > 0
        invariant
            field::product(acc, field::power(base, e as nat)) == field::power(a, n as nat),
        decreases e,
    {
        let ghost h = (e / 2) as nat;
        let square = gf_mul(base, base);
        proof {
            lemma_square_power(base, h);
            if e % 2 == 1 {
                assert(e as nat == 1 + 2 * h);
                field::law_power_adds(base, 1, 2 * h);
                lemma_power_one(base);
                field::law_product_associates(acc, base, field::power(square, h));
            } else {
                assert(e as nat == 2 * h);
            }
        }
        if e % 2 == 1 {
            acc = gf_mul(acc, base);
        }
        base = square;
        e = e / 2;
    }
    proof {
        field::law_product_one(acc);
    }
    acc
}

proof fn lemma_power_one(a: u16)
    ensures
        field::power(a, 1) == a,
{
    field::law_product_one(a);
    assert(field::power(a, 0) == 1);
}

proof fn lemma_square_power(a: u16, h: nat)
    ensures
        field::power(field::product(a, a), h) == field::power(a, 2 * h),
{
    lemma_power_one(a);
    field::law_power_adds(a, 1, 1);
    field::law_power_multiplies(a, 2, h);
}

/// Divide two elements of GF(2^16). `None` if the divisor is 0.
pub fn gf_div(a: u16, b: u16) -> (r: Option<u16>)
    ensures
        r is None <==> b == 0,
        r matches Some(q) ==> q == order::quotient(a, b) && field::product(q, b) == a,
{
    if b == 0 {
        return None;
    }
    proof {
        order::law_quotient(a, b);
    }
    let inverse = gf_pow(b, GF_SIZE - 2);
    Some(gf_mul(a, inverse))
}

/// Tables of the logarithms and of the powers of the generator 2.
pub struct GfTables {
    log: Vec<u16>,
    exp: Vec<u16>,
}

impl GfTables {
    /// `log` holds the logarithm of every nonzero element, and 0 for 0; `exp` the powers of 2 twice
    /// over.
    pub closed spec fn wf(&self) -> bool {
        &&& self.log@.len() == 65536
        &&& self.exp@.len() == 131072
        &&& self.log@[0] == 0
        &&& forall|a: u16| a != 0 ==> #[trigger] self.log@[a as int] == order::logarithm(a)
        &&& forall|i: int| 0 <= i < 131070 ==> #[trigger] self.exp@[i] == field::power(2, i as nat)
    }

    /// The logarithm to the base 2 of an element. That of 0 is undefined and given as 0.
    pub fn log(&self, a: u16) -> (r: u16)
        requires
            self.wf(),
        ensures
            r == (if a == 0 {
                0
            } else {
                order::logarithm(a)
            }),
    {
        self.log[a as usize]
    }

    /// The power of 2 with exponent `i`.
    pub fn exp(&self, i: usize) -> (r: u16)
        requires
            self.wf(),
            i < 131070,
        ensures
            r == field::power(2, i as nat),
    {
        self.exp[i]
    }

    /// Multiply two elements: log(a*b) = log(a) + log(b).
    pub fn gf_mul(&self, a: u16, b: u16) -> (r: u16)
        requires
            self.wf(),
        ensures
            r == field::product(a, b),
    {
        proof {
            field::law_product_zero(a);
            field::law_product_zero(b);
        }
        if a == 0 || b == 0 {
            return 0;
        }
        proof {
            order::law_logarithm(a);
            order::law_logarithm(b);
            field::law_power_adds(2, order::logarithm(a), order::logarithm(b));
        }
        let log_a = self.log(a) as usize;
        let log_b = self.log(b) as usize;
        self.exp(log_a + log_b)
    }

    /// Divide two elements: log(a/b) = log(a) - log(b). `None` if the divisor is 0.
    pub fn gf_div(&self, a: u16, b: u16) -> (r: Option<u16>)
        requires
            self.wf(),
        ensures
            r is None <==> b == 0,
            r matches Some(q) ==> q == order::quotient(a, b),
    {
        if b == 0 {
            return None;
        }
        proof {
            field::law_product_zero(order::inverse(b));
        }
        if a == 0 {
            return Some(0);
        }
        let log_a = self.log(a) as usize;
        let log_b = self.log(b) as usize;
        proof {
            order::law_logarithm(a);
            order::law_logarithm(b);
        }
        let log_result: usize = if log_a >= log_b {
            log_a - log_b
        } else {
            log_a + (GF_SIZE - 1) - log_b
        };
        proof {
            let q = field::power(2, log_result as nat);
            field::law_power_adds(2, log_result as nat, log_b as nat);
            order::law_power_of_two_wraps(log_a as nat);
            assert(field::product(q, b) == a);
            order::law_quotient(q, b);
        }
        Some(self.exp(log_result))
    }

    /// Raise an element to a power: log(a^n) = n * log(a).
    pub fn gf_pow(&self, a: u16, n: usize) -> (r: u16)
        requires
            self.wf(),
        ensures
            r == field::power(a, n as nat),
    {
        if a == 0 {
            proof {
                if n > 0 {
                    field::law_product_zero(field::power(0, (n - 1) as nat));
                }
            }
            return if n == 0 {
                1
            } else {
                0
            };
        }
        if n == 0 {
            return 1;
        }
        let log_a = self.log(a);
        proof {
            order::law_logarithm(a);
            field::law_power_multiplies(2, log_a as nat, n as nat);
            order::law_power_of_two_wraps(log_a as nat * n as nat);
            assert(log_a as u128 * n as u128 <= u128::MAX) by (nonlinear_arith)
                requires
                    log_a <= 65535,
                    n <= 0xffff_ffff_ffff_ffff,
            ;
        }
        let log_result = (log_a as u128 * n as u128) % 65535;
        self.exp(log_result as usize)
    }
}

/// Build the logarithm and power tables of GF(2^16).
pub fn init_tables() -> (tables: GfTables)
    ensures
        tables.wf(),
{
    let mut log: Vec<u16> = vec![0u16; GF_SIZE];
    let mut exp: Vec<u16> = vec![0u16; GF_SIZE * 2];
    let mut b: u32 = 1;
    for i in 0..65535usize
        invariant
            log@.len() == 65536,
            exp@.len() == 131072,
            b < 65536,
            log@[0] == 0,
            b as u16 == field::power(2, i as nat),
            forall|j: int| 0 <= j < i ==> #[trigger] exp@[j] == field::power(2, j as nat),
            forall|j: int|
                65535 <= j < 65535 + i ==> #[trigger] exp@[j] == field::power(
                    2,
                    (j - 65535) as nat,
                ),
            forall|j: nat| j < i ==> log@[#[trigger] field::power(2, j) as int] == j,
    {
        proof {
            assert forall|j: nat| j < i implies #[trigger] field::power(2, j) != b as u16 by {
                order::law_powers_of_two_distinct(j, i as nat);
            }
            order::law_power_of_two_nonzero(i as nat);
            lemma_double(b as u16);
            assert(b < 65536 ==> (if (b << 1) & 0x10000 != 0 {
                (b << 1) ^ 0x1100B
            } else {
                b << 1
            }) < 65536 && (if (b << 1) & 0x10000 != 0 {
                (b << 1) ^ 0x1100B
            } else {
                b << 1
            }) as u16 == field::xtime(b as u16)) by (bit_vector);
        }
        exp.set(i, b as u16);
        exp.set(i + 65535, b as u16);
        log.set(b as usize, i as u16);
        b = b << 1;
        if b & 0x10000 != 0 {
            b = b ^ PRIMITIVE_POLY;
        }
    }
    let tables = GfTables { log, exp };
    proof {
        assert forall|a: u16| a != 0 implies #[trigger] tables.log@[a as int] == order::logarithm(
            a,
        ) by {
            order::law_logarithm(a);
            assert(log@[field::power(2, order::logarithm(a)) as int] == order::logarithm(a));
        }
        assert forall|i: int| 0 <= i < 131070 implies #[trigger] tables.exp@[i] == field::power(
            2,
            i as nat,
        ) by {
            if i >= 65535 {
                order::law_power_of_two_wraps((i - 65535) as nat);
            }
        }
    }
    tables
}

} // verus!
