//! Natural numbers of any size.
use crate::buffers::copy_of;
use vstd::arithmetic::power;
use vstd::prelude::*;

verus! {

/// What a digit at position `i` counts for.
pub open spec fn place(i: nat) -> int {
    power::pow(0x1_0000_0000, i)
}

/// The digit at position `i`; there are only zeros above the highest one.
pub open spec fn digit_at(digits: Seq<u32>, i: int) -> int {
    if i < digits.len() {
        digits[i] as int
    } else {
        0
    }
}

/// The number that the lowest `n` digits write.
pub open spec fn value_of(digits: Seq<u32>, n: nat) -> int
    decreases n,
{
    if n == 0 {
        0
    } else {
        value_of(digits, (n - 1) as nat) + digit_at(digits, n - 1) * place((n - 1) as nat)
    }
}

proof fn lemma_place(i: nat)
    ensures
        place(i) >= 1,
        place(i + 1) == 0x1_0000_0000 * place(i),
        place(0) == 1,
{
    power::lemma_pow_positive(0x1_0000_0000, i);
    power::lemma_pow_adds(0x1_0000_0000, 1, i);
    power::lemma_pow1(0x1_0000_0000);
    power::lemma_pow0(0x1_0000_0000);
}

/// `n` digits write a number below the next place.
proof fn lemma_value_bound(digits: Seq<u32>, n: nat)
    ensures
        0 <= value_of(digits, n) < place(n),
    decreases n,
{
    lemma_place(n);
    if n > 0 {
        lemma_place((n - 1) as nat);
        lemma_value_bound(digits, (n - 1) as nat);
        let digit = digit_at(digits, n - 1);
        let weight = place((n - 1) as nat);
        assert(0 <= digit * weight <= 0xffff_ffff * weight) by (nonlinear_arith)
            requires
                0 <= digit <= 0xffff_ffff,
                1 <= weight,
        ;
    }
}

/// Digits above the highest one add nothing.
proof fn lemma_value_beyond(digits: Seq<u32>, n: nat)
    requires
        n >= digits.len(),
    ensures
        value_of(digits, n) == value_of(digits, digits.len()),
    decreases n,
{
    if n > digits.len() {
        lemma_value_beyond(digits, (n - 1) as nat);
        assert(0 * place((n - 1) as nat) == 0);
    }
}

/// Equal digits write equal numbers.
proof fn lemma_value_same(a: Seq<u32>, b: Seq<u32>, n: nat)
    requires
        forall|i: int| 0 <= i < n ==> digit_at(a, i) == #[trigger] digit_at(b, i),
    ensures
        value_of(a, n) == value_of(b, n),
    decreases n,
{
    if n > 0 {
        lemma_value_same(a, b, (n - 1) as nat);
        assert(digit_at(a, n - 1) == digit_at(b, n - 1));
    }
}

/// A natural number, written with 32 bits per digit, the lowest digit first.
pub struct Natural {
    digits: Vec<u32>,
}

impl View for Natural {
    type V = int;

    closed spec fn view(&self) -> int {
        value_of(self.digits@, self.digits@.len())
    }
}

impl Natural {
    pub fn new(value: u32) -> (number: Self)
        ensures
            number@ == value,
    {
        let mut digits: Vec<u32> = Vec::new();
        digits.push(value);
        proof {
            lemma_place(0);
            assert(value_of(digits@, 0) == 0);
            assert(value_of(digits@, 1) == value * place(0));
            assert(value * 1 == value);
        }
        Natural { digits }
    }

    /// Multiplies the number.
    pub fn scale(&mut self, factor: u32)
        ensures
            final(self)@ == old(self)@ * factor,
    {
        let ghost before = self.digits@;
        let len: usize = self.digits.len();
        let mut carry: u32 = 0;
        let mut i: usize = 0;
        proof {
            lemma_place(0);
            assert(0 * factor == 0);
            assert(0 * place(0) == 0);
        }
        while i < len
            invariant
                i <= len,
                len == before.len(),
                self.digits@.len() == len,
                carry <= factor,
                forall|j: int| i <= j < len ==> self.digits@[j] == before[j],
                value_of(self.digits@, i as nat) + carry * place(i as nat) == value_of(
                    before,
                    i as nat,
                ) * factor,
            decreases len - i,
        {
            let ghost old_digits = self.digits@;
            let digit: u32 = self.digits[i];
            proof {
                assert(0 <= digit * factor <= 0xffff_ffff * factor) by (nonlinear_arith)
                    requires
                        0 <= digit <= 0xffff_ffff,
                        0 <= factor <= 0xffff_ffff,
                ;
            }
            let wide: u64 = digit as u64 * factor as u64 + carry as u64;
            let low: u32 = (wide % 0x1_0000_0000) as u32;
            let high: u32 = (wide / 0x1_0000_0000) as u32;
            self.digits.set(i, low);
            proof {
                let n = i as nat;
                lemma_place(n);
                lemma_value_same(self.digits@, old_digits, n);
                let weight = place(n);
                let kept = value_of(before, n);
                assert((kept + digit * weight) * factor == kept * factor + (digit * factor) * weight)
                    by (nonlinear_arith);
                assert(wide * weight == low * weight + high * (0x1_0000_0000 * weight))
                    by (nonlinear_arith)
                    requires
                        wide == low + high * 0x1_0000_0000,
                ;
                assert((digit * factor + carry) * weight == (digit * factor) * weight + carry
                    * weight) by (nonlinear_arith);
            }
            carry = high;
            i = i + 1;
        }
        if carry > 0 {
            let ghost kept = self.digits@;
            self.digits.push(carry);
            proof {
                lemma_value_same(kept, self.digits@, len as nat);
            }
        } else {
            assert(0 * place(len as nat) == 0);
        }
    }

    /// Whether the number is less than another one.
    pub fn less(&self, other: &Natural) -> (less: bool)
        ensures
            less == (self@ < other@),
    {
        let mut i: usize = if self.digits.len() < other.digits.len() {
            other.digits.len()
        } else {
            self.digits.len()
        };
        proof {
            lemma_value_beyond(self.digits@, i as nat);
            lemma_value_beyond(other.digits@, i as nat);
        }
        while i > 0
            invariant
                (self@ < other@) == (value_of(self.digits@, i as nat) < value_of(
                    other.digits@,
                    i as nat,
                )),
            decreases i,
        {
            i = i - 1;
            let a: u32 = if i < self.digits.len() {
                self.digits[i]
            } else {
                0
            };
            let b: u32 = if i < other.digits.len() {
                other.digits[i]
            } else {
                0
            };
            if a != b {
                proof {
                    let weight = place(i as nat);
                    lemma_value_bound(self.digits@, i as nat);
                    lemma_value_bound(other.digits@, i as nat);
                    if a < b {
                        assert(a * weight + weight <= b * weight) by (nonlinear_arith)
                            requires
                                a + 1 <= b,
                                1 <= weight,
                        ;
                    } else {
                        assert(b * weight + weight <= a * weight) by (nonlinear_arith)
                            requires
                                b + 1 <= a,
                                1 <= weight,
                        ;
                    }
                }
                return a < b;
            }
        }
        false
    }

    /// A number multiplied by itself.
    pub fn power(base: u32, exponent: u32) -> (number: Self)
        ensures
            number@ == power::pow(base as int, exponent as nat),
    {
        let mut number = Natural::new(1);
        let mut i: u32 = 0;
        proof {
            power::lemma_pow0(base as int);
        }
        while i < exponent
            invariant
                i <= exponent,
                number@ == power::pow(base as int, i as nat),
            decreases exponent - i,
        {
            number.scale(base);
            proof {
                power::lemma_pow_adds(base as int, i as nat, 1);
                power::lemma_pow1(base as int);
            }
            i = i + 1;
        }
        number
    }

    /// Multiplies the number, over and over.
    pub fn scale_times(&mut self, factor: u32, times: u32)
        ensures
            final(self)@ == old(self)@ * power::pow(factor as int, times as nat),
    {
        let mut i: u32 = 0;
        proof {
            power::lemma_pow0(factor as int);
        }
        let ghost start = self@;
        while i < times
            invariant
                i <= times,
                self@ == start * power::pow(factor as int, i as nat),
            decreases times - i,
        {
            let ghost so_far = power::pow(factor as int, i as nat);
            self.scale(factor);
            proof {
                power::lemma_pow_adds(factor as int, i as nat, 1);
                power::lemma_pow1(factor as int);
                assert((start * so_far) * factor == start * (so_far * factor)) by (nonlinear_arith);
            }
            i = i + 1;
        }
    }
}

impl Clone for Natural {
    fn clone(&self) -> (copied: Self)
        ensures
            copied@ == self@,
    {
        Natural { digits: copy_of(&self.digits) }
    }
}

} // verus!
