//! Complex numbers over any component type that has the arithmetic
//! operators.

use core::fmt::Display;
use core::ops::{Add, Mul, Sub};
use vstd::prelude::*;
use vstd::string::{to_string_from_display_ensures, StringExecFns};
use vstd::std_specs::ops::{AddSpec, AddSpecImpl, MulSpec, MulSpecImpl, SubSpec, SubSpecImpl};

verus! {

/// A complex number `re + im j`.
#[derive(PartialEq, Debug)]
pub struct Complex<T> {
    pub re: T,
    pub im: T,
}

impl<T: Add<Output = T>> AddSpecImpl for Complex<T> {
    /// The sum is what `add_spec` says wherever the components' sum is.
    open spec fn obeys_add_spec() -> bool {
        T::obeys_add_spec()
    }

    /// Both component sums can be formed.
    open spec fn add_req(self, rhs: Self) -> bool {
        self.re.add_req(rhs.re) && self.im.add_req(rhs.im)
    }

    /// The componentwise sum.
    open spec fn add_spec(self, rhs: Self) -> Self {
        Complex { re: self.re.add_spec(rhs.re), im: self.im.add_spec(rhs.im) }
    }
}

impl<T: Add<Output = T>> Add for Complex<T> {
    type Output = Self;

    /// The sum of two complex numbers.
    fn add(self, rhs: Self) -> (sum: Self) {
        Complex { re: self.re + rhs.re, im: self.im + rhs.im }
    }
}

impl<T: Sub<Output = T>> SubSpecImpl for Complex<T> {
    /// The difference is what `sub_spec` says wherever the components'
    /// difference is.
    open spec fn obeys_sub_spec() -> bool {
        T::obeys_sub_spec()
    }

    /// Both component differences can be formed.
    open spec fn sub_req(self, rhs: Self) -> bool {
        self.re.sub_req(rhs.re) && self.im.sub_req(rhs.im)
    }

    /// The componentwise difference.
    open spec fn sub_spec(self, rhs: Self) -> Self {
        Complex { re: self.re.sub_spec(rhs.re), im: self.im.sub_spec(rhs.im) }
    }
}

impl<T: Sub<Output = T>> Sub for Complex<T> {
    type Output = Self;

    /// The difference of two complex numbers.
    fn sub(self, rhs: Self) -> (difference: Self) {
        Complex { re: self.re - rhs.re, im: self.im - rhs.im }
    }
}

impl<T: Add<Output = T> + Sub<Output = T> + Mul<Output = T> + Copy> MulSpecImpl for Complex<T> {
    /// The product is what `mul_spec` says wherever the components' sum and
    /// difference are.
    open spec fn obeys_mul_spec() -> bool {
        T::obeys_add_spec() && T::obeys_sub_spec()
    }

    /// The four component products can be formed and are what the
    /// components' `mul_spec` says, and so can their difference and their sum.
    open spec fn mul_req(self, rhs: Self) -> bool {
        &&& T::obeys_mul_spec()
        &&& self.re.mul_req(rhs.re)
        &&& self.im.mul_req(rhs.im)
        &&& self.re.mul_req(rhs.im)
        &&& self.im.mul_req(rhs.re)
        &&& self.re.mul_spec(rhs.re).sub_req(self.im.mul_spec(rhs.im))
        &&& self.re.mul_spec(rhs.im).add_req(self.im.mul_spec(rhs.re))
    }

    /// `(a + b j)(c + d j) = (ac - bd) + (ad + bc) j`.
    open spec fn mul_spec(self, rhs: Self) -> Self {
        Complex {
            re: self.re.mul_spec(rhs.re).sub_spec(self.im.mul_spec(rhs.im)),
            im: self.re.mul_spec(rhs.im).add_spec(self.im.mul_spec(rhs.re)),
        }
    }
}

impl<T: Add<Output = T> + Sub<Output = T> + Mul<Output = T> + Copy> Mul for Complex<T> {
    type Output = Self;

    /// The product of two complex numbers.
    fn mul(self, rhs: Self) -> (product: Self) {
        Complex {
            re: self.re * rhs.re - self.im * rhs.im,
            im: self.re * rhs.im + self.im * rhs.re,
        }
    }
}


/// Writes a value with `format!` and the pattern `{:+}`: the value as it
/// displays itself when asked for its sign. What that text is lies with the
/// value's own `Display`, so nothing is stated of it.
#[verifier::external_body]
fn signed_text<T: Display>(value: &T) -> (text: String) {
    format!("{:+}", value)
}

impl<T: Display> Complex<T> {
    /// The number as text: the real part as it displays itself, the
    /// imaginary part as it displays itself with its sign, and the letter
    /// `j`, as in `1-2j`.
    pub fn to_text(&self) -> (text: String)
        ensures
            exists|re_text: String, im_text: String|
                {
                    &&& #[trigger] to_string_from_display_ensures::<T>(&self.re, re_text)
                    &&& text@ == re_text@ + #[trigger] im_text@ + seq!['j']
                },
    {
        let mut text: String = self.re.to_string();
        let ghost re_text = text;
        let im_text: String = signed_text(&self.im);
        text.append(im_text.as_str());
        proof {
            reveal_strlit("j");
        }
        text.append("j");
        proof {
            assert(to_string_from_display_ensures::<T>(&self.re, re_text));
            assert(text@ == re_text@ + im_text@ + seq!['j']);
        }
        text
    }
}

} // verus!
