//! The lengths the network accepts, and the message for one it does not.

use vstd::prelude::*;
use vstd::arithmetic::power::pow;
use vstd::arithmetic::power2::{is_pow2, is_pow2_equiv};

verus! {

/// The network is built by halving, so it takes the empty slice and slices
/// whose length is a power of two.
pub open spec fn valid_length(n: nat) -> bool {
    n == 0 || is_pow2(n as int)
}

/// The decimal digit for a number below ten.
pub open spec fn digit(d: nat) -> char {
    seq!['0', '1', '2', '3', '4', '5', '6', '7', '8', '9'][d as int]
}

/// A number written in decimal, without sign or leading zeros.
pub open spec fn decimal(n: nat) -> Seq<char>
    decreases n,
{
    if n < 10 {
        seq![digit(n)]
    } else {
        decimal(n / 10).push(digit(n % 10))
    }
}

/// The text that reports a length the network does not accept.
pub open spec fn length_message(n: nat) -> Seq<char> {
    "The length of x is not a power of two. (x.len(): "@ + decimal(n) + ")"@
}

/// `usize::is_power_of_two` is taken at its documented word: it answers
/// whether the number is two raised to some power.
pub assume_specification[ usize::is_power_of_two ](n: usize) -> (r: bool)
    ensures
        r <==> exists|k: nat| pow(2, k) == n,
;

/// Writes the message for a refused length with `format!`, which renders the
/// number in decimal inside the fixed text.
#[verifier::external_body]
fn describe_length(n: usize) -> (message: String)
    ensures
        message@ == length_message(n as nat),
{
    format!("The length of x is not a power of two. (x.len(): {})", n)
}

/// Accepts the length of the empty slice and every power of two, and refuses
/// any other length with the message that names it.
pub fn validate_length(n: usize) -> (r: Result<(), String>)
    ensures
        r is Ok <==> valid_length(n as nat),
        r is Err ==> r->Err_0@ == length_message(n as nat),
{
    proof {
        is_pow2_equiv(n as int);
    }
    if n == 0 || n.is_power_of_two() {
        Ok(())
    } else {
        Err(describe_length(n))
    }
}

/// A power of two above one splits into two equal halves that are powers of two.
pub proof fn lemma_halves_valid(n: nat)
    requires
        valid_length(n),
        n > 1,
    ensures
        n % 2 == 0,
        valid_length(n / 2),
        n / 2 >= 1,
{
    reveal(is_pow2);
}

} // verus!
