//! Helpers for trying the library out.

use vstd::prelude::*;
use rand::distributions::Alphanumeric;
use rand::{thread_rng, Rng};
use crate::decimal::push_char;

verus! {

/// How many characters a random name has.
pub const HASH_LEN: usize = 30;

/// Whether `c` is an ASCII letter or digit.
pub open spec fn is_alphanumeric(c: char) -> bool {
    ||| 'a' <= c <= 'z'
    ||| 'A' <= c <= 'Z'
    ||| '0' <= c <= '9'
}

/// One sample of `rand`'s `Alphanumeric` from the thread's generator. The
/// distribution yields ASCII letters and digits only; which one is a matter
/// of chance.
#[verifier::external_body]
fn sample_alphanumeric() -> (c: char)
    ensures
        is_alphanumeric(c),
{
    thread_rng().sample(Alphanumeric)
}

/// A random name of thirty ASCII letters and digits, such as
/// `5V0eWCjkEyO8HEbhGbMuG8A2104Km3`.
pub fn random_hash() -> (hash: String)
    ensures
        hash@.len() == HASH_LEN,
        forall|i: int| 0 <= i < hash@.len() ==> is_alphanumeric(#[trigger] hash@[i]),
{
    let mut hash = String::new();
    let mut n: usize = 0;
    while n < HASH_LEN
        invariant
            n <= HASH_LEN,
            hash@.len() == n,
            forall|i: int| 0 <= i < hash@.len() ==> is_alphanumeric(#[trigger] hash@[i]),
        decreases HASH_LEN - n,
    {
        push_char(&mut hash, sample_alphanumeric());
        n += 1;
    }
    hash
}

} // verus!
