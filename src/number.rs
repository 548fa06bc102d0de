//! Decimal rendering of counts with thousands separators.
use num_format::{Locale, ToFormattedString};
use vstd::prelude::*;

verus! {

/// `n + 1`, held at the largest `u64`.
pub open spec fn bump(n: u64) -> u64 {
    if n < u64::MAX {
        (n + 1) as u64
    } else {
        n
    }
}

/// The decimal digit `d`.
pub open spec fn digit(d: nat) -> char {
    (48 + d) as char
}

/// Plain decimal notation of `n`.
pub open spec fn decimal(n: nat) -> Seq<char>
    decreases n,
{
    if n < 10 {
        seq![digit(n)]
    } else {
        decimal(n / 10).push(digit(n % 10))
    }
}

/// Decimal notation of `n` with a comma between each group of three digits.
pub open spec fn grouped(n: nat) -> Seq<char>
    decreases n,
{
    if n < 1000 {
        decimal(n)
    } else {
        grouped(n / 1000) + seq![',', digit(n % 1000 / 100), digit(n % 100 / 10), digit(n % 10)]
    }
}

/// Relies on `num_format::ToFormattedString` with `Locale::en`: separator `,`,
/// groups of three digits.
#[verifier::external_body]
pub(crate) fn format_count(n: u64) -> (r: String)
    ensures
        r@ == grouped(n as nat),
{
    n.to_formatted_string(&Locale::en)
}

} // verus!
