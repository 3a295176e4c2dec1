//! Ordinals, the positions of characters in an alphabet, and the modular
//! arithmetic that shifts one ordinal by another.

use vstd::arithmetic::div_mod::{lemma_add_mod_noop, lemma_sub_mod_noop};
use vstd::prelude::*;

verus! {

/// The position of a character in an alphabet.
#[derive(Clone, Copy, PartialEq, Eq, Structural, Debug, Hash, PartialOrd, Ord)]
pub struct EncodeNum(pub u64);

/// The direction in which a message is shifted by a key.
#[derive(Clone, Copy, PartialEq, Eq, Structural, Debug)]
pub enum Action {
    Encrypt,
    Decrypt,
}

/// The ordinal that `m` becomes when shifted by `k` in an alphabet of `size`
/// characters: the sum (encrypt) or difference (decrypt) taken modulo `size`.
pub open spec fn shifted(m: int, k: int, size: int, action: Action) -> int {
    match action {
        Action::Encrypt => (m + k) % size,
        Action::Decrypt => (m - k) % size,
    }
}

/// Shifts the ordinal `message` by the ordinal `key` in an alphabet of `size`
/// characters, wrapping round at both ends.
pub fn transform(message: &EncodeNum, key: &EncodeNum, size: &usize, action: &Action) -> (r:
    EncodeNum)
    requires
        *size > 0,
    ensures
        r.0 < *size,
        r.0 == shifted(message.0 as int, key.0 as int, *size as int, *action),
{
    let s = *size as u64;
    let m = message.0 % s;
    let k = key.0 % s;
    proof {
        lemma_add_mod_noop(message.0 as int, key.0 as int, s as int);
        lemma_sub_mod_noop(message.0 as int, key.0 as int, s as int);
    }
    let c = match *action {
        Action::Encrypt => {
            if m >= s - k {
                assert((m + k) as int % s as int == (m + k - s) as int) by (nonlinear_arith)
                    requires
                        m < s,
                        k < s,
                        m + k >= s,
                ;
                m - (s - k)
            } else {
                assert((m + k) as int % s as int == (m + k) as int) by (nonlinear_arith)
                    requires
                        m + k < s,
                ;
                m + k
            }
        },
        Action::Decrypt => {
            if m >= k {
                assert((m - k) as int % s as int == (m - k) as int) by (nonlinear_arith)
                    requires
                        k <= m,
                        m < s,
                ;
                m - k
            } else {
                assert((m as int - k as int) % s as int == m + (s - k)) by (nonlinear_arith)
                    requires
                        m < k,
                        k < s,
                ;
                m + (s - k)
            }
        },
    };
    EncodeNum(c)
}

} // verus!
