//! Sizing of a table from the number of entries and a load factor.
//!
//! A load factor is a fraction `num / den`: the share of the slots that may
//! be occupied. The capacity chosen for `len` entries is the smallest number
//! of slots that keeps the table at or below that share, and never zero for
//! a table that holds something.

use vstd::prelude::*;

verus! {

/// Whether `capacity` slots are enough for `len` entries at the load factor
/// `load_factor.0 / load_factor.1`: the occupied share stays at or below
/// the load factor, and a table that holds something has a slot.
pub open spec fn admits(capacity: nat, len: nat, load_factor: (usize, usize)) -> bool {
    &&& capacity * load_factor.0 >= len * load_factor.1
    &&& len > 0 ==> capacity >= 1
}

/// Whether `capacity` is the smallest number of slots that `admits` allows.
pub open spec fn is_capacity(capacity: nat, len: nat, load_factor: (usize, usize)) -> bool {
    &&& admits(capacity, len, load_factor)
    &&& forall|other: nat| #[trigger] admits(other, len, load_factor) ==> capacity <= other
}

/// A load factor under which every table can hold its entries: a positive
/// fraction that is at most one.
pub open spec fn valid_load_factor(load_factor: (usize, usize)) -> bool {
    0 < load_factor.0 <= load_factor.1
}

/// Under a valid load factor an admitted capacity has room for every entry.
pub proof fn lemma_capacity_holds_len(capacity: nat, len: nat, load_factor: (usize, usize))
    requires
        valid_load_factor(load_factor),
        admits(capacity, len, load_factor),
    ensures
        len <= capacity,
{
    let num = load_factor.0 as nat;
    let den = load_factor.1 as nat;
    assert(len * den >= len * num) by (nonlinear_arith)
        requires
            num <= den,
    ;
    assert(len <= capacity) by (nonlinear_arith)
        requires
            capacity * num >= len * num,
            num > 0,
    ;
}

/// The capacity is a function of its inputs: two smallest capacities agree.
pub proof fn lemma_capacity_unique(a: nat, b: nat, len: nat, load_factor: (usize, usize))
    requires
        is_capacity(a, len, load_factor),
        is_capacity(b, len, load_factor),
    ensures
        a == b,
{
}

/// The product of two machine words fits sixteen bytes.
proof fn lemma_product_fits(len: usize, den: usize)
    ensures
        len * den < u128::MAX,
{
    assert(len * den <= 0xffff_ffff_ffff_ffff * 0xffff_ffff_ffff_ffff) by (nonlinear_arith)
        requires
            0 <= len <= 0xffff_ffff_ffff_ffff,
            0 <= den <= 0xffff_ffff_ffff_ffff,
    ;
}

/// A quotient that is rounded up is the least factor that reaches the
/// product.
proof fn lemma_rounded_up_is_smallest(product: nat, num: nat, quotient: nat, rest: nat, other: nat)
    requires
        num > 0,
        product == quotient * num + rest,
        rest < num,
        other * num >= product,
    ensures
        rest == 0 ==> quotient <= other,
        rest > 0 ==> quotient + 1 <= other,
        (quotient + 1) * num > product,
{
    assert((quotient + 1) * num == quotient * num + num) by (nonlinear_arith);
    if rest > 0 && other <= quotient {
        assert(other * num <= quotient * num) by (nonlinear_arith)
            requires
                other <= quotient,
        ;
    }
    if rest == 0 && other < quotient {
        assert(other * num + num <= quotient * num) by (nonlinear_arith)
            requires
                other + 1 <= quotient,
        ;
    }
}

/// The smallest capacity that `admits` allows for `len` entries at the load
/// factor `load_factor.0 / load_factor.1`, where one exists and fits the
/// machine's word.
///
/// No capacity exists where the numerator is zero and `len * den` is not:
/// no number of slots brings the occupied share down to nothing.
pub fn capacity_from_len(len: usize, load_factor: (usize, usize)) -> (capacity: Option<usize>)
    ensures
        match capacity {
            Some(c) => is_capacity(c as nat, len as nat, load_factor),
            None => forall|c: nat| c <= usize::MAX ==> !#[trigger] admits(c, len as nat, load_factor),
        },
{
    let num = load_factor.0;
    let den = load_factor.1;
    if len == 0 {
        assert(0 * num == 0 && 0 * den == 0) by (nonlinear_arith);
        return Some(0);
    }
    if den == 0 {
        return Some(1);
    }
    proof {
        assert(len * den >= 1) by (nonlinear_arith)
            requires
                len >= 1,
                den >= 1,
        ;
    }
    if num == 0 {
        return None;
    }
    proof {
        lemma_product_fits(len, den);
    }
    let product: u128 = (len as u128) * (den as u128);
    let quotient: u128 = product / (num as u128);
    let rest: u128 = product % (num as u128);
    proof {
        vstd::arithmetic::div_mod::lemma_fundamental_div_mod(product as int, num as int);
    }
    let rounded: u128 = if rest == 0 {
        quotient
    } else {
        quotient + 1
    };
    proof {
        assert(rounded * num >= product) by (nonlinear_arith)
            requires
                product == quotient * num + rest,
                rest < num,
                rounded == quotient + 1 || (rest == 0 && rounded == quotient),
        ;
        assert forall|other: nat| admits(other, len as nat, load_factor) implies rounded
            <= other by {
            lemma_rounded_up_is_smallest(
                product as nat,
                num as nat,
                quotient as nat,
                rest as nat,
                other,
            );
        }
    }
    if rounded > usize::MAX as u128 {
        None
    } else {
        Some(rounded as usize)
    }
}

} // verus!
