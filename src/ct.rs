//! Constant-time comparison and selection on integers, through `subtle`.
use subtle::{ConditionallySelectable, ConstantTimeEq, ConstantTimeGreater};
use vstd::prelude::*;

verus! {

/// `a && b`, computed on bits so that neither operand decides a branch.
pub fn ct_and(a: bool, b: bool) -> (r: bool)
    ensures
        r == (a && b),
{
    let x: u8 = a as u8;
    let y: u8 = b as u8;
    assert((x & y) == 1 <==> (x == 1 && y == 1)) by (bit_vector)
        requires
            x == 0 || x == 1,
            y == 0 || y == 1,
    ;
    (x & y) == 1
}

/// `a || b`, computed on bits so that neither operand decides a branch.
pub fn ct_or(a: bool, b: bool) -> (r: bool)
    ensures
        r == (a || b),
{
    let x: u8 = a as u8;
    let y: u8 = b as u8;
    assert((x | y) == 1 <==> (x == 1 || y == 1)) by (bit_vector)
        requires
            x == 0 || x == 1,
            y == 0 || y == 1,
    ;
    (x | y) == 1
}

/// Relies on `<u64 as subtle::ConstantTimeEq>::ct_eq`: the choice is set exactly when the two are equal.
#[verifier::external_body]
pub(crate) fn ct_eq_u64(a: u64, b: u64) -> (r: bool)
    ensures
        r == (a == b),
{
    bool::from(a.ct_eq(&b))
}

/// Relies on `<u64 as subtle::ConstantTimeGreater>::ct_gt`: the choice is set exactly when `a > b`.
#[verifier::external_body]
pub(crate) fn ct_gt_u64(a: u64, b: u64) -> (r: bool)
    ensures
        r == (a > b),
{
    bool::from(a.ct_gt(&b))
}

/// Relies on `<u64 as subtle::ConditionallySelectable>::conditional_select`: `b` when the choice is set, else `a`.
#[verifier::external_body]
pub(crate) fn select_u64(a: u64, b: u64, choice: bool) -> (r: u64)
    ensures
        r == (if choice { b } else { a }),
{
    u64::conditional_select(&a, &b, subtle::Choice::from(choice as u8))
}

/// Relies on `<u8 as subtle::ConditionallySelectable>::conditional_select`: `b` when the choice is set, else `a`.
#[verifier::external_body]
pub(crate) fn select_u8(a: u8, b: u8, choice: bool) -> (r: u8)
    ensures
        r == (if choice { b } else { a }),
{
    u8::conditional_select(&a, &b, subtle::Choice::from(choice as u8))
}

/// Relies on `<u16 as subtle::ConditionallySelectable>::conditional_select`: `b` when the choice is set, else `a`.
#[verifier::external_body]
pub(crate) fn select_u16(a: u16, b: u16, choice: bool) -> (r: u16)
    ensures
        r == (if choice { b } else { a }),
{
    u16::conditional_select(&a, &b, subtle::Choice::from(choice as u8))
}

/// Relies on `<u32 as subtle::ConditionallySelectable>::conditional_select`: `b` when the choice is set, else `a`.
#[verifier::external_body]
pub(crate) fn select_u32(a: u32, b: u32, choice: bool) -> (r: u32)
    ensures
        r == (if choice { b } else { a }),
{
    u32::conditional_select(&a, &b, subtle::Choice::from(choice as u8))
}

/// Relies on `<i8 as subtle::ConditionallySelectable>::conditional_select`: `b` when the choice is set, else `a`.
#[verifier::external_body]
pub(crate) fn select_i8(a: i8, b: i8, choice: bool) -> (r: i8)
    ensures
        r == (if choice { b } else { a }),
{
    i8::conditional_select(&a, &b, subtle::Choice::from(choice as u8))
}

/// Relies on `<i16 as subtle::ConditionallySelectable>::conditional_select`: `b` when the choice is set, else `a`.
#[verifier::external_body]
pub(crate) fn select_i16(a: i16, b: i16, choice: bool) -> (r: i16)
    ensures
        r == (if choice { b } else { a }),
{
    i16::conditional_select(&a, &b, subtle::Choice::from(choice as u8))
}

/// Relies on `<i32 as subtle::ConditionallySelectable>::conditional_select`: `b` when the choice is set, else `a`.
#[verifier::external_body]
pub(crate) fn select_i32(a: i32, b: i32, choice: bool) -> (r: i32)
    ensures
        r == (if choice { b } else { a }),
{
    i32::conditional_select(&a, &b, subtle::Choice::from(choice as u8))
}

/// Relies on `<i64 as subtle::ConditionallySelectable>::conditional_select`: `b` when the choice is set, else `a`.
#[verifier::external_body]
pub(crate) fn select_i64(a: i64, b: i64, choice: bool) -> (r: i64)
    ensures
        r == (if choice { b } else { a }),
{
    i64::conditional_select(&a, &b, subtle::Choice::from(choice as u8))
}

} // verus!
