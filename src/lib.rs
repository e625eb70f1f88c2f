//! Typed identifiers: a validated lowercase prefix paired with a 128-bit
//! value, written `prefix_<26 Crockford base-32 symbols>`.
//!
//! The functions at this level are the value operations that a host binds
//! to its own function and operator machinery.
pub mod aggregate;
pub mod base32;
pub mod typeid;
mod text;

use std::cmp::Ordering;

use vstd::prelude::*;

use crate::typeid::{
    compare_ascii, id_cmp, is_v7, lemma_lex_cmp_equal, lemma_valid_prefix_ascii, now_v7, parsed,
    prefix_problem, Error, ErrorView, TypeID, TypeIDPrefix,
};

verus! {

/// `-1`, `0` or `1` for `Less`, `Equal` or `Greater`.
pub open spec fn sign_of(o: Ordering) -> int {
    match o {
        Ordering::Less => -1,
        Ordering::Equal => 0,
        Ordering::Greater => 1,
    }
}

/// A TypeID with the given prefix and a fresh version-7 value.
pub fn typeid_generate(prefix: &str) -> (r: Result<TypeID, Error>)
    ensures
        match prefix_problem(prefix@) {
            None => r matches Ok(t) && t@.0 == prefix@ && is_v7(t@.1),
            Some(reason) => r matches Err(e) && e@ == ErrorView::InvalidPrefix {
                actual: prefix@,
                reason,
            },
        },
{
    TypeID::generate(prefix)
}

/// A TypeID with the empty prefix and a fresh version-7 value.
pub fn typeid_generate_nil() -> (r: TypeID)
    ensures
        r@.0 == Seq::<char>::empty(),
        is_v7(r@.1),
{
    TypeID::generate_nil()
}

/// Whether `input` parses as a TypeID.
pub fn typeid_is_valid(input: &str) -> (r: bool)
    ensures
        r == parsed(input@) is Ok,
{
    TypeID::from_string(input).is_ok()
}

/// The prefix of a TypeID.
pub fn typeid_prefix(typeid: TypeID) -> (r: String)
    ensures
        r@ == typeid@.0,
{
    typeid.type_prefix().to_owned()
}

/// The 128-bit value of a TypeID.
pub fn typeid_to_uuid(typeid: TypeID) -> (r: u128)
    ensures
        r == typeid@.1,
{
    typeid.uuid()
}

/// Pairs a 128-bit value with a prefix, which must be valid.
pub fn uuid_to_typeid(prefix: &str, uuid: u128) -> (r: Result<TypeID, Error>)
    ensures
        match prefix_problem(prefix@) {
            None => r matches Ok(t) && t@ == (prefix@, uuid),
            Some(reason) => r matches Err(e) && e@ == ErrorView::InvalidPrefix {
                actual: prefix@,
                reason,
            },
        },
{
    match TypeIDPrefix::new(prefix) {
        Ok(type_prefix) => Ok(TypeID::new(type_prefix, uuid)),
        Err(e) => Err(e),
    }
}

/// Compares two TypeIDs: `-1`, `0` or `1`.
pub fn typeid_cmp(a: TypeID, b: TypeID) -> (r: i32)
    ensures
        r == sign_of(id_cmp(a@, b@)),
{
    match a.compare(&b) {
        Ordering::Less => -1,
        Ordering::Equal => 0,
        Ordering::Greater => 1,
    }
}

pub fn typeid_lt(a: TypeID, b: TypeID) -> (r: bool)
    ensures
        r == (id_cmp(a@, b@) == Ordering::Less),
{
    typeid_cmp(a, b) < 0
}

pub fn typeid_le(a: TypeID, b: TypeID) -> (r: bool)
    ensures
        r == (id_cmp(a@, b@) != Ordering::Greater),
{
    typeid_cmp(a, b) <= 0
}

pub fn typeid_eq(a: TypeID, b: TypeID) -> (r: bool)
    ensures
        r == (id_cmp(a@, b@) == Ordering::Equal),
        r == (a@ == b@),
{
    proof {
        crate::typeid::lemma_cmp_antisymmetric(a@, b@);
    }
    typeid_cmp(a, b) == 0
}

pub fn typeid_ge(a: TypeID, b: TypeID) -> (r: bool)
    ensures
        r == (id_cmp(a@, b@) != Ordering::Less),
{
    typeid_cmp(a, b) >= 0
}

pub fn typeid_gt(a: TypeID, b: TypeID) -> (r: bool)
    ensures
        r == (id_cmp(a@, b@) == Ordering::Greater),
{
    typeid_cmp(a, b) > 0
}

pub fn typeid_ne(a: TypeID, b: TypeID) -> (r: bool)
    ensures
        r == (id_cmp(a@, b@) != Ordering::Equal),
        r == (a@ != b@),
{
    proof {
        crate::typeid::lemma_cmp_antisymmetric(a@, b@);
    }
    typeid_cmp(a, b) != 0
}

/// A fresh version-7 UUID, as its 128-bit value.
pub fn typeid_uuid_generate_v7() -> (r: u128)
    ensures
        is_v7(r),
{
    now_v7()
}

/// Whether the prefix of `typeid` is exactly `prefix`.
pub fn typeid_has_prefix(typeid: TypeID, prefix: &str) -> (r: bool)
    ensures
        r == (typeid@.0 == prefix@),
{
    let tag = typeid.type_prefix();
    proof {
        lemma_valid_prefix_ascii(tag@);
        lemma_lex_cmp_equal(tag@, prefix@);
    }
    if !prefix.is_ascii() {
        return false;
    }
    match compare_ascii(tag, prefix) {
        Ordering::Equal => true,
        _ => false,
    }
}

/// Whether the prefix of `typeid` is empty.
pub fn typeid_is_nil_prefix(typeid: TypeID) -> (r: bool)
    ensures
        r == (typeid@.0.len() == 0),
{
    typeid.is_nil_prefix()
}

/// `count` TypeIDs with the same prefix and fresh version-7 values; none
/// when `count` is not positive, whatever the prefix.
pub fn typeid_generate_batch(prefix: &str, count: i32) -> (r: Result<Vec<TypeID>, Error>)
    ensures
        count <= 0 ==> (r matches Ok(v) && v.len() == 0),
        count > 0 ==> match prefix_problem(prefix@) {
            None => r matches Ok(v) && v.len() == count && forall|i: int|
                0 <= i < v.len() ==> (#[trigger] v[i])@.0 == prefix@ && is_v7(v[i]@.1),
            Some(reason) => r matches Err(e) && e@ == ErrorView::InvalidPrefix {
                actual: prefix@,
                reason,
            },
        },
{
    if count <= 0 {
        return Ok(Vec::new());
    }
    let type_prefix = match TypeIDPrefix::new(prefix) {
        Ok(p) => p,
        Err(e) => {
            return Err(e);
        },
    };
    let mut out: Vec<TypeID> = Vec::new();
    let mut i: i32 = 0;
    while i < count
        invariant
            0 <= i <= count,
            out.len() == i,
            type_prefix@ == prefix@,
            forall|j: int| 0 <= j < out.len() ==> (#[trigger] out[j])@.0 == prefix@ && is_v7(out[j]@.1),
        decreases count - i,
    {
        out.push(TypeID::new(type_prefix.clone(), now_v7()));
        i += 1;
    }
    Ok(out)
}

} // verus!
