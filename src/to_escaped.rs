//! The escaped counterpart of a type: the same shape, with borrowed byte and
//! string data kept in their escaped, terminated form.
use vstd::prelude::*;

use std::collections::{BTreeMap, HashMap};

use crate::types::{EscapedSlice, EscapedStr};

verus! {

/// Types with an escaped counterpart.
pub trait ToEscaped {
    type Escaped<'e>;
}

impl ToEscaped for String {
    type Escaped<'e> = String;
}

impl<T: ToEscaped> ToEscaped for Vec<T> {
    type Escaped<'e> = Vec<T::Escaped<'e>>;
}

impl<K: ToEscaped, V: ToEscaped, S> ToEscaped for HashMap<K, V, S> {
    type Escaped<'e> = HashMap<K::Escaped<'e>, V::Escaped<'e>>;
}

impl<K: ToEscaped, V: ToEscaped> ToEscaped for BTreeMap<K, V> {
    type Escaped<'e> = BTreeMap<K::Escaped<'e>, V::Escaped<'e>>;
}

impl<'a> ToEscaped for &'a str {
    type Escaped<'e> = EscapedStr<'e>;
}

impl<'a> ToEscaped for &'a [u8] {
    type Escaped<'e> = EscapedSlice<'e>;
}

impl ToEscaped for u8 {
    type Escaped<'e> = u8;
}

impl ToEscaped for i8 {
    type Escaped<'e> = i8;
}

impl ToEscaped for u16 {
    type Escaped<'e> = u16;
}

impl ToEscaped for i16 {
    type Escaped<'e> = i16;
}

impl ToEscaped for u32 {
    type Escaped<'e> = u32;
}

impl ToEscaped for i32 {
    type Escaped<'e> = i32;
}

impl ToEscaped for u64 {
    type Escaped<'e> = u64;
}

impl ToEscaped for i64 {
    type Escaped<'e> = i64;
}

} // verus!
