//! Integer node IDs: written in decimal, with `-` before a negative value,
//! and ordered by value.

use vstd::prelude::*;
use crate::canonical_id::CanonicalId;
use crate::encoding::{
    ascii_chars, ascii_to_string, decimal, lemma_decimal_ascii, lemma_decimal_injective, lemma_signed_decimal_ascii,
    lemma_signed_decimal_injective, push_decimal_wide, push_signed_decimal, signed_decimal,
};
use crate::node_id::NodeId;
use vstd::std_specs::cmp::OrdSpec;

verus! {

impl NodeId for u8 {
    open spec fn canonical_of(v: u8) -> Seq<u8> {
        decimal(v as nat)
    }

    open spec fn id_lt(a: u8, b: u8) -> bool {
        a < b
    }

    proof fn lemma_canonical_injective(a: u8, b: u8) {
        lemma_decimal_injective(a as nat, b as nat);
    }

    proof fn lemma_id_order(a: u8, b: u8) {
    }

    proof fn lemma_id_transitive(a: u8, b: u8, c: u8) {
    }

    fn canonical_bytes(&self) -> (r: Vec<u8>) {
        let mut out: Vec<u8> = Vec::new();
        push_decimal_wide(&mut out, *self as u128);
        assert(out@ =~= decimal(*self as nat));
        out
    }

    fn compare_id(&self, other: &Self) -> (r: i8) {
        if *self < *other {
            -1
        } else if *self == *other {
            0
        } else {
            1
        }
    }

    fn copy_id(&self) -> (r: Self) {
        *self
    }
}

impl CanonicalId for u8 {
    /// Decimal digits.
    open spec fn canonical_view(&self) -> Seq<char> {
        ascii_chars(decimal(*self as nat))
    }

    fn canonical_id(&self) -> (r: String) {
        let out = self.canonical_bytes();
        proof {
            lemma_decimal_ascii(*self as nat);
        }
        ascii_to_string(out)
    }
}

impl NodeId for u16 {
    open spec fn canonical_of(v: u16) -> Seq<u8> {
        decimal(v as nat)
    }

    open spec fn id_lt(a: u16, b: u16) -> bool {
        a < b
    }

    proof fn lemma_canonical_injective(a: u16, b: u16) {
        lemma_decimal_injective(a as nat, b as nat);
    }

    proof fn lemma_id_order(a: u16, b: u16) {
    }

    proof fn lemma_id_transitive(a: u16, b: u16, c: u16) {
    }

    fn canonical_bytes(&self) -> (r: Vec<u8>) {
        let mut out: Vec<u8> = Vec::new();
        push_decimal_wide(&mut out, *self as u128);
        assert(out@ =~= decimal(*self as nat));
        out
    }

    fn compare_id(&self, other: &Self) -> (r: i8) {
        if *self < *other {
            -1
        } else if *self == *other {
            0
        } else {
            1
        }
    }

    fn copy_id(&self) -> (r: Self) {
        *self
    }
}

impl CanonicalId for u16 {
    /// Decimal digits.
    open spec fn canonical_view(&self) -> Seq<char> {
        ascii_chars(decimal(*self as nat))
    }

    fn canonical_id(&self) -> (r: String) {
        let out = self.canonical_bytes();
        proof {
            lemma_decimal_ascii(*self as nat);
        }
        ascii_to_string(out)
    }
}

impl NodeId for u32 {
    open spec fn canonical_of(v: u32) -> Seq<u8> {
        decimal(v as nat)
    }

    open spec fn id_lt(a: u32, b: u32) -> bool {
        a < b
    }

    proof fn lemma_canonical_injective(a: u32, b: u32) {
        lemma_decimal_injective(a as nat, b as nat);
    }

    proof fn lemma_id_order(a: u32, b: u32) {
    }

    proof fn lemma_id_transitive(a: u32, b: u32, c: u32) {
    }

    fn canonical_bytes(&self) -> (r: Vec<u8>) {
        let mut out: Vec<u8> = Vec::new();
        push_decimal_wide(&mut out, *self as u128);
        assert(out@ =~= decimal(*self as nat));
        out
    }

    fn compare_id(&self, other: &Self) -> (r: i8) {
        if *self < *other {
            -1
        } else if *self == *other {
            0
        } else {
            1
        }
    }

    fn copy_id(&self) -> (r: Self) {
        *self
    }
}

impl CanonicalId for u32 {
    /// Decimal digits.
    open spec fn canonical_view(&self) -> Seq<char> {
        ascii_chars(decimal(*self as nat))
    }

    fn canonical_id(&self) -> (r: String) {
        let out = self.canonical_bytes();
        proof {
            lemma_decimal_ascii(*self as nat);
        }
        ascii_to_string(out)
    }
}

impl NodeId for u128 {
    open spec fn canonical_of(v: u128) -> Seq<u8> {
        decimal(v as nat)
    }

    open spec fn id_lt(a: u128, b: u128) -> bool {
        a < b
    }

    proof fn lemma_canonical_injective(a: u128, b: u128) {
        lemma_decimal_injective(a as nat, b as nat);
    }

    proof fn lemma_id_order(a: u128, b: u128) {
    }

    proof fn lemma_id_transitive(a: u128, b: u128, c: u128) {
    }

    fn canonical_bytes(&self) -> (r: Vec<u8>) {
        let mut out: Vec<u8> = Vec::new();
        push_decimal_wide(&mut out, *self as u128);
        assert(out@ =~= decimal(*self as nat));
        out
    }

    fn compare_id(&self, other: &Self) -> (r: i8) {
        if *self < *other {
            -1
        } else if *self == *other {
            0
        } else {
            1
        }
    }

    fn copy_id(&self) -> (r: Self) {
        *self
    }
}

impl CanonicalId for u128 {
    /// Decimal digits.
    open spec fn canonical_view(&self) -> Seq<char> {
        ascii_chars(decimal(*self as nat))
    }

    fn canonical_id(&self) -> (r: String) {
        let out = self.canonical_bytes();
        proof {
            lemma_decimal_ascii(*self as nat);
        }
        ascii_to_string(out)
    }
}

impl NodeId for usize {
    open spec fn canonical_of(v: usize) -> Seq<u8> {
        decimal(v as nat)
    }

    open spec fn id_lt(a: usize, b: usize) -> bool {
        a < b
    }

    proof fn lemma_canonical_injective(a: usize, b: usize) {
        lemma_decimal_injective(a as nat, b as nat);
    }

    proof fn lemma_id_order(a: usize, b: usize) {
    }

    proof fn lemma_id_transitive(a: usize, b: usize, c: usize) {
    }

    fn canonical_bytes(&self) -> (r: Vec<u8>) {
        let mut out: Vec<u8> = Vec::new();
        push_decimal_wide(&mut out, *self as u128);
        assert(out@ =~= decimal(*self as nat));
        out
    }

    fn compare_id(&self, other: &Self) -> (r: i8) {
        if *self < *other {
            -1
        } else if *self == *other {
            0
        } else {
            1
        }
    }

    fn copy_id(&self) -> (r: Self) {
        *self
    }
}

impl CanonicalId for usize {
    /// Decimal digits.
    open spec fn canonical_view(&self) -> Seq<char> {
        ascii_chars(decimal(*self as nat))
    }

    fn canonical_id(&self) -> (r: String) {
        let out = self.canonical_bytes();
        proof {
            lemma_decimal_ascii(*self as nat);
        }
        ascii_to_string(out)
    }
}

impl NodeId for i8 {
    open spec fn canonical_of(v: i8) -> Seq<u8> {
        signed_decimal(v as int)
    }

    open spec fn id_lt(a: i8, b: i8) -> bool {
        a < b
    }

    proof fn lemma_canonical_injective(a: i8, b: i8) {
        lemma_signed_decimal_injective(a as int, b as int);
    }

    proof fn lemma_id_order(a: i8, b: i8) {
    }

    proof fn lemma_id_transitive(a: i8, b: i8, c: i8) {
    }

    fn canonical_bytes(&self) -> (r: Vec<u8>) {
        let mut out: Vec<u8> = Vec::new();
        push_signed_decimal(&mut out, *self as i128);
        assert(out@ =~= signed_decimal(*self as int));
        out
    }

    fn compare_id(&self, other: &Self) -> (r: i8) {
        if *self < *other {
            -1
        } else if *self == *other {
            0
        } else {
            1
        }
    }

    fn copy_id(&self) -> (r: Self) {
        *self
    }
}

impl CanonicalId for i8 {
    /// Decimal digits, after `-` when negative.
    open spec fn canonical_view(&self) -> Seq<char> {
        ascii_chars(signed_decimal(*self as int))
    }

    fn canonical_id(&self) -> (r: String) {
        let out = self.canonical_bytes();
        proof {
            lemma_signed_decimal_ascii(*self as int);
        }
        ascii_to_string(out)
    }
}

impl NodeId for i16 {
    open spec fn canonical_of(v: i16) -> Seq<u8> {
        signed_decimal(v as int)
    }

    open spec fn id_lt(a: i16, b: i16) -> bool {
        a < b
    }

    proof fn lemma_canonical_injective(a: i16, b: i16) {
        lemma_signed_decimal_injective(a as int, b as int);
    }

    proof fn lemma_id_order(a: i16, b: i16) {
    }

    proof fn lemma_id_transitive(a: i16, b: i16, c: i16) {
    }

    fn canonical_bytes(&self) -> (r: Vec<u8>) {
        let mut out: Vec<u8> = Vec::new();
        push_signed_decimal(&mut out, *self as i128);
        assert(out@ =~= signed_decimal(*self as int));
        out
    }

    fn compare_id(&self, other: &Self) -> (r: i8) {
        if *self < *other {
            -1
        } else if *self == *other {
            0
        } else {
            1
        }
    }

    fn copy_id(&self) -> (r: Self) {
        *self
    }
}

impl CanonicalId for i16 {
    /// Decimal digits, after `-` when negative.
    open spec fn canonical_view(&self) -> Seq<char> {
        ascii_chars(signed_decimal(*self as int))
    }

    fn canonical_id(&self) -> (r: String) {
        let out = self.canonical_bytes();
        proof {
            lemma_signed_decimal_ascii(*self as int);
        }
        ascii_to_string(out)
    }
}

impl NodeId for i32 {
    open spec fn canonical_of(v: i32) -> Seq<u8> {
        signed_decimal(v as int)
    }

    open spec fn id_lt(a: i32, b: i32) -> bool {
        a < b
    }

    proof fn lemma_canonical_injective(a: i32, b: i32) {
        lemma_signed_decimal_injective(a as int, b as int);
    }

    proof fn lemma_id_order(a: i32, b: i32) {
    }

    proof fn lemma_id_transitive(a: i32, b: i32, c: i32) {
    }

    fn canonical_bytes(&self) -> (r: Vec<u8>) {
        let mut out: Vec<u8> = Vec::new();
        push_signed_decimal(&mut out, *self as i128);
        assert(out@ =~= signed_decimal(*self as int));
        out
    }

    fn compare_id(&self, other: &Self) -> (r: i8) {
        if *self < *other {
            -1
        } else if *self == *other {
            0
        } else {
            1
        }
    }

    fn copy_id(&self) -> (r: Self) {
        *self
    }
}

impl CanonicalId for i32 {
    /// Decimal digits, after `-` when negative.
    open spec fn canonical_view(&self) -> Seq<char> {
        ascii_chars(signed_decimal(*self as int))
    }

    fn canonical_id(&self) -> (r: String) {
        let out = self.canonical_bytes();
        proof {
            lemma_signed_decimal_ascii(*self as int);
        }
        ascii_to_string(out)
    }
}

impl NodeId for i64 {
    open spec fn canonical_of(v: i64) -> Seq<u8> {
        signed_decimal(v as int)
    }

    open spec fn id_lt(a: i64, b: i64) -> bool {
        a < b
    }

    proof fn lemma_canonical_injective(a: i64, b: i64) {
        lemma_signed_decimal_injective(a as int, b as int);
    }

    proof fn lemma_id_order(a: i64, b: i64) {
    }

    proof fn lemma_id_transitive(a: i64, b: i64, c: i64) {
    }

    fn canonical_bytes(&self) -> (r: Vec<u8>) {
        let mut out: Vec<u8> = Vec::new();
        push_signed_decimal(&mut out, *self as i128);
        assert(out@ =~= signed_decimal(*self as int));
        out
    }

    fn compare_id(&self, other: &Self) -> (r: i8) {
        if *self < *other {
            -1
        } else if *self == *other {
            0
        } else {
            1
        }
    }

    fn copy_id(&self) -> (r: Self) {
        *self
    }
}

impl CanonicalId for i64 {
    /// Decimal digits, after `-` when negative.
    open spec fn canonical_view(&self) -> Seq<char> {
        ascii_chars(signed_decimal(*self as int))
    }

    fn canonical_id(&self) -> (r: String) {
        let out = self.canonical_bytes();
        proof {
            lemma_signed_decimal_ascii(*self as int);
        }
        ascii_to_string(out)
    }
}

impl NodeId for i128 {
    open spec fn canonical_of(v: i128) -> Seq<u8> {
        signed_decimal(v as int)
    }

    open spec fn id_lt(a: i128, b: i128) -> bool {
        a < b
    }

    proof fn lemma_canonical_injective(a: i128, b: i128) {
        lemma_signed_decimal_injective(a as int, b as int);
    }

    proof fn lemma_id_order(a: i128, b: i128) {
    }

    proof fn lemma_id_transitive(a: i128, b: i128, c: i128) {
    }

    fn canonical_bytes(&self) -> (r: Vec<u8>) {
        let mut out: Vec<u8> = Vec::new();
        push_signed_decimal(&mut out, *self as i128);
        assert(out@ =~= signed_decimal(*self as int));
        out
    }

    fn compare_id(&self, other: &Self) -> (r: i8) {
        if *self < *other {
            -1
        } else if *self == *other {
            0
        } else {
            1
        }
    }

    fn copy_id(&self) -> (r: Self) {
        *self
    }
}

impl CanonicalId for i128 {
    /// Decimal digits, after `-` when negative.
    open spec fn canonical_view(&self) -> Seq<char> {
        ascii_chars(signed_decimal(*self as int))
    }

    fn canonical_id(&self) -> (r: String) {
        let out = self.canonical_bytes();
        proof {
            lemma_signed_decimal_ascii(*self as int);
        }
        ascii_to_string(out)
    }
}

impl NodeId for isize {
    open spec fn canonical_of(v: isize) -> Seq<u8> {
        signed_decimal(v as int)
    }

    open spec fn id_lt(a: isize, b: isize) -> bool {
        a < b
    }

    proof fn lemma_canonical_injective(a: isize, b: isize) {
        lemma_signed_decimal_injective(a as int, b as int);
    }

    proof fn lemma_id_order(a: isize, b: isize) {
    }

    proof fn lemma_id_transitive(a: isize, b: isize, c: isize) {
    }

    fn canonical_bytes(&self) -> (r: Vec<u8>) {
        let mut out: Vec<u8> = Vec::new();
        push_signed_decimal(&mut out, *self as i128);
        assert(out@ =~= signed_decimal(*self as int));
        out
    }

    fn compare_id(&self, other: &Self) -> (r: i8) {
        if *self < *other {
            -1
        } else if *self == *other {
            0
        } else {
            1
        }
    }

    fn copy_id(&self) -> (r: Self) {
        *self
    }
}

impl CanonicalId for isize {
    /// Decimal digits, after `-` when negative.
    open spec fn canonical_view(&self) -> Seq<char> {
        ascii_chars(signed_decimal(*self as int))
    }

    fn canonical_id(&self) -> (r: String) {
        let out = self.canonical_bytes();
        proof {
            lemma_signed_decimal_ascii(*self as int);
        }
        ascii_to_string(out)
    }
}

/// Integer IDs as `BTreeSet` keys: each is its own view, and the order that
/// `BTreeSet` keeps is the ID order.
pub trait IntKey: NodeId + View<V = Self> + Ord + Copy {
    /// An integer is its own view.
    proof fn lemma_view_is_self()
        ensures
            forall|a: Self| #[trigger] a@ == a,
    ;

    /// The laws of `Ord` hold, and what `Ord` puts first comes first in ID
    /// order.
    proof fn lemma_key_order()
        ensures
            vstd::laws_cmp::obeys_cmp::<Self>(),
            forall|a: Self, b: Self| #[trigger] OrdSpec::cmp_spec(&a, &b) is Less ==> Self::id_lt(a, b),
    ;
}

impl IntKey for u8 {
    proof fn lemma_view_is_self() {
    }

    proof fn lemma_key_order() {
        broadcast use vstd::laws_cmp::group_laws_cmp;
    }
}

impl IntKey for u16 {
    proof fn lemma_view_is_self() {
    }

    proof fn lemma_key_order() {
        broadcast use vstd::laws_cmp::group_laws_cmp;
    }
}

impl IntKey for u32 {
    proof fn lemma_view_is_self() {
    }

    proof fn lemma_key_order() {
        broadcast use vstd::laws_cmp::group_laws_cmp;
    }
}

impl IntKey for u64 {
    proof fn lemma_view_is_self() {
    }

    proof fn lemma_key_order() {
        broadcast use vstd::laws_cmp::group_laws_cmp;
    }
}

impl IntKey for u128 {
    proof fn lemma_view_is_self() {
    }

    proof fn lemma_key_order() {
        broadcast use vstd::laws_cmp::group_laws_cmp;
    }
}

impl IntKey for usize {
    proof fn lemma_view_is_self() {
    }

    proof fn lemma_key_order() {
        broadcast use vstd::laws_cmp::group_laws_cmp;
    }
}

impl IntKey for i8 {
    proof fn lemma_view_is_self() {
    }

    proof fn lemma_key_order() {
        broadcast use vstd::laws_cmp::group_laws_cmp;
    }
}

impl IntKey for i16 {
    proof fn lemma_view_is_self() {
    }

    proof fn lemma_key_order() {
        broadcast use vstd::laws_cmp::group_laws_cmp;
    }
}

impl IntKey for i32 {
    proof fn lemma_view_is_self() {
    }

    proof fn lemma_key_order() {
        broadcast use vstd::laws_cmp::group_laws_cmp;
    }
}

impl IntKey for i64 {
    proof fn lemma_view_is_self() {
    }

    proof fn lemma_key_order() {
        broadcast use vstd::laws_cmp::group_laws_cmp;
    }
}

impl IntKey for i128 {
    proof fn lemma_view_is_self() {
    }

    proof fn lemma_key_order() {
        broadcast use vstd::laws_cmp::group_laws_cmp;
    }
}

impl IntKey for isize {
    proof fn lemma_view_is_self() {
    }

    proof fn lemma_key_order() {
        broadcast use vstd::laws_cmp::group_laws_cmp;
    }
}

/// Text slices: the text itself.
impl<'a> CanonicalId for &'a str {
    open spec fn canonical_view(&self) -> Seq<char> {
        (*self)@
    }

    fn canonical_id(&self) -> (r: String) {
        (*self).to_owned()
    }
}

} // verus!
