//! Text forms of node IDs for human-readable output.

use vstd::prelude::*;
use crate::encoding::{
    ascii_chars, ascii_to_string, decimal, lemma_decimal_ascii, lemma_signed_decimal_ascii, signed_decimal,
};
use crate::node_id::NodeId;

verus! {

/// A node ID with a text form: integers in decimal, text as itself.
pub trait DisplayId: NodeId {
    /// The text of the ID with view `v`.
    spec fn text_of(v: Self::V) -> Seq<char>;

    /// Appends the text of this ID to `out`.
    fn append_text(&self, out: &mut String)
        ensures
            final(out)@ == old(out)@ + Self::text_of(self@),
    ;
}

/// Text IDs are shown as they are.
impl DisplayId for String {
    open spec fn text_of(v: Seq<char>) -> Seq<char> {
        v
    }

    fn append_text(&self, out: &mut String) {
        out.append(self.as_str());
    }
}

impl DisplayId for u8 {
    open spec fn text_of(v: u8) -> Seq<char> {
        ascii_chars(decimal(v as nat))
    }

    fn append_text(&self, out: &mut String) {
        let bytes = self.canonical_bytes();
        proof {
            lemma_decimal_ascii(*self as nat);
        }
        let text = ascii_to_string(bytes);
        out.append(text.as_str());
    }
}

impl DisplayId for u16 {
    open spec fn text_of(v: u16) -> Seq<char> {
        ascii_chars(decimal(v as nat))
    }

    fn append_text(&self, out: &mut String) {
        let bytes = self.canonical_bytes();
        proof {
            lemma_decimal_ascii(*self as nat);
        }
        let text = ascii_to_string(bytes);
        out.append(text.as_str());
    }
}

impl DisplayId for u32 {
    open spec fn text_of(v: u32) -> Seq<char> {
        ascii_chars(decimal(v as nat))
    }

    fn append_text(&self, out: &mut String) {
        let bytes = self.canonical_bytes();
        proof {
            lemma_decimal_ascii(*self as nat);
        }
        let text = ascii_to_string(bytes);
        out.append(text.as_str());
    }
}

impl DisplayId for u64 {
    open spec fn text_of(v: u64) -> Seq<char> {
        ascii_chars(decimal(v as nat))
    }

    fn append_text(&self, out: &mut String) {
        let bytes = self.canonical_bytes();
        proof {
            lemma_decimal_ascii(*self as nat);
        }
        let text = ascii_to_string(bytes);
        out.append(text.as_str());
    }
}

impl DisplayId for u128 {
    open spec fn text_of(v: u128) -> Seq<char> {
        ascii_chars(decimal(v as nat))
    }

    fn append_text(&self, out: &mut String) {
        let bytes = self.canonical_bytes();
        proof {
            lemma_decimal_ascii(*self as nat);
        }
        let text = ascii_to_string(bytes);
        out.append(text.as_str());
    }
}

impl DisplayId for usize {
    open spec fn text_of(v: usize) -> Seq<char> {
        ascii_chars(decimal(v as nat))
    }

    fn append_text(&self, out: &mut String) {
        let bytes = self.canonical_bytes();
        proof {
            lemma_decimal_ascii(*self as nat);
        }
        let text = ascii_to_string(bytes);
        out.append(text.as_str());
    }
}

impl DisplayId for i8 {
    open spec fn text_of(v: i8) -> Seq<char> {
        ascii_chars(signed_decimal(v as int))
    }

    fn append_text(&self, out: &mut String) {
        let bytes = self.canonical_bytes();
        proof {
            lemma_signed_decimal_ascii(*self as int);
        }
        let text = ascii_to_string(bytes);
        out.append(text.as_str());
    }
}

impl DisplayId for i16 {
    open spec fn text_of(v: i16) -> Seq<char> {
        ascii_chars(signed_decimal(v as int))
    }

    fn append_text(&self, out: &mut String) {
        let bytes = self.canonical_bytes();
        proof {
            lemma_signed_decimal_ascii(*self as int);
        }
        let text = ascii_to_string(bytes);
        out.append(text.as_str());
    }
}

impl DisplayId for i32 {
    open spec fn text_of(v: i32) -> Seq<char> {
        ascii_chars(signed_decimal(v as int))
    }

    fn append_text(&self, out: &mut String) {
        let bytes = self.canonical_bytes();
        proof {
            lemma_signed_decimal_ascii(*self as int);
        }
        let text = ascii_to_string(bytes);
        out.append(text.as_str());
    }
}

impl DisplayId for i64 {
    open spec fn text_of(v: i64) -> Seq<char> {
        ascii_chars(signed_decimal(v as int))
    }

    fn append_text(&self, out: &mut String) {
        let bytes = self.canonical_bytes();
        proof {
            lemma_signed_decimal_ascii(*self as int);
        }
        let text = ascii_to_string(bytes);
        out.append(text.as_str());
    }
}

impl DisplayId for i128 {
    open spec fn text_of(v: i128) -> Seq<char> {
        ascii_chars(signed_decimal(v as int))
    }

    fn append_text(&self, out: &mut String) {
        let bytes = self.canonical_bytes();
        proof {
            lemma_signed_decimal_ascii(*self as int);
        }
        let text = ascii_to_string(bytes);
        out.append(text.as_str());
    }
}

impl DisplayId for isize {
    open spec fn text_of(v: isize) -> Seq<char> {
        ascii_chars(signed_decimal(v as int))
    }

    fn append_text(&self, out: &mut String) {
        let bytes = self.canonical_bytes();
        proof {
            lemma_signed_decimal_ascii(*self as int);
        }
        let text = ascii_to_string(bytes);
        out.append(text.as_str());
    }
}

} // verus!
