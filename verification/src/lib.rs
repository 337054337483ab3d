//! A converter from a small markdown-like dialect to HTML.
//!
//! The parser turns raw text into a sequence of document nodes and the
//! formatter walks that sequence and emits an HTML fragment.

pub mod formatter;
pub mod parser;
pub mod text;

use vstd::prelude::*;

verus! {

/// The model of the whole conversion: the parsed document, rendered.
pub open spec fn spec_convert(source: Seq<char>) -> Seq<char> {
    formatter::spec_format(parser::spec_parse(source))
}

/// Converts the markdown-like dialect to an HTML fragment: parse, then
/// format.
pub fn convert(source: String) -> (r: String)
    ensures
        r@ == spec_convert(source@),
{
    let objects = parser::parse(source);
    formatter::format(objects)
}

/// The conversion is deterministic: identical input always yields identical
/// output, since the result is a function of the text alone.
pub proof fn lemma_convert_deterministic(a: Seq<char>, b: Seq<char>)
    requires
        a == b,
    ensures
        spec_convert(a) == spec_convert(b),
{
}

} // verus!
