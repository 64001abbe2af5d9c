//! Conversion between two written variants of a logographic script.
//!
//! The crate holds an immutable mapping table per conversion direction, a
//! prefix index derived from each table's keyset, a longest-match conversion
//! engine, and a script detector. A [`Converter`] bundles the two directions;
//! the free functions at the crate root take one by reference.

use vstd::prelude::*;

mod character_converter;
mod detect;
mod engine;
mod index;
mod laws;
mod table;

pub use character_converter::first_pair_error;
pub use character_converter::has_duplicate_key;
pub use character_converter::has_empty_key;
pub use character_converter::pair_key_set;
pub use character_converter::pairs_valid;
pub use character_converter::Converter;
pub use character_converter::InitializationError;
pub use detect::is_script_spec;
pub use laws::char_image;
pub use laws::lemma_idempotent;
pub use laws::lemma_longest_match;
pub use laws::lemma_passthrough;
pub use laws::single_value_keys;
pub use laws::values_fixed;
pub use engine::convert_spec;
pub use engine::match_len;
pub use index::PrefixIndex;
pub use table::Table;

verus! {

/// Whether the text `raw` belongs to the traditional script (see
/// [`Converter::is_traditional`]).
pub fn is_traditional(converter: &Converter, raw: &str) -> (r: bool)
    requires
        converter.wf(),
    ensures
        r == is_script_spec(converter.t2s_map(), converter.s2t_map(), raw@),
{
    converter.is_traditional(raw)
}

/// Whether the text `raw` belongs to the simplified script (see
/// [`Converter::is_simplified`]).
pub fn is_simplified(converter: &Converter, raw: &str) -> (r: bool)
    requires
        converter.wf(),
    ensures
        r == is_script_spec(converter.s2t_map(), converter.t2s_map(), raw@),
{
    converter.is_simplified(raw)
}

/// Converts traditional text to simplified text (see
/// [`Converter::traditional_to_simplified`]).
pub fn traditional_to_simplified(converter: &Converter, raw: &str) -> (r: String)
    requires
        converter.wf(),
    ensures
        r@ == convert_spec(converter.t2s_map(), raw@),
{
    converter.traditional_to_simplified(raw)
}

/// Converts simplified text to traditional text (see
/// [`Converter::simplified_to_traditional`]).
pub fn simplified_to_traditional(converter: &Converter, raw: &str) -> (r: String)
    requires
        converter.wf(),
    ensures
        r@ == convert_spec(converter.s2t_map(), raw@),
{
    converter.simplified_to_traditional(raw)
}

} // verus!
