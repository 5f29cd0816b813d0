//! The whole translation and formatting pipeline.
use vstd::prelude::*;
use crate::dictionary::Dictionary;
use crate::format::{format_lottery_output, format_text};
use crate::passes::{
    localize_from, localize_units, names_from, parens_from, translate_names,
    translate_parentheticals,
};

verus! {

/// The pipeline on `input` with the name mapping `names` and the
/// parenthetical mapping `parens`: the message, then both mappings after it.
pub open spec fn pipeline(
    names: Map<Seq<char>, Seq<char>>,
    parens: Map<Seq<char>, Seq<char>>,
    input: Seq<char>,
) -> (Seq<char>, Map<Seq<char>, Seq<char>>, Map<Seq<char>, Seq<char>>) {
    let (a, names2) = names_from(names, input, 0);
    let (c, parens2) = parens_from(parens, localize_from(a, 0), 0);
    (format_text(c), names2, parens2)
}

/// Translates pasted results and formats them into a message: the name
/// pass with `names`, the unit pass, the parenthetical pass with `parens`,
/// then the formatter. Both dictionaries learn the terms they lacked.
pub fn translate_and_format(input: &str, names: &mut Dictionary, parens: &mut Dictionary) -> (r:
    String)
    requires
        old(names).wf(),
        old(parens).wf(),
    ensures
        final(names).wf(),
        final(parens).wf(),
        (r@, final(names)@, final(parens)@) == pipeline(old(names)@, old(parens)@, input@),
{
    let a = translate_names(input, names);
    let b = localize_units(a.as_str());
    let c = translate_parentheticals(b.as_str(), parens);
    format_lottery_output(c.as_str())
}

} // verus!
