//! The 3DL parser: from a text to the package it describes.
pub mod attempts;
pub mod errors;
pub mod grammar;
pub mod laws;
pub mod lists;
pub mod rules;
pub mod readings;
pub mod source;
pub mod tracking;
pub mod whitespace;

pub use errors::ParseError;
pub use grammar::{Attribute, Entity, Method, Package, Scope, Version};

use attempts::{Attempts, Rule, expected, pest_parse_error};
use rules::{d3l, lemma_package_at_bounds};
use tracking::tr_d3l;
use source::{Source, lemma_skip_ws_bounds};
use vstd::prelude::*;

verus! {

/// Reads the package that a 3DL text describes.
///
/// The text must hold one package, with nothing but whitespace before or
/// after it. Where it does not, the error is a rule error whose message is
/// pest's parse error: the line and column of the furthest position at
/// which a rule failed, that line with a marker under the position, and the
/// rules expected there.
pub fn parse(input: &str) -> (r: Result<Package, ParseError>)
    ensures
        r is Ok <==> d3l(input@) is Some,
        r matches Ok(p) ==> d3l(input@) == Some(p@),
        d3l(input@) is None ==> (r matches Err(ParseError::RuleError(m)) && m@ == pest_parse_error(
            input@,
            tr_d3l(input@).pos,
            expected(tr_d3l(input@).rules),
        )),
{
    let src = Source::new(input);
    let mut att = Attempts::new();
    proof {
        lemma_skip_ws_bounds(src@, 0);
    }
    let start = src.skip_ws(0);
    match Package::read_at(&src, start, &mut att) {
        Some((package, end)) => {
            proof {
                lemma_package_at_bounds(src@, start as int);
                lemma_skip_ws_bounds(src@, end as int);
            }
            let rest = src.skip_ws(end);
            if rest == src.len() {
                Ok(package)
            } else {
                let m = att.mark();
                att.fail(m, Rule::Eoi, rest);
                Err(ParseError::RuleError(att.error_text(input)))
            }
        },
        None => Err(ParseError::RuleError(att.error_text(input))),
    }
}

} // verus!
