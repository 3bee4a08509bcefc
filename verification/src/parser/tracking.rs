//! What each rule adds to the record of failed attempts when it is called at
//! a position: the rules it calls, in the order pest's parser calls them,
//! and, where it fails, the rule itself (see `attempts`).
use super::attempts::{Rule, SpecAttempts, fail_from, no_attempts};
use super::grammar::Scope;
use super::rules::{
    attribute_at, attribute_block_at, entity_at, entity_block_at, kw_arrow, kw_entity, kw_method,
    kw_package, kw_version, lemma_attribute_at_bounds, lemma_entity_at_bounds,
    lemma_entity_block_at_bounds, lemma_method_at_bounds, lemma_version_at_bounds, method_at,
    package_at, scope_at, scopes, version_at, version_list,
};
use super::source::{char_at, digits_end, ident_end, lemma_skip_ws_bounds, skip_ws, word_at};
use vstd::prelude::*;

verus! {

/// `identifier`, which calls no rule.
pub open spec fn tr_identifier(s: Seq<char>, i: int, t: SpecAttempts) -> SpecAttempts {
    if ident_end(s, i) > i {
        t
    } else {
        fail_from(t, t, Rule::Identifier, i)
    }
}

/// `number`, which calls no rule.
pub open spec fn tr_number(s: Seq<char>, i: int, t: SpecAttempts) -> SpecAttempts {
    if digits_end(s, i) > i {
        t
    } else {
        fail_from(t, t, Rule::Number, i)
    }
}

/// `scope`, which calls no rule.
pub open spec fn tr_scope(s: Seq<char>, i: int, t: SpecAttempts) -> SpecAttempts {
    if scope_at(s, i) is Some {
        t
    } else {
        fail_from(t, t, Rule::Scope, i)
    }
}

/// `atype`, which calls `identifier`.
pub open spec fn tr_atype(s: Seq<char>, i: int, t: SpecAttempts) -> SpecAttempts {
    let t1 = tr_identifier(s, i, t);
    if ident_end(s, i) > i {
        t1
    } else {
        fail_from(t, t1, Rule::Atype, i)
    }
}

/// `attribute`: `identifier`, then `atype` where the colon follows.
pub open spec fn tr_attribute(s: Seq<char>, i: int, t: SpecAttempts) -> SpecAttempts {
    let t1 = tr_identifier(s, i, t);
    let e1 = ident_end(s, i);
    if e1 <= i {
        fail_from(t, t1, Rule::Attribute, i)
    } else {
        let c = skip_ws(s, e1);
        if !char_at(s, c, ':') {
            fail_from(t, t1, Rule::Attribute, i)
        } else {
            let u = skip_ws(s, c + 1);
            let t2 = tr_atype(s, u, t1);
            if ident_end(s, u) > u {
                t2
            } else {
                fail_from(t, t2, Rule::Attribute, i)
            }
        }
    }
}

/// `attribute*`, from `i` on.
pub open spec fn tr_attribute_list(s: Seq<char>, i: int, t: SpecAttempts) -> SpecAttempts
    decreases s.len() - i,
{
    let t1 = tr_attribute(s, i, t);
    match attribute_at(s, i) {
        Some((_, e)) => {
            proof {
                lemma_attribute_at_bounds(s, i);
                lemma_skip_ws_bounds(s, e);
            }
            tr_attribute_list(s, skip_ws(s, e), t1)
        },
        None => t1,
    }
}

/// `"(" ~ attribute* ~ ")"`, the body of `attributes` and `parameters`.
pub open spec fn tr_attribute_block(s: Seq<char>, i: int, t: SpecAttempts) -> SpecAttempts {
    if char_at(s, i, '(') {
        tr_attribute_list(s, skip_ws(s, i + 1), t)
    } else {
        t
    }
}

/// `parameters`.
pub open spec fn tr_parameters(s: Seq<char>, i: int, t: SpecAttempts) -> SpecAttempts {
    let t1 = tr_attribute_block(s, i, t);
    if attribute_block_at(s, i) is Some {
        t1
    } else {
        fail_from(t, t1, Rule::Parameters, i)
    }
}

/// `returns`.
pub open spec fn tr_returns(s: Seq<char>, i: int, t: SpecAttempts) -> SpecAttempts {
    if !word_at(s, i, kw_arrow()) {
        fail_from(t, t, Rule::Returns, i)
    } else {
        let t1 = tr_atype(s, i + 4, t);
        if ident_end(s, i + 4) > i + 4 {
            t1
        } else {
            fail_from(t, t1, Rule::Returns, i)
        }
    }
}

/// `method`: `identifier`, `parameters`, then `returns`, whose failure does
/// not fail the method.
pub open spec fn tr_method(s: Seq<char>, i: int, t: SpecAttempts) -> SpecAttempts {
    if !word_at(s, i, kw_method()) {
        fail_from(t, t, Rule::Method, i)
    } else {
        let n1 = ident_end(s, i + 7);
        let t1 = tr_identifier(s, i + 7, t);
        if n1 <= i + 7 {
            fail_from(t, t1, Rule::Method, i)
        } else {
            let t2 = tr_parameters(s, n1, t1);
            match attribute_block_at(s, n1) {
                None => fail_from(t, t2, Rule::Method, i),
                Some((_, p)) => tr_returns(s, p, t2),
            }
        }
    }
}

/// `method*`, from `i` on.
pub open spec fn tr_method_list(s: Seq<char>, i: int, t: SpecAttempts) -> SpecAttempts
    decreases s.len() - i,
{
    let t1 = tr_method(s, i, t);
    match method_at(s, i) {
        Some((_, e)) => {
            proof {
                lemma_method_at_bounds(s, i);
                lemma_skip_ws_bounds(s, e);
            }
            tr_method_list(s, skip_ws(s, e), t1)
        },
        None => t1,
    }
}

/// `"{" ~ attributes? ~ methods? ~ "}"`, the body of an entity.
pub open spec fn tr_entity_body(s: Seq<char>, i: int, t: SpecAttempts) -> SpecAttempts {
    if !char_at(s, i, '{') {
        t
    } else {
        let u = skip_ws(s, i + 1);
        let t1 = tr_attribute_block(s, u, t);
        let u2 = match attribute_block_at(s, u) {
            Some((_, e)) => skip_ws(s, e),
            None => u,
        };
        tr_method_list(s, u2, t1)
    }
}

/// `scope*`, from `i` on.
pub open spec fn tr_scopes(s: Seq<char>, i: int, t: SpecAttempts) -> SpecAttempts
    decreases s.len() - i,
{
    let t1 = tr_scope(s, i, t);
    match scope_at(s, i) {
        Some((_, e)) => {
            proof {
                lemma_skip_ws_bounds(s, e);
            }
            tr_scopes(s, skip_ws(s, e), t1)
        },
        None => t1,
    }
}

/// `entity`.
pub open spec fn tr_entity(s: Seq<char>, i: int, t: SpecAttempts) -> SpecAttempts {
    let t1 = tr_scopes(s, i, t);
    let p = scopes(s, i, Scope::Private).1;
    if !word_at(s, p, kw_entity()) {
        fail_from(t, t1, Rule::Entity, i)
    } else {
        let q = skip_ws(s, p + 6);
        let t2 = tr_identifier(s, q, t1);
        let r = ident_end(s, q);
        if r <= q {
            fail_from(t, t2, Rule::Entity, i)
        } else {
            tr_entity_body(s, skip_ws(s, r), t2)
        }
    }
}

/// `entity*`, from `i` on.
pub open spec fn tr_entity_list(s: Seq<char>, i: int, t: SpecAttempts) -> SpecAttempts
    decreases s.len() - i,
{
    let t1 = tr_entity(s, i, t);
    match entity_at(s, i) {
        Some((_, e)) => {
            proof {
                lemma_entity_at_bounds(s, i);
                lemma_skip_ws_bounds(s, e);
            }
            tr_entity_list(s, skip_ws(s, e), t1)
        },
        None => t1,
    }
}

/// `entities`: one block in braces.
pub open spec fn tr_entity_block(s: Seq<char>, i: int, t: SpecAttempts) -> SpecAttempts {
    if char_at(s, i, '{') {
        tr_entity_list(s, skip_ws(s, i + 1), t)
    } else {
        t
    }
}

/// `entities*`, from `i` on.
pub open spec fn tr_entity_blocks(s: Seq<char>, i: int, t: SpecAttempts) -> SpecAttempts
    decreases s.len() - i,
{
    let t1 = tr_entity_block(s, i, t);
    match entity_block_at(s, i) {
        Some((_, e)) => {
            proof {
                lemma_entity_block_at_bounds(s, i);
                lemma_skip_ws_bounds(s, e);
            }
            tr_entity_blocks(s, skip_ws(s, e), t1)
        },
        None => t1,
    }
}

/// `version`: its three `number`s, as far as it gets.
pub open spec fn tr_version(s: Seq<char>, i: int, t: SpecAttempts) -> SpecAttempts {
    if !word_at(s, i, kw_version()) {
        fail_from(t, t, Rule::Version, i)
    } else {
        let a0 = skip_ws(s, i + 7);
        let t1 = tr_number(s, a0, t);
        let a1 = digits_end(s, a0);
        let d1 = skip_ws(s, a1);
        if a1 <= a0 || !char_at(s, d1, '.') {
            fail_from(t, t1, Rule::Version, i)
        } else {
            let b0 = skip_ws(s, d1 + 1);
            let t2 = tr_number(s, b0, t1);
            let b1 = digits_end(s, b0);
            let d2 = skip_ws(s, b1);
            if b1 <= b0 || !char_at(s, d2, '.') {
                fail_from(t, t2, Rule::Version, i)
            } else {
                let c0 = skip_ws(s, d2 + 1);
                let t3 = tr_number(s, c0, t2);
                if digits_end(s, c0) <= c0 {
                    fail_from(t, t3, Rule::Version, i)
                } else {
                    t3
                }
            }
        }
    }
}

/// `version*`, from `i` on.
pub open spec fn tr_version_list(s: Seq<char>, i: int, t: SpecAttempts) -> SpecAttempts
    decreases s.len() - i,
{
    let t1 = tr_version(s, i, t);
    match version_at(s, i) {
        Some((_, e)) => {
            proof {
                lemma_version_at_bounds(s, i);
                lemma_skip_ws_bounds(s, e);
            }
            tr_version_list(s, skip_ws(s, e), t1)
        },
        None => t1,
    }
}

/// `package`.
pub open spec fn tr_package(s: Seq<char>, i: int, t: SpecAttempts) -> SpecAttempts {
    if !word_at(s, i, kw_package()) {
        fail_from(t, t, Rule::Package, i)
    } else {
        let n0 = skip_ws(s, i + 7);
        let t1 = tr_identifier(s, n0, t);
        let n1 = ident_end(s, n0);
        if n1 <= n0 {
            fail_from(t, t1, Rule::Package, i)
        } else {
            let t2 = tr_version_list(s, skip_ws(s, n1), t1);
            tr_entity_blocks(s, version_list(s, skip_ws(s, n1), None).1, t2)
        }
    }
}

/// The record that reading a whole text leaves: `package` from the first
/// character that is not whitespace, then `EOI` after it.
pub open spec fn tr_d3l(s: Seq<char>) -> SpecAttempts {
    let p = skip_ws(s, 0);
    let t1 = tr_package(s, p, no_attempts());
    match package_at(s, p) {
        None => t1,
        Some((_, e)) => {
            let q = skip_ws(s, e);
            if q == s.len() {
                t1
            } else {
                fail_from(t1, t1, Rule::Eoi, q)
            }
        },
    }
}

} // verus!
