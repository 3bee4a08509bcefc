//! What holds of every text and of every package read from one.
use super::rules::{
    SpecAttribute, SpecEntity, SpecMethod, SpecPackage, attribute_at, attribute_block_at,
    attribute_list, d3l, entity_at, entity_block_at, entity_blocks, entity_body_at, entity_list,
    lemma_attribute_at_bounds, lemma_entity_at_bounds, lemma_entity_block_at_bounds,
    lemma_method_at_bounds, method_at, method_list, package_at, returns_at,
};
use super::source::{is_ident_char, lemma_ident_end_bounds, lemma_skip_ws_bounds, ident_end, skip_ws};
use vstd::prelude::*;

verus! {

/// `identifier = @{ (ASCII_ALPHANUMERIC|"_")+ }`.
pub open spec fn is_identifier(t: Seq<char>) -> bool {
    t.len() > 0 && forall|k: int| 0 <= k < t.len() ==> is_ident_char(#[trigger] t[k])
}

pub open spec fn attribute_names_ok(a: SpecAttribute) -> bool {
    is_identifier(a.name) && is_identifier(a.atype)
}

pub open spec fn attributes_names_ok(v: Seq<SpecAttribute>) -> bool {
    forall|k: int| 0 <= k < v.len() ==> attribute_names_ok(#[trigger] v[k])
}

pub open spec fn method_names_ok(m: SpecMethod) -> bool {
    &&& is_identifier(m.name)
    &&& m.returns.len() == 0 || is_identifier(m.returns)
    &&& attributes_names_ok(m.parameters)
}

pub open spec fn methods_names_ok(v: Seq<SpecMethod>) -> bool {
    forall|k: int| 0 <= k < v.len() ==> method_names_ok(#[trigger] v[k])
}

pub open spec fn entity_names_ok(e: SpecEntity) -> bool {
    &&& is_identifier(e.name)
    &&& attributes_names_ok(e.attributes)
    &&& methods_names_ok(e.methods)
}

pub open spec fn entities_names_ok(v: Seq<SpecEntity>) -> bool {
    forall|k: int| 0 <= k < v.len() ==> entity_names_ok(#[trigger] v[k])
}

/// Every name in the package (of the package, its entities, their
/// attributes, methods and parameters, and every type) is an identifier;
/// a method names no return type or an identifier.
pub open spec fn package_names_ok(p: SpecPackage) -> bool {
    is_identifier(p.name) && entities_names_ok(p.entities)
}

proof fn lemma_ident_span(s: Seq<char>, i: int)
    ensures
        ident_end(s, i) >= i,
        ident_end(s, i) > i ==> is_identifier(s.subrange(i, ident_end(s, i))),
{
    lemma_ident_end_bounds(s, i);
    let e = ident_end(s, i);
    if e > i {
        let t = s.subrange(i, e);
        assert forall|k: int| 0 <= k < t.len() implies is_ident_char(#[trigger] t[k]) by {
            assert(t[k] == s[i + k]);
        }
    }
}

proof fn lemma_attribute_names(s: Seq<char>, i: int)
    ensures
        attribute_at(s, i) matches Some((a, _)) ==> attribute_names_ok(a),
{
    lemma_ident_span(s, i);
    let c = skip_ws(s, ident_end(s, i));
    lemma_ident_span(s, skip_ws(s, c + 1));
}

proof fn lemma_attribute_list_names(s: Seq<char>, i: int)
    ensures
        attributes_names_ok(attribute_list(s, i).0),
    decreases s.len() - i,
{
    lemma_attribute_at_bounds(s, i);
    lemma_attribute_names(s, i);
    if let Some((a, e)) = attribute_at(s, i) {
        lemma_skip_ws_bounds(s, e);
        lemma_attribute_list_names(s, skip_ws(s, e));
        let rest = attribute_list(s, skip_ws(s, e)).0;
        assert forall|k: int| 0 <= k < (seq![a] + rest).len() implies attribute_names_ok(
            #[trigger] (seq![a] + rest)[k],
        ) by {
            if k > 0 {
                assert((seq![a] + rest)[k] == rest[k - 1]);
            }
        }
    }
}

proof fn lemma_attribute_block_names(s: Seq<char>, i: int)
    ensures
        attribute_block_at(s, i) matches Some((v, _)) ==> attributes_names_ok(v),
{
    lemma_attribute_list_names(s, skip_ws(s, i + 1));
}

proof fn lemma_method_names(s: Seq<char>, i: int)
    ensures
        method_at(s, i) matches Some((m, _)) ==> method_names_ok(m),
{
    lemma_ident_span(s, i + 7);
    let n1 = ident_end(s, i + 7);
    lemma_attribute_block_names(s, n1);
    if let Some((_, p)) = attribute_block_at(s, n1) {
        lemma_ident_span(s, p + 4);
        if let Some((r, _)) = returns_at(s, p) {
            assert(is_identifier(r));
        }
    }
}

proof fn lemma_method_list_names(s: Seq<char>, i: int)
    ensures
        methods_names_ok(method_list(s, i).0),
    decreases s.len() - i,
{
    lemma_method_at_bounds(s, i);
    lemma_method_names(s, i);
    if let Some((m, e)) = method_at(s, i) {
        lemma_skip_ws_bounds(s, e);
        lemma_method_list_names(s, skip_ws(s, e));
        let rest = method_list(s, skip_ws(s, e)).0;
        assert forall|k: int| 0 <= k < (seq![m] + rest).len() implies method_names_ok(
            #[trigger] (seq![m] + rest)[k],
        ) by {
            if k > 0 {
                assert((seq![m] + rest)[k] == rest[k - 1]);
            }
        }
    }
}

proof fn lemma_entity_body_names(s: Seq<char>, i: int)
    ensures
        entity_body_at(s, i) matches Some((a, m, _)) ==> attributes_names_ok(a)
            && methods_names_ok(m),
{
    let u = skip_ws(s, i + 1);
    lemma_attribute_block_names(s, u);
    if let Some((_, e)) = attribute_block_at(s, u) {
        lemma_method_list_names(s, skip_ws(s, e));
    } else {
        lemma_method_list_names(s, u);
    }
}

proof fn lemma_entity_names(s: Seq<char>, i: int)
    ensures
        entity_at(s, i) matches Some((en, _)) ==> entity_names_ok(en),
{
    let p = super::rules::scopes(s, i, super::grammar::Scope::Private).1;
    let q = skip_ws(s, p + 6);
    lemma_ident_span(s, q);
    let r = ident_end(s, q);
    lemma_entity_body_names(s, skip_ws(s, r));
}

proof fn lemma_entity_list_names(s: Seq<char>, i: int)
    ensures
        entities_names_ok(entity_list(s, i).0),
    decreases s.len() - i,
{
    lemma_entity_at_bounds(s, i);
    lemma_entity_names(s, i);
    if let Some((en, e)) = entity_at(s, i) {
        lemma_skip_ws_bounds(s, e);
        lemma_entity_list_names(s, skip_ws(s, e));
        let rest = entity_list(s, skip_ws(s, e)).0;
        assert forall|k: int| 0 <= k < (seq![en] + rest).len() implies entity_names_ok(
            #[trigger] (seq![en] + rest)[k],
        ) by {
            if k > 0 {
                assert((seq![en] + rest)[k] == rest[k - 1]);
            }
        }
    }
}

proof fn lemma_entity_blocks_names(s: Seq<char>, i: int)
    ensures
        entities_names_ok(entity_blocks(s, i).0),
    decreases s.len() - i,
{
    lemma_entity_block_at_bounds(s, i);
    if let Some((es, e)) = entity_block_at(s, i) {
        lemma_entity_list_names(s, skip_ws(s, i + 1));
        lemma_skip_ws_bounds(s, e);
        lemma_entity_blocks_names(s, skip_ws(s, e));
        let rest = entity_blocks(s, skip_ws(s, e)).0;
        assert forall|k: int| 0 <= k < (es + rest).len() implies entity_names_ok(
            #[trigger] (es + rest)[k],
        ) by {
            if k >= es.len() {
                assert((es + rest)[k] == rest[k - es.len()]);
            } else {
                assert((es + rest)[k] == es[k]);
            }
        }
    }
}

/// Every name that a 3DL text gives (of its package, entities, attributes,
/// methods, parameters and types) is an identifier: one or more ASCII letters,
/// digits or underscores. A method's return type is an identifier too, or
/// empty where the method names none.
pub proof fn names_are_identifiers(s: Seq<char>)
    ensures
        d3l(s) matches Some(p) ==> package_names_ok(p),
{
    let i = skip_ws(s, 0);
    let n0 = skip_ws(s, i + 7);
    lemma_ident_span(s, n0);
    if let Some((p, _)) = package_at(s, i) {
        let n1 = ident_end(s, n0);
        let v = super::rules::version_list(s, skip_ws(s, n1), None).1;
        lemma_entity_blocks_names(s, v);
    }
}

} // verus!
