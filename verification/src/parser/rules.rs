//! The 3DL grammar, stated over the characters of the input.
//!
//! ```text
//! D3L        = _{ SOI ~ package ~ EOI }
//! package    = { "package" ~ identifier ~ version* ~ entities* }
//! entities   = _{ ("{" ~ entity* ~ "}") }
//! entity     = { scope* ~ "entity" ~ identifier ~ ( "{" ~ attributes? ~ methods? ~ "}" )? }
//! attributes = _{ "(" ~ attribute* ~ ")" }
//! attribute  = { identifier ~ ":" ~ atype ~ ","? }
//! methods    = _{ method+ }
//! method     = ${ "method " ~ identifier ~ parameters ~ returns? }
//! scope      = { "public" | "private" }
//! atype      = { identifier }
//! parameters = !{ "(" ~ attribute* ~ ")" }
//! returns    = { " -> " ~ atype }
//! identifier = @{ (ASCII_ALPHANUMERIC|"_")+ }
//! version    = { "version" ~ number ~ "." ~ number ~ "." ~ number }
//! number     = @{ ASCII_DIGIT+ }
//! WHITESPACE = _{ " " | "\t" | "\r" | "\n" }
//! ```
//!
//! The rules are ordered choices: every repetition is greedy and never gives
//! back what it matched. Between the parts of a rule that is not atomic,
//! whitespace may stand; inside `method` (and `returns`, which it calls) it may
//! not, and `parameters` allows it again. Each rule below is a function from a
//! position to what the rule reads there and the position after it, or `None`
//! where the rule does not match.
use super::grammar::Scope;
use super::grammar::Version;
use super::source::{
    char_at, ident_end, is_digit, lemma_digits_end_bounds, lemma_ident_end_bounds,
    lemma_skip_ws_bounds, skip_ws, digits_end, word_at,
};
use vstd::prelude::*;

verus! {

/// What an `attribute` (or a parameter) says.
pub struct SpecAttribute {
    pub name: Seq<char>,
    pub atype: Seq<char>,
}

/// What a `method` says; `returns` is empty where the method names no type.
pub struct SpecMethod {
    pub name: Seq<char>,
    pub parameters: Seq<SpecAttribute>,
    pub returns: Seq<char>,
}

/// What an `entity` says.
pub struct SpecEntity {
    pub name: Seq<char>,
    pub scope: Scope,
    pub attributes: Seq<SpecAttribute>,
    pub methods: Seq<SpecMethod>,
}

/// What a `package` says.
pub struct SpecPackage {
    pub name: Seq<char>,
    pub version: Option<Version>,
    pub entities: Seq<SpecEntity>,
}

pub open spec fn kw_package() -> Seq<char> {
    seq!['p', 'a', 'c', 'k', 'a', 'g', 'e']
}

pub open spec fn kw_version() -> Seq<char> {
    seq!['v', 'e', 'r', 's', 'i', 'o', 'n']
}

pub open spec fn kw_entity() -> Seq<char> {
    seq!['e', 'n', 't', 'i', 't', 'y']
}

pub open spec fn kw_public() -> Seq<char> {
    seq!['p', 'u', 'b', 'l', 'i', 'c']
}

pub open spec fn kw_private() -> Seq<char> {
    seq!['p', 'r', 'i', 'v', 'a', 't', 'e']
}

/// `"method "`, with the one space that must follow the word.
pub open spec fn kw_method() -> Seq<char> {
    seq!['m', 'e', 't', 'h', 'o', 'd', ' ']
}

/// `" -> "`, with exactly one space on each side of the arrow.
pub open spec fn kw_arrow() -> Seq<char> {
    seq![' ', '-', '>', ' ']
}

/// The value of a run of decimal digits.
pub open spec fn decimal_value(t: Seq<char>) -> int
    decreases t.len(),
{
    if t.len() == 0 {
        0
    } else {
        decimal_value(t.drop_last()) * 10 + (t.last() as int - '0' as int)
    }
}

pub open spec fn all_digits(t: Seq<char>) -> bool {
    forall|k: int| 0 <= k < t.len() ==> is_digit(#[trigger] t[k])
}

pub proof fn lemma_decimal_value_nonneg(t: Seq<char>)
    requires
        all_digits(t),
    ensures
        decimal_value(t) >= 0,
    decreases t.len(),
{
    if t.len() > 0 {
        let u = t.drop_last();
        assert forall|k: int| 0 <= k < u.len() implies is_digit(#[trigger] u[k]) by {
            assert(u[k] == t[k]);
        }
        lemma_decimal_value_nonneg(u);
    }
}

/// The value of a run of digits is at least that of each of its prefixes.
pub proof fn lemma_decimal_value_prefix(t: Seq<char>, j: int)
    requires
        all_digits(t),
        0 <= j <= t.len(),
    ensures
        decimal_value(t.take(j)) <= decimal_value(t),
    decreases t.len(),
{
    if j < t.len() {
        let u = t.drop_last();
        assert forall|k: int| 0 <= k < u.len() implies is_digit(#[trigger] u[k]) by {
            assert(u[k] == t[k]);
        }
        assert(u.take(j) =~= t.take(j));
        lemma_decimal_value_prefix(u, j);
        lemma_decimal_value_nonneg(u);
        assert(is_digit(t[t.len() - 1]));
    } else {
        assert(t.take(j) =~= t);
    }
}

/// A part of the version text read as a decimal `u8`, or 0 where it is not
/// one (it holds whitespace, or its value is over 255).
pub open spec fn version_part(t: Seq<char>) -> u8 {
    if 0 < t.len() && all_digits(t) && decimal_value(t) <= 255 {
        decimal_value(t) as u8
    } else {
        0
    }
}

/// `scope`, read as the scope it names.
pub open spec fn scope_at(s: Seq<char>, i: int) -> Option<(Scope, int)> {
    if word_at(s, i, kw_public()) {
        Some((Scope::Public, i + 6))
    } else if word_at(s, i, kw_private()) {
        Some((Scope::Private, i + 7))
    } else {
        None
    }
}

/// `scope*`: the last scope named, or `current` where none is, and where the
/// next part of the rule starts.
pub open spec fn scopes(s: Seq<char>, i: int, current: Scope) -> (Scope, int)
    decreases s.len() - i,
{
    match scope_at(s, i) {
        Some((sc, e)) => {
            proof {
                lemma_skip_ws_bounds(s, e);
            }
            scopes(s, skip_ws(s, e), sc)
        },
        None => (current, i),
    }
}

/// `attribute`.
pub open spec fn attribute_at(s: Seq<char>, i: int) -> Option<(SpecAttribute, int)> {
    let e1 = ident_end(s, i);
    if e1 == i {
        None
    } else {
        let c = skip_ws(s, e1);
        if !char_at(s, c, ':') {
            None
        } else {
            let t = skip_ws(s, c + 1);
            let e2 = ident_end(s, t);
            if e2 == t {
                None
            } else {
                let k = skip_ws(s, e2);
                let end = if char_at(s, k, ',') {
                    k + 1
                } else {
                    k
                };
                Some((SpecAttribute { name: s.subrange(i, e1), atype: s.subrange(t, e2) }, end))
            }
        }
    }
}

pub proof fn lemma_attribute_at_bounds(s: Seq<char>, i: int)
    ensures
        attribute_at(s, i) matches Some((_, e)) ==> 0 <= i < e <= s.len(),
{
    lemma_ident_end_bounds(s, i);
    let e1 = ident_end(s, i);
    lemma_skip_ws_bounds(s, e1);
    let c = skip_ws(s, e1);
    lemma_skip_ws_bounds(s, c + 1);
    let t = skip_ws(s, c + 1);
    lemma_ident_end_bounds(s, t);
    let e2 = ident_end(s, t);
    lemma_skip_ws_bounds(s, e2);
}

/// `attribute*`: the attributes read, and where the next part starts.
pub open spec fn attribute_list(s: Seq<char>, i: int) -> (Seq<SpecAttribute>, int)
    decreases s.len() - i,
{
    match attribute_at(s, i) {
        Some((a, e)) => {
            proof {
                lemma_attribute_at_bounds(s, i);
                lemma_skip_ws_bounds(s, e);
            }
            let (rest, end) = attribute_list(s, skip_ws(s, e));
            (seq![a] + rest, end)
        },
        None => (seq![], i),
    }
}

/// `"(" ~ attribute* ~ ")"`: the body of `attributes` and of `parameters`.
pub open spec fn attribute_block_at(s: Seq<char>, i: int) -> Option<(Seq<SpecAttribute>, int)> {
    if !char_at(s, i, '(') {
        None
    } else {
        let (attrs, j) = attribute_list(s, skip_ws(s, i + 1));
        if char_at(s, j, ')') {
            Some((attrs, j + 1))
        } else {
            None
        }
    }
}

/// `returns`, read as the type it names; no whitespace is skipped in it.
pub open spec fn returns_at(s: Seq<char>, i: int) -> Option<(Seq<char>, int)> {
    if !word_at(s, i, kw_arrow()) {
        None
    } else {
        let e = ident_end(s, i + 4);
        if e == i + 4 {
            None
        } else {
            Some((s.subrange(i + 4, e), e))
        }
    }
}

/// `method`; no whitespace is skipped between its parts.
pub open spec fn method_at(s: Seq<char>, i: int) -> Option<(SpecMethod, int)> {
    if !word_at(s, i, kw_method()) {
        None
    } else {
        let n0 = i + 7;
        let n1 = ident_end(s, n0);
        if n1 == n0 {
            None
        } else {
            match attribute_block_at(s, n1) {
                None => None,
                Some((params, p)) => match returns_at(s, p) {
                    Some((r, e)) => Some(
                        (SpecMethod { name: s.subrange(n0, n1), parameters: params, returns: r }, e),
                    ),
                    None => Some(
                        (
                            SpecMethod {
                                name: s.subrange(n0, n1),
                                parameters: params,
                                returns: seq![],
                            },
                            p,
                        ),
                    ),
                },
            }
        }
    }
}

pub proof fn lemma_method_at_bounds(s: Seq<char>, i: int)
    ensures
        method_at(s, i) matches Some((_, e)) ==> 0 <= i < e <= s.len(),
{
    if word_at(s, i, kw_method()) {
        let n1 = ident_end(s, i + 7);
        lemma_ident_end_bounds(s, i + 7);
        if char_at(s, n1, '(') {
            lemma_skip_ws_bounds(s, n1 + 1);
            lemma_attribute_list_bounds(s, skip_ws(s, n1 + 1));
        }
        if let Some((_, p)) = attribute_block_at(s, n1) {
            lemma_ident_end_bounds(s, p + 4);
        }
    }
}

pub proof fn lemma_attribute_list_bounds(s: Seq<char>, i: int)
    ensures
        attribute_list(s, i).1 >= i,
        0 <= i <= s.len() ==> attribute_list(s, i).1 <= s.len(),
    decreases s.len() - i,
{
    lemma_attribute_at_bounds(s, i);
    if let Some((_, e)) = attribute_at(s, i) {
        lemma_skip_ws_bounds(s, e);
        lemma_attribute_list_bounds(s, skip_ws(s, e));
    }
}

/// `method*`: the methods read, and where the next part starts.
pub open spec fn method_list(s: Seq<char>, i: int) -> (Seq<SpecMethod>, int)
    decreases s.len() - i,
{
    match method_at(s, i) {
        Some((m, e)) => {
            proof {
                lemma_method_at_bounds(s, i);
                lemma_skip_ws_bounds(s, e);
            }
            let (rest, end) = method_list(s, skip_ws(s, e));
            (seq![m] + rest, end)
        },
        None => (seq![], i),
    }
}

pub proof fn lemma_method_list_bounds(s: Seq<char>, i: int)
    ensures
        method_list(s, i).1 >= i,
        0 <= i <= s.len() ==> method_list(s, i).1 <= s.len(),
    decreases s.len() - i,
{
    lemma_method_at_bounds(s, i);
    if let Some((_, e)) = method_at(s, i) {
        lemma_skip_ws_bounds(s, e);
        lemma_method_list_bounds(s, skip_ws(s, e));
    }
}

/// `"{" ~ attributes? ~ methods? ~ "}"`, the body of an entity.
pub open spec fn entity_body_at(s: Seq<char>, i: int) -> Option<
    (Seq<SpecAttribute>, Seq<SpecMethod>, int),
> {
    if !char_at(s, i, '{') {
        None
    } else {
        let u = skip_ws(s, i + 1);
        let (attrs, u2) = match attribute_block_at(s, u) {
            Some((a, e)) => (a, skip_ws(s, e)),
            None => (seq![], u),
        };
        let (methods, m) = method_list(s, u2);
        if char_at(s, m, '}') {
            Some((attrs, methods, m + 1))
        } else {
            None
        }
    }
}

/// `entity`; an entity whose body does not follow has no attributes and no
/// methods.
pub open spec fn entity_at(s: Seq<char>, i: int) -> Option<(SpecEntity, int)> {
    let (scope, p) = scopes(s, i, Scope::Private);
    if !word_at(s, p, kw_entity()) {
        None
    } else {
        let q = skip_ws(s, p + 6);
        let r = ident_end(s, q);
        if r == q {
            None
        } else {
            match entity_body_at(s, skip_ws(s, r)) {
                Some((attrs, methods, e)) => Some(
                    (
                        SpecEntity {
                            name: s.subrange(q, r),
                            scope,
                            attributes: attrs,
                            methods,
                        },
                        e,
                    ),
                ),
                None => Some(
                    (
                        SpecEntity {
                            name: s.subrange(q, r),
                            scope,
                            attributes: seq![],
                            methods: seq![],
                        },
                        r,
                    ),
                ),
            }
        }
    }
}

pub proof fn lemma_scopes_bounds(s: Seq<char>, i: int, current: Scope)
    ensures
        scopes(s, i, current).1 >= i,
        0 <= i <= s.len() ==> scopes(s, i, current).1 <= s.len(),
    decreases s.len() - i,
{
    if let Some((sc, e)) = scope_at(s, i) {
        lemma_skip_ws_bounds(s, e);
        lemma_scopes_bounds(s, skip_ws(s, e), sc);
    }
}

pub proof fn lemma_entity_at_bounds(s: Seq<char>, i: int)
    ensures
        entity_at(s, i) matches Some((_, e)) ==> 0 <= i < e <= s.len(),
{
    lemma_scopes_bounds(s, i, Scope::Private);
    let p = scopes(s, i, Scope::Private).1;
    if word_at(s, p, kw_entity()) {
        lemma_skip_ws_bounds(s, p + 6);
        let q = skip_ws(s, p + 6);
        lemma_ident_end_bounds(s, q);
        let r = ident_end(s, q);
        lemma_skip_ws_bounds(s, r);
        let t = skip_ws(s, r);
        if char_at(s, t, '{') {
            lemma_skip_ws_bounds(s, t + 1);
            let u = skip_ws(s, t + 1);
            if char_at(s, u, '(') {
                lemma_skip_ws_bounds(s, u + 1);
                lemma_attribute_list_bounds(s, skip_ws(s, u + 1));
            }
            if let Some((_, e)) = attribute_block_at(s, u) {
                lemma_skip_ws_bounds(s, e);
                lemma_method_list_bounds(s, skip_ws(s, e));
            } else {
                lemma_method_list_bounds(s, u);
            }
        }
    }
}

/// `entity*`: the entities read, and where the next part starts.
pub open spec fn entity_list(s: Seq<char>, i: int) -> (Seq<SpecEntity>, int)
    decreases s.len() - i,
{
    match entity_at(s, i) {
        Some((en, e)) => {
            proof {
                lemma_entity_at_bounds(s, i);
                lemma_skip_ws_bounds(s, e);
            }
            let (rest, end) = entity_list(s, skip_ws(s, e));
            (seq![en] + rest, end)
        },
        None => (seq![], i),
    }
}

pub proof fn lemma_entity_list_bounds(s: Seq<char>, i: int)
    ensures
        entity_list(s, i).1 >= i,
        0 <= i <= s.len() ==> entity_list(s, i).1 <= s.len(),
    decreases s.len() - i,
{
    lemma_entity_at_bounds(s, i);
    if let Some((_, e)) = entity_at(s, i) {
        lemma_skip_ws_bounds(s, e);
        lemma_entity_list_bounds(s, skip_ws(s, e));
    }
}

/// `entities`: one block of entities between braces.
pub open spec fn entity_block_at(s: Seq<char>, i: int) -> Option<(Seq<SpecEntity>, int)> {
    if !char_at(s, i, '{') {
        None
    } else {
        let (es, c) = entity_list(s, skip_ws(s, i + 1));
        if char_at(s, c, '}') {
            Some((es, c + 1))
        } else {
            None
        }
    }
}

pub proof fn lemma_entity_block_at_bounds(s: Seq<char>, i: int)
    ensures
        entity_block_at(s, i) matches Some((_, e)) ==> 0 <= i < e <= s.len(),
{
    if char_at(s, i, '{') {
        lemma_skip_ws_bounds(s, i + 1);
        lemma_entity_list_bounds(s, skip_ws(s, i + 1));
    }
}

/// `entities*`: the entities of all the blocks, in order.
pub open spec fn entity_blocks(s: Seq<char>, i: int) -> (Seq<SpecEntity>, int)
    decreases s.len() - i,
{
    match entity_block_at(s, i) {
        Some((es, e)) => {
            proof {
                lemma_entity_block_at_bounds(s, i);
                lemma_skip_ws_bounds(s, e);
            }
            let (rest, end) = entity_blocks(s, skip_ws(s, e));
            (es + rest, end)
        },
        None => (seq![], i),
    }
}

/// `version`. The three parts of its value are the pieces of the text from
/// the first number to the last, split at the dots.
pub open spec fn version_at(s: Seq<char>, i: int) -> Option<(Version, int)> {
    if !word_at(s, i, kw_version()) {
        None
    } else {
        let a0 = skip_ws(s, i + 7);
        let a1 = digits_end(s, a0);
        let d1 = skip_ws(s, a1);
        let b0 = skip_ws(s, d1 + 1);
        let b1 = digits_end(s, b0);
        let d2 = skip_ws(s, b1);
        let c0 = skip_ws(s, d2 + 1);
        let c1 = digits_end(s, c0);
        if a1 == a0 || !char_at(s, d1, '.') || b1 == b0 || !char_at(s, d2, '.') || c1 == c0 {
            None
        } else {
            Some(
                (
                    Version {
                        major: version_part(s.subrange(a0, d1)),
                        minor: version_part(s.subrange(d1 + 1, d2)),
                        patch: version_part(s.subrange(d2 + 1, c1)),
                    },
                    c1,
                ),
            )
        }
    }
}

pub proof fn lemma_version_at_bounds(s: Seq<char>, i: int)
    ensures
        version_at(s, i) matches Some((_, e)) ==> 0 <= i < e <= s.len(),
{
    if word_at(s, i, kw_version()) {
        let a0 = skip_ws(s, i + 7);
        lemma_skip_ws_bounds(s, i + 7);
        let a1 = digits_end(s, a0);
        lemma_digits_end_bounds(s, a0);
        let d1 = skip_ws(s, a1);
        lemma_skip_ws_bounds(s, a1);
        let b0 = skip_ws(s, d1 + 1);
        lemma_skip_ws_bounds(s, d1 + 1);
        let b1 = digits_end(s, b0);
        lemma_digits_end_bounds(s, b0);
        let d2 = skip_ws(s, b1);
        lemma_skip_ws_bounds(s, b1);
        let c0 = skip_ws(s, d2 + 1);
        lemma_skip_ws_bounds(s, d2 + 1);
        lemma_digits_end_bounds(s, c0);
    }
}

/// `version*`: the last version read, or `current` where none is.
pub open spec fn version_list(s: Seq<char>, i: int, current: Option<Version>) -> (
    Option<Version>,
    int,
)
    decreases s.len() - i,
{
    match version_at(s, i) {
        Some((v, e)) => {
            proof {
                lemma_version_at_bounds(s, i);
                lemma_skip_ws_bounds(s, e);
            }
            version_list(s, skip_ws(s, e), Some(v))
        },
        None => (current, i),
    }
}

pub proof fn lemma_version_list_bounds(s: Seq<char>, i: int, current: Option<Version>)
    ensures
        version_list(s, i, current).1 >= i,
        0 <= i <= s.len() ==> version_list(s, i, current).1 <= s.len(),
    decreases s.len() - i,
{
    lemma_version_at_bounds(s, i);
    if let Some((v, e)) = version_at(s, i) {
        lemma_skip_ws_bounds(s, e);
        lemma_version_list_bounds(s, skip_ws(s, e), Some(v));
    }
}

/// `package`.
pub open spec fn package_at(s: Seq<char>, i: int) -> Option<(SpecPackage, int)> {
    if !word_at(s, i, kw_package()) {
        None
    } else {
        let n0 = skip_ws(s, i + 7);
        let n1 = ident_end(s, n0);
        if n1 == n0 {
            None
        } else {
            let (version, v) = version_list(s, skip_ws(s, n1), None);
            let (entities, e) = entity_blocks(s, v);
            Some((SpecPackage { name: s.subrange(n0, n1), version, entities }, e))
        }
    }
}

pub proof fn lemma_entity_blocks_bounds(s: Seq<char>, i: int)
    ensures
        entity_blocks(s, i).1 >= i,
        0 <= i <= s.len() ==> entity_blocks(s, i).1 <= s.len(),
    decreases s.len() - i,
{
    lemma_entity_block_at_bounds(s, i);
    if let Some((_, e)) = entity_block_at(s, i) {
        lemma_skip_ws_bounds(s, e);
        lemma_entity_blocks_bounds(s, skip_ws(s, e));
    }
}

pub proof fn lemma_package_at_bounds(s: Seq<char>, i: int)
    ensures
        package_at(s, i) matches Some((_, e)) ==> 0 <= i < e <= s.len(),
{
    if word_at(s, i, kw_package()) {
        lemma_skip_ws_bounds(s, i + 7);
        let n0 = skip_ws(s, i + 7);
        lemma_ident_end_bounds(s, n0);
        let n1 = ident_end(s, n0);
        lemma_skip_ws_bounds(s, n1);
        lemma_version_list_bounds(s, skip_ws(s, n1), None);
        lemma_entity_blocks_bounds(s, version_list(s, skip_ws(s, n1), None).1);
    }
}

/// `D3L`: the package that the whole text describes, with nothing but
/// whitespace before and after it, or `None` where the text is not 3DL.
pub open spec fn d3l(s: Seq<char>) -> Option<SpecPackage> {
    match package_at(s, skip_ws(s, 0)) {
        Some((p, e)) => if skip_ws(s, e) == s.len() {
            Some(p)
        } else {
            None
        },
        None => None,
    }
}

} // verus!
