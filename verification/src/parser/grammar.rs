//! The design that a 3DL text describes, and the readers that build it from
//! the text, one grammar rule each.
use super::rules::{
    SpecAttribute, SpecEntity, SpecMethod, SpecPackage, all_digits, attribute_at,
    attribute_block_at, attribute_list, decimal_value, entity_at, entity_block_at, entity_blocks,
    entity_body_at, entity_list, kw_arrow, kw_entity, kw_method, kw_package, kw_private,
    kw_public, kw_version, lemma_attribute_at_bounds, lemma_attribute_list_bounds,
    lemma_decimal_value_prefix, lemma_entity_at_bounds, lemma_entity_block_at_bounds,
    lemma_entity_blocks_bounds, lemma_entity_list_bounds, lemma_method_at_bounds, lemma_method_list_bounds,
    lemma_scopes_bounds, lemma_version_at_bounds, lemma_version_list_bounds, method_at,
    method_list, package_at, returns_at, scope_at, scopes, version_at, version_list,
    version_part,
};
use super::attempts::{Attempts, Rule};
use super::tracking::{
    tr_atype, tr_attribute, tr_attribute_block, tr_attribute_list, tr_entity, tr_entity_block,
    tr_entity_blocks, tr_entity_body, tr_entity_list, tr_identifier, tr_method, tr_method_list,
    tr_number, tr_package, tr_parameters, tr_returns, tr_scope, tr_scopes, tr_version,
    tr_version_list,
};
use super::source::{
    Source, digits_end, ident_end, is_digit, lemma_digits_end_bounds, lemma_ident_end_bounds,
    lemma_skip_ws_bounds, skip_ws,
};
use vstd::prelude::*;

verus! {

/// The visibility of an entity.
#[derive(Debug, PartialEq, Eq, Clone, Copy)]
pub enum Scope {
    Public,
    Private,
}

/// A version number `major.minor.patch`.
#[derive(Debug, PartialEq, Eq, Clone, Copy)]
pub struct Version {
    pub major: u8,
    pub minor: u8,
    pub patch: u8,
}

/// A named, typed attribute of an entity, or a parameter of a method.
#[derive(Debug)]
pub struct Attribute {
    pub name: String,
    pub atype: String,
}

/// A method of an entity; `returns` is empty where it names no type.
#[derive(Debug)]
pub struct Method {
    pub name: String,
    pub parameters: Vec<Attribute>,
    pub returns: String,
}

/// An entity of a package.
#[derive(Debug)]
pub struct Entity {
    pub name: String,
    pub methods: Vec<Method>,
    pub scope: Scope,
    pub attributes: Vec<Attribute>,
}

/// A package: the root of a design.
#[derive(Debug)]
pub struct Package {
    pub name: String,
    pub version: Option<Version>,
    pub entities: Vec<Entity>,
}

impl View for Attribute {
    type V = SpecAttribute;

    open spec fn view(&self) -> SpecAttribute {
        SpecAttribute { name: self.name@, atype: self.atype@ }
    }
}

pub open spec fn attributes_view(v: Seq<Attribute>) -> Seq<SpecAttribute> {
    v.map_values(|a: Attribute| a@)
}

impl View for Method {
    type V = SpecMethod;

    open spec fn view(&self) -> SpecMethod {
        SpecMethod {
            name: self.name@,
            parameters: attributes_view(self.parameters@),
            returns: self.returns@,
        }
    }
}

pub open spec fn methods_view(v: Seq<Method>) -> Seq<SpecMethod> {
    v.map_values(|m: Method| m@)
}

impl View for Entity {
    type V = SpecEntity;

    open spec fn view(&self) -> SpecEntity {
        SpecEntity {
            name: self.name@,
            scope: self.scope,
            attributes: attributes_view(self.attributes@),
            methods: methods_view(self.methods@),
        }
    }
}

pub open spec fn entities_view(v: Seq<Entity>) -> Seq<SpecEntity> {
    v.map_values(|e: Entity| e@)
}

impl View for Package {
    type V = SpecPackage;

    open spec fn view(&self) -> SpecPackage {
        SpecPackage {
            name: self.name@,
            version: self.version,
            entities: entities_view(self.entities@),
        }
    }
}

fn word_package() -> (w: Vec<char>)
    ensures
        w@ == kw_package(),
{
    vec!['p', 'a', 'c', 'k', 'a', 'g', 'e']
}

fn word_version() -> (w: Vec<char>)
    ensures
        w@ == kw_version(),
{
    vec!['v', 'e', 'r', 's', 'i', 'o', 'n']
}

fn word_entity() -> (w: Vec<char>)
    ensures
        w@ == kw_entity(),
{
    vec!['e', 'n', 't', 'i', 't', 'y']
}

fn word_public() -> (w: Vec<char>)
    ensures
        w@ == kw_public(),
{
    vec!['p', 'u', 'b', 'l', 'i', 'c']
}

fn word_private() -> (w: Vec<char>)
    ensures
        w@ == kw_private(),
{
    vec!['p', 'r', 'i', 'v', 'a', 't', 'e']
}

fn word_method() -> (w: Vec<char>)
    ensures
        w@ == kw_method(),
{
    vec!['m', 'e', 't', 'h', 'o', 'd', ' ']
}

fn word_arrow() -> (w: Vec<char>)
    ensures
        w@ == kw_arrow(),
{
    vec![' ', '-', '>', ' ']
}

/// Reads an `identifier` at position `i`: where it ends (`i` where there
/// is none).
fn read_identifier(src: &Source, i: usize, att: &mut Attempts) -> (e: usize)
    requires
        i <= src@.len(),
        old(att)@.pos <= src@.len(),
    ensures
        e == ident_end(src@, i as int),
        final(att)@ == tr_identifier(src@, i as int, old(att)@),
        final(att)@.pos <= src@.len(),
{
    proof {
        lemma_ident_end_bounds(src@, i as int);
    }
    let m = att.mark();
    let e = src.ident_end(i);
    if e == i {
        att.fail(m, Rule::Identifier, i);
    }
    e
}

/// Reads a `number` at position `i`: where it ends (`i` where there is
/// none).
fn read_number(src: &Source, i: usize, att: &mut Attempts) -> (e: usize)
    requires
        i <= src@.len(),
        old(att)@.pos <= src@.len(),
    ensures
        e == digits_end(src@, i as int),
        final(att)@ == tr_number(src@, i as int, old(att)@),
        final(att)@.pos <= src@.len(),
{
    proof {
        lemma_digits_end_bounds(src@, i as int);
    }
    let m = att.mark();
    let e = src.digits_end(i);
    if e == i {
        att.fail(m, Rule::Number, i);
    }
    e
}

/// Reads an `atype` at position `i`: where its identifier ends (`i` where
/// there is none).
fn read_atype(src: &Source, i: usize, att: &mut Attempts) -> (e: usize)
    requires
        i <= src@.len(),
        old(att)@.pos <= src@.len(),
    ensures
        e == ident_end(src@, i as int),
        final(att)@ == tr_atype(src@, i as int, old(att)@),
        final(att)@.pos <= src@.len(),
{
    proof {
        lemma_ident_end_bounds(src@, i as int);
    }
    let m = att.mark();
    let e = read_identifier(src, i, att);
    if e == i {
        att.fail(m, Rule::Atype, i);
    }
    e
}

impl Scope {
    /// Reads a `scope` at position `i`.
    pub fn read_at(src: &Source, i: usize, att: &mut Attempts) -> (r: Option<(Scope, usize)>)
        requires
            i <= src@.len(),
            old(att)@.pos <= src@.len(),
        ensures
            r is Some <==> scope_at(src@, i as int) is Some,
            r matches Some((sc, e)) ==> scope_at(src@, i as int) == Some((sc, e as int)),
            final(att)@ == tr_scope(src@, i as int, old(att)@),
            final(att)@.pos <= src@.len(),
    {
        if src.has_word(i, &word_public()) {
            Some((Scope::Public, i + 6))
        } else if src.has_word(i, &word_private()) {
            Some((Scope::Private, i + 7))
        } else {
            let m = att.mark();
            att.fail(m, Rule::Scope, i);
            None
        }
    }

    /// Reads `scope*` from position `i`: the last scope named (private where
    /// none is) and where the entity goes on.
    pub fn read_all(src: &Source, i: usize, att: &mut Attempts) -> (r: (Scope, usize))
        requires
            i <= src@.len(),
            old(att)@.pos <= src@.len(),
        ensures
            (r.0, r.1 as int) == scopes(src@, i as int, Scope::Private),
            final(att)@ == tr_scopes(src@, i as int, old(att)@),
            final(att)@.pos <= src@.len(),
    {
        let ghost t0 = att@;
        let mut cur = Scope::Private;
        let mut p = i;
        loop
            invariant
                p <= src@.len(),
                scopes(src@, i as int, Scope::Private) == scopes(src@, p as int, cur),
                tr_scopes(src@, i as int, t0) == tr_scopes(src@, p as int, att@),
                t0 == old(att)@,
                att@.pos <= src@.len(),
            decreases src@.len() - p,
        {
            let ghost tb = att@;
            match Scope::read_at(src, p, att) {
                Some((sc, e)) => {
                    proof {
                        lemma_skip_ws_bounds(src@, e as int);
                    }
                    cur = sc;
                    p = src.skip_ws(e);
                },
                None => {
                    proof {
                        assert(tr_scopes(src@, p as int, tb) == att@);
                    }
                    return (cur, p);
                },
            }
        }
    }
}

impl Version {
    /// Reads one part of a version: the text from `from` up to `to` as a
    /// decimal `u8`, or 0 where it is not one.
    pub fn read_part(src: &Source, from: usize, to: usize) -> (v: u8)
        requires
            from <= to <= src@.len(),
        ensures
            v == version_part(src@.subrange(from as int, to as int)),
    {
        let ghost t = src@.subrange(from as int, to as int);
        if from == to {
            return 0;
        }
        let mut acc: u32 = 0;
        let mut k = from;
        while k < to
            invariant
                from <= k <= to <= src@.len(),
                t == src@.subrange(from as int, to as int),
                acc <= 255,
                all_digits(t.take(k - from)),
                acc == decimal_value(t.take(k - from)),
            decreases to - k,
        {
            let c = src.char_at(k);
            if !('0' <= c && c <= '9') {
                proof {
                    assert(t[k - from] == c);
                    assert(!is_digit(t[k - from]));
                }
                return 0;
            }
            let ghost before = t.take(k - from);
            acc = acc * 10 + (c as u32 - '0' as u32);
            k = k + 1;
            proof {
                let now = t.take(k - from);
                assert(now.drop_last() =~= before);
                assert(now.last() == c);
                assert forall|j: int| 0 <= j < now.len() implies is_digit(#[trigger] now[j]) by {
                    if j < now.len() - 1 {
                        assert(now[j] == before[j]);
                    }
                }
            }
            if acc > 255 {
                proof {
                    if all_digits(t) {
                        lemma_decimal_value_prefix(t, k - from);
                    }
                }
                return 0;
            }
        }
        proof {
            assert(t.take(k - from) =~= t);
        }
        acc as u8
    }

    /// Reads a `version` at position `i`.
    pub fn read_at(src: &Source, i: usize, att: &mut Attempts) -> (r: Option<(Version, usize)>)
        requires
            i <= src@.len(),
            old(att)@.pos <= src@.len(),
        ensures
            r is Some <==> version_at(src@, i as int) is Some,
            r matches Some((v, e)) ==> version_at(src@, i as int) == Some((v, e as int)),
            final(att)@ == tr_version(src@, i as int, old(att)@),
            final(att)@.pos <= src@.len(),
    {
        let ghost s = src@;
        let m = att.mark();
        if !src.has_word(i, &word_version()) {
            att.fail(m, Rule::Version, i);
            return None;
        }
        proof {
            lemma_skip_ws_bounds(s, i + 7);
        }
        let a0 = src.skip_ws(i + 7);
        proof {
            lemma_digits_end_bounds(s, a0 as int);
        }
        let a1 = read_number(src, a0, att);
        proof {
            lemma_skip_ws_bounds(s, a1 as int);
        }
        let d1 = src.skip_ws(a1);
        if a1 == a0 || !src.has_char(d1, '.') {
            att.fail(m, Rule::Version, i);
            return None;
        }
        proof {
            lemma_skip_ws_bounds(s, d1 + 1);
        }
        let b0 = src.skip_ws(d1 + 1);
        proof {
            lemma_digits_end_bounds(s, b0 as int);
        }
        let b1 = read_number(src, b0, att);
        proof {
            lemma_skip_ws_bounds(s, b1 as int);
        }
        let d2 = src.skip_ws(b1);
        if b1 == b0 || !src.has_char(d2, '.') {
            att.fail(m, Rule::Version, i);
            return None;
        }
        proof {
            lemma_skip_ws_bounds(s, d2 + 1);
        }
        let c0 = src.skip_ws(d2 + 1);
        proof {
            lemma_digits_end_bounds(s, c0 as int);
        }
        let c1 = read_number(src, c0, att);
        if c1 == c0 {
            att.fail(m, Rule::Version, i);
            return None;
        }
        let major = Version::read_part(src, a0, d1);
        let minor = Version::read_part(src, d1 + 1, d2);
        let patch = Version::read_part(src, d2 + 1, c1);
        Some((Version { major, minor, patch }, c1))
    }

    /// Reads `version*` from position `i`: the last version read (`current`
    /// where there is none) and where the package goes on.
    pub fn read_all(src: &Source, i: usize, current: Option<Version>, att: &mut Attempts) -> (r: (
        Option<Version>,
        usize,
    ))
        requires
            i <= src@.len(),
            old(att)@.pos <= src@.len(),
        ensures
            (r.0, r.1 as int) == version_list(src@, i as int, current),
            final(att)@ == tr_version_list(src@, i as int, old(att)@),
            final(att)@.pos <= src@.len(),
    {
        let ghost t0 = att@;
        let mut cur = current;
        let mut p = i;
        loop
            invariant
                p <= src@.len(),
                version_list(src@, i as int, current) == version_list(src@, p as int, cur),
                tr_version_list(src@, i as int, t0) == tr_version_list(src@, p as int, att@),
                t0 == old(att)@,
                att@.pos <= src@.len(),
            decreases src@.len() - p,
        {
            let ghost tb = att@;
            match Version::read_at(src, p, att) {
                Some((v, e)) => {
                    proof {
                        lemma_version_at_bounds(src@, p as int);
                        lemma_skip_ws_bounds(src@, e as int);
                    }
                    cur = Some(v);
                    p = src.skip_ws(e);
                },
                None => {
                    proof {
                        assert(tr_version_list(src@, p as int, tb) == att@);
                    }
                    return (cur, p);
                },
            }
        }
    }
}

impl Attribute {
    /// Reads an `attribute` at position `i`.
    pub fn read_at(src: &Source, i: usize, att: &mut Attempts) -> (r: Option<(Attribute, usize)>)
        requires
            i <= src@.len(),
            old(att)@.pos <= src@.len(),
        ensures
            r is Some <==> attribute_at(src@, i as int) is Some,
            r matches Some((a, e)) ==> attribute_at(src@, i as int) == Some((a@, e as int)),
            final(att)@ == tr_attribute(src@, i as int, old(att)@),
            final(att)@.pos <= src@.len(),
    {
        let ghost s = src@;
        proof {
            lemma_ident_end_bounds(s, i as int);
        }
        let m = att.mark();
        let e1 = read_identifier(src, i, att);
        if e1 == i {
            att.fail(m, Rule::Attribute, i);
            return None;
        }
        proof {
            lemma_skip_ws_bounds(s, e1 as int);
        }
        let c = src.skip_ws(e1);
        if !src.has_char(c, ':') {
            att.fail(m, Rule::Attribute, i);
            return None;
        }
        proof {
            lemma_skip_ws_bounds(s, c + 1);
        }
        let t = src.skip_ws(c + 1);
        proof {
            lemma_ident_end_bounds(s, t as int);
        }
        let e2 = read_atype(src, t, att);
        if e2 == t {
            att.fail(m, Rule::Attribute, i);
            return None;
        }
        proof {
            lemma_skip_ws_bounds(s, e2 as int);
        }
        let k = src.skip_ws(e2);
        let end = if src.has_char(k, ',') {
            k + 1
        } else {
            k
        };
        let a = Attribute { name: src.slice(i, e1), atype: src.slice(t, e2) };
        Some((a, end))
    }

    /// Reads `attribute*` from position `i`: the attributes in order, and
    /// where the enclosing rule goes on.
    pub fn read_all(src: &Source, i: usize, att: &mut Attempts) -> (r: (Vec<Attribute>, usize))
        requires
            i <= src@.len(),
            old(att)@.pos <= src@.len(),
        ensures
            (attributes_view(r.0@), r.1 as int) == attribute_list(src@, i as int),
            final(att)@ == tr_attribute_list(src@, i as int, old(att)@),
            final(att)@.pos <= src@.len(),
    {
        let ghost t0 = att@;
        let mut out: Vec<Attribute> = Vec::new();
        let mut p = i;
        loop
            invariant
                p <= src@.len(),
                attribute_list(src@, i as int).0 == attributes_view(out@) + attribute_list(
                    src@,
                    p as int,
                ).0,
                attribute_list(src@, i as int).1 == attribute_list(src@, p as int).1,
                tr_attribute_list(src@, i as int, t0) == tr_attribute_list(src@, p as int, att@),
                t0 == old(att)@,
                att@.pos <= src@.len(),
            decreases src@.len() - p,
        {
            let ghost tb = att@;
            match Attribute::read_at(src, p, att) {
                Some((a, e)) => {
                    proof {
                        lemma_attribute_at_bounds(src@, p as int);
                        lemma_skip_ws_bounds(src@, e as int);
                    }
                    let ghost before = out@;
                    let ghost rest = attribute_list(src@, skip_ws(src@, e as int)).0;
                    out.push(a);
                    p = src.skip_ws(e);
                    proof {
                        assert(attributes_view(out@) =~= attributes_view(before).push(a@));
                        assert(attributes_view(before) + (seq![a@] + rest) =~= attributes_view(
                            out@,
                        ) + rest);
                    }
                },
                None => {
                    proof {
                        assert(tr_attribute_list(src@, p as int, tb) == att@);
                    }
                    proof {
                        assert(attributes_view(out@) + seq![] =~= attributes_view(out@));
                    }
                    return (out, p);
                },
            }
        }
    }

    /// Reads `"(" ~ attribute* ~ ")"` at position `i`: the attributes of an
    /// entity, or the parameters of a method.
    pub fn read_block(src: &Source, i: usize, att: &mut Attempts) -> (r: Option<(Vec<Attribute>, usize)>)
        requires
            i <= src@.len(),
            old(att)@.pos <= src@.len(),
        ensures
            final(att)@ == tr_attribute_block(src@, i as int, old(att)@),
            final(att)@.pos <= src@.len(),

            r is Some <==> attribute_block_at(src@, i as int) is Some,
            r matches Some((v, e)) ==> attribute_block_at(src@, i as int) == Some(
                (attributes_view(v@), e as int),
            ),
            r matches Some((_, e)) ==> i < e <= src@.len(),
    {
        if !src.has_char(i, '(') {
            return None;
        }
        proof {
            lemma_skip_ws_bounds(src@, i + 1);
            lemma_attribute_list_bounds(src@, skip_ws(src@, i + 1));
        }
        let start = src.skip_ws(i + 1);
        let (attrs, j) = Attribute::read_all(src, start, att);
        if src.has_char(j, ')') {
            Some((attrs, j + 1))
        } else {
            None
        }
    }
}

impl Method {
    /// Reads `parameters` at position `i`: the parameters of a method.
    pub fn read_parameters(src: &Source, i: usize, att: &mut Attempts) -> (r: Option<(Vec<Attribute>, usize)>)
        requires
            i <= src@.len(),
            old(att)@.pos <= src@.len(),
        ensures
            r is Some <==> attribute_block_at(src@, i as int) is Some,
            r matches Some((v, e)) ==> attribute_block_at(src@, i as int) == Some(
                (attributes_view(v@), e as int),
            ),
            r matches Some((_, e)) ==> i < e <= src@.len(),
            final(att)@ == tr_parameters(src@, i as int, old(att)@),
            final(att)@.pos <= src@.len(),
    {
        let m = att.mark();
        let r = Attribute::read_block(src, i, att);
        if r.is_none() {
            att.fail(m, Rule::Parameters, i);
        }
        r
    }

    /// Reads `returns` at position `i`: the type that a method returns.
    pub fn read_returns(src: &Source, i: usize, att: &mut Attempts) -> (r: Option<(String, usize)>)
        requires
            i <= src@.len(),
            old(att)@.pos <= src@.len(),
        ensures
            r is Some <==> returns_at(src@, i as int) is Some,
            r matches Some((t, e)) ==> returns_at(src@, i as int) == Some((t@, e as int)),
            final(att)@ == tr_returns(src@, i as int, old(att)@),
            final(att)@.pos <= src@.len(),
    {
        let m = att.mark();
        if !src.has_word(i, &word_arrow()) {
            att.fail(m, Rule::Returns, i);
            return None;
        }
        proof {
            lemma_ident_end_bounds(src@, i + 4);
        }
        let e = read_atype(src, i + 4, att);
        if e == i + 4 {
            att.fail(m, Rule::Returns, i);
            return None;
        }
        Some((src.slice(i + 4, e), e))
    }

    /// Reads a `method` at position `i`.
    pub fn read_at(src: &Source, i: usize, att: &mut Attempts) -> (r: Option<(Method, usize)>)
        requires
            i <= src@.len(),
            old(att)@.pos <= src@.len(),
        ensures
            r is Some <==> method_at(src@, i as int) is Some,
            r matches Some((m, e)) ==> method_at(src@, i as int) == Some((m@, e as int)),
            final(att)@ == tr_method(src@, i as int, old(att)@),
            final(att)@.pos <= src@.len(),
    {
        let mk = att.mark();
        if !src.has_word(i, &word_method()) {
            att.fail(mk, Rule::Method, i);
            return None;
        }
        let n0 = i + 7;
        proof {
            lemma_ident_end_bounds(src@, n0 as int);
        }
        let n1 = read_identifier(src, n0, att);
        if n1 == n0 {
            att.fail(mk, Rule::Method, i);
            return None;
        }
        match Method::read_parameters(src, n1, att) {
            None => {
                att.fail(mk, Rule::Method, i);
                None
            },
            Some((params, p)) => {
                let name = src.slice(n0, n1);
                match Method::read_returns(src, p, att) {
                    Some((t, e)) => Some((Method { name, parameters: params, returns: t }, e)),
                    None => Some((Method { name, parameters: params, returns: String::new() }, p)),
                }
            },
        }
    }

    /// Reads `method*` from position `i`: the methods in order, and where the
    /// entity goes on.
    pub fn read_all(src: &Source, i: usize, att: &mut Attempts) -> (r: (Vec<Method>, usize))
        requires
            i <= src@.len(),
            old(att)@.pos <= src@.len(),
        ensures
            (methods_view(r.0@), r.1 as int) == method_list(src@, i as int),
            final(att)@ == tr_method_list(src@, i as int, old(att)@),
            final(att)@.pos <= src@.len(),
    {
        let ghost t0 = att@;
        let mut out: Vec<Method> = Vec::new();
        let mut p = i;
        loop
            invariant
                p <= src@.len(),
                method_list(src@, i as int).0 == methods_view(out@) + method_list(
                    src@,
                    p as int,
                ).0,
                method_list(src@, i as int).1 == method_list(src@, p as int).1,
                tr_method_list(src@, i as int, t0) == tr_method_list(src@, p as int, att@),
                t0 == old(att)@,
                att@.pos <= src@.len(),
            decreases src@.len() - p,
        {
            let ghost tb = att@;
            match Method::read_at(src, p, att) {
                Some((m, e)) => {
                    proof {
                        lemma_method_at_bounds(src@, p as int);
                        lemma_skip_ws_bounds(src@, e as int);
                    }
                    let ghost before = out@;
                    let ghost rest = method_list(src@, skip_ws(src@, e as int)).0;
                    let ghost mv = m@;
                    out.push(m);
                    p = src.skip_ws(e);
                    proof {
                        assert(methods_view(out@) =~= methods_view(before).push(mv));
                        assert(methods_view(before) + (seq![mv] + rest) =~= methods_view(out@)
                            + rest);
                    }
                },
                None => {
                    proof {
                        assert(tr_method_list(src@, p as int, tb) == att@);
                    }
                    proof {
                        assert(methods_view(out@) + seq![] =~= methods_view(out@));
                    }
                    return (out, p);
                },
            }
        }
    }
}

impl Entity {
    /// Reads `"{" ~ attributes? ~ methods? ~ "}"` at position `i`: the
    /// attributes and methods of an entity.
    pub fn read_body(src: &Source, i: usize, att: &mut Attempts) -> (r: Option<(Vec<Attribute>, Vec<Method>, usize)>)
        requires
            i <= src@.len(),
            old(att)@.pos <= src@.len(),
        ensures
            final(att)@ == tr_entity_body(src@, i as int, old(att)@),
            final(att)@.pos <= src@.len(),

            r is Some <==> entity_body_at(src@, i as int) is Some,
            r matches Some((a, m, e)) ==> entity_body_at(src@, i as int) == Some(
                (attributes_view(a@), methods_view(m@), e as int),
            ),
    {
        let ghost s = src@;
        if !src.has_char(i, '{') {
            return None;
        }
        proof {
            lemma_skip_ws_bounds(s, i + 1);
        }
        let u = src.skip_ws(i + 1);
        let (attrs, u2) = match Attribute::read_block(src, u, att) {
            Some((a, e)) => {
                proof {
                    lemma_skip_ws_bounds(s, e as int);
                }
                (a, src.skip_ws(e))
            },
            None => {
                let none: Vec<Attribute> = Vec::new();
                proof {
                    assert(attributes_view(none@) =~= Seq::<SpecAttribute>::empty());
                }
                (none, u)
            },
        };
        proof {
            lemma_method_list_bounds(s, u2 as int);
        }
        let (methods, m) = Method::read_all(src, u2, att);
        if src.has_char(m, '}') {
            Some((attrs, methods, m + 1))
        } else {
            None
        }
    }

    /// Reads an `entity` at position `i`.
    pub fn read_at(src: &Source, i: usize, att: &mut Attempts) -> (r: Option<(Entity, usize)>)
        requires
            i <= src@.len(),
            old(att)@.pos <= src@.len(),
        ensures
            r is Some <==> entity_at(src@, i as int) is Some,
            r matches Some((en, e)) ==> entity_at(src@, i as int) == Some((en@, e as int)),
            final(att)@ == tr_entity(src@, i as int, old(att)@),
            final(att)@.pos <= src@.len(),
    {
        let ghost s = src@;
        proof {
            lemma_scopes_bounds(s, i as int, Scope::Private);
        }
        let mk = att.mark();
        let (scope, p) = Scope::read_all(src, i, att);
        if !src.has_word(p, &word_entity()) {
            att.fail(mk, Rule::Entity, i);
            return None;
        }
        proof {
            lemma_skip_ws_bounds(s, p + 6);
        }
        let q = src.skip_ws(p + 6);
        proof {
            lemma_ident_end_bounds(s, q as int);
        }
        let r = read_identifier(src, q, att);
        if r == q {
            att.fail(mk, Rule::Entity, i);
            return None;
        }
        proof {
            lemma_skip_ws_bounds(s, r as int);
        }
        let t = src.skip_ws(r);
        let name = src.slice(q, r);
        match Entity::read_body(src, t, att) {
            Some((attributes, methods, e)) => Some((Entity { name, methods, scope, attributes }, e)),
            None => {
                let attributes: Vec<Attribute> = Vec::new();
                let methods: Vec<Method> = Vec::new();
                proof {
                    assert(attributes_view(attributes@) =~= Seq::<SpecAttribute>::empty());
                    assert(methods_view(methods@) =~= Seq::<SpecMethod>::empty());
                }
                Some((Entity { name, methods, scope, attributes }, r))
            },
        }
    }

    /// Reads `entity*` from position `i`: the entities in order, and where the
    /// block goes on.
    pub fn read_all(src: &Source, i: usize, att: &mut Attempts) -> (r: (Vec<Entity>, usize))
        requires
            i <= src@.len(),
            old(att)@.pos <= src@.len(),
        ensures
            (entities_view(r.0@), r.1 as int) == entity_list(src@, i as int),
            final(att)@ == tr_entity_list(src@, i as int, old(att)@),
            final(att)@.pos <= src@.len(),
    {
        let ghost t0 = att@;
        let mut out: Vec<Entity> = Vec::new();
        let mut p = i;
        loop
            invariant
                p <= src@.len(),
                entity_list(src@, i as int).0 == entities_view(out@) + entity_list(
                    src@,
                    p as int,
                ).0,
                entity_list(src@, i as int).1 == entity_list(src@, p as int).1,
                tr_entity_list(src@, i as int, t0) == tr_entity_list(src@, p as int, att@),
                t0 == old(att)@,
                att@.pos <= src@.len(),
            decreases src@.len() - p,
        {
            let ghost tb = att@;
            match Entity::read_at(src, p, att) {
                Some((en, e)) => {
                    proof {
                        lemma_entity_at_bounds(src@, p as int);
                        lemma_skip_ws_bounds(src@, e as int);
                    }
                    let ghost before = out@;
                    let ghost rest = entity_list(src@, skip_ws(src@, e as int)).0;
                    let ghost ev = en@;
                    out.push(en);
                    p = src.skip_ws(e);
                    proof {
                        assert(entities_view(out@) =~= entities_view(before).push(ev));
                        assert(entities_view(before) + (seq![ev] + rest) =~= entities_view(out@)
                            + rest);
                    }
                },
                None => {
                    proof {
                        assert(tr_entity_list(src@, p as int, tb) == att@);
                    }
                    proof {
                        assert(entities_view(out@) + seq![] =~= entities_view(out@));
                    }
                    return (out, p);
                },
            }
        }
    }

    /// Reads `entities` at position `i`: one block of entities in braces.
    pub fn read_block(src: &Source, i: usize, att: &mut Attempts) -> (r: Option<(Vec<Entity>, usize)>)
        requires
            i <= src@.len(),
            old(att)@.pos <= src@.len(),
        ensures
            final(att)@ == tr_entity_block(src@, i as int, old(att)@),
            final(att)@.pos <= src@.len(),

            r is Some <==> entity_block_at(src@, i as int) is Some,
            r matches Some((v, e)) ==> entity_block_at(src@, i as int) == Some(
                (entities_view(v@), e as int),
            ),
    {
        if !src.has_char(i, '{') {
            return None;
        }
        proof {
            lemma_skip_ws_bounds(src@, i + 1);
            lemma_entity_list_bounds(src@, skip_ws(src@, i + 1));
        }
        let start = src.skip_ws(i + 1);
        let (es, c) = Entity::read_all(src, start, att);
        if src.has_char(c, '}') {
            Some((es, c + 1))
        } else {
            None
        }
    }

    /// Reads `entities*` from position `i`: the entities of all the blocks in
    /// order, and where the package ends.
    pub fn read_blocks(src: &Source, i: usize, att: &mut Attempts) -> (r: (Vec<Entity>, usize))
        requires
            i <= src@.len(),
            old(att)@.pos <= src@.len(),
        ensures
            (entities_view(r.0@), r.1 as int) == entity_blocks(src@, i as int),
            final(att)@ == tr_entity_blocks(src@, i as int, old(att)@),
            final(att)@.pos <= src@.len(),
    {
        let ghost t0 = att@;
        let mut out: Vec<Entity> = Vec::new();
        let mut p = i;
        loop
            invariant
                p <= src@.len(),
                entity_blocks(src@, i as int).0 == entities_view(out@) + entity_blocks(
                    src@,
                    p as int,
                ).0,
                entity_blocks(src@, i as int).1 == entity_blocks(src@, p as int).1,
                tr_entity_blocks(src@, i as int, t0) == tr_entity_blocks(src@, p as int, att@),
                t0 == old(att)@,
                att@.pos <= src@.len(),
            decreases src@.len() - p,
        {
            let ghost tb = att@;
            match Entity::read_block(src, p, att) {
                Some((es, e)) => {
                    proof {
                        lemma_entity_block_at_bounds(src@, p as int);
                        lemma_skip_ws_bounds(src@, e as int);
                    }
                    let ghost before = out@;
                    let ghost rest = entity_blocks(src@, skip_ws(src@, e as int)).0;
                    let ghost block = es@;
                    let mut es = es;
                    out.append(&mut es);
                    p = src.skip_ws(e);
                    proof {
                        assert(entities_view(out@) =~= entities_view(before) + entities_view(
                            block,
                        ));
                        assert(entities_view(before) + (entities_view(block) + rest)
                            =~= entities_view(out@) + rest);
                    }
                },
                None => {
                    proof {
                        assert(tr_entity_blocks(src@, p as int, tb) == att@);
                    }
                    proof {
                        assert(entities_view(out@) + seq![] =~= entities_view(out@));
                    }
                    return (out, p);
                },
            }
        }
    }
}

impl Package {
    /// Reads a `package` at position `i`.
    pub fn read_at(src: &Source, i: usize, att: &mut Attempts) -> (r: Option<(Package, usize)>)
        requires
            i <= src@.len(),
            old(att)@.pos <= src@.len(),
        ensures
            r is Some <==> package_at(src@, i as int) is Some,
            r matches Some((pk, e)) ==> package_at(src@, i as int) == Some((pk@, e as int)),
            final(att)@ == tr_package(src@, i as int, old(att)@),
            final(att)@.pos <= src@.len(),
    {
        let ghost s = src@;
        let mk = att.mark();
        if !src.has_word(i, &word_package()) {
            att.fail(mk, Rule::Package, i);
            return None;
        }
        proof {
            lemma_skip_ws_bounds(s, i + 7);
        }
        let n0 = src.skip_ws(i + 7);
        proof {
            lemma_ident_end_bounds(s, n0 as int);
        }
        let n1 = read_identifier(src, n0, att);
        if n1 == n0 {
            att.fail(mk, Rule::Package, i);
            return None;
        }
        proof {
            lemma_skip_ws_bounds(s, n1 as int);
            lemma_version_list_bounds(s, skip_ws(s, n1 as int), None);
        }
        let v0 = src.skip_ws(n1);
        let (version, v) = Version::read_all(src, v0, None, att);
        proof {
            lemma_entity_blocks_bounds(s, v as int);
        }
        let (entities, e) = Entity::read_blocks(src, v, att);
        let name = src.slice(n0, n1);
        Some((Package { name, version, entities }, e))
    }
}

} // verus!
