//! Whitespace before a 3DL text does not change what the text says.
//!
//! Every rule, read at position `i` of a text `s`, reads the same at
//! position `i + k` of `w + s` where `w` has length `k`: the same value, with
//! the end moved by `k`.
use super::grammar::Scope;
use super::grammar::Version;
use super::rules::{
    attribute_at, attribute_block_at, attribute_list, d3l,
    entity_at, entity_block_at, entity_blocks, entity_body_at, entity_list, kw_entity,
    kw_package, kw_version, lemma_attribute_at_bounds, lemma_attribute_list_bounds,
    lemma_entity_at_bounds, lemma_entity_block_at_bounds, lemma_entity_list_bounds,
    lemma_method_at_bounds, lemma_method_list_bounds, lemma_scopes_bounds,
    lemma_version_at_bounds, lemma_version_list_bounds, method_at, method_list, package_at,
    returns_at, scope_at, scopes, version_at, version_list,
};
use super::source::{
    char_at, digits_end, ident_end, is_ws, lemma_digits_end_bounds, lemma_ident_end_bounds,
    lemma_skip_ws_bounds, skip_ws, word_at,
};
use vstd::prelude::*;

verus! {

pub open spec fn all_ws(w: Seq<char>) -> bool {
    forall|k: int| 0 <= k < w.len() ==> is_ws(#[trigger] w[k])
}

/// A rule's result moved `k` positions on.
pub open spec fn shifted<T>(r: Option<(T, int)>, k: int) -> Option<(T, int)> {
    match r {
        Some((v, e)) => Some((v, e + k)),
        None => None,
    }
}

proof fn lemma_index(w: Seq<char>, s: Seq<char>, i: int)
    requires
        0 <= i < s.len(),
    ensures
        (w + s)[i + w.len()] == s[i],
{
}

proof fn lemma_skip_shift(w: Seq<char>, s: Seq<char>, i: int)
    requires
        0 <= i,
    ensures
        skip_ws(w + s, i + w.len()) == skip_ws(s, i) + w.len(),
    decreases s.len() - i,
{
    if i < s.len() {
        lemma_index(w, s, i);
        if is_ws(s[i]) {
            lemma_skip_shift(w, s, i + 1);
        }
    }
}

proof fn lemma_ident_shift(w: Seq<char>, s: Seq<char>, i: int)
    requires
        0 <= i,
    ensures
        ident_end(w + s, i + w.len()) == ident_end(s, i) + w.len(),
    decreases s.len() - i,
{
    if i < s.len() {
        lemma_index(w, s, i);
        lemma_ident_shift(w, s, i + 1);
    }
}

proof fn lemma_digits_shift(w: Seq<char>, s: Seq<char>, i: int)
    requires
        0 <= i,
    ensures
        digits_end(w + s, i + w.len()) == digits_end(s, i) + w.len(),
    decreases s.len() - i,
{
    if i < s.len() {
        lemma_index(w, s, i);
        lemma_digits_shift(w, s, i + 1);
    }
}

proof fn lemma_char_shift(w: Seq<char>, s: Seq<char>, i: int, c: char)
    requires
        0 <= i,
    ensures
        char_at(w + s, i + w.len(), c) == char_at(s, i, c),
{
    if i < s.len() {
        lemma_index(w, s, i);
    }
}

proof fn lemma_subrange_shift(w: Seq<char>, s: Seq<char>, a: int, b: int)
    requires
        0 <= a <= b <= s.len(),
    ensures
        (w + s).subrange(a + w.len(), b + w.len()) == s.subrange(a, b),
{
    assert((w + s).subrange(a + w.len(), b + w.len()) =~= s.subrange(a, b));
}

proof fn lemma_word_shift(w: Seq<char>, s: Seq<char>, i: int, x: Seq<char>)
    requires
        0 <= i,
    ensures
        word_at(w + s, i + w.len(), x) == word_at(s, i, x),
{
    if i + x.len() <= s.len() {
        lemma_subrange_shift(w, s, i, i + x.len());
    }
}

proof fn lemma_scope_at_shift(w: Seq<char>, s: Seq<char>, i: int)
    requires
        0 <= i,
    ensures
        scope_at(w + s, i + w.len()) == shifted(scope_at(s, i), w.len() as int),
{
    lemma_word_shift(w, s, i, super::rules::kw_public());
    lemma_word_shift(w, s, i, super::rules::kw_private());
}

proof fn lemma_scopes_shift(w: Seq<char>, s: Seq<char>, i: int, c: Scope)
    requires
        0 <= i,
    ensures
        scopes(w + s, i + w.len(), c) == (scopes(s, i, c).0, scopes(s, i, c).1 + w.len()),
    decreases s.len() - i,
{
    lemma_scope_at_shift(w, s, i);
    if let Some((sc, e)) = scope_at(s, i) {
        lemma_skip_ws_bounds(s, e);
        lemma_skip_shift(w, s, e);
        lemma_scopes_shift(w, s, skip_ws(s, e), sc);
    }
}

proof fn lemma_attribute_at_shift(w: Seq<char>, s: Seq<char>, i: int)
    requires
        0 <= i,
    ensures
        attribute_at(w + s, i + w.len()) == shifted(attribute_at(s, i), w.len() as int),
{
    let k = w.len() as int;
    lemma_ident_shift(w, s, i);
    lemma_ident_end_bounds(s, i);
    let e1 = ident_end(s, i);
    if e1 != i {
        lemma_skip_shift(w, s, e1);
        lemma_skip_ws_bounds(s, e1);
        let c = skip_ws(s, e1);
        lemma_char_shift(w, s, c, ':');
        if char_at(s, c, ':') {
            lemma_skip_shift(w, s, c + 1);
            lemma_skip_ws_bounds(s, c + 1);
            let t = skip_ws(s, c + 1);
            lemma_ident_shift(w, s, t);
            lemma_ident_end_bounds(s, t);
            let e2 = ident_end(s, t);
            if e2 != t {
                lemma_skip_shift(w, s, e2);
                lemma_skip_ws_bounds(s, e2);
                lemma_char_shift(w, s, skip_ws(s, e2), ',');
                lemma_subrange_shift(w, s, i, e1);
                lemma_subrange_shift(w, s, t, e2);
            }
        }
    }
}

proof fn lemma_attribute_list_shift(w: Seq<char>, s: Seq<char>, i: int)
    requires
        0 <= i,
    ensures
        attribute_list(w + s, i + w.len()) == (
            attribute_list(s, i).0,
            attribute_list(s, i).1 + w.len(),
        ),
    decreases s.len() - i,
{
    lemma_attribute_at_shift(w, s, i);
    lemma_attribute_at_bounds(s, i);
    if let Some((a, e)) = attribute_at(s, i) {
        lemma_skip_ws_bounds(s, e);
        lemma_skip_shift(w, s, e);
        lemma_attribute_list_shift(w, s, skip_ws(s, e));
    }
}

proof fn lemma_attribute_block_shift(w: Seq<char>, s: Seq<char>, i: int)
    requires
        0 <= i,
    ensures
        attribute_block_at(w + s, i + w.len()) == shifted(
            attribute_block_at(s, i),
            w.len() as int,
        ),
{
    lemma_char_shift(w, s, i, '(');
    if char_at(s, i, '(') {
        lemma_skip_shift(w, s, i + 1);
        lemma_skip_ws_bounds(s, i + 1);
        lemma_attribute_list_shift(w, s, skip_ws(s, i + 1));
        lemma_attribute_list_bounds(s, skip_ws(s, i + 1));
        lemma_char_shift(w, s, attribute_list(s, skip_ws(s, i + 1)).1, ')');
    }
}

proof fn lemma_returns_shift(w: Seq<char>, s: Seq<char>, i: int)
    requires
        0 <= i,
    ensures
        returns_at(w + s, i + w.len()) == shifted(returns_at(s, i), w.len() as int),
{
    lemma_word_shift(w, s, i, super::rules::kw_arrow());
    lemma_ident_shift(w, s, i + 4);
    lemma_ident_end_bounds(s, i + 4);
    if ident_end(s, i + 4) > i + 4 {
        lemma_subrange_shift(w, s, i + 4, ident_end(s, i + 4));
    }
}

proof fn lemma_method_at_shift(w: Seq<char>, s: Seq<char>, i: int)
    requires
        0 <= i,
    ensures
        method_at(w + s, i + w.len()) == shifted(method_at(s, i), w.len() as int),
{
    lemma_word_shift(w, s, i, super::rules::kw_method());
    if word_at(s, i, super::rules::kw_method()) {
        lemma_ident_shift(w, s, i + 7);
        lemma_ident_end_bounds(s, i + 7);
        let n1 = ident_end(s, i + 7);
        if n1 != i + 7 {
            lemma_subrange_shift(w, s, i + 7, n1);
            lemma_attribute_block_shift(w, s, n1);
            if let Some((_, p)) = attribute_block_at(s, n1) {
                lemma_returns_shift(w, s, p);
            }
        }
    }
}

proof fn lemma_method_list_shift(w: Seq<char>, s: Seq<char>, i: int)
    requires
        0 <= i,
    ensures
        method_list(w + s, i + w.len()) == (method_list(s, i).0, method_list(s, i).1 + w.len()),
    decreases s.len() - i,
{
    lemma_method_at_shift(w, s, i);
    lemma_method_at_bounds(s, i);
    if let Some((m, e)) = method_at(s, i) {
        lemma_skip_ws_bounds(s, e);
        lemma_skip_shift(w, s, e);
        lemma_method_list_shift(w, s, skip_ws(s, e));
    }
}

proof fn lemma_entity_body_shift(w: Seq<char>, s: Seq<char>, i: int)
    requires
        0 <= i,
    ensures
        entity_body_at(w + s, i + w.len()) == (match entity_body_at(s, i) {
            Some((a, m, e)) => Some((a, m, e + w.len())),
            None => None,
        }),
{
    lemma_char_shift(w, s, i, '{');
    if char_at(s, i, '{') {
        lemma_skip_shift(w, s, i + 1);
        lemma_skip_ws_bounds(s, i + 1);
        let u = skip_ws(s, i + 1);
        lemma_attribute_block_shift(w, s, u);
        let u2 = match attribute_block_at(s, u) {
            Some((_, e)) => {
                lemma_skip_shift(w, s, e);
                lemma_skip_ws_bounds(s, e);
                skip_ws(s, e)
            },
            None => u,
        };
        lemma_method_list_shift(w, s, u2);
        lemma_method_list_bounds(s, u2);
        lemma_char_shift(w, s, method_list(s, u2).1, '}');
    }
}

proof fn lemma_entity_at_shift(w: Seq<char>, s: Seq<char>, i: int)
    requires
        0 <= i,
    ensures
        entity_at(w + s, i + w.len()) == shifted(entity_at(s, i), w.len() as int),
{
    lemma_scopes_shift(w, s, i, Scope::Private);
    lemma_scopes_bounds(s, i, Scope::Private);
    let p = scopes(s, i, Scope::Private).1;
    lemma_word_shift(w, s, p, kw_entity());
    if word_at(s, p, kw_entity()) {
        lemma_skip_shift(w, s, p + 6);
        lemma_skip_ws_bounds(s, p + 6);
        let q = skip_ws(s, p + 6);
        lemma_ident_shift(w, s, q);
        lemma_ident_end_bounds(s, q);
        let r = ident_end(s, q);
        if r != q {
            lemma_subrange_shift(w, s, q, r);
            lemma_skip_shift(w, s, r);
            lemma_skip_ws_bounds(s, r);
            lemma_entity_body_shift(w, s, skip_ws(s, r));
        }
    }
}

proof fn lemma_entity_list_shift(w: Seq<char>, s: Seq<char>, i: int)
    requires
        0 <= i,
    ensures
        entity_list(w + s, i + w.len()) == (entity_list(s, i).0, entity_list(s, i).1 + w.len()),
    decreases s.len() - i,
{
    lemma_entity_at_shift(w, s, i);
    lemma_entity_at_bounds(s, i);
    if let Some((en, e)) = entity_at(s, i) {
        lemma_skip_ws_bounds(s, e);
        lemma_skip_shift(w, s, e);
        lemma_entity_list_shift(w, s, skip_ws(s, e));
    }
}

proof fn lemma_entity_block_shift(w: Seq<char>, s: Seq<char>, i: int)
    requires
        0 <= i,
    ensures
        entity_block_at(w + s, i + w.len()) == shifted(entity_block_at(s, i), w.len() as int),
{
    lemma_char_shift(w, s, i, '{');
    if char_at(s, i, '{') {
        lemma_skip_shift(w, s, i + 1);
        lemma_skip_ws_bounds(s, i + 1);
        lemma_entity_list_shift(w, s, skip_ws(s, i + 1));
        lemma_entity_list_bounds(s, skip_ws(s, i + 1));
        lemma_char_shift(w, s, entity_list(s, skip_ws(s, i + 1)).1, '}');
    }
}

proof fn lemma_entity_blocks_shift(w: Seq<char>, s: Seq<char>, i: int)
    requires
        0 <= i,
    ensures
        entity_blocks(w + s, i + w.len()) == (
            entity_blocks(s, i).0,
            entity_blocks(s, i).1 + w.len(),
        ),
    decreases s.len() - i,
{
    lemma_entity_block_shift(w, s, i);
    lemma_entity_block_at_bounds(s, i);
    if let Some((es, e)) = entity_block_at(s, i) {
        lemma_skip_ws_bounds(s, e);
        lemma_skip_shift(w, s, e);
        lemma_entity_blocks_shift(w, s, skip_ws(s, e));
    }
}

proof fn lemma_version_at_shift(w: Seq<char>, s: Seq<char>, i: int)
    requires
        0 <= i,
    ensures
        version_at(w + s, i + w.len()) == shifted(version_at(s, i), w.len() as int),
{
    lemma_word_shift(w, s, i, kw_version());
    if word_at(s, i, kw_version()) {
        let a0 = skip_ws(s, i + 7);
        lemma_skip_shift(w, s, i + 7);
        lemma_skip_ws_bounds(s, i + 7);
        let a1 = digits_end(s, a0);
        lemma_digits_shift(w, s, a0);
        lemma_digits_end_bounds(s, a0);
        let d1 = skip_ws(s, a1);
        lemma_skip_shift(w, s, a1);
        lemma_skip_ws_bounds(s, a1);
        lemma_char_shift(w, s, d1, '.');
        let b0 = skip_ws(s, d1 + 1);
        lemma_skip_shift(w, s, d1 + 1);
        lemma_skip_ws_bounds(s, d1 + 1);
        let b1 = digits_end(s, b0);
        lemma_digits_shift(w, s, b0);
        lemma_digits_end_bounds(s, b0);
        let d2 = skip_ws(s, b1);
        lemma_skip_shift(w, s, b1);
        lemma_skip_ws_bounds(s, b1);
        lemma_char_shift(w, s, d2, '.');
        let c0 = skip_ws(s, d2 + 1);
        lemma_skip_shift(w, s, d2 + 1);
        lemma_skip_ws_bounds(s, d2 + 1);
        let c1 = digits_end(s, c0);
        lemma_digits_shift(w, s, c0);
        lemma_digits_end_bounds(s, c0);
        if version_at(s, i) is Some {
            lemma_subrange_shift(w, s, a0, d1);
            lemma_subrange_shift(w, s, d1 + 1, d2);
            lemma_subrange_shift(w, s, d2 + 1, c1);
        }
    }
}

proof fn lemma_version_list_shift(w: Seq<char>, s: Seq<char>, i: int, cur: Option<Version>)
    requires
        0 <= i,
    ensures
        version_list(w + s, i + w.len(), cur) == (
            version_list(s, i, cur).0,
            version_list(s, i, cur).1 + w.len(),
        ),
    decreases s.len() - i,
{
    lemma_version_at_shift(w, s, i);
    lemma_version_at_bounds(s, i);
    if let Some((v, e)) = version_at(s, i) {
        lemma_skip_ws_bounds(s, e);
        lemma_skip_shift(w, s, e);
        lemma_version_list_shift(w, s, skip_ws(s, e), Some(v));
    }
}

proof fn lemma_package_at_shift(w: Seq<char>, s: Seq<char>, i: int)
    requires
        0 <= i,
    ensures
        package_at(w + s, i + w.len()) == shifted(package_at(s, i), w.len() as int),
{
    lemma_word_shift(w, s, i, kw_package());
    if word_at(s, i, kw_package()) {
        lemma_skip_shift(w, s, i + 7);
        lemma_skip_ws_bounds(s, i + 7);
        let n0 = skip_ws(s, i + 7);
        lemma_ident_shift(w, s, n0);
        lemma_ident_end_bounds(s, n0);
        let n1 = ident_end(s, n0);
        if n1 != n0 {
            lemma_subrange_shift(w, s, n0, n1);
            lemma_skip_shift(w, s, n1);
            lemma_skip_ws_bounds(s, n1);
            lemma_version_list_shift(w, s, skip_ws(s, n1), None);
            lemma_version_list_bounds(s, skip_ws(s, n1), None);
            lemma_entity_blocks_shift(w, s, version_list(s, skip_ws(s, n1), None).1);
        }
    }
}

proof fn lemma_skip_prefix(w: Seq<char>, s: Seq<char>, j: int)
    requires
        all_ws(w),
        0 <= j <= w.len(),
    ensures
        skip_ws(w + s, j) == skip_ws(w + s, w.len() as int),
    decreases w.len() - j,
{
    if j < w.len() {
        assert((w + s)[j] == w[j]);
        lemma_skip_prefix(w, s, j + 1);
    }
}

/// Whitespace before a text changes nothing of what the text says: it reads
/// as the same package, or fails as it does.
pub proof fn leading_whitespace_is_ignored(w: Seq<char>, s: Seq<char>)
    requires
        all_ws(w),
    ensures
        d3l(w + s) == d3l(s),
{
    let k = w.len() as int;
    lemma_skip_prefix(w, s, 0);
    lemma_skip_shift(w, s, 0);
    lemma_skip_ws_bounds(s, 0);
    let p = skip_ws(s, 0);
    lemma_package_at_shift(w, s, p);
    if let Some((pk, e)) = package_at(s, p) {
        super::rules::lemma_package_at_bounds(s, p);
        lemma_skip_shift(w, s, e);
    }
}

/// How a position `a` of a text `s` of length `n` corresponds to a position
/// `b` of `s + w` of length `m`: the same position before the end of `s`;
/// the end of `s` stands for any position in `w`.
pub open spec fn tail_rel(s: Seq<char>, w: Seq<char>, a: int, b: int) -> bool {
    (0 <= a < s.len() && b == a) || (a == s.len() && s.len() <= b <= s.len() + w.len())
}

/// Two results of a rule that correspond: both fail, or both read the same
/// value and end at corresponding positions.
pub open spec fn tail_rel_opt<T>(
    s: Seq<char>,
    w: Seq<char>,
    rs: Option<(T, int)>,
    rt: Option<(T, int)>,
) -> bool {
    match (rs, rt) {
        (None, None) => true,
        (Some((v1, e1)), Some((v2, e2))) => v1 == v2 && tail_rel(s, w, e1, e2),
        _ => false,
    }
}

proof fn lemma_tail_index(s: Seq<char>, w: Seq<char>, j: int)
    requires
        all_ws(w),
        s.len() <= j < s.len() + w.len(),
    ensures
        is_ws((s + w)[j]),
{
    assert((s + w)[j] == w[j - s.len()]);
}

proof fn lemma_skip_to_end(s: Seq<char>, w: Seq<char>, b: int)
    requires
        all_ws(w),
        s.len() <= b <= s.len() + w.len(),
    ensures
        skip_ws(s + w, b) == s.len() + w.len(),
    decreases s.len() + w.len() - b,
{
    if b < s.len() + w.len() {
        lemma_tail_index(s, w, b);
        lemma_skip_to_end(s, w, b + 1);
    }
}

proof fn lemma_skip_tail(s: Seq<char>, w: Seq<char>, a: int, b: int)
    requires
        all_ws(w),
        tail_rel(s, w, a, b),
    ensures
        tail_rel(s, w, skip_ws(s, a), skip_ws(s + w, b)),
        skip_ws(s, a) == s.len() ==> skip_ws(s + w, b) == s.len() + w.len(),
        skip_ws(s, a) >= a,
    decreases s.len() - a,
{
    if a < s.len() {
        assert((s + w)[a] == s[a]);
        if is_ws(s[a]) {
            lemma_skip_tail(s, w, a + 1, b + 1);
        }
    } else {
        lemma_skip_to_end(s, w, b);
    }
}

proof fn lemma_ident_tail(s: Seq<char>, w: Seq<char>, a: int, b: int)
    requires
        all_ws(w),
        tail_rel(s, w, a, b),
    ensures
        tail_rel(s, w, ident_end(s, a), ident_end(s + w, b)),
        ident_end(s, a) > a <==> ident_end(s + w, b) > b,
        ident_end(s, a) > a ==> a == b && ident_end(s, a) == ident_end(s + w, b),
    decreases s.len() - a,
{
    if a < s.len() {
        assert((s + w)[a] == s[a]);
        if super::source::is_ident_char(s[a]) {
            lemma_ident_tail(s, w, a + 1, b + 1);
        }
    } else if b < s.len() + w.len() {
        lemma_tail_index(s, w, b);
    }
}

proof fn lemma_digits_tail(s: Seq<char>, w: Seq<char>, a: int, b: int)
    requires
        all_ws(w),
        tail_rel(s, w, a, b),
    ensures
        tail_rel(s, w, digits_end(s, a), digits_end(s + w, b)),
        digits_end(s, a) > a <==> digits_end(s + w, b) > b,
        digits_end(s, a) > a ==> a == b && digits_end(s, a) == digits_end(s + w, b),
    decreases s.len() - a,
{
    if a < s.len() {
        assert((s + w)[a] == s[a]);
        if super::source::is_digit(s[a]) {
            lemma_digits_tail(s, w, a + 1, b + 1);
        }
    } else if b < s.len() + w.len() {
        lemma_tail_index(s, w, b);
    }
}

proof fn lemma_char_tail(s: Seq<char>, w: Seq<char>, a: int, b: int, c: char)
    requires
        all_ws(w),
        !is_ws(c),
        tail_rel(s, w, a, b),
    ensures
        char_at(s + w, b, c) == char_at(s, a, c),
        char_at(s, a, c) ==> a == b && a < s.len(),
{
    if a < s.len() {
        assert((s + w)[a] == s[a]);
    } else if b < s.len() + w.len() {
        lemma_tail_index(s, w, b);
    }
}

/// A word with no whitespace in it.
pub open spec fn solid(x: Seq<char>) -> bool {
    x.len() > 0 && forall|j: int| 0 <= j < x.len() ==> !is_ws(#[trigger] x[j])
}

proof fn lemma_word_tail(s: Seq<char>, w: Seq<char>, a: int, b: int, x: Seq<char>)
    requires
        all_ws(w),
        solid(x),
        tail_rel(s, w, a, b),
    ensures
        word_at(s + w, b, x) == word_at(s, a, x),
        word_at(s, a, x) ==> a == b && a + x.len() <= s.len(),
{
    let t = s + w;
    if a + x.len() <= s.len() {
        assert(t.subrange(a, a + x.len()) =~= s.subrange(a, a + x.len()));
    } else if word_at(t, b, x) {
        // The word would reach into `w`, where only whitespace stands.
        let j = if b < s.len() { s.len() - b } else { 0 };
        assert(t.subrange(b, b + x.len())[j] == x[j]);
        lemma_tail_index(s, w, b + j);
        assert(false);
    }
}

proof fn lemma_solid_words()
    ensures
        solid(kw_package()),
        solid(kw_version()),
        solid(kw_entity()),
        solid(super::rules::kw_public()),
        solid(super::rules::kw_private()),
{
}

proof fn lemma_scope_at_tail(s: Seq<char>, w: Seq<char>, a: int, b: int)
    requires
        all_ws(w),
        tail_rel(s, w, a, b),
    ensures
        tail_rel_opt(s, w, scope_at(s, a), scope_at(s + w, b)),
{
    lemma_solid_words();
    lemma_word_tail(s, w, a, b, super::rules::kw_public());
    lemma_word_tail(s, w, a, b, super::rules::kw_private());
}

proof fn lemma_scopes_tail(s: Seq<char>, w: Seq<char>, a: int, b: int, c: Scope)
    requires
        all_ws(w),
        tail_rel(s, w, a, b),
    ensures
        scopes(s, a, c).0 == scopes(s + w, b, c).0,
        tail_rel(s, w, scopes(s, a, c).1, scopes(s + w, b, c).1),
    decreases s.len() - a,
{
    lemma_scope_at_tail(s, w, a, b);
    if let Some((sc, e)) = scope_at(s, a) {
        let e2 = scope_at(s + w, b).unwrap().1;
        lemma_skip_tail(s, w, e, e2);
        lemma_skip_ws_bounds(s, e);
        lemma_scopes_tail(s, w, skip_ws(s, e), skip_ws(s + w, e2), sc);
    }
}

proof fn lemma_attribute_at_tail(s: Seq<char>, w: Seq<char>, a: int, b: int)
    requires
        all_ws(w),
        tail_rel(s, w, a, b),
    ensures
        tail_rel_opt(s, w, attribute_at(s, a), attribute_at(s + w, b)),
{
    let t = s + w;
    lemma_ident_tail(s, w, a, b);
    lemma_ident_end_bounds(s, a);
    let e1 = ident_end(s, a);
    if e1 > a {
        lemma_skip_tail(s, w, e1, e1);
        let c = skip_ws(s, e1);
        let c2 = skip_ws(t, e1);
        lemma_char_tail(s, w, c, c2, ':');
        if char_at(s, c, ':') {
            lemma_skip_tail(s, w, c + 1, c + 1);
            let u = skip_ws(s, c + 1);
            let u2 = skip_ws(t, c + 1);
            lemma_ident_tail(s, w, u, u2);
            lemma_ident_end_bounds(s, u);
            let e2 = ident_end(s, u);
            if e2 > u {
                lemma_skip_tail(s, w, e2, e2);
                let k = skip_ws(s, e2);
                let k2 = skip_ws(t, e2);
                lemma_char_tail(s, w, k, k2, ',');
                assert(t.subrange(a, e1) =~= s.subrange(a, e1));
                assert(t.subrange(u, e2) =~= s.subrange(u, e2));
            }
        }
    }
}

proof fn lemma_attribute_list_tail(s: Seq<char>, w: Seq<char>, a: int, b: int)
    requires
        all_ws(w),
        tail_rel(s, w, a, b),
    ensures
        attribute_list(s, a).0 == attribute_list(s + w, b).0,
        tail_rel(s, w, attribute_list(s, a).1, attribute_list(s + w, b).1),
    decreases s.len() - a,
{
    lemma_attribute_at_tail(s, w, a, b);
    lemma_attribute_at_bounds(s, a);
    if let Some((_, e)) = attribute_at(s, a) {
        let e2 = attribute_at(s + w, b).unwrap().1;
        lemma_skip_tail(s, w, e, e2);
        lemma_skip_ws_bounds(s, e);
        lemma_attribute_list_tail(s, w, skip_ws(s, e), skip_ws(s + w, e2));
    }
}

proof fn lemma_attribute_block_tail(s: Seq<char>, w: Seq<char>, a: int, b: int)
    requires
        all_ws(w),
        tail_rel(s, w, a, b),
    ensures
        tail_rel_opt(s, w, attribute_block_at(s, a),
            attribute_block_at(s + w, b),
        ),
{
    let t = s + w;
    lemma_char_tail(s, w, a, b, '(');
    if char_at(s, a, '(') {
        lemma_skip_tail(s, w, a + 1, a + 1);
        lemma_attribute_list_tail(s, w, skip_ws(s, a + 1), skip_ws(t, a + 1));
        lemma_char_tail(
            s,
            w,
            attribute_list(s, skip_ws(s, a + 1)).1,
            attribute_list(t, skip_ws(t, a + 1)).1,
            ')',
        );
    }
}

proof fn lemma_returns_tail(s: Seq<char>, w: Seq<char>, a: int, b: int)
    requires
        all_ws(w),
        tail_rel(s, w, a, b),
    ensures
        tail_rel_opt(s, w, returns_at(s, a), returns_at(s + w, b)),
{
    let t = s + w;
    let x = super::rules::kw_arrow();
    if a + 4 <= s.len() {
        assert(t.subrange(a, a + 4) =~= s.subrange(a, a + 4));
        lemma_ident_tail(s, w, a + 4, a + 4);
        lemma_ident_end_bounds(s, a + 4);
        if ident_end(s, a + 4) > a + 4 {
            assert(t.subrange(a + 4, ident_end(s, a + 4)) =~= s.subrange(a + 4, ident_end(s, a + 4)));
        }
    } else if word_at(t, b, x) {
        // The arrow would reach into `w`; its `-` and `>` cannot stand there,
        // so it ends just after the end of `s`, and no type follows it.
        if b + 1 >= s.len() {
            assert(t.subrange(b, b + 4)[1] == x[1]);
            lemma_tail_index(s, w, b + 1);
        } else if b + 2 >= s.len() {
            assert(t.subrange(b, b + 4)[2] == x[2]);
            lemma_tail_index(s, w, b + 2);
        }
        assert(b + 4 >= s.len());
        if b + 4 < s.len() + w.len() {
            lemma_tail_index(s, w, b + 4);
        }
        assert(ident_end(t, b + 4) == b + 4);
    }
}

proof fn lemma_method_at_tail(s: Seq<char>, w: Seq<char>, a: int, b: int)
    requires
        all_ws(w),
        tail_rel(s, w, a, b),
    ensures
        tail_rel_opt(s, w, method_at(s, a), method_at(s + w, b)),
{
    let t = s + w;
    let x = super::rules::kw_method();
    if a + 7 <= s.len() {
        assert(t.subrange(a, a + 7) =~= s.subrange(a, a + 7));
        lemma_ident_tail(s, w, a + 7, a + 7);
        lemma_ident_end_bounds(s, a + 7);
        let n1 = ident_end(s, a + 7);
        if n1 > a + 7 {
            assert(t.subrange(a + 7, n1) =~= s.subrange(a + 7, n1));
            lemma_attribute_block_tail(s, w, n1, n1);
            if let Some((_, p)) = attribute_block_at(s, n1) {
                lemma_returns_tail(s, w, p, attribute_block_at(t, n1).unwrap().1);
            }
        }
    } else if word_at(t, b, x) {
        // `method` followed by whitespace of `w`: no name can follow.
        if b + 6 <= s.len() {
            assert(b + 7 >= s.len());
        } else {
            let j = if b < s.len() { s.len() - b } else { 0 };
            assert(t.subrange(b, b + 7)[j] == x[j]);
            lemma_tail_index(s, w, b + j);
        }
        if b + 7 < s.len() + w.len() {
            lemma_tail_index(s, w, b + 7);
        }
        assert(ident_end(t, b + 7) == b + 7);
    }
}

proof fn lemma_method_list_tail(s: Seq<char>, w: Seq<char>, a: int, b: int)
    requires
        all_ws(w),
        tail_rel(s, w, a, b),
    ensures
        method_list(s, a).0 == method_list(s + w, b).0,
        tail_rel(s, w, method_list(s, a).1, method_list(s + w, b).1),
    decreases s.len() - a,
{
    lemma_method_at_tail(s, w, a, b);
    lemma_method_at_bounds(s, a);
    if let Some((_, e)) = method_at(s, a) {
        let e2 = method_at(s + w, b).unwrap().1;
        lemma_skip_tail(s, w, e, e2);
        lemma_skip_ws_bounds(s, e);
        lemma_method_list_tail(s, w, skip_ws(s, e), skip_ws(s + w, e2));
    }
}

proof fn lemma_entity_body_tail(s: Seq<char>, w: Seq<char>, a: int, b: int)
    requires
        all_ws(w),
        tail_rel(s, w, a, b),
    ensures
        entity_body_at(s, a) is Some <==> entity_body_at(s + w, b) is Some,
        entity_body_at(s, a) matches Some((x, y, e)) ==> entity_body_at(s + w, b) matches Some(
            (x2, y2, e2),
        ) && x == x2 && y == y2 && tail_rel(s, w, e, e2),
{
    let t = s + w;
    lemma_char_tail(s, w, a, b, '{');
    if char_at(s, a, '{') {
        lemma_skip_tail(s, w, a + 1, a + 1);
        let u = skip_ws(s, a + 1);
        let ut = skip_ws(t, a + 1);
        lemma_attribute_block_tail(s, w, u, ut);
        let (u2, u2t) = match attribute_block_at(s, u) {
            Some((_, e)) => {
                let et = attribute_block_at(t, ut).unwrap().1;
                lemma_skip_tail(s, w, e, et);
                (skip_ws(s, e), skip_ws(t, et))
            },
            None => (u, ut),
        };
        lemma_method_list_tail(s, w, u2, u2t);
        lemma_char_tail(s, w, method_list(s, u2).1, method_list(t, u2t).1, '}');
    }
}

proof fn lemma_entity_at_tail(s: Seq<char>, w: Seq<char>, a: int, b: int)
    requires
        all_ws(w),
        tail_rel(s, w, a, b),
    ensures
        tail_rel_opt(s, w, entity_at(s, a), entity_at(s + w, b)),
{
    let t = s + w;
    lemma_solid_words();
    lemma_scopes_tail(s, w, a, b, Scope::Private);
    let p = scopes(s, a, Scope::Private).1;
    let pt = scopes(t, b, Scope::Private).1;
    lemma_word_tail(s, w, p, pt, kw_entity());
    if word_at(s, p, kw_entity()) {
        lemma_skip_tail(s, w, p + 6, p + 6);
        let q = skip_ws(s, p + 6);
        let qt = skip_ws(t, p + 6);
        lemma_ident_tail(s, w, q, qt);
        lemma_ident_end_bounds(s, q);
        let r = ident_end(s, q);
        if r > q {
            assert(t.subrange(q, r) =~= s.subrange(q, r));
            lemma_skip_tail(s, w, r, r);
            lemma_entity_body_tail(s, w, skip_ws(s, r), skip_ws(t, r));
        }
    }
}

proof fn lemma_entity_list_tail(s: Seq<char>, w: Seq<char>, a: int, b: int)
    requires
        all_ws(w),
        tail_rel(s, w, a, b),
    ensures
        entity_list(s, a).0 == entity_list(s + w, b).0,
        tail_rel(s, w, entity_list(s, a).1, entity_list(s + w, b).1),
    decreases s.len() - a,
{
    lemma_entity_at_tail(s, w, a, b);
    lemma_entity_at_bounds(s, a);
    if let Some((_, e)) = entity_at(s, a) {
        let e2 = entity_at(s + w, b).unwrap().1;
        lemma_skip_tail(s, w, e, e2);
        lemma_skip_ws_bounds(s, e);
        lemma_entity_list_tail(s, w, skip_ws(s, e), skip_ws(s + w, e2));
    }
}

proof fn lemma_entity_block_tail(s: Seq<char>, w: Seq<char>, a: int, b: int)
    requires
        all_ws(w),
        tail_rel(s, w, a, b),
    ensures
        tail_rel_opt(s, w, entity_block_at(s, a), entity_block_at(s + w, b)),
{
    let t = s + w;
    lemma_char_tail(s, w, a, b, '{');
    if char_at(s, a, '{') {
        lemma_skip_tail(s, w, a + 1, a + 1);
        lemma_entity_list_tail(s, w, skip_ws(s, a + 1), skip_ws(t, a + 1));
        lemma_char_tail(
            s,
            w,
            entity_list(s, skip_ws(s, a + 1)).1,
            entity_list(t, skip_ws(t, a + 1)).1,
            '}',
        );
    }
}

proof fn lemma_entity_blocks_tail(s: Seq<char>, w: Seq<char>, a: int, b: int)
    requires
        all_ws(w),
        tail_rel(s, w, a, b),
    ensures
        entity_blocks(s, a).0 == entity_blocks(s + w, b).0,
        tail_rel(s, w, entity_blocks(s, a).1, entity_blocks(s + w, b).1),
    decreases s.len() - a,
{
    lemma_entity_block_tail(s, w, a, b);
    lemma_entity_block_at_bounds(s, a);
    if let Some((_, e)) = entity_block_at(s, a) {
        let e2 = entity_block_at(s + w, b).unwrap().1;
        lemma_skip_tail(s, w, e, e2);
        lemma_skip_ws_bounds(s, e);
        lemma_entity_blocks_tail(s, w, skip_ws(s, e), skip_ws(s + w, e2));
    }
}

proof fn lemma_version_at_tail(s: Seq<char>, w: Seq<char>, a: int, b: int)
    requires
        all_ws(w),
        tail_rel(s, w, a, b),
    ensures
        tail_rel_opt(s, w, version_at(s, a), version_at(s + w, b)),
{
    let t = s + w;
    lemma_solid_words();
    lemma_word_tail(s, w, a, b, kw_version());
    if word_at(s, a, kw_version()) {
        lemma_skip_tail(s, w, a + 7, a + 7);
        let a0 = skip_ws(s, a + 7);
        let a0t = skip_ws(t, a + 7);
        lemma_digits_tail(s, w, a0, a0t);
        lemma_digits_end_bounds(s, a0);
        let a1 = digits_end(s, a0);
        if a1 > a0 {
            lemma_skip_tail(s, w, a1, a1);
            let d1 = skip_ws(s, a1);
            lemma_char_tail(s, w, d1, skip_ws(t, a1), '.');
            if char_at(s, d1, '.') {
                lemma_skip_tail(s, w, d1 + 1, d1 + 1);
                let b0 = skip_ws(s, d1 + 1);
                lemma_digits_tail(s, w, b0, skip_ws(t, d1 + 1));
                lemma_digits_end_bounds(s, b0);
                let b1 = digits_end(s, b0);
                if b1 > b0 {
                    lemma_skip_tail(s, w, b1, b1);
                    let d2 = skip_ws(s, b1);
                    lemma_char_tail(s, w, d2, skip_ws(t, b1), '.');
                    if char_at(s, d2, '.') {
                        lemma_skip_tail(s, w, d2 + 1, d2 + 1);
                        let c0 = skip_ws(s, d2 + 1);
                        lemma_digits_tail(s, w, c0, skip_ws(t, d2 + 1));
                        lemma_digits_end_bounds(s, c0);
                        let c1 = digits_end(s, c0);
                        if c1 > c0 {
                            assert(t.subrange(a0, d1) =~= s.subrange(a0, d1));
                            assert(t.subrange(d1 + 1, d2) =~= s.subrange(d1 + 1, d2));
                            assert(t.subrange(d2 + 1, c1) =~= s.subrange(d2 + 1, c1));
                        }
                    }
                }
            }
        }
    }
}

proof fn lemma_version_list_tail(
    s: Seq<char>,
    w: Seq<char>,
    a: int,
    b: int,
    cur: Option<Version>,
)
    requires
        all_ws(w),
        tail_rel(s, w, a, b),
    ensures
        version_list(s, a, cur).0 == version_list(s + w, b, cur).0,
        tail_rel(s, w, version_list(s, a, cur).1,
            version_list(s + w, b, cur).1,
        ),
    decreases s.len() - a,
{
    lemma_version_at_tail(s, w, a, b);
    lemma_version_at_bounds(s, a);
    if let Some((v, e)) = version_at(s, a) {
        let e2 = version_at(s + w, b).unwrap().1;
        lemma_skip_tail(s, w, e, e2);
        lemma_skip_ws_bounds(s, e);
        lemma_version_list_tail(s, w, skip_ws(s, e), skip_ws(s + w, e2), Some(v));
    }
}

proof fn lemma_package_at_tail(s: Seq<char>, w: Seq<char>, a: int, b: int)
    requires
        all_ws(w),
        tail_rel(s, w, a, b),
    ensures
        tail_rel_opt(s, w, package_at(s, a), package_at(s + w, b)),
{
    let t = s + w;
    lemma_solid_words();
    lemma_word_tail(s, w, a, b, kw_package());
    if word_at(s, a, kw_package()) {
        lemma_skip_tail(s, w, a + 7, a + 7);
        let n0 = skip_ws(s, a + 7);
        let n0t = skip_ws(t, a + 7);
        lemma_ident_tail(s, w, n0, n0t);
        lemma_ident_end_bounds(s, n0);
        let n1 = ident_end(s, n0);
        if n1 > n0 {
            assert(t.subrange(n0, n1) =~= s.subrange(n0, n1));
            lemma_skip_tail(s, w, n1, n1);
            lemma_version_list_tail(s, w, skip_ws(s, n1), skip_ws(t, n1), None);
            lemma_entity_blocks_tail(
                s,
                w,
                version_list(s, skip_ws(s, n1), None).1,
                version_list(t, skip_ws(t, n1), None).1,
            );
        }
    }
}

/// Whitespace after a text changes nothing of what the text says: it reads
/// as the same package, or fails as it does.
pub proof fn trailing_whitespace_is_ignored(s: Seq<char>, w: Seq<char>)
    requires
        all_ws(w),
    ensures
        d3l(s + w) == d3l(s),
{
    let t = s + w;
    lemma_skip_tail(s, w, 0, 0);
    lemma_skip_ws_bounds(s, 0);
    let p = skip_ws(s, 0);
    let pt = skip_ws(t, 0);
    lemma_package_at_tail(s, w, p, pt);
    if let Some((_, e)) = package_at(s, p) {
        super::rules::lemma_package_at_bounds(s, p);
        lemma_skip_tail(s, w, e, package_at(t, pt).unwrap().1);
    }
}

} // verus!
