//! What the grammar reads from texts of a given shape: a version clause,
//! the scopes and name of an entity, and a method's name, parameters and
//! return type.
use super::grammar::{Scope, Version};
use super::rules::{
    SpecAttribute, all_digits, decimal_value, entity_at, kw_entity, kw_method, kw_package,
    kw_private, kw_public, kw_version, method_at, package_at, scopes, version_at, version_list,
};
use super::source::{digits_end, ident_end, is_digit, is_ident_char, is_ws, skip_ws};
use vstd::prelude::*;

verus! {

proof fn lemma_no_ws(s: Seq<char>, i: int)
    requires
        0 <= i <= s.len(),
        i == s.len() || !is_ws(s[i]),
    ensures
        skip_ws(s, i) == i,
{
}

proof fn lemma_one_ws(s: Seq<char>, i: int)
    requires
        0 <= i < s.len(),
        is_ws(s[i]),
        i + 1 == s.len() || !is_ws(s[i + 1]),
    ensures
        skip_ws(s, i) == i + 1,
{
    lemma_no_ws(s, i + 1);
}

proof fn lemma_ident_run(s: Seq<char>, i: int, n: int)
    requires
        0 <= i,
        0 <= n,
        i + n <= s.len(),
        forall|j: int| 0 <= j < n ==> is_ident_char(#[trigger] s[i + j]),
        i + n == s.len() || !is_ident_char(s[i + n]),
    ensures
        ident_end(s, i) == i + n,
    decreases n,
{
    if n > 0 {
        assert(is_ident_char(s[i + 0]));
        assert forall|j: int| 0 <= j < n - 1 implies is_ident_char(#[trigger] s[(i + 1) + j]) by {
            assert(is_ident_char(s[i + (j + 1)]));
        }
        lemma_ident_run(s, i + 1, n - 1);
    }
}

proof fn lemma_digit_run(s: Seq<char>, i: int, n: int)
    requires
        0 <= i,
        0 <= n,
        i + n <= s.len(),
        forall|j: int| 0 <= j < n ==> is_digit(#[trigger] s[i + j]),
        i + n == s.len() || !is_digit(s[i + n]),
    ensures
        digits_end(s, i) == i + n,
    decreases n,
{
    if n > 0 {
        assert(is_digit(s[i + 0]));
        assert forall|j: int| 0 <= j < n - 1 implies is_digit(#[trigger] s[(i + 1) + j]) by {
            assert(is_digit(s[i + (j + 1)]));
        }
        lemma_digit_run(s, i + 1, n - 1);
    }
}

/// A run of digits read as a decimal number, or 0 where it is over 255.
pub open spec fn u8_or_zero(d: Seq<char>) -> u8 {
    if decimal_value(d) <= 255 {
        decimal_value(d) as u8
    } else {
        0
    }
}

/// The text `version a.b.c`.
pub open spec fn version_text(a: Seq<char>, b: Seq<char>, c: Seq<char>) -> Seq<char> {
    kw_version() + seq![' '] + a + seq!['.'] + b + seq!['.'] + c
}

/// A version clause `version a.b.c`, with digits `a`, `b` and `c` and no
/// whitespace around the dots, reads as the version `u(a).u(b).u(c)`, where
/// a part over 255 reads as 0; the clause ends after `c` where no digit
/// follows.
pub proof fn version_clause_reads_its_parts(
    pre: Seq<char>,
    a: Seq<char>,
    b: Seq<char>,
    c: Seq<char>,
    post: Seq<char>,
)
    requires
        a.len() > 0 && all_digits(a),
        b.len() > 0 && all_digits(b),
        c.len() > 0 && all_digits(c),
        post.len() == 0 || !is_digit(post[0]),
    ensures
        version_at(pre + version_text(a, b, c) + post, pre.len() as int) == Some(
            (
                Version { major: u8_or_zero(a), minor: u8_or_zero(b), patch: u8_or_zero(c) },
                (pre.len() + version_text(a, b, c).len()) as int,
            ),
        ),
{
    let v = version_text(a, b, c);
    let s = pre + v + post;
    let i = pre.len() as int;
    let a0 = i + 8;
    let a1 = a0 + a.len();
    let b0 = a1 + 1;
    let b1 = b0 + b.len();
    let c0 = b1 + 1;
    let c1 = c0 + c.len();
    assert(c1 == i + v.len());
    assert(s.subrange(i, i + 7) =~= kw_version());
    assert(s[i + 7] == ' ');
    assert(s.subrange(a0, a1) =~= a);
    assert(s.subrange(b0, b1) =~= b);
    assert(s.subrange(c0, c1) =~= c);
    assert(s[a1] == '.');
    assert(s[b1] == '.');
    assert forall|j: int| 0 <= j < a.len() implies is_digit(#[trigger] s[a0 + j]) by {
        assert(s[a0 + j] == s.subrange(a0, a1)[j]);
    }
    assert forall|j: int| 0 <= j < b.len() implies is_digit(#[trigger] s[b0 + j]) by {
        assert(s[b0 + j] == s.subrange(b0, b1)[j]);
    }
    assert forall|j: int| 0 <= j < c.len() implies is_digit(#[trigger] s[c0 + j]) by {
        assert(s[c0 + j] == s.subrange(c0, c1)[j]);
    }
    if post.len() > 0 {
        assert(s[c1] == post[0]);
    }
    assert(is_digit(s[a0 + 0]));
    lemma_one_ws(s, i + 7);
    lemma_digit_run(s, a0, a.len() as int);
    lemma_no_ws(s, a1);
    assert(is_digit(s[b0 + 0]));
    lemma_no_ws(s, b0);
    lemma_digit_run(s, b0, b.len() as int);
    lemma_no_ws(s, b1);
    assert(is_digit(s[c0 + 0]));
    lemma_no_ws(s, c0);
    lemma_digit_run(s, c0, c.len() as int);
}

/// An identifier: one or more identifier characters.
pub open spec fn ident_text(t: Seq<char>) -> bool {
    t.len() > 0 && forall|k: int| 0 <= k < t.len() ==> is_ident_char(#[trigger] t[k])
}

/// The word that names a scope.
pub open spec fn scope_word(sc: Scope) -> Seq<char> {
    match sc {
        Scope::Public => kw_public(),
        Scope::Private => kw_private(),
    }
}

/// The scopes `scs`, each as its word followed by a space.
pub open spec fn scope_words(scs: Seq<Scope>) -> Seq<char>
    decreases scs.len(),
{
    if scs.len() == 0 {
        seq![]
    } else {
        scope_word(scs[0]) + seq![' '] + scope_words(scs.drop_first())
    }
}

/// The last of the scopes named, or private where none is.
pub open spec fn last_scope(scs: Seq<Scope>) -> Scope {
    if scs.len() == 0 {
        Scope::Private
    } else {
        scs.last()
    }
}

proof fn lemma_scopes_walk(s: Seq<char>, i: int, scs: Seq<Scope>, cur: Scope)
    requires
        0 <= i,
        i + scope_words(scs).len() < s.len(),
        s.subrange(i, i + scope_words(scs).len()) == scope_words(scs),
        s[i + scope_words(scs).len()] == 'e',
    ensures
        scopes(s, i, cur) == (
            if scs.len() == 0 {
                cur
            } else {
                scs.last()
            },
            i + scope_words(scs).len(),
        ),
    decreases scs.len(),
{
    let w = scope_words(scs);
    if scs.len() == 0 {
        assert(!super::source::word_at(s, i, kw_public())) by {
            if super::source::word_at(s, i, kw_public()) {
                assert(s.subrange(i, i + 6)[0] == s[i]);
            }
        }
        assert(!super::source::word_at(s, i, kw_private())) by {
            if super::source::word_at(s, i, kw_private()) {
                assert(s.subrange(i, i + 7)[0] == s[i]);
            }
        }
    } else {
        let sc = scs[0];
        let x = scope_word(sc);
        let rest = scs.drop_first();
        let wr = scope_words(rest);
        assert(w == x + seq![' '] + wr);
        let e = i + x.len();
        assert(s.subrange(i, e) =~= w.subrange(0, x.len() as int));
        assert(w.subrange(0, x.len() as int) =~= x);
        if sc == Scope::Private {
            assert(!super::source::word_at(s, i, kw_public())) by {
                if super::source::word_at(s, i, kw_public()) {
                    assert(s.subrange(i, i + 6)[1] == s[i + 1]);
                    assert(s[i + 1] == s.subrange(i, e)[1]);
                }
            }
        }
        assert(s[e] == w[x.len() as int]);
        let n = e + 1;
        assert(s.subrange(n, n + wr.len()) =~= wr) by {
            assert forall|j: int| 0 <= j < wr.len() implies s.subrange(n, n + wr.len())[j]
                == wr[j] by {
                assert(s[n + j] == s.subrange(i, i + w.len())[x.len() + 1 + j]);
            }
        }
        assert(s[n + wr.len()] == 'e');
        if wr.len() > 0 {
            assert(wr[0] == scope_word(rest[0])[0]);
            assert(s[n] == s.subrange(n, n + wr.len())[0]);
        }
        assert(!is_ws(s[n]));
        lemma_one_ws(s, e);
        lemma_scopes_walk(s, n, rest, sc);
        if rest.len() > 0 {
            assert(rest.last() == scs.last());
        }
    }
}

/// The text `sc_1 ... sc_j entity N`.
pub open spec fn entity_text(scs: Seq<Scope>, name: Seq<char>) -> Seq<char> {
    scope_words(scs) + kw_entity() + seq![' '] + name
}

/// An entity written `sc_1 ... sc_j entity N`, each `sc_k` `public` or
/// `private`, is named `N` and has the last scope written, or is private
/// where none is; whatever body follows it.
pub proof fn entity_reads_its_name_and_last_scope(
    pre: Seq<char>,
    scs: Seq<Scope>,
    name: Seq<char>,
    post: Seq<char>,
)
    requires
        ident_text(name),
        post.len() == 0 || !is_ident_char(post[0]),
    ensures
        entity_at(pre + entity_text(scs, name) + post, pre.len() as int) matches Some((en, _))
            && en.name == name && en.scope == last_scope(scs),
{
    let w = scope_words(scs);
    let s = pre + entity_text(scs, name) + post;
    let i = pre.len() as int;
    let p = i + w.len();
    let q = p + 7;
    let r = q + name.len();
    assert(s.subrange(i, p) =~= w);
    assert(s.subrange(p, p + 6) =~= kw_entity());
    assert(s[p] == 'e');
    lemma_scopes_walk(s, i, scs, Scope::Private);
    assert(s[p + 6] == ' ');
    assert(s.subrange(q, r) =~= name);
    assert forall|j: int| 0 <= j < name.len() implies is_ident_char(#[trigger] s[q + j]) by {
        assert(s[q + j] == s.subrange(q, r)[j]);
    }
    if post.len() > 0 {
        assert(s[r] == post[0]);
    }
    assert(is_ident_char(s[q + 0]));
    lemma_one_ws(s, p + 6);
    lemma_ident_run(s, q, name.len() as int);
}

/// A parameter written `n: t`.
pub open spec fn param_text(a: SpecAttribute) -> Seq<char> {
    a.name + seq![':', ' '] + a.atype
}

/// Parameters `n_1: t_1, ..., n_k: t_k`.
pub open spec fn params_text(ps: Seq<SpecAttribute>) -> Seq<char>
    decreases ps.len(),
{
    if ps.len() == 0 {
        seq![]
    } else if ps.len() == 1 {
        param_text(ps[0])
    } else {
        param_text(ps[0]) + seq![',', ' '] + params_text(ps.drop_first())
    }
}

pub open spec fn params_ok(ps: Seq<SpecAttribute>) -> bool {
    forall|k: int| 0 <= k < ps.len() ==> ident_text(#[trigger] ps[k].name) && ident_text(
        ps[k].atype,
    )
}

proof fn lemma_params_walk(s: Seq<char>, i: int, ps: Seq<SpecAttribute>)
    requires
        0 <= i,
        params_ok(ps),
        i + params_text(ps).len() < s.len(),
        s.subrange(i, i + params_text(ps).len()) == params_text(ps),
        s[i + params_text(ps).len()] == ')',
    ensures
        super::rules::attribute_list(s, i) == (ps, i + params_text(ps).len()),
    decreases ps.len(),
{
    let pt = params_text(ps);
    if ps.len() == 0 {
        assert(ident_end(s, i) == i);
        assert(ps =~= Seq::<SpecAttribute>::empty());
    } else {
        let a = ps[0];
        let nm = a.name;
        let ty = a.atype;
        assert(ident_text(nm) && ident_text(ty));
        let e1 = i + nm.len();
        let t = e1 + 2;
        let e2 = t + ty.len();
        let it = param_text(a);
        assert(pt.subrange(0, it.len() as int) =~= it);
        assert forall|j: int| 0 <= j < it.len() implies s[i + j] == #[trigger] it[j] by {
            assert(s[i + j] == s.subrange(i, i + pt.len())[j]);
            assert(pt[j] == pt.subrange(0, it.len() as int)[j]);
        }
        assert forall|j: int| 0 <= j < nm.len() implies is_ident_char(#[trigger] s[i + j]) by {
            assert(s[i + j] == it[j]);
        }
        assert(s[e1] == it[nm.len() as int]);
        assert(s[e1 + 1] == it[nm.len() + 1int]);
        assert forall|j: int| 0 <= j < ty.len() implies is_ident_char(#[trigger] s[t + j]) by {
            assert(s[t + j] == it[nm.len() + 2 + j]);
        }
        assert(is_ident_char(s[i + 0]));
        assert(is_ident_char(s[t + 0]));
        if ps.len() > 1 {
            assert(s[e2] == pt[it.len() as int]) by {
                assert(s[e2] == s.subrange(i, i + pt.len())[it.len() as int]);
            }
        }
        if ps.len() == 1 {
            assert(pt == it);
            assert(s[e2] == ')');
        } else {
            assert(pt[it.len() as int] == ',');
        }
        lemma_ident_run(s, i, nm.len() as int);
        lemma_no_ws(s, e1);
        lemma_one_ws(s, e1 + 1);
        lemma_ident_run(s, t, ty.len() as int);
        lemma_no_ws(s, e2);
        if ps.len() == 1 {
            assert(super::rules::attribute_at(s, i) == Some((a, e2))) by {
                assert forall|j: int| 0 <= j < nm.len() implies s.subrange(i, e1)[j] == nm[j] by {
                    assert(s[i + j] == it[j]);
                }
                assert forall|j: int| 0 <= j < ty.len() implies s.subrange(t, e2)[j] == ty[j] by {
                    assert(s[t + j] == it[nm.len() + 2 + j]);
                }
                assert(s.subrange(i, e1) =~= nm);
                assert(s.subrange(t, e2) =~= ty);
            }
            lemma_no_ws(s, e2);
            assert(ident_end(s, e2) == e2);
            assert(super::rules::attribute_at(s, e2) is None);
            assert(super::rules::attribute_list(s, e2) == (Seq::<SpecAttribute>::empty(), e2));
            assert(e2 == i + pt.len());
            assert(ps =~= seq![a]);
            assert(seq![a] + Seq::<SpecAttribute>::empty() =~= seq![a]);
        } else {
            let rest = ps.drop_first();
            let pr = params_text(rest);
            let n = e2 + 2;
            assert(pt == it + seq![',', ' '] + pr);
            assert(s[e2 + 1] == pt[it.len() + 1int]) by {
                assert(s[e2 + 1] == s.subrange(i, i + pt.len())[it.len() + 1int]);
            }
            assert(s.subrange(n, n + pr.len()) =~= pr) by {
                assert forall|j: int| 0 <= j < pr.len() implies s.subrange(n, n + pr.len())[j]
                    == pr[j] by {
                    assert(s[n + j] == s.subrange(i, i + pt.len())[it.len() + 2 + j]);
                }
            }
            assert(params_ok(rest)) by {
                assert forall|k: int| 0 <= k < rest.len() implies ident_text(
                    #[trigger] rest[k].name,
                ) && ident_text(rest[k].atype) by {
                    assert(rest[k] == ps[k + 1]);
                }
            }
            assert(rest[0] == ps[1]);
            assert(pr.len() > 0 && pr[0] == rest[0].name[0]) by {
                if rest.len() == 1 {
                    assert(pr == param_text(rest[0]));
                } else {
                    assert(pr == param_text(rest[0]) + seq![',', ' '] + params_text(
                        rest.drop_first(),
                    ));
                }
            }
            assert(s[n] == pr[0]) by {
                assert(s[n] == s.subrange(n, n + pr.len())[0]);
            }
            assert(is_ident_char(rest[0].name[0]));
            lemma_one_ws(s, e2 + 1);
            assert(super::rules::attribute_at(s, i) == Some((a, e2 + 1))) by {
                assert forall|j: int| 0 <= j < nm.len() implies s.subrange(i, e1)[j] == nm[j] by {
                    assert(s[i + j] == it[j]);
                }
                assert forall|j: int| 0 <= j < ty.len() implies s.subrange(t, e2)[j] == ty[j] by {
                    assert(s[t + j] == it[nm.len() + 2 + j]);
                }
                assert(s.subrange(i, e1) =~= nm);
                assert(s.subrange(t, e2) =~= ty);
            }
            lemma_params_walk(s, n, rest);
            assert(skip_ws(s, e2 + 1) == n);
            assert(n + pr.len() == i + pt.len());
            assert(seq![a] + rest =~= ps);
        }
    }
}

/// ` -> T` where the method returns `T`, nothing where `ret` is empty.
pub open spec fn returns_text(ret: Seq<char>) -> Seq<char> {
    if ret.len() == 0 {
        seq![]
    } else {
        seq![' ', '-', '>', ' '] + ret
    }
}

/// The text `method N(n_1: t_1, ..., n_k: t_k)`, followed by ` -> T` where
/// `ret` is `T`.
pub open spec fn method_text(name: Seq<char>, ps: Seq<SpecAttribute>, ret: Seq<char>) -> Seq<
    char,
> {
    kw_method() + name + seq!['('] + params_text(ps) + seq![')'] + returns_text(ret)
}

#[verifier::rlimit(60)]
#[verifier::spinoff_prover]
/// A method written `method N(n_1: t_1, ..., n_k: t_k)`, optionally
/// followed by ` -> T`, is named `N`, has the parameters `n_i: t_i` in
/// order, and returns `T` (empty where it names no type).
pub proof fn method_reads_its_signature(
    pre: Seq<char>,
    name: Seq<char>,
    ps: Seq<SpecAttribute>,
    ret: Seq<char>,
    post: Seq<char>,
)
    requires
        ident_text(name),
        params_ok(ps),
        ret.len() == 0 || ident_text(ret),
        post.len() == 0 || (!is_ident_char(post[0]) && (ret.len() == 0 ==> post[0] != ' ')),
    ensures
        method_at(pre + method_text(name, ps, ret) + post, pre.len() as int) matches Some(
            (m, _),
        ) && m.name == name && m.parameters == ps && m.returns == ret,
{
    let mt = method_text(name, ps, ret);
    let s = pre + mt + post;
    let i = pre.len() as int;
    let n0 = i + 7;
    let n1 = n0 + name.len();
    let pt = params_text(ps);
    let o = n1 + 1;
    let close = o + pt.len();
    let after = close + 1;
    assert(s.subrange(i, i + mt.len()) =~= mt);
    assert(s.subrange(i, i + 7) =~= kw_method());
    assert forall|j: int| 0 <= j < name.len() implies is_ident_char(#[trigger] s[n0 + j]) by {
        assert(s[n0 + j] == mt[7 + j]);
    }
    assert(s[n1] == '(');
    assert(s.subrange(o, close) =~= pt);
    assert(s[close] == ')');
    lemma_ident_run(s, n0, name.len() as int);
    if ps.len() > 0 {
        assert(ident_text(ps[0].name));
        assert(pt[0] == ps[0].name[0]) by {
            if ps.len() == 1 {
                assert(pt == param_text(ps[0]));
            } else {
                assert(pt == param_text(ps[0]) + seq![',', ' '] + params_text(ps.drop_first()));
            }
        }
        assert(s[o] == s.subrange(o, close)[0]);
    }
    lemma_no_ws(s, o);
    lemma_params_walk(s, o, ps);
    assert(s.subrange(n0, n1) =~= name);
    if ret.len() > 0 {
        let r0 = after + 4;
        let r1 = r0 + ret.len();
        assert(s.subrange(after, after + 4) =~= seq![' ', '-', '>', ' ']);
        assert(s.subrange(r0, r1) =~= ret);
        assert forall|j: int| 0 <= j < ret.len() implies is_ident_char(#[trigger] s[r0 + j]) by {
            assert(s[r0 + j] == s.subrange(r0, r1)[j]);
        }
        if post.len() > 0 {
            assert(s[r1] == post[0]);
        }
        assert(is_ident_char(s[r0 + 0]));
        lemma_ident_run(s, r0, ret.len() as int);
    } else {
        if post.len() > 0 {
            assert(s[after] == post[0]);
            assert(!super::source::word_at(s, after, super::rules::kw_arrow())) by {
                if super::source::word_at(s, after, super::rules::kw_arrow()) {
                    assert(s.subrange(after, after + 4)[0] == s[after]);
                }
            }
        }
    }
}

/// The digits of a version clause: `(a, b, c)` for `version a.b.c`.
pub open spec fn clause_ok(v: (Seq<char>, Seq<char>, Seq<char>)) -> bool {
    &&& v.0.len() > 0 && all_digits(v.0)
    &&& v.1.len() > 0 && all_digits(v.1)
    &&& v.2.len() > 0 && all_digits(v.2)
}

/// The version that a clause `version a.b.c` gives.
pub open spec fn clause_version(v: (Seq<char>, Seq<char>, Seq<char>)) -> Version {
    Version { major: u8_or_zero(v.0), minor: u8_or_zero(v.1), patch: u8_or_zero(v.2) }
}

/// Version clauses, each followed by a space.
pub open spec fn clauses_text(vs: Seq<(Seq<char>, Seq<char>, Seq<char>)>) -> Seq<char>
    decreases vs.len(),
{
    if vs.len() == 0 {
        seq![]
    } else {
        version_text(vs[0].0, vs[0].1, vs[0].2) + seq![' '] + clauses_text(vs.drop_first())
    }
}

proof fn lemma_clauses_walk(
    s: Seq<char>,
    j: int,
    vs: Seq<(Seq<char>, Seq<char>, Seq<char>)>,
    cur: Option<Version>,
)
    requires
        0 <= j,
        j + clauses_text(vs).len() <= s.len(),
        s.subrange(j, j + clauses_text(vs).len()) == clauses_text(vs),
        forall|k: int| 0 <= k < vs.len() ==> clause_ok(#[trigger] vs[k]),
        j + clauses_text(vs).len() == s.len() || (!is_ws(s[j + clauses_text(vs).len()])
            && !is_ident_char(s[j + clauses_text(vs).len()])),
    ensures
        version_list(s, j, cur) == (
            if vs.len() == 0 {
                cur
            } else {
                Some(clause_version(vs.last()))
            },
            j + clauses_text(vs).len(),
        ),
    decreases vs.len(),
{
    let ct = clauses_text(vs);
    let end = j + ct.len();
    if vs.len() == 0 {
        if end < s.len() {
            assert(!super::source::word_at(s, j, kw_version())) by {
                if super::source::word_at(s, j, kw_version()) {
                    assert(s.subrange(j, j + 7)[0] == s[j]);
                }
            }
        }
    } else {
        let v = vs[0];
        assert(clause_ok(v));
        let vt = version_text(v.0, v.1, v.2);
        let rest = vs.drop_first();
        let rt = clauses_text(rest);
        assert(ct == vt + seq![' '] + rt);
        let e = j + vt.len();
        let pre = s.subrange(0, j);
        let post = s.subrange(e, s.len() as int);
        assert(s.subrange(j, e) =~= vt) by {
            assert forall|x: int| 0 <= x < vt.len() implies s.subrange(j, e)[x] == vt[x] by {
                assert(s[j + x] == s.subrange(j, end)[x]);
            }
        }
        assert(s =~= pre + vt + post);
        assert(s[e] == ' ') by {
            assert(s[e] == s.subrange(j, end)[vt.len() as int]);
        }
        assert(post[0] == ' ');
        version_clause_reads_its_parts(pre, v.0, v.1, v.2, post);
        let n = e + 1;
        assert(s.subrange(n, n + rt.len()) =~= rt) by {
            assert forall|x: int| 0 <= x < rt.len() implies s.subrange(n, n + rt.len())[x]
                == rt[x] by {
                assert(s[n + x] == s.subrange(j, end)[vt.len() + 1 + x]);
            }
        }
        if rt.len() > 0 {
            assert(rt[0] == 'v') by {
                assert(rt == version_text(rest[0].0, rest[0].1, rest[0].2) + seq![' ']
                    + clauses_text(rest.drop_first()));
            }
            assert(s[n] == s.subrange(n, n + rt.len())[0]);
        }
        lemma_one_ws(s, e);
        assert forall|k: int| 0 <= k < rest.len() implies clause_ok(#[trigger] rest[k]) by {
            assert(rest[k] == vs[k + 1]);
        }
        lemma_clauses_walk(s, n, rest, Some(clause_version(v)));
        if rest.len() > 0 {
            assert(rest.last() == vs.last());
        }
    }
}

/// The text `package N ` followed by version clauses, each followed by a
/// space.
pub open spec fn package_head_text(
    name: Seq<char>,
    vs: Seq<(Seq<char>, Seq<char>, Seq<char>)>,
) -> Seq<char> {
    kw_package() + seq![' '] + name + seq![' '] + clauses_text(vs)
}

/// A package written `package N version a_1.b_1.c_1 ... version a_k.b_k.c_k`
/// is named `N`; it has no version where `k` is 0, and otherwise the version
/// of its last clause, each part read as a decimal number or 0 where it is
/// over 255.
pub proof fn package_reads_its_name_and_last_version(
    pre: Seq<char>,
    name: Seq<char>,
    vs: Seq<(Seq<char>, Seq<char>, Seq<char>)>,
    post: Seq<char>,
)
    requires
        ident_text(name),
        forall|k: int| 0 <= k < vs.len() ==> clause_ok(#[trigger] vs[k]),
        post.len() == 0 || (!is_ws(post[0]) && !is_ident_char(post[0])),
    ensures
        package_at(pre + package_head_text(name, vs) + post, pre.len() as int) matches Some(
            (p, _),
        ) && p.name == name && p.version == (if vs.len() == 0 {
            None
        } else {
            Some(clause_version(vs.last()))
        }),
{
    let h = package_head_text(name, vs);
    let s = pre + h + post;
    let i = pre.len() as int;
    let n0 = i + 8;
    let n1 = n0 + name.len();
    let j = n1 + 1;
    let ct = clauses_text(vs);
    assert(s.subrange(i, i + 7) =~= kw_package());
    assert(s[i + 7] == ' ');
    assert(s.subrange(n0, n1) =~= name);
    assert forall|x: int| 0 <= x < name.len() implies is_ident_char(#[trigger] s[n0 + x]) by {
        assert(s[n0 + x] == s.subrange(n0, n1)[x]);
    }
    assert(s[n1] == ' ');
    assert(s.subrange(j, j + ct.len()) =~= ct);
    if post.len() > 0 {
        assert(s[j + ct.len()] == post[0]);
    }
    if ct.len() > 0 {
        assert(ct[0] == 'v') by {
            assert(ct == version_text(vs[0].0, vs[0].1, vs[0].2) + seq![' '] + clauses_text(
                vs.drop_first(),
            ));
        }
        assert(s[j] == ct[0]);
    }
    assert(is_ident_char(s[n0 + 0]));
    lemma_one_ws(s, i + 7);
    lemma_ident_run(s, n0, name.len() as int);
    lemma_one_ws(s, n1);
    lemma_clauses_walk(s, j, vs, None);
}

} // verus!
