//! How each repetition of the grammar relates to the rule it repeats: a
//! list holds exactly what the rule reads at each item's start, in order,
//! each item starting at the first character after the previous one that is
//! not whitespace, and the list stops where the rule first fails.
use super::grammar::{Scope, Version};
use super::rules::{
    SpecAttribute, SpecEntity, SpecMethod, attribute_at, attribute_block_at, attribute_list,
    d3l, entity_at, entity_block_at, entity_blocks, entity_body_at, entity_list, kw_entity,
    kw_package, method_at, method_list, package_at, scope_at, scopes, version_at, version_list,
};
use super::source::{char_at, ident_end, skip_ws, word_at};
use vstd::prelude::*;

verus! {

/// A chain of reads: item `k` is read from `starts[k]` and ends at
/// `ends[k]`, and item `k + 1` starts at the first character after it that
/// is not whitespace.
pub open spec fn chained(s: Seq<char>, starts: Seq<int>, ends: Seq<int>, n: int) -> bool {
    &&& starts.len() == n + 1
    &&& ends.len() == n
    &&& forall|k: int| 0 <= k < n ==> #[trigger] starts[k + 1] == skip_ws(s, ends[k])
}

/// The methods read from a list are, in order, what `method_at` reads at
/// each method's own start, and the list ends where no method follows:
/// no method's result depends on its neighbours.
pub proof fn method_list_reads_each_method(
    s: Seq<char>,
    starts: Seq<int>,
    ms: Seq<SpecMethod>,
    ends: Seq<int>,
)
    requires
        chained(s, starts, ends, ms.len() as int),
        forall|k: int| 0 <= k < ms.len() ==> #[trigger] method_at(s, starts[k]) == Some((ms[k], ends[k])),
        method_at(s, starts.last()) is None,
    ensures
        method_list(s, starts[0]) == (ms, starts.last()),
    decreases ms.len(),
{
    if ms.len() == 0 {
        assert(starts.last() == starts[0]);
    } else {
        let st = starts.drop_first();
        let ms2 = ms.drop_first();
        let en = ends.drop_first();
        assert(method_at(s, starts[0]) == Some((ms[0], ends[0])));
        assert(starts[0int + 1] == skip_ws(s, ends[0]));
        assert forall|k: int| 0 <= k < ms2.len() implies #[trigger] st[k + 1] == skip_ws(s, en[k]) by {
            assert(starts[(k + 1) + 1] == skip_ws(s, ends[k + 1]));
        }
        assert forall|k: int| 0 <= k < ms2.len() implies #[trigger] method_at(s, st[k]) == Some(
            (ms2[k], en[k]),
        ) by {
            assert(method_at(s, starts[k + 1]) == Some((ms[k + 1], ends[k + 1])));
        }
        assert(st.last() == starts.last());
        method_list_reads_each_method(s, st, ms2, en);
        assert(seq![ms[0]] + ms2 =~= ms);
    }
}

/// The attributes read from a list are, in order, what `attribute_at` reads
/// at each attribute's own start, and the list ends where no attribute
/// follows.
pub proof fn attribute_list_reads_each_attribute(
    s: Seq<char>,
    starts: Seq<int>,
    attrs: Seq<SpecAttribute>,
    ends: Seq<int>,
)
    requires
        chained(s, starts, ends, attrs.len() as int),
        forall|k: int| 0 <= k < attrs.len() ==> #[trigger] attribute_at(s, starts[k]) == Some((attrs[k], ends[k])),
        attribute_at(s, starts.last()) is None,
    ensures
        attribute_list(s, starts[0]) == (attrs, starts.last()),
    decreases attrs.len(),
{
    if attrs.len() == 0 {
        assert(starts.last() == starts[0]);
    } else {
        let st = starts.drop_first();
        let a2 = attrs.drop_first();
        let en = ends.drop_first();
        assert(attribute_at(s, starts[0]) == Some((attrs[0], ends[0])));
        assert(starts[0int + 1] == skip_ws(s, ends[0]));
        assert forall|k: int| 0 <= k < a2.len() implies #[trigger] st[k + 1] == skip_ws(s, en[k]) by {
            assert(starts[(k + 1) + 1] == skip_ws(s, ends[k + 1]));
        }
        assert forall|k: int| 0 <= k < a2.len() implies #[trigger] attribute_at(s, st[k]) == Some(
            (a2[k], en[k]),
        ) by {
            assert(attribute_at(s, starts[k + 1]) == Some((attrs[k + 1], ends[k + 1])));
        }
        assert(st.last() == starts.last());
        attribute_list_reads_each_attribute(s, st, a2, en);
        assert(seq![attrs[0]] + a2 =~= attrs);
    }
}

/// The entities read from a block are, in order, what `entity_at` reads at
/// each entity's own start (its own name, scope, attributes and methods,
/// whatever its neighbours hold), one for each entity read, and the list
/// ends where no entity follows.
pub proof fn entity_list_reads_each_entity(
    s: Seq<char>,
    starts: Seq<int>,
    es: Seq<SpecEntity>,
    ends: Seq<int>,
)
    requires
        chained(s, starts, ends, es.len() as int),
        forall|k: int| 0 <= k < es.len() ==> #[trigger] entity_at(s, starts[k]) == Some((es[k], ends[k])),
        entity_at(s, starts.last()) is None,
    ensures
        entity_list(s, starts[0]) == (es, starts.last()),
    decreases es.len(),
{
    if es.len() == 0 {
        assert(starts.last() == starts[0]);
    } else {
        let st = starts.drop_first();
        let e2 = es.drop_first();
        let en = ends.drop_first();
        assert(entity_at(s, starts[0]) == Some((es[0], ends[0])));
        assert(starts[0int + 1] == skip_ws(s, ends[0]));
        assert forall|k: int| 0 <= k < e2.len() implies #[trigger] st[k + 1] == skip_ws(s, en[k]) by {
            assert(starts[(k + 1) + 1] == skip_ws(s, ends[k + 1]));
        }
        assert forall|k: int| 0 <= k < e2.len() implies #[trigger] entity_at(s, st[k]) == Some(
            (e2[k], en[k]),
        ) by {
            assert(entity_at(s, starts[k + 1]) == Some((es[k + 1], ends[k + 1])));
        }
        assert(st.last() == starts.last());
        entity_list_reads_each_entity(s, st, e2, en);
        assert(seq![es[0]] + e2 =~= es);
    }
}

/// The blocks' entities one after another.
pub open spec fn joined(bs: Seq<Seq<SpecEntity>>) -> Seq<SpecEntity>
    decreases bs.len(),
{
    if bs.len() == 0 {
        seq![]
    } else {
        bs[0] + joined(bs.drop_first())
    }
}

/// The entities of a package are those of its blocks, block after block,
/// each block giving what `entity_block_at` reads at its own start.
pub proof fn entity_blocks_join_each_block(
    s: Seq<char>,
    starts: Seq<int>,
    bs: Seq<Seq<SpecEntity>>,
    ends: Seq<int>,
)
    requires
        chained(s, starts, ends, bs.len() as int),
        forall|k: int| 0 <= k < bs.len() ==> #[trigger] entity_block_at(s, starts[k]) == Some((bs[k], ends[k])),
        entity_block_at(s, starts.last()) is None,
    ensures
        entity_blocks(s, starts[0]) == (joined(bs), starts.last()),
    decreases bs.len(),
{
    if bs.len() == 0 {
        assert(starts.last() == starts[0]);
    } else {
        let st = starts.drop_first();
        let b2 = bs.drop_first();
        let en = ends.drop_first();
        assert(entity_block_at(s, starts[0]) == Some((bs[0], ends[0])));
        assert(starts[0int + 1] == skip_ws(s, ends[0]));
        assert forall|k: int| 0 <= k < b2.len() implies #[trigger] st[k + 1] == skip_ws(s, en[k]) by {
            assert(starts[(k + 1) + 1] == skip_ws(s, ends[k + 1]));
        }
        assert forall|k: int| 0 <= k < b2.len() implies #[trigger] entity_block_at(s, st[k])
            == Some((b2[k], en[k])) by {
            assert(entity_block_at(s, starts[k + 1]) == Some((bs[k + 1], ends[k + 1])));
        }
        assert(st.last() == starts.last());
        entity_blocks_join_each_block(s, st, b2, en);
    }
}

/// Of several version clauses in a row, the last one read gives the
/// version; with none, the version stays `cur`.
pub proof fn version_list_keeps_the_last(
    s: Seq<char>,
    starts: Seq<int>,
    vs: Seq<Version>,
    ends: Seq<int>,
    cur: Option<Version>,
)
    requires
        chained(s, starts, ends, vs.len() as int),
        forall|k: int| 0 <= k < vs.len() ==> #[trigger] version_at(s, starts[k]) == Some((vs[k], ends[k])),
        version_at(s, starts.last()) is None,
    ensures
        version_list(s, starts[0], cur) == (
            if vs.len() == 0 {
                cur
            } else {
                Some(vs.last())
            },
            starts.last(),
        ),
    decreases vs.len(),
{
    if vs.len() == 0 {
        assert(starts.last() == starts[0]);
    } else {
        let st = starts.drop_first();
        let v2 = vs.drop_first();
        let en = ends.drop_first();
        assert(version_at(s, starts[0]) == Some((vs[0], ends[0])));
        assert(starts[0int + 1] == skip_ws(s, ends[0]));
        assert forall|k: int| 0 <= k < v2.len() implies #[trigger] st[k + 1] == skip_ws(s, en[k]) by {
            assert(starts[(k + 1) + 1] == skip_ws(s, ends[k + 1]));
        }
        assert forall|k: int| 0 <= k < v2.len() implies #[trigger] version_at(s, st[k]) == Some(
            (v2[k], en[k]),
        ) by {
            assert(version_at(s, starts[k + 1]) == Some((vs[k + 1], ends[k + 1])));
        }
        assert(st.last() == starts.last());
        version_list_keeps_the_last(s, st, v2, en, Some(vs[0]));
        if v2.len() > 0 {
            assert(v2.last() == vs.last());
        }
    }
}

/// Of several scope words in a row, the last one read gives the scope;
/// with none, the scope stays `cur`.
pub proof fn scopes_keep_the_last(
    s: Seq<char>,
    starts: Seq<int>,
    scs: Seq<Scope>,
    ends: Seq<int>,
    cur: Scope,
)
    requires
        chained(s, starts, ends, scs.len() as int),
        forall|k: int| 0 <= k < scs.len() ==> #[trigger] scope_at(s, starts[k]) == Some((scs[k], ends[k])),
        scope_at(s, starts.last()) is None,
    ensures
        scopes(s, starts[0], cur) == (
            if scs.len() == 0 {
                cur
            } else {
                scs.last()
            },
            starts.last(),
        ),
    decreases scs.len(),
{
    if scs.len() == 0 {
        assert(starts.last() == starts[0]);
    } else {
        let st = starts.drop_first();
        let c2 = scs.drop_first();
        let en = ends.drop_first();
        assert(scope_at(s, starts[0]) == Some((scs[0], ends[0])));
        assert(starts[0int + 1] == skip_ws(s, ends[0]));
        assert forall|k: int| 0 <= k < c2.len() implies #[trigger] st[k + 1] == skip_ws(s, en[k]) by {
            assert(starts[(k + 1) + 1] == skip_ws(s, ends[k + 1]));
        }
        assert forall|k: int| 0 <= k < c2.len() implies #[trigger] scope_at(s, st[k]) == Some(
            (c2[k], en[k]),
        ) by {
            assert(scope_at(s, starts[k + 1]) == Some((scs[k + 1], ends[k + 1])));
        }
        assert(st.last() == starts.last());
        scopes_keep_the_last(s, st, c2, en, scs[0]);
        if c2.len() > 0 {
            assert(c2.last() == scs.last());
        }
    }
}

/// An entity's attributes come only from its own `( ... )` block, the first
/// thing in its body: where the body does not start with `(`, it has no
/// attributes. Its methods are those of the method list that follows the
/// block (or the brace, where there is no block).
pub proof fn entity_body_reads_its_own_block(s: Seq<char>, i: int)
    ensures
        entity_body_at(s, i) matches Some((a, m, _)) ==> {
            let u = skip_ws(s, i + 1);
            &&& !char_at(s, u, '(') ==> a.len() == 0 && m == method_list(s, u).0
            &&& char_at(s, u, '(') ==> (attribute_block_at(s, u) matches Some((b, e)) && a == b
                && m == method_list(s, skip_ws(s, e)).0)
        },
{
    let u = skip_ws(s, i + 1);
    if char_at(s, u, '(') && attribute_block_at(s, u) is None {
        // Without its block, the body's method list starts at `(`, where no
        // method stands, so the closing brace is not found.
        assert(method_at(s, u) is None);
        assert(method_list(s, u).1 == u);
    }
}

/// An entity read at `i` is named by the identifier after its `entity`
/// word, has the scope of the scope words before that word, and has the
/// attributes and methods of its own body where one follows its name, none
/// where none does.
pub proof fn entity_is_its_scopes_name_and_body(s: Seq<char>, i: int)
    ensures
        entity_at(s, i) matches Some((en, _)) ==> {
            let p = scopes(s, i, Scope::Private).1;
            let q = skip_ws(s, p + 6);
            let r = ident_end(s, q);
            &&& word_at(s, p, kw_entity())
            &&& en.scope == scopes(s, i, Scope::Private).0
            &&& en.name == s.subrange(q, r)
            &&& match entity_body_at(s, skip_ws(s, r)) {
                Some((a, m, _)) => en.attributes == a && en.methods == m,
                None => en.attributes.len() == 0 && en.methods.len() == 0,
            }
        },
{
}

/// A package read at `i` is named by the identifier after its `package`
/// word, has the version that its version clauses give, and has the entities
/// of the blocks that follow them.
pub proof fn package_is_its_name_versions_and_blocks(s: Seq<char>, i: int)
    ensures
        package_at(s, i) matches Some((pk, e)) ==> {
            let n0 = skip_ws(s, i + 7);
            let n1 = ident_end(s, n0);
            let (v, ve) = version_list(s, skip_ws(s, n1), None);
            &&& word_at(s, i, kw_package())
            &&& pk.name == s.subrange(n0, n1)
            &&& pk.version == v
            &&& (pk.entities, e) == entity_blocks(s, ve)
        },
{
}

/// A text is read as the package that starts at its first character that
/// is not whitespace, provided only whitespace follows that package.
pub proof fn text_is_its_package(s: Seq<char>)
    ensures
        d3l(s) == (match package_at(s, skip_ws(s, 0)) {
            Some((p, e)) => if skip_ws(s, e) == s.len() {
                Some(p)
            } else {
                None
            },
            None => None,
        }),
{
}

} // verus!
