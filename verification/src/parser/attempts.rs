//! Where a text stops being 3DL, and which rules were expected there.
//!
//! While it reads, the parser keeps the furthest position at which a rule
//! failed and the rules that failed there, the way pest's parser state does:
//! when rule `r`, called at `p`, fails, `r` is recorded at `p` unless its
//! children already recorded exactly one rule there; a recording at a
//! further position replaces all earlier ones, and one at a nearer position
//! is dropped. The error of a failed parse is pest's error at that position
//! with those rules expected.
use vstd::prelude::*;

verus! {

/// The rules of the grammar, in the order in which pest's parser lists them
/// (its end-of-input rule first, then the grammar's rules in order).
#[derive(Debug, Clone, Copy, PartialEq, Eq, Structural, Hash, PartialOrd, Ord)]
pub enum Rule {
    Eoi,
    D3l,
    Package,
    Entities,
    Entity,
    Attributes,
    Attribute,
    Methods,
    Method,
    Scope,
    Atype,
    Parameters,
    Returns,
    Identifier,
    Version,
    Number,
    Whitespace,
}

/// The name under which the grammar, and pest's errors, know a rule.
pub open spec fn rule_name(r: Rule) -> Seq<char> {
    match r {
        Rule::Eoi => "EOI"@,
        Rule::D3l => "D3L"@,
        Rule::Package => "package"@,
        Rule::Entities => "entities"@,
        Rule::Entity => "entity"@,
        Rule::Attributes => "attributes"@,
        Rule::Attribute => "attribute"@,
        Rule::Methods => "methods"@,
        Rule::Method => "method"@,
        Rule::Scope => "scope"@,
        Rule::Atype => "atype"@,
        Rule::Parameters => "parameters"@,
        Rule::Returns => "returns"@,
        Rule::Identifier => "identifier"@,
        Rule::Version => "version"@,
        Rule::Number => "number"@,
        Rule::Whitespace => "WHITESPACE"@,
    }
}

/// The name of a rule, as text.
pub fn name_of(r: &Rule) -> (t: String)
    ensures
        t@ == rule_name(*r),
{
    match r {
        Rule::Eoi => String::from_str("EOI"),
        Rule::D3l => String::from_str("D3L"),
        Rule::Package => String::from_str("package"),
        Rule::Entities => String::from_str("entities"),
        Rule::Entity => String::from_str("entity"),
        Rule::Attributes => String::from_str("attributes"),
        Rule::Attribute => String::from_str("attribute"),
        Rule::Methods => String::from_str("methods"),
        Rule::Method => String::from_str("method"),
        Rule::Scope => String::from_str("scope"),
        Rule::Atype => String::from_str("atype"),
        Rule::Parameters => String::from_str("parameters"),
        Rule::Returns => String::from_str("returns"),
        Rule::Identifier => String::from_str("identifier"),
        Rule::Version => String::from_str("version"),
        Rule::Number => String::from_str("number"),
        Rule::Whitespace => String::from_str("WHITESPACE"),
    }
}

/// Every rule, in order.
pub open spec fn all_rules() -> Seq<Rule> {
    seq![
        Rule::Eoi,
        Rule::D3l,
        Rule::Package,
        Rule::Entities,
        Rule::Entity,
        Rule::Attributes,
        Rule::Attribute,
        Rule::Methods,
        Rule::Method,
        Rule::Scope,
        Rule::Atype,
        Rule::Parameters,
        Rule::Returns,
        Rule::Identifier,
        Rule::Version,
        Rule::Number,
        Rule::Whitespace,
    ]
}

/// The furthest position at which a rule failed, and the rules recorded
/// there, in the order recorded.
pub struct SpecAttempts {
    pub pos: int,
    pub rules: Seq<Rule>,
}

/// Nothing recorded yet.
pub open spec fn no_attempts() -> SpecAttempts {
    SpecAttempts { pos: 0, rules: seq![] }
}

/// How many rules a record holds at position `p`.
pub open spec fn attempts_at(t: SpecAttempts, p: int) -> int {
    if t.pos == p {
        t.rules.len() as int
    } else {
        0
    }
}

/// The record after rule `r`, called at `p` when the record stood at
/// position `bpos` with `blen` rules, failed, its children having left the
/// record `after`.
pub open spec fn fail_at(bpos: int, blen: int, after: SpecAttempts, r: Rule, p: int) -> SpecAttempts {
    let prev = if bpos == p {
        blen
    } else {
        0
    };
    let curr = attempts_at(after, p);
    if curr > prev && curr - prev == 1 {
        after
    } else if p == after.pos {
        SpecAttempts {
            pos: p,
            rules: after.rules.take(if prev <= after.rules.len() {
                prev
            } else {
                after.rules.len() as int
            }).push(r),
        }
    } else if p > after.pos {
        SpecAttempts { pos: p, rules: seq![r] }
    } else {
        after
    }
}

/// `fail_at`, with the record before the call given whole.
pub open spec fn fail_from(before: SpecAttempts, after: SpecAttempts, r: Rule, p: int) -> SpecAttempts {
    fail_at(before.pos, before.rules.len() as int, after, r, p)
}

/// The rules of `order` that `rules` holds, each once, in the order of
/// `order`.
pub open spec fn kept(order: Seq<Rule>, rules: Seq<Rule>) -> Seq<Rule>
    decreases order.len(),
{
    if order.len() == 0 {
        seq![]
    } else if rules.contains(order.last()) {
        kept(order.drop_last(), rules).push(order.last())
    } else {
        kept(order.drop_last(), rules)
    }
}

/// The rules recorded, each once, in the order of `all_rules`: what pest
/// reports after sorting its record and dropping repeats.
pub open spec fn expected(rules: Seq<Rule>) -> Seq<Rule> {
    kept(all_rules(), rules)
}

/// The text of pest's parse error for `input` at the character position
/// `pos` (line and column, the line with a marker under the position, and
/// the rules expected there, each by its `rule_name`), with `positives`
/// expected and nothing unexpected.
pub uninterp spec fn pest_parse_error(input: Seq<char>, pos: int, positives: Seq<Rule>) -> Seq<char>;

/// Renders pest's parse error, through `pest::error::Error::new_from_pos`,
/// `renamed_rules` (each rule shown by `name_of`) and its `Display`, at the
/// position of `input` that follows `before`, with `positives` expected and
/// no rule unexpected. The contract only names the text: it is
/// `pest_parse_error` of the text, the position in characters and the rules.
#[verifier::external_body]
fn render_parse_error(input: &str, before: &str, positives: Vec<Rule>) -> (text: String)
    requires
        before@.len() <= input@.len(),
        before@ == input@.subrange(0, before@.len() as int),
    ensures
        text@ == pest_parse_error(input@, before@.len() as int, positives@),
{
    let pos = pest::Position::new(input, before.len()).unwrap();
    let variant = pest::error::ErrorVariant::ParsingError { positives, negatives: vec![] };
    pest::error::Error::new_from_pos(variant, pos).renamed_rules(|r| name_of(r)).to_string()
}

/// Every rule, in order.
fn every_rule() -> (v: Vec<Rule>)
    ensures
        v@ == all_rules(),
{
    vec![
        Rule::Eoi,
        Rule::D3l,
        Rule::Package,
        Rule::Entities,
        Rule::Entity,
        Rule::Attributes,
        Rule::Attribute,
        Rule::Methods,
        Rule::Method,
        Rule::Scope,
        Rule::Atype,
        Rule::Parameters,
        Rule::Returns,
        Rule::Identifier,
        Rule::Version,
        Rule::Number,
        Rule::Whitespace,
    ]
}

/// The record kept while reading.
pub struct Attempts {
    pos: usize,
    rules: Vec<Rule>,
}

impl View for Attempts {
    type V = SpecAttempts;

    closed spec fn view(&self) -> SpecAttempts {
        SpecAttempts { pos: self.pos as int, rules: self.rules@ }
    }
}

impl Attempts {
    /// An empty record.
    pub fn new() -> (a: Attempts)
        ensures
            a@ == no_attempts(),
    {
        Attempts { pos: 0, rules: Vec::new() }
    }

    /// The record as it stands, to be handed back to `fail`.
    pub fn mark(&self) -> (m: (usize, usize))
        ensures
            m.0 == self@.pos,
            m.1 == self@.rules.len(),
    {
        (self.pos, self.rules.len())
    }

    /// Records that rule `r`, called at `p` when the record stood at
    /// `before` (a `mark`), failed.
    pub fn fail(&mut self, before: (usize, usize), r: Rule, p: usize)
        ensures
            final(self)@ == fail_at(before.0 as int, before.1 as int, old(self)@, r, p as int),
            final(self)@.pos == old(self)@.pos || final(self)@.pos == p,
    {
        let prev = if before.0 == p {
            before.1
        } else {
            0
        };
        let curr = if self.pos == p {
            self.rules.len()
        } else {
            0
        };
        if curr > prev && curr - prev == 1 {
            return;
        }
        let ghost old_rules = self.rules@;
        if p == self.pos {
            self.rules.truncate(prev);
            self.rules.push(r);
            proof {
                let k = if prev <= old_rules.len() {
                    prev as int
                } else {
                    old_rules.len() as int
                };
                assert(self.rules@ =~= old_rules.take(k).push(r));
            }
        } else if p > self.pos {
            self.pos = p;
            self.rules = vec![r];
            proof {
                assert(self.rules@ =~= seq![r]);
            }
        }
    }
}

impl Attempts {
    /// The rules recorded, each once, in the order of `all_rules`.
    pub fn expected(&self) -> (v: Vec<Rule>)
        ensures
            v@ == expected(self@.rules),
    {
        let order = every_rule();
        let mut out: Vec<Rule> = Vec::new();
        let mut k: usize = 0;
        while k < order.len()
            invariant
                k <= order@.len(),
                order@ == all_rules(),
                out@ == kept(order@.take(k as int), self.rules@),
            decreases order@.len() - k,
        {
            let r = order[k];
            let mut found = false;
            let mut j: usize = 0;
            while j < self.rules.len()
                invariant
                    j <= self.rules@.len(),
                    found <==> exists|x: int| 0 <= x < j && self.rules@[x] == r,
                decreases self.rules@.len() - j,
            {
                if self.rules[j] == r {
                    found = true;
                }
                j = j + 1;
            }
            proof {
                assert(order@.take(k + 1).drop_last() =~= order@.take(k as int));
                assert(order@.take(k + 1).last() == r);
                if found {
                    let x = choose|x: int| 0 <= x < self.rules@.len() && self.rules@[x] == r;
                    assert(self.rules@.contains(r));
                } else {
                    assert(!self.rules@.contains(r));
                }
            }
            if found {
                out.push(r);
            }
            k = k + 1;
        }
        proof {
            assert(order@.take(order@.len() as int) =~= order@);
        }
        out
    }

    /// The error that the record describes: pest's parse error for `input`
    /// at the furthest failure, with the rules expected there.
    pub fn error_text(&self, input: &str) -> (t: String)
        requires
            self@.pos <= input@.len(),
        ensures
            t@ == pest_parse_error(input@, self@.pos, expected(self@.rules)),
    {
        let before = input.substring_char(0, self.pos);
        render_parse_error(input, before, self.expected())
    }
}

} // verus!
