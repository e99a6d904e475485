//! The table that maps package part names to the protection element removed
//! from them.
use vstd::prelude::*;
use vstd::utf8::encode_utf8;
use crate::bytes::{has_prefix, starts_with};

verus! {

/// Parts whose name starts with `prefix` lose every `tag` element.
pub struct Rule {
    pub prefix: String,
    pub tag: String,
}

/// `rule` selects the part called `name`.
pub open spec fn rule_matches(rule: Rule, name: Seq<char>) -> bool {
    has_prefix(encode_utf8(name), encode_utf8(rule.prefix@))
}

/// The position of the first rule of `rules` that selects `name`.
pub open spec fn first_match(rules: Seq<Rule>, name: Seq<char>) -> Option<nat>
    decreases rules.len(),
{
    if rules.len() == 0 {
        None
    } else {
        match first_match(rules.drop_last(), name) {
            Some(i) => Some(i),
            None => if rule_matches(rules.last(), name) {
                Some((rules.len() - 1) as nat)
            } else {
                None
            },
        }
    }
}

proof fn lemma_first_match_prefix(rules: Seq<Rule>, name: Seq<char>, k: int)
    requires
        0 <= k < rules.len(),
    ensures
        first_match(rules.take(k + 1), name) == match first_match(rules.take(k), name) {
            Some(i) => Some(i),
            None => if rule_matches(rules[k], name) {
                Some(k as nat)
            } else {
                None
            },
        },
{
    assert(rules.take(k + 1).drop_last() =~= rules.take(k));
}

/// Builds a rule.
pub fn rule(prefix: &str, tag: &str) -> (r: Rule)
    ensures
        r.prefix@ == prefix@,
        r.tag@ == tag@,
{
    Rule { prefix: prefix.to_owned(), tag: tag.to_owned() }
}

/// The rules of a spreadsheet package: worksheets lose their sheet
/// protection, the workbook part its workbook protection.
pub fn default_rules() -> (r: Vec<Rule>)
    ensures
        r@.len() == 2,
        r@[0].prefix@ == "xl/worksheets/sheet"@,
        r@[0].tag@ == "sheetProtection"@,
        r@[1].prefix@ == "xl/workbook.xml"@,
        r@[1].tag@ == "workbookProtection"@,
{
    let mut v: Vec<Rule> = Vec::new();
    v.push(rule("xl/worksheets/sheet", "sheetProtection"));
    v.push(rule("xl/workbook.xml", "workbookProtection"));
    v
}

/// The index of the first rule in `rules` that selects the part `name`.
pub fn select_rule(rules: &Vec<Rule>, name: &str) -> (r: Option<usize>)
    ensures
        match r {
            Some(i) => first_match(rules@, name@) == Some(i as nat) && i < rules@.len(),
            None => first_match(rules@, name@) is None,
        },
{
    let name_bytes = name.as_bytes();
    let mut k: usize = 0;
    while k < rules.len()
        invariant
            k <= rules@.len(),
            name_bytes@ == encode_utf8(name@),
            first_match(rules@.take(k as int), name@) is None,
        decreases rules@.len() - k,
    {
        proof {
            lemma_first_match_prefix(rules@, name@, k as int);
        }
        let hit = starts_with(name_bytes, rules[k].prefix.as_str().as_bytes());
        if hit {
            assert(rules@.take(rules@.len() as int) =~= rules@);
            proof {
                lemma_first_match_extends(rules@, name@, k as int + 1);
            }
            return Some(k);
        }
        k = k + 1;
    }
    assert(rules@.take(rules@.len() as int) =~= rules@);
    None
}

proof fn lemma_first_match_extends(rules: Seq<Rule>, name: Seq<char>, k: int)
    requires
        0 <= k <= rules.len(),
        first_match(rules.take(k), name) is Some,
    ensures
        first_match(rules, name) == first_match(rules.take(k), name),
    decreases rules.len() - k,
{
    if k < rules.len() {
        lemma_first_match_prefix(rules, name, k);
        lemma_first_match_extends(rules, name, k + 1);
    } else {
        assert(rules.take(k) =~= rules);
    }
}

} // verus!
