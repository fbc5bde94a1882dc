//! The rule packs that come with a program: each a list of the texts of rule files.

use vstd::prelude::*;

use crate::tagging::rule::{rule_of_text, rules_view, Rule, RuleParseError, RuleView};
use crate::text::texts;

verus! {

/// The rules of texts, or why the first one that holds none holds none.
pub open spec fn pack_rules(all: Seq<Seq<char>>) -> Result<Seq<RuleView>, Seq<char>>
    decreases all.len(),
{
    if all.len() == 0 {
        Ok(seq![])
    } else {
        match pack_rules(all.drop_last()) {
            Err(e) => Err(e),
            Ok(before) => match rule_of_text(all.last()) {
                Err(e) => Err(e),
                Ok(rule) => Ok(before.push(rule)),
            },
        }
    }
}

proof fn lemma_pack_fails(all: Seq<Seq<char>>, n: int)
    requires
        0 <= n <= all.len(),
        pack_rules(all.take(n)) is Err,
    ensures
        pack_rules(all) == pack_rules(all.take(n)),
    decreases all.len(),
{
    if n < all.len() {
        assert(all.drop_last().take(n) == all.take(n));
        lemma_pack_fails(all.drop_last(), n);
    } else {
        assert(all.take(n) == all);
    }
}

fn read_pack(all: &Vec<String>) -> (r: Result<Vec<Rule>, RuleParseError>)
    ensures
        match r {
            Ok(rules) => pack_rules(texts(all@)) == Ok::<Seq<RuleView>, Seq<char>>(
                rules_view(rules@),
            ),
            Err(e) => pack_rules(texts(all@)) == Err::<Seq<RuleView>, Seq<char>>(e.reason@),
        },
{
    let ghost av = texts(all@);
    let mut rules: Vec<Rule> = Vec::new();
    let mut i: usize = 0;
    assert(rules_view(rules@) =~= seq![]);
    while i < all.len()
        invariant
            i <= all.len(),
            av == texts(all@),
            pack_rules(av.take(i as int)) == Ok::<Seq<RuleView>, Seq<char>>(rules_view(rules@)),
        decreases all.len() - i,
    {
        let ghost before = rules@;
        proof {
            let next = av.take(i + 1);
            assert(next.drop_last() == av.take(i as int));
            assert(next.last() == all@[i as int]@);
        }
        match Rule::from_toml_str(all[i].as_str()) {
            Ok(rule) => {
                let ghost rv = rule@;
                rules.push(rule);
                assert(rules_view(rules@) =~= rules_view(before).push(rv));
            },
            Err(e) => {
                proof {
                    lemma_pack_fails(av, i + 1);
                }
                return Err(e);
            },
        }
        i += 1;
    }
    assert(av.take(i as int) == av);
    Ok(rules)
}

/// The texts of the packs that come with a program.
#[derive(Debug)]
pub struct BuiltinPacks {
    /// What a device was doing, by its unified log.
    pub aul: Vec<String>,
    /// Events of the Windows security log.
    pub evtx: Vec<String>,
    /// Logins and accounts, by the journal of systemd.
    pub journald: Vec<String>,
}

/// The rules for unified logs, or why one of them is none.
pub fn aul_pattern_of_life_rules(packs: &BuiltinPacks) -> (r: Result<Vec<Rule>, RuleParseError>)
    ensures
        match r {
            Ok(rules) => pack_rules(texts(packs.aul@)) == Ok::<Seq<RuleView>, Seq<char>>(
                rules_view(rules@),
            ),
            Err(e) => pack_rules(texts(packs.aul@)) == Err::<Seq<RuleView>, Seq<char>>(
                e.reason@,
            ),
        },
{
    read_pack(&packs.aul)
}

/// The rules for the Windows security log, or why one of them is none.
pub fn evtx_security_auditing_rules(packs: &BuiltinPacks) -> (r: Result<Vec<Rule>, RuleParseError>)
    ensures
        match r {
            Ok(rules) => pack_rules(texts(packs.evtx@)) == Ok::<Seq<RuleView>, Seq<char>>(
                rules_view(rules@),
            ),
            Err(e) => pack_rules(texts(packs.evtx@)) == Err::<Seq<RuleView>, Seq<char>>(
                e.reason@,
            ),
        },
{
    read_pack(&packs.evtx)
}

/// The rules for the journal of systemd, or why one of them is none.
pub fn journald_login_rules(packs: &BuiltinPacks) -> (r: Result<Vec<Rule>, RuleParseError>)
    ensures
        match r {
            Ok(rules) => pack_rules(texts(packs.journald@)) == Ok::<Seq<RuleView>, Seq<char>>(
                rules_view(rules@),
            ),
            Err(e) => pack_rules(texts(packs.journald@)) == Err::<Seq<RuleView>, Seq<char>>(
                e.reason@,
            ),
        },
{
    read_pack(&packs.journald)
}

/// The rules of all packs, one pack after the other, or why one of them is
/// none.
pub fn all_builtin_rules(packs: &BuiltinPacks) -> (r: Result<Vec<Rule>, RuleParseError>)
    ensures
        match r {
            Ok(rules) => builtin_rules(
                texts(packs.aul@),
                texts(packs.evtx@),
                texts(packs.journald@),
            ) == Ok::<Seq<RuleView>, Seq<char>>(rules_view(rules@)),
            Err(e) => builtin_rules(
                texts(packs.aul@),
                texts(packs.evtx@),
                texts(packs.journald@),
            ) == Err::<Seq<RuleView>, Seq<char>>(e.reason@),
        },
{
    let mut rules = match aul_pattern_of_life_rules(packs) {
        Ok(rules) => rules,
        Err(e) => {
            return Err(e);
        },
    };
    let mut evtx = match evtx_security_auditing_rules(packs) {
        Ok(rules) => rules,
        Err(e) => {
            return Err(e);
        },
    };
    let mut journald = match journald_login_rules(packs) {
        Ok(rules) => rules,
        Err(e) => {
            return Err(e);
        },
    };
    let ghost a = rules@;
    let ghost b = evtx@;
    let ghost c = journald@;
    rules.append(&mut evtx);
    rules.append(&mut journald);
    assert(rules_view(rules@) =~= rules_view(a) + rules_view(b) + rules_view(c));
    Ok(rules)
}

/// The rules of three packs, one pack after the other, or why one of them is none.
pub open spec fn builtin_rules(
    aul: Seq<Seq<char>>,
    evtx: Seq<Seq<char>>,
    journald: Seq<Seq<char>>,
) -> Result<Seq<RuleView>, Seq<char>> {
    match (pack_rules(aul), pack_rules(evtx), pack_rules(journald)) {
        (Ok(a), Ok(b), Ok(c)) => Ok(a + b + c),
        (Err(e), _, _) => Err(e),
        (_, Err(e), _) => Err(e),
        (_, _, Err(e)) => Err(e),
    }
}

proof fn lemma_pack_len(all: Seq<Seq<char>>)
    ensures
        pack_rules(all) matches Ok(rules) ==> rules.len() == all.len(),
    decreases all.len(),
{
    if all.len() > 0 {
        lemma_pack_len(all.drop_last());
    }
}

/// Every text of every pack gives one rule.
pub proof fn lemma_all_packs_are_there(
    aul: Seq<Seq<char>>,
    evtx: Seq<Seq<char>>,
    journald: Seq<Seq<char>>,
)
    ensures
        builtin_rules(aul, evtx, journald) matches Ok(rules) ==> rules.len() == aul.len()
            + evtx.len() + journald.len(),
{
    lemma_pack_len(aul);
    lemma_pack_len(evtx);
    lemma_pack_len(journald);
}

} // verus!
