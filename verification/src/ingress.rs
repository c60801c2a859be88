//! The hostnames that ingresses declare.

use crate::entry::host_names;
use vstd::prelude::*;
use vstd::seq_lib::lemma_flatten_concat;

verus! {

/// One routing rule of an ingress.
#[derive(Debug, Clone, PartialEq, Eq)]
pub struct IngressRule {
    /// The hostname that the rule is for, where it names one.
    pub host: Option<String>,
}

/// An ingress, as far as hostnames are concerned.
#[derive(Debug, Clone, PartialEq, Eq)]
pub struct Ingress {
    pub name: String,
    pub namespace: String,
    /// The rule set, where the ingress has one.
    pub rules: Option<Vec<IngressRule>>,
}

/// An item that gave no hostname and was passed over.
#[derive(Debug, Clone, Copy, PartialEq, Eq, Structural)]
pub enum Skipped {
    /// The ingress at this position has no rule set.
    NoRules { ingress: usize },
    /// The rule at position `rule` of the ingress at position `ingress` names
    /// no host.
    NoHost { ingress: usize, rule: usize },
}

/// What a pass over the ingresses gave.
#[derive(Debug, Clone, PartialEq, Eq)]
pub struct Collected {
    /// The declared hostnames, ingress by ingress and rule by rule.
    pub hostnames: Vec<String>,
    /// The items that were passed over, in the same order.
    pub skipped: Vec<Skipped>,
}

/// The hostname of `rule`, where it names one.
pub open spec fn host_of(rule: IngressRule) -> Option<Seq<char>> {
    match rule.host {
        Some(host) => Some(host@),
        None => None,
    }
}

/// The hostnames of the rules that name one, in the order of the rules.
pub open spec fn rule_hosts(rules: Seq<IngressRule>) -> Seq<Seq<char>> {
    rules.filter_map(|rule: IngressRule| host_of(rule))
}

/// The hostnames that `ingress` declares; none where it has no rule set.
pub open spec fn ingress_hosts(ingress: Ingress) -> Seq<Seq<char>> {
    match ingress.rules {
        Some(rules) => rule_hosts(rules@),
        None => Seq::empty(),
    }
}

/// The hostnames that `ingresses` declare, ingress by ingress. A hostname that
/// is declared twice stands twice.
pub open spec fn declared_hosts(ingresses: Seq<Ingress>) -> Seq<Seq<char>> {
    ingresses.map_values(|ingress: Ingress| ingress_hosts(ingress)).flatten()
}

/// What is passed over at position `rule` of the rules of the ingress at
/// `ingress`: the rule, where it names no host.
pub open spec fn rule_skip(rules: Seq<IngressRule>, ingress: int, rule: int) -> Seq<Skipped> {
    if rules[rule].host is None {
        seq![Skipped::NoHost { ingress: ingress as usize, rule: rule as usize }]
    } else {
        Seq::empty()
    }
}

/// The rules among `rules` that name no host, in their order.
pub open spec fn rule_skips(rules: Seq<IngressRule>, ingress: int) -> Seq<Skipped> {
    Seq::new(rules.len(), |rule: int| rule_skip(rules, ingress, rule)).flatten()
}

/// What is passed over in the ingress at position `ingress`: the ingress
/// itself where it has no rule set, else its rules that name no host.
pub open spec fn ingress_skips(ingresses: Seq<Ingress>, ingress: int) -> Seq<Skipped> {
    match ingresses[ingress].rules {
        Some(rules) => rule_skips(rules@, ingress),
        None => seq![Skipped::NoRules { ingress: ingress as usize }],
    }
}

/// Everything that is passed over in `ingresses`, in their order.
pub open spec fn skipped_items(ingresses: Seq<Ingress>) -> Seq<Skipped> {
    Seq::new(ingresses.len(), |ingress: int| ingress_skips(ingresses, ingress)).flatten()
}

/// The hostnames of two runs of ingresses, one after the other, are those of
/// the first run followed by those of the second: what one ingress declares,
/// or fails to declare, changes nothing for the others.
pub proof fn lemma_declared_hosts_concat(front: Seq<Ingress>, back: Seq<Ingress>)
    ensures
        declared_hosts(front + back) == declared_hosts(front) + declared_hosts(back),
{
    let hosts = |ingress: Ingress| ingress_hosts(ingress);
    assert((front + back).map_values(hosts) =~= front.map_values(hosts) + back.map_values(hosts));
    lemma_flatten_concat(front.map_values(hosts), back.map_values(hosts));
}

/// An ingress without a rule set adds no hostname, wherever it stands.
pub proof fn lemma_ingress_without_rules(front: Seq<Ingress>, broken: Ingress, back: Seq<Ingress>)
    requires
        broken.rules is None,
    ensures
        declared_hosts(front + seq![broken] + back) == declared_hosts(front + back),
{
    let hosts = |ingress: Ingress| ingress_hosts(ingress);
    lemma_declared_hosts_concat(front + seq![broken], back);
    lemma_declared_hosts_concat(front, seq![broken]);
    lemma_declared_hosts_concat(front, back);
    seq![broken].map_values(hosts).lemma_flatten_singleton();
    assert(declared_hosts(front) + Seq::<Seq<char>>::empty() =~= declared_hosts(front));
}

proof fn lemma_rule_skips_step(rules: Seq<IngressRule>, ingress: int, done: int)
    requires
        0 <= done < rules.len(),
    ensures
        rule_skips(rules.take(done + 1), ingress) == rule_skips(rules.take(done), ingress)
            + rule_skip(rules, ingress, done),
{
    let before = Seq::new(
        rules.take(done).len(),
        |rule: int| rule_skip(rules.take(done), ingress, rule),
    );
    let after = Seq::new(
        rules.take(done + 1).len(),
        |rule: int| rule_skip(rules.take(done + 1), ingress, rule),
    );
    assert(after =~= before.push(rule_skip(rules, ingress, done)));
    before.lemma_flatten_push(rule_skip(rules, ingress, done));
}

proof fn lemma_skipped_items_step(ingresses: Seq<Ingress>, done: int)
    requires
        0 <= done < ingresses.len(),
    ensures
        skipped_items(ingresses.take(done + 1)) == skipped_items(ingresses.take(done))
            + ingress_skips(ingresses, done),
{
    let before = Seq::new(
        ingresses.take(done).len(),
        |ingress: int| ingress_skips(ingresses.take(done), ingress),
    );
    let after = Seq::new(
        ingresses.take(done + 1).len(),
        |ingress: int| ingress_skips(ingresses.take(done + 1), ingress),
    );
    assert(after =~= before.push(ingress_skips(ingresses, done)));
    before.lemma_flatten_push(ingress_skips(ingresses, done));
}

proof fn lemma_declared_hosts_step(ingresses: Seq<Ingress>, done: int)
    requires
        0 <= done < ingresses.len(),
    ensures
        declared_hosts(ingresses.take(done + 1)) == declared_hosts(ingresses.take(done))
            + ingress_hosts(ingresses[done]),
{
    let hosts = |ingress: Ingress| ingress_hosts(ingress);
    let before = ingresses.take(done).map_values(hosts);
    assert(ingresses.take(done + 1).map_values(hosts) =~= before.push(
        ingress_hosts(ingresses[done]),
    ));
    before.lemma_flatten_push(ingress_hosts(ingresses[done]));
}

/// Adds the hostnames of `rules` to `hostnames`, and the rules that name no
/// host to `skipped`.
fn collect_rule_hosts(
    rules: &Vec<IngressRule>,
    ingress: usize,
    hostnames: &mut Vec<String>,
    skipped: &mut Vec<Skipped>,
)
    ensures
        host_names(final(hostnames)@) == host_names(old(hostnames)@) + rule_hosts(rules@),
        final(skipped)@ == old(skipped)@ + rule_skips(rules@, ingress as int),
{
    let ghost hosts_before = host_names(hostnames@);
    let ghost skipped_before = skipped@;
    let mut j: usize = 0;
    proof {
        assert(rule_hosts(rules@.take(0)) =~= Seq::<Seq<char>>::empty());
        assert(rule_skips(rules@.take(0), ingress as int) =~= Seq::<Skipped>::empty());
        assert(hosts_before + Seq::<Seq<char>>::empty() =~= hosts_before);
    }
    while j < rules.len()
        invariant
            j <= rules.len(),
            host_names(hostnames@) == hosts_before + rule_hosts(rules@.take(j as int)),
            skipped@ == skipped_before + rule_skips(rules@.take(j as int), ingress as int),
        decreases rules.len() - j,
    {
        proof {
            rules@.lemma_filter_map_take_succ(|rule: IngressRule| host_of(rule), j as int);
            lemma_rule_skips_step(rules@, ingress as int, j as int);
        }
        match &rules[j].host {
            Some(host) => {
                let ghost before = hostnames@;
                hostnames.push(host.clone());
                assert(host_names(hostnames@) =~= host_names(before).push(host@));
                assert(host_names(hostnames@) =~= hosts_before + rule_hosts(
                    rules@.take(j + 1),
                ));
            },
            None => {
                skipped.push(Skipped::NoHost { ingress, rule: j });
                assert(skipped@ =~= skipped_before + rule_skips(
                    rules@.take(j + 1),
                    ingress as int,
                ));
            },
        }
        j += 1;
    }
    assert(rules@.take(rules.len() as int) =~= rules@);
}

/// Gathers the hostnames that `ingresses` declare, ingress by ingress and rule
/// by rule. An ingress without a rule set and a rule without a host give no
/// hostname: they are passed over and reported, and the rest is still read.
pub fn collect_hostnames(ingresses: &Vec<Ingress>) -> (found: Collected)
    ensures
        host_names(found.hostnames@) == declared_hosts(ingresses@),
        found.skipped@ == skipped_items(ingresses@),
{
    let mut hostnames: Vec<String> = Vec::new();
    let mut skipped: Vec<Skipped> = Vec::new();
    let mut i: usize = 0;
    proof {
        assert(host_names(hostnames@) =~= declared_hosts(ingresses@.take(0)));
        assert(skipped@ =~= skipped_items(ingresses@.take(0)));
    }
    while i < ingresses.len()
        invariant
            i <= ingresses.len(),
            host_names(hostnames@) == declared_hosts(ingresses@.take(i as int)),
            skipped@ == skipped_items(ingresses@.take(i as int)),
        decreases ingresses.len() - i,
    {
        proof {
            lemma_declared_hosts_step(ingresses@, i as int);
            lemma_skipped_items_step(ingresses@, i as int);
        }
        match &ingresses[i].rules {
            Some(rules) => {
                collect_rule_hosts(rules, i, &mut hostnames, &mut skipped);
            },
            None => {
                let ghost before = host_names(hostnames@);
                skipped.push(Skipped::NoRules { ingress: i });
                assert(before + Seq::<Seq<char>>::empty() =~= before);
            },
        }
        i += 1;
    }
    assert(ingresses@.take(ingresses.len() as int) =~= ingresses@);
    Collected { hostnames, skipped }
}

} // verus!
