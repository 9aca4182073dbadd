use vstd::prelude::*;
use crate::decision::Decision;
use crate::identifier::Identifier;

verus! {

/// The set of names held by a list of strings.
pub open spec fn names_of(v: Seq<String>) -> Set<Seq<char>> {
    v.map_values(|s: String| s@).to_set()
}

/// The policy that a sequence of (source, destinations) records builds, a
/// later record of a source replacing an earlier one.
pub open spec fn policy_of(entries: Seq<(Seq<char>, Set<Seq<char>>)>) -> Map<
    Seq<char>,
    Set<Seq<char>>,
>
    decreases entries.len(),
{
    if entries.len() == 0 {
        Map::empty()
    } else {
        policy_of(entries.drop_last()).insert(entries.last().0, entries.last().1)
    }
}

/// What a policy decides for a call from `source` to `destination`.
pub open spec fn evaluate(
    policy: Map<Seq<char>, Set<Seq<char>>>,
    source: Seq<char>,
    destination: Seq<char>,
) -> Decision {
    if !policy.contains_key(source) {
        Decision::SOURCE_UNKNOWN
    } else if policy[source].contains(destination) {
        Decision::ALLOW
    } else {
        Decision::DISALLOWED_DESTINATION
    }
}

/// A call is allowed exactly when its source is a key of the policy and the
/// destination is in the source's set; it is `SOURCE_UNKNOWN` exactly when
/// the source is no key; otherwise it is `DISALLOWED_DESTINATION`.
pub proof fn lemma_evaluate_cases(
    policy: Map<Seq<char>, Set<Seq<char>>>,
    source: Seq<char>,
    destination: Seq<char>,
)
    ensures
        (evaluate(policy, source, destination) == Decision::ALLOW) <==> (policy.contains_key(source)
            && policy[source].contains(destination)),
        (evaluate(policy, source, destination) == Decision::SOURCE_UNKNOWN) <==> !policy.contains_key(
            source,
        ),
        (evaluate(policy, source, destination) == Decision::DISALLOWED_DESTINATION) <==> (
        policy.contains_key(source) && !policy[source].contains(destination)),
        evaluate(policy, source, destination) != Decision::MALFORMED_MESSAGE,
{
}

/// The record of a loaded rule list: a source name and its destinations.
pub open spec fn record_of(e: (String, Vec<String>)) -> (Seq<char>, Set<Seq<char>>) {
    (e.0@, names_of(e.1@))
}

/// What a loaded rule list stands for, record by record.
pub open spec fn records_of(rules: Seq<(String, Vec<String>)>) -> Seq<(Seq<char>, Set<Seq<char>>)> {
    rules.map_values(|e: (String, Vec<String>)| record_of(e))
}

pub open spec fn keys_unique(entries: Seq<(Seq<char>, Set<Seq<char>>)>) -> bool {
    forall|i: int, j: int|
        0 <= i < j < entries.len() ==> #[trigger] entries[i].0 != #[trigger] entries[j].0
}

/// The destinations that one source may call.
#[derive(Debug)]
struct Rule {
    source: String,
    destinations: Vec<String>,
}

spec fn rule_entry(r: Rule) -> (Seq<char>, Set<Seq<char>>) {
    (r.source@, names_of(r.destinations@))
}

/// An immutable policy store: each source name maps to the set of
/// destination names it may call. It offers no way to change it once built,
/// so it may be shared for reading without a lock.
#[derive(Debug)]
pub struct RulesDatabase {
    rules: Vec<Rule>,
}

impl View for RulesDatabase {
    type V = Map<Seq<char>, Set<Seq<char>>>;

    closed spec fn view(&self) -> Self::V {
        policy_of(self.entries())
    }
}

proof fn lemma_lookup(entries: Seq<(Seq<char>, Set<Seq<char>>)>, k: Seq<char>)
    requires
        keys_unique(entries),
    ensures
        forall|i: int|
            0 <= i < entries.len() && #[trigger] entries[i].0 == k ==> policy_of(entries).contains_key(
                k,
            ) && policy_of(entries)[k] == entries[i].1,
        (forall|i: int| 0 <= i < entries.len() ==> #[trigger] entries[i].0 != k) ==> !policy_of(
            entries,
        ).contains_key(k),
    decreases entries.len(),
{
    if entries.len() > 0 {
        let prefix = entries.drop_last();
        assert(keys_unique(prefix)) by {
            assert forall|i: int, j: int| 0 <= i < j < prefix.len() implies #[trigger] prefix[i].0
                != #[trigger] prefix[j].0 by {
                assert(prefix[i] == entries[i] && prefix[j] == entries[j]);
            }
        }
        lemma_lookup(prefix, k);
        assert forall|i: int|
            0 <= i < entries.len() && #[trigger] entries[i].0 == k implies policy_of(
                entries,
            ).contains_key(k) && policy_of(entries)[k] == entries[i].1 by {
            if i < entries.len() - 1 {
                assert(prefix[i] == entries[i]);
                assert(entries[i].0 != entries[entries.len() - 1].0);
            }
        }
        if forall|i: int| 0 <= i < entries.len() ==> #[trigger] entries[i].0 != k {
            assert forall|i: int| 0 <= i < prefix.len() implies #[trigger] prefix[i].0 != k by {
                assert(prefix[i] == entries[i]);
            }
        }
    }
}

proof fn lemma_replace(entries: Seq<(Seq<char>, Set<Seq<char>>)>, j: int, v: Set<Seq<char>>)
    requires
        0 <= j < entries.len(),
        keys_unique(entries),
    ensures
        policy_of(entries.update(j, (entries[j].0, v))) == policy_of(entries).insert(
            entries[j].0,
            v,
        ),
    decreases entries.len(),
{
    let upd = entries.update(j, (entries[j].0, v));
    let k = entries[j].0;
    if j == entries.len() - 1 {
        assert(upd.drop_last() =~= entries.drop_last());
        assert(policy_of(upd) =~= policy_of(entries).insert(k, v));
    } else {
        let prefix = entries.drop_last();
        assert(upd.drop_last() =~= prefix.update(j, (prefix[j].0, v)));
        assert(keys_unique(prefix)) by {
            assert forall|a: int, b: int| 0 <= a < b < prefix.len() implies #[trigger] prefix[a].0
                != #[trigger] prefix[b].0 by {
                assert(prefix[a] == entries[a] && prefix[b] == entries[b]);
            }
        }
        lemma_replace(prefix, j, v);
        assert(upd.last() == entries.last());
        assert(entries[j].0 != entries[entries.len() - 1].0);
        assert(policy_of(upd) =~= policy_of(entries).insert(k, v));
    }
}

impl RulesDatabase {
    closed spec fn entries(&self) -> Seq<(Seq<char>, Set<Seq<char>>)> {
        self.rules@.map_values(|r: Rule| rule_entry(r))
    }

    /// Each source name is held by one rule only.
    pub closed spec fn wf(&self) -> bool {
        keys_unique(self.entries())
    }

    /// Builds the store from (source, destinations) records in order; where a
    /// source comes more than once, its last record replaces the earlier ones.
    pub fn new(records: Vec<(String, Vec<String>)>) -> (r: RulesDatabase)
        ensures
            r.wf(),
            r@ == policy_of(records_of(records@)),
    {
        let mut rules: Vec<Rule> = Vec::new();
        let mut records = records;
        let ghost all = records@;
        let ghost mut done: Seq<(String, Vec<String>)> = Seq::empty();
        while records.len() > 0
            invariant
                done.len() + records@.len() == all.len(),
                done =~= all.take(done.len() as int),
                records@ =~= all.skip(done.len() as int),
                keys_unique(rules@.map_values(|r: Rule| rule_entry(r))),
                policy_of(rules@.map_values(|r: Rule| rule_entry(r))) == policy_of(
                    records_of(done),
                ),
            decreases records.len(),
        {
            let item = records.remove(0);
            let ghost e = item;
            let ghost old_rules = rules@;
            let ghost entries = old_rules.map_values(|r: Rule| rule_entry(r));
            let (source, destinations) = item;
            let mut found: usize = rules.len();
            let mut j: usize = 0;
            while j < rules.len()
                invariant
                    0 <= j <= rules.len(),
                    rules@ == old_rules,
                    found <= rules.len(),
                    found < rules.len() ==> rules@[found as int].source@ == source@,
                    found == rules.len() ==> forall|i: int|
                        0 <= i < j ==> #[trigger] rules@[i].source@ != source@,
                decreases rules.len() - j,
            {
                if found == rules.len() && rules[j].source == source {
                    found = j;
                }
                j = j + 1;
            }
            proof {
                assert(records_of(done.push(e)).drop_last() =~= records_of(done));
                assert(records_of(done.push(e)).last() == record_of(e));
                assert(all[done.len() as int] == e);
                assert(done.push(e) =~= all.take(done.len() + 1 as int));
            }
            if found < rules.len() {
                let rule = Rule { source, destinations };
                let ghost k = rule_entry(rule);
                rules.set(found, rule);
                proof {
                    assert(rules@.map_values(|r: Rule| rule_entry(r)) =~= entries.update(
                        found as int,
                        (entries[found as int].0, k.1),
                    ));
                    lemma_replace(entries, found as int, k.1);
                    assert(keys_unique(rules@.map_values(|r: Rule| rule_entry(r)))) by {
                        let es = rules@.map_values(|r: Rule| rule_entry(r));
                        assert forall|a: int, b: int| 0 <= a < b < es.len() implies #[trigger] es[a].0
                            != #[trigger] es[b].0 by {
                            assert(es[a].0 == entries[a].0 && es[b].0 == entries[b].0);
                        }
                    }
                }
            } else {
                let rule = Rule { source, destinations };
                rules.push(rule);
                proof {
                    let es = rules@.map_values(|r: Rule| rule_entry(r));
                    assert(es.drop_last() =~= entries);
                    assert forall|a: int, b: int| 0 <= a < b < es.len() implies #[trigger] es[a].0
                        != #[trigger] es[b].0 by {
                        if b == es.len() - 1 {
                            assert(es[a] == rule_entry(old_rules[a]));
                        } else {
                            assert(es[a] == entries[a] && es[b] == entries[b]);
                        }
                    }
                }
            }
            proof {
                done = done.push(e);
            }
        }
        proof {
            assert(done =~= all);
        }
        RulesDatabase { rules }
    }

    /// The decision for a call from `from` to `to`; only the names count.
    pub fn is_call_allowed(&self, from: &Identifier, to: &Identifier) -> (r: Decision)
        requires
            self.wf(),
        ensures
            r == evaluate(self@, from.spec_name(), to.spec_name()),
    {
        let source = from.name_string();
        let destination = to.name_string();
        let ghost entries = self.entries();
        let mut i: usize = 0;
        while i < self.rules.len()
            invariant
                0 <= i <= self.rules.len(),
                entries == self.entries(),
                keys_unique(entries),
                source@ == from.spec_name(),
                destination@ == to.spec_name(),
                forall|a: int| 0 <= a < i ==> #[trigger] self.rules@[a].source@ != source@,
            decreases self.rules.len() - i,
        {
            let rule = &self.rules[i];
            if rule.source == *source {
                assert(entries[i as int] == rule_entry(self.rules@[i as int]));
                assert(entries[i as int].0 == source@);
                proof {
                    lemma_lookup(entries, source@);
                }
                assert(self@[source@] == names_of(rule.destinations@));
                let mut j: usize = 0;
                while j < rule.destinations.len()
                    invariant
                        0 <= j <= rule.destinations.len(),
                        self@.contains_key(source@),
                        source@ == from.spec_name(),
                        destination@ == to.spec_name(),
                        self@[source@] == names_of(rule.destinations@),
                        forall|b: int|
                            0 <= b < j ==> #[trigger] rule.destinations@[b]@ != destination@,
                    decreases rule.destinations.len() - j,
                {
                    if rule.destinations[j] == *destination {
                        proof {
                            let names = rule.destinations@.map_values(|s: String| s@);
                            assert(names[j as int] == destination@);
                            assert(names.to_set().contains(destination@));
                        }
                        return Decision::ALLOW;
                    }
                    j = j + 1;
                }
                proof {
                    let names = rule.destinations@.map_values(|s: String| s@);
                    assert(!names.contains(destination@));
                    assert(!names.to_set().contains(destination@));
                }
                return Decision::DISALLOWED_DESTINATION;
            }
            i = i + 1;
        }
        proof {
            lemma_lookup(entries, source@);
            assert forall|a: int| 0 <= a < entries.len() implies #[trigger] entries[a].0
                != source@ by {
                assert(entries[a].0 == self.rules@[a].source@);
            }
        }
        Decision::SOURCE_UNKNOWN
    }
}

} // verus!
