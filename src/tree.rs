//! The rule tree of a rule set: for each direction, the rules ordered from
//! the most preferred down, built once per rule set and walked until the
//! first rule that accepts the frame.
use vstd::prelude::*;
use crate::rule::{Rule, RuleModel, Direction};
use crate::ruleset::{
    rules_valid, outranks, outranks_exec, prefix_clash, rule_models, rule_walk, best_match,
};

verus! {

/// Rule `x` stands somewhere in `order`.
pub open spec fn listed(order: Seq<usize>, x: int) -> bool {
    exists|a: int| 0 <= a < order.len() && #[trigger] order[a] == x
}

/// `order` lists each of the `n` rules once, most preferred first.
pub open spec fn ranked(order: Seq<usize>, rs: Seq<RuleModel>, dir: Direction) -> bool {
    &&& order.len() == rs.len()
    &&& forall|a: int| 0 <= a < order.len() ==> (#[trigger] order[a]) < rs.len()
    &&& forall|x: int| 0 <= x < rs.len() ==> #[trigger] listed(order, x)
    &&& forall|a: int, b: int|
        0 <= a < b < order.len() ==> outranks(rs[#[trigger] order[a] as int], rs[#[trigger] order[b] as int], dir)
}

/// Of two distinct rules of a valid set, one is preferred to the other.
pub proof fn lemma_outranks_total(rs: Seq<RuleModel>, i: int, j: int, dir: Direction)
    requires
        rules_valid(rs),
        0 <= i < rs.len(),
        0 <= j < rs.len(),
        i != j,
    ensures
        outranks(rs[i], rs[j], dir) || outranks(rs[j], rs[i], dir),
{
    if rs[i].id == rs[j].id && rs[i].id_len == rs[j].id_len {
        assert(crate::bits::pow2(0) == 1);
        assert((rs[j].id_len - rs[i].id_len) as nat == 0);
        assert(rs[j].id / 1 == rs[j].id);
        assert(prefix_clash(rs[i], rs[j]));
    }
}

/// Inserting rule `k` at the first place whose rule it is preferred to keeps
/// the order ranked over one more rule.
proof fn lemma_insert_ranked(rs: Seq<RuleModel>, order: Seq<usize>, p: int, k: int, dir: Direction)
    requires
        rules_valid(rs),
        0 <= k < rs.len(),
        rs.len() <= usize::MAX,
        order.len() == k,
        0 <= p <= order.len(),
        forall|a: int| 0 <= a < order.len() ==> (#[trigger] order[a]) < k,
        forall|x: int| 0 <= x < k ==> #[trigger] listed(order, x),
        forall|a: int, b: int|
            0 <= a < b < order.len() ==> outranks(rs[#[trigger] order[a] as int], rs[#[trigger] order[b] as int], dir),
        forall|a: int| 0 <= a < p ==> !outranks(rs[k], rs[#[trigger] order[a] as int], dir),
        p < order.len() ==> outranks(rs[k], rs[order[p] as int], dir),
    ensures
        ({
            let o = order.insert(p, k as usize);
            &&& forall|a: int| 0 <= a < o.len() ==> (#[trigger] o[a]) < k + 1
            &&& forall|x: int| 0 <= x < k + 1 ==> #[trigger] listed(o, x)
            &&& forall|a: int, b: int|
                0 <= a < b < o.len() ==> outranks(rs[#[trigger] o[a] as int], rs[#[trigger] o[b] as int], dir)
        }),
{
    let o = order.insert(p, k as usize);
    assert forall|a: int| 0 <= a < p implies outranks(rs[#[trigger] order[a] as int], rs[k], dir) by {
        lemma_outranks_total(rs, order[a] as int, k, dir);
    }
    assert forall|b: int| p <= b < order.len() implies outranks(rs[k], rs[#[trigger] order[b] as int], dir) by {
        if b > p {
            assert(outranks(rs[order[p] as int], rs[order[b] as int], dir));
            crate::ruleset::lemma_outranks_transitive(rs[k], rs[order[p] as int], rs[order[b] as int], dir);
        }
    }
    assert forall|a: int| 0 <= a < o.len() implies (#[trigger] o[a]) < k + 1 by {
        if a < p {
            assert(o[a] == order[a]);
        } else if a > p {
            assert(o[a] == order[a - 1]);
        }
    }
    assert forall|x: int| 0 <= x < k + 1 implies #[trigger] listed(o, x) by {
        if x == k {
            assert(o[p] == k as usize);
            assert(o[p] as int == x);
        } else {
            assert(listed(order, x));
            let a0 = choose|a: int| 0 <= a < order.len() && #[trigger] order[a] == x;
            if a0 < p {
                assert(o[a0] == x);
            } else {
                assert(o[a0 + 1] == x);
            }
        }
    }
    assert forall|a: int, b: int| 0 <= a < b < o.len() implies outranks(rs[#[trigger] o[a] as int], rs[#[trigger] o[b] as int], dir) by {
        if a < p && b < p {
            assert(o[a] == order[a] && o[b] == order[b]);
        } else if a < p && b == p {
            assert(o[a] == order[a]);
        } else if a < p && b > p {
            assert(o[a] == order[a] && o[b] == order[b - 1]);
        } else if a == p {
            assert(o[b] == order[b - 1]);
        } else {
            assert(o[a] == order[a - 1] && o[b] == order[b - 1]);
        }
    }
}

/// Orders the rules of a valid set from the most preferred down.
pub fn rank_rules(rules: &Vec<Rule>, dir: Direction) -> (order: Vec<usize>)
    requires
        rules_valid(rule_models(rules@)),
    ensures
        ranked(order@, rule_models(rules@), dir),
{
    let ghost rs = rule_models(rules@);
    let mut order: Vec<usize> = Vec::new();
    let mut k: usize = 0;
    while k < rules.len()
        invariant
            k <= rules.len(),
            rs == rule_models(rules@),
            rules_valid(rs),
            order.len() == k,
            forall|a: int| 0 <= a < order.len() ==> (#[trigger] order@[a]) < k,
            forall|x: int| 0 <= x < k ==> #[trigger] listed(order@, x),
            forall|a: int, b: int|
                0 <= a < b < order.len() ==> outranks(rs[#[trigger] order@[a] as int], rs[#[trigger] order@[b] as int], dir),
        decreases rules.len() - k,
    {
        let mut p: usize = 0;
        let mut found = false;
        while p < order.len() && !found
            invariant
                p <= order.len(),
                k < rules.len(),
                rs == rule_models(rules@),
                forall|a: int| 0 <= a < order.len() ==> (#[trigger] order@[a]) < k,
                forall|a: int| 0 <= a < p ==> !outranks(rs[k as int], rs[#[trigger] order@[a] as int], dir),
                found ==> p < order.len() && outranks(rs[k as int], rs[order@[p as int] as int], dir),
            decreases order.len() - p + if found { 0int } else { 1int },
        {
            proof {
                assert(rs[k as int] == rules@[k as int]@);
                assert(rs[order@[p as int] as int] == rules@[order@[p as int] as int]@);
            }
            if outranks_exec(&rules[k], &rules[order[p]], dir) {
                found = true;
            } else {
                p = p + 1;
            }
        }
        let ghost before = order@;
        proof {
            lemma_insert_ranked(rs, before, p as int, k as int, dir);
        }
        order.insert(p, k);
        proof {
            assert(order@ == before.insert(p as int, (k as int) as usize));
        }
        k = k + 1;
    }
    order
}

/// In a ranked order, the first rule that accepts the frame is the
/// preferred accepting rule.
pub proof fn lemma_first_accepting_is_best(order: Seq<usize>, rs: Seq<RuleModel>, dir: Direction, frame: Seq<bool>, a: int)
    requires
        rules_valid(rs),
        ranked(order, rs, dir),
        0 <= a < order.len(),
        rule_walk(rs[order[a] as int], dir, frame) is Ok,
        forall|b: int| 0 <= b < a ==> rule_walk(rs[#[trigger] order[b] as int], dir, frame) is Err,
    ensures
        best_match(rs, dir, frame, rs.len()) == Some(order[a] as nat),
{
    crate::ruleset::lemma_best_match_bound(rs, dir, frame, rs.len());
    crate::ruleset::law_best_match_is_best(rs, dir, frame);
    let i = best_match(rs, dir, frame, rs.len())->Some_0 as int;
    assert(listed(order, i));
    let b = choose|b: int| 0 <= b < order.len() && #[trigger] order[b] == i;
    if b != a {
        assert(b > a);
        assert(outranks(rs[order[a] as int], rs[order[b] as int], dir));
    }
}

} // verus!
