//! Rule sets: validation, the choice of rule for compression, and the
//! lookup of a rule by its identifier bits for decompression.
use vstd::prelude::*;
use crate::bits::{pow2, lemma_pow2_pos, lemma_pow2_mono};
use crate::rule::{Rule, RuleModel, Direction, specificity, applies};
use crate::codec::{
    HEADER_START, ParseError, SchcError, EncodeState, encode_walk, encode_fields, walked_result,
    lemma_walk_accepts, mo_accepts,
};
use crate::tree::{ranked, rank_rules, lemma_first_accepting_is_best};

verus! {

pub open spec fn rule_models(s: Seq<Rule>) -> Seq<RuleModel> {
    s.map_values(|r: Rule| r@)
}

/// A rule identifier fits its length, and the length is 1 to 16 bits.
pub open spec fn id_fits(r: RuleModel) -> bool {
    1 <= r.id_len <= 16 && r.id < pow2(r.id_len)
}

/// The identifier bits of `a` begin those of `b`: the receiver could not
/// tell them apart.
pub open spec fn prefix_clash(a: RuleModel, b: RuleModel) -> bool {
    a.id_len <= b.id_len && a.id == b.id / pow2((b.id_len - a.id_len) as nat)
}

/// Identifiers fit their lengths and no identifier is a prefix of another
/// (in particular no two rules share identifier and length).
pub open spec fn rules_valid(rs: Seq<RuleModel>) -> bool {
    &&& forall|i: int| 0 <= i < rs.len() ==> id_fits(#[trigger] rs[i])
    &&& forall|i: int, j: int|
        0 <= i < rs.len() && 0 <= j < rs.len() && i != j ==> !prefix_clash(
            #[trigger] rs[i],
            #[trigger] rs[j],
        )
}

pub fn pow2_of(s: u8) -> (r: u64)
    requires
        s <= 32,
    ensures
        r == pow2(s as nat),
{
    let mut r: u64 = 1;
    let mut i: u8 = 0;
    while i < s
        invariant
            i <= s <= 32,
            r == pow2(i as nat),
            r <= 0x1_0000_0000,
        decreases s - i,
    {
        proof {
            lemma_pow2_mono((i + 1) as nat, 32);
            assert(pow2(32) == 0x1_0000_0000) by {
                reveal_with_fuel(pow2, 33);
            }
        }
        r = r * 2;
        i = i + 1;
    }
    r
}

fn id_fits_exec(r: &Rule) -> (b: bool)
    ensures
        b == id_fits(r@),
{
    if r.rule_id_length < 1 || r.rule_id_length > 16 {
        return false;
    }
    (r.rule_id as u64) < pow2_of(r.rule_id_length)
}

pub(crate) fn prefix_clash_exec(a: &Rule, b: &Rule) -> (c: bool)
    ensures
        c == prefix_clash(a@, b@),
{
    if a.rule_id_length > b.rule_id_length {
        return false;
    }
    let d = b.rule_id_length - a.rule_id_length;
    if d > 32 {
        proof {
            lemma_pow2_mono(33, d as nat);
            assert(pow2(33) == 0x2_0000_0000) by {
                reveal_with_fuel(pow2, 34);
            }
        }
        proof {
            vstd::arithmetic::div_mod::lemma_basic_div(
                b.rule_id as int,
                pow2((b.rule_id_length - a.rule_id_length) as nat) as int,
            );
        }
        return a.rule_id == 0;
    }
    proof {
        lemma_pow2_pos(d as nat);
    }
    a.rule_id as u64 == b.rule_id as u64 / pow2_of(d)
}

/// Whether the rules can be used together (see `rules_valid`).
pub fn validate_rules(rules: &Vec<Rule>) -> (r: bool)
    ensures
        r == rules_valid(rule_models(rules@)),
{
    let ghost rs = rule_models(rules@);
    let mut i: usize = 0;
    while i < rules.len()
        invariant
            i <= rules.len(),
            rs == rule_models(rules@),
            forall|k: int| 0 <= k < i ==> id_fits(#[trigger] rs[k]),
            forall|k: int, j: int|
                0 <= k < i && 0 <= j < rules.len() && k != j ==> !prefix_clash(
                    #[trigger] rs[k],
                    #[trigger] rs[j],
                ),
        decreases rules.len() - i,
    {
        proof {
            assert(rs[i as int] == rules@[i as int]@);
        }
        if !id_fits_exec(&rules[i]) {
            return false;
        }
        let mut j: usize = 0;
        while j < rules.len()
            invariant
                i < rules.len(),
                j <= rules.len(),
                rs == rule_models(rules@),
                forall|jj: int|
                    0 <= jj < j && jj != i ==> !prefix_clash(rs[i as int], #[trigger] rs[jj]),
            decreases rules.len() - j,
        {
            proof {
                assert(rs[j as int] == rules@[j as int]@);
            }
            if j != i && prefix_clash_exec(&rules[i], &rules[j]) {
                proof {
                    assert(!rules_valid(rs) ) by {
                        assert(prefix_clash(rs[i as int], rs[j as int]));
                    }
                }
                return false;
            }
            j = j + 1;
        }
        i = i + 1;
    }
    true
}

/// A validated rule set, with its rule tree for each direction.
pub struct RuleSet {
    rules: Vec<Rule>,
    up_order: Vec<usize>,
    down_order: Vec<usize>,
}

impl View for RuleSet {
    type V = Seq<RuleModel>;

    closed spec fn view(&self) -> Seq<RuleModel> {
        rule_models(self.rules@)
    }
}

impl RuleSet {
    pub open spec fn wf(&self) -> bool {
        rules_valid(self@) && self.tree_built()
    }

    /// The rule tree lists the rules of the set in order of preference.
    pub closed spec fn tree_built(&self) -> bool {
        &&& ranked(self.up_order@, self@, Direction::Up)
        &&& ranked(self.down_order@, self@, Direction::Down)
        &&& self.rules.len() <= usize::MAX
    }

    /// Checks and takes a list of rules; fails with `RuleFileInvalid` where
    /// an identifier does not fit its length or is a prefix of another.
    pub fn new(rules: Vec<Rule>) -> (r: Result<RuleSet, SchcError>)
        ensures
            r matches Ok(s) ==> s@ == rule_models(rules@) && s.wf(),
            r is Err <==> !rules_valid(rule_models(rules@)),
            r matches Err(e) ==> e == SchcError::RuleFileInvalid,
    {
        if validate_rules(&rules) {
            let up_order = rank_rules(&rules, Direction::Up);
            let down_order = rank_rules(&rules, Direction::Down);
            Ok(RuleSet { rules, up_order, down_order })
        } else {
            Err(SchcError::RuleFileInvalid)
        }
    }

    pub fn rules(&self) -> (r: &Vec<Rule>)
        ensures
            rule_models(r@) == self@,
    {
        &self.rules
    }

    pub fn len(&self) -> (r: usize)
        ensures
            r == self@.len(),
    {
        self.rules.len()
    }
}

/// The walk of a whole rule over a frame.
pub open spec fn rule_walk(r: RuleModel, dir: Direction, frame: Seq<bool>) -> Result<
    EncodeState,
    SchcError,
> {
    encode_walk(r.fields, dir, frame, r.fields.len())
}

/// `a` is preferred to `b`: more specific, or as specific with a smaller
/// identifier (then a shorter one).
pub open spec fn outranks(a: RuleModel, b: RuleModel, dir: Direction) -> bool {
    let sa = specificity(a.fields, dir);
    let sb = specificity(b.fields, dir);
    sa > sb || (sa == sb && (a.id < b.id || (a.id == b.id && a.id_len < b.id_len)))
}

/// The preferred rule among the first `n` whose walk accepts the frame.
pub open spec fn best_match(rs: Seq<RuleModel>, dir: Direction, frame: Seq<bool>, n: nat) -> Option<
    nat,
>
    decreases n,
{
    if n == 0 {
        None
    } else {
        let b = best_match(rs, dir, frame, (n - 1) as nat);
        if rule_walk(rs[n - 1], dir, frame) is Ok && (b is None || outranks(
            rs[n - 1],
            rs[b->Some_0 as int],
            dir,
        )) {
            Some((n - 1) as nat)
        } else {
            b
        }
    }
}

/// The parser error of the first of the first `n` rules whose walk failed
/// on the frame's layout rather than on a descriptor.
pub open spec fn first_parse_error(rs: Seq<RuleModel>, dir: Direction, frame: Seq<bool>, n: nat) -> Option<
    ParseError,
>
    decreases n,
{
    if n == 0 {
        None
    } else {
        match first_parse_error(rs, dir, frame, (n - 1) as nat) {
            Some(p) => Some(p),
            None => match rule_walk(rs[n - 1], dir, frame) {
                Err(SchcError::Parser(p)) => Some(p),
                _ => None,
            },
        }
    }
}

/// The rule used to compress a frame, by index: the preferred rule whose
/// every descriptor accepts the frame.
pub open spec fn select_rule(rs: Seq<RuleModel>, dir: Direction, frame: Seq<bool>) -> Result<
    nat,
    SchcError,
> {
    if frame.len() < HEADER_START {
        Err(SchcError::Parser(ParseError::BufferUnderrun))
    } else {
        match best_match(rs, dir, frame, rs.len()) {
            Some(i) => Ok(i),
            None => match first_parse_error(rs, dir, frame, rs.len()) {
                Some(p) => Err(SchcError::Parser(p)),
                None => Err(SchcError::NoMatchingRule),
            },
        }
    }
}

pub proof fn lemma_best_match_bound(rs: Seq<RuleModel>, dir: Direction, frame: Seq<bool>, n: nat)
    ensures
        best_match(rs, dir, frame, n) matches Some(i) ==> i < n && rule_walk(rs[i as int], dir, frame) is Ok,
    decreases n,
{
    if n > 0 {
        lemma_best_match_bound(rs, dir, frame, (n - 1) as nat);
    }
}

/// The rule chosen for a frame, with its walk, among the rules of `set`.
pub struct Selected {
    pub index: usize,
    pub walked: crate::codec::Walked,
}

pub(crate) fn outranks_exec(a: &Rule, b: &Rule, dir: Direction) -> (r: bool)
    ensures
        r == outranks(a@, b@, dir),
{
    let sa = a.specificity(dir);
    let sb = b.specificity(dir);
    sa > sb || (sa == sb && (a.rule_id < b.rule_id || (a.rule_id == b.rule_id && a.rule_id_length
        < b.rule_id_length)))
}

impl RuleSet {
    /// The rule to compress `frame` with, and its walk, found by trying every
    /// rule.
    fn scan_select(&self, dir: Direction, frame: &Vec<bool>) -> (r: Result<Selected, SchcError>)
        ensures
            match r {
                Ok(s) => select_rule(self@, dir, frame@) == Ok::<nat, SchcError>(s.index as nat)
                    && s.index < self@.len() && rule_walk(self@[s.index as int], dir, frame@)
                    == walked_result(Ok(s.walked)) && s.walked.end <= frame.len(),
                Err(e) => select_rule(self@, dir, frame@) == Err::<nat, SchcError>(e),
            },
    {
        if frame.len() < HEADER_START {
            return Err(SchcError::Parser(ParseError::BufferUnderrun));
        }
        let ghost rs = self@;
        let mut best: Option<Selected> = None;
        let mut first_err: Option<ParseError> = None;
        let mut i: usize = 0;
        while i < self.rules.len()
            invariant
                i <= self.rules.len(),
                rs == self@,
                frame.len() >= HEADER_START,
                first_err == first_parse_error(rs, dir, frame@, i as nat),
                match best {
                    Some(s) => best_match(rs, dir, frame@, i as nat) == Some(s.index as nat)
                        && s.index < i && rule_walk(rs[s.index as int], dir, frame@)
                        == walked_result(Ok(s.walked)) && s.walked.end <= frame.len(),
                    None => best_match(rs, dir, frame@, i as nat) is None,
                },
            decreases self.rules.len() - i,
        {
            let rule = &self.rules[i];
            proof {
                assert(rs[i as int] == rule@);
            }
            let walked = encode_fields(&rule.fields, dir, frame);
            match walked {
                Ok(w) => {
                    let better = match &best {
                        None => true,
                        Some(s) => outranks_exec(rule, &self.rules[s.index], dir),
                    };
                    if better {
                        best = Some(Selected { index: i, walked: w });
                    }
                },
                Err(e) => {
                    if first_err.is_none() {
                        match e {
                            SchcError::Parser(p) => {
                                first_err = Some(p);
                            },
                            _ => {},
                        }
                    }
                },
            }
            i = i + 1;
        }
        match best {
            Some(s) => Ok(s),
            None => match first_err {
                Some(p) => Err(SchcError::Parser(p)),
                None => Err(SchcError::NoMatchingRule),
            },
        }
    }
}

} // verus!

verus! {

pub proof fn lemma_outranks_transitive(a: RuleModel, b: RuleModel, c: RuleModel, dir: Direction)
    requires
        outranks(a, b, dir),
        outranks(b, c, dir),
    ensures
        outranks(a, c, dir),
{
}

proof fn lemma_best_match_is_best(rs: Seq<RuleModel>, dir: Direction, frame: Seq<bool>, n: nat)
    requires
        n <= rs.len(),
    ensures
        match best_match(rs, dir, frame, n) {
            Some(i) => forall|j: int|
                0 <= j < n && j != i && rule_walk(#[trigger] rs[j], dir, frame) is Ok ==> !outranks(
                    rs[j],
                    rs[i as int],
                    dir,
                ),
            None => forall|j: int| 0 <= j < n ==> rule_walk(#[trigger] rs[j], dir, frame) is Err,
        },
    decreases n,
{
    if n > 0 {
        lemma_best_match_is_best(rs, dir, frame, (n - 1) as nat);
        lemma_best_match_bound(rs, dir, frame, (n - 1) as nat);
        let b = best_match(rs, dir, frame, (n - 1) as nat);
        if let Some(i) = best_match(rs, dir, frame, n) {
            if i == n - 1 {
                if let Some(bi) = b {
                    assert forall|j: int|
                        0 <= j < n && j != i && rule_walk(#[trigger] rs[j], dir, frame) is Ok implies !outranks(
                        rs[j],
                        rs[i as int],
                        dir,
                    ) by {
                        if outranks(rs[j], rs[i as int], dir) {
                            lemma_outranks_transitive(rs[j], rs[i as int], rs[bi as int], dir);
                            if j == bi {
                                assert(!outranks(rs[j], rs[j], dir));
                            }
                        }
                    }
                }
            }
        }
    }
}

/// The rule that compression selects accepts the frame (every descriptor
/// that applies accepts its field), and no other rule that accepts the frame
/// is preferred to it: none is more specific, and none as specific has a
/// smaller identifier.
pub proof fn law_selected_rule_is_best(rs: Seq<RuleModel>, dir: Direction, frame: Seq<bool>)
    requires
        select_rule(rs, dir, frame) is Ok,
    ensures
        ({
            let i = select_rule(rs, dir, frame)->Ok_0;
            let fields = rs[i as int].fields;
            let vals = rule_walk(rs[i as int], dir, frame)->Ok_0.1;
            &&& i < rs.len()
            &&& rule_walk(rs[i as int], dir, frame) is Ok
            &&& forall|k: int|
                0 <= k < fields.len() && applies(fields[k].dir, dir) ==> mo_accepts(
                    #[trigger] fields[k].mo,
                    fields[k].target,
                    vals[k],
                )
            &&& forall|j: int|
                0 <= j < rs.len() && j != i && rule_walk(#[trigger] rs[j], dir, frame) is Ok
                    ==> !outranks(rs[j], rs[i as int], dir)
        }),
{
    let i = select_rule(rs, dir, frame)->Ok_0;
    lemma_best_match_bound(rs, dir, frame, rs.len());
    lemma_walk_accepts(rs[i as int].fields, dir, frame, rs[i as int].fields.len());
    lemma_best_match_bound(rs, dir, frame, rs.len());
    lemma_best_match_is_best(rs, dir, frame, rs.len());
}

/// The preferred accepting rule exists whenever some rule accepts the frame,
/// and no accepting rule is preferred to it.
pub proof fn law_best_match_is_best(rs: Seq<RuleModel>, dir: Direction, frame: Seq<bool>)
    ensures
        match best_match(rs, dir, frame, rs.len()) {
            Some(i) => forall|j: int|
                0 <= j < rs.len() && j != i && rule_walk(#[trigger] rs[j], dir, frame) is Ok ==> !outranks(
                    rs[j],
                    rs[i as int],
                    dir,
                ),
            None => forall|j: int| 0 <= j < rs.len() ==> rule_walk(#[trigger] rs[j], dir, frame) is Err,
        },
{
    lemma_best_match_is_best(rs, dir, frame, rs.len());
}

/// Compression fails only when no rule accepts the frame.
pub proof fn law_select_fails_only_without_match(rs: Seq<RuleModel>, dir: Direction, frame: Seq<bool>)
    requires
        frame.len() >= HEADER_START,
        select_rule(rs, dir, frame) is Err,
    ensures
        forall|j: int| 0 <= j < rs.len() ==> rule_walk(#[trigger] rs[j], dir, frame) is Err,
{
    lemma_best_match_is_best(rs, dir, frame, rs.len());
}

} // verus!

verus! {

impl RuleSet {
    /// The rule to compress `frame` with, and its walk: the rule tree of the
    /// direction is walked until a rule accepts the frame.
    pub fn select(&self, dir: Direction, frame: &Vec<bool>) -> (r: Result<Selected, SchcError>)
        requires
            self.wf(),
        ensures
            match r {
                Ok(s) => select_rule(self@, dir, frame@) == Ok::<nat, SchcError>(s.index as nat)
                    && s.index < self@.len() && rule_walk(self@[s.index as int], dir, frame@)
                    == walked_result(Ok(s.walked)) && s.walked.end <= frame.len(),
                Err(e) => select_rule(self@, dir, frame@) == Err::<nat, SchcError>(e),
            },
    {
        if frame.len() < HEADER_START {
            return Err(SchcError::Parser(ParseError::BufferUnderrun));
        }
        let ghost rs = self@;
        let order = match dir {
            Direction::Up => &self.up_order,
            Direction::Down => &self.down_order,
        };
        proof {
            assert(ranked(order@, rs, dir));
        }
        let mut a: usize = 0;
        while a < order.len()
            invariant
                a <= order.len(),
                rs == self@,
                rs == rule_models(self.rules@),
                rules_valid(rs),
                ranked(order@, rs, dir),
                frame.len() >= HEADER_START,
                forall|b: int| 0 <= b < a ==> rule_walk(rs[#[trigger] order@[b] as int], dir, frame@) is Err,
            decreases order.len() - a,
        {
            let idx = order[a];
            proof {
                assert(rs[idx as int] == self.rules@[idx as int]@);
            }
            match encode_fields(&self.rules[idx].fields, dir, frame) {
                Ok(w) => {
                    proof {
                        lemma_first_accepting_is_best(order@, rs, dir, frame@, a as int);
                    }
                    return Ok(Selected { index: idx, walked: w });
                },
                Err(_) => {},
            }
            a = a + 1;
        }
        self.scan_select(dir, frame)
    }
}

pub open spec fn same_key(a: RuleModel, b: RuleModel) -> bool {
    a.id == b.id && a.id_len == b.id_len
}

/// Rule `r` may join `rs` in place of any rule with its identifier and
/// length: its identifier fits, and it clashes with no other rule.
pub open spec fn can_install(rs: Seq<RuleModel>, r: RuleModel) -> bool {
    &&& id_fits(r)
    &&& forall|j: int|
        0 <= j < rs.len() && !same_key(#[trigger] rs[j], r) ==> !prefix_clash(rs[j], r)
            && !prefix_clash(r, rs[j])
}

/// `after` is `before` with the rule of `r`'s identifier and length, if
/// any, removed, and `r` appended.
pub open spec fn replaced(before: Seq<RuleModel>, r: RuleModel, after: Seq<RuleModel>) -> bool {
    ||| exists|i: int|
        0 <= i < before.len() && same_key(#[trigger] before[i], r) && after == before.remove(i).push(
            r,
        )
    ||| (forall|i: int| 0 <= i < before.len() ==> !same_key(#[trigger] before[i], r)) && after
        == before.push(r)
}

fn same_key_exec(a: &Rule, b: &Rule) -> (r: bool)
    ensures
        r == same_key(a@, b@),
{
    a.rule_id == b.rule_id && a.rule_id_length == b.rule_id_length
}

impl RuleSet {
    /// Adds `rule`, removing the rule with the same identifier and length;
    /// leaves the set unchanged and returns false where the rule's
    /// identifier does not fit or clashes with another rule.
    pub fn install(&mut self, rule: Rule) -> (r: bool)
        requires
            old(self).wf(),
        ensures
            final(self).wf(),
            r == can_install(old(self)@, rule@),
            r ==> replaced(old(self)@, rule@, final(self)@),
            !r ==> final(self)@ == old(self)@,
    {
        let ghost rs = self@;
        if !id_fits_exec(&rule) {
            return false;
        }
        let mut found: Option<usize> = None;
        let mut j: usize = 0;
        while j < self.rules.len()
            invariant
                j <= self.rules.len(),
                rs == self@,
                rs == rule_models(self.rules@),
                *self == *old(self),
                old(self).wf(),
                id_fits(rule@),
                forall|k: int|
                    0 <= k < j && !same_key(#[trigger] rs[k], rule@) ==> !prefix_clash(rs[k], rule@)
                        && !prefix_clash(rule@, rs[k]),
                match found {
                    Some(i) => i < j && same_key(rs[i as int], rule@),
                    None => forall|k: int| 0 <= k < j ==> !same_key(#[trigger] rs[k], rule@),
                },
            decreases self.rules.len() - j,
        {
            proof {
                assert(rs[j as int] == self.rules@[j as int]@);
            }
            if same_key_exec(&self.rules[j], &rule) {
                found = Some(j);
            } else if prefix_clash_exec(&self.rules[j], &rule) || prefix_clash_exec(&rule, &self.rules[j]) {
                return false;
            }
            j = j + 1;
        }
        match found {
            Some(i) => {
                self.rules.remove(i);
                proof {
                    assert(rule_models(self.rules@) =~= rs.remove(i as int));
                }
            },
            None => {},
        }
        let ghost mid = rule_models(self.rules@);
        self.rules.push(rule);
        let ghost after_rules = rule_models(self.rules@);
        proof {
            let after = rule_models(self.rules@);
            assert(after =~= mid.push(rule@));
            assert forall|a: int, b: int|
                0 <= a < rs.len() && 0 <= b < rs.len() && a != b && same_key(rs[a], rule@) implies !same_key(
                rs[b],
                rule@,
            ) by {
                if same_key(rs[b], rule@) {
                    assert(pow2(0) == 1);
                    assert((rs[b].id_len - rs[a].id_len) as nat == 0);
                    assert(rs[b].id / 1 == rs[b].id);
                    assert(prefix_clash(rs[a], rs[b]));
                }
            }
            assert forall|a: int| 0 <= a < after.len() implies id_fits(#[trigger] after[a]) by {
                if a < mid.len() {
                    match found {
                        Some(i) => {
                            if a < i {
                                assert(after[a] == rs[a]);
                            } else {
                                assert(after[a] == rs[a + 1]);
                            }
                        },
                        None => {
                            assert(after[a] == rs[a]);
                        },
                    }
                }
            }
            assert forall|a: int, b: int|
                0 <= a < after.len() && 0 <= b < after.len() && a != b implies !prefix_clash(
                #[trigger] after[a],
                #[trigger] after[b],
            ) by {
                let last = after.len() - 1;
                let oa = match found {
                    Some(i) => if a < i { a } else { a + 1 },
                    None => a,
                };
                let ob = match found {
                    Some(i) => if b < i { b } else { b + 1 },
                    None => b,
                };
                if a != last {
                    assert(after[a] == rs[oa]);
                }
                if b != last {
                    assert(after[b] == rs[ob]);
                }
                if a != last && b != last {
                    assert(oa != ob);
                } else if a == last {
                    assert(!same_key(rs[ob], rule@));
                } else {
                    assert(!same_key(rs[oa], rule@));
                }
            }
            assert(rules_valid(after));
        }
        self.up_order = rank_rules(&self.rules, Direction::Up);
        self.down_order = rank_rules(&self.rules, Direction::Down);
        true
    }
}

} // verus!
