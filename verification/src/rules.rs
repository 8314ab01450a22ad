//! Exploration rule sets of the join-order optimizer.

use vstd::prelude::*;

verus! {

/// A transformation rule the optimizer may explore.
#[derive(Clone, Copy, Debug, PartialEq, Eq, Structural)]
pub enum RuleID {
    CommuteJoin,
    LeftAssociateJoin,
    RightAssociateJoin,
}

/// Why a rule set could not be built.
#[derive(Clone, Copy, Debug, PartialEq, Eq, Structural)]
pub enum RuleSetError {
    DuplicateRule,
}

/// An ordered set of distinct exploration rules.
#[derive(Debug)]
pub struct RuleSet {
    pub rules: Vec<RuleID>,
}

impl RuleSet {
    /// `id` occurs among the rules.
    pub open spec fn spec_contains(self, id: RuleID) -> bool {
        exists|i: int| 0 <= i < self.rules@.len() && self.rules@[i] == id
    }

    /// Builds a rule set from `ids`, in order; duplicates are rejected.
    pub fn create_with_ids(ids: Vec<RuleID>) -> (r: Result<RuleSet, RuleSetError>)
        ensures
            match r {
                Ok(rs) => {
                    &&& rs.rules@ == ids@
                    &&& forall|i: int, j: int| 0 <= i < j < ids@.len() ==> ids@[i] != ids@[j]
                },
                Err(e) => {
                    &&& e == RuleSetError::DuplicateRule
                    &&& exists|i: int, j: int| 0 <= i < j < ids@.len() && ids@[i] == ids@[j]
                },
            },
    {
        let n = ids.len();
        let mut i: usize = 0;
        while i < n
            invariant
                n == ids@.len(),
                0 <= i <= n,
                forall|a: int, b: int| 0 <= a < b < i ==> ids@[a] != ids@[b],
            decreases n - i,
        {
            let mut j: usize = 0;
            while j < i
                invariant
                    n == ids@.len(),
                    0 <= j <= i < n,
                    forall|b: int| 0 <= b < j ==> ids@[b] != ids@[i as int],
                decreases i - j,
            {
                if ids[j] == ids[i] {
                    assert(ids@[j as int] == ids@[i as int]);
                    return Err(RuleSetError::DuplicateRule);
                }
                j = j + 1;
            }
            i = i + 1;
        }
        Ok(RuleSet { rules: ids })
    }

    /// How many rules the set holds.
    pub fn len(&self) -> (r: usize)
        ensures
            r == self.rules@.len(),
    {
        self.rules.len()
    }

    /// Whether the set holds `id`.
    pub fn contains(&self, id: RuleID) -> (r: bool)
        ensures
            r == self.spec_contains(id),
    {
        let mut i: usize = 0;
        while i < self.rules.len()
            invariant
                0 <= i <= self.rules@.len(),
                forall|k: int| 0 <= k < i ==> self.rules@[k] != id,
            decreases self.rules@.len() - i,
        {
            if self.rules[i] == id {
                assert(self.rules@[i as int] == id);
                return true;
            }
            i = i + 1;
        }
        false
    }
}

/// The rule set the cascades explorer starts from: the join commutation
/// and the two join re-association rules, each once.
pub fn get_explore_rule_set() -> (r: RuleSet)
    ensures
        r.rules@ == seq![
            RuleID::CommuteJoin,
            RuleID::LeftAssociateJoin,
            RuleID::RightAssociateJoin,
        ],
{
    let mut ids: Vec<RuleID> = Vec::new();
    ids.push(RuleID::CommuteJoin);
    ids.push(RuleID::LeftAssociateJoin);
    ids.push(RuleID::RightAssociateJoin);
    proof {
        assert(ids@ =~= seq![
            RuleID::CommuteJoin,
            RuleID::LeftAssociateJoin,
            RuleID::RightAssociateJoin,
        ]);
    }
    match RuleSet::create_with_ids(ids) {
        Ok(rs) => rs,
        Err(_) => {
            proof {
                assert(false);
            }
            RuleSet { rules: Vec::new() }
        },
    }
}

} // verus!
