//! Character classes and the ordered rule table that dispatches on them.

use vstd::prelude::*;

verus! {

/// A set of characters given as inclusive ranges.
pub struct CharClass {
    pub ranges: Vec<(char, char)>,
}

impl CharClass {
    /// Whether `c` falls in one of the class's ranges.
    pub open spec fn has(&self, c: char) -> bool {
        exists|i: int|
            0 <= i < self.ranges@.len() && self.ranges@[i].0 <= c && c <= self.ranges@[i].1
    }

    /// Whether `c` belongs to this class.
    pub fn contains(&self, c: char) -> (r: bool)
        ensures
            r == self.has(c),
    {
        let mut i: usize = 0;
        while i < self.ranges.len()
            invariant
                i <= self.ranges@.len(),
                forall|j: int|
                    0 <= j < i ==> !(self.ranges@[j].0 <= c && c <= self.ranges@[j].1),
            decreases self.ranges@.len() - i,
        {
            let (lo, hi) = self.ranges[i];
            if lo <= c && c <= hi {
                return true;
            }
            i = i + 1;
        }
        false
    }
}

/// One classification rule: which characters may begin a token of this
/// kind, and which may extend it.
pub struct Rule {
    pub start: CharClass,
    pub cont: CharClass,
}

/// An ordered list of rules; the first rule whose start class accepts a
/// character governs the token that begins there.
pub struct RuleTable {
    pub rules: Vec<Rule>,
}

impl RuleTable {
    /// The index of the first rule, from `i` on, whose start class holds `c`.
    pub open spec fn first_from(&self, c: char, i: int) -> Option<nat>
        decreases self.rules@.len() - i,
    {
        if i < 0 || i >= self.rules@.len() {
            None
        } else if self.rules@[i].start.has(c) {
            Some(i as nat)
        } else {
            self.first_from(c, i + 1)
        }
    }

    /// The index of the rule that governs a token beginning with `c`.
    pub open spec fn first_match(&self, c: char) -> Option<nat> {
        self.first_from(c, 0)
    }

    /// Select the first rule, in table order, whose start class holds `c`.
    pub fn dispatch(&self, c: char) -> (r: Option<usize>)
        ensures
            r is None <==> self.first_match(c) is None,
            r is Some ==> self.first_match(c) == Some(r->0 as nat),
    {
        let mut i: usize = 0;
        while i < self.rules.len()
            invariant
                i <= self.rules@.len(),
                self.first_match(c) == self.first_from(c, i as int),
            decreases self.rules@.len() - i,
        {
            if self.rules[i].start.contains(c) {
                return Some(i);
            }
            i = i + 1;
        }
        None
    }

    /// Dispatch picks the earliest accepting rule: the rule it names holds the
    /// character in its start class, no earlier rule does, and where it names
    /// none, no rule does.
    pub proof fn lemma_first_match(&self, c: char)
        ensures
            match self.first_match(c) {
                Some(i) => i < self.rules@.len() && self.rules@[i as int].start.has(c) && forall|j: int|
                    0 <= j < i ==> !self.rules@[j].start.has(c),
                None => forall|j: int| 0 <= j < self.rules@.len() ==> !self.rules@[j].start.has(c),
            },
    {
        self.lemma_first_from(c, 0);
    }

    proof fn lemma_first_from(&self, c: char, i: int)
        requires
            0 <= i,
        ensures
            match self.first_from(c, i) {
                Some(r) => i <= r < self.rules@.len() && self.rules@[r as int].start.has(c) && forall|j: int|
                    i <= j < r ==> !self.rules@[j].start.has(c),
                None => forall|j: int| i <= j < self.rules@.len() ==> !self.rules@[j].start.has(c),
            },
        decreases self.rules@.len() - i,
    {
        if i < self.rules@.len() && !self.rules@[i].start.has(c) {
            self.lemma_first_from(c, i + 1);
        }
    }

    /// Of two rules that both accept `c` at the start, the later one is never
    /// selected.
    pub proof fn lemma_earlier_rule_wins(&self, c: char, early: int, late: int)
        requires
            0 <= early < late < self.rules@.len(),
            self.rules@[early].start.has(c),
            self.rules@[late].start.has(c),
        ensures
            self.first_match(c) is Some,
            self.first_match(c)->0 <= early,
    {
        self.lemma_first_match(c);
    }
}

} // verus!
