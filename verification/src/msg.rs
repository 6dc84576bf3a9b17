//! The message data model: messages, reactions, and the reaction count
//! that every ranking metric is built on.

use vstd::prelude::*;
use vstd::string::StringExecFns;

verus! {

/// The emoji symbol whose reactions count toward a message's score.
pub open spec fn thumbs_up() -> Seq<char> {
    "\u{1f44d}"@
}

/// The thumbs-up symbol as an executable string.
pub fn thumbs_up_string() -> (s: String)
    ensures
        s@ == thumbs_up(),
{
    String::from_str("\u{1f44d}")
}

/// A reaction emoji; identity is exact match of the name.
#[derive(Clone)]
pub struct Emoji {
    pub name: String,
}

/// One reaction entry: an emoji and how many users reacted with it.
#[derive(Clone)]
pub struct Reaction {
    pub count: u64,
    pub emoji: Emoji,
}

/// One chat message. `id` is an opaque identifier used as the
/// pagination cursor; timestamps are seconds of UTC time;
/// `edited_timestamp` is present exactly when the message was modified
/// after creation.
#[derive(Clone)]
pub struct Message {
    pub id: String,
    pub content: String,
    pub reactions: Vec<Reaction>,
    pub timestamp: u64,
    pub edited_timestamp: Option<u64>,
}

/// What one reaction entry contributes to a message's reaction count:
/// its `count` if its emoji is the thumbs-up symbol, nothing otherwise.
pub open spec fn reaction_contribution(r: Reaction) -> nat {
    if r.emoji.name@ == thumbs_up() {
        r.count as nat
    } else {
        0
    }
}

/// Sum of the contributions of a sequence of reactions.
pub open spec fn reactions_sum(s: Seq<Reaction>) -> nat
    decreases s.len(),
{
    if s.len() == 0 {
        0
    } else {
        reactions_sum(s.drop_last()) + reaction_contribution(s.last())
    }
}

/// A prefix of a reaction sequence never sums to more than the whole.
proof fn lemma_reactions_sum_prefix(s: Seq<Reaction>, j: int)
    requires
        0 <= j <= s.len(),
    ensures
        reactions_sum(s.subrange(0, j)) <= reactions_sum(s),
    decreases s.len() - j,
{
    if j == s.len() {
        assert(s.subrange(0, j) =~= s);
    } else {
        assert(s.subrange(0, j + 1).drop_last() =~= s.subrange(0, j));
        lemma_reactions_sum_prefix(s, j + 1);
    }
}

/// A sequence with no thumbs-up reaction sums to zero.
pub proof fn lemma_no_match_zero_sum(s: Seq<Reaction>)
    requires
        forall|i: int| 0 <= i < s.len() ==> (#[trigger] s[i]).emoji.name@ != thumbs_up(),
    ensures
        reactions_sum(s) == 0,
    decreases s.len(),
{
    if s.len() > 0 {
        lemma_no_match_zero_sum(s.drop_last());
    }
}

impl Message {
    /// The message's reaction count as a mathematical value.
    pub open spec fn spec_reactions_count(self) -> nat {
        reactions_sum(self.reactions@)
    }

    /// Well-formed: the reaction count fits a machine word, so that it
    /// can be computed without overflow.
    pub open spec fn wf(self) -> bool {
        reactions_sum(self.reactions@) <= u64::MAX
    }

    /// The message was never modified after creation.
    pub open spec fn is_unedited(self) -> bool {
        self.edited_timestamp is None
    }

    /// Sum of `count` over the reactions whose emoji is the thumbs-up
    /// symbol; every other reaction is ignored, and a message with only
    /// non-matching reactions counts zero.
    pub fn reactions_count(&self) -> (n: u64)
        requires
            self.wf(),
        ensures
            n as nat == self.spec_reactions_count(),
    {
        let target: String = thumbs_up_string();
        let mut acc: u64 = 0;
        let mut i: usize = 0;
        while i < self.reactions.len()
            invariant
                0 <= i <= self.reactions@.len(),
                self.wf(),
                acc as nat == reactions_sum(self.reactions@.subrange(0, i as int)),
                target@ == thumbs_up(),
            decreases self.reactions@.len() - i,
        {
            proof {
                lemma_reactions_sum_prefix(self.reactions@, i + 1);
                assert(self.reactions@.subrange(0, i + 1).drop_last() =~= self.reactions@.subrange(
                    0,
                    i as int,
                ));
                assert(self.reactions@.subrange(0, i + 1).last() == self.reactions@[i as int]);
            }
            let r = &self.reactions[i];
            if r.emoji.name == target {
                acc = acc + r.count;
            }
            i = i + 1;
        }
        proof {
            assert(self.reactions@.subrange(0, self.reactions@.len() as int) =~= self.reactions@);
        }
        acc
    }

    /// Seconds elapsed between this message's creation and `now`; a
    /// message dated after `now` counts as zero seconds old.
    pub open spec fn spec_elapsed_secs(self, now: u64) -> nat {
        if now >= self.timestamp {
            (now - self.timestamp) as nat
        } else {
            0
        }
    }

    /// Whole hours elapsed since creation.
    pub open spec fn spec_elapsed_hours(self, now: u64) -> nat {
        self.spec_elapsed_secs(now) / 3600
    }

    /// Whole minutes elapsed since creation.
    pub open spec fn spec_elapsed_minutes(self, now: u64) -> nat {
        self.spec_elapsed_secs(now) / 60
    }

    /// Seconds elapsed since creation, floored at zero.
    pub fn elapsed_secs(&self, now: u64) -> (s: u64)
        ensures
            s as nat == self.spec_elapsed_secs(now),
    {
        if now >= self.timestamp {
            now - self.timestamp
        } else {
            0
        }
    }

    /// Whole hours elapsed since creation.
    pub fn elapsed_hours(&self, now: u64) -> (h: u64)
        ensures
            h as nat == self.spec_elapsed_hours(now),
    {
        self.elapsed_secs(now) / 3600
    }

    /// Whole minutes elapsed since creation.
    pub fn elapsed_minutes(&self, now: u64) -> (m: u64)
        ensures
            m as nat == self.spec_elapsed_minutes(now),
    {
        self.elapsed_secs(now) / 60
    }
}

} // verus!
