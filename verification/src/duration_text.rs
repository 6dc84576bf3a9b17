//! The elapsed-time annotation of the report: a rendered duration,
//! cut after its second word ("1y 5mon 3d 18h 0m 0s 0ms" shows as
//! "1y 5mon ").

use vstd::prelude::*;
use vstd::string::StringExecFns;

verus! {

/// The text `human_duration` renders for a span of whole seconds.
pub uninterp spec fn human_duration_text(secs: nat) -> Seq<char>;

/// Relies on human_duration::human_duration: renders a duration as
/// words like "2h 30m 0s 0ms"; the result is a function of the
/// duration alone.
#[verifier::external_body]
fn human_duration_chars(secs: u64) -> (r: Vec<char>)
    ensures
        r@ == human_duration_text(secs as nat),
{
    human_duration::human_duration(&std::time::Duration::from_secs(secs)).chars().collect()
}

/// Relies on String's FromIterator: collecting characters yields the
/// string of exactly those characters.
#[verifier::external_body]
fn string_from_chars(v: &Vec<char>) -> (r: String)
    ensures
        r@ == v@,
{
    v.iter().collect()
}

/// Index of the first space of `s`, or its length if `s` has none.
pub open spec fn space_within(s: Seq<char>) -> int
    decreases s.len(),
{
    if s.len() == 0 {
        0
    } else if s[0] == ' ' {
        0
    } else {
        1 + space_within(s.drop_first())
    }
}

/// The first space lies between zero and the length.
proof fn lemma_space_within_range(s: Seq<char>)
    ensures
        0 <= space_within(s) <= s.len(),
    decreases s.len(),
{
    if s.len() > 0 && s[0] != ' ' {
        lemma_space_within_range(s.drop_first());
    }
}

/// `s` cut after its second word: everything from the third word on is
/// dropped, the space after the second word kept; with fewer than two
/// spaces `s` stays whole.
pub open spec fn keep_two_words(s: Seq<char>) -> Seq<char> {
    let i1 = space_within(s);
    if i1 >= s.len() {
        s
    } else {
        let i2 = space_within(s.skip(i1 + 1));
        if i1 + 1 + i2 >= s.len() {
            s
        } else {
            s.take(i1 + 1 + i2 + 1)
        }
    }
}

/// Index of the first space at or after `start`, or the length if the
/// tail has none.
#[verifier::loop_isolation(false)]
fn first_space_at(v: &Vec<char>, start: usize) -> (idx: usize)
    requires
        start <= v@.len(),
    ensures
        start <= idx <= v@.len(),
        idx - start == space_within(v@.skip(start as int)),
{
    let mut i: usize = start;
    while i < v.len()
        invariant
            start <= i <= v@.len(),
            space_within(v@.skip(start as int)) == i - start + space_within(v@.skip(i as int)),
        decreases v@.len() - i,
    {
        if v[i] == ' ' {
            proof {
                assert(v@.skip(i as int)[0] == v@[i as int]);
            }
            return i;
        }
        proof {
            assert(v@.skip(i as int)[0] == v@[i as int]);
            assert(v@.skip(i as int).drop_first() =~= v@.skip(i + 1));
        }
        i = i + 1;
    }
    proof {
        assert(v@.skip(i as int) =~= Seq::<char>::empty());
    }
    i
}

/// The elapsed-time phrase of the report: the rendered duration of
/// `secs` seconds, cut after its second word.
pub fn human_readable_duration(secs: u64) -> (r: String)
    ensures
        r@ == keep_two_words(human_duration_text(secs as nat)),
{
    let chars = human_duration_chars(secs);
    let i1 = first_space_at(&chars, 0);
    proof {
        assert(chars@.skip(0) =~= chars@);
    }
    if i1 >= chars.len() {
        return string_from_chars(&chars);
    }
    let i2 = first_space_at(&chars, i1 + 1);
    if i2 >= chars.len() {
        return string_from_chars(&chars);
    }
    let mut cut = chars;
    cut.truncate(i2 + 1);
    proof {
        assert(cut@ =~= keep_two_words(human_duration_text(secs as nat)));
    }
    string_from_chars(&cut)
}

} // verus!
