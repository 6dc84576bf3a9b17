//! The Ranker: drops edited messages, orders the rest under the chosen
//! metric, and hands them back best first.

use vstd::prelude::*;
use vstd::seq_lib::group_to_multiset_ensures;
use vstd::seq_lib::lemma_multiset_commutative;
use crate::msg::Message;
use crate::order::{Sort, lemma_msg_le_total, lemma_msg_le_trans, msg_le, spec_msg_le};

verus! {

/// The unedited messages of `s`, in their original order.
pub open spec fn keep_unedited(s: Seq<Message>) -> Seq<Message>
    decreases s.len(),
{
    if s.len() == 0 {
        Seq::empty()
    } else if s.last().is_unedited() {
        keep_unedited(s.drop_last()).push(s.last())
    } else {
        keep_unedited(s.drop_last())
    }
}

/// `m` placed in front of the first element of `s` that is not below
/// it; the rest of `s` keeps its order.
pub open spec fn insert_ordered(m: Message, s: Seq<Message>, now: u64, sort: Sort) -> Seq<Message>
    decreases s.len(),
{
    if s.len() == 0 {
        seq![m]
    } else if spec_msg_le(m, s[0], now, sort) {
        seq![m] + s
    } else {
        seq![s[0]] + insert_ordered(m, s.drop_first(), now, sort)
    }
}

/// Insertion sort of messages, ascending under the metric's order.
pub open spec fn sort_msgs(s: Seq<Message>, now: u64, sort: Sort) -> Seq<Message>
    decreases s.len(),
{
    if s.len() == 0 {
        Seq::empty()
    } else {
        insert_ordered(s.last(), sort_msgs(s.drop_last(), now, sort), now, sort)
    }
}

/// The ranked listing of `s` at instant `now`: its unedited messages,
/// ordered by the metric, best first. The result is a function of the
/// input sequence, the instant and the metric alone, so ranking the
/// same input twice gives the same listing.
pub open spec fn spec_rank(s: Seq<Message>, now: u64, sort: Sort) -> Seq<Message> {
    sort_msgs(keep_unedited(s), now, sort).reverse()
}

/// The position in front of which `m` belongs in the ordered `v`: the
/// index of the first element of `v` not below `m`.
#[verifier::loop_isolation(false)]
fn insert_pos(v: &Vec<Message>, m: &Message, now: u64, sort: Sort) -> (p: usize)
    requires
        m.wf(),
        forall|k: int| 0 <= k < v@.len() ==> (#[trigger] v@[k]).wf(),
    ensures
        0 <= p <= v@.len(),
        forall|k: int| 0 <= k < p ==> !spec_msg_le(*m, #[trigger] v@[k], now, sort),
        p < v@.len() ==> spec_msg_le(*m, v@[p as int], now, sort),
{
    let mut p: usize = 0;
    while p < v.len()
        invariant
            0 <= p <= v@.len(),
            forall|k: int| 0 <= k < p ==> !spec_msg_le(*m, #[trigger] v@[k], now, sort),
        decreases v@.len() - p,
    {
        if msg_le(m, &v[p], now, sort) {
            return p;
        }
        p = p + 1;
    }
    p
}

/// Where `p` is the position `insert_pos` finds, inserting `m` there
/// is exactly what `insert_ordered` does.
proof fn lemma_insert_ordered_at(m: Message, s: Seq<Message>, p: int, now: u64, sort: Sort)
    requires
        0 <= p <= s.len(),
        forall|k: int| 0 <= k < p ==> !spec_msg_le(m, #[trigger] s[k], now, sort),
        p < s.len() ==> spec_msg_le(m, s[p], now, sort),
    ensures
        insert_ordered(m, s, now, sort) == s.insert(p, m),
    decreases s.len(),
{
    if s.len() == 0 {
        assert(insert_ordered(m, s, now, sort) =~= s.insert(p, m));
    } else if p == 0 {
        assert(insert_ordered(m, s, now, sort) =~= s.insert(p, m));
    } else {
        assert(!spec_msg_le(m, s[0], now, sort));
        lemma_insert_ordered_at(m, s.drop_first(), p - 1, now, sort);
        assert(seq![s[0]] + s.drop_first().insert(p - 1, m) =~= s.insert(p, m));
    }
}

/// Drops every edited message and orders the rest under the metric,
/// best first: the result is exactly `spec_rank` of the input.
#[verifier::loop_isolation(false)]
pub fn rank(messages: Vec<Message>, now: u64, sort: Sort) -> (r: Vec<Message>)
    requires
        forall|i: int| 0 <= i < messages@.len() ==> (#[trigger] messages@[i]).wf(),
    ensures
        r@ == spec_rank(messages@, now, sort),
{
    let ghost orig = messages@;
    let mut rest = messages;
    let mut kept: Vec<Message> = Vec::new();
    let ghost i: int = 0;
    while rest.len() > 0
        invariant
            0 <= i <= orig.len(),
            rest@ == orig.subrange(i, orig.len() as int),
            kept@ == keep_unedited(orig.subrange(0, i)),
            forall|k: int| 0 <= k < kept@.len() ==> (#[trigger] kept@[k]).wf(),
        decreases rest@.len(),
    {
        let m = rest.remove(0);
        proof {
            assert(m == orig[i]);
            assert(orig.subrange(i, orig.len() as int).drop_first() =~= orig.subrange(
                i + 1,
                orig.len() as int,
            ));
            assert(orig.subrange(0, i + 1).drop_last() =~= orig.subrange(0, i));
            assert(orig.subrange(0, i + 1).last() == orig[i]);
        }
        if m.edited_timestamp.is_none() {
            kept.push(m);
        }
        proof {
            i = i + 1;
        }
    }
    proof {
        assert(orig.subrange(0, orig.len() as int) =~= orig);
    }
    let ghost base = kept@;
    let mut rest2 = kept;
    let mut sorted: Vec<Message> = Vec::new();
    let ghost j: int = 0;
    while rest2.len() > 0
        invariant
            0 <= j <= base.len(),
            rest2@ == base.subrange(j, base.len() as int),
            sorted@ == sort_msgs(base.subrange(0, j), now, sort),
            forall|k: int| 0 <= k < base.len() ==> (#[trigger] base[k]).wf(),
            forall|k: int| 0 <= k < sorted@.len() ==> (#[trigger] sorted@[k]).wf(),
        decreases rest2@.len(),
    {
        let m = rest2.remove(0);
        proof {
            assert(m == base[j]);
            assert(base.subrange(j, base.len() as int).drop_first() =~= base.subrange(
                j + 1,
                base.len() as int,
            ));
        }
        let p = insert_pos(&sorted, &m, now, sort);
        let ghost before = sorted@;
        sorted.insert(p, m);
        proof {
            lemma_insert_ordered_at(m, before, p as int, now, sort);
            assert(base.subrange(0, j + 1).drop_last() =~= base.subrange(0, j));
            assert(base.subrange(0, j + 1).last() == base[j]);
            assert(sorted@ == insert_ordered(m, before, now, sort));
            assert(sorted@ == sort_msgs(base.subrange(0, j + 1), now, sort));
            assert forall|k: int| 0 <= k < sorted@.len() implies (#[trigger] sorted@[k]).wf() by {
                before.insert_ensures(p as int, m);
                if k < p {
                    assert(sorted@[k] == before[k]);
                } else if k == p {
                    assert(sorted@[k] == m);
                } else {
                    assert(sorted@[k] == before[k - 1]);
                }
            }
            j = j + 1;
        }
    }
    proof {
        assert(base.subrange(0, base.len() as int) =~= base);
    }
    let ghost ordered = sorted@;
    let mut rest3 = sorted;
    let mut out: Vec<Message> = Vec::new();
    while rest3.len() > 0
        invariant
            rest3@ == ordered.subrange(0, ordered.len() - out@.len()),
            out@.len() <= ordered.len(),
            forall|k: int|
                0 <= k < out@.len() ==> #[trigger] out@[k] == ordered[ordered.len() - 1 - k],
        decreases rest3@.len(),
    {
        let m_opt = rest3.pop();
        let m = m_opt.unwrap();
        out.push(m);
    }
    proof {
        assert(out@ =~= ordered.reverse());
    }
    out
}

/// Every message the filter keeps is unedited.
proof fn lemma_keep_unedited_all_unedited(s: Seq<Message>)
    ensures
        forall|i: int|
            0 <= i < keep_unedited(s).len() ==> (#[trigger] keep_unedited(s)[i]).is_unedited(),
    decreases s.len(),
{
    if s.len() > 0 {
        lemma_keep_unedited_all_unedited(s.drop_last());
        assert forall|i: int|
            0 <= i < keep_unedited(s).len() implies (#[trigger] keep_unedited(
            s,
        )[i]).is_unedited() by {
            if s.last().is_unedited() && i == keep_unedited(s).len() - 1 {
                assert(keep_unedited(s)[i] == s.last());
            } else {
                assert(keep_unedited(s)[i] == keep_unedited(s.drop_last())[i]);
            }
        }
    }
}

/// Inserting a message adds exactly that message to the contents.
proof fn lemma_insert_ordered_multiset(m: Message, s: Seq<Message>, now: u64, sort: Sort)
    ensures
        insert_ordered(m, s, now, sort).to_multiset() == s.to_multiset().insert(m),
    decreases s.len(),
{
    broadcast use group_to_multiset_ensures;
    broadcast use vstd::multiset::group_multiset_axioms;

    if s.len() == 0 {
        assert(seq![m] =~= Seq::<Message>::empty().push(m));
        assert(insert_ordered(m, s, now, sort).to_multiset() =~= s.to_multiset().insert(m));
    } else if spec_msg_le(m, s[0], now, sort) {
        assert(seq![m] + s =~= (Seq::<Message>::empty().push(m)) + s);
        lemma_multiset_commutative(Seq::<Message>::empty().push(m), s);
        assert((seq![m] + s).to_multiset() =~= s.to_multiset().insert(m));
    } else {
        lemma_insert_ordered_multiset(m, s.drop_first(), now, sort);
        let hd = seq![s[0]];
        let tl = insert_ordered(m, s.drop_first(), now, sort);
        lemma_multiset_commutative(hd, tl);
        assert(hd =~= Seq::<Message>::empty().push(s[0]));
        assert(s =~= hd + s.drop_first());
        lemma_multiset_commutative(hd, s.drop_first());
        assert((hd + tl).to_multiset() =~= s.to_multiset().insert(m));
    }
}

/// Sorting rearranges the messages and neither drops nor adds any.
proof fn lemma_sort_msgs_multiset(s: Seq<Message>, now: u64, sort: Sort)
    ensures
        sort_msgs(s, now, sort).to_multiset() == s.to_multiset(),
    decreases s.len(),
{
    broadcast use group_to_multiset_ensures;
    broadcast use vstd::multiset::group_multiset_axioms;

    if s.len() > 0 {
        lemma_sort_msgs_multiset(s.drop_last(), now, sort);
        lemma_insert_ordered_multiset(s.last(), sort_msgs(s.drop_last(), now, sort), now, sort);
        assert(s =~= s.drop_last().push(s.last()));
        assert(sort_msgs(s, now, sort).to_multiset() =~= s.to_multiset());
    }
}

/// The ranked listing holds exactly the unedited messages of the
/// input: it is a permutation of the filtered input, so no unedited
/// message is lost and none is duplicated or invented.
pub proof fn lemma_rank_permutation(s: Seq<Message>, now: u64, sort: Sort)
    ensures
        spec_rank(s, now, sort).to_multiset() == keep_unedited(s).to_multiset(),
{
    let srt = sort_msgs(keep_unedited(s), now, sort);
    srt.lemma_reverse_to_multiset();
    lemma_sort_msgs_multiset(keep_unedited(s), now, sort);
}

/// No edited message ever appears in the ranked listing.
pub proof fn lemma_rank_excludes_edited(s: Seq<Message>, now: u64, sort: Sort)
    ensures
        forall|i: int|
            0 <= i < spec_rank(s, now, sort).len() ==> (#[trigger] spec_rank(s, now, sort)[i]).is_unedited(),
{
    broadcast use group_to_multiset_ensures;

    let kept = keep_unedited(s);
    let srt = sort_msgs(kept, now, sort);
    lemma_sort_msgs_multiset(kept, now, sort);
    lemma_keep_unedited_all_unedited(s);
    assert forall|i: int|
        0 <= i < spec_rank(s, now, sort).len() implies (#[trigger] spec_rank(s, now, sort)[i]).is_unedited() by {
        let x = spec_rank(s, now, sort)[i];
        assert(x == srt[srt.len() - 1 - i]);
        assert(srt.contains(x));
        assert(kept.to_multiset().count(x) > 0);
        assert(kept.contains(x));
        let k = choose|k: int| 0 <= k < kept.len() && kept[k] == x;
        assert(kept[k].is_unedited());
    }
}

/// Whether `s` is ascending under the metric's order, neighbour by
/// neighbour.
pub open spec fn ascending(s: Seq<Message>, now: u64, sort: Sort) -> bool {
    forall|i: int| 0 <= i < s.len() - 1 ==> #[trigger] spec_msg_le(s[i], s[i + 1], now, sort)
}

/// Ordered insertion keeps a sequence ascending.
proof fn lemma_insert_ordered_sorted(m: Message, s: Seq<Message>, now: u64, sort: Sort)
    requires
        ascending(s, now, sort),
    ensures
        ascending(insert_ordered(m, s, now, sort), now, sort),
    decreases s.len(),
{
    let t = insert_ordered(m, s, now, sort);
    if s.len() == 0 {
        assert(ascending(t, now, sort));
    } else if spec_msg_le(m, s[0], now, sort) {
        assert(t == seq![m] + s);
        assert forall|i: int| 0 <= i < t.len() - 1 implies #[trigger] spec_msg_le(
            t[i],
            t[i + 1],
            now,
            sort,
        ) by {
            if i == 0 {
                assert(t[0] == m);
                assert(t[1] == s[0]);
            } else {
                assert(t[i] == s[i - 1]);
                assert(t[i + 1] == s[i]);
                assert(spec_msg_le(s[i - 1], s[i - 1 + 1], now, sort));
            }
        }
    } else {
        lemma_msg_le_total(m, s[0], now, sort);
        let df = s.drop_first();
        assert forall|i: int| 0 <= i < df.len() - 1 implies #[trigger] spec_msg_le(
            df[i],
            df[i + 1],
            now,
            sort,
        ) by {
            assert(df[i] == s[i + 1]);
            assert(df[i + 1] == s[i + 2]);
            assert(spec_msg_le(s[i + 1], s[i + 1 + 1], now, sort));
        }
        lemma_insert_ordered_sorted(m, df, now, sort);
        let tp = insert_ordered(m, df, now, sort);
        assert(t == seq![s[0]] + tp);
        assert forall|i: int| 0 <= i < t.len() - 1 implies #[trigger] spec_msg_le(
            t[i],
            t[i + 1],
            now,
            sort,
        ) by {
            if i == 0 {
                assert(t[0] == s[0]);
                assert(t[1] == tp[0]);
                if df.len() == 0 {
                    assert(tp[0] == m);
                } else if spec_msg_le(m, df[0], now, sort) {
                    assert(tp == seq![m] + df);
                    assert(tp[0] == m);
                } else {
                    assert(tp == seq![df[0]] + insert_ordered(m, df.drop_first(), now, sort));
                    assert(tp[0] == df[0]);
                    assert(df[0] == s[1]);
                    assert(spec_msg_le(s[0int], s[0int + 1], now, sort));
                }
            } else {
                assert(t[i] == tp[i - 1]);
                assert(t[i + 1] == tp[i]);
                assert(spec_msg_le(tp[i - 1], tp[i - 1 + 1], now, sort));
            }
        }
    }
}

/// The insertion sort yields an ascending sequence.
proof fn lemma_sort_msgs_sorted(s: Seq<Message>, now: u64, sort: Sort)
    ensures
        ascending(sort_msgs(s, now, sort), now, sort),
    decreases s.len(),
{
    if s.len() > 0 {
        lemma_sort_msgs_sorted(s.drop_last(), now, sort);
        lemma_insert_ordered_sorted(s.last(), sort_msgs(s.drop_last(), now, sort), now, sort);
    }
}

/// The ranked listing is descending: every message is at least as good,
/// under the chosen metric, as the one listed after it.
pub proof fn lemma_rank_sorted(s: Seq<Message>, now: u64, sort: Sort)
    ensures
        forall|i: int|
            0 <= i < spec_rank(s, now, sort).len() - 1 ==> #[trigger] spec_msg_le(
                spec_rank(s, now, sort)[i + 1],
                spec_rank(s, now, sort)[i],
                now,
                sort,
            ),
{
    let kept = keep_unedited(s);
    let srt = sort_msgs(kept, now, sort);
    let r = spec_rank(s, now, sort);
    lemma_sort_msgs_sorted(kept, now, sort);
    assert forall|i: int| 0 <= i < r.len() - 1 implies #[trigger] spec_msg_le(
        r[i + 1],
        r[i],
        now,
        sort,
    ) by {
        let n = srt.len();
        assert(r[i] == srt[n - 1 - i]);
        assert(r[i + 1] == srt[n - 2 - i]);
        assert(spec_msg_le(srt[n - 2 - i], srt[n - 2 - i + 1], now, sort));
    }
}

/// In an ascending sequence any earlier element is below any later one.
proof fn lemma_ascending_pairwise(s: Seq<Message>, now: u64, sort: Sort, i: int, j: int)
    requires
        ascending(s, now, sort),
        0 <= i <= j < s.len(),
    ensures
        spec_msg_le(s[i], s[j], now, sort),
    decreases j - i,
{
    if i == j {
        lemma_msg_le_total(s[i], s[i], now, sort);
    } else {
        assert(spec_msg_le(s[i], s[i + 1], now, sort));
        lemma_ascending_pairwise(s, now, sort, i + 1, j);
        lemma_msg_le_trans(s[i], s[i + 1], s[j], now, sort);
    }
}

/// The ranked listing is descending between any two positions, not
/// only between neighbours: whatever stands earlier is at least as
/// good, under the chosen metric, as whatever stands later.
pub proof fn lemma_rank_sorted_pairwise(s: Seq<Message>, now: u64, sort: Sort, i: int, j: int)
    requires
        0 <= i <= j < spec_rank(s, now, sort).len(),
    ensures
        spec_msg_le(spec_rank(s, now, sort)[j], spec_rank(s, now, sort)[i], now, sort),
{
    let kept = keep_unedited(s);
    let srt = sort_msgs(kept, now, sort);
    let r = spec_rank(s, now, sort);
    let n = srt.len();
    lemma_sort_msgs_sorted(kept, now, sort);
    assert(r[i] == srt[n - 1 - i]);
    assert(r[j] == srt[n - 1 - j]);
    lemma_ascending_pairwise(srt, now, sort, n - 1 - j, n - 1 - i);
}

} // verus!
