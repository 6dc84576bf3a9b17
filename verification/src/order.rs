//! The three ranking metrics and the total order each one puts on
//! messages.
//!
//! Scores are never materialised as inexact numbers: each metric is
//! given directly as an order relation, decided by exact integer
//! arithmetic, which coincides with comparing the metric's value.

use vstd::prelude::*;
use vstd::arithmetic::power::pow;
use crate::bignum::{big_le, lemma_pow_unfold, pow5_pow9};
use crate::msg::Message;

verus! {

/// The selectable ranking metrics.
#[derive(Clone, Copy, PartialEq, Eq, Structural, Debug)]
pub enum Sort {
    /// Time-decayed score: reactions / (elapsed hours + 1) to the power
    /// of the gravity exponent, nine fifths.
    ByScore,
    /// Raw reaction count, no time decay.
    ByReactions,
    /// Reactions accumulated per unit of the message's existence, a
    /// rate: elapsed time is taken as whole minutes, one continuous
    /// quantity, and the time base does not affect the order — ranking
    /// by reactions per minute and by reactions per hour coincide.
    ByReactionsThroughput,
}

/// Whether the decayed score of a message with `ra` reactions and `ha`
/// whole elapsed hours is at most that of one with `rb` and `hb`.
///
/// The decayed score is r / (h + 1)^(9/5) (gravity 1.8). Raising both
/// scores to the fifth power and clearing the positive denominators
/// turns the comparison into the exact integer comparison below, so
/// this relation orders exactly as the real-valued score does.
pub open spec fn by_score_le(ra: nat, ha: nat, rb: nat, hb: nat) -> bool {
    pow(ra as int, 5) * pow((hb + 1) as int, 9) <= pow(rb as int, 5) * pow((ha + 1) as int, 9)
}

/// Whether the reaction throughput (reactions per minute elapsed) of a
/// message with `ra` reactions over `ma` whole elapsed minutes is at
/// most that of one with `rb` over `mb`.
///
/// A message without matching reactions has throughput zero, whatever
/// its age; a message with reactions and zero elapsed minutes counts as
/// unboundedly fresh, above every message of finite rate. The finite
/// rates ra / ma and rb / mb compare by cross-multiplication.
pub open spec fn throughput_le(ra: nat, ma: nat, rb: nat, mb: nat) -> bool {
    if ra == 0 {
        true
    } else if rb == 0 {
        false
    } else if ma == 0 {
        mb == 0
    } else if mb == 0 {
        true
    } else {
        ra * mb <= rb * ma
    }
}

/// The order a metric puts on two messages at the instant `now`.
pub open spec fn spec_msg_le(a: Message, b: Message, now: u64, sort: Sort) -> bool {
    match sort {
        Sort::ByScore => by_score_le(
            a.spec_reactions_count(),
            a.spec_elapsed_hours(now),
            b.spec_reactions_count(),
            b.spec_elapsed_hours(now),
        ),
        Sort::ByReactions => a.spec_reactions_count() <= b.spec_reactions_count(),
        Sort::ByReactionsThroughput => throughput_le(
            a.spec_reactions_count(),
            a.spec_elapsed_minutes(now),
            b.spec_reactions_count(),
            b.spec_elapsed_minutes(now),
        ),
    }
}

/// Decides the metric's order on two messages.
pub fn msg_le(a: &Message, b: &Message, now: u64, sort: Sort) -> (r: bool)
    requires
        a.wf(),
        b.wf(),
    ensures
        r == spec_msg_le(*a, *b, now, sort),
{
    match sort {
        Sort::ByScore => {
            let ra = a.reactions_count();
            let rb = b.reactions_count();
            let ha = a.elapsed_hours(now);
            let hb = b.elapsed_hours(now);
            proof {
                vstd::arithmetic::div_mod::lemma_div_is_ordered(
                    a.spec_elapsed_secs(now) as int,
                    u64::MAX as int,
                    3600,
                );
                vstd::arithmetic::div_mod::lemma_div_is_ordered(
                    b.spec_elapsed_secs(now) as int,
                    u64::MAX as int,
                    3600,
                );
            }
            let x = pow5_pow9(ra, hb + 1);
            let y = pow5_pow9(rb, ha + 1);
            big_le(x, y)
        },
        Sort::ByReactions => {
            let ra = a.reactions_count();
            let rb = b.reactions_count();
            ra <= rb
        },
        Sort::ByReactionsThroughput => {
            let ra = a.reactions_count();
            let rb = b.reactions_count();
            let ma = a.elapsed_minutes(now);
            let mb = b.elapsed_minutes(now);
            if ra == 0 {
                true
            } else if rb == 0 {
                false
            } else if ma == 0 {
                mb == 0
            } else if mb == 0 {
                true
            } else {
                proof {
                    assert((ra as int) * (mb as int) <= (u64::MAX as int) * (u64::MAX as int))
                        by (nonlinear_arith)
                        requires
                            0 <= ra <= u64::MAX,
                            0 <= mb <= u64::MAX,
                    ;
                    assert((rb as int) * (ma as int) <= (u64::MAX as int) * (u64::MAX as int))
                        by (nonlinear_arith)
                        requires
                            0 <= rb <= u64::MAX,
                            0 <= ma <= u64::MAX,
                    ;
                }
                (ra as u128) * (mb as u128) <= (rb as u128) * (ma as u128)
            }
        },
    }
}

/// Powers with a fixed positive exponent grow strictly with the base.
proof fn lemma_pow_base_strict(x: int, y: int, e: nat)
    requires
        0 <= x < y,
        e > 0,
    ensures
        pow(x, e) < pow(y, e),
    decreases e,
{
    if e == 1 {
        vstd::arithmetic::power::lemma_pow1(x);
        vstd::arithmetic::power::lemma_pow1(y);
    } else {
        lemma_pow_unfold(x, e);
        lemma_pow_unfold(y, e);
        lemma_pow_base_strict(x, y, (e - 1) as nat);
        vstd::arithmetic::power::lemma_pow_positive(y, (e - 1) as nat);
        let px = pow(x, (e - 1) as nat);
        let py = pow(y, (e - 1) as nat);
        lemma_pow_nonneg(x, (e - 1) as nat);
        assert(x * px < y * py) by (nonlinear_arith)
            requires
                0 <= x < y,
                0 <= px < py,
        ;
    }
}

/// Each metric's order is total: two messages always compare one way
/// or the other.
pub proof fn lemma_msg_le_total(a: Message, b: Message, now: u64, sort: Sort)
    ensures
        spec_msg_le(a, b, now, sort) || spec_msg_le(b, a, now, sort),
{
}

/// The power of a nonnegative base is nonnegative.
proof fn lemma_pow_nonneg(b: int, e: nat)
    requires
        b >= 0,
    ensures
        pow(b, e) >= 0,
{
    if b == 0 {
        if e == 0 {
            vstd::arithmetic::power::lemma_pow0(b);
        } else {
            vstd::arithmetic::power::lemma0_pow(e);
        }
    } else {
        vstd::arithmetic::power::lemma_pow_positive(b, e);
    }
}

/// The decayed-score order is transitive.
proof fn lemma_by_score_le_trans(r1: nat, h1: nat, r2: nat, h2: nat, r3: nat, h3: nat)
    requires
        by_score_le(r1, h1, r2, h2),
        by_score_le(r2, h2, r3, h3),
    ensures
        by_score_le(r1, h1, r3, h3),
{
    let a1 = pow(r1 as int, 5);
    let a2 = pow(r2 as int, 5);
    let a3 = pow(r3 as int, 5);
    let b1 = pow((h1 + 1) as int, 9);
    let b2 = pow((h2 + 1) as int, 9);
    let b3 = pow((h3 + 1) as int, 9);
    vstd::arithmetic::power::lemma_pow_positive((h1 + 1) as int, 9);
    vstd::arithmetic::power::lemma_pow_positive((h2 + 1) as int, 9);
    vstd::arithmetic::power::lemma_pow_positive((h3 + 1) as int, 9);
    assert((a1 * b2) * b3 <= (a2 * b1) * b3) by (nonlinear_arith)
        requires
            a1 * b2 <= a2 * b1,
            b3 >= 0,
    ;
    assert((a2 * b3) * b1 <= (a3 * b2) * b1) by (nonlinear_arith)
        requires
            a2 * b3 <= a3 * b2,
            b1 >= 0,
    ;
    assert((a1 * b3) * b2 <= (a3 * b1) * b2) by (nonlinear_arith)
        requires
            (a1 * b2) * b3 <= (a2 * b1) * b3,
            (a2 * b3) * b1 <= (a3 * b2) * b1,
    ;
    assert(a1 * b3 <= a3 * b1) by (nonlinear_arith)
        requires
            (a1 * b3) * b2 <= (a3 * b1) * b2,
            b2 > 0,
    ;
}

/// The throughput order is transitive.
proof fn lemma_throughput_le_trans(
    r1: nat,
    m1: nat,
    r2: nat,
    m2: nat,
    r3: nat,
    m3: nat,
)
    requires
        throughput_le(r1, m1, r2, m2),
        throughput_le(r2, m2, r3, m3),
    ensures
        throughput_le(r1, m1, r3, m3),
{
    if r1 == 0 {
    } else {
        assert(r2 > 0);
        assert(r3 > 0);
        if m1 == 0 {
            assert(m2 == 0);
            assert(m3 == 0);
        } else if m2 == 0 || m3 == 0 {
        } else {
            assert((r1 * m2) * m3 <= (r2 * m1) * m3) by (nonlinear_arith)
                requires
                    r1 * m2 <= r2 * m1,
            ;
            assert((r2 * m3) * m1 <= (r3 * m2) * m1) by (nonlinear_arith)
                requires
                    r2 * m3 <= r3 * m2,
            ;
            assert((r1 * m3) * m2 <= (r3 * m1) * m2) by (nonlinear_arith)
                requires
                    (r1 * m2) * m3 <= (r2 * m1) * m3,
                    (r2 * m3) * m1 <= (r3 * m2) * m1,
            ;
            assert(r1 * m3 <= r3 * m1) by (nonlinear_arith)
                requires
                    (r1 * m3) * m2 <= (r3 * m1) * m2,
                    m2 > 0,
            ;
        }
    }
}

/// Each metric's order is transitive: with totality, every metric puts
/// a total preorder on messages.
pub proof fn lemma_msg_le_trans(a: Message, b: Message, c: Message, now: u64, sort: Sort)
    requires
        spec_msg_le(a, b, now, sort),
        spec_msg_le(b, c, now, sort),
    ensures
        spec_msg_le(a, c, now, sort),
{
    match sort {
        Sort::ByScore => {
            lemma_by_score_le_trans(
                a.spec_reactions_count(),
                a.spec_elapsed_hours(now),
                b.spec_reactions_count(),
                b.spec_elapsed_hours(now),
                c.spec_reactions_count(),
                c.spec_elapsed_hours(now),
            );
        },
        Sort::ByReactions => {},
        Sort::ByReactionsThroughput => {
            lemma_throughput_le_trans(
                a.spec_reactions_count(),
                a.spec_elapsed_minutes(now),
                b.spec_reactions_count(),
                b.spec_elapsed_minutes(now),
                c.spec_reactions_count(),
                c.spec_elapsed_minutes(now),
            );
        },
    }
}

/// Time decay is strictly monotonic: of two messages with the same
/// positive reaction count, the decayed score ranks the younger one
/// strictly above the older one.
pub proof fn lemma_score_time_decay(r: nat, ha: nat, hb: nat)
    requires
        r > 0,
        ha < hb,
    ensures
        by_score_le(r, hb, r, ha),
        !by_score_le(r, ha, r, hb),
{
    lemma_pow_base_strict((ha + 1) as int, (hb + 1) as int, 9);
    vstd::arithmetic::power::lemma_pow_positive(r as int, 5);
    let p = pow(r as int, 5);
    let pa = pow((ha + 1) as int, 9);
    let pb = pow((hb + 1) as int, 9);
    assert(p * pa < p * pb) by (nonlinear_arith)
        requires
            pa < pb,
            p > 0,
    ;
}

} // verus!
