//! One side of an order book as a list of price levels, sorted by price.
//!
//! A side keeps at most one level per price value, in strictly ascending order
//! of price, and only quantities that are neither zero nor negative.
use crate::decimal::{
    decimal_checked_sub, decimal_less_than, decimal_sub, fits_common_scale, has_scaled_value,
    lemma_eq_compatible, lemma_lt_transitive, lemma_trichotomy,
    scaled_difference, value_eq, value_lt, Dec,
};
use crate::message::DepthUpdate;
use vstd::prelude::*;

verus! {

/// Prices of a side, strictly ascending as values.
pub open spec fn sorted_levels(s: Seq<(Dec, Dec)>) -> bool {
    forall|i: int, j: int| 0 <= i < j < s.len() ==> value_lt(#[trigger] s[i].0, #[trigger] s[j].0)
}

/// Every price and quantity of a side is a decimal that `rust_decimal` can hold.
pub open spec fn valid_levels(s: Seq<(Dec, Dec)>) -> bool {
    forall|i: int| 0 <= i < s.len() ==> (#[trigger] s[i]).0.valid() && s[i].1.valid()
}

/// A quantity that deletes its level: zero, or with its sign bit set.
pub open spec fn removes_level(q: Dec) -> bool {
    q.spec_is_zero() || q.negative
}

/// No stored quantity deletes its level.
pub open spec fn positive_levels(s: Seq<(Dec, Dec)>) -> bool {
    forall|i: int| 0 <= i < s.len() ==> !removes_level(#[trigger] s[i].1)
}

/// A well-formed side.
pub open spec fn side_wf(s: Seq<(Dec, Dec)>) -> bool {
    sorted_levels(s) && valid_levels(s) && positive_levels(s)
}

/// `k` splits the side into the levels priced below `p` and the others.
pub open spec fn is_insertion_point(s: Seq<(Dec, Dec)>, p: Dec, k: int) -> bool {
    &&& 0 <= k <= s.len()
    &&& forall|j: int| 0 <= j < k ==> value_lt(#[trigger] s[j].0, p)
    &&& forall|j: int| k <= j < s.len() ==> !value_lt(#[trigger] s[j].0, p)
}

/// The number of levels priced below `p`.
pub open spec fn insertion_point(s: Seq<(Dec, Dec)>, p: Dec) -> int {
    choose|k: int| is_insertion_point(s, p, k)
}

/// The side holds a level priced at the value of `p`, at the insertion point.
pub open spec fn has_level_at(s: Seq<(Dec, Dec)>, p: Dec) -> bool {
    let k = insertion_point(s, p);
    k < s.len() && value_eq(s[k].0, p)
}

/// The side after writing quantity `q` at price `p`: a quantity that deletes its
/// level removes the level at that price value; any other quantity replaces the
/// quantity of the level at that price value (the level keeps its price as first
/// written) or adds a new level in price order.
pub open spec fn side_apply(s: Seq<(Dec, Dec)>, p: Dec, q: Dec) -> Seq<(Dec, Dec)> {
    let k = insertion_point(s, p);
    if removes_level(q) {
        if has_level_at(s, p) {
            s.remove(k)
        } else {
            s
        }
    } else {
        if has_level_at(s, p) {
            s.update(k, (s[k].0, q))
        } else {
            s.insert(k, (p, q))
        }
    }
}

/// The side after writing every level of `levels`, first to last.
pub open spec fn side_apply_all(s: Seq<(Dec, Dec)>, levels: Seq<(Dec, Dec)>) -> Seq<(Dec, Dec)>
    decreases levels.len(),
{
    if levels.len() == 0 {
        s
    } else {
        let rest = side_apply_all(s, levels.drop_last());
        side_apply(rest, levels.last().0, levels.last().1)
    }
}

/// The quantity at the price value of `p`, if the side has a level there.
pub open spec fn quantity_at(s: Seq<(Dec, Dec)>, p: Dec) -> Option<Dec> {
    if exists|i: int| 0 <= i < s.len() && value_eq(#[trigger] s[i].0, p) {
        let i = choose|i: int| 0 <= i < s.len() && value_eq(#[trigger] s[i].0, p);
        Some(s[i].1)
    } else {
        None
    }
}

/// In a sorted side, the insertion point of `p` exists and is the only one.
pub proof fn lemma_insertion_point_unique(s: Seq<(Dec, Dec)>, p: Dec, k: int)
    requires
        is_insertion_point(s, p, k),
    ensures
        insertion_point(s, p) == k,
{
    let c = insertion_point(s, p);
    assert(is_insertion_point(s, p, c));
    if c < k {
        assert(value_lt(s[c].0, p));
    } else if k < c {
        assert(value_lt(s[k].0, p));
    }
}

/// Every side has an insertion point for any price.
pub proof fn lemma_insertion_point_exists(s: Seq<(Dec, Dec)>, p: Dec)
    requires
        sorted_levels(s),
    ensures
        is_insertion_point(s, p, insertion_point(s, p)),
    decreases s.len(),
{
    if s.len() == 0 {
        assert(is_insertion_point(s, p, 0));
    } else {
        let t = s.drop_last();
        assert(sorted_levels(t));
        lemma_insertion_point_exists(t, p);
        let k = insertion_point(t, p);
        if value_lt(s.last().0, p) {
            assert(is_insertion_point(s, p, s.len() as int)) by {
                assert forall|j: int| 0 <= j < s.len() implies value_lt(#[trigger] s[j].0, p) by {
                    if j < s.len() - 1 {
                        assert(value_lt(s[j].0, s[s.len() - 1].0));
                        lemma_lt_transitive(s[j].0, s.last().0, p);
                    }
                }
            }
        } else {
            assert(is_insertion_point(s, p, k)) by {
                assert forall|j: int| 0 <= j < k implies value_lt(#[trigger] s[j].0, p) by {
                    assert(t[j] == s[j]);
                }
                assert forall|j: int| k <= j < s.len() implies !value_lt(#[trigger] s[j].0, p) by {
                    if j < s.len() - 1 {
                        assert(t[j] == s[j]);
                    }
                }
            }
        }
    }
}

/// In a sorted side, at most one level has a given price value.
pub proof fn lemma_price_unique(s: Seq<(Dec, Dec)>, p: Dec, i: int, j: int)
    requires
        sorted_levels(s),
        0 <= i < s.len(),
        0 <= j < s.len(),
        value_eq(s[i].0, p),
        value_eq(s[j].0, p),
    ensures
        i == j,
{
    lemma_trichotomy(s[j].0, p);
    lemma_eq_compatible(s[i].0, p, s[j].0);
    if i < j {
        lemma_trichotomy(s[i].0, s[j].0);
    } else if j < i {
        lemma_trichotomy(s[j].0, s[i].0);
        lemma_eq_compatible(s[j].0, p, s[i].0);
    }
}

/// The level at the price value of `p`, if any, sits at the insertion point.
pub proof fn lemma_level_at_insertion_point(s: Seq<(Dec, Dec)>, p: Dec, i: int)
    requires
        sorted_levels(s),
        0 <= i < s.len(),
        value_eq(s[i].0, p),
    ensures
        insertion_point(s, p) == i,
        has_level_at(s, p),
{
    assert(is_insertion_point(s, p, i)) by {
        assert forall|j: int| 0 <= j < i implies value_lt(#[trigger] s[j].0, p) by {
            lemma_eq_compatible(s[j].0, s[i].0, p);
            lemma_trichotomy(s[i].0, p);
        }
        assert forall|j: int| i <= j < s.len() implies !value_lt(#[trigger] s[j].0, p) by {
            lemma_trichotomy(s[i].0, p);
            if j > i {
                lemma_eq_compatible(p, s[i].0, s[j].0);
                lemma_trichotomy(p, s[j].0);
            }
        }
    }
    lemma_insertion_point_unique(s, p, i);
}

/// Writing a level keeps a side well formed.
pub proof fn law_write_keeps_side_well_formed(s: Seq<(Dec, Dec)>, p: Dec, q: Dec)
    requires
        side_wf(s),
        p.valid(),
        q.valid(),
    ensures
        side_wf(side_apply(s, p, q)),
{
    lemma_insertion_point_exists(s, p);
    let k = insertion_point(s, p);
    let r = side_apply(s, p, q);
    if removes_level(q) {
        if has_level_at(s, p) {
            assert forall|i: int, j: int| 0 <= i < j < r.len() implies value_lt(
                #[trigger] r[i].0,
                #[trigger] r[j].0,
            ) by {
                let ii = if i < k { i } else { i + 1 };
                let jj = if j < k { j } else { j + 1 };
                assert(r[i] == s[ii] && r[j] == s[jj]);
            }
        }
    } else {
        if has_level_at(s, p) {
            assert forall|i: int, j: int| 0 <= i < j < r.len() implies value_lt(
                #[trigger] r[i].0,
                #[trigger] r[j].0,
            ) by {
                assert(r[i].0 == s[i].0 && r[j].0 == s[j].0);
            }
        } else {
            if k < s.len() {
                lemma_trichotomy(s[k].0, p);
            }
            assert forall|i: int, j: int| 0 <= i < j < r.len() implies value_lt(
                #[trigger] r[i].0,
                #[trigger] r[j].0,
            ) by {
                if j < k {
                    assert(r[i] == s[i] && r[j] == s[j]);
                } else if j == k {
                    assert(r[i] == s[i]);
                } else if i < k {
                    assert(r[i] == s[i] && r[j] == s[j - 1]);
                    if j - 1 > k {
                        lemma_lt_transitive(s[i].0, p, s[k].0);
                        lemma_lt_transitive(s[i].0, s[k].0, s[j - 1].0);
                    } else {
                        lemma_lt_transitive(s[i].0, p, s[k].0);
                    }
                } else if i == k {
                    assert(r[j] == s[j - 1]);
                    if j - 1 > k {
                        lemma_lt_transitive(p, s[k].0, s[j - 1].0);
                    }
                } else {
                    assert(r[i] == s[i - 1] && r[j] == s[j - 1]);
                }
            }
        }
    }
}

/// Writing levels one after another keeps a side well formed.
pub proof fn law_writes_keep_side_well_formed(s: Seq<(Dec, Dec)>, levels: Seq<(Dec, Dec)>)
    requires
        side_wf(s),
        valid_levels(levels),
    ensures
        side_wf(side_apply_all(s, levels)),
    decreases levels.len(),
{
    if levels.len() > 0 {
        let t = levels.drop_last();
        assert(valid_levels(t)) by {
            assert forall|i: int| 0 <= i < t.len() implies (#[trigger] t[i]).0.valid()
                && t[i].1.valid() by {
                assert(t[i] == levels[i]);
            }
        }
        law_writes_keep_side_well_formed(s, t);
        assert(levels.last() == levels[levels.len() - 1]);
        law_write_keeps_side_well_formed(side_apply_all(s, t), levels.last().0, levels.last().1);
    }
}

/// Reading back a written price: a side gives the written quantity at the written
/// price, or nothing when the quantity deleted the level.
pub proof fn law_read_after_write(s: Seq<(Dec, Dec)>, p: Dec, q: Dec)
    requires
        side_wf(s),
        p.valid(),
        q.valid(),
    ensures
        quantity_at(side_apply(s, p, q), p) == (if removes_level(q) {
            None::<Dec>
        } else {
            Some(q)
        }),
{
    lemma_insertion_point_exists(s, p);
    law_write_keeps_side_well_formed(s, p, q);
    let k = insertion_point(s, p);
    let r = side_apply(s, p, q);
    if removes_level(q) {
        if exists|i: int| 0 <= i < r.len() && value_eq(#[trigger] r[i].0, p) {
            let i = choose|i: int| 0 <= i < r.len() && value_eq(#[trigger] r[i].0, p);
            if has_level_at(s, p) {
                let ii = if i < k { i } else { i + 1 };
                assert(r[i] == s[ii]);
                lemma_price_unique(s, p, ii, k);
            } else {
                lemma_level_at_insertion_point(s, p, i);
            }
        }
    } else {
        lemma_trichotomy(p, p);
        if has_level_at(s, p) {
            assert(value_eq(r[k].0, p));
        } else {
            assert(r[k] == (p, q));
        }
        let i = choose|i: int| 0 <= i < r.len() && value_eq(#[trigger] r[i].0, p);
        lemma_price_unique(r, p, i, k);
    }
}

/// Writing at one price leaves the quantity at every other price value as it was.
pub proof fn law_write_elsewhere(s: Seq<(Dec, Dec)>, p: Dec, q: Dec, p2: Dec)
    requires
        side_wf(s),
        p.valid(),
        q.valid(),
        !value_eq(p, p2),
    ensures
        quantity_at(side_apply(s, p, q), p2) == quantity_at(s, p2),
{
    lemma_insertion_point_exists(s, p);
    law_write_keeps_side_well_formed(s, p, q);
    let k = insertion_point(s, p);
    let r = side_apply(s, p, q);
    lemma_trichotomy(p, p2);
    // Each level of `r` priced at `p2` is a level of `s`, and the other way round.
    let in_r = exists|i: int| 0 <= i < r.len() && value_eq(#[trigger] r[i].0, p2);
    let in_s = exists|i: int| 0 <= i < s.len() && value_eq(#[trigger] s[i].0, p2);
    if in_s {
        let i = choose|i: int| 0 <= i < s.len() && value_eq(#[trigger] s[i].0, p2);
        if has_level_at(s, p) {
            if i == k {
                lemma_eq_compatible(p, s[k].0, p2);
                lemma_trichotomy(s[k].0, p);
                lemma_trichotomy(p, s[k].0);
            }
        }
        let ri = if has_level_at(s, p) {
            if removes_level(q) && i > k {
                i - 1
            } else {
                i
            }
        } else if removes_level(q) {
            i
        } else if i >= k {
            i + 1
        } else {
            i
        };
        assert(r[ri] == s[i]);
        assert(value_eq(r[ri].0, p2));
        let rj = choose|j: int| 0 <= j < r.len() && value_eq(#[trigger] r[j].0, p2);
        lemma_price_unique(r, p2, ri, rj);
    } else if in_r {
        let j = choose|j: int| 0 <= j < r.len() && value_eq(#[trigger] r[j].0, p2);
        if has_level_at(s, p) {
            if removes_level(q) {
                let sj = if j < k { j } else { j + 1 };
                assert(r[j] == s[sj]);
            } else {
                if j == k {
                    assert(r[j].0 == s[k].0);
                } else {
                    assert(r[j] == s[j]);
                }
            }
        } else if removes_level(q) {
            assert(r[j] == s[j]);
        } else {
            if j < k {
                assert(r[j] == s[j]);
            } else if j > k {
                assert(r[j] == s[j - 1]);
            } else {
                assert(r[j].0 == p);
            }
        }
    }
}

/// The level of a side priced at the value of `p`, if any.
pub open spec fn level_at(s: Seq<(Dec, Dec)>, p: Dec) -> Option<(Dec, Dec)> {
    if exists|i: int| 0 <= i < s.len() && value_eq(#[trigger] s[i].0, p) {
        let i = choose|i: int| 0 <= i < s.len() && value_eq(#[trigger] s[i].0, p);
        Some(s[i])
    } else {
        None
    }
}

/// What writing the level `w` does to the level priced at the value of `p`.
pub open spec fn level_step(x: Option<(Dec, Dec)>, p: Dec, w: (Dec, Dec)) -> Option<(Dec, Dec)> {
    if !value_eq(w.0, p) {
        x
    } else if removes_level(w.1) {
        None
    } else {
        match x {
            Some(l) => Some((l.0, w.1)),
            None => Some((w.0, w.1)),
        }
    }
}

/// What writing the levels `ws`, first to last, does to the level priced at the value of `p`.
pub open spec fn level_steps(x: Option<(Dec, Dec)>, p: Dec, ws: Seq<(Dec, Dec)>) -> Option<(Dec, Dec)>
    decreases ws.len(),
{
    if ws.len() == 0 {
        x
    } else {
        level_step(level_steps(x, p, ws.drop_last()), p, ws.last())
    }
}

/// In a sorted side, the level at a price value is the one priced at that value.
proof fn lemma_level_at_index(s: Seq<(Dec, Dec)>, c: Dec, i: int)
    requires
        sorted_levels(s),
        0 <= i < s.len(),
        value_eq(s[i].0, c),
    ensures
        level_at(s, c) == Some(s[i]),
{
    let j = choose|j: int| 0 <= j < s.len() && value_eq(#[trigger] s[j].0, c);
    lemma_price_unique(s, c, i, j);
}

/// Writing a level changes only the level at its price value, as `level_step` says.
pub proof fn law_level_after_write(s: Seq<(Dec, Dec)>, p: Dec, q: Dec, c: Dec)
    requires
        side_wf(s),
        p.valid(),
        q.valid(),
    ensures
        level_at(side_apply(s, p, q), c) == level_step(level_at(s, c), c, (p, q)),
{
    lemma_insertion_point_exists(s, p);
    law_write_keeps_side_well_formed(s, p, q);
    let k = insertion_point(s, p);
    let r = side_apply(s, p, q);
    lemma_trichotomy(p, c);
    lemma_trichotomy(c, p);
    if value_eq(p, c) {
        if has_level_at(s, p) {
            lemma_eq_compatible(s[k].0, p, c);
            lemma_level_at_index(s, c, k);
            if removes_level(q) {
                if exists|i: int| 0 <= i < r.len() && value_eq(#[trigger] r[i].0, c) {
                    let i = choose|i: int| 0 <= i < r.len() && value_eq(#[trigger] r[i].0, c);
                    let ii = if i < k { i } else { i + 1 };
                    assert(r[i] == s[ii]);
                    lemma_price_unique(s, c, ii, k);
                }
            } else {
                assert(r[k].0 == s[k].0);
                lemma_level_at_index(r, c, k);
            }
        } else {
            if exists|i: int| 0 <= i < s.len() && value_eq(#[trigger] s[i].0, c) {
                let i = choose|i: int| 0 <= i < s.len() && value_eq(#[trigger] s[i].0, c);
                lemma_eq_compatible(s[i].0, c, p);
                lemma_level_at_insertion_point(s, p, i);
            }
            if !removes_level(q) {
                assert(r[k] == (p, q));
                lemma_level_at_index(r, c, k);
            }
        }
    } else {
        // Each level of `r` priced at `c` is the same level of `s`, and the other way round.
        if exists|i: int| 0 <= i < s.len() && value_eq(#[trigger] s[i].0, c) {
            let i = choose|i: int| 0 <= i < s.len() && value_eq(#[trigger] s[i].0, c);
            if has_level_at(s, p) && i == k {
                lemma_eq_compatible(p, s[k].0, c);
                lemma_trichotomy(s[k].0, p);
            }
            let ri = if has_level_at(s, p) {
                if removes_level(q) && i > k {
                    i - 1
                } else {
                    i
                }
            } else if removes_level(q) {
                i
            } else if i >= k {
                i + 1
            } else {
                i
            };
            assert(r[ri] == s[i]);
            lemma_level_at_index(s, c, i);
            lemma_level_at_index(r, c, ri);
        } else if exists|j: int| 0 <= j < r.len() && value_eq(#[trigger] r[j].0, c) {
            let j = choose|j: int| 0 <= j < r.len() && value_eq(#[trigger] r[j].0, c);
            if has_level_at(s, p) {
                if removes_level(q) {
                    let sj = if j < k { j } else { j + 1 };
                    assert(r[j] == s[sj]);
                } else {
                    if j == k {
                        assert(r[j].0 == s[k].0);
                        lemma_eq_compatible(p, s[k].0, c);
                        lemma_trichotomy(s[k].0, p);
                    } else {
                        assert(r[j] == s[j]);
                    }
                }
            } else if removes_level(q) {
                assert(r[j] == s[j]);
            } else {
                if j < k {
                    assert(r[j] == s[j]);
                } else if j > k {
                    assert(r[j] == s[j - 1]);
                } else {
                    assert(r[j].0 == p);
                }
            }
        }
    }
}

/// Writing levels one after another changes the level at each price value as the
/// writes at that value, in order, say.
pub proof fn law_level_after_writes(s: Seq<(Dec, Dec)>, levels: Seq<(Dec, Dec)>, c: Dec)
    requires
        side_wf(s),
        valid_levels(levels),
    ensures
        level_at(side_apply_all(s, levels), c) == level_steps(level_at(s, c), c, levels),
    decreases levels.len(),
{
    if levels.len() > 0 {
        let t = levels.drop_last();
        assert(valid_levels(t)) by {
            assert forall|i: int| 0 <= i < t.len() implies (#[trigger] t[i]).0.valid()
                && t[i].1.valid() by {
                assert(t[i] == levels[i]);
            }
        }
        law_level_after_writes(s, t, c);
        law_writes_keep_side_well_formed(s, t);
        assert(levels.last() == levels[levels.len() - 1]);
        law_level_after_write(side_apply_all(s, t), levels.last().0, levels.last().1, c);
    }
}

/// Some write is at the price value of `c`.
pub open spec fn writes_at(c: Dec, ws: Seq<(Dec, Dec)>) -> bool {
    exists|i: int| 0 <= i < ws.len() && value_eq(#[trigger] ws[i].0, c)
}

/// Some write deletes the level at the price value of `c`.
pub open spec fn deletes_at(c: Dec, ws: Seq<(Dec, Dec)>) -> bool {
    exists|i: int| 0 <= i < ws.len() && value_eq(#[trigger] ws[i].0, c) && removes_level(ws[i].1)
}

/// Once a price value is written, whether it has a level, and its quantity, no
/// longer depend on what was there before.
proof fn lemma_steps_quantity(x: Option<(Dec, Dec)>, y: Option<(Dec, Dec)>, c: Dec, ws: Seq<(Dec, Dec)>)
    requires
        writes_at(c, ws),
    ensures
        level_steps(x, c, ws) is Some <==> level_steps(y, c, ws) is Some,
        level_steps(x, c, ws) is Some ==> level_steps(x, c, ws)->Some_0.1 == level_steps(
            y,
            c,
            ws,
        )->Some_0.1,
    decreases ws.len(),
{
    let t = ws.drop_last();
    let w = ws.last();
    if !value_eq(w.0, c) {
        let i = choose|i: int| 0 <= i < ws.len() && value_eq(#[trigger] ws[i].0, c);
        assert(i < ws.len() - 1);
        assert(t[i] == ws[i]);
        lemma_steps_quantity(x, y, c, t);
    }
}

/// Once a price value is deleted, its level no longer depends on what was there before.
proof fn lemma_steps_after_delete(x: Option<(Dec, Dec)>, y: Option<(Dec, Dec)>, c: Dec, ws: Seq<(Dec, Dec)>)
    requires
        deletes_at(c, ws),
    ensures
        level_steps(x, c, ws) == level_steps(y, c, ws),
    decreases ws.len(),
{
    let t = ws.drop_last();
    let w = ws.last();
    if !(value_eq(w.0, c) && removes_level(w.1)) {
        let i = choose|i: int|
            0 <= i < ws.len() && value_eq(#[trigger] ws[i].0, c) && removes_level(ws[i].1);
        assert(i < ws.len() - 1);
        assert(t[i] == ws[i]);
        lemma_steps_after_delete(x, y, c, t);
    }
}

/// Without a deletion, a level that is there keeps its price, and a written price
/// value has a level.
proof fn lemma_steps_without_delete(x: Option<(Dec, Dec)>, c: Dec, ws: Seq<(Dec, Dec)>)
    requires
        !deletes_at(c, ws),
    ensures
        x is Some ==> level_steps(x, c, ws) is Some && level_steps(x, c, ws)->Some_0.0 == x->Some_0.0,
        writes_at(c, ws) ==> level_steps(x, c, ws) is Some,
    decreases ws.len(),
{
    if ws.len() > 0 {
        let t = ws.drop_last();
        let w = ws.last();
        assert(!deletes_at(c, t)) by {
            if deletes_at(c, t) {
                let i = choose|i: int|
                    0 <= i < t.len() && value_eq(#[trigger] t[i].0, c) && removes_level(t[i].1);
                assert(ws[i] == t[i]);
            }
        }
        assert(value_eq(w.0, c) ==> !removes_level(w.1)) by {
            assert(w == ws[ws.len() - 1]);
        }
        lemma_steps_without_delete(x, c, t);
        if writes_at(c, ws) && !value_eq(w.0, c) {
            let i = choose|i: int| 0 <= i < ws.len() && value_eq(#[trigger] ws[i].0, c);
            assert(i < ws.len() - 1);
            assert(t[i] == ws[i]);
        }
    }
}

/// Writing the same levels a second time changes no price value's level.
proof fn lemma_steps_twice(x: Option<(Dec, Dec)>, c: Dec, ws: Seq<(Dec, Dec)>)
    ensures
        level_steps(level_steps(x, c, ws), c, ws) == level_steps(x, c, ws),
{
    let f = level_steps(x, c, ws);
    if deletes_at(c, ws) {
        lemma_steps_after_delete(f, x, c, ws);
    } else if writes_at(c, ws) {
        lemma_steps_without_delete(x, c, ws);
        lemma_steps_without_delete(f, c, ws);
        lemma_steps_quantity(f, x, c, ws);
    } else {
        lemma_steps_no_write(x, c, ws);
        lemma_steps_no_write(f, c, ws);
    }
}

/// Without a write at its price value, a level stays as it is.
proof fn lemma_steps_no_write(x: Option<(Dec, Dec)>, c: Dec, ws: Seq<(Dec, Dec)>)
    requires
        !writes_at(c, ws),
    ensures
        level_steps(x, c, ws) == x,
    decreases ws.len(),
{
    if ws.len() > 0 {
        let t = ws.drop_last();
        assert(!writes_at(c, t)) by {
            if writes_at(c, t) {
                let i = choose|i: int| 0 <= i < t.len() && value_eq(#[trigger] t[i].0, c);
                assert(ws[i] == t[i]);
            }
        }
        assert(ws.last() == ws[ws.len() - 1]);
        lemma_steps_no_write(x, c, t);
    }
}

/// Two well-formed sides with the same level at every price value are the same side.
proof fn lemma_sides_equal(s1: Seq<(Dec, Dec)>, s2: Seq<(Dec, Dec)>)
    requires
        side_wf(s1),
        side_wf(s2),
        forall|c: Dec| #[trigger] level_at(s1, c) == level_at(s2, c),
    ensures
        s1 == s2,
    decreases s1.len(),
{
    if s1.len() == 0 {
        if s2.len() > 0 {
            lemma_trichotomy(s2[0].0, s2[0].0);
            lemma_level_at_index(s2, s2[0].0, 0);
            assert(level_at(s1, s2[0].0) is None);
        }
        assert(s1 =~= s2);
    } else if s2.len() == 0 {
        lemma_trichotomy(s1[0].0, s1[0].0);
        lemma_level_at_index(s1, s1[0].0, 0);
        assert(level_at(s2, s1[0].0) is None);
    } else {
        let a = s1[0];
        let b = s2[0];
        lemma_trichotomy(a.0, a.0);
        lemma_trichotomy(b.0, b.0);
        lemma_level_at_index(s1, a.0, 0);
        lemma_level_at_index(s2, b.0, 0);
        assert(level_at(s2, a.0) == Some(a));
        assert(level_at(s1, b.0) == Some(b));
        let j = choose|j: int| 0 <= j < s2.len() && value_eq(#[trigger] s2[j].0, a.0);
        let k = choose|k: int| 0 <= k < s1.len() && value_eq(#[trigger] s1[k].0, b.0);
        assert(s2[j] == a);
        assert(s1[k] == b);
        if j > 0 {
            assert(value_lt(b.0, a.0));
            if k > 0 {
                assert(value_lt(a.0, b.0));
                lemma_trichotomy(a.0, b.0);
            } else {
                lemma_trichotomy(a.0, b.0);
            }
        }
        assert(a == b);
        let t1 = s1.drop_first();
        let t2 = s2.drop_first();
        assert(side_wf(t1)) by {
            assert forall|i: int, j2: int| 0 <= i < j2 < t1.len() implies value_lt(
                #[trigger] t1[i].0,
                #[trigger] t1[j2].0,
            ) by {
                assert(t1[i] == s1[i + 1] && t1[j2] == s1[j2 + 1]);
            }
            assert forall|i: int| 0 <= i < t1.len() implies (#[trigger] t1[i]).0.valid()
                && t1[i].1.valid() by {
                assert(t1[i] == s1[i + 1]);
            }
            assert forall|i: int| 0 <= i < t1.len() implies !removes_level(#[trigger] t1[i].1) by {
                assert(t1[i] == s1[i + 1]);
            }
        }
        assert(side_wf(t2)) by {
            assert forall|i: int, j2: int| 0 <= i < j2 < t2.len() implies value_lt(
                #[trigger] t2[i].0,
                #[trigger] t2[j2].0,
            ) by {
                assert(t2[i] == s2[i + 1] && t2[j2] == s2[j2 + 1]);
            }
            assert forall|i: int| 0 <= i < t2.len() implies (#[trigger] t2[i]).0.valid()
                && t2[i].1.valid() by {
                assert(t2[i] == s2[i + 1]);
            }
            assert forall|i: int| 0 <= i < t2.len() implies !removes_level(#[trigger] t2[i].1) by {
                assert(t2[i] == s2[i + 1]);
            }
        }
        assert forall|c: Dec| #[trigger] level_at(t1, c) == level_at(t2, c) by {
            lemma_level_at_tail(s1, c);
            lemma_level_at_tail(s2, c);
            assert(level_at(s1, c) == level_at(s2, c));
        }
        lemma_sides_equal(t1, t2);
        assert(s1 =~= s2) by {
            assert forall|i: int| 0 <= i < s1.len() implies s1[i] == s2[i] by {
                if i > 0 {
                    assert(s1[i] == t1[i - 1] && s2[i] == t2[i - 1]);
                }
            }
        }
    }
}

/// The level at a price value of a side without its first level: none at the first
/// level's price value, the side's level elsewhere.
proof fn lemma_level_at_tail(s: Seq<(Dec, Dec)>, c: Dec)
    requires
        side_wf(s),
        s.len() > 0,
    ensures
        level_at(s.drop_first(), c) == (if value_eq(s[0].0, c) {
            None::<(Dec, Dec)>
        } else {
            level_at(s, c)
        }),
{
    let t = s.drop_first();
    if exists|i: int| 0 <= i < t.len() && value_eq(#[trigger] t[i].0, c) {
        let i = choose|i: int| 0 <= i < t.len() && value_eq(#[trigger] t[i].0, c);
        assert(t[i] == s[i + 1]);
        lemma_level_at_index(s, c, i + 1);
        assert(sorted_levels(t)) by {
            assert forall|a: int, b: int| 0 <= a < b < t.len() implies value_lt(
                #[trigger] t[a].0,
                #[trigger] t[b].0,
            ) by {
                assert(t[a] == s[a + 1] && t[b] == s[b + 1]);
            }
        }
        lemma_level_at_index(t, c, i);
        if value_eq(s[0].0, c) {
            lemma_price_unique(s, c, 0, i + 1);
        }
    } else {
        if !value_eq(s[0].0, c) {
            if exists|i: int| 0 <= i < s.len() && value_eq(#[trigger] s[i].0, c) {
                let i = choose|i: int| 0 <= i < s.len() && value_eq(#[trigger] s[i].0, c);
                assert(i > 0);
                assert(t[i - 1] == s[i]);
            }
        }
    }
}

/// Applying the same levels twice leaves a side as applying them once: a write
/// replaces a level's quantity, it does not add to it.
pub proof fn law_writes_twice_is_once(s: Seq<(Dec, Dec)>, levels: Seq<(Dec, Dec)>)
    requires
        side_wf(s),
        valid_levels(levels),
    ensures
        side_apply_all(side_apply_all(s, levels), levels) == side_apply_all(s, levels),
{
    let t = side_apply_all(s, levels);
    let u = side_apply_all(t, levels);
    law_writes_keep_side_well_formed(s, levels);
    law_writes_keep_side_well_formed(t, levels);
    assert forall|c: Dec| #[trigger] level_at(u, c) == level_at(t, c) by {
        law_level_after_writes(s, levels, c);
        law_level_after_writes(t, levels, c);
        lemma_steps_twice(level_at(s, c), c, levels);
    }
    lemma_sides_equal(u, t);
}

/// How a depth update stands to the updates already applied to a book.
#[derive(Clone, Copy, Debug, PartialEq, Eq)]
pub enum Sequence {
    /// Apply it.
    Valid,
    /// Everything in it was applied already.
    Stale,
    /// Updates between the last applied one and this one were missed.
    Gap,
}

/// The classification of an update covering `first_id ..= last_id` against a book
/// whose last applied update id is `last_seen` (`0`: nothing applied yet).
pub open spec fn spec_check_sequence(last_seen: u64, first_id: u64, last_id: u64) -> Sequence {
    if last_seen == 0 {
        Sequence::Valid
    } else if last_id <= last_seen {
        Sequence::Stale
    } else if first_id > last_seen + 1 {
        Sequence::Gap
    } else {
        Sequence::Valid
    }
}

/// The book of one binary-outcome market: bids and asks for "yes", each sorted by price.
#[derive(Debug)]
pub struct Orderbook {
    bids: Vec<(Dec, Dec)>,
    asks: Vec<(Dec, Dec)>,
    last_sequence_id: u64,
}

impl Orderbook {
    pub closed spec fn bid_levels(&self) -> Seq<(Dec, Dec)> {
        self.bids@
    }

    pub closed spec fn ask_levels(&self) -> Seq<(Dec, Dec)> {
        self.asks@
    }

    pub closed spec fn last_id(&self) -> u64 {
        self.last_sequence_id
    }

    /// Both sides are well formed; every book keeps this.
    #[verifier::type_invariant]
    pub closed spec fn wf(&self) -> bool {
        side_wf(self.bids@) && side_wf(self.asks@)
    }

    /// The highest bid price.
    pub open spec fn best_bid(&self) -> Option<Dec> {
        if self.bid_levels().len() == 0 {
            None
        } else {
            Some(self.bid_levels().last().0)
        }
    }

    /// The lowest ask price.
    pub open spec fn best_ask(&self) -> Option<Dec> {
        if self.ask_levels().len() == 0 {
            None
        } else {
            Some(self.ask_levels()[0].0)
        }
    }

    /// Both sides are quoted and the best bid is not below the best ask.
    pub open spec fn spec_is_crossed(&self) -> bool {
        match (self.best_bid(), self.best_ask()) {
            (Some(b), Some(a)) => !value_lt(b, a),
            _ => false,
        }
    }

    /// `1 - p` can be computed (the price of the other outcome).
    pub open spec fn complement_defined(p: Option<Dec>) -> bool {
        match p {
            Some(x) => decimal_checked_sub(Dec::spec_one()@, x@) is Some,
            None => true,
        }
    }

    /// `1 - p`, written at the scale of `p`, has a magnitude below `2^96`: the
    /// complement is then computed exactly.
    pub open spec fn complement_fits(p: Option<Dec>) -> bool {
        match p {
            Some(x) => fits_common_scale(
                scaled_difference(Dec::spec_one(), x),
                Dec::spec_one(),
                x,
            ),
            None => true,
        }
    }

    /// The complement `1 - p`, as `rust_decimal` computes it; exactly `1 - p`
    /// where that fits.
    pub open spec fn complement_of(p: Option<Dec>, r: Option<Dec>) -> bool {
        match p {
            Some(x) => r matches Some(d) && decimal_checked_sub(Dec::spec_one()@, x@) == Some(d@)
                && d.valid() && (Self::complement_fits(p) ==> has_scaled_value(
                d,
                scaled_difference(Dec::spec_one(), x),
                Dec::spec_one(),
                x,
            )),
            None => r is None,
        }
    }

    /// An empty book that has applied no update.
    pub fn new() -> (r: Orderbook)
        ensures
            r.bid_levels() == Seq::<(Dec, Dec)>::empty(),
            r.ask_levels() == Seq::<(Dec, Dec)>::empty(),
            r.last_id() == 0,
    {
        Orderbook { bids: Vec::new(), asks: Vec::new(), last_sequence_id: 0 }
    }

    /// The bid levels, lowest price first.
    pub fn bids(&self) -> (r: &Vec<(Dec, Dec)>)
        ensures
            r@ == self.bid_levels(),
            side_wf(r@),
    {
        proof {
            use_type_invariant(self);
        }
        &self.bids
    }

    /// The ask levels, lowest price first.
    pub fn asks(&self) -> (r: &Vec<(Dec, Dec)>)
        ensures
            r@ == self.ask_levels(),
            side_wf(r@),
    {
        proof {
            use_type_invariant(self);
        }
        &self.asks
    }

    /// The last update id applied (`0`: none).
    pub fn last_sequence_id(&self) -> (r: u64)
        ensures
            r == self.last_id(),
    {
        self.last_sequence_id
    }

    /// Classifies an update covering `first_id ..= last_id`: any update is valid for
    /// a book that has applied none; one that ends at or before the last applied id
    /// is stale; one that starts after the id following it leaves a gap.
    pub fn check_sequence(&self, first_id: u64, last_id: u64) -> (r: Sequence)
        ensures
            r == spec_check_sequence(self.last_id(), first_id, last_id),
            self.last_id() == 0 ==> r == Sequence::Valid,
            self.last_id() != 0 && last_id <= self.last_id() ==> r == Sequence::Stale,
            self.last_id() != 0 && last_id > self.last_id() && first_id > self.last_id() + 1 ==> r
                == Sequence::Gap,
            self.last_id() != 0 && last_id > self.last_id() && first_id <= self.last_id() + 1 ==> r
                == Sequence::Valid,
    {
        if self.last_sequence_id == 0 {
            return Sequence::Valid;
        }
        if last_id <= self.last_sequence_id {
            return Sequence::Stale;
        }
        if first_id > self.last_sequence_id + 1 {
            return Sequence::Gap;
        }
        Sequence::Valid
    }

    /// Applies an update: records its last id, then writes its bid levels and its
    /// ask levels, each in the order given. Both sides stay sorted and keep no zero
    /// or negative quantity.
    pub fn update(&mut self, update: DepthUpdate)
        requires
            valid_levels(update.bids@),
            valid_levels(update.asks@),
        ensures
            final(self).last_id() == update.last_update_id,
            final(self).bid_levels() == side_apply_all(old(self).bid_levels(), update.bids@),
            final(self).ask_levels() == side_apply_all(old(self).ask_levels(), update.asks@),
            side_wf(final(self).bid_levels()),
            side_wf(final(self).ask_levels()),
    {
        proof {
            use_type_invariant(&*self);
        }
        self.last_sequence_id = update.last_update_id;
        let mut bids: Vec<(Dec, Dec)> = Vec::new();
        std::mem::swap(&mut bids, &mut self.bids);
        Self::apply_all(&mut bids, &update.bids);
        self.bids = bids;
        let mut asks: Vec<(Dec, Dec)> = Vec::new();
        std::mem::swap(&mut asks, &mut self.asks);
        Self::apply_all(&mut asks, &update.asks);
        self.asks = asks;
    }

    fn apply_all(levels: &mut Vec<(Dec, Dec)>, changes: &Vec<(Dec, Dec)>)
        requires
            side_wf(old(levels)@),
            valid_levels(changes@),
        ensures
            final(levels)@ == side_apply_all(old(levels)@, changes@),
            side_wf(final(levels)@),
    {
        let n = changes.len();
        let mut i: usize = 0;
        while i < n
            invariant
                n == changes@.len(),
                0 <= i <= n,
                valid_levels(changes@),
                side_wf(levels@),
                levels@ == side_apply_all(old(levels)@, changes@.take(i as int)),
            decreases n - i,
        {
            let (price, qty) = changes[i];
            assert(changes@.take(i + 1).drop_last() =~= changes@.take(i as int));
            assert(changes@.take(i + 1).last() == changes@[i as int]);
            Self::apply_level(levels, price, qty);
            i = i + 1;
        }
        assert(changes@.take(n as int) =~= changes@);
    }

    /// Writes one level: a zero or negative quantity removes the level at that
    /// price; any other quantity sets it.
    fn apply_level(levels: &mut Vec<(Dec, Dec)>, price: Dec, qty: Dec)
        requires
            side_wf(old(levels)@),
            price.valid(),
            qty.valid(),
        ensures
            final(levels)@ == side_apply(old(levels)@, price, qty),
            side_wf(final(levels)@),
    {
        let ghost s = levels@;
        let mut k: usize = 0;
        while k < levels.len() && decimal_less_than(&levels[k].0, &price)
            invariant
                levels@ == s,
                side_wf(s),
                price.valid(),
                0 <= k <= s.len(),
                forall|j: int| 0 <= j < k ==> value_lt(#[trigger] s[j].0, price),
            decreases s.len() - k,
        {
            k = k + 1;
        }
        proof {
            assert(is_insertion_point(s, price, k as int)) by {
                assert forall|j: int| k <= j < s.len() implies !value_lt(#[trigger] s[j].0, price) by {
                    if j > k && value_lt(s[j].0, price) {
                        lemma_lt_transitive(s[k as int].0, s[j].0, price);
                    }
                }
            }
            lemma_insertion_point_unique(s, price, k as int);
            law_write_keeps_side_well_formed(s, price, qty);
        }
        let hit = k < levels.len() && !decimal_less_than(&price, &levels[k].0);
        proof {
            if k < s.len() {
                lemma_trichotomy(s[k as int].0, price);
            }
            assert(hit == has_level_at(s, price));
        }
        if qty.is_zero() || qty.is_sign_negative() {
            if hit {
                levels.remove(k);
            }
        } else if hit {
            let kept = levels[k].0;
            levels.set(k, (kept, qty));
        } else {
            levels.insert(k, (price, qty));
        }
    }

    /// True when both sides are quoted and the best bid is at or above the best ask.
    pub fn is_crossed(&self) -> (r: bool)
        ensures
            r == self.spec_is_crossed(),
    {
        if let (Some(bid), Some(ask)) = (self.yes_bid(), self.yes_ask()) {
            return !decimal_less_than(&bid, &ask);
        }
        false
    }

    /// The highest bid price, if any: no bid level is priced above it.
    pub fn yes_bid(&self) -> (r: Option<Dec>)
        ensures
            r == self.best_bid(),
            r matches Some(b) ==> b.valid() && forall|i: int|
                0 <= i < self.bid_levels().len() ==> !value_lt(b, #[trigger] self.bid_levels()[i].0),
    {
        proof {
            use_type_invariant(self);
        }
        let n = self.bids.len();
        if n == 0 {
            None
        } else {
            proof {
                assert forall|i: int| 0 <= i < self.bid_levels().len() implies !value_lt(
                    self.bids@[n - 1].0,
                    #[trigger] self.bid_levels()[i].0,
                ) by {
                    lemma_trichotomy(self.bids@[n - 1].0, self.bids@[i].0);
                    if i < n - 1 {
                        assert(value_lt(self.bids@[i].0, self.bids@[n - 1].0));
                    }
                }
            }
            Some(self.bids[n - 1].0)
        }
    }

    /// The lowest ask price, if any: no ask level is priced below it.
    pub fn yes_ask(&self) -> (r: Option<Dec>)
        ensures
            r == self.best_ask(),
            r matches Some(a) ==> a.valid() && forall|i: int|
                0 <= i < self.ask_levels().len() ==> !value_lt(#[trigger] self.ask_levels()[i].0, a),
    {
        proof {
            use_type_invariant(self);
        }
        if self.asks.len() == 0 {
            None
        } else {
            proof {
                assert forall|i: int| 0 <= i < self.ask_levels().len() implies !value_lt(
                    #[trigger] self.ask_levels()[i].0,
                    self.asks@[0].0,
                ) by {
                    lemma_trichotomy(self.asks@[i].0, self.asks@[0].0);
                    if i > 0 {
                        assert(value_lt(self.asks@[0].0, self.asks@[i].0));
                    }
                }
            }
            Some(self.asks[0].0)
        }
    }

    /// The "no" bid: `1 - ` the best "yes" ask.
    pub fn no_bid(&self) -> (r: Option<Dec>)
        requires
            Self::complement_defined(self.best_ask()),
        ensures
            Self::complement_of(self.best_ask(), r),
    {
        match self.yes_ask() {
            Some(p) => Some(Self::complement(p)),
            None => None,
        }
    }

    /// The "no" ask: `1 - ` the best "yes" bid.
    pub fn no_ask(&self) -> (r: Option<Dec>)
        requires
            Self::complement_defined(self.best_bid()),
        ensures
            Self::complement_of(self.best_bid(), r),
    {
        match self.yes_bid() {
            Some(p) => Some(Self::complement(p)),
            None => None,
        }
    }

    fn complement(p: Dec) -> (r: Dec)
        requires
            p.valid(),
            decimal_checked_sub(Dec::spec_one()@, p@) is Some,
        ensures
            decimal_checked_sub(Dec::spec_one()@, p@) == Some(r@),
            r.valid(),
            fits_common_scale(scaled_difference(Dec::spec_one(), p), Dec::spec_one(), p)
                ==> has_scaled_value(r, scaled_difference(Dec::spec_one(), p), Dec::spec_one(), p),
    {
        let one = Dec::one();
        match decimal_sub(&one, &p) {
            Some(d) => d,
            None => {
                proof {
                    assert(false);
                }
                one
            },
        }
    }

    /// `no_bid` where `1 - ` the best ask can be computed; `None` where it overflows.
    pub fn checked_no_bid(&self) -> (r: Option<Option<Dec>>)
        ensures
            r is None <==> !Self::complement_defined(self.best_ask()),
            r matches Some(x) ==> Self::complement_of(self.best_ask(), x),
            Self::complement_fits(self.best_ask()) ==> r is Some,
    {
        if let Some(p) = self.yes_ask() {
            if decimal_sub(&Dec::one(), &p).is_none() {
                return None;
            }
        }
        Some(self.no_bid())
    }

    /// `no_ask` where `1 - ` the best bid can be computed; `None` where it overflows.
    pub fn checked_no_ask(&self) -> (r: Option<Option<Dec>>)
        ensures
            r is None <==> !Self::complement_defined(self.best_bid()),
            r matches Some(x) ==> Self::complement_of(self.best_bid(), x),
            Self::complement_fits(self.best_bid()) ==> r is Some,
    {
        if let Some(p) = self.yes_bid() {
            if decimal_sub(&Dec::one(), &p).is_none() {
                return None;
            }
        }
        Some(self.no_ask())
    }

    /// The spread is defined: there is no pair of best prices, or their difference
    /// can be computed.
    pub open spec fn spread_defined(&self) -> bool {
        match (self.best_bid(), self.best_ask()) {
            (Some(b), Some(a)) => decimal_checked_sub(a@, b@) is Some,
            _ => true,
        }
    }

    /// `best ask - best bid`, written at the larger scale of the two, has a
    /// magnitude below `2^96`: the spread is then computed exactly.
    pub open spec fn spread_fits(&self) -> bool {
        match (self.best_bid(), self.best_ask()) {
            (Some(b), Some(a)) => fits_common_scale(scaled_difference(a, b), a, b),
            _ => true,
        }
    }

    /// `r` is the spread `best ask - best bid`, or `None` when a side is empty; it
    /// is positive exactly when the book is not crossed, and exact where it fits.
    pub open spec fn is_spread(&self, r: Option<Dec>) -> bool {
        match (self.best_bid(), self.best_ask()) {
            (Some(b), Some(a)) => r matches Some(d) && decimal_checked_sub(a@, b@) == Some(d@)
                && d.valid() && (d.numerator() > 0 <==> !self.spec_is_crossed()) && (
            self.spread_fits() ==> has_scaled_value(d, scaled_difference(a, b), a, b)),
            _ => r is None,
        }
    }

    /// The best ask minus the best bid, when both sides are quoted.
    pub fn spread(&self) -> (r: Option<Dec>)
        requires
            self.spread_defined(),
        ensures
            self.is_spread(r),
    {
        match (self.yes_bid(), self.yes_ask()) {
            (Some(bid), Some(ask)) => match decimal_sub(&ask, &bid) {
                Some(d) => Some(d),
                None => {
                    proof {
                        assert(false);
                    }
                    None
                },
            },
            _ => None,
        }
    }

    /// `spread` where the difference can be computed; `None` where it overflows.
    pub fn checked_spread(&self) -> (r: Option<Option<Dec>>)
        ensures
            r is None <==> !self.spread_defined(),
            r matches Some(x) ==> self.is_spread(x),
            self.spread_fits() ==> r is Some,
    {
        if let (Some(bid), Some(ask)) = (self.yes_bid(), self.yes_ask()) {
            if decimal_sub(&ask, &bid).is_none() {
                return None;
            }
        }
        Some(self.spread())
    }
}

/// The text that `str::to_uppercase` gives for a text.
pub uninterp spec fn upper_case(s: Seq<char>) -> Seq<char>;

/// `str::to_uppercase`.
///
/// Claims only that the result is the named `upper_case` of the text.
#[verifier::external_body]
fn to_upper(s: &str) -> (r: String)
    ensures
        r@ == upper_case(s@),
{
    s.to_uppercase()
}

/// What a depth update did to a book.
#[derive(Clone, Debug, PartialEq, Eq)]
pub enum BookOutcome {
    /// Applied; the book is sound and quotes these prices.
    Quoted { yes_ask: Option<Dec>, no_ask: Option<Dec> },
    /// Applied, and the book is now crossed: it must be rebuilt.
    Crossed,
    /// Not applied: updates were missed, so the book must be rebuilt.
    Gap,
    /// Not applied: it was applied already.
    Stale,
    /// Applied, but `1 - ` the best bid overflows a decimal.
    QuoteOverflow,
}

impl BookOutcome {
    /// The book must be dropped and its symbol subscribed again.
    pub fn needs_resync(&self) -> (r: bool)
        ensures
            r == (self is Crossed || self is Gap),
    {
        match self {
            BookOutcome::Crossed | BookOutcome::Gap => true,
            _ => false,
        }
    }
}

/// Keeps the books of the markets up to date with the feed.
pub struct BookKeeper;

impl BookKeeper {
    /// The key under which a market is kept: its symbol in upper case.
    pub fn market_key(symbol: &str) -> (r: String)
        ensures
            r@ == upper_case(symbol@),
    {
        to_upper(symbol)
    }

    /// Handles a depth update for a book: a valid update is applied and the book
    /// is then checked for a crossed market and quoted; a gap or a stale update
    /// leaves the book as it was.
    pub fn handle_update(book: &mut Orderbook, update: DepthUpdate) -> (r: BookOutcome)
        requires
            valid_levels(update.bids@),
            valid_levels(update.asks@),
        ensures
            match spec_check_sequence(old(book).last_id(), update.first_update_id, update.last_update_id) {
                Sequence::Valid => {
                    &&& final(book).last_id() == update.last_update_id
                    &&& final(book).bid_levels() == side_apply_all(old(book).bid_levels(), update.bids@)
                    &&& final(book).ask_levels() == side_apply_all(old(book).ask_levels(), update.asks@)
                    &&& if final(book).spec_is_crossed() {
                        r is Crossed
                    } else if !Orderbook::complement_defined(final(book).best_bid()) {
                        r is QuoteOverflow
                    } else {
                        r matches BookOutcome::Quoted { yes_ask, no_ask }
                            && yes_ask == final(book).best_ask()
                            && Orderbook::complement_of(final(book).best_bid(), no_ask)
                    }
                },
                Sequence::Gap => r is Gap && *final(book) == *old(book),
                Sequence::Stale => r is Stale && *final(book) == *old(book),
            },
            spec_check_sequence(old(book).last_id(), update.first_update_id, update.last_update_id)
                == Sequence::Valid && !final(book).spec_is_crossed() && Orderbook::complement_fits(
                final(book).best_bid(),
            ) ==> r is Quoted,
    {
        match book.check_sequence(update.first_update_id, update.last_update_id) {
            Sequence::Valid => {
                book.update(update);
                if book.is_crossed() {
                    BookOutcome::Crossed
                } else {
                    match book.checked_no_ask() {
                        Some(no_ask) => BookOutcome::Quoted { yes_ask: book.yes_ask(), no_ask },
                        None => BookOutcome::QuoteOverflow,
                    }
                }
            },
            Sequence::Gap => BookOutcome::Gap,
            Sequence::Stale => BookOutcome::Stale,
        }
    }
}

/// An update that starts at or before the id following the last applied one, and
/// ends after it, is applied.
pub proof fn law_contiguous_update_is_valid(last_seen: u64, first_id: u64, last_id: u64)
    requires
        first_id <= last_seen + 1,
        last_id > last_seen,
    ensures
        spec_check_sequence(last_seen, first_id, last_id) == Sequence::Valid,
{
}

/// For a book that has applied an update, an update that ends after the last
/// applied id but starts after the id following it has missed updates: it is a gap.
pub proof fn law_missing_updates_are_a_gap(last_seen: u64, first_id: u64, last_id: u64)
    requires
        last_seen != 0,
        last_id > last_seen,
        first_id > last_seen + 1,
    ensures
        spec_check_sequence(last_seen, first_id, last_id) == Sequence::Gap,
{
}

/// An update that ends at or before the last applied id is stale, once any
/// update has been applied.
pub proof fn law_old_update_is_stale(last_seen: u64, first_id: u64, last_id: u64)
    requires
        last_seen != 0,
        last_id <= last_seen,
    ensures
        spec_check_sequence(last_seen, first_id, last_id) == Sequence::Stale,
{
}

/// Once a book has applied an update with a nonzero last id, the same update
/// arriving again is stale.
pub proof fn law_replayed_update_is_stale(update: DepthUpdate, after: Orderbook)
    requires
        after.last_id() == update.last_update_id,
        update.last_update_id > 0,
    ensures
        spec_check_sequence(after.last_id(), update.first_update_id, update.last_update_id)
            == Sequence::Stale,
{
}

/// Applying the same update twice leaves a book as applying it once.
pub proof fn law_update_twice_is_once(b0: Orderbook, b1: Orderbook, b2: Orderbook, update: DepthUpdate)
    requires
        b0.wf(),
        valid_levels(update.bids@),
        valid_levels(update.asks@),
        b1.last_id() == update.last_update_id,
        b1.bid_levels() == side_apply_all(b0.bid_levels(), update.bids@),
        b1.ask_levels() == side_apply_all(b0.ask_levels(), update.asks@),
        b2.last_id() == update.last_update_id,
        b2.bid_levels() == side_apply_all(b1.bid_levels(), update.bids@),
        b2.ask_levels() == side_apply_all(b1.ask_levels(), update.asks@),
    ensures
        b2.bid_levels() == b1.bid_levels(),
        b2.ask_levels() == b1.ask_levels(),
        b2.last_id() == b1.last_id(),
{
    law_writes_twice_is_once(b0.bid_levels(), update.bids@);
    law_writes_twice_is_once(b0.ask_levels(), update.asks@);
}

} // verus!
