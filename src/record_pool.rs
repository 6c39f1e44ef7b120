//! A fixed-capacity pool that keeps the largest or the smallest differences
//! offered to it, each with the code of its description.

use crate::amount::{compare, Amount};
use std::cmp::Ordering;
use vstd::prelude::*;

verus! {

/// Which end of the ordering a pool keeps.
#[derive(Clone, Copy, Debug, PartialEq, Eq, Structural)]
pub enum PoolType {
    /// The pool keeps the largest values.
    Most,
    /// The pool keeps the smallest values.
    Least,
}

/// A difference and the code of its description.
pub type Entry = (Amount, usize);

/// The entries are well formed and strictly ascending by value, so that no
/// two of them hold the same number.
pub open spec fn sorted(s: Seq<Entry>) -> bool {
    &&& forall|i: int| 0 <= i < s.len() ==> (#[trigger] s[i]).0.wf()
    &&& forall|i: int, j: int| 0 <= i < j < s.len() ==> s[i].0.value() < s[j].0.value()
}

/// Some entry holds the value `v`.
pub open spec fn has_value(s: Seq<Entry>, v: int) -> bool {
    exists|i: int| 0 <= i < s.len() && s[i].0.value() == v
}

/// The position of the entry that holds `v`.
pub open spec fn index_of(s: Seq<Entry>, v: int) -> int {
    choose|i: int| 0 <= i < s.len() && s[i].0.value() == v
}

/// The code under which `s` holds the value `v`, if it holds it.
pub open spec fn held_code(s: Seq<Entry>, v: int) -> Option<usize> {
    if has_value(s, v) {
        Some(s[index_of(s, v)].1)
    } else {
        None
    }
}

/// The number of leading entries whose value lies below `v`; in a sorted
/// sequence, where an entry of value `v` belongs.
pub open spec fn rank(s: Seq<Entry>, v: int) -> nat
    decreases s.len(),
{
    if s.len() > 0 && s[0].0.value() < v {
        1 + rank(s.drop_first(), v)
    } else {
        0
    }
}

/// Whether a pool with entries `s` accepts the value `v`: always while it has
/// room; once full, a value beyond its kept end, or one within the range of
/// values it holds.
pub open spec fn fits_spec(s: Seq<Entry>, bounds: nat, kind: PoolType, v: int) -> bool {
    if s.len() < bounds {
        true
    } else {
        let smallest = s[0].0.value();
        let largest = s.last().0.value();
        ||| (kind == PoolType::Most && v > largest)
        ||| (kind == PoolType::Least && v < smallest)
        ||| (smallest <= v && v <= largest)
    }
}

/// The entries after offering `(v, c)` to a pool with entries `s`, and the
/// entry evicted, if any. A value already held has its code replaced; a new
/// value is placed in order, and where that overfills the pool the entry at
/// the end that the pool does not keep leaves it.
pub open spec fn insert_spec(s: Seq<Entry>, bounds: nat, kind: PoolType, v: Amount, c: usize) -> (
    Seq<Entry>,
    Option<Entry>,
) {
    if !fits_spec(s, bounds, kind, v.value()) {
        (s, None)
    } else if has_value(s, v.value()) {
        let i = index_of(s, v.value());
        (s.update(i, (s[i].0, c)), None)
    } else {
        let p = s.insert(rank(s, v.value()) as int, (v, c));
        if p.len() > bounds {
            if kind == PoolType::Most {
                (p.drop_first(), Some(p[0]))
            } else {
                (p.drop_last(), Some(p.last()))
            }
        } else {
            (p, None)
        }
    }
}

proof fn lemma_rank(s: Seq<Entry>, v: int, i: int)
    requires
        sorted(s),
        0 <= i <= s.len(),
        forall|j: int| 0 <= j < i ==> s[j].0.value() < v,
        i < s.len() ==> s[i].0.value() >= v,
    ensures
        rank(s, v) == i,
    decreases s.len(),
{
    if i > 0 {
        let t = s.drop_first();
        assert forall|j: int| 0 <= j < i - 1 implies t[j].0.value() < v by {
            assert(t[j] == s[j + 1]);
        }
        if i - 1 < t.len() {
            assert(t[i - 1] == s[i]);
        }
        assert(sorted(t)) by {
            assert forall|a: int| 0 <= a < t.len() implies (#[trigger] t[a]).0.wf() by {
                assert(t[a] == s[a + 1]);
            }
            assert forall|a: int, b: int| 0 <= a < b < t.len() implies t[a].0.value()
                < t[b].0.value() by {
                assert(t[a] == s[a + 1]);
                assert(t[b] == s[b + 1]);
            }
        }
        lemma_rank(t, v, i - 1);
    }
}

/// `x` lies beyond every entry of `s` on the side that a pool of `kind` drops:
/// below all of them for `Most`, above all of them for `Least`.
pub open spec fn outranked(x: int, s: Seq<Entry>, kind: PoolType) -> bool {
    forall|i: int|
        0 <= i < s.len() ==> if kind == PoolType::Most {
            x < #[trigger] s[i].0.value()
        } else {
            x > #[trigger] s[i].0.value()
        }
}

/// The entries of a pool that starts with `s` and is offered `offers` in turn.
pub open spec fn offer_all(s: Seq<Entry>, bounds: nat, kind: PoolType, offers: Seq<Entry>) -> Seq<
    Entry,
>
    decreases offers.len(),
{
    if offers.len() == 0 {
        s
    } else {
        let before = offer_all(s, bounds, kind, offers.drop_last());
        insert_spec(before, bounds, kind, offers.last().0, offers.last().1).0
    }
}

proof fn lemma_sorted_drop_first(s: Seq<Entry>)
    requires
        sorted(s),
        s.len() > 0,
    ensures
        sorted(s.drop_first()),
{
    let t = s.drop_first();
    assert forall|a: int| 0 <= a < t.len() implies (#[trigger] t[a]).0.wf() by {
        assert(t[a] == s[a + 1]);
    }
    assert forall|a: int, b: int| 0 <= a < b < t.len() implies t[a].0.value() < t[b].0.value() by {
        assert(t[a] == s[a + 1]);
        assert(t[b] == s[b + 1]);
    }
}

/// In a sorted sequence, the entries before `rank(s, v)` lie below `v` and
/// the others do not.
proof fn lemma_rank_split(s: Seq<Entry>, v: int)
    requires
        sorted(s),
    ensures
        rank(s, v) <= s.len(),
        forall|j: int| 0 <= j < rank(s, v) ==> s[j].0.value() < v,
        forall|j: int| rank(s, v) <= j < s.len() ==> s[j].0.value() >= v,
    decreases s.len(),
{
    if s.len() > 0 {
        let t = s.drop_first();
        lemma_sorted_drop_first(s);
        lemma_rank_split(t, v);
        if s[0].0.value() < v {
            assert forall|j: int| 0 <= j < rank(s, v) implies s[j].0.value() < v by {
                if j > 0 {
                    assert(s[j] == t[j - 1]);
                }
            }
            assert forall|j: int| rank(s, v) <= j < s.len() implies s[j].0.value() >= v by {
                assert(s[j] == t[j - 1]);
            }
        } else {
            assert forall|j: int| 0 <= j < s.len() implies s[j].0.value() >= v by {
                if j > 0 {
                    assert(s[0].0.value() < s[j].0.value());
                }
            }
        }
    }
}

/// One offer to a pool keeps it sorted and within bounds, never shrinks it,
/// holds only values that were there or offered, and drops only values that
/// the remaining entries outrank; while the pool has room it drops nothing.
pub proof fn lemma_insert_step(s: Seq<Entry>, bounds: nat, kind: PoolType, v: Amount, c: usize)
    requires
        sorted(s),
        s.len() <= bounds,
        bounds >= 1,
        v.wf(),
    ensures
        ({
            let (t, ev) = insert_spec(s, bounds, kind, v, c);
            &&& sorted(t)
            &&& s.len() <= t.len() <= bounds
            &&& ev matches Some(e) ==> e.0.wf() && (has_value(s, e.0.value()) || e.0.value()
                == v.value()) && !has_value(t, e.0.value())
            &&& forall|x: int| has_value(t, x) ==> has_value(s, x) || x == v.value()
            &&& forall|x: int|
                (has_value(s, x) || x == v.value()) && !has_value(t, x) ==> outranked(x, t, kind)
            &&& t.len() < bounds ==> forall|x: int|
                has_value(s, x) || x == v.value() ==> has_value(t, x)
        }),
{
    let vv = v.value();
    let (t, ev) = insert_spec(s, bounds, kind, v, c);
    if !fits_spec(s, bounds, kind, vv) {
        assert forall|x: int| (has_value(s, x) || x == vv) && !has_value(t, x) implies outranked(
            x,
            t,
            kind,
        ) by {
            assert(x == vv);
            assert forall|i: int| 0 <= i < t.len() implies if kind == PoolType::Most {
                x < #[trigger] t[i].0.value()
            } else {
                x > #[trigger] t[i].0.value()
            } by {
                if i > 0 {
                    assert(s[0].0.value() < s[i].0.value());
                }
                if i < s.len() - 1 {
                    assert(s[i].0.value() < s.last().0.value());
                }
            }
        }
    } else if has_value(s, vv) {
        let i = index_of(s, vv);
        assert forall|x: int| has_value(t, x) implies has_value(s, x) || x == vv by {
            let k = choose|k: int| 0 <= k < t.len() && t[k].0.value() == x;
            assert(s[k].0 == t[k].0);
        }
        assert forall|x: int| has_value(s, x) || x == vv implies has_value(t, x) by {
            if has_value(s, x) {
                let k = choose|k: int| 0 <= k < s.len() && s[k].0.value() == x;
                assert(s[k].0 == t[k].0);
            } else {
                assert(t[i].0.value() == vv);
            }
        }
        assert(sorted(t)) by {
            assert forall|a: int| 0 <= a < t.len() implies (#[trigger] t[a]).0.wf() by {
                assert(s[a].0 == t[a].0);
            }
            assert forall|a: int, b: int| 0 <= a < b < t.len() implies t[a].0.value()
                < t[b].0.value() by {
                assert(s[a].0 == t[a].0);
                assert(s[b].0 == t[b].0);
            }
        }
    } else {
        let r = rank(s, vv) as int;
        lemma_rank_split(s, vv);
        let p = s.insert(r, (v, c));
        assert forall|j: int| r <= j < s.len() implies s[j].0.value() > vv by {
            if s[j].0.value() == vv {
                assert(has_value(s, vv));
            }
        }
        assert(sorted(p)) by {
            assert forall|a: int| 0 <= a < p.len() implies (#[trigger] p[a]).0.wf() by {
                if a < r {
                    assert(p[a] == s[a]);
                } else if a > r {
                    assert(p[a] == s[a - 1]);
                }
            }
            assert forall|a: int, b: int| 0 <= a < b < p.len() implies p[a].0.value()
                < p[b].0.value() by {
                if b < r {
                } else if b == r {
                    assert(p[a] == s[a]);
                } else if a < r {
                    assert(p[a] == s[a]);
                    assert(p[b] == s[b - 1]);
                } else if a == r {
                    assert(p[b] == s[b - 1]);
                } else {
                    assert(p[a] == s[a - 1]);
                    assert(p[b] == s[b - 1]);
                }
            }
        }
        // Values of p: those of s and v.
        assert forall|x: int| has_value(p, x) <==> (has_value(s, x) || x == vv) by {
            if has_value(p, x) {
                let k = choose|k: int| 0 <= k < p.len() && p[k].0.value() == x;
                if k < r {
                    assert(p[k] == s[k]);
                } else if k > r {
                    assert(p[k] == s[k - 1]);
                }
            }
            if has_value(s, x) {
                let k = choose|k: int| 0 <= k < s.len() && s[k].0.value() == x;
                if k < r {
                    assert(p[k] == s[k]);
                } else {
                    assert(p[k + 1] == s[k]);
                }
            }
            if x == vv {
                assert(p[r].0.value() == vv);
            }
        }
        if p.len() > bounds {
            if kind == PoolType::Most {
                let q = p.drop_first();
                assert(sorted(q)) by {
                    lemma_sorted_drop_first(p);
                }
                assert forall|x: int| has_value(q, x) implies has_value(p, x) by {
                    if has_value(q, x) {
                        let k = choose|k: int| 0 <= k < q.len() && q[k].0.value() == x;
                        assert(q[k] == p[k + 1]);
                    }
                }
                assert forall|x: int| has_value(p, x) && !has_value(q, x) implies outranked(
                    x,
                    q,
                    kind,
                ) by {
                    let k = choose|k: int| 0 <= k < p.len() && p[k].0.value() == x;
                    if k > 0 {
                        assert(q[k - 1] == p[k]);
                    }
                    assert forall|i: int| 0 <= i < q.len() implies x < #[trigger] q[i].0.value() by {
                        assert(q[i] == p[i + 1]);
                    }
                }
                assert(!has_value(q, p[0].0.value())) by {
                    if has_value(q, p[0].0.value()) {
                        let k = choose|k: int| 0 <= k < q.len() && q[k].0.value() == p[0].0.value();
                        assert(q[k] == p[k + 1]);
                    }
                }
                assert(p[0].0.wf());
            } else {
                let q = p.drop_last();
                assert(sorted(q)) by {
                    assert forall|a: int| 0 <= a < q.len() implies (#[trigger] q[a]).0.wf() by {
                        assert(q[a] == p[a]);
                    }
                    assert forall|a: int, b: int| 0 <= a < b < q.len() implies q[a].0.value()
                        < q[b].0.value() by {
                        assert(q[a] == p[a]);
                        assert(q[b] == p[b]);
                    }
                }
                assert forall|x: int| has_value(q, x) implies has_value(p, x) by {
                    if has_value(q, x) {
                        let k = choose|k: int| 0 <= k < q.len() && q[k].0.value() == x;
                        assert(q[k] == p[k]);
                    }
                }
                let last = p.len() - 1;
                assert forall|x: int| has_value(p, x) && !has_value(q, x) implies outranked(
                    x,
                    q,
                    kind,
                ) by {
                    let k = choose|k: int| 0 <= k < p.len() && p[k].0.value() == x;
                    if k < last {
                        assert(q[k] == p[k]);
                    }
                    assert forall|i: int| 0 <= i < q.len() implies x > #[trigger] q[i].0.value() by {
                        assert(q[i] == p[i]);
                    }
                }
                assert(!has_value(q, p[last].0.value())) by {
                    if has_value(q, p[last].0.value()) {
                        let k = choose|k: int|
                            0 <= k < q.len() && q[k].0.value() == p[last].0.value();
                        assert(q[k] == p[k]);
                    }
                }
                assert(p[last].0.wf());
            }
        }
    }
}

/// A pool that starts empty and is offered `offers` in turn ends up holding
/// exactly the most extreme of the values offered: every value it holds was
/// offered, every offered value it does not hold is outranked by all that it
/// holds, and while it has room it holds every value offered.
pub proof fn lemma_pool_keeps_extremes(bounds: nat, kind: PoolType, offers: Seq<Entry>)
    requires
        bounds >= 1,
        forall|i: int| 0 <= i < offers.len() ==> (#[trigger] offers[i]).0.wf(),
    ensures
        ({
            let t = offer_all(Seq::empty(), bounds, kind, offers);
            &&& sorted(t)
            &&& t.len() <= bounds
            &&& forall|x: int|
                has_value(t, x) ==> exists|i: int| 0 <= i < offers.len() && offers[i].0.value() == x
            &&& forall|i: int|
                0 <= i < offers.len() && !has_value(t, #[trigger] offers[i].0.value())
                    ==> outranked(offers[i].0.value(), t, kind)
            &&& t.len() < bounds ==> forall|i: int|
                0 <= i < offers.len() ==> has_value(t, #[trigger] offers[i].0.value())
        }),
    decreases offers.len(),
{
    let t = offer_all(Seq::empty(), bounds, kind, offers);
    if offers.len() > 0 {
        let front = offers.drop_last();
        let e = offers.last();
        assert forall|i: int| 0 <= i < front.len() implies (#[trigger] front[i]).0.wf() by {
            assert(front[i] == offers[i]);
        }
        lemma_pool_keeps_extremes(bounds, kind, front);
        let s = offer_all(Seq::empty(), bounds, kind, front);
        assert(e == offers[offers.len() - 1]);
        lemma_insert_step(s, bounds, kind, e.0, e.1);
        let n = offers.len() - 1;
        assert forall|x: int| has_value(t, x) implies exists|i: int|
            0 <= i < offers.len() && offers[i].0.value() == x by {
            if has_value(s, x) {
                let i = choose|i: int| 0 <= i < front.len() && front[i].0.value() == x;
                assert(offers[i] == front[i]);
            } else {
                assert(offers[n].0.value() == x);
            }
        }
        assert forall|i: int|
            0 <= i < offers.len() && !has_value(t, #[trigger] offers[i].0.value()) implies outranked(
            offers[i].0.value(),
            t,
            kind,
        ) by {
            let x = offers[i].0.value();
            if i < n {
                assert(front[i] == offers[i]);
                if !has_value(s, x) {
                    // x was dropped earlier, so the pool was full, and v was
                    // accepted past the pool's kept end wherever it now stands.
                    assert(outranked(x, s, kind));
                    assert(s.len() == bounds);
                    assert forall|k: int| 0 <= k < t.len() implies if kind == PoolType::Most {
                        x < #[trigger] t[k].0.value()
                    } else {
                        x > #[trigger] t[k].0.value()
                    } by {
                        let y = t[k].0.value();
                        assert(has_value(t, y));
                        if has_value(s, y) {
                            let j = choose|j: int| 0 <= j < s.len() && s[j].0.value() == y;
                        } else {
                            assert(y == e.0.value());
                            assert(fits_spec(s, bounds, kind, y)) by {
                                if !fits_spec(s, bounds, kind, y) {
                                    assert(t == s);
                                }
                            }
                            if kind == PoolType::Most {
                                assert(x < s[0].0.value());
                            } else {
                                assert(x > s[s.len() - 1].0.value());
                            }
                        }
                    }
                }
            } else {
                assert(i == n);
            }
        }
        assert(t.len() < bounds ==> forall|i: int|
            0 <= i < offers.len() ==> has_value(t, #[trigger] offers[i].0.value())) by {
            if t.len() < bounds {
                assert forall|i: int| 0 <= i < offers.len() implies has_value(
                    t,
                    #[trigger] offers[i].0.value(),
                ) by {
                    if i < n {
                        assert(front[i] == offers[i]);
                        assert(has_value(s, front[i].0.value()));
                    }
                }
            }
        }
    }
}

/// The number of entries of `s` with code `c`.
pub open spec fn uses(s: Seq<Entry>, c: usize) -> nat
    decreases s.len(),
{
    if s.len() == 0 {
        0
    } else {
        uses(s.drop_last(), c) + if s.last().1 == c {
            1nat
        } else {
            0nat
        }
    }
}

proof fn lemma_uses_add(a: Seq<Entry>, b: Seq<Entry>, c: usize)
    ensures
        uses(a + b, c) == uses(a, c) + uses(b, c),
    decreases b.len(),
{
    if b.len() == 0 {
        assert(a + b =~= a);
    } else {
        lemma_uses_add(a, b.drop_last(), c);
        assert((a + b).drop_last() =~= a + b.drop_last());
    }
}

proof fn lemma_uses_one(e: Entry, c: usize)
    ensures
        uses(seq![e], c) == if e.1 == c {
            1nat
        } else {
            0nat
        },
{
    assert(seq![e].drop_last() =~= Seq::<Entry>::empty());
    assert(uses(Seq::<Entry>::empty(), c) == 0);
}

/// Offering a value to a pool that accepts it adds one use of the offered
/// code, and takes away one use of the code that the evicted entry had, or of
/// the code that the pool held the value under.
pub proof fn lemma_insert_uses(s: Seq<Entry>, bounds: nat, kind: PoolType, v: Amount, c: usize)
    requires
        sorted(s),
        s.len() <= bounds,
        fits_spec(s, bounds, kind, v.value()),
    ensures
        ({
            let (t, ev) = insert_spec(s, bounds, kind, v, c);
            &&& has_value(s, v.value()) ==> ev is None
            &&& forall|k: usize|
                uses(t, k) + (if ev matches Some(e) && e.1 == k {
                    1nat
                } else {
                    0nat
                }) + (if held_code(s, v.value()) == Some(k) {
                    1nat
                } else {
                    0nat
                }) == #[trigger] uses(s, k) + (if c == k {
                    1nat
                } else {
                    0nat
                })
        }),
{
    let (t, ev) = insert_spec(s, bounds, kind, v, c);
    if has_value(s, v.value()) {
        let i = index_of(s, v.value());
        let x = s[i];
        assert forall|k: usize|
            uses(t, k) + (if ev matches Some(e) && e.1 == k {
                1nat
            } else {
                0nat
            }) + (if held_code(s, v.value()) == Some(k) {
                1nat
            } else {
                0nat
            }) == #[trigger] uses(s, k) + (if c == k {
                1nat
            } else {
                0nat
            }) by {
            assert(s =~= s.take(i) + seq![x] + s.skip(i + 1));
            assert(t =~= s.take(i) + seq![(x.0, c)] + s.skip(i + 1));
            lemma_uses_add(s.take(i) + seq![x], s.skip(i + 1), k);
            lemma_uses_add(s.take(i), seq![x], k);
            lemma_uses_add(s.take(i) + seq![(x.0, c)], s.skip(i + 1), k);
            lemma_uses_add(s.take(i), seq![(x.0, c)], k);
            lemma_uses_one(x, k);
            lemma_uses_one((x.0, c), k);
        }
        return;
    }
    let r = rank(s, v.value()) as int;
    lemma_rank_split(s, v.value());
    let p = s.insert(r, (v, c));
    assert forall|k: usize| #[trigger] uses(p, k) == uses(s, k) + (if c == k {
        1nat
    } else {
        0nat
    }) by {
        assert(p =~= s.take(r) + seq![(v, c)] + s.skip(r));
        assert(s =~= s.take(r) + s.skip(r));
        lemma_uses_add(s.take(r) + seq![(v, c)], s.skip(r), k);
        lemma_uses_add(s.take(r), seq![(v, c)], k);
        lemma_uses_add(s.take(r), s.skip(r), k);
        lemma_uses_one((v, c), k);
    }
    assert forall|k: usize|
        uses(t, k) + (if ev matches Some(e) && e.1 == k {
            1nat
        } else {
            0nat
        }) + (if held_code(s, v.value()) == Some(k) {
            1nat
        } else {
            0nat
        }) == #[trigger] uses(s, k) + (if c == k {
            1nat
        } else {
            0nat
        }) by {
        assert(uses(p, k) == uses(s, k) + (if c == k {
            1nat
        } else {
            0nat
        }));
        if p.len() > bounds {
            if kind == PoolType::Most {
                assert(t == p.drop_first() && ev == Some(p[0]));
                assert(p =~= seq![p[0]] + p.drop_first());
                lemma_uses_add(seq![p[0]], p.drop_first(), k);
                lemma_uses_one(p[0], k);
            } else {
                assert(t == p.drop_last() && ev == Some(p.last()));
                assert(uses(p, k) == uses(p.drop_last(), k) + (if p.last().1 == k {
                    1nat
                } else {
                    0nat
                }));
            }
        } else {
            assert(t == p && ev is None);
        }
    }
}

/// A pool of at most `bounds` entries, ascending by difference.
#[derive(Debug)]
pub struct RecordPool {
    /// The entries, strictly ascending by value.
    pub records: Vec<Entry>,
    /// The number of entries the pool may hold.
    pub bounds: usize,
    /// Which end of the ordering the pool keeps.
    pub pool_type: PoolType,
}

impl RecordPool {
    pub open spec fn wf(&self) -> bool {
        &&& self.bounds >= 1
        &&& self.records@.len() <= self.bounds
        &&& sorted(self.records@)
    }

    /// An empty pool for `bounds` entries; a pool for no entries is refused.
    pub fn new(bounds: usize, pool_type: PoolType) -> (r: Result<RecordPool, String>)
        ensures
            r.is_ok() == (bounds > 0),
            r matches Err(e) ==> e@ == "Bounds for RecordPool cannot be 0"@,
            r matches Ok(p) ==> p.wf() && p.records@.len() == 0 && p.bounds == bounds
                && p.pool_type == pool_type,
    {
        if bounds == 0 {
            return Err("Bounds for RecordPool cannot be 0".to_owned());
        }
        Ok(RecordPool { records: Vec::new(), bounds, pool_type })
    }

    /// The code under which the pool holds the value of `difference`, if it
    /// holds it.
    pub fn code_at(&self, difference: &Amount) -> (r: Option<usize>)
        requires
            self.wf(),
            difference.wf(),
        ensures
            r == held_code(self.records@, difference.value()),
    {
        let ghost s = self.records@;
        let ghost v = difference.value();
        let mut i: usize = 0;
        while i < self.records.len()
            invariant
                self.records@ == s,
                sorted(s),
                difference.wf(),
                v == difference.value(),
                0 <= i <= s.len(),
                forall|j: int| 0 <= j < i ==> s[j].0.value() != v,
            decreases s.len() - i,
        {
            if matches!(compare(&self.records[i].0, difference), Ordering::Equal) {
                assert(has_value(s, v));
                assert(index_of(s, v) == i) by {
                    let k = index_of(s, v);
                    if k < i {
                    } else if k > i {
                        assert(s[i as int].0.value() < s[k].0.value());
                    }
                }
                return Some(self.records[i].1);
            }
            i = i + 1;
        }
        None
    }

    /// Whether the pool accepts `difference`.
    pub fn fits(&self, difference: &Amount) -> (r: bool)
        requires
            self.wf(),
            difference.wf(),
        ensures
            r == fits_spec(self.records@, self.bounds as nat, self.pool_type, difference.value()),
    {
        let n = self.records.len();
        if n < self.bounds {
            return true;
        }
        let smallest = &self.records[0].0;
        let largest = &self.records[n - 1].0;
        match self.pool_type {
            PoolType::Most => {
                if matches!(compare(difference, largest), Ordering::Greater) {
                    return true;
                }
            },
            PoolType::Least => {
                if matches!(compare(difference, smallest), Ordering::Less) {
                    return true;
                }
            },
        }
        !matches!(compare(difference, smallest), Ordering::Less)
            && !matches!(compare(difference, largest), Ordering::Greater)
    }

    /// Offers `(difference, description_code)` to the pool, and returns the
    /// entry that it evicted, if any.
    pub fn insert(&mut self, difference: Amount, description_code: usize) -> (r: Option<Entry>)
        requires
            old(self).wf(),
            difference.wf(),
        ensures
            final(self).wf(),
            final(self).bounds == old(self).bounds,
            final(self).pool_type == old(self).pool_type,
            r matches Some(e) ==> e.0.wf(),
            (final(self).records@, r) == insert_spec(
                old(self).records@,
                old(self).bounds as nat,
                old(self).pool_type,
                difference,
                description_code,
            ),
    {
        if !self.fits(&difference) {
            return None;
        }
        let ghost s = self.records@;
        let ghost v = difference.value();
        let n = self.records.len();
        let mut i: usize = 0;
        while i < n && matches!(compare(&self.records[i].0, &difference), Ordering::Less)
            invariant
                self.records@ == s,
                n == s.len(),
                sorted(s),
                difference.wf(),
                v == difference.value(),
                0 <= i <= n,
                forall|j: int| 0 <= j < i ==> s[j].0.value() < v,
            decreases n - i,
        {
            i = i + 1;
        }
        if i < n && matches!(compare(&self.records[i].0, &difference), Ordering::Equal) {
            assert(has_value(s, v));
            assert(index_of(s, v) == i) by {
                let k = index_of(s, v);
                if k < i {
                } else if k > i {
                }
            }
            if self.records[i].1 == description_code {
                assert(s.update(i as int, (s[i as int].0, description_code)) =~= s);
                return None;
            }
            let key = self.records[i].0;
            self.records.set(i, (key, description_code));
            return None;
        }
        assert(!has_value(s, v)) by {
            if has_value(s, v) {
                let k = index_of(s, v);
                if k < i {
                } else if k > i {
                    assert(s[i as int].0.value() < s[k].0.value());
                }
            }
        }
        proof {
            lemma_rank(s, v, i as int);
        }
        self.records.insert(i, (difference, description_code));
        let ghost p = self.records@;
        assert(sorted(p)) by {
            assert forall|a: int, b: int| 0 <= a < b < p.len() implies p[a].0.value()
                < p[b].0.value() by {
                if b < i {
                } else if b == i {
                } else if a < i {
                    assert(s[a].0.value() < v);
                    if i < n {
                        assert(s[i as int].0.value() > v);
                    }
                } else if a == i {
                    assert(s[i as int].0.value() > v);
                } else {
                }
            }
        }
        if self.records.len() > self.bounds {
            match self.pool_type {
                PoolType::Most => {
                    let e = self.records.remove(0);
                    assert(self.records@ =~= p.drop_first());
                    Some(e)
                },
                PoolType::Least => {
                    let e = self.records.pop();
                    assert(self.records@ =~= p.drop_last());
                    e
                },
            }
        } else {
            None
        }
    }

    /// A traversal of the entries in ascending order, from the front with
    /// `next` and from the back with `next_back`.
    pub fn iter(&self) -> (r: RecordPoolIterator)
        ensures
            r.wf(),
            r.keys() == self.records@,
            r.index() == 0,
            r.rindex() == (if self.records@.len() == 0 {
                (0usize, true)
            } else {
                ((self.records@.len() - 1) as usize, false)
            }),
    {
        RecordPoolIterator::new(self)
    }
}

/// A traversal of a pool's entries, taken when it was made. The front and the
/// back cursors move independently.
#[derive(Debug)]
pub struct RecordPoolIterator {
    /// The entries, ascending.
    keys: Vec<Entry>,
    /// The position of the next entry from the front.
    index: usize,
    /// The position of the next entry from the back, and whether the back
    /// cursor has passed the first entry.
    rindex: (usize, bool),
}

impl RecordPoolIterator {
    pub closed spec fn keys(&self) -> Seq<Entry> {
        self.keys@
    }

    pub closed spec fn index(&self) -> usize {
        self.index
    }

    pub closed spec fn rindex(&self) -> (usize, bool) {
        self.rindex
    }

    pub open spec fn wf(&self) -> bool {
        &&& self.keys().len() == 0 ==> self.rindex().1
        &&& !self.rindex().1 ==> self.rindex().0 < self.keys().len()
    }

    /// A traversal of the entries that `pool` holds now.
    pub fn new(pool: &RecordPool) -> (r: RecordPoolIterator)
        ensures
            r.wf(),
            r.keys() == pool.records@,
            r.index() == 0,
            r.rindex() == (if pool.records@.len() == 0 {
                (0usize, true)
            } else {
                ((pool.records@.len() - 1) as usize, false)
            }),
    {
        let rindex = if pool.records.len() == 0 {
            (0, true)
        } else {
            (pool.records.len() - 1, false)
        };
        let mut keys: Vec<Entry> = Vec::new();
        let mut i: usize = 0;
        while i < pool.records.len()
            invariant
                0 <= i <= pool.records@.len(),
                keys@ == pool.records@.subrange(0, i as int),
            decreases pool.records@.len() - i,
        {
            keys.push(pool.records[i]);
            i = i + 1;
        }
        assert(keys@ =~= pool.records@);
        RecordPoolIterator { keys, index: 0, rindex }
    }

    /// The next entry from the front, in ascending order.
    pub fn next(&mut self) -> (r: Option<Entry>)
        requires
            old(self).wf(),
        ensures
            final(self).wf(),
            final(self).keys() == old(self).keys(),
            final(self).rindex() == old(self).rindex(),
            old(self).index() < old(self).keys().len() ==> r == Some(
                old(self).keys()[old(self).index() as int],
            ) && final(self).index() == old(self).index() + 1,
            old(self).index() >= old(self).keys().len() ==> r.is_none() && final(self).index()
                == old(self).index(),
    {
        if self.index < self.keys.len() {
            let e = self.keys[self.index];
            self.index = self.index + 1;
            Some(e)
        } else {
            None
        }
    }

    /// The next entry from the back, in descending order.
    pub fn next_back(&mut self) -> (r: Option<Entry>)
        requires
            old(self).wf(),
        ensures
            final(self).wf(),
            final(self).keys() == old(self).keys(),
            final(self).index() == old(self).index(),
            old(self).rindex().1 ==> r.is_none() && final(self).rindex() == old(self).rindex(),
            !old(self).rindex().1 ==> r == Some(old(self).keys()[old(self).rindex().0 as int]),
            !old(self).rindex().1 && old(self).rindex().0 == 0 ==> final(self).rindex() == (
                0usize,
                true,
            ),
            !old(self).rindex().1 && old(self).rindex().0 > 0 ==> final(self).rindex() == (
                (old(self).rindex().0 - 1) as usize,
                false,
            ),
    {
        if self.rindex.1 {
            None
        } else {
            let e = self.keys[self.rindex.0];
            if self.rindex.0 == 0 {
                self.rindex.1 = true;
            } else {
                self.rindex.0 = self.rindex.0 - 1;
            }
            Some(e)
        }
    }
}

} // verus!
