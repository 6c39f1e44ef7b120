//! The store of the largest increases and decreases seen in a stream of
//! records: two pools that share one description registry.

use crate::amount::{checked_difference, decimal_parse, decimal_sub, parse_decimal, parts, Amount};
use crate::record_pool::{
    outranked, fits_spec, has_value, held_code, index_of, insert_spec, lemma_insert_step, lemma_insert_uses, sorted,
    uses, Entry, PoolType, RecordPool,
};
use crate::registry::{
    lemma_intern_counts, lemma_lookup_stable, lemma_release_counts, DescriptionRegistry, RegistryModel,
};
use vstd::prelude::*;

verus! {

/// The field of a record that holds the start price.
pub const START_PRICE_INDEX: usize = 2;

/// The field of a record that holds the new price.
pub const END_PRICE_INDEX: usize = 3;

/// The field of a record that holds the description.
pub const DESCRIPTION_INDEX: usize = 0;

/// Why a record was not taken in.
#[derive(Clone, Copy, Debug, PartialEq, Eq, Structural)]
pub enum StoreError {
    /// The record has no start price field.
    MissingStartPrice,
    /// The start price is no decimal number.
    InvalidStartPrice,
    /// The record has no new price field.
    MissingEndPrice,
    /// The new price is no decimal number.
    InvalidEndPrice,
    /// The difference of the prices does not fit in a decimal.
    DifferenceOverflow,
    /// The description would need a code or a use count past the largest
    /// integer.
    RegistryFull,
}

/// The state of a store: both pools' entries, their shared capacity and the
/// registry.
pub struct StoreModel {
    pub top: Seq<Entry>,
    pub bottom: Seq<Entry>,
    pub bounds: nat,
    pub registry: RegistryModel,
}

/// The target pool and registry after offering the evicted entry `e` to the
/// other pool. Where it fits, it moves there with its use; the use of an entry
/// that this evicts in turn, or of the code that the pool held the value under
/// and that `e`'s code replaces, is released. Where it does not fit, its use is
/// released.
pub open spec fn transfer_spec(
    target: Seq<Entry>,
    bounds: nat,
    kind: PoolType,
    reg: RegistryModel,
    e: Entry,
) -> (Seq<Entry>, RegistryModel) {
    if fits_spec(target, bounds, kind, e.0.value()) {
        let (t, ev) = insert_spec(target, bounds, kind, e.0, e.1);
        match ev {
            Some(x) => (t, reg.release(x.1)),
            None => match held_code(target, e.0.value()) {
                Some(c0) => (t, reg.release(c0)),
                None => (t, reg),
            },
        }
    } else {
        (target, reg.release(e.1))
    }
}

/// Pool `s` already holds the value of `d` under the code of `desc`.
pub open spec fn already_held(s: Seq<Entry>, reg: RegistryModel, desc: Seq<char>, d: Amount) -> bool {
    held_code(s, d.value()) is Some && reg.code_of(desc) == held_code(s, d.value())
}

/// The accepting pool, the other pool and the registry after placing `d`
/// with description `desc` in `pool`. Where the pool already holds `d` under
/// the description's code nothing changes. Otherwise the description is
/// interned and `d` goes in under its code; an evicted entry is offered to the
/// other pool, and a code that the pool held `d` under is released.
pub open spec fn place_spec(
    pool: Seq<Entry>,
    other: Seq<Entry>,
    bounds: nat,
    kind: PoolType,
    other_kind: PoolType,
    reg: RegistryModel,
    desc: Seq<char>,
    d: Amount,
) -> (Seq<Entry>, Seq<Entry>, RegistryModel) {
    if already_held(pool, reg, desc, d) {
        (pool, other, reg)
    } else {
        let (reg1, code) = reg.intern(desc);
        let (p, ev) = insert_spec(pool, bounds, kind, d, code);
        match ev {
            Some(e) => {
                let (o, reg2) = transfer_spec(other, bounds, other_kind, reg1, e);
                (p, o, reg2)
            },
            None => match held_code(pool, d.value()) {
                Some(c0) => (p, other, reg1.release(c0)),
                None => (p, other, reg1),
            },
        }
    }
}

/// Whether recording `d` with description `desc` interns the description:
/// where a pool accepts `d` (the "most" pool first) and does not already hold
/// it under the description's code.
pub open spec fn needs_intern(m: StoreModel, desc: Seq<char>, d: Amount) -> bool {
    if fits_spec(m.top, m.bounds, PoolType::Most, d.value()) {
        !already_held(m.top, m.registry, desc, d)
    } else if fits_spec(m.bottom, m.bounds, PoolType::Least, d.value()) {
        !already_held(m.bottom, m.registry, desc, d)
    } else {
        false
    }
}

/// The store after recording the difference `d` with description `desc`: the
/// "most" pool is tried first and the "least" pool second, and `d` is placed
/// in the first that accepts it.
pub open spec fn record_spec(m: StoreModel, desc: Seq<char>, d: Amount) -> StoreModel {
    if fits_spec(m.top, m.bounds, PoolType::Most, d.value()) {
        let (top, bottom, registry) = place_spec(
            m.top,
            m.bottom,
            m.bounds,
            PoolType::Most,
            PoolType::Least,
            m.registry,
            desc,
            d,
        );
        StoreModel { top, bottom, registry, ..m }
    } else if fits_spec(m.bottom, m.bounds, PoolType::Least, d.value()) {
        let (bottom, top, registry) = place_spec(
            m.bottom,
            m.top,
            m.bounds,
            PoolType::Least,
            PoolType::Most,
            m.registry,
            desc,
            d,
        );
        StoreModel { top, bottom, registry, ..m }
    } else {
        m
    }
}

/// The amount with the given `(mantissa, scale)` parts.
pub open spec fn amount_of(p: (int, int)) -> Amount {
    Amount { mantissa: p.0 as i128, scale: p.1 as u32 }
}

/// The outcome of recording a change from `start` to `end` with description
/// `desc`.
pub open spec fn record_result(m: StoreModel, desc: Seq<char>, start: Amount, end: Amount) -> Result<
    StoreModel,
    StoreError,
> {
    match decimal_sub(parts(end), parts(start)) {
        None => Err(StoreError::DifferenceOverflow),
        Some(p) => if needs_intern(m, desc, amount_of(p)) && m.registry.intern_blocked(desc) {
            Err(StoreError::RegistryFull)
        } else {
            Ok(record_spec(m, desc, amount_of(p)))
        },
    }
}

/// The outcome of taking in a record with the given fields.
pub open spec fn insert_result(m: StoreModel, fields: Seq<Seq<char>>) -> Result<
    StoreModel,
    StoreError,
> {
    if fields.len() <= START_PRICE_INDEX {
        Err(StoreError::MissingStartPrice)
    } else if decimal_parse(fields[START_PRICE_INDEX as int]) is None {
        Err(StoreError::InvalidStartPrice)
    } else if fields.len() <= END_PRICE_INDEX {
        Err(StoreError::MissingEndPrice)
    } else if decimal_parse(fields[END_PRICE_INDEX as int]) is None {
        Err(StoreError::InvalidEndPrice)
    } else {
        record_result(
            m,
            fields[DESCRIPTION_INDEX as int],
            amount_of(decimal_parse(fields[START_PRICE_INDEX as int]).unwrap()),
            amount_of(decimal_parse(fields[END_PRICE_INDEX as int]).unwrap()),
        )
    }
}

/// Both pools are sorted and within their shared, positive capacity, and the
/// registry is well formed.
pub open spec fn model_wf(m: StoreModel) -> bool {
    &&& m.bounds >= 1
    &&& sorted(m.top) && m.top.len() <= m.bounds
    &&& sorted(m.bottom) && m.bottom.len() <= m.bounds
    &&& m.registry.wf()
}

proof fn lemma_held_fits(s: Seq<Entry>, bounds: nat, kind: PoolType, v: int)
    requires
        sorted(s),
        s.len() <= bounds,
        has_value(s, v),
    ensures
        fits_spec(s, bounds, kind, v),
{
    let i = index_of(s, v);
    if s.len() >= bounds {
        if i > 0 {
            assert(s[0].0.value() < s[i].0.value());
        }
        if i < s.len() - 1 {
            assert(s[i].0.value() < s.last().0.value());
        }
    }
}

/// Recording a difference that the accepting pool (the "most" pool, or the
/// "least" pool where the "most" pool does not accept it) already holds under
/// its description's code changes nothing: not the pools, not the registry.
pub proof fn lemma_record_retained(m: StoreModel, desc: Seq<char>, d: Amount)
    requires
        model_wf(m),
        d.wf(),
        already_held(m.top, m.registry, desc, d) || (!fits_spec(
            m.top,
            m.bounds,
            PoolType::Most,
            d.value(),
        ) && already_held(m.bottom, m.registry, desc, d)),
    ensures
        record_spec(m, desc, d) == m,
        !needs_intern(m, desc, d),
{
    if already_held(m.top, m.registry, desc, d) {
        lemma_held_fits(m.top, m.bounds, PoolType::Most, d.value());
    } else {
        lemma_held_fits(m.bottom, m.bounds, PoolType::Least, d.value());
    }
}

/// Every code's use count is the number of entries of both pools that have
/// the code.
pub open spec fn counts_match(m: StoreModel) -> bool {
    forall|c: usize| #[trigger] m.registry.use_count(c) == uses(m.top, c) + uses(m.bottom, c)
}

proof fn lemma_transfer_counts(
    o: Seq<Entry>,
    t: Seq<Entry>,
    bounds: nat,
    kind: PoolType,
    r: RegistryModel,
    e: Entry,
)
    requires
        sorted(t),
        t.len() <= bounds,
        bounds >= 1,
        r.wf(),
        e.0.wf(),
        forall|c: usize|
            #[trigger] r.use_count(c) == uses(o, c) + uses(t, c) + if e.1 == c {
                1nat
            } else {
                0nat
            },
    ensures
        ({
            let (t2, r2) = transfer_spec(t, bounds, kind, r, e);
            &&& sorted(t2)
            &&& t2.len() <= bounds
            &&& r2.wf()
            &&& forall|c: usize| #[trigger] r2.use_count(c) == uses(o, c) + uses(t2, c)
        }),
{
    if fits_spec(t, bounds, kind, e.0.value()) {
        lemma_insert_step(t, bounds, kind, e.0, e.1);
        lemma_insert_uses(t, bounds, kind, e.0, e.1);
        let (t2, ev) = insert_spec(t, bounds, kind, e.0, e.1);
        match ev {
            Some(x) => {
                lemma_release_counts(r, x.1);
                assert forall|c: usize| #[trigger] r.release(x.1).use_count(c) == uses(o, c) + uses(
                    t2,
                    c,
                ) by {
                    assert(uses(t, c) == uses(t, c));
                }
            },
            None => match held_code(t, e.0.value()) {
                Some(c0) => {
                    lemma_release_counts(r, c0);
                    assert forall|c: usize| #[trigger] r.release(c0).use_count(c) == uses(o, c)
                        + uses(t2, c) by {
                        assert(uses(t, c) == uses(t, c));
                    }
                },
                None => {
                    assert forall|c: usize| #[trigger] r.use_count(c) == uses(o, c) + uses(t2, c) by {
                        assert(uses(t, c) == uses(t, c));
                    }
                },
            },
        }
    } else {
        lemma_release_counts(r, e.1);
    }
}

proof fn lemma_place_counts(
    pool: Seq<Entry>,
    other: Seq<Entry>,
    bounds: nat,
    kind: PoolType,
    other_kind: PoolType,
    reg: RegistryModel,
    desc: Seq<char>,
    d: Amount,
)
    requires
        sorted(pool),
        pool.len() <= bounds,
        sorted(other),
        other.len() <= bounds,
        bounds >= 1,
        reg.wf(),
        d.wf(),
        fits_spec(pool, bounds, kind, d.value()),
        forall|c: usize| #[trigger] reg.use_count(c) == uses(pool, c) + uses(other, c),
        !already_held(pool, reg, desc, d) ==> !reg.intern_blocked(desc),
    ensures
        ({
            let (p, o, r2) = place_spec(pool, other, bounds, kind, other_kind, reg, desc, d);
            &&& sorted(p) && p.len() <= bounds
            &&& sorted(o) && o.len() <= bounds
            &&& r2.wf()
            &&& forall|c: usize| #[trigger] r2.use_count(c) == uses(p, c) + uses(o, c)
        }),
{
    if !already_held(pool, reg, desc, d) {
        lemma_intern_counts(reg, desc);
        let (r1, code) = reg.intern(desc);
        lemma_insert_step(pool, bounds, kind, d, code);
        lemma_insert_uses(pool, bounds, kind, d, code);
        let (p, ev) = insert_spec(pool, bounds, kind, d, code);
        match ev {
            Some(e) => {
                assert forall|c: usize| #[trigger] r1.use_count(c) == uses(p, c) + uses(other, c)
                    + if e.1 == c {
                    1nat
                } else {
                    0nat
                } by {
                    assert(reg.use_count(c) == uses(pool, c) + uses(other, c));
                }
                lemma_transfer_counts(p, other, bounds, other_kind, r1, e);
            },
            None => match held_code(pool, d.value()) {
                Some(c0) => {
                    lemma_release_counts(r1, c0);
                    assert forall|c: usize| #[trigger] r1.release(c0).use_count(c) == uses(p, c)
                        + uses(other, c) by {
                        assert(reg.use_count(c) == uses(pool, c) + uses(other, c));
                    }
                },
                None => {
                    assert forall|c: usize| #[trigger] r1.use_count(c) == uses(p, c) + uses(other, c) by {
                        assert(reg.use_count(c) == uses(pool, c) + uses(other, c));
                    }
                },
            },
        }
    }
}

/// In a well-formed store whose counts match its pools, a code that no entry
/// uses has no description.
pub proof fn lemma_unused_code_gone(m: StoreModel)
    requires
        model_wf(m),
        counts_match(m),
    ensures
        forall|c: usize|
            uses(m.top, c) + uses(m.bottom, c) == 0 ==> #[trigger] m.registry.description_of(c)
                is None,
{
    assert forall|c: usize| uses(m.top, c) + uses(m.bottom, c) == 0 implies #[trigger]
        m.registry.description_of(c) is None by {
        assert(m.registry.use_count(c) == 0);
        if exists|d: Seq<char>| m.registry.pairs.contains((d, c)) {
            let d = choose|d: Seq<char>| m.registry.pairs.contains((d, c));
            assert(m.registry.counts.contains_key(c));
        }
    }
}

/// Every record keeps the store's accounting exact: where each code's use
/// count was the number of pool entries that use it, it still is afterwards,
/// so that a description whose code no entry uses is gone from the registry.
pub proof fn lemma_record_counts(m: StoreModel, desc: Seq<char>, d: Amount)
    requires
        model_wf(m),
        counts_match(m),
        d.wf(),
        needs_intern(m, desc, d) ==> !m.registry.intern_blocked(desc),
    ensures
        ({
            let m2 = record_spec(m, desc, d);
            &&& model_wf(m2)
            &&& counts_match(m2)
            &&& forall|c: usize|
                uses(m2.top, c) + uses(m2.bottom, c) == 0 ==> #[trigger]
                    m2.registry.description_of(c) is None
        }),
{
    let m2 = record_spec(m, desc, d);
    if fits_spec(m.top, m.bounds, PoolType::Most, d.value()) {
        lemma_place_counts(
            m.top,
            m.bottom,
            m.bounds,
            PoolType::Most,
            PoolType::Least,
            m.registry,
            desc,
            d,
        );
    } else if fits_spec(m.bottom, m.bounds, PoolType::Least, d.value()) {
        assert forall|c: usize| #[trigger] m.registry.use_count(c) == uses(m.bottom, c) + uses(
            m.top,
            c,
        ) by {
            assert(m.registry.use_count(c) == uses(m.top, c) + uses(m.bottom, c));
        }
        lemma_place_counts(
            m.bottom,
            m.top,
            m.bounds,
            PoolType::Least,
            PoolType::Most,
            m.registry,
            desc,
            d,
        );
        assert forall|c: usize| #[trigger] m2.registry.use_count(c) == uses(m2.top, c) + uses(
            m2.bottom,
            c,
        ) by {
            assert(m2.registry.use_count(c) == uses(m2.bottom, c) + uses(m2.top, c));
        }
    }
    lemma_unused_code_gone(m2);
}

/// The pools are apart: every value of the "least" pool lies below every
/// value of the "most" pool, and the "least" pool stays empty while the "most"
/// pool has room.
pub open spec fn separated(m: StoreModel) -> bool {
    &&& m.top.len() < m.bounds ==> m.bottom.len() == 0
    &&& forall|x: int, y: int|
        #[trigger] has_value(m.bottom, x) && #[trigger] has_value(m.top, y) ==> x < y
}

/// No value is held by both pools.
pub open spec fn disjoint(m: StoreModel) -> bool {
    forall|x: int| !(#[trigger] has_value(m.top, x) && has_value(m.bottom, x))
}

/// Pools that are apart share no value.
pub proof fn lemma_separated_disjoint(m: StoreModel)
    ensures
        separated(m) ==> disjoint(m),
{
    if separated(m) {
        assert forall|x: int| !(#[trigger] has_value(m.top, x) && has_value(m.bottom, x)) by {
            if has_value(m.top, x) && has_value(m.bottom, x) {
                assert(x < x);
            }
        }
    }
}

proof fn lemma_first_is_least(s: Seq<Entry>, y: int)
    requires
        sorted(s),
        has_value(s, y),
    ensures
        s[0].0.value() <= y,
{
    let k = choose|k: int| 0 <= k < s.len() && s[k].0.value() == y;
    if k > 0 {
        assert(s[0].0.value() < s[k].0.value());
    }
}

/// Every record keeps the pools apart, and so never lets both pools hold one
/// value.
pub proof fn lemma_record_separated(m: StoreModel, desc: Seq<char>, d: Amount)
    requires
        model_wf(m),
        separated(m),
        d.wf(),
    ensures
        separated(record_spec(m, desc, d)),
        disjoint(record_spec(m, desc, d)),
{
    let m2 = record_spec(m, desc, d);
    let v = d.value();
    if fits_spec(m.top, m.bounds, PoolType::Most, v) {
        if !already_held(m.top, m.registry, desc, d) {
            let (r1, code) = m.registry.intern(desc);
            lemma_insert_step(m.top, m.bounds, PoolType::Most, d, code);
            let (p, ev) = insert_spec(m.top, m.bounds, PoolType::Most, d, code);
            assert(m2.top == p);
            if m.top.len() == m.bounds {
                // d lies at or above the smallest value of the full pool.
                assert(m.top[0].0.value() <= v) by {
                    if v > m.top.last().0.value() {
                        lemma_first_is_least(m.top, m.top.last().0.value());
                        assert(m.top[m.top.len() - 1] == m.top.last());
                        assert(has_value(m.top, m.top.last().0.value()));
                    }
                }
                assert(has_value(m.top, m.top[0].0.value()));
            }
            match ev {
                Some(e) => {
                    let b = m.bottom;
                    if fits_spec(b, m.bounds, PoolType::Least, e.0.value()) {
                        lemma_insert_step(b, m.bounds, PoolType::Least, e.0, e.1);
                    }
                    assert forall|x: int, y: int|
                        #[trigger] has_value(m2.bottom, x) && #[trigger] has_value(m2.top, y)
                            implies x < y by {
                        assert(has_value(m.top, y) || y == v);
                        if has_value(b, x) {
                            assert(has_value(m.bottom, x) && has_value(m.top, m.top[0].0.value()));
                            if has_value(m.top, y) {
                            }
                        } else {
                            assert(x == e.0.value());
                        }
                    }
                },
                None => {
                    assert(m2.bottom == m.bottom);
                    assert forall|x: int, y: int|
                        #[trigger] has_value(m2.bottom, x) && #[trigger] has_value(m2.top, y)
                            implies x < y by {
                        assert(has_value(m.top, y) || y == v);
                        assert(m.bottom.len() > 0);
                        assert(has_value(m.bottom, x) && has_value(m.top, m.top[0].0.value()));
                    }
                },
            }
        }
    } else if fits_spec(m.bottom, m.bounds, PoolType::Least, v) {
        if !already_held(m.bottom, m.registry, desc, d) {
            let (r1, code) = m.registry.intern(desc);
            lemma_insert_step(m.bottom, m.bounds, PoolType::Least, d, code);
            let (q, ev) = insert_spec(m.bottom, m.bounds, PoolType::Least, d, code);
            assert(m2.bottom == q);
            // The "most" pool is full and d lies below all of it.
            assert(v < m.top[0].0.value());
            assert(has_value(m.top, m.top[0].0.value()));
            match ev {
                Some(e) => {
                    assert(has_value(m.bottom, e.0.value()) || e.0.value() == v);
                    if has_value(m.bottom, e.0.value()) {
                        assert(e.0.value() < m.top[0].0.value());
                    }
                    assert(!fits_spec(m.top, m.bounds, PoolType::Most, e.0.value())) by {
                        lemma_first_is_least(m.top, m.top.last().0.value());
                        assert(m.top[m.top.len() - 1] == m.top.last());
                        assert(has_value(m.top, m.top.last().0.value()));
                    }
                    assert(m2.top == m.top);
                },
                None => {
                    assert(m2.top == m.top);
                },
            }
            assert forall|x: int, y: int|
                #[trigger] has_value(m2.bottom, x) && #[trigger] has_value(m2.top, y) implies x < y by {
                lemma_first_is_least(m.top, y);
                if has_value(m.bottom, x) {
                }
            }
        }
    }
    assert forall|x: int| !(#[trigger] has_value(m2.top, x) && has_value(m2.bottom, x)) by {
        if has_value(m2.top, x) && has_value(m2.bottom, x) {
            assert(x < x);
        }
    }
}

proof fn lemma_place_lookup(
    pool: Seq<Entry>,
    other: Seq<Entry>,
    bounds: nat,
    kind: PoolType,
    other_kind: PoolType,
    reg: RegistryModel,
    desc: Seq<char>,
    d: Amount,
    s: Seq<char>,
    c: usize,
)
    requires
        reg.wf(),
        reg.pairs.contains((s, c)),
        !already_held(pool, reg, desc, d) ==> !reg.intern_blocked(desc),
    ensures
        ({
            let r2 = place_spec(pool, other, bounds, kind, other_kind, reg, desc, d).2;
            r2.use_count(c) >= 1 ==> r2.description_of(c) == Some(s)
        }),
{
    lemma_lookup_stable(reg, s, c, desc, c);
    if !already_held(pool, reg, desc, d) {
        lemma_intern_counts(reg, desc);
        let (r1, code) = reg.intern(desc);
        assert(r1.pairs.contains((s, c))) by {
            let x = choose|x: Seq<char>| r1.pairs.contains((x, c));
            assert(r1.pairs.contains((x, c)));
        }
        let (p, ev) = insert_spec(pool, bounds, kind, d, code);
        match ev {
            Some(e) => {
                if fits_spec(other, bounds, other_kind, e.0.value()) {
                    let (o, ev2) = insert_spec(other, bounds, other_kind, e.0, e.1);
                    match ev2 {
                        Some(x) => lemma_lookup_stable(r1, s, c, desc, x.1),
                        None => match held_code(other, e.0.value()) {
                            Some(c0) => lemma_lookup_stable(r1, s, c, desc, c0),
                            None => lemma_lookup_stable(r1, s, c, desc, c),
                        },
                    }
                } else {
                    lemma_lookup_stable(r1, s, c, desc, e.1);
                }
            },
            None => match held_code(pool, d.value()) {
                Some(c0) => lemma_lookup_stable(r1, s, c, desc, c0),
                None => lemma_lookup_stable(r1, s, c, desc, c),
            },
        }
    }
}

/// A description stays found under its code across any record, for as long
/// as the code stays in use.
pub proof fn lemma_record_keeps_lookup(
    m: StoreModel,
    desc: Seq<char>,
    d: Amount,
    s: Seq<char>,
    c: usize,
)
    requires
        model_wf(m),
        m.registry.pairs.contains((s, c)),
        needs_intern(m, desc, d) ==> !m.registry.intern_blocked(desc),
    ensures
        ({
            let r2 = record_spec(m, desc, d).registry;
            r2.use_count(c) >= 1 ==> r2.description_of(c) == Some(s)
        }),
{
    lemma_lookup_stable(m.registry, s, c, desc, c);
    if fits_spec(m.top, m.bounds, PoolType::Most, d.value()) {
        lemma_place_lookup(
            m.top,
            m.bottom,
            m.bounds,
            PoolType::Most,
            PoolType::Least,
            m.registry,
            desc,
            d,
            s,
            c,
        );
    } else if fits_spec(m.bottom, m.bounds, PoolType::Least, d.value()) {
        lemma_place_lookup(
            m.bottom,
            m.top,
            m.bounds,
            PoolType::Least,
            PoolType::Most,
            m.registry,
            desc,
            d,
            s,
            c,
        );
    }
}

proof fn lemma_record_top_step(m: StoreModel, desc: Seq<char>, d: Amount)
    requires
        model_wf(m),
        separated(m),
        d.wf(),
        needs_intern(m, desc, d) ==> !m.registry.intern_blocked(desc),
    ensures
        ({
            let t = m.top;
            let t2 = record_spec(m, desc, d).top;
            let v = d.value();
            &&& t.len() <= t2.len()
            &&& forall|x: int| has_value(t2, x) ==> has_value(t, x) || x == v
            &&& forall|x: int|
                (has_value(t, x) || x == v) && !has_value(t2, x) ==> outranked(x, t2, PoolType::Most)
            &&& t2.len() < m.bounds ==> forall|x: int| has_value(t, x) || x == v ==> has_value(t2, x)
            &&& (has_value(t2, v) && !has_value(t, v) && t.len() == m.bounds) ==> t[0].0.value() <= v
        }),
{
    let v = d.value();
    let t = m.top;
    if fits_spec(t, m.bounds, PoolType::Most, v) {
        if !already_held(t, m.registry, desc, d) {
            let (r1, code) = m.registry.intern(desc);
            lemma_insert_step(t, m.bounds, PoolType::Most, d, code);
            if t.len() == m.bounds && v > t.last().0.value() {
                lemma_first_is_least(t, t.last().0.value());
                assert(t[t.len() - 1] == t.last());
                assert(has_value(t, t.last().0.value()));
            }
        }
    } else {
        // The "most" pool is full and outranks v; nothing of it changes.
        if t.len() > 0 {
            lemma_first_is_least(t, t.last().0.value());
            assert(t[t.len() - 1] == t.last());
            assert(has_value(t, t.last().0.value()));
        }
        assert(outranked(v, t, PoolType::Most)) by {
            assert forall|i: int| 0 <= i < t.len() implies v < #[trigger] t[i].0.value() by {
                assert(has_value(t, t[i].0.value()));
                lemma_first_is_least(t, t[i].0.value());
            }
        }
        if fits_spec(m.bottom, m.bounds, PoolType::Least, v) && !already_held(
            m.bottom,
            m.registry,
            desc,
            d,
        ) {
            let (r1, code) = m.registry.intern(desc);
            lemma_insert_step(m.bottom, m.bounds, PoolType::Least, d, code);
            let (q, ev) = insert_spec(m.bottom, m.bounds, PoolType::Least, d, code);
            if let Some(e) = ev {
                assert(has_value(t, t[0].0.value()));
                if has_value(m.bottom, e.0.value()) {
                    assert(e.0.value() < t[0].0.value());
                }
                assert(!fits_spec(t, m.bounds, PoolType::Most, e.0.value()));
            }
        }
    }
}

/// The store after recording each of `recs`, a description and a
/// difference, in turn.
pub open spec fn record_all(m: StoreModel, recs: Seq<(Seq<char>, Amount)>) -> StoreModel
    decreases recs.len(),
{
    if recs.len() == 0 {
        m
    } else {
        let before = record_all(m, recs.drop_last());
        record_spec(before, recs.last().0, recs.last().1)
    }
}

/// No record of `recs`, recorded in turn from `m`, overflows a counter.
pub open spec fn run_unblocked(m: StoreModel, recs: Seq<(Seq<char>, Amount)>) -> bool {
    forall|i: int|
        0 <= i < recs.len() ==> {
            let before = #[trigger] record_all(m, recs.take(i));
            needs_intern(before, recs[i].0, recs[i].1) ==> !before.registry.intern_blocked(
                recs[i].0,
            )
        }
}

/// A new, empty store with capacity `bounds`.
pub open spec fn empty_store(bounds: nat) -> StoreModel {
    StoreModel {
        top: Seq::empty(),
        bottom: Seq::empty(),
        bounds,
        registry: RegistryModel { pairs: Set::empty(), counts: Map::empty(), next_code: 0 },
    }
}

/// A new store that records `recs` in turn ends up with the "most" pool
/// holding exactly the largest of the differences recorded: every value it
/// holds was recorded, every recorded value it does not hold lies below all
/// that it holds, and while it has room it holds every value recorded. Along
/// the way the store stays well formed, its counts match its pools, and the
/// pools stay apart.
pub proof fn lemma_store_keeps_largest(bounds: nat, recs: Seq<(Seq<char>, Amount)>)
    requires
        bounds >= 1,
        forall|i: int| 0 <= i < recs.len() ==> (#[trigger] recs[i]).1.wf(),
        run_unblocked(empty_store(bounds), recs),
    ensures
        ({
            let m = record_all(empty_store(bounds), recs);
            &&& m.bounds == bounds
            &&& model_wf(m)
            &&& counts_match(m)
            &&& separated(m)
            &&& forall|x: int|
                has_value(m.top, x) ==> exists|i: int| 0 <= i < recs.len() && recs[i].1.value() == x
            &&& forall|i: int|
                0 <= i < recs.len() && !has_value(m.top, #[trigger] recs[i].1.value())
                    ==> outranked(recs[i].1.value(), m.top, PoolType::Most)
            &&& m.top.len() < bounds ==> forall|i: int|
                0 <= i < recs.len() ==> has_value(m.top, #[trigger] recs[i].1.value())
        }),
    decreases recs.len(),
{
    let m0 = empty_store(bounds);
    let m = record_all(m0, recs);
    if recs.len() == 0 {
        assert forall|c: usize| #[trigger] m.registry.use_count(c) == uses(m.top, c) + uses(
            m.bottom,
            c,
        ) by {
            assert(!m.registry.counts.contains_key(c));
        }
    } else {
        let front = recs.drop_last();
        let n = recs.len() - 1;
        let r = recs.last();
        assert(r == recs[n]);
        assert forall|i: int| 0 <= i < front.len() implies (#[trigger] front[i]).1.wf() by {
            assert(front[i] == recs[i]);
        }
        assert(run_unblocked(m0, front)) by {
            assert forall|i: int| 0 <= i < front.len() implies {
                let before = #[trigger] record_all(m0, front.take(i));
                needs_intern(before, front[i].0, front[i].1) ==> !before.registry.intern_blocked(
                    front[i].0,
                )
            } by {
                assert(front.take(i) =~= recs.take(i));
                assert(front[i] == recs[i]);
                assert(record_all(m0, recs.take(i)) == record_all(m0, front.take(i)));
            }
        }
        lemma_store_keeps_largest(bounds, front);
        let s = record_all(m0, front);
        assert(recs.take(n) =~= front);
        assert(record_all(m0, recs.take(n)) == s);
        lemma_record_counts(s, r.0, r.1);
        lemma_record_separated(s, r.0, r.1);
        lemma_record_top_step(s, r.0, r.1);
        let v = r.1.value();
        assert forall|x: int| has_value(m.top, x) implies exists|i: int|
            0 <= i < recs.len() && recs[i].1.value() == x by {
            if has_value(s.top, x) {
                let i = choose|i: int| 0 <= i < front.len() && front[i].1.value() == x;
                assert(recs[i] == front[i]);
            } else {
                assert(recs[n].1.value() == x);
            }
        }
        assert forall|i: int|
            0 <= i < recs.len() && !has_value(m.top, #[trigger] recs[i].1.value()) implies outranked(
            recs[i].1.value(),
            m.top,
            PoolType::Most,
        ) by {
            let x = recs[i].1.value();
            if i < n {
                assert(front[i] == recs[i]);
                if !has_value(s.top, x) {
                    assert(outranked(x, s.top, PoolType::Most));
                    if s.top.len() < bounds {
                        assert(has_value(s.top, front[i].1.value()));
                    }
                    assert(s.top.len() == bounds);
                    assert forall|k: int| 0 <= k < m.top.len() implies x < #[trigger]
                        m.top[k].0.value() by {
                        let y = m.top[k].0.value();
                        assert(has_value(m.top, y));
                        if has_value(s.top, y) {
                            let j = choose|j: int| 0 <= j < s.top.len() && s.top[j].0.value() == y;
                        } else {
                            assert(y == v);
                            assert(s.top[0].0.value() <= v);
                        }
                    }
                }
            }
        }
        assert(m.top.len() < bounds ==> forall|i: int|
            0 <= i < recs.len() ==> has_value(m.top, #[trigger] recs[i].1.value())) by {
            if m.top.len() < bounds {
                assert forall|i: int| 0 <= i < recs.len() implies has_value(
                    m.top,
                    #[trigger] recs[i].1.value(),
                ) by {
                    assert(s.top.len() < bounds);
                    if i < n {
                        assert(front[i] == recs[i]);
                        assert(has_value(s.top, front[i].1.value()));
                        assert(has_value(m.top, recs[i].1.value()));
                    } else {
                        assert(recs[i].1.value() == v);
                        assert(has_value(m.top, v));
                    }
                }
            }
        }
    }
}

/// The sum of the use counts of the codes below `n`.
pub open spec fn total_use(r: RegistryModel, n: nat) -> nat
    decreases n,
{
    if n == 0 {
        0
    } else {
        total_use(r, (n - 1) as nat) + r.use_count((n - 1) as usize)
    }
}

/// The number of entries of `s` whose code lies below `n`.
pub open spec fn total_uses(s: Seq<Entry>, n: nat) -> nat
    decreases n,
{
    if n == 0 {
        0
    } else {
        total_uses(s, (n - 1) as nat) + uses(s, (n - 1) as usize)
    }
}

proof fn lemma_total_uses_len(s: Seq<Entry>, n: nat)
    requires
        n <= usize::MAX + 1,
        forall|i: int| 0 <= i < s.len() ==> (#[trigger] s[i]).1 < n,
    ensures
        total_uses(s, n) == s.len(),
    decreases s.len(), n,
{
    if s.len() > 0 {
        let t = s.drop_last();
        let c = s.last().1;
        assert forall|i: int| 0 <= i < t.len() implies (#[trigger] t[i]).1 < n by {
            assert(t[i] == s[i]);
        }
        lemma_total_uses_len(t, n);
        lemma_total_uses_last(s, c, n);
        assert(s[s.len() - 1].1 < n);
    } else {
        lemma_total_uses_empty(s, n);
    }
}

proof fn lemma_total_uses_empty(s: Seq<Entry>, n: nat)
    requires
        s.len() == 0,
    ensures
        total_uses(s, n) == 0,
    decreases n,
{
    if n > 0 {
        lemma_total_uses_empty(s, (n - 1) as nat);
    }
}

proof fn lemma_total_uses_last(s: Seq<Entry>, c: usize, n: nat)
    requires
        s.len() > 0,
        s.last().1 == c,
        n <= usize::MAX + 1,
    ensures
        total_uses(s, n) == total_uses(s.drop_last(), n) + if c < n {
            1nat
        } else {
            0nat
        },
    decreases n,
{
    if n > 0 {
        lemma_total_uses_last(s, c, (n - 1) as nat);
    }
}

proof fn lemma_total_use_split(m: StoreModel, n: nat)
    requires
        counts_match(m),
        n <= usize::MAX + 1,
    ensures
        total_use(m.registry, n) == total_uses(m.top, n) + total_uses(m.bottom, n),
    decreases n,
{
    if n > 0 {
        lemma_total_use_split(m, (n - 1) as nat);
        assert(m.registry.use_count((n - 1) as usize) == uses(m.top, (n - 1) as usize) + uses(
            m.bottom,
            (n - 1) as usize,
        ));
    }
}

/// Where every code's use count matches the pool entries that use it, the
/// use counts of all codes handed out sum to the number of entries of both
/// pools together, an entry of each pool counting once.
pub proof fn lemma_total_use(m: StoreModel)
    requires
        model_wf(m),
        counts_match(m),
    ensures
        total_use(m.registry, m.registry.next_code as nat) == m.top.len() + m.bottom.len(),
{
    let n = m.registry.next_code as nat;
    assert forall|i: int| 0 <= i < m.top.len() implies (#[trigger] m.top[i]).1 < n by {
        let c = m.top[i].1;
        lemma_uses_positive(m.top, i);
        assert(m.registry.use_count(c) >= 1);
        assert(m.registry.counts.contains_key(c));
        let d = choose|d: Seq<char>| m.registry.pairs.contains((d, c));
        assert(m.registry.pairs.contains((d, c)));
    }
    assert forall|i: int| 0 <= i < m.bottom.len() implies (#[trigger] m.bottom[i]).1 < n by {
        let c = m.bottom[i].1;
        lemma_uses_positive(m.bottom, i);
        assert(m.registry.use_count(c) >= 1);
        assert(m.registry.counts.contains_key(c));
        let d = choose|d: Seq<char>| m.registry.pairs.contains((d, c));
        assert(m.registry.pairs.contains((d, c)));
    }
    lemma_total_uses_len(m.top, n);
    lemma_total_uses_len(m.bottom, n);
    lemma_total_use_split(m, n);
}

proof fn lemma_uses_positive(s: Seq<Entry>, i: int)
    requires
        0 <= i < s.len(),
    ensures
        uses(s, s[i].1) >= 1,
    decreases s.len(),
{
    if i < s.len() - 1 {
        let t = s.drop_last();
        assert(t[i] == s[i]);
        lemma_uses_positive(t, i);
    }
}

/// Offers the entry `evicted` from one pool to the other pool `target`.
fn transfer(target: &mut RecordPool, registry: &mut DescriptionRegistry, evicted: Entry)
    requires
        old(target).wf(),
        old(registry)@.wf(),
        evicted.0.wf(),
    ensures
        final(target).wf(),
        final(registry)@.wf(),
        final(target).bounds == old(target).bounds,
        final(target).pool_type == old(target).pool_type,
        (final(target).records@, final(registry)@) == transfer_spec(
            old(target).records@,
            old(target).bounds as nat,
            old(target).pool_type,
            old(registry)@,
            evicted,
        ),
{
    if target.fits(&evicted.0) {
        let held = target.code_at(&evicted.0);
        match target.insert(evicted.0, evicted.1) {
            Some(e) => registry.cleanup_descriptions(e.1),
            None => match held {
                Some(c0) => registry.cleanup_descriptions(c0),
                None => {},
            },
        }
    } else {
        registry.cleanup_descriptions(evicted.1);
    }
}

/// Places `difference` with description `description` in `pool`, which
/// accepts it, handing an evicted entry on to `other`.
fn place(
    pool: &mut RecordPool,
    other: &mut RecordPool,
    registry: &mut DescriptionRegistry,
    description: &str,
    difference: Amount,
) -> (r: Result<(), StoreError>)
    requires
        old(pool).wf(),
        old(other).wf(),
        old(registry)@.wf(),
        difference.wf(),
        old(pool).bounds == old(other).bounds,
    ensures
        final(pool).wf(),
        final(other).wf(),
        final(registry)@.wf(),
        final(pool).bounds == old(pool).bounds,
        final(pool).pool_type == old(pool).pool_type,
        final(other).bounds == old(other).bounds,
        final(other).pool_type == old(other).pool_type,
        r is Err <==> !already_held(old(pool).records@, old(registry)@, description@, difference)
            && old(registry)@.intern_blocked(description@),
        r is Err ==> r == Err::<(), StoreError>(StoreError::RegistryFull),
        r is Err ==> final(pool).records@ == old(pool).records@,
        r is Err ==> final(other).records@ == old(other).records@,
        r is Err ==> final(registry)@ == old(registry)@,
        r is Ok ==> (final(pool).records@, final(other).records@, final(registry)@) == place_spec(
            old(pool).records@,
            old(other).records@,
            old(pool).bounds as nat,
            old(pool).pool_type,
            old(other).pool_type,
            old(registry)@,
            description@,
            difference,
        ),
{
    let held = pool.code_at(&difference);
    match held {
        Some(c0) => match registry.find_code(description) {
            Some(c) => {
                if c == c0 {
                    return Ok(());
                }
            },
            None => {},
        },
        None => {},
    }
    let code = match registry.code_for_description(description) {
        Some(c) => c,
        None => return Err(StoreError::RegistryFull),
    };
    match pool.insert(difference, code) {
        Some(e) => transfer(other, registry, e),
        None => match held {
            Some(c0) => registry.cleanup_descriptions(c0),
            None => {},
        },
    }
    Ok(())
}

/// The largest and the smallest price changes seen, with one stored copy of
/// each description they use.
#[derive(Debug)]
pub struct DataStore {
    /// The largest differences.
    pub top: RecordPool,
    /// The smallest differences.
    pub bottom: RecordPool,
    /// The descriptions of the entries of both pools.
    pub registry: DescriptionRegistry,
}

impl DataStore {
    pub open spec fn wf(&self) -> bool {
        &&& self.top.wf()
        &&& self.bottom.wf()
        &&& self.top.pool_type == PoolType::Most
        &&& self.bottom.pool_type == PoolType::Least
        &&& self.top.bounds == self.bottom.bounds
        &&& self.registry@.wf()
    }

    pub open spec fn model(&self) -> StoreModel {
        StoreModel {
            top: self.top.records@,
            bottom: self.bottom.records@,
            bounds: self.top.bounds as nat,
            registry: self.registry@,
        }
    }

    /// An empty store that keeps `size` entries at each end; a size of zero is
    /// refused.
    pub fn new(size: usize) -> (r: Result<DataStore, String>)
        ensures
            r.is_ok() == (size > 0),
            r matches Ok(s) ==> s.wf() && s.top.records@.len() == 0 && s.bottom.records@.len() == 0
                && s.top.bounds == size && s.registry@.pairs.is_empty()
                && s.registry@.counts.is_empty() && s.registry@.next_code == 0
                && counts_match(s.model()) && separated(s.model()),
    {
        let top = match RecordPool::new(size, PoolType::Most) {
            Ok(p) => p,
            Err(e) => return Err(e),
        };
        let bottom = match RecordPool::new(size, PoolType::Least) {
            Ok(p) => p,
            Err(e) => return Err(e),
        };
        let registry = DescriptionRegistry::new();
        let store = DataStore { top, bottom, registry };
        proof {
            assert forall|c: usize| #[trigger] store.registry@.use_count(c) == uses(
                store.top.records@,
                c,
            ) + uses(store.bottom.records@, c) by {
                assert(!store.registry@.counts.contains_key(c));
            }
        }
        Ok(store)
    }

    /// Records the difference `difference` with description `description`.
    pub fn record_difference(&mut self, description: &str, difference: Amount) -> (r: Result<
        (),
        StoreError,
    >)
        requires
            old(self).wf(),
            difference.wf(),
        ensures
            final(self).wf(),
            r is Err <==> needs_intern(old(self).model(), description@, difference) && old(
                self,
            ).model().registry.intern_blocked(description@),
            r is Err ==> r == Err::<(), StoreError>(StoreError::RegistryFull) && final(self).model()
                == old(self).model(),
            r is Ok ==> final(self).model() == record_spec(
                old(self).model(),
                description@,
                difference,
            ),
            counts_match(old(self).model()) ==> counts_match(final(self).model()),
            separated(old(self).model()) ==> separated(final(self).model()) && disjoint(
                final(self).model(),
            ),
    {
        let ghost m = self.model();
        proof {
            if separated(m) {
                lemma_record_separated(m, description@, difference);
            }
            if counts_match(m) && !(needs_intern(m, description@, difference)
                && m.registry.intern_blocked(description@)) {
                lemma_record_counts(m, description@, difference);
            }
        }
        if self.top.fits(&difference) {
            place(&mut self.top, &mut self.bottom, &mut self.registry, description, difference)
        } else if self.bottom.fits(&difference) {
            place(&mut self.bottom, &mut self.top, &mut self.registry, description, difference)
        } else {
            Ok(())
        }
    }

    /// Records a change in price from `start` to `end` with description
    /// `description`.
    pub fn record(&mut self, description: &str, start: Amount, end: Amount) -> (r: Result<
        (),
        StoreError,
    >)
        requires
            old(self).wf(),
            start.wf(),
            end.wf(),
        ensures
            final(self).wf(),
            match record_result(old(self).model(), description@, start, end) {
                Ok(m) => r is Ok && final(self).model() == m,
                Err(e) => r == Err::<(), StoreError>(e) && final(self).model() == old(self).model(),
            },
            counts_match(old(self).model()) ==> counts_match(final(self).model()),
            separated(old(self).model()) ==> separated(final(self).model()) && disjoint(
                final(self).model(),
            ),
    {
        proof {
            lemma_separated_disjoint(self.model());
        }
        match checked_difference(&end, &start) {
            Some(d) => {
                assert(d == amount_of(parts(d)));
                self.record_difference(description, d)
            },
            None => Err(StoreError::DifferenceOverflow),
        }
    }

    /// Takes in a record given by its fields: the description, the start
    /// price and the new price stand at `DESCRIPTION_INDEX`,
    /// `START_PRICE_INDEX` and `END_PRICE_INDEX`.
    pub fn insert(&mut self, record: &Vec<String>) -> (r: Result<(), StoreError>)
        requires
            old(self).wf(),
        ensures
            final(self).wf(),
            match insert_result(old(self).model(), record@.map_values(|s: String| s@)) {
                Ok(m) => r is Ok && final(self).model() == m,
                Err(e) => r == Err::<(), StoreError>(e) && final(self).model() == old(self).model(),
            },
            counts_match(old(self).model()) ==> counts_match(final(self).model()),
            separated(old(self).model()) ==> separated(final(self).model()) && disjoint(
                final(self).model(),
            ),
    {
        proof {
            lemma_separated_disjoint(self.model());
        }
        let ghost fields = record@.map_values(|s: String| s@);
        if record.len() <= START_PRICE_INDEX {
            return Err(StoreError::MissingStartPrice);
        }
        let start = match parse_decimal(record[START_PRICE_INDEX].as_str()) {
            Some(a) => a,
            None => return Err(StoreError::InvalidStartPrice),
        };
        if record.len() <= END_PRICE_INDEX {
            return Err(StoreError::MissingEndPrice);
        }
        let end = match parse_decimal(record[END_PRICE_INDEX].as_str()) {
            Some(a) => a,
            None => return Err(StoreError::InvalidEndPrice),
        };
        assert(start == amount_of(decimal_parse(fields[START_PRICE_INDEX as int]).unwrap()));
        assert(end == amount_of(decimal_parse(fields[END_PRICE_INDEX as int]).unwrap()));
        self.record(record[DESCRIPTION_INDEX].as_str(), start, end)
    }

    /// The pool of the largest differences.
    pub fn get_top(&self) -> (r: &RecordPool)
        ensures
            r == &self.top,
    {
        &self.top
    }

    /// The pool of the smallest differences.
    pub fn get_bottom(&self) -> (r: &RecordPool)
        ensures
            r == &self.bottom,
    {
        &self.bottom
    }

    /// The description with code `code`, if any.
    pub fn get_description_for_code(&self, code: usize) -> (r: Option<String>)
        requires
            self.wf(),
        ensures
            r.is_some() == self.registry@.description_of(code).is_some(),
            r matches Some(s) ==> s@ == self.registry@.description_of(code).unwrap(),
    {
        self.registry.get_description_for_code(code)
    }
}

} // verus!
