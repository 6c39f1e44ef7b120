//! Interning of description strings to integer codes, with a count of the
//! pool entries that use each code.

use bimap::{BiHashMap, BiMap};
use std::collections::HashMap;
use vstd::prelude::*;

verus! {

broadcast use vstd::std_specs::hash::group_hash_axioms;

#[verifier::external_type_specification]
#[verifier::external_body]
#[verifier::reject_recursive_types(L)]
#[verifier::reject_recursive_types(R)]
#[verifier::reject_recursive_types(LS)]
#[verifier::reject_recursive_types(RS)]
pub struct ExBiHashMap<L, R, LS, RS>(BiHashMap<L, R, LS, RS>);

/// The `(description, code)` pairs that a bidirectional map holds.
pub uninterp spec fn bimap_pairs(m: BiHashMap<String, usize>) -> Set<(Seq<char>, usize)>;

/// Relies on `bimap::BiHashMap::new`: the map starts empty.
#[verifier::external_body]
fn empty_bimap() -> (r: BiMap<String, usize>)
    ensures
        bimap_pairs(r) == Set::<(Seq<char>, usize)>::empty(),
{
    BiMap::new()
}

/// Relies on `bimap::BiHashMap::get_by_left`: the code paired with `d`, if any.
#[verifier::external_body]
fn code_by_description(m: &BiMap<String, usize>, d: &str) -> (r: Option<usize>)
    ensures
        r matches Some(c) ==> bimap_pairs(*m).contains((d@, c)),
        r is None ==> forall|c: usize| !bimap_pairs(*m).contains((d@, c)),
{
    m.get_by_left(d).copied()
}

/// Relies on `bimap::BiHashMap::get_by_right`: the description paired with `c`,
/// if any.
#[verifier::external_body]
fn description_by_code(m: &BiMap<String, usize>, c: usize) -> (r: Option<String>)
    ensures
        r matches Some(s) ==> bimap_pairs(*m).contains((s@, c)),
        r is None ==> forall|d: Seq<char>| !bimap_pairs(*m).contains((d, c)),
{
    m.get_by_right(&c).cloned()
}

/// Relies on `bimap::BiHashMap::insert_no_overwrite`: the pair goes in exactly
/// when neither its description nor its code is paired yet.
#[verifier::external_body]
fn insert_pair(m: &mut BiMap<String, usize>, d: &str, c: usize) -> (r: bool)
    ensures
        r == ((forall|c2: usize| !bimap_pairs(*old(m)).contains((d@, c2))) && (forall|
            d2: Seq<char>,
        | !bimap_pairs(*old(m)).contains((d2, c)))),
        r ==> bimap_pairs(*final(m)) == bimap_pairs(*old(m)).insert((d@, c)),
        !r ==> bimap_pairs(*final(m)) == bimap_pairs(*old(m)),
{
    m.insert_no_overwrite(d.to_string(), c).is_ok()
}

/// Relies on `bimap::BiHashMap::remove_by_right`: the pair with code `c`, if
/// any, leaves the map.
#[verifier::external_body]
fn remove_pair(m: &mut BiMap<String, usize>, c: usize)
    ensures
        forall|p: (Seq<char>, usize)|
            #[trigger] bimap_pairs(*final(m)).contains(p) == (bimap_pairs(*old(m)).contains(p)
                && p.1 != c),
{
    m.remove_by_right(&c);
}

/// The state of a registry: the interned pairs, the use count of each code,
/// and the code the next new description gets.
pub struct RegistryModel {
    pub pairs: Set<(Seq<char>, usize)>,
    pub counts: Map<usize, usize>,
    pub next_code: usize,
}

impl RegistryModel {
    /// Each description has at most one code and each code at most one
    /// description; a code is paired exactly when it has a positive use count;
    /// codes handed out lie below `next_code`.
    pub open spec fn wf(self) -> bool {
        &&& forall|d: Seq<char>, c: usize| #[trigger]
            self.pairs.contains((d, c)) ==> self.counts.contains_key(c) && c < self.next_code
        &&& forall|c: usize| #[trigger]
            self.counts.contains_key(c) ==> self.counts[c] >= 1 && exists|d: Seq<char>|
                self.pairs.contains((d, c))
        &&& forall|d: Seq<char>, c1: usize, c2: usize|
            #[trigger] self.pairs.contains((d, c1)) && #[trigger] self.pairs.contains((d, c2))
                ==> c1 == c2
        &&& forall|d1: Seq<char>, d2: Seq<char>, c: usize|
            #[trigger] self.pairs.contains((d1, c)) && #[trigger] self.pairs.contains((d2, c))
                ==> d1 == d2
    }

    /// The code of description `d`, if it is interned.
    pub open spec fn code_of(self, d: Seq<char>) -> Option<usize> {
        if exists|c: usize| self.pairs.contains((d, c)) {
            Some(choose|c: usize| self.pairs.contains((d, c)))
        } else {
            None
        }
    }

    /// The description with code `c`, if any.
    pub open spec fn description_of(self, c: usize) -> Option<Seq<char>> {
        if exists|d: Seq<char>| self.pairs.contains((d, c)) {
            Some(choose|d: Seq<char>| self.pairs.contains((d, c)))
        } else {
            None
        }
    }

    /// The use count of code `c`; zero for a code not in use.
    pub open spec fn use_count(self, c: usize) -> nat {
        if self.counts.contains_key(c) {
            self.counts[c] as nat
        } else {
            0
        }
    }

    /// Interning `d` would overflow a counter: its use count, or the next code.
    pub open spec fn intern_blocked(self, d: Seq<char>) -> bool {
        match self.code_of(d) {
            Some(c) => self.counts[c] == usize::MAX,
            None => self.next_code == usize::MAX,
        }
    }

    /// The state after interning `d`, and the code it gets: an interned
    /// description has its count raised; a new one takes the next code with a
    /// count of one.
    pub open spec fn intern(self, d: Seq<char>) -> (RegistryModel, usize) {
        match self.code_of(d) {
            Some(c) => (
                RegistryModel { counts: self.counts.insert(c, (self.counts[c] + 1) as usize), ..self },
                c,
            ),
            None => (
                RegistryModel {
                    pairs: self.pairs.insert((d, self.next_code)),
                    counts: self.counts.insert(self.next_code, 1),
                    next_code: (self.next_code + 1) as usize,
                },
                self.next_code,
            ),
        }
    }

    /// The state after releasing one use of code `c`: the code and its
    /// description go when the count reaches zero; an unknown code changes
    /// nothing.
    pub open spec fn release(self, c: usize) -> RegistryModel {
        if !self.counts.contains_key(c) {
            self
        } else if self.counts[c] == 1 {
            RegistryModel {
                pairs: self.pairs.remove((self.description_of(c).unwrap(), c)),
                counts: self.counts.remove(c),
                ..self
            }
        } else {
            RegistryModel { counts: self.counts.insert(c, (self.counts[c] - 1) as usize), ..self }
        }
    }
}

/// Interning a description hands back a code under which the description is
/// then found, with a use count of at least one.
pub proof fn lemma_intern_lookup(r: RegistryModel, d: Seq<char>)
    requires
        r.wf(),
        !r.intern_blocked(d),
    ensures
        ({
            let (r2, c) = r.intern(d);
            r2.description_of(c) == Some(d) && r2.use_count(c) >= 1
        }),
{
    let (r2, c) = r.intern(d);
    match r.code_of(d) {
        Some(k) => {
            assert(r.pairs.contains((d, k)));
            assert(r2.pairs.contains((d, c)));
            let d2 = choose|d2: Seq<char>| r2.pairs.contains((d2, c));
            assert(r.pairs.contains((d2, c)));
        },
        None => {
            assert(r2.pairs.contains((d, c)));
            let d2 = choose|d2: Seq<char>| r2.pairs.contains((d2, c));
            if d2 != d {
                assert(r.pairs.contains((d2, c)));
                assert(c < r.next_code);
            }
        },
    }
}

/// A description stays found under its code for as long as the code is in
/// use: interning any description, or releasing any code, leaves every code
/// that keeps a positive use count with the description it had.
pub proof fn lemma_lookup_stable(r: RegistryModel, d: Seq<char>, c: usize, other: Seq<char>, k: usize)
    requires
        r.wf(),
        r.pairs.contains((d, c)),
    ensures
        r.description_of(c) == Some(d),
        !r.intern_blocked(other) ==> r.intern(other).0.description_of(c) == Some(d),
        r.release(k).use_count(c) >= 1 ==> r.release(k).description_of(c) == Some(d),
{
    let d1 = choose|x: Seq<char>| r.pairs.contains((x, c));
    assert(r.pairs.contains((d1, c)));
    if !r.intern_blocked(other) {
        let r2 = r.intern(other).0;
        assert(r2.pairs.contains((d, c)));
        let d2 = choose|x: Seq<char>| r2.pairs.contains((x, c));
        assert(r2.pairs.contains((d2, c)));
        if r.code_of(other) is None && d2 != d {
            assert(r.pairs.contains((d2, c)));
        }
    }
    let r3 = r.release(k);
    if r3.use_count(c) >= 1 {
        if r.counts.contains_key(k) && r.counts[k] == 1 {
            assert(k != c);
            let dk = choose|x: Seq<char>| r.pairs.contains((x, k));
            assert(r.pairs.contains((dk, k)));
        }
        assert(r3.pairs.contains((d, c)));
        let d3 = choose|x: Seq<char>| r3.pairs.contains((x, c));
        assert(r3.pairs.contains((d3, c)));
        assert(r.pairs.contains((d3, c)));
    }
}

/// Interning keeps a registry well formed and adds one use to the code it
/// hands back, and to no other code.
pub proof fn lemma_intern_counts(r: RegistryModel, d: Seq<char>)
    requires
        r.wf(),
        !r.intern_blocked(d),
    ensures
        ({
            let (r2, code) = r.intern(d);
            &&& r2.wf()
            &&& forall|c: usize|
                #[trigger] r2.use_count(c) == r.use_count(c) + if c == code {
                    1nat
                } else {
                    0nat
                }
        }),
{
    let (r2, code) = r.intern(d);
    match r.code_of(d) {
        Some(k) => {
            assert(r.pairs.contains((d, k)));
            assert forall|c: usize| #[trigger] r2.counts.contains_key(c) implies r2.counts[c] >= 1
                && exists|x: Seq<char>| r2.pairs.contains((x, c)) by {
                assert(r.counts.contains_key(c));
                let x = choose|x: Seq<char>| r.pairs.contains((x, c));
                assert(r2.pairs.contains((x, c)));
            }
        },
        None => {
            assert forall|x: Seq<char>| !r.pairs.contains((x, code)) by {
                if r.pairs.contains((x, code)) {
                    assert(code < r.next_code);
                }
            }
            assert(!r.counts.contains_key(code)) by {
                if r.counts.contains_key(code) {
                    let x = choose|x: Seq<char>| r.pairs.contains((x, code));
                }
            }
            assert forall|c: usize| #[trigger] r2.counts.contains_key(c) implies r2.counts[c] >= 1
                && exists|x: Seq<char>| r2.pairs.contains((x, c)) by {
                if c != code {
                    assert(r.counts.contains_key(c));
                    let x = choose|x: Seq<char>| r.pairs.contains((x, c));
                    assert(r2.pairs.contains((x, c)));
                } else {
                    assert(r2.pairs.contains((d, c)));
                }
            }
        },
    }
}

/// Releasing a code keeps a registry well formed and takes one use from that
/// code, where it has any, and from no other code.
pub proof fn lemma_release_counts(r: RegistryModel, k: usize)
    requires
        r.wf(),
    ensures
        r.release(k).wf(),
        forall|c: usize|
            #[trigger] r.release(k).use_count(c) == if c == k && r.use_count(c) > 0 {
                (r.use_count(c) - 1) as nat
            } else {
                r.use_count(c)
            },
{
    let r2 = r.release(k);
    if r.counts.contains_key(k) {
        let dk = choose|x: Seq<char>| r.pairs.contains((x, k));
        assert(r.pairs.contains((dk, k)));
        assert forall|c: usize| #[trigger] r2.counts.contains_key(c) implies r2.counts[c] >= 1
            && exists|x: Seq<char>| r2.pairs.contains((x, c)) by {
            assert(r.counts.contains_key(c));
            let x = choose|x: Seq<char>| r.pairs.contains((x, c));
            assert(r.pairs.contains((x, c)));
            if c != k {
                assert(r2.pairs.contains((x, c)));
            } else {
                assert(r2.pairs.contains((x, c)));
            }
        }
        if r.counts[k] == 1 {
            assert forall|x: Seq<char>, c: usize| #[trigger]
                r2.pairs.contains((x, c)) implies r2.counts.contains_key(c) && c < r2.next_code by {
                assert(r.pairs.contains((x, c)));
                if c == k {
                    assert(x == dk);
                }
            }
        }
    }
}

/// Descriptions interned to codes, with use counts.
#[derive(Debug)]
pub struct DescriptionRegistry {
    descriptions: BiMap<String, usize>,
    code_use: HashMap<usize, usize>,
    next_code: usize,
}

impl View for DescriptionRegistry {
    type V = RegistryModel;

    closed spec fn view(&self) -> RegistryModel {
        RegistryModel {
            pairs: bimap_pairs(self.descriptions),
            counts: self.code_use@,
            next_code: self.next_code,
        }
    }
}

impl DescriptionRegistry {
    /// An empty registry whose first code is zero.
    pub fn new() -> (r: DescriptionRegistry)
        ensures
            r@.wf(),
            r@.pairs == Set::<(Seq<char>, usize)>::empty(),
            r@.counts == Map::<usize, usize>::empty(),
            r@.next_code == 0,
    {
        DescriptionRegistry { descriptions: empty_bimap(), code_use: HashMap::new(), next_code: 0 }
    }

    /// The code of `description`, if it is interned; nothing changes.
    pub fn find_code(&self, description: &str) -> (r: Option<usize>)
        requires
            self@.wf(),
        ensures
            r == self@.code_of(description@),
    {
        let r = code_by_description(&self.descriptions, description);
        proof {
            if let Some(c) = r {
                assert(self@.pairs.contains((description@, c)));
            }
        }
        r
    }

    /// The code for `description`, interning it where it is new, with one
    /// more use counted; `None`, with nothing changed, where a counter would
    /// overflow.
    pub fn code_for_description(&mut self, description: &str) -> (r: Option<usize>)
        requires
            old(self)@.wf(),
        ensures
            final(self)@.wf(),
            old(self)@.intern_blocked(description@) ==> r is None && final(self)@ == old(self)@,
            !old(self)@.intern_blocked(description@) ==> r is Some && (final(self)@, r.unwrap())
                == old(self)@.intern(description@),
    {
        let ghost m = self@;
        match code_by_description(&self.descriptions, description) {
            Some(code) => {
                assert(m.pairs.contains((description@, code)));
                proof {
                    let c2 = choose|c: usize| m.pairs.contains((description@, c));
                    assert(m.pairs.contains((description@, c2)));
                }
                assert(m.code_of(description@) == Some(code));
                let count = match self.code_use.get(&code) {
                    Some(n) => *n,
                    None => {
                        assert(false);
                        0
                    },
                };
                assert(m.counts.contains_key(code) && m.counts[code] == count);
                if count == usize::MAX {
                    return None;
                }
                self.code_use.insert(code, count + 1);
                proof {
                    lemma_intern_counts(m, description@);
                }
                Some(code)
            },
            None => {
                assert(m.code_of(description@) is None);
                if self.next_code == usize::MAX {
                    return None;
                }
                let code = self.next_code;
                assert forall|d2: Seq<char>| !m.pairs.contains((d2, code)) by {
                    if m.pairs.contains((d2, code)) {
                        assert(code < m.next_code);
                    }
                }
                assert(m.pairs == bimap_pairs(self.descriptions));
                let ok = insert_pair(&mut self.descriptions, description, code);
                assert(ok);
                self.code_use.insert(code, 1);
                self.next_code = self.next_code + 1;
                proof {
                    lemma_intern_counts(m, description@);
                    assert(self@ == m.intern(description@).0);
                }
                Some(code)
            },
        }
    }

    /// Releases one use of `code`, dropping the code and its description when
    /// no use is left.
    pub fn cleanup_descriptions(&mut self, code: usize)
        requires
            old(self)@.wf(),
        ensures
            final(self)@.wf(),
            final(self)@ == old(self)@.release(code),
    {
        let ghost m = self@;
        proof {
            lemma_release_counts(m, code);
        }
        let count = match self.code_use.get(&code) {
            Some(n) => *n,
            None => {
                return;
            },
        };
        assert(m.counts.contains_key(code) && m.counts[code] == count);
        if count == 1 {
            let ghost d = m.description_of(code).unwrap();
            proof {
                let dd = choose|d: Seq<char>| m.pairs.contains((d, code));
                assert(m.pairs.contains((dd, code)));
            }
            remove_pair(&mut self.descriptions, code);
            self.code_use.remove(&code);
            proof {
                let n = self@;
                assert(m.pairs.contains((d, code)));
                assert forall|p: (Seq<char>, usize)| #[trigger]
                    n.pairs.contains(p) == m.pairs.remove((d, code)).contains(p) by {
                    if p.1 == code && m.pairs.contains(p) {
                        assert(m.pairs.contains((p.0, code)));
                    }
                }
                assert(n.pairs =~= m.pairs.remove((d, code)));
                assert(n.counts == m.counts.remove(code));
            }
        } else {
            self.code_use.insert(code, count - 1);
        }
    }

    /// The number of pool entries counted as using `code`; zero for a code
    /// not in use.
    pub fn use_count(&self, code: usize) -> (r: usize)
        ensures
            r == self@.use_count(code),
    {
        match self.code_use.get(&code) {
            Some(n) => *n,
            None => 0,
        }
    }

    /// The description with code `code`, if any.
    pub fn get_description_for_code(&self, code: usize) -> (r: Option<String>)
        requires
            self@.wf(),
        ensures
            r.is_some() == self@.description_of(code).is_some(),
            r matches Some(s) ==> s@ == self@.description_of(code).unwrap(),
    {
        let r = description_by_code(&self.descriptions, code);
        proof {
            if r.is_some() {
                let d = choose|d: Seq<char>| self@.pairs.contains((d, code));
                assert(self@.pairs.contains((d, code)));
            }
        }
        r
    }
}

} // verus!
