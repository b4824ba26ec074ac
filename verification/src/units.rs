//! The store of DAG units that an election reads: units by hash, the hashes
//! present at a round, and the highest round seen so far.

use vstd::prelude::*;

verus! {

/// One vertex of the causal DAG: created by one committee member in one
/// round, citing at most one parent unit per committee member.
pub struct Unit {
    pub round: u64,
    pub creator: usize,
    pub hash: u64,
    /// One slot per committee member: `Some(h)` cites that member's unit of
    /// the previous round, `None` cites nothing in that slot.
    pub parents: Vec<Option<u64>>,
}

/// Mathematical image of a unit.
pub struct UnitV {
    pub round: int,
    pub creator: int,
    pub hash: u64,
    pub parents: Seq<Option<u64>>,
}

impl View for Unit {
    type V = UnitV;

    open spec fn view(&self) -> UnitV {
        UnitV {
            round: self.round as int,
            creator: self.creator as int,
            hash: self.hash,
            parents: self.parents@,
        }
    }
}

/// How many parent slots are filled.
pub open spec fn count_present(parents: Seq<Option<u64>>) -> int
    decreases parents.len(),
{
    if parents.len() == 0 {
        0
    } else {
        count_present(parents.drop_last()) + if parents.last() is Some {
            1int
        } else {
            0int
        }
    }
}

/// Mathematical image of the unit store.
pub struct UnitsV {
    pub n_members: int,
    pub units: Seq<UnitV>,
}

impl UnitsV {
    /// The Byzantine supermajority bound for the committee.
    pub open spec fn threshold(self) -> int {
        (self.n_members * 2) / 3 + 1
    }

    pub open spec fn contains_hash(self, h: u64) -> bool {
        exists|i: int| 0 <= i < self.units.len() && self.units[i].hash == h
    }

    pub open spec fn index_of(self, h: u64) -> int {
        choose|i: int| 0 <= i < self.units.len() && self.units[i].hash == h
    }

    /// The unit stored under a hash (meaningful only when `contains_hash`).
    pub open spec fn unit_of(self, h: u64) -> UnitV {
        self.units[self.index_of(h)]
    }

    pub open spec fn round_of(self, h: u64) -> int {
        self.unit_of(h).round
    }

    pub open spec fn max_round_of(s: Seq<UnitV>) -> int
        decreases s.len(),
    {
        if s.len() == 0 {
            0
        } else {
            let rest = Self::max_round_of(s.drop_last());
            if s.last().round > rest {
                s.last().round
            } else {
                rest
            }
        }
    }

    /// The greatest round for which a unit is known; 0 when the store is empty.
    pub open spec fn highest_round(self) -> int {
        Self::max_round_of(self.units)
    }

    pub open spec fn hashes_at_round(s: Seq<UnitV>, r: int) -> Seq<u64>
        decreases s.len(),
    {
        if s.len() == 0 {
            Seq::empty()
        } else {
            let rest = Self::hashes_at_round(s.drop_last(), r);
            if s.last().round == r {
                rest.push(s.last().hash)
            } else {
                rest
            }
        }
    }

    /// The hashes of all stored units of the given round, in insertion order.
    pub open spec fn round_hashes(self, r: int) -> Seq<u64> {
        Self::hashes_at_round(self.units, r)
    }

    /// A single unit is sound with respect to the store: one parent slot per
    /// member, every cited parent stored exactly one round below, and at
    /// least a supermajority of slots filled from round 1 on (the causal
    /// completeness the surrounding protocol guarantees).
    pub open spec fn unit_wf(self, u: UnitV) -> bool {
        &&& u.parents.len() == self.n_members
        &&& 0 <= u.creator < self.n_members
        &&& 0 <= u.round <= u64::MAX
        &&& forall|k: int|
            0 <= k < u.parents.len() ==> ((#[trigger] u.parents[k]) matches Some(p)
                ==> self.contains_hash(p) && self.round_of(p) == u.round - 1)
        &&& u.round >= 1 ==> count_present(u.parents) >= self.threshold()
        &&& u.round == 0 ==> count_present(u.parents) == 0
    }

    /// The whole store is sound: hashes are unique and every stored unit is.
    pub open spec fn wf(self) -> bool {
        &&& 1 <= self.n_members
        &&& self.n_members * 2 + 1 <= usize::MAX
        &&& forall|i: int, j: int|
            0 <= i < self.units.len() && 0 <= j < self.units.len() && i != j
                ==> (#[trigger] self.units[i]).hash != (#[trigger] self.units[j]).hash
        &&& forall|i: int| 0 <= i < self.units.len() ==> self.unit_wf(#[trigger] self.units[i])
    }

    /// A fresh unit may join the store: its hash is new and it is sound with
    /// respect to what is already stored.
    pub open spec fn can_add(self, u: UnitV) -> bool {
        &&& !self.contains_hash(u.hash)
        &&& self.unit_wf(u)
    }
}

/// Uniqueness of hashes makes `unit_of` agree with any index that holds the
/// hash.
pub proof fn lemma_unit_at_index(v: UnitsV, i: int)
    requires
        v.wf(),
        0 <= i < v.units.len(),
    ensures
        v.contains_hash(v.units[i].hash),
        v.index_of(v.units[i].hash) == i,
        v.unit_of(v.units[i].hash) == v.units[i],
        v.unit_wf(v.units[i]),
{
    let h = v.units[i].hash;
    assert(v.contains_hash(h));
    let j = v.index_of(h);
    assert(0 <= j < v.units.len() && v.units[j].hash == h);
    if j != i {
        assert(v.units[j].hash != v.units[i].hash);
    }
}

/// Every stored unit's round is at most the highest round.
pub proof fn lemma_max_round_bound(s: Seq<UnitV>, i: int)
    requires
        0 <= i < s.len(),
    ensures
        s[i].round <= UnitsV::max_round_of(s),
    decreases s.len(),
{
    if i + 1 < s.len() {
        lemma_max_round_bound(s.drop_last(), i);
    }
}

/// A nonempty store has a unit of the highest round.
pub proof fn lemma_max_round_achieved(s: Seq<UnitV>)
    requires
        s.len() > 0,
        forall|i: int| 0 <= i < s.len() ==> (#[trigger] s[i]).round >= 0,
    ensures
        exists|i: int| 0 <= i < s.len() && (#[trigger] s[i]).round == UnitsV::max_round_of(s),
    decreases s.len(),
{
    if s.len() == 1 {
        assert(UnitsV::max_round_of(s.drop_last()) == 0) by {
            assert(s.drop_last().len() == 0);
        }
        assert(s[0].round == UnitsV::max_round_of(s));
    } else {
        let rest = UnitsV::max_round_of(s.drop_last());
        if s.last().round > rest {
            assert(s[s.len() - 1].round == UnitsV::max_round_of(s));
        } else {
            assert forall|i: int|
                0 <= i < s.drop_last().len() implies (#[trigger] s.drop_last()[i]).round >= 0 by {
                assert(s.drop_last()[i] == s[i]);
            }
            lemma_max_round_achieved(s.drop_last());
            let i = choose|i: int|
                0 <= i < s.drop_last().len() && (#[trigger] s.drop_last()[i]).round == rest;
            assert(s[i].round == UnitsV::max_round_of(s));
        }
    }
}

/// With unique unit hashes, the hashes listed for a round are distinct.
pub proof fn lemma_round_hashes_distinct(s: Seq<UnitV>, r: int)
    requires
        forall|i: int, j: int|
            0 <= i < s.len() && 0 <= j < s.len() && i != j ==> (#[trigger] s[i]).hash != (
            #[trigger] s[j]).hash,
    ensures
        forall|i: int, j: int|
            0 <= i < j < UnitsV::hashes_at_round(s, r).len()
                ==> UnitsV::hashes_at_round(s, r)[i] != UnitsV::hashes_at_round(s, r)[j],
    decreases s.len(),
{
    if s.len() > 0 {
        let hs = UnitsV::hashes_at_round(s, r);
        let rest = UnitsV::hashes_at_round(s.drop_last(), r);
        assert forall|i: int, j: int|
            0 <= i < s.drop_last().len() && 0 <= j < s.drop_last().len() && i != j implies (
        #[trigger] s.drop_last()[i]).hash != (#[trigger] s.drop_last()[j]).hash by {
            assert(s.drop_last()[i] == s[i] && s.drop_last()[j] == s[j]);
        }
        lemma_round_hashes_distinct(s.drop_last(), r);
        if s.last().round == r {
            if rest.contains(s.last().hash) {
                lemma_round_hashes_member(s.drop_last(), r, s.last().hash);
                let i = choose|i: int|
                    0 <= i < s.drop_last().len() && s.drop_last()[i].hash == s.last().hash && (
                    #[trigger] s.drop_last()[i]).round == r;
                assert(s[i].hash == s[s.len() - 1].hash);
                assert(false);
            }
            assert forall|i: int, j: int| 0 <= i < j < hs.len() implies hs[i] != hs[j] by {
                if j < hs.len() - 1 {
                    assert(rest[i] != rest[j]);
                } else {
                    assert(hs[j] == s.last().hash);
                    if hs[i] == s.last().hash {
                        assert(rest[i] == s.last().hash);
                        assert(rest.contains(s.last().hash));
                    }
                }
            }
        }
    }
}

/// A hash listed for a round is the hash of a stored unit of that round.
pub proof fn lemma_round_hashes_member(s: Seq<UnitV>, r: int, x: u64)
    requires
        UnitsV::hashes_at_round(s, r).contains(x),
    ensures
        exists|i: int| 0 <= i < s.len() && s[i].hash == x && (#[trigger] s[i]).round == r,
    decreases s.len(),
{
    if s.len() > 0 {
        let rest = UnitsV::hashes_at_round(s.drop_last(), r);
        if s.last().round == r && x == s.last().hash {
            assert(s[s.len() - 1].hash == x && s[s.len() - 1].round == r);
        } else {
            assert(rest.contains(x)) by {
                if s.last().round == r {
                    assert(UnitsV::hashes_at_round(s, r) == rest.push(s.last().hash));
                    let k = choose|k: int|
                        0 <= k < rest.push(s.last().hash).len() && rest.push(s.last().hash)[k]
                            == x;
                    assert(rest[k] == x);
                }
            }
            lemma_round_hashes_member(s.drop_last(), r, x);
            let i = choose|i: int|
                0 <= i < s.drop_last().len() && s.drop_last()[i].hash == x && (#[trigger] s.drop_last()[i]).round == r;
            assert(s[i].hash == x && s[i].round == r);
        }
    }
}

/// Conversely, the hash of every stored unit of a round is listed for it.
pub proof fn lemma_round_hashes_complete(s: Seq<UnitV>, r: int, i: int)
    requires
        0 <= i < s.len(),
        s[i].round == r,
    ensures
        UnitsV::hashes_at_round(s, r).contains(s[i].hash),
    decreases s.len(),
{
    let rest = UnitsV::hashes_at_round(s.drop_last(), r);
    if i + 1 == s.len() {
        assert(UnitsV::hashes_at_round(s, r)[rest.len() as int] == s[i].hash);
    } else {
        lemma_round_hashes_complete(s.drop_last(), r, i);
        let k = choose|k: int| 0 <= k < rest.len() && rest[k] == s.drop_last()[i].hash;
        assert(UnitsV::hashes_at_round(s, r)[k] == s[i].hash);
    }
}

/// A filled parent slot exists whenever the count of filled slots is positive.
pub proof fn lemma_present_witness(parents: Seq<Option<u64>>)
    requires
        count_present(parents) >= 1,
    ensures
        exists|k: int| 0 <= k < parents.len() && (#[trigger] parents[k]) is Some,
    decreases parents.len(),
{
    if parents.last() is Some {
        assert(parents[parents.len() - 1] is Some);
    } else {
        lemma_present_witness(parents.drop_last());
        let k = choose|k: int|
            0 <= k < parents.drop_last().len() && (#[trigger] parents.drop_last()[k]) is Some;
        assert(parents[k] is Some);
    }
}

/// In a sound store, a unit at some round means a unit at every round below:
/// from round 1 on a unit cites at least one parent, one round down.
pub proof fn lemma_round_descend(v: UnitsV, high: int, r: int)
    requires
        v.wf(),
        exists|i: int| 0 <= i < v.units.len() && (#[trigger] v.units[i]).round == high,
        0 <= r <= high,
    ensures
        exists|i: int| 0 <= i < v.units.len() && (#[trigger] v.units[i]).round == r,
    decreases high - r,
{
    if r < high {
        let i = choose|i: int| 0 <= i < v.units.len() && (#[trigger] v.units[i]).round == high;
        let u = v.units[i];
        assert(v.unit_wf(u));
        assert(v.threshold() >= 1) by {
            assert(v.n_members * 2 >= 2);
        }
        lemma_present_witness(u.parents);
        let k = choose|k: int| 0 <= k < u.parents.len() && (#[trigger] u.parents[k]) is Some;
        let p = u.parents[k]->Some_0;
        assert(u.parents[k] matches Some(q) && q == p);
        assert(v.contains_hash(p) && v.round_of(p) == high - 1);
        let j = v.index_of(p);
        assert(0 <= j < v.units.len() && v.units[j].round == high - 1);
        lemma_round_descend(v, high - 1, r);
    }
}

/// The store itself. It only accepts units that keep it sound, so everything
/// an election reads from it can be trusted structurally.
pub struct Units {
    n_members: usize,
    units: Vec<Unit>,
}

impl View for Units {
    type V = UnitsV;

    closed spec fn view(&self) -> UnitsV {
        UnitsV { n_members: self.n_members as int, units: self.units@.map_values(|u: Unit| u@) }
    }
}

impl Units {
    /// An empty store for a committee of the given size.
    pub fn new(n_members: usize) -> (store: Units)
        requires
            1 <= n_members,
            n_members * 2 + 1 <= usize::MAX,
        ensures
            store@.wf(),
            store@.n_members == n_members,
            store@.units.len() == 0,
    {
        let store = Units { n_members, units: Vec::new() };
        proof {
            assert(store@.units =~= Seq::<UnitV>::empty());
        }
        store
    }

    /// The committee size the store was created for.
    pub fn n_members(&self) -> (n: usize)
        ensures
            n == self@.n_members,
    {
        self.n_members
    }

    /// Resolve a hash to its unit.
    pub fn get(&self, h: u64) -> (r: Option<&Unit>)
        requires
            self@.wf(),
        ensures
            r is Some <==> self@.contains_hash(h),
            r matches Some(u) ==> u@ == self@.unit_of(h) && u.hash == h,
    {
        let n = self.units.len();
        let mut i: usize = 0;
        while i < n
            invariant
                self@.wf(),
                n == self.units.len(),
                i <= n,
                forall|j: int| 0 <= j < i ==> (#[trigger] self@.units[j]).hash != h,
            decreases n - i,
        {
            if self.units[i].hash == h {
                proof {
                    lemma_unit_at_index(self@, i as int);
                }
                return Some(&self.units[i]);
            }
            i += 1;
        }
        proof {
            if self@.contains_hash(h) {
                let j = self@.index_of(h);
                assert(self@.units[j].hash != h);
            }
        }
        None
    }

    /// The greatest round any stored unit has; 0 when the store is empty.
    pub fn highest_round(&self) -> (r: u64)
        ensures
            r as int == self@.highest_round(),
    {
        let n = self.units.len();
        let mut i: usize = 0;
        let mut r: u64 = 0;
        while i < n
            invariant
                n == self.units.len(),
                i <= n,
                r as int == UnitsV::max_round_of(self@.units.take(i as int)),
            decreases n - i,
        {
            proof {
                assert(self@.units.take(i + 1).drop_last() =~= self@.units.take(i as int));
                assert(self@.units.take(i + 1).last() == self@.units[i as int]);
            }
            if self.units[i].round > r {
                r = self.units[i].round;
            }
            i += 1;
        }
        proof {
            assert(self@.units.take(n as int) =~= self@.units);
        }
        r
    }

    /// The hashes of all stored units of the given round, in insertion order.
    pub fn in_round(&self, r: u64) -> (hashes: Vec<u64>)
        ensures
            hashes@ == self@.round_hashes(r as int),
    {
        let n = self.units.len();
        let mut i: usize = 0;
        let mut hashes: Vec<u64> = Vec::new();
        proof {
            assert(hashes@ =~= UnitsV::hashes_at_round(self@.units.take(0), r as int));
        }
        while i < n
            invariant
                n == self.units.len(),
                i <= n,
                hashes@ == UnitsV::hashes_at_round(self@.units.take(i as int), r as int),
            decreases n - i,
        {
            proof {
                assert(self@.units.take(i + 1).drop_last() =~= self@.units.take(i as int));
                assert(self@.units.take(i + 1).last() == self@.units[i as int]);
            }
            if self.units[i].round == r {
                hashes.push(self.units[i].hash);
            }
            i += 1;
        }
        proof {
            assert(self@.units.take(n as int) =~= self@.units);
        }
        hashes
    }

    /// Add a unit. The store checks soundness itself: a new hash, one parent
    /// slot per member, every cited parent already stored one round below,
    /// and a supermajority of filled slots from round 1 on. A unit that
    /// fails any check is rejected and the store is unchanged.
    pub fn add_unit(&mut self, u: Unit) -> (ok: bool)
        requires
            old(self)@.wf(),
        ensures
            final(self)@.wf(),
            final(self)@.n_members == old(self)@.n_members,
            ok <==> old(self)@.can_add(u@),
            ok ==> final(self)@.units == old(self)@.units.push(u@),
            !ok ==> final(self)@ == old(self)@,
    {
        if self.get(u.hash).is_some() {
            return false;
        }
        if u.parents.len() != self.n_members || u.creator >= self.n_members {
            return false;
        }
        let n_parents = u.parents.len();
        let mut k: usize = 0;
        let mut present: usize = 0;
        while k < n_parents
            invariant
                self == old(self),
                self@.wf(),
                n_parents == u.parents.len(),
                k <= n_parents,
                present as int == count_present(u.parents@.take(k as int)),
                present <= k,
                forall|k2: int|
                    0 <= k2 < k ==> ((#[trigger] u.parents@[k2]) matches Some(p)
                        ==> self@.contains_hash(p) && self@.round_of(p) == u.round - 1),
            decreases n_parents - k,
        {
            proof {
                assert(u.parents@.take(k + 1).drop_last() =~= u.parents@.take(k as int));
                assert(u.parents@.take(k + 1).last() == u.parents@[k as int]);
            }
            let slot = u.parents[k];
            match slot {
                None => {},
                Some(p) => {
                    if u.round == 0 {
                        return false;
                    }
                    match self.get(p) {
                        None => {
                            return false;
                        },
                        Some(w) => {
                            if w.round != u.round - 1 {
                                return false;
                            }
                        },
                    }
                    present += 1;
                },
            }
            k += 1;
        }
        proof {
            assert(u.parents@.take(n_parents as int) =~= u.parents@);
        }
        if u.round >= 1 {
            let threshold = (self.n_members * 2) / 3 + 1;
            if present < threshold {
                return false;
            }
        } else {
            if present > 0 {
                return false;
            }
        }
        let ghost old_v = self@;
        let ghost uv = u@;
        self.units.push(u);
        proof {
            assert(self@.units =~= old_v.units.push(uv));
            assert(old_v.can_add(uv));
            lemma_add_preserves_wf(old_v, uv);
        }
        true
    }
}

/// Extending a sound store with an addable unit keeps it sound, keeps every
/// old hash resolving to the same unit, and resolves the new hash to the new
/// unit.
pub proof fn lemma_add_preserves_wf(v: UnitsV, u: UnitV)
    requires
        v.wf(),
        v.can_add(u),
    ensures
        ({
            let w = UnitsV { n_members: v.n_members, units: v.units.push(u) };
            &&& w.wf()
            &&& forall|h: u64|
                #[trigger] v.contains_hash(h) ==> w.contains_hash(h) && w.unit_of(h) == v.unit_of(
                    h,
                )
            &&& w.contains_hash(u.hash)
            &&& w.unit_of(u.hash) == u
        }),
{
    let w = UnitsV { n_members: v.n_members, units: v.units.push(u) };
    let len = v.units.len() as int;
    assert forall|h: u64| #[trigger] v.contains_hash(h) implies w.contains_hash(h) && w.unit_of(h)
        == v.unit_of(h) by {
        let i = v.index_of(h);
        assert(w.units[i].hash == h);
        assert(w.contains_hash(h));
        let j = w.index_of(h);
        assert(0 <= j < w.units.len() && w.units[j].hash == h);
        if j == len {
            assert(u.hash == h);
            assert(v.contains_hash(u.hash));
            assert(false);
        }
        assert(v.units[j].hash == h);
        if j != i {
            assert(v.units[j].hash != v.units[i].hash);
        }
        assert(w.unit_of(h) == v.units[i]);
        lemma_unit_at_index(v, i);
    }
    assert(w.contains_hash(u.hash)) by {
        assert(w.units[len].hash == u.hash);
    }
    assert(w.unit_of(u.hash) == u) by {
        let j = w.index_of(u.hash);
        assert(0 <= j < w.units.len() && w.units[j].hash == u.hash);
        if j < len {
            assert(v.units[j].hash == u.hash);
            assert(v.contains_hash(u.hash));
            assert(false);
        }
    }
    assert forall|i: int, j: int|
        0 <= i < w.units.len() && 0 <= j < w.units.len() && i != j implies (#[trigger] w.units[i]).hash
        != (#[trigger] w.units[j]).hash by {
        if i < len && j < len {
            assert(v.units[i].hash != v.units[j].hash);
        } else if i == len {
            assert(v.units[j].hash == w.units[j].hash);
            if w.units[i].hash == w.units[j].hash {
                assert(v.contains_hash(u.hash));
            }
        } else {
            assert(v.units[i].hash == w.units[i].hash);
            if w.units[i].hash == w.units[j].hash {
                assert(v.contains_hash(u.hash));
            }
        }
    }
    assert forall|i: int| 0 <= i < w.units.len() implies w.unit_wf(#[trigger] w.units[i]) by {
        let x = w.units[i];
        if i < len {
            assert(v.unit_wf(x));
        }
        assert(v.unit_wf(x));
        assert forall|k: int|
            0 <= k < x.parents.len() implies ((#[trigger] x.parents[k]) matches Some(p)
            ==> w.contains_hash(p) && w.round_of(p) == x.round - 1) by {
            match x.parents[k] {
                Some(p) => {
                    assert(v.contains_hash(p) && v.round_of(p) == x.round - 1);
                },
                None => {},
            }
        }
    }
}

} // verus!
