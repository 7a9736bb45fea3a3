//! A dense zone-by-zone matrix stored row-major in a flat vector: the
//! storage and zone indexing of origin-destination matrices.
use std::collections::HashMap;

use vstd::prelude::*;

use crate::gmns::types::ZoneID;

verus! {

broadcast use vstd::std_specs::hash::group_hash_axioms;

/// The last position of zone `z` in `zones`, or -1 when it is absent.
pub open spec fn last_index(zones: Seq<ZoneID>, z: ZoneID) -> int
    decreases zones.len(),
{
    if zones.len() == 0 {
        -1
    } else if zones.last() == z {
        zones.len() - 1
    } else {
        last_index(zones.drop_last(), z)
    }
}

proof fn lemma_last_index_range(zones: Seq<ZoneID>, z: ZoneID)
    ensures
        -1 <= last_index(zones, z) < zones.len(),
        last_index(zones, z) >= 0 ==> zones[last_index(zones, z)] == z,
        zones.contains(z) <==> last_index(zones, z) >= 0,
    decreases zones.len(),
{
    if zones.len() > 0 {
        lemma_last_index_range(zones.drop_last(), z);
        if zones.last() != z {
            if zones.contains(z) {
                let j = choose|j: int| 0 <= j < zones.len() && zones[j] == z;
                assert(zones.drop_last()[j] == z);
            }
            if zones.drop_last().contains(z) {
                let j = choose|j: int| 0 <= j < zones.drop_last().len() && zones.drop_last()[j] == z;
                assert(zones[j] == z);
            }
        }
    }
}

/// The row (or column) of zone `z`: its last position in `zones`.
pub open spec fn zone_position(zones: Seq<ZoneID>, z: ZoneID) -> Option<int> {
    if zones.contains(z) {
        Some(last_index(zones, z))
    } else {
        None
    }
}

/// A zone has a row exactly when it is listed; its row is a position
/// that holds it, and no later position holds it.
pub proof fn law_zone_position(zones: Seq<ZoneID>, z: ZoneID)
    ensures
        zone_position(zones, z) is None <==> !zones.contains(z),
        zone_position(zones, z) matches Some(i) ==> 0 <= i < zones.len() && zones[i] == z && forall|
            k: int,
        |
            i < k < zones.len() ==> #[trigger] zones[k] != z,
    decreases zones.len(),
{
    lemma_last_index_range(zones, z);
    if zones.len() > 0 && zones.last() != z {
        let init = zones.drop_last();
        law_zone_position(init, z);
        lemma_last_index_range(init, z);
        if zones.contains(z) {
            assert(init.contains(z)) by {
                let j = choose|j: int| 0 <= j < zones.len() && zones[j] == z;
                assert(init[j] == z);
            }
            let i = last_index(init, z);
            assert forall|k: int| i < k < zones.len() implies #[trigger] zones[k] != z by {
                if k < init.len() {
                    assert(init[k] == zones[k]);
                }
            }
        }
    }
}

/// A square matrix of values indexed by zone ID.
#[derive(Debug, Clone)]
pub struct ZoneMatrix<T> {
    zone_ids: Vec<ZoneID>,
    zone_index: HashMap<ZoneID, usize>,
    data: Vec<T>,
}

impl<T: Copy> ZoneMatrix<T> {
    /// The zones of the rows and columns, in order.
    pub closed spec fn zones(&self) -> Seq<ZoneID> {
        self.zone_ids@
    }

    /// The cells, row by row.
    pub closed spec fn cells(&self) -> Seq<T> {
        self.data@
    }

    /// The index map agrees with the zone list and there are `n * n` cells.
    pub closed spec fn wf(&self) -> bool {
        &&& self.data@.len() == self.zone_ids@.len() * self.zone_ids@.len()
        &&& forall|z: ZoneID|
            #[trigger] self.zone_index@.contains_key(z) <==> self.zone_ids@.contains(z)
        &&& forall|z: ZoneID|
            #[trigger] self.zone_index@.contains_key(z) ==> self.zone_index@[z] as int == last_index(
                self.zone_ids@,
                z,
            )
    }

    /// The cell of row `i`, column `j`.
    pub open spec fn cell(&self, i: int, j: int) -> T {
        self.cells()[i * self.zones().len() + j]
    }

    /// The value for origin `o` and destination `d`, `None` when either
    /// zone is not in the matrix.
    pub open spec fn value(&self, o: ZoneID, d: ZoneID) -> Option<T> {
        match (zone_position(self.zones(), o), zone_position(self.zones(), d)) {
            (Some(i), Some(j)) => Some(self.cell(i, j)),
            _ => None,
        }
    }

    fn index_zones(zone_ids: &Vec<ZoneID>) -> (m: HashMap<ZoneID, usize>)
        ensures
            forall|z: ZoneID| #[trigger] m@.contains_key(z) <==> zone_ids@.contains(z),
            forall|z: ZoneID| #[trigger] m@.contains_key(z) ==> m@[z] as int == last_index(zone_ids@, z),
    {
        let mut m: HashMap<ZoneID, usize> = HashMap::new();
        let mut i: usize = 0;
        while i < zone_ids.len()
            invariant
                i <= zone_ids@.len(),
                forall|z: ZoneID| #[trigger] m@.contains_key(z) <==> zone_ids@.take(i as int).contains(z),
                forall|z: ZoneID|
                    #[trigger] m@.contains_key(z) ==> m@[z] as int == last_index(zone_ids@.take(i as int), z),
            decreases zone_ids@.len() - i,
        {
            let z = zone_ids[i];
            let ghost prev = zone_ids@.take(i as int);
            let ghost next = zone_ids@.take(i + 1);
            m.insert(z, i);
            proof {
                assert(next.drop_last() =~= prev);
                assert(next.last() == z);
                assert forall|y: ZoneID| #[trigger] m@.contains_key(y) <==> next.contains(y) by {
                    if y == z {
                        assert(next[i as int] == z);
                    } else {
                        if prev.contains(y) {
                            let j = choose|j: int| 0 <= j < prev.len() && prev[j] == y;
                            assert(next[j] == y);
                        }
                        if next.contains(y) {
                            let j = choose|j: int| 0 <= j < next.len() && next[j] == y;
                            assert(prev[j] == y);
                        }
                    }
                }
            }
            i = i + 1;
        }
        assert(zone_ids@.take(zone_ids@.len() as int) =~= zone_ids@);
        m
    }

    /// A matrix over `zone_ids` with every cell set to `fill`.
    pub fn new(zone_ids: Vec<ZoneID>, fill: T) -> (m: Self)
        requires
            zone_ids@.len() * zone_ids@.len() <= usize::MAX,
        ensures
            m.wf(),
            m.zones() == zone_ids@,
            m.cells() == Seq::new((zone_ids@.len() * zone_ids@.len()) as nat, |k: int| fill),
    {
        let n = zone_ids.len();
        let total = n * n;
        let mut data: Vec<T> = Vec::new();
        let mut k: usize = 0;
        while k < total
            invariant
                k <= total,
                data@ == Seq::new(k as nat, |q: int| fill),
            decreases total - k,
        {
            data.push(fill);
            k = k + 1;
            assert(data@ =~= Seq::new(k as nat, |q: int| fill));
        }
        let zone_index = Self::index_zones(&zone_ids);
        ZoneMatrix { zone_ids, zone_index, data }
    }

    /// A matrix over `zone_ids` with the given cells, row by row.
    pub fn from_data(zone_ids: Vec<ZoneID>, data: Vec<T>) -> (m: Self)
        requires
            data@.len() == zone_ids@.len() * zone_ids@.len(),
        ensures
            m.wf(),
            m.zones() == zone_ids@,
            m.cells() == data@,
    {
        let zone_index = Self::index_zones(&zone_ids);
        ZoneMatrix { zone_ids, zone_index, data }
    }

    /// The zones of the rows and columns, in order.
    pub fn zone_ids(&self) -> (r: &[ZoneID])
        ensures
            r@ == self.zones(),
    {
        self.zone_ids.as_slice()
    }

    /// The cells, row by row.
    pub fn data(&self) -> (r: &[T])
        ensures
            r@ == self.cells(),
    {
        self.data.as_slice()
    }

    /// The zones and the cells, taken out of the matrix.
    pub fn into_parts(self) -> (r: (Vec<ZoneID>, Vec<T>))
        ensures
            r.0@ == self.zones(),
            r.1@ == self.cells(),
    {
        (self.zone_ids, self.data)
    }

    /// Number of zones.
    pub fn n(&self) -> (n: usize)
        ensures
            n == self.zones().len(),
    {
        self.zone_ids.len()
    }

    /// The row (and column) of a zone, `None` when it is not in the matrix.
    pub fn index_of(&self, zone_id: ZoneID) -> (r: Option<usize>)
        requires
            self.wf(),
        ensures
            match r {
                Some(i) => zone_position(self.zones(), zone_id) == Some(i as int),
                None => zone_position(self.zones(), zone_id) is None,
            },
    {
        proof {
            lemma_last_index_range(self.zone_ids@, zone_id);
        }
        match self.zone_index.get(&zone_id) {
            Some(i) => Some(*i),
            None => None,
        }
    }

    proof fn lemma_cell_in_range(&self, i: int, j: int)
        requires
            self.wf(),
            0 <= i < self.zones().len(),
            0 <= j < self.zones().len(),
        ensures
            0 <= i * self.zones().len(),
            i * self.zones().len() + j < self.cells().len(),
    {
        let n = self.zones().len() as int;
        assert(0 <= i * n && i * n + j < n * n) by (nonlinear_arith)
            requires
                0 <= i < n,
                0 <= j < n,
        ;
    }

    /// The cell of row `i`, column `j`.
    pub fn get_by_index(&self, i: usize, j: usize) -> (v: T)
        requires
            self.wf(),
            i < self.zones().len(),
            j < self.zones().len(),
        ensures
            v == self.cell(i as int, j as int),
    {
        proof {
            self.lemma_cell_in_range(i as int, j as int);
        }
        let n = self.zone_ids.len();
        let total = self.data.len();
        assert(i * n + j < total);
        self.data[i * n + j]
    }

    /// Set the cell of row `i`, column `j`.
    pub fn set_by_index(&mut self, i: usize, j: usize, value: T)
        requires
            old(self).wf(),
            i < old(self).zones().len(),
            j < old(self).zones().len(),
        ensures
            final(self).wf(),
            final(self).zones() == old(self).zones(),
            final(self).cells() == old(self).cells().update(
                i * old(self).zones().len() + j,
                value,
            ),
    {
        proof {
            self.lemma_cell_in_range(i as int, j as int);
        }
        let n = self.zone_ids.len();
        let total = self.data.len();
        assert(i * n + j < total);
        self.data.set(i * n + j, value);
    }

    /// The value for origin `o` and destination `d`, `None` when either
    /// zone is not in the matrix.
    pub fn get(&self, o: ZoneID, d: ZoneID) -> (v: Option<T>)
        requires
            self.wf(),
        ensures
            v == self.value(o, d),
    {
        match (self.index_of(o), self.index_of(d)) {
            (Some(i), Some(j)) => {
                proof {
                    lemma_last_index_range(self.zone_ids@, o);
                    lemma_last_index_range(self.zone_ids@, d);
                }
                Some(self.get_by_index(i, j))
            },
            _ => None,
        }
    }

    /// Set the value for origin `o` and destination `d`; nothing changes
    /// when either zone is not in the matrix.
    pub fn set(&mut self, o: ZoneID, d: ZoneID, value: T)
        requires
            old(self).wf(),
        ensures
            final(self).wf(),
            final(self).zones() == old(self).zones(),
            match (zone_position(old(self).zones(), o), zone_position(old(self).zones(), d)) {
                (Some(i), Some(j)) => final(self).cells() == old(self).cells().update(
                    i * old(self).zones().len() + j,
                    value,
                ),
                _ => final(self).cells() == old(self).cells(),
            },
    {
        match (self.index_of(o), self.index_of(d)) {
            (Some(i), Some(j)) => {
                proof {
                    lemma_last_index_range(self.zone_ids@, o);
                    lemma_last_index_range(self.zone_ids@, d);
                }
                self.set_by_index(i, j, value);
            },
            _ => {},
        }
    }
}

/// After setting the value of a pair of zones of the matrix, reading it
/// gives the value set, and every other pair reads as before.
pub proof fn law_read_after_set<T: Copy>(
    before: ZoneMatrix<T>,
    after: ZoneMatrix<T>,
    o: ZoneID,
    d: ZoneID,
    value: T,
    o2: ZoneID,
    d2: ZoneID,
)
    requires
        before.zones().len() * before.zones().len() == before.cells().len(),
        zone_position(before.zones(), o) is Some,
        zone_position(before.zones(), d) is Some,
        after.zones() == before.zones(),
        after.cells() == before.cells().update(
            zone_position(before.zones(), o)->0 * before.zones().len() + zone_position(
                before.zones(),
                d,
            )->0,
            value,
        ),
    ensures
        after.value(o, d) == Some(value),
        zone_position(before.zones(), o2) != zone_position(before.zones(), o) || zone_position(
            before.zones(),
            d2,
        ) != zone_position(before.zones(), d) ==> after.value(o2, d2) == before.value(o2, d2),
{
    let zs = before.zones();
    let n = zs.len() as int;
    lemma_last_index_range(zs, o);
    lemma_last_index_range(zs, d);
    lemma_last_index_range(zs, o2);
    lemma_last_index_range(zs, d2);
    let i = zone_position(zs, o)->0;
    let j = zone_position(zs, d)->0;
    assert(0 <= i * n + j < n * n) by (nonlinear_arith)
        requires
            0 <= i < n,
            0 <= j < n,
    ;
    if zone_position(zs, o2) is Some && zone_position(zs, d2) is Some {
        let i2 = zone_position(zs, o2)->0;
        let j2 = zone_position(zs, d2)->0;
        assert(0 <= i2 * n + j2 < n * n) by (nonlinear_arith)
            requires
                0 <= i2 < n,
                0 <= j2 < n,
        ;
        if i2 != i || j2 != j {
            assert(i2 * n + j2 != i * n + j) by (nonlinear_arith)
                requires
                    0 <= i < n,
                    0 <= j < n,
                    0 <= i2 < n,
                    0 <= j2 < n,
                    i2 != i || j2 != j,
            ;
        }
    }
}

} // verus!
