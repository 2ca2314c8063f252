use vstd::prelude::*;

verus! {

/// An axis-aligned rectangle with integer coordinates, used both as one part
/// of a feature's geometry and as a bounding envelope.
#[derive(Clone, Copy, PartialEq, Eq, Structural, Debug)]
pub struct Rect {
    pub min_x: i64,
    pub min_y: i64,
    pub max_x: i64,
    pub max_y: i64,
}

impl Rect {
    /// A rectangle is well formed when each minimum is at most its maximum.
    pub open spec fn wf(self) -> bool {
        self.min_x <= self.max_x && self.min_y <= self.max_y
    }
}

/// One geometric record: a stable identifier, the ordered attribute values
/// (each present as its canonical byte rendering, or absent), and a geometry
/// made of rectangular parts, or no geometry at all.
pub struct Feature {
    pub id: u64,
    pub attrs: Vec<Option<Vec<u8>>>,
    pub geom: Option<Vec<Rect>>,
}

impl Feature {
    /// Every part of the geometry, if any, is a well-formed rectangle.
    pub open spec fn wf(self) -> bool {
        match self.geom {
            Some(g) => forall|i: int| 0 <= i < g@.len() ==> (#[trigger] g@[i]).wf(),
            None => true,
        }
    }

    /// The attribute sequence as a mathematical value.
    pub open spec fn attrs_model(self) -> Seq<Option<Seq<u8>>> {
        self.attrs@.map_values(
            |a: Option<Vec<u8>>|
                match a {
                    Some(v) => Some(v@),
                    None => None,
                },
        )
    }
}

/// A collection of features, iterated in storage order during a clustering
/// pass. Reading it never changes it: every query below borrows it shared,
/// so a neighbor query cannot leave any filter state behind.
pub struct Dataset {
    pub features: Vec<Feature>,
}

impl Dataset {
    /// Identifiers are unique and every feature is well formed.
    pub open spec fn wf(self) -> bool {
        &&& forall|i: int, j: int|
            0 <= i < j < self.features@.len() ==> (#[trigger] self.features@[i]).id != (
            #[trigger] self.features@[j]).id
        &&& forall|i: int| 0 <= i < self.features@.len() ==> (#[trigger] self.features@[i]).wf()
    }

    /// Some feature of the dataset carries this identifier.
    pub open spec fn has_id(self, id: u64) -> bool {
        exists|i: int| 0 <= i < self.features@.len() && (#[trigger] self.features@[i]).id == id
    }

    /// The feature carrying this identifier (meaningful only when `has_id` holds
    /// and identifiers are unique).
    pub open spec fn feature_at(self, id: u64) -> Feature {
        self.features@[choose|i: int|
            0 <= i < self.features@.len() && (#[trigger] self.features@[i]).id == id]
    }

    /// The identifiers of all features, in storage order.
    pub open spec fn id_seq(self) -> Seq<u64> {
        self.features@.map_values(|f: Feature| f.id)
    }

    /// In a well-formed dataset, looking a feature up by the identifier found at
    /// index `i` gives back exactly the feature at index `i`.
    pub proof fn lemma_feature_at(self, i: int)
        requires
            self.wf(),
            0 <= i < self.features@.len(),
        ensures
            self.has_id(self.features@[i].id),
            self.feature_at(self.features@[i].id) == self.features@[i],
            self.feature_at(self.features@[i].id).id == self.features@[i].id,
    {
        let id = self.features@[i].id;
        assert(self.has_id(id));
        let j = choose|j: int|
            0 <= j < self.features@.len() && (#[trigger] self.features@[j]).id == id;
        if i != j {
            if i < j {
                assert(self.features@[i].id != self.features@[j].id);
            } else {
                assert(self.features@[j].id != self.features@[i].id);
            }
        }
    }

    /// Identifiers found in a well-formed dataset resolve to a well-formed
    /// feature that carries that identifier.
    pub proof fn lemma_feature_at_id(self, id: u64)
        requires
            self.wf(),
            self.has_id(id),
        ensures
            self.feature_at(id).id == id,
            self.feature_at(id).wf(),
    {
        let j = choose|j: int|
            0 <= j < self.features@.len() && (#[trigger] self.features@[j]).id == id;
        assert(self.features@[j].wf());
    }
}

/// Looks a feature up by its identifier, or reports that no feature has it.
pub fn get_feature(ds: &Dataset, id: u64) -> (r: Option<&Feature>)
    requires
        ds.wf(),
    ensures
        match r {
            Some(f) => ds.has_id(id) && *f == ds.feature_at(id) && f.id == id,
            None => !ds.has_id(id),
        },
{
    let n = ds.features.len();
    let mut i: usize = 0;
    while i < n
        invariant
            n == ds.features@.len(),
            0 <= i <= n,
            ds.wf(),
            forall|k: int| 0 <= k < i ==> (#[trigger] ds.features@[k]).id != id,
        decreases n - i,
    {
        if ds.features[i].id == id {
            proof {
                ds.lemma_feature_at(i as int);
            }
            return Some(&ds.features[i]);
        }
        i = i + 1;
    }
    None
}

} // verus!
