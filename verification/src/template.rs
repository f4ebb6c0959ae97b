use vstd::prelude::*;

verus! {

/// The largest candidate pool a valid catalog may hold per tier: 2^52, the
/// bound under which offset selection into the pool is exact.
pub const MAX_POOL: u64 = 0x10_0000_0000_0000;

/// The largest number of category tags a valid catalog goal may carry; keeps
/// synergy scores far from any machine bound.
pub const MAX_TYPES: u64 = 4096;

/// One catalog entry: a display name and its ordered category tags. The
/// first tag is the goal's "main type" and carries extra synergy weight.
/// Goals are read-only once the catalog is built.
#[derive(Debug, PartialEq, Eq)]
pub struct Goal {
    pub name: String,
    pub types: Vec<String>,
}

/// Mathematical view of a goal.
pub ghost struct GoalModel {
    pub name: Seq<char>,
    pub types: Seq<Seq<char>>,
}

impl View for Goal {
    type V = GoalModel;

    open spec fn view(&self) -> GoalModel {
        GoalModel { name: self.name@, types: self.types.deep_view() }
    }
}

impl DeepView for Goal {
    type V = GoalModel;

    open spec fn deep_view(&self) -> GoalModel {
        self@
    }
}

impl Clone for Goal {
    /// An exact copy: same name, same tags in the same order.
    fn clone(&self) -> (r: Goal)
        ensures
            r@ == self@,
    {
        let mut types: Vec<String> = Vec::new();
        let mut k: usize = 0;
        while k < self.types.len()
            invariant
                k <= self.types@.len(),
                types@.len() == k,
                forall|i: int| 0 <= i < k ==> #[trigger] types@[i]@ == self.types@[i]@,
            decreases self.types@.len() - k,
        {
            types.push(self.types[k].clone());
            k += 1;
        }
        let r = Goal { name: self.name.clone(), types };
        proof {
            assert(r@.types =~= self@.types);
        }
        r
    }
}

/// The goal catalog: an ordered sequence of tiers, each an ordered pool of
/// goals available at that difficulty. Tier 0 is the easiest; tiers need not
/// be contiguous or densely populated.
#[derive(Debug, PartialEq, Eq)]
pub struct Template(pub Vec<Vec<Goal>>);

impl View for Template {
    type V = Seq<Seq<GoalModel>>;

    open spec fn view(&self) -> Seq<Seq<GoalModel>> {
        self.0.deep_view()
    }
}

/// The construction-time invariants of a usable catalog: every pool within
/// the exact-selection bound, every goal name non-empty (a board cell must
/// never be empty), and every tag list within the synergy bound.
pub open spec fn catalog_wf(cat: Seq<Seq<GoalModel>>) -> bool {
    &&& forall|t: int| 0 <= t < cat.len() ==> (#[trigger] cat[t]).len() <= MAX_POOL
    &&& forall|t: int, g: int|
        0 <= t < cat.len() && 0 <= g < cat[t].len() ==> (#[trigger] cat[t][g]).name.len() > 0
    &&& forall|t: int, g: int|
        0 <= t < cat.len() && 0 <= g < cat[t].len() ==> (#[trigger] cat[t][g]).types.len()
            <= MAX_TYPES
}

impl Template {
    /// Decide the construction-time invariants of the catalog: pool sizes,
    /// tag counts, and non-empty goal names.
    pub fn validate(&self) -> (r: bool)
        ensures
            r == catalog_wf(self@),
    {
        let mut t: usize = 0;
        while t < self.0.len()
            invariant
                t <= self.0@.len(),
                forall|i: int| 0 <= i < t ==> (#[trigger] self@[i]).len() <= MAX_POOL,
                forall|i: int, g: int|
                    0 <= i < t && 0 <= g < self@[i].len() ==> (#[trigger] self@[i][g]).name.len()
                        > 0,
                forall|i: int, g: int|
                    0 <= i < t && 0 <= g < self@[i].len() ==> (#[trigger] self@[i][g]).types.len()
                        <= MAX_TYPES,
            decreases self.0@.len() - t,
        {
            let pool = &self.0[t];
            if pool.len() as u64 > MAX_POOL {
                proof {
                    assert(self@[t as int] == pool.deep_view());
                    assert(self@[t as int].len() > MAX_POOL);
                    assert(!catalog_wf(self@));
                }
                return false;
            }
            let mut g: usize = 0;
            while g < pool.len()
                invariant
                    g <= pool@.len(),
                    pool.deep_view() == self@[t as int],
                    t < self.0@.len(),
                    forall|j: int|
                        0 <= j < g ==> (#[trigger] self@[t as int][j]).name.len() > 0,
                    forall|j: int|
                        0 <= j < g ==> (#[trigger] self@[t as int][j]).types.len() <= MAX_TYPES,
                decreases pool@.len() - g,
            {
                proof {
                    assert(self@[t as int][g as int] == pool.deep_view()[g as int]);
                    assert(pool.deep_view()[g as int] == pool@[g as int]@);
                }
                if pool[g].name.as_str().is_empty() {
                    proof {
                        assert(self@[t as int][g as int].name.len() == 0);
                        assert(!catalog_wf(self@));
                    }
                    return false;
                }
                if pool[g].types.len() as u64 > MAX_TYPES {
                    proof {
                        assert(self@[t as int][g as int].types.len() > MAX_TYPES);
                        assert(!catalog_wf(self@));
                    }
                    return false;
                }
                g += 1;
            }
            t += 1;
        }
        true
    }
}

} // verus!
