use vstd::prelude::*;

use crate::voxel::Voxel;

verus! {

/// Static metadata of one kind of voxel.
#[derive(Clone, Copy, Debug)]
pub struct VoxelDefinition {
    pub name: &'static str,
    pub is_solid: bool,
}

/// Position of the last entry of `defs` registered for `v`, or -1 when there is none.
pub open spec fn last_index_of(defs: Seq<(Voxel, VoxelDefinition)>, v: Voxel) -> int
    decreases defs.len(),
{
    if defs.len() == 0 {
        -1
    } else if defs.last().0 == v {
        defs.len() - 1
    } else {
        last_index_of(defs.drop_last(), v)
    }
}

/// Maps each voxel kind to its metadata; a later entry for a kind overrides an
/// earlier one, and kinds without an entry read as the `Air` entry.
pub struct VoxelRegistry {
    pub definitions: Vec<(Voxel, VoxelDefinition)>,
}

pub proof fn lemma_last_index_range(defs: Seq<(Voxel, VoxelDefinition)>, v: Voxel)
    ensures
        -1 <= last_index_of(defs, v) < defs.len(),
        last_index_of(defs, v) >= 0 ==> defs[last_index_of(defs, v)].0 == v,
        last_index_of(defs, v) == -1 ==> forall|i: int| 0 <= i < defs.len() ==> defs[i].0 != v,
    decreases defs.len(),
{
    if defs.len() > 0 && defs.last().0 != v {
        lemma_last_index_range(defs.drop_last(), v);
        assert forall|i: int| 0 <= i < defs.len() && last_index_of(defs, v) == -1 implies defs[i].0
            != v by {
            if i < defs.len() - 1 {
                assert(defs[i] == defs.drop_last()[i]);
            }
        }
    }
}

impl VoxelRegistry {
    /// The `Air` entry is present.
    pub open spec fn wf(&self) -> bool {
        last_index_of(self.definitions@, Voxel::Air) >= 0
    }

    /// The definition that a lookup of `v` yields.
    pub open spec fn lookup(&self, v: Voxel) -> VoxelDefinition {
        let i = last_index_of(self.definitions@, v);
        if i >= 0 {
            self.definitions@[i].1
        } else {
            self.definitions@[last_index_of(self.definitions@, Voxel::Air)].1
        }
    }

    /// Whether the registry declares `v` solid.
    pub open spec fn solid(&self, v: Voxel) -> bool {
        self.lookup(v).is_solid
    }

    /// Builds a registry from its entries; `None` when no entry is given for `Air`.
    pub fn new(definitions: Vec<(Voxel, VoxelDefinition)>) -> (r: Option<VoxelRegistry>)
        ensures
            r is None <==> last_index_of(definitions@, Voxel::Air) < 0,
            r matches Some(reg) ==> reg.wf() && reg.definitions@ == definitions@,
    {
        let reg = VoxelRegistry { definitions };
        if reg.find(Voxel::Air).is_none() {
            None
        } else {
            Some(reg)
        }
    }

    /// The standard palette: `Air` (not solid) and `Solid` (named "Stone", solid).
    pub fn standard() -> (r: VoxelRegistry)
        ensures
            r.wf(),
            !r.solid(Voxel::Air),
            r.solid(Voxel::Solid),
            forall|v: Voxel| r.solid(v) == v.is_solid_spec(),
            r.lookup(Voxel::Air).name == "Air",
            r.lookup(Voxel::Solid).name == "Stone",
    {
        let mut definitions: Vec<(Voxel, VoxelDefinition)> = Vec::new();
        definitions.push((Voxel::Air, VoxelDefinition { name: "Air", is_solid: false }));
        definitions.push((Voxel::Solid, VoxelDefinition { name: "Stone", is_solid: true }));
        let r = VoxelRegistry { definitions };
        proof {
            let d = r.definitions@;
            assert(d.drop_last().len() == 1 && d.drop_last().last() == d[0]);
            assert(last_index_of(d.drop_last(), Voxel::Air) == 0);
            assert(last_index_of(d, Voxel::Air) == 0);
            assert(last_index_of(d, Voxel::Solid) == 1);
        }
        r
    }

    /// Position of the last entry for `v`, if there is one.
    fn find(&self, v: Voxel) -> (r: Option<usize>)
        ensures
            r is None <==> last_index_of(self.definitions@, v) < 0,
            r matches Some(i) ==> i == last_index_of(self.definitions@, v),
    {
        proof {
            lemma_last_index_range(self.definitions@, v);
        }
        let mut i: usize = self.definitions.len();
        assert(self.definitions@.subrange(0, i as int) =~= self.definitions@);
        while i > 0
            invariant
                i <= self.definitions@.len(),
                last_index_of(self.definitions@, v) == last_index_of(
                    self.definitions@.subrange(0, i as int),
                    v,
                ),
            decreases i,
        {
            let ghost pre = self.definitions@.subrange(0, i as int);
            assert(pre.drop_last() =~= self.definitions@.subrange(0, i - 1));
            if self.definitions[i - 1].0 == v {
                return Some(i - 1);
            }
            i = i - 1;
        }
        None
    }

    /// The definition registered for `voxel`, falling back to the `Air` entry.
    pub fn get(&self, voxel: &Voxel) -> (r: &VoxelDefinition)
        requires
            self.wf(),
        ensures
            *r == self.lookup(*voxel),
    {
        proof {
            lemma_last_index_range(self.definitions@, *voxel);
            lemma_last_index_range(self.definitions@, Voxel::Air);
        }
        match self.find(*voxel) {
            Some(i) => &self.definitions[i].1,
            None => {
                let a = self.find(Voxel::Air).unwrap();
                &self.definitions[a].1
            },
        }
    }
}

} // verus!
