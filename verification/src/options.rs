//! The parameters of an index.
use vstd::prelude::*;

verus! {

/// The parameters that an index is built with.
#[derive(Copy, Clone)]
pub struct HnswBuilderOptions {
    /// How many neighbours a node keeps on a level above the ground.
    pub m: usize,
    /// How many nearest nodes an insertion looks for on each level.
    pub ef_construction: usize,
    /// The highest level that a node may reach.
    pub max_level: usize,
}

impl HnswBuilderOptions {
    /// At least two neighbours, and no count of them that leaves the machine's
    /// range.
    pub open spec fn valid(&self) -> bool {
        &&& self.m >= 2
        &&& 2 * self.m <= usize::MAX
    }

    /// How many neighbours a node keeps on a level: twice as many on the ground.
    pub open spec fn spec_level_m(&self, level: int) -> nat {
        if level == 0 {
            (2 * self.m) as nat
        } else {
            self.m as nat
        }
    }

    /// How many neighbours a node keeps on a level: twice as many on the ground.
    pub fn level_m(&self, level: usize) -> (r: usize)
        requires
            level == 0 ==> 2 * self.m <= usize::MAX,
        ensures
            r == self.spec_level_m(level as int),
    {
        if level == 0 {
            2 * self.m
        } else {
            self.m
        }
    }

    /// The top level of a node for which `drawn` was drawn: never above the
    /// highest level.
    pub open spec fn top_level(&self, drawn: usize) -> usize {
        if drawn <= self.max_level {
            drawn
        } else {
            self.max_level
        }
    }

    /// How many neighbours a node for which `drawn` was drawn keeps on each of
    /// its levels.
    pub open spec fn capacities(&self, drawn: usize) -> Seq<nat> {
        Seq::new((self.top_level(drawn) + 1) as nat, |level: int| self.spec_level_m(level))
    }
}

/// A node reaches the level that was drawn for it, or the highest level where
/// that is lower, and may keep twice as many neighbours on the ground as on any
/// level above.
pub proof fn law_levels_of_a_node(options: HnswBuilderOptions, drawn: usize)
    ensures
        drawn <= options.max_level ==> options.capacities(drawn).len() == drawn + 1,
        options.max_level <= drawn ==> options.capacities(drawn).len() == options.max_level + 1,
        options.capacities(drawn)[0] == 2 * options.m,
        forall|level: int|
            0 < level < options.capacities(drawn).len() ==> #[trigger] options.capacities(
                drawn,
            )[level] == options.m,
{
}

/// The top level of a node for which `drawn` was drawn: never above the
/// highest level.
pub fn gen_level(options: &HnswBuilderOptions, drawn: usize) -> (level: usize)
    ensures
        level == options.top_level(drawn),
{
    if drawn < options.max_level {
        drawn
    } else {
        options.max_level
    }
}

} // verus!
