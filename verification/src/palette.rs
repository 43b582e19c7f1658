//! The global palette: which block name a global block-state id stands for.

use std::collections::HashMap;
use vstd::prelude::*;
use vstd::std_specs::hash::*;
use crate::error::DecodeError;

verus! {

broadcast use vstd::std_specs::hash::group_hash_axioms;

/// What the palette knows of a block state.
#[derive(Clone, Debug)]
pub struct BlockDefinition {
    pub name: String,
}

/// One entry of the palette resource: a block name and the ids of all its
/// states.
#[derive(Clone, Debug)]
pub struct BlockStates {
    pub name: String,
    pub states: Vec<i64>,
}

impl View for BlockStates {
    type V = (Seq<char>, Seq<i64>);

    open spec fn view(&self) -> (Seq<char>, Seq<i64>) {
        (self.name@, self.states@)
    }
}

/// The entries of a resource as plain values.
pub open spec fn resource_model(blocks: Seq<BlockStates>) -> Seq<(Seq<char>, Seq<i64>)> {
    blocks.map_values(|b: BlockStates| b@)
}

/// `table` with the first `k` of `ids` set to `name`.
pub open spec fn with_states(
    table: Map<i64, Seq<char>>,
    name: Seq<char>,
    ids: Seq<i64>,
    k: nat,
) -> Map<i64, Seq<char>>
    decreases k,
{
    if k == 0 {
        table
    } else {
        with_states(table, name, ids, (k - 1) as nat).insert(ids[k - 1], name)
    }
}

/// The table that the first `n` entries of a resource give: every state id
/// under a block name stands for that name, a later entry overriding an
/// earlier one.
pub open spec fn palette_of(blocks: Seq<(Seq<char>, Seq<i64>)>, n: nat) -> Map<i64, Seq<char>>
    decreases n,
{
    if n == 0 {
        Map::empty()
    } else {
        with_states(
            palette_of(blocks, (n - 1) as nat),
            blocks[n - 1].0,
            blocks[n - 1].1,
            blocks[n - 1].1.len(),
        )
    }
}

/// What looking `id` up in `table` gives.
pub open spec fn resolve_in(table: Map<i64, Seq<char>>, id: i64) -> Result<Seq<char>, DecodeError> {
    if table.contains_key(id) {
        Ok(table[id])
    } else {
        Err(DecodeError::UnknownBlockState(id))
    }
}

/// A table from global block-state id to block name, fixed once built.
pub struct GlobalPalette {
    blocks: HashMap<i64, BlockDefinition>,
}

impl View for GlobalPalette {
    type V = Map<i64, Seq<char>>;

    closed spec fn view(&self) -> Map<i64, Seq<char>> {
        Map::new(|id: i64| self.blocks@.contains_key(id), |id: i64| self.blocks@[id].name@)
    }
}

impl GlobalPalette {
    /// Builds the table from the entries of a resource, in their order.
    pub fn parse(resource: &Vec<BlockStates>) -> (p: Self)
        ensures
            p@ == palette_of(resource_model(resource@), resource@.len()),
    {
        let ghost model = resource_model(resource@);
        let mut blocks: HashMap<i64, BlockDefinition> = HashMap::new();
        let mut p = GlobalPalette { blocks };
        assert(p@ =~= Map::<i64, Seq<char>>::empty());
        let mut i: usize = 0;
        while i < resource.len()
            invariant
                i <= resource@.len(),
                model == resource_model(resource@),
                p@ == palette_of(model, i as nat),
            decreases resource@.len() - i,
        {
            let entry = &resource[i];
            assert(model[i as int] == (entry.name@, entry.states@));
            let mut k: usize = 0;
            while k < entry.states.len()
                invariant
                    k <= entry.states@.len(),
                    p@ == with_states(
                        palette_of(model, i as nat),
                        entry.name@,
                        entry.states@,
                        k as nat,
                    ),
                decreases entry.states@.len() - k,
            {
                let id = entry.states[k];
                let definition = BlockDefinition { name: entry.name.clone() };
                let ghost before = p@;
                p.blocks.insert(id, definition);
                assert(p@ =~= before.insert(id, entry.name@));
                k = k + 1;
            }
            i = i + 1;
        }
        p
    }

    /// The name that `id` stands for, or the miss.
    pub fn resolve(&self, id: i64) -> (r: Result<&String, DecodeError>)
        ensures
            match r {
                Ok(name) => resolve_in(self@, id) == Ok::<Seq<char>, DecodeError>(name@),
                Err(e) => resolve_in(self@, id) == Err::<Seq<char>, DecodeError>(e),
            },
    {
        match self.blocks.get(&id) {
            Some(definition) => Ok(&definition.name),
            None => Err(DecodeError::UnknownBlockState(id)),
        }
    }

    /// Whether the table holds `id`.
    pub fn contains(&self, id: i64) -> (b: bool)
        ensures
            b == self@.contains_key(id),
    {
        self.blocks.contains_key(&id)
    }
}

/// Whether one of the first `k` of `ids` is `id`.
pub open spec fn among(ids: Seq<i64>, k: int, id: i64) -> bool {
    exists|j: int| 0 <= j < k && #[trigger] ids[j] == id
}

/// Whether one of the first `n` entries lists `id` under `name`.
pub open spec fn listed_under(
    blocks: Seq<(Seq<char>, Seq<i64>)>,
    n: int,
    id: i64,
    name: Seq<char>,
) -> bool {
    exists|i: int|
        0 <= i < n && (#[trigger] blocks[i]).0 == name && among(
            blocks[i].1,
            blocks[i].1.len() as int,
            id,
        )
}

/// Whether one of the first `n` entries lists `id`.
pub open spec fn listed(blocks: Seq<(Seq<char>, Seq<i64>)>, n: int, id: i64) -> bool {
    exists|i: int|
        0 <= i < n && among((#[trigger] blocks[i]).1, blocks[i].1.len() as int, id)
}

/// Setting states to a name adds those states and changes no other.
proof fn lemma_with_states(
    table: Map<i64, Seq<char>>,
    name: Seq<char>,
    ids: Seq<i64>,
    k: nat,
    id: i64,
)
    requires
        k <= ids.len(),
    ensures
        with_states(table, name, ids, k).contains_key(id) <==> table.contains_key(id) || among(
            ids,
            k as int,
            id,
        ),
        among(ids, k as int, id) ==> with_states(table, name, ids, k)[id] == name,
        !among(ids, k as int, id) ==> with_states(table, name, ids, k)[id] == table[id],
    decreases k,
{
    if k > 0 {
        lemma_with_states(table, name, ids, (k - 1) as nat, id);
        if ids[k - 1] == id {
            assert(among(ids, k as int, id));
        } else if among(ids, k as int, id) {
            let j = choose|j: int| 0 <= j < k && #[trigger] ids[j] == id;
            assert(among(ids, k - 1, id));
        }
        if among(ids, k - 1, id) {
            let j = choose|j: int| 0 <= j < k - 1 && #[trigger] ids[j] == id;
            assert(among(ids, k as int, id));
        }
    }
}

/// The table holds exactly the ids that the resource lists, each under a
/// name that the resource lists it under.
pub proof fn lemma_palette_holds_what_is_listed(
    blocks: Seq<(Seq<char>, Seq<i64>)>,
    n: nat,
    id: i64,
)
    requires
        n <= blocks.len(),
    ensures
        palette_of(blocks, n).contains_key(id) <==> listed(blocks, n as int, id),
        palette_of(blocks, n).contains_key(id) ==> listed_under(
            blocks,
            n as int,
            id,
            palette_of(blocks, n)[id],
        ),
    decreases n,
{
    if n > 0 {
        let before = palette_of(blocks, (n - 1) as nat);
        let last = blocks[n - 1];
        lemma_palette_holds_what_is_listed(blocks, (n - 1) as nat, id);
        lemma_with_states(before, last.0, last.1, last.1.len(), id);
        if among(last.1, last.1.len() as int, id) {
            assert(listed(blocks, n as int, id));
            assert(listed_under(blocks, n as int, id, last.0));
        } else {
            if listed(blocks, n as int, id) {
                let i = choose|i: int|
                    0 <= i < n && among((#[trigger] blocks[i]).1, blocks[i].1.len() as int, id);
                assert(i < n - 1);
                assert(listed(blocks, n - 1, id));
            }
            if before.contains_key(id) {
                let i = choose|i: int|
                    0 <= i < n - 1 && (#[trigger] blocks[i]).0 == before[id] && among(
                        blocks[i].1,
                        blocks[i].1.len() as int,
                        id,
                    );
                assert(listed_under(blocks, n as int, id, before[id]));
                assert(listed(blocks, n as int, id));
            }
        }
    }
}

/// Looking an id up is a matter of the table and the id alone: two lookups
/// of one id in one table give the same name, or the same miss.
pub proof fn lemma_resolve_repeats(
    table: Map<i64, Seq<char>>,
    id: i64,
    first: Result<Seq<char>, DecodeError>,
    second: Result<Seq<char>, DecodeError>,
)
    requires
        first == resolve_in(table, id),
        second == resolve_in(table, id),
    ensures
        first == second,
        first is Ok <==> table.contains_key(id),
{
}

} // verus!
