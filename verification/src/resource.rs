//! The palette resource: a JSON object with one member for each block name,
//! each an object whose member `states` is an array of objects with an
//! integer member `id`.

use serde_json::Value;
use vstd::prelude::*;
use crate::error::ConfigError;
use crate::json::{
    has_member, items_are, json_from_str, json_get, json_i64, json_items, json_members,
    json_model, json_text, member_of, members_are, JsonValue,
};
use crate::palette::{palette_of, resource_model, BlockStates, GlobalPalette};

verus! {

/// The id that a state carries, if it carries one.
pub open spec fn state_id(state: JsonValue) -> Option<i64> {
    if has_member(state, "id"@) && member_of(state, "id"@) is Integer && i64::MIN <= member_of(
        state,
        "id"@,
    )->Integer_0 <= i64::MAX {
        Some(member_of(state, "id"@)->Integer_0 as i64)
    } else {
        None
    }
}

/// The ids of the first `n` states, or the failure where one carries none.
pub open spec fn ids_of(states: Seq<JsonValue>, n: nat) -> Result<Seq<i64>, ConfigError>
    decreases n,
{
    if n == 0 {
        Ok(Seq::empty())
    } else {
        match ids_of(states, (n - 1) as nat) {
            Err(e) => Err(e),
            Ok(ids) => match state_id(states[n - 1]) {
                None => Err(ConfigError::WrongShape),
                Some(id) => Ok(ids.push(id)),
            },
        }
    }
}

/// The ids of all the states of a block.
pub open spec fn block_ids(block: JsonValue) -> Result<Seq<i64>, ConfigError> {
    if has_member(block, "states"@) && member_of(block, "states"@) is Array {
        let states = member_of(block, "states"@)->Array_0;
        ids_of(states, states.len())
    } else {
        Err(ConfigError::WrongShape)
    }
}

/// The entries that the first `n` members give, in their order.
pub open spec fn entries_of(members: Seq<(Seq<char>, JsonValue)>, n: nat) -> Result<
    Seq<(Seq<char>, Seq<i64>)>,
    ConfigError,
>
    decreases n,
{
    if n == 0 {
        Ok(Seq::empty())
    } else {
        match entries_of(members, (n - 1) as nat) {
            Err(e) => Err(e),
            Ok(entries) => match block_ids(members[n - 1].1) {
                Err(e) => Err(e),
                Ok(ids) => Ok(entries.push((members[n - 1].0, ids))),
            },
        }
    }
}

/// The entries of a resource document.
pub open spec fn resource_of(document: JsonValue) -> Result<Seq<(Seq<char>, Seq<i64>)>, ConfigError> {
    if document is Object {
        entries_of(document->Object_0, document->Object_0.len())
    } else {
        Err(ConfigError::WrongShape)
    }
}

/// The table that a resource text gives.
pub open spec fn table_of(document: Option<JsonValue>) -> Result<Map<i64, Seq<char>>, ConfigError> {
    match document {
        None => Err(ConfigError::NotJson),
        Some(j) => match resource_of(j) {
            Err(e) => Err(e),
            Ok(entries) => Ok(palette_of(entries, entries.len())),
        },
    }
}

/// Once some states have failed, so have any more.
proof fn lemma_ids_fail(states: Seq<JsonValue>, i: nat, n: nat)
    requires
        i <= n,
        ids_of(states, i) is Err,
    ensures
        ids_of(states, n) == ids_of(states, i),
    decreases n,
{
    if i < n {
        lemma_ids_fail(states, i, (n - 1) as nat);
    }
}

/// Once some members have failed, so have any more.
proof fn lemma_entries_fail(members: Seq<(Seq<char>, JsonValue)>, i: nat, n: nat)
    requires
        i <= n,
        entries_of(members, i) is Err,
    ensures
        entries_of(members, n) == entries_of(members, i),
    decreases n,
{
    if i < n {
        lemma_entries_fail(members, i, (n - 1) as nat);
    }
}

/// The ids of all the states of a block.
pub fn read_block_ids(block: &Value) -> (r: Result<Vec<i64>, ConfigError>)
    ensures
        match r {
            Ok(ids) => block_ids(json_model(*block)) == Ok::<Seq<i64>, ConfigError>(ids@),
            Err(e) => block_ids(json_model(*block)) == Err::<Seq<i64>, ConfigError>(e),
        },
{
    let states = match json_get(block, "states") {
        Some(states) => states,
        None => {
            return Err(ConfigError::WrongShape);
        },
    };
    let items = match json_items(states) {
        Some(items) => items,
        None => {
            return Err(ConfigError::WrongShape);
        },
    };
    let ghost want = json_model(*states)->Array_0;
    let mut ids: Vec<i64> = Vec::new();
    let mut i: usize = 0;
    while i < items.len()
        invariant
            i <= items@.len(),
            items_are(items@, want),
            has_member(json_model(*block), "states"@),
            member_of(json_model(*block), "states"@) == json_model(*states),
            json_model(*states) is Array,
            want == json_model(*states)->Array_0,
            ids_of(want, i as nat) == Ok::<Seq<i64>, ConfigError>(ids@),
        decreases items@.len() - i,
    {
        let state = items[i];
        assert(json_model(*state) == want[i as int]);
        let id = match json_get(state, "id") {
            Some(id) => json_i64(id),
            None => None,
        };
        match id {
            Some(id) => {
                ids.push(id);
            },
            None => {
                proof {
                    assert(state_id(want[i as int]) is None);
                    assert(ids_of(want, (i + 1) as nat) is Err);
                    lemma_ids_fail(want, (i + 1) as nat, want.len());
                }
                return Err(ConfigError::WrongShape);
            },
        }
        i = i + 1;
    }
    Ok(ids)
}

/// The entries of a resource document, in the document's order.
pub fn read_resource(document: &Value) -> (r: Result<Vec<BlockStates>, ConfigError>)
    ensures
        match r {
            Ok(entries) => resource_of(json_model(*document)) == Ok::<
                Seq<(Seq<char>, Seq<i64>)>,
                ConfigError,
            >(resource_model(entries@)),
            Err(e) => resource_of(json_model(*document)) == Err::<
                Seq<(Seq<char>, Seq<i64>)>,
                ConfigError,
            >(e),
        },
{
    let members = match json_members(document) {
        Some(members) => members,
        None => {
            return Err(ConfigError::WrongShape);
        },
    };
    let ghost want = json_model(*document)->Object_0;
    let mut entries: Vec<BlockStates> = Vec::new();
    let mut i: usize = 0;
    assert(resource_model(entries@) =~= Seq::empty());
    while i < members.len()
        invariant
            i <= members@.len(),
            members_are(members@, want),
            json_model(*document) is Object,
            want == json_model(*document)->Object_0,
            entries_of(want, i as nat) == Ok::<Seq<(Seq<char>, Seq<i64>)>, ConfigError>(
                resource_model(entries@),
            ),
        decreases members@.len() - i,
    {
        let name = members[i].0;
        let block = members[i].1;
        assert(name@ == want[i as int].0 && json_model(*block) == want[i as int].1);
        match read_block_ids(block) {
            Ok(states) => {
                let ghost before = resource_model(entries@);
                let entry = BlockStates { name: name.clone(), states };
                entries.push(entry);
                assert(resource_model(entries@) =~= before.push((name@, states@)));
            },
            Err(e) => {
                proof {
                    assert(entries_of(want, (i + 1) as nat) is Err);
                    lemma_entries_fail(want, (i + 1) as nat, want.len());
                }
                return Err(e);
            },
        }
        i = i + 1;
    }
    Ok(entries)
}

/// The entries of a resource, given as text.
pub fn parse_resource(text: &str) -> (r: Result<Vec<BlockStates>, ConfigError>)
    ensures
        match r {
            Ok(entries) => json_text(text@) matches Some(j) && resource_of(j) == Ok::<
                Seq<(Seq<char>, Seq<i64>)>,
                ConfigError,
            >(resource_model(entries@)),
            Err(e) => match json_text(text@) {
                None => e == ConfigError::NotJson,
                Some(j) => resource_of(j) == Err::<Seq<(Seq<char>, Seq<i64>)>, ConfigError>(e),
            },
        },
{
    match json_from_str(text) {
        Some(document) => read_resource(&document),
        None => Err(ConfigError::NotJson),
    }
}

impl GlobalPalette {
    /// Builds the table from a resource, given as text.
    pub fn from_json(text: &str) -> (r: Result<GlobalPalette, ConfigError>)
        ensures
            match r {
                Ok(p) => table_of(json_text(text@)) == Ok::<Map<i64, Seq<char>>, ConfigError>(p@),
                Err(e) => table_of(json_text(text@)) == Err::<Map<i64, Seq<char>>, ConfigError>(e),
            },
    {
        match parse_resource(text) {
            Ok(entries) => Ok(GlobalPalette::parse(&entries)),
            Err(e) => Err(e),
        }
    }
}

} // verus!
