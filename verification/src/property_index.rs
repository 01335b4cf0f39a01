//! What the properties of events add to a catalog of keys and values.
use vstd::prelude::*;

use crate::counters::{known, seen_again, CountModel, CountTable};
use crate::json::{kind_name, lemma_member_absent, members_map, members_model, shown, JsonMap, JsonValue};

verus! {

/// The property keys after an event: each of its properties is counted once more.
pub open spec fn keys_counted(
    keys: Map<(Seq<char>, Seq<char>, Seq<char>), CountModel>,
    owner: Seq<char>,
    properties: Map<Seq<char>, JsonValue>,
    now: int,
    monotone: bool,
) -> Map<(Seq<char>, Seq<char>, Seq<char>), CountModel> {
    Map::new(
        |k: (Seq<char>, Seq<char>, Seq<char>)|
            keys.contains_key(k) || (k.0 == owner && k.1 == "event"@ && properties.contains_key(
                k.2,
            )),
        |k: (Seq<char>, Seq<char>, Seq<char>)|
            if k.0 == owner && k.1 == "event"@ && properties.contains_key(k.2) {
                seen_again(known(keys, k), kind_name(properties[k.2]), now, monotone)
            } else {
                keys[k]
            },
    )
}

/// Whether an event has a value under a property that shows as a text.
pub open spec fn has_value(
    properties: Map<Seq<char>, JsonValue>,
    key: Seq<char>,
    value: Seq<char>,
) -> bool {
    properties.contains_key(key) && properties[key] != JsonValue::Null && shown(properties[key])
        == value
}

/// The property values after an event: each value that is not null is counted once more.
pub open spec fn values_counted(
    values: Map<(Seq<char>, Seq<char>, Seq<char>), CountModel>,
    owner: Seq<char>,
    properties: Map<Seq<char>, JsonValue>,
    now: int,
    monotone: bool,
) -> Map<(Seq<char>, Seq<char>, Seq<char>), CountModel> {
    Map::new(
        |k: (Seq<char>, Seq<char>, Seq<char>)|
            values.contains_key(k) || (k.0 == owner && has_value(properties, k.1, k.2)),
        |k: (Seq<char>, Seq<char>, Seq<char>)|
            if k.0 == owner && has_value(properties, k.1, k.2) {
                seen_again(known(values, k), Seq::empty(), now, monotone)
            } else {
                values[k]
            },
    )
}

/// Counts the properties of an event: every key within the group `event`, seen at `now`, and every value
/// that is not null within the group of its key, seen at `seen`.
pub fn count_properties(
    keys: &mut CountTable,
    values: &mut CountTable,
    owner: &str,
    properties: &JsonMap,
    now: i128,
    seen: i128,
    monotone: bool,
)
    requires
        old(keys).well_formed(),
        old(values).well_formed(),
    ensures
        final(keys).well_formed(),
        final(values).well_formed(),
        final(keys)@ == keys_counted(old(keys)@, owner@, properties@, now as int, monotone),
        final(values)@ == values_counted(old(values)@, owner@, properties@, seen as int, monotone),
{
    let ghost t = now as int;
    let ghost s = seen as int;
    let ghost keys_start = keys@;
    let ghost values_start = values@;
    let each = properties.compact();
    let ghost all = members_model(each.members@);
    let mut i: usize = 0;
    assert(""@ =~= Seq::<char>::empty()) by {
        reveal_strlit("");
    }
    assert(all.take(0) =~= Seq::<(Seq<char>, JsonValue)>::empty());
    assert(keys_counted(keys_start, owner@, members_map(all.take(0)), t, monotone) =~= keys_start);
    assert(values_counted(values_start, owner@, members_map(all.take(0)), s, monotone)
        =~= values_start);
    while i < each.members.len()
        invariant
            i <= each.members.len(),
            all == members_model(each.members@),
            each.well_formed(),
            ""@ == Seq::<char>::empty(),
            t == now,
            s == seen,
            keys.well_formed(),
            values.well_formed(),
            keys@ == keys_counted(
                keys_start,
                owner@,
                members_map(all.take(i as int)),
                t,
                monotone,
            ),
            values@ == values_counted(
                values_start,
                owner@,
                members_map(all.take(i as int)),
                s,
                monotone,
            ),
        decreases each.members.len() - i,
    {
        let ghost before = members_map(all.take(i as int));
        let ghost key = all[i as int].0;
        let ghost value = all[i as int].1;
        assert(all.take(i + 1).drop_last() =~= all.take(i as int));
        assert(!before.contains_key(key)) by {
            assert forall|j: int| 0 <= j < i implies (#[trigger] all.take(i as int)[j]).0 != key by {
                assert(all[j].0 != all[i as int].0);
            }
            lemma_member_absent(all.take(i as int), key);
        }
        let name = each.members[i].0.as_str();
        let item = &each.members[i].1;
        keys.touch(owner, "event", name, item.value_type(), now, monotone);
        proof {
            lemma_keys_step(keys_start, owner@, before, key, value, t, monotone);
            lemma_values_step(values_start, owner@, before, key, value, s, monotone);
        }
        if !item.is_null() {
            let text = item.value_text();
            values.touch(owner, name, text.as_str(), "", seen, monotone);
        }
        i += 1;
    }
    assert(all.take(all.len() as int) =~= all);
}

proof fn lemma_keys_step(
    keys: Map<(Seq<char>, Seq<char>, Seq<char>), CountModel>,
    owner: Seq<char>,
    properties: Map<Seq<char>, JsonValue>,
    key: Seq<char>,
    value: JsonValue,
    now: int,
    monotone: bool,
)
    requires
        !properties.contains_key(key),
    ensures
        keys_counted(keys, owner, properties.insert(key, value), now, monotone) == keys_counted(
            keys,
            owner,
            properties,
            now, monotone,
        ).insert(
            (owner, "event"@, key),
            seen_again(
                known(
                    keys_counted(keys, owner, properties, now, monotone),
                    (owner, "event"@, key),
                ),
                kind_name(value),
                now,
                monotone,
            ),
        ),
{
    let before = keys_counted(keys, owner, properties, now, monotone);
    let k = (owner, "event"@, key);
    assert(known(before, k) == known(keys, k));
    assert(keys_counted(keys, owner, properties.insert(key, value), now, monotone) =~= before.insert(
        k,
        seen_again(known(before, k), kind_name(value), now, monotone),
    ));
}

proof fn lemma_values_step(
    values: Map<(Seq<char>, Seq<char>, Seq<char>), CountModel>,
    owner: Seq<char>,
    properties: Map<Seq<char>, JsonValue>,
    key: Seq<char>,
    value: JsonValue,
    now: int,
    monotone: bool,
)
    requires
        !properties.contains_key(key),
    ensures
        value == JsonValue::Null ==> values_counted(
            values,
            owner,
            properties.insert(key, value),
            now, monotone,
        ) == values_counted(values, owner, properties, now, monotone),
        value != JsonValue::Null ==> values_counted(
            values,
            owner,
            properties.insert(key, value),
            now, monotone,
        ) == values_counted(values, owner, properties, now, monotone).insert(
            (owner, key, shown(value)),
            seen_again(
                known(
                    values_counted(values, owner, properties, now, monotone),
                    (owner, key, shown(value)),
                ),
                Seq::empty(),
                now,
                monotone,
            ),
        ),
{
    let before = values_counted(values, owner, properties, now, monotone);
    let after = values_counted(values, owner, properties.insert(key, value), now, monotone);
    let k = (owner, key, shown(value));
    if value == JsonValue::Null {
        assert(after =~= before);
    } else {
        assert(known(before, k) == known(values, k));
        assert(after =~= before.insert(k, seen_again(known(before, k), Seq::empty(), now, monotone)));
    }
}

} // verus!
