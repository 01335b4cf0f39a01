//! What feature flags promise: of filters, of conditions, of rollouts and of the stored flags.
use vstd::arithmetic::power2::pow2;
use vstd::prelude::*;
use vstd::string::*;

use crate::flags::{
    all_evaluated, evaluated, filter_met, first_60, flag_active, flag_is, flag_of, flag_order, inside,
    law_a_rollout_takes_its_part, law_raising_a_rollout_only_adds, listed, lowercase_of, place_of,
    smallest_units, upserted, variant_at, variant_place, EvaluatedModel, FilterModel, FlagDefModel,
    FlagRowModel, NumberFact, NumberOrder, Percentage, VariantModel,
};
use crate::json::{alike, law_equality_is_mutual, JsonValue};
use crate::rows::{
    is_order, law_sorting_orders, lemma_index_of, lemma_selected, lemma_sorted, selected, sorted,
};
use crate::text::{lemma_text_le_total, lemma_text_le_transitive, text_le};

verus! {

// ── Filters ───────────────────────────────────────────────────────────────────

proof fn lemma_operators_differ()
    ensures
        "exact"@ != "is_not"@,
        "exact"@ != "icontains"@,
        "exact"@ != "gt"@,
        "exact"@ != "lt"@,
        "is_not"@ != "icontains"@,
        "is_not"@ != "gt"@,
        "is_not"@ != "lt"@,
        "icontains"@ != "gt"@,
        "icontains"@ != "lt"@,
        "gt"@ != "lt"@,
{
    reveal_strlit("exact");
    reveal_strlit("is_not");
    reveal_strlit("icontains");
    reveal_strlit("gt");
    reveal_strlit("lt");
    assert("gt"@[0] != "lt"@[0]);
    assert("exact"@.len() == 5 && "is_not"@.len() == 6 && "icontains"@.len() == 9);
    assert("gt"@.len() == 2 && "lt"@.len() == 2);
}

/// Of a property that a person has, `is_not` says the opposite of `exact`.
pub proof fn law_is_not_is_the_opposite_of_exact(
    properties: Map<Seq<char>, JsonValue>,
    key: Seq<char>,
    value: JsonValue,
    facts: Seq<NumberFact>,
)
    requires
        properties.contains_key(key),
    ensures
        filter_met(properties, (FilterModel { key, operator: "is_not"@, value }), facts) <==> !filter_met(
            properties,
            (FilterModel { key, operator: "exact"@, value }),
            facts,
        ),
{
    lemma_operators_differ();
}

/// A person whose value is the expected one meets `exact` and never meets `is_not`.
pub proof fn law_the_same_value_is_exact(
    properties: Map<Seq<char>, JsonValue>,
    key: Seq<char>,
    facts: Seq<NumberFact>,
)
    requires
        properties.contains_key(key),
    ensures
        filter_met(
            properties,
            (FilterModel { key, operator: "exact"@, value: properties[key] }),
            facts,
        ),
        !filter_met(
            properties,
            (FilterModel { key, operator: "is_not"@, value: properties[key] }),
            facts,
        ),
{
    lemma_operators_differ();
    law_equality_is_mutual(properties[key], properties[key]);
}

/// A person with another text, number, truth value or none at all meets `is_not` and never meets `exact`. Only
/// the two zeros that have a fraction are one number in two texts.
pub proof fn law_another_value_is_not_exact(
    properties: Map<Seq<char>, JsonValue>,
    key: Seq<char>,
    value: JsonValue,
    facts: Seq<NumberFact>,
)
    requires
        properties.contains_key(key),
        properties[key] != value,
        match value {
            JsonValue::Null | JsonValue::Bool(_) | JsonValue::Text(_) => true,
            JsonValue::Number(t, _) => t != "0.0"@ && t != "-0.0"@,
            _ => false,
        },
    ensures
        !filter_met(properties, (FilterModel { key, operator: "exact"@, value }), facts),
        filter_met(properties, (FilterModel { key, operator: "is_not"@, value }), facts),
{
    lemma_operators_differ();
}

/// A person without the property meets `is_not`, and no other operator.
pub proof fn law_missing_properties_are_not(
    properties: Map<Seq<char>, JsonValue>,
    filter: FilterModel,
    facts: Seq<NumberFact>,
)
    requires
        !properties.contains_key(filter.key),
    ensures
        filter_met(properties, filter, facts) <==> filter.operator == "is_not"@,
{
}

/// A text contains another if it is the other with something before and after it, whatever the case. What is no
/// text contains nothing.
pub proof fn law_contains_is_a_part(
    properties: Map<Seq<char>, JsonValue>,
    key: Seq<char>,
    value: JsonValue,
    facts: Seq<NumberFact>,
)
    requires
        properties.contains_key(key),
    ensures
        filter_met(properties, (FilterModel { key, operator: "icontains"@, value }), facts)
            ==> properties[key] is Text && value is Text,
        forall|before: Seq<char>, after: Seq<char>|
            properties[key] is Text && value is Text && lowercase_of(properties[key]->Text_0)
                == #[trigger] (before + lowercase_of(value->Text_0) + after) ==> filter_met(
                properties,
                (FilterModel { key, operator: "icontains"@, value }),
                facts,
            ),
        filter_met(properties, (FilterModel { key, operator: "icontains"@, value }), facts) ==> exists|
            before: Seq<char>,
            after: Seq<char>,
        |
            lowercase_of(properties[key]->Text_0) == #[trigger] (before + lowercase_of(value->Text_0)
                + after),
{
    lemma_operators_differ();
    let f = FilterModel { key, operator: "icontains"@, value };
    assert forall|before: Seq<char>, after: Seq<char>|
        properties[key] is Text && value is Text && lowercase_of(properties[key]->Text_0)
            == #[trigger] (before + lowercase_of(value->Text_0) + after) implies filter_met(
        properties,
        f,
        facts,
    ) by {
        let low = lowercase_of(properties[key]->Text_0);
        let part = lowercase_of(value->Text_0);
        let i = before.len() as int;
        assert(low.subrange(i, i + part.len()) =~= part);
        assert(0 <= i <= low.len() - part.len());
    }
    if filter_met(properties, f, facts) {
        let low = lowercase_of(properties[key]->Text_0);
        let part = lowercase_of(value->Text_0);
        let i = choose|i: int|
            0 <= i <= low.len() - part.len() && #[trigger] low.subrange(i, i + part.len()) == part;
        let before = low.take(i);
        let after = low.skip(i + part.len());
        assert(low =~= before + part + after);
    }
}

/// Integers compare as integers: `gt` holds of the larger value and `lt` of the smaller.
pub proof fn law_integers_compare(
    properties: Map<Seq<char>, JsonValue>,
    key: Seq<char>,
    s: Seq<char>,
    t: Seq<char>,
    a: i64,
    b: i64,
    facts: Seq<NumberFact>,
)
    requires
        properties.contains_key(key),
        properties[key] == JsonValue::Number(s, Some(a)),
        -0x20_0000_0000_0000 <= a <= 0x20_0000_0000_0000,
        -0x20_0000_0000_0000 <= b <= 0x20_0000_0000_0000,
    ensures
        ({
            let value = JsonValue::Number(t, Some(b));
            &&& filter_met(properties, (FilterModel { key, operator: "gt"@, value }), facts) <==> a > b
            &&& filter_met(properties, (FilterModel { key, operator: "lt"@, value }), facts) <==> a < b
        }),
{
    lemma_operators_differ();
}

/// Whether a fact speaks of a key and an expected value.
pub open spec fn speaks_of(fact: NumberFact, key: Seq<char>, expected: JsonValue) -> bool {
    fact.key@ == key && alike(fact.expected@, expected)
}

/// What is no small integer compares as the first fact on it says, and not at all without one. A value never is
/// both greater and less.
pub proof fn law_other_numbers_compare_as_stated(
    properties: Map<Seq<char>, JsonValue>,
    key: Seq<char>,
    value: JsonValue,
    facts: Seq<NumberFact>,
    i: int,
)
    requires
        properties.contains_key(key),
        !(properties[key] is Number) || properties[key]->Number_1 is None || !(value is Number)
            || value->Number_1 is None,
        0 <= i <= facts.len(),
        forall|j: int| 0 <= j < i ==> !speaks_of(#[trigger] facts[j], key, value),
        i < facts.len() ==> speaks_of(facts[i], key, value),
    ensures
        ({
            let gt = filter_met(properties, (FilterModel { key, operator: "gt"@, value }), facts);
            let lt = filter_met(properties, (FilterModel { key, operator: "lt"@, value }), facts);
            &&& gt <==> i < facts.len() && facts[i].order == NumberOrder::Greater
            &&& lt <==> i < facts.len() && facts[i].order == NumberOrder::Less
        }),
{
    lemma_operators_differ();
    lemma_first_fact(facts, key, value, i);
}

proof fn lemma_first_fact(facts: Seq<NumberFact>, key: Seq<char>, value: JsonValue, i: int)
    requires
        0 <= i <= facts.len(),
        forall|j: int| 0 <= j < i ==> !speaks_of(#[trigger] facts[j], key, value),
        i < facts.len() ==> speaks_of(facts[i], key, value),
    ensures
        crate::flags::stated_order(facts, key, value) == if i < facts.len() {
            facts[i].order
        } else {
            NumberOrder::Incomparable
        },
    decreases facts.len(),
{
    if facts.len() > 0 && i > 0 {
        assert(!speaks_of(facts[0], key, value));
        let rest = facts.drop_first();
        assert forall|j: int| 0 <= j < i - 1 implies !speaks_of(#[trigger] rest[j], key, value) by {
            assert(rest[j] == facts[j + 1]);
        }
        lemma_first_fact(rest, key, value, i - 1);
    }
}

/// An operator that is not known is never met by a property that is there.
pub proof fn law_unknown_operators_are_never_met(
    properties: Map<Seq<char>, JsonValue>,
    filter: FilterModel,
    facts: Seq<NumberFact>,
)
    requires
        filter.operator != "exact"@,
        filter.operator != "is_not"@,
        filter.operator != "icontains"@,
        filter.operator != "gt"@,
        filter.operator != "lt"@,
    ensures
        !filter_met(properties, filter, facts),
{
}

// ── One flag ──────────────────────────────────────────────────────────────────

/// A flag is on for a person exactly if they meet every filter, are in every cohort, and are inside the rollout.
pub proof fn law_flags_need_every_condition(
    flag: FlagRowModel,
    bucket_key: Seq<char>,
    properties: Map<Seq<char>, JsonValue>,
    cohorts: Seq<Seq<char>>,
    facts: Seq<NumberFact>,
)
    ensures
        ({
            let on = evaluated(flag, bucket_key, properties, cohorts, facts).enabled;
            let within = inside(place_of(flag.key, bucket_key, ""@), flag.rollout);
            &&& !within ==> !on
            &&& flag.conditions is None ==> (on <==> within)
            &&& forall|i: int|
                #![trigger flag.conditions->Some_0.properties[i]]
                flag.conditions is Some && 0 <= i < flag.conditions->Some_0.properties.len() && !filter_met(
                    properties,
                    flag.conditions->Some_0.properties[i],
                    facts,
                ) ==> !on
            &&& forall|i: int|
                #![trigger flag.conditions->Some_0.cohort_ids[i]]
                flag.conditions is Some && 0 <= i < flag.conditions->Some_0.cohort_ids.len()
                    && !cohorts.contains(flag.conditions->Some_0.cohort_ids[i]) ==> !on
            &&& within && flag.conditions is Some && (forall|i: int|
                0 <= i < flag.conditions->Some_0.properties.len() ==> filter_met(
                    properties,
                    #[trigger] flag.conditions->Some_0.properties[i],
                    facts,
                )) && (forall|i: int|
                0 <= i < flag.conditions->Some_0.cohort_ids.len() ==> cohorts.contains(
                    #[trigger] flag.conditions->Some_0.cohort_ids[i],
                )) ==> on
        }),
{
}

/// A flag that excludes a value is off for everybody who has that value, and has no variant for them.
pub proof fn law_excluded_values_turn_a_flag_off(
    flag: FlagRowModel,
    bucket_key: Seq<char>,
    properties: Map<Seq<char>, JsonValue>,
    cohorts: Seq<Seq<char>>,
    facts: Seq<NumberFact>,
    i: int,
)
    requires
        flag.conditions is Some,
        0 <= i < flag.conditions->Some_0.properties.len(),
        flag.conditions->Some_0.properties[i].operator == "is_not"@,
        properties.contains_key(flag.conditions->Some_0.properties[i].key),
        properties[flag.conditions->Some_0.properties[i].key]
            == flag.conditions->Some_0.properties[i].value,
    ensures
        !evaluated(flag, bucket_key, properties, cohorts, facts).enabled,
        evaluated(flag, bucket_key, properties, cohorts, facts).variant is None,
{
    lemma_operators_differ();
    let filter = flag.conditions->Some_0.properties[i];
    law_equality_is_mutual(filter.value, filter.value);
    assert(!filter_met(properties, filter, facts));
}

/// A flag is shown under its key and with its payload, on or off. It has a variant exactly if it is on and has
/// variants.
pub proof fn law_flags_show_key_and_payload(
    flag: FlagRowModel,
    bucket_key: Seq<char>,
    properties: Map<Seq<char>, JsonValue>,
    cohorts: Seq<Seq<char>>,
    facts: Seq<NumberFact>,
)
    ensures
        ({
            let r = evaluated(flag, bucket_key, properties, cohorts, facts);
            &&& r.key == flag.key
            &&& flag.conditions is Some ==> r.payload == flag.conditions->Some_0.payload
            &&& flag.conditions is None ==> r.payload is None
            &&& r.variant is Some <==> r.enabled && flag.variants.len() > 0
        }),
{
}

/// Of the variants of a flag, a person gets the first whose end lies above their place, or else the last. The
/// rollout has no say in which.
pub proof fn law_variants_go_by_their_ends(
    flag: FlagRowModel,
    bucket_key: Seq<char>,
    properties: Map<Seq<char>, JsonValue>,
    cohorts: Seq<Seq<char>>,
    facts: Seq<NumberFact>,
    i: int,
)
    requires
        evaluated(flag, bucket_key, properties, cohorts, facts).enabled,
        0 <= i < flag.variants.len(),
        variant_place(flag.key, bucket_key) < flag.variants[i].rollout.below || i
            == flag.variants.len() - 1,
        forall|j: int|
            0 <= j < i ==> variant_place(flag.key, bucket_key) >= (
            #[trigger] flag.variants[j]).rollout.below,
    ensures
        evaluated(flag, bucket_key, properties, cohorts, facts).variant == Some(flag.variants[i].key),
{
    lemma_variant_is(variant_place(flag.key, bucket_key), flag.variants, i);
}

proof fn lemma_variant_is(place: nat, variants: Seq<VariantModel>, i: int)
    requires
        0 <= i < variants.len(),
        place < variants[i].rollout.below || i == variants.len() - 1,
        forall|j: int| 0 <= j < i ==> place >= (#[trigger] variants[j]).rollout.below,
    ensures
        variant_at(place, variants) == variants[i].key,
    decreases variants.len(),
{
    if i > 0 {
        let rest = variants.drop_first();
        assert(place >= variants[0].rollout.below);
        assert forall|j: int| 0 <= j < i - 1 implies place >= (#[trigger] rest[j]).rollout.below by {
            assert(rest[j] == variants[j + 1]);
        }
        lemma_variant_is(place, rest, i - 1);
        assert(rest[i - 1] == variants[i]);
    }
}

/// Raising a rollout keeps a flag on for everybody for whom it was, in the same variant.
pub proof fn law_raising_a_rollout_keeps_everybody(
    flag: FlagRowModel,
    larger: Percentage,
    bucket_key: Seq<char>,
    properties: Map<Seq<char>, JsonValue>,
    cohorts: Seq<Seq<char>>,
    facts: Seq<NumberFact>,
)
    requires
        0 < flag.rollout.bits <= larger.bits <= 0x7ff0_0000_0000_0000,
        evaluated(flag, bucket_key, properties, cohorts, facts).enabled,
    ensures
        evaluated(
            (FlagRowModel { rollout: larger, ..flag }),
            bucket_key,
            properties,
            cohorts,
            facts,
        ) == evaluated(flag, bucket_key, properties, cohorts, facts),
{
    law_raising_a_rollout_only_adds(place_of(flag.key, bucket_key, ""@), flag.rollout, larger);
}

/// A rollout of a hundred percent or more takes everyone, and one of none, below none or that is no number takes
/// nobody. One between takes the places whose fraction of two to the 60 lies below its hundredth.
pub proof fn law_rollouts_go_by_their_number(place: nat, rollout: Percentage)
    ensures
        0x4059_0000_0000_0000 <= rollout.bits <= 0x7ff0_0000_0000_0000 ==> inside(place, rollout),
        rollout.bits == 0 || rollout.bits > 0x7ff0_0000_0000_0000 ==> !inside(place, rollout),
        0 < rollout.bits < 0x4059_0000_0000_0000 ==> (inside(place, rollout) <==> place * (100 * pow2(
            1014,
        )) < smallest_units(rollout.bits)),
{
    if 0 < rollout.bits < 0x4059_0000_0000_0000 {
        law_a_rollout_takes_its_part(place, rollout);
    }
}

/// The place of a person is the number in the first 60 bits of the digest: with the four bits that follow, they
/// are its first eight bytes, the highest first.
pub proof fn law_places_are_the_start_of_the_digest(digest: Seq<u8>)
    requires
        digest.len() >= 8,
    ensures
        first_60(digest) * 16 + digest[7] % 16 == digest[7] + 0x100 * digest[6] + 0x1_0000 * digest[5]
            + 0x100_0000 * digest[4] + 0x1_0000_0000 * digest[3] + 0x100_0000_0000 * digest[2]
            + 0x1_0000_0000_0000 * digest[1] + 0x100_0000_0000_0000 * digest[0],
        first_60(digest) < 0x1000_0000_0000_0000,
{
}

// ── Stored flags ──────────────────────────────────────────────────────────────

proof fn lemma_flag_order()
    ensures
        is_order(flag_order()),
{
    assert forall|a: FlagRowModel, b: FlagRowModel| #[trigger] flag_order()(a, b) implies !flag_order()(
        b,
        a,
    ) by {
        lemma_text_le_total(a.key, b.key);
    }
    assert forall|a: FlagRowModel, b: FlagRowModel, c: FlagRowModel| #[trigger]
        flag_order()(a, c) implies #[trigger] flag_order()(a, b) || flag_order()(b, c) by {
        lemma_text_le_total(a.key, b.key);
        lemma_text_le_total(b.key, c.key);
        lemma_text_le_total(a.key, c.key);
        if !flag_order()(a, b) && !flag_order()(b, c) {
            lemma_text_le_transitive(c.key, b.key, a.key);
        }
    }
}

/// A person is shown every active flag of the token, as it stands for them, and nothing else.
pub proof fn law_active_flags_are_evaluated(
    flags: Seq<FlagRowModel>,
    token: Seq<char>,
    bucket_key: Seq<char>,
    properties: Map<Seq<char>, JsonValue>,
    cohorts: Seq<Seq<char>>,
    facts: Seq<NumberFact>,
    flag: FlagRowModel,
    shown: EvaluatedModel,
)
    ensures
        flags.contains(flag) && flag.active && flag.token == token ==> all_evaluated(
            flags,
            token,
            bucket_key,
            properties,
            cohorts,
            facts,
        ).contains(evaluated(flag, bucket_key, properties, cohorts, facts)),
        all_evaluated(flags, token, bucket_key, properties, cohorts, facts).contains(shown) ==> exists|
            f: FlagRowModel,
        | #[trigger]
            flags.contains(f) && f.active && f.token == token && shown == evaluated(
                f,
                bucket_key,
                properties,
                cohorts,
                facts,
            ),
{
    let p = flag_active(token);
    let chosen = selected(flags, p);
    let rows = sorted(chosen, flag_order());
    let r = all_evaluated(flags, token, bucket_key, properties, cohorts, facts);
    if flags.contains(flag) && flag.active && flag.token == token {
        lemma_selected(flags, p, flag);
        lemma_sorted(chosen, flag_order(), flag);
        let k = choose|k: int| 0 <= k < rows.len() && rows[k] == flag;
        assert(r[k] == evaluated(flag, bucket_key, properties, cohorts, facts));
    }
    if r.contains(shown) {
        let k = choose|k: int| 0 <= k < r.len() && r[k] == shown;
        lemma_sorted(chosen, flag_order(), rows[k]);
        lemma_selected(flags, p, rows[k]);
        assert(flags.contains(rows[k]));
    }
}

/// A token lists every flag of its own, active or not, as it was defined, and nothing else.
pub proof fn law_tokens_list_their_flags(
    flags: Seq<FlagRowModel>,
    token: Seq<char>,
    flag: FlagRowModel,
    def: FlagDefModel,
)
    ensures
        flags.contains(flag) && flag.token == token ==> exists|d: FlagDefModel| #[trigger]
            listed(flags, token).contains(d) && shows(d, flag),
        listed(flags, token).contains(def) ==> exists|f: FlagRowModel| #[trigger]
            flags.contains(f) && f.token == token && shows(def, f),
{
    let p = flag_of(token);
    let chosen = selected(flags, p);
    let rows = sorted(chosen, flag_order());
    let r = listed(flags, token);
    if flags.contains(flag) && flag.token == token {
        lemma_selected(flags, p, flag);
        lemma_sorted(chosen, flag_order(), flag);
        let k = choose|k: int| 0 <= k < rows.len() && rows[k] == flag;
        assert(shows(r[k], flag));
        assert(r.contains(r[k]));
    }
    if r.contains(def) {
        let k = choose|k: int| 0 <= k < r.len() && r[k] == def;
        lemma_sorted(chosen, flag_order(), rows[k]);
        lemma_selected(flags, p, rows[k]);
        assert(flags.contains(rows[k]));
    }
}

/// Flags are shown and listed by key.
pub proof fn law_flags_are_listed_by_key(
    flags: Seq<FlagRowModel>,
    token: Seq<char>,
    bucket_key: Seq<char>,
    properties: Map<Seq<char>, JsonValue>,
    cohorts: Seq<Seq<char>>,
    facts: Seq<NumberFact>,
    i: int,
    j: int,
)
    requires
        0 <= i < j,
    ensures
        ({
            let r = all_evaluated(flags, token, bucket_key, properties, cohorts, facts);
            j < r.len() ==> text_le(r[i].key, r[j].key)
        }),
        j < listed(flags, token).len() ==> text_le(
            listed(flags, token)[i].key,
            listed(flags, token)[j].key,
        ),
{
    lemma_flag_order();
    let shown = sorted(selected(flags, flag_active(token)), flag_order());
    law_sorting_orders(selected(flags, flag_active(token)), flag_order());
    if j < shown.len() {
        assert(!flag_order()(shown[j], shown[i]));
        lemma_text_le_total(shown[i].key, shown[j].key);
    }
    let rows = sorted(selected(flags, flag_of(token)), flag_order());
    law_sorting_orders(selected(flags, flag_of(token)), flag_order());
    if j < rows.len() {
        assert(!flag_order()(rows[j], rows[i]));
        lemma_text_le_total(rows[i].key, rows[j].key);
    }
}

/// Whether a list shows a flag.
pub open spec fn shows(def: FlagDefModel, flag: FlagRowModel) -> bool {
    &&& def.key == flag.key
    &&& def.active == flag.active
    &&& def.rollout_percentage == flag.rollout
    &&& def.variants == flag.variants
    &&& flag.conditions is Some ==> def.payload == flag.conditions->Some_0.payload
    &&& flag.conditions is None ==> def.payload is None
}

/// A flag that was put in place is there, the flags of other keys and tokens stay, and no other flag of its key
/// comes along.
pub proof fn law_flags_are_put_in_place(flags: Seq<FlagRowModel>, flag: FlagRowModel)
    ensures
        ({
            let r = upserted(flags, flag);
            &&& r.contains(flag)
            &&& forall|f: FlagRowModel| #[trigger]
                flags.contains(f) && !(f.token == flag.token && f.key == flag.key) ==> r.contains(f)
            &&& forall|f: FlagRowModel| #[trigger]
                r.contains(f) ==> flags.contains(f) || f == flag
            &&& (forall|i: int, j: int|
                #![trigger flags[i], flags[j]]
                0 <= i < j < flags.len() ==> flags[i].token != flags[j].token || flags[i].key
                    != flags[j].key) ==> forall|f: FlagRowModel| #[trigger]
                r.contains(f) && f.token == flag.token && f.key == flag.key ==> f == flag
        }),
{
    let p = flag_is(flag.token, flag.key);
    let r = upserted(flags, flag);
    lemma_index_of(flags, p);
    let at = match crate::rows::index_of(flags, p) {
        Some(i) => i,
        None => flags.len() as int,
    };
    assert(r[at] == flag);
    assert forall|f: FlagRowModel| #[trigger]
        flags.contains(f) && !(f.token == flag.token && f.key == flag.key) implies r.contains(f) by {
        let k = choose|k: int| 0 <= k < flags.len() && flags[k] == f;
        assert(!p(f));
        assert(r[k] == f);
    }
    assert forall|f: FlagRowModel| #[trigger] r.contains(f) implies flags.contains(f) || f == flag by {
        let k = choose|k: int| 0 <= k < r.len() && r[k] == f;
        if k != at {
            assert(flags[k] == f);
        }
    }
    if forall|i: int, j: int|
        #![trigger flags[i], flags[j]]
        0 <= i < j < flags.len() ==> flags[i].token != flags[j].token || flags[i].key != flags[j].key {
        assert forall|f: FlagRowModel| #[trigger]
            r.contains(f) && f.token == flag.token && f.key == flag.key implies f == flag by {
            let k = choose|k: int| 0 <= k < r.len() && r[k] == f;
            if k != at {
                assert(flags[k] == f);
                assert(p(flags[k]));
                if at < flags.len() {
                    assert(p(flags[at]));
                    if k < at {
                        assert(flags[k].key == flags[at].key);
                    } else {
                        assert(flags[at].key == flags[k].key);
                    }
                }
            }
        }
    }
}

} // verus!
