//! Feature flags: which are on for whom, and in which variant.
//!
//! A user's place in the range of the hash never changes, so raising a rollout only adds users.
use vstd::arithmetic::div_mod::*;
use vstd::arithmetic::power2::*;
use vstd::prelude::*;
use vstd::string::*;
use vstd::utf8::encode_utf8;

use crate::capture::event::option_view;
use crate::digest::{sha1, sha1_of};
use crate::json::{alike, Json, JsonMap, JsonValue};
use crate::order::views;
use crate::rows::{
    append, duplicate_all, find, index_of, replace, select_sorted, selected, sorted, Query, Row,
    Sort,
};
use crate::text::{chars_of, copy_option, joined, same, text_at_most, text_le};

verus! {

// ── Definitions ───────────────────────────────────────────────────────────────

/// A percentage, held as the bits of the 64-bit floating-point number that was given.
#[derive(Debug, Clone, Copy, PartialEq, Eq, Structural)]
pub struct Percentage {
    pub bits: u64,
}

/// The part of a variant: its percentage, and the end of its part of the range of the hash, in hundredths.
/// The percentages of the variants before it and its own add up to that end.
#[derive(Debug, Clone, Copy, PartialEq, Eq, Structural)]
pub struct Share {
    pub bits: u64,
    pub below: u128,
}

/// Whether the bits are those of a number of at least a hundred.
pub open spec fn at_least_hundred(bits: u64) -> bool {
    0x4059_0000_0000_0000 <= bits <= 0x7ff0_0000_0000_0000
}

/// Whether the bits are those of a number of at most zero.
pub open spec fn at_most_zero(bits: u64) -> bool {
    bits == 0 || 0x8000_0000_0000_0000 <= bits <= 0xfff0_0000_0000_0000
}

/// Whether the bits are those of a finite number from zero through a hundred.
pub open spec fn percentage_ok(bits: u64) -> bool {
    bits <= 0x4059_0000_0000_0000 || bits == 0x8000_0000_0000_0000
}

/// Whether the bits of a number are those of a finite percentage from zero through a hundred.
pub fn is_percentage(bits: u64) -> (r: bool)
    ensures
        r == percentage_ok(bits),
{
    bits <= 0x4059_0000_0000_0000 || bits == 0x8000_0000_0000_0000
}

/// One variant of a flag. The places of the variants of a flag add up: each ends where the next begins.
pub struct Variant {
    pub key: String,
    pub rollout: Share,
}

/// The mathematical value of a [`Variant`].
pub struct VariantModel {
    pub key: Seq<char>,
    pub rollout: Share,
}

impl View for Variant {
    type V = VariantModel;

    open spec fn view(&self) -> VariantModel {
        VariantModel {
            key: self.key@,
            rollout: self.rollout,
        }
    }
}

impl Row for Variant {
    fn duplicate(&self) -> (r: Self) {
        Variant {
            key: self.key.clone(),
            rollout: self.rollout,
        }
    }
}

/// A condition on a property of a person.
pub struct PropertyFilter {
    pub key: String,
    pub operator: String,
    pub value: Json,
}

/// The mathematical value of a [`PropertyFilter`].
pub struct FilterModel {
    pub key: Seq<char>,
    pub operator: Seq<char>,
    pub value: JsonValue,
}

impl View for PropertyFilter {
    type V = FilterModel;

    open spec fn view(&self) -> FilterModel {
        FilterModel {
            key: self.key@,
            operator: self.operator@,
            value: self.value@,
        }
    }
}

impl Row for PropertyFilter {
    fn duplicate(&self) -> (r: Self) {
        PropertyFilter {
            key: self.key.clone(),
            operator: self.operator.clone(),
            value: self.value.duplicate(),
        }
    }
}

/// Whom a flag is for, and what it carries.
pub struct Conditions {
    pub properties: Vec<PropertyFilter>,
    pub cohort_ids: Vec<String>,
    pub payload: Option<String>,
}

/// The mathematical value of a [`Conditions`].
pub struct ConditionsModel {
    pub properties: Seq<FilterModel>,
    pub cohort_ids: Seq<Seq<char>>,
    pub payload: Option<Seq<char>>,
}

impl View for Conditions {
    type V = ConditionsModel;

    open spec fn view(&self) -> ConditionsModel {
        ConditionsModel {
            properties: views(self.properties@),
            cohort_ids: views(self.cohort_ids@),
            payload: option_view(self.payload),
        }
    }
}

impl Row for Conditions {
    fn duplicate(&self) -> (r: Self) {
        Conditions {
            properties: duplicate_all(&self.properties),
            cohort_ids: duplicate_all(&self.cohort_ids),
            payload: copy_option(&self.payload),
        }
    }
}

/// A flag as it stands for one person.
pub struct EvaluatedFlag {
    pub key: String,
    pub enabled: bool,
    pub variant: Option<String>,
    pub payload: Option<String>,
}

/// The mathematical value of a [`EvaluatedFlag`].
pub struct EvaluatedModel {
    pub key: Seq<char>,
    pub enabled: bool,
    pub variant: Option<Seq<char>>,
    pub payload: Option<Seq<char>>,
}

impl View for EvaluatedFlag {
    type V = EvaluatedModel;

    open spec fn view(&self) -> EvaluatedModel {
        EvaluatedModel {
            key: self.key@,
            enabled: self.enabled,
            variant: option_view(self.variant),
            payload: option_view(self.payload),
        }
    }
}

/// A flag as a list of flags shows it.
pub struct FlagDef {
    pub key: String,
    pub active: bool,
    pub rollout_percentage: Percentage,
    pub variants: Vec<Variant>,
    pub payload: Option<String>,
}

/// The mathematical value of a [`FlagDef`].
pub struct FlagDefModel {
    pub key: Seq<char>,
    pub active: bool,
    pub rollout_percentage: Percentage,
    pub variants: Seq<VariantModel>,
    pub payload: Option<Seq<char>>,
}

impl View for FlagDef {
    type V = FlagDefModel;

    open spec fn view(&self) -> FlagDefModel {
        FlagDefModel {
            key: self.key@,
            active: self.active,
            rollout_percentage: self.rollout_percentage,
            variants: views(self.variants@),
            payload: option_view(self.payload),
        }
    }
}

/// A stored flag.
pub struct FlagRow {
    pub token: String,
    pub key: String,
    pub active: bool,
    pub rollout: Percentage,
    pub variants: Vec<Variant>,
    pub conditions: Option<Conditions>,
}

/// The mathematical value of a [`FlagRow`].
pub struct FlagRowModel {
    pub token: Seq<char>,
    pub key: Seq<char>,
    pub active: bool,
    pub rollout: Percentage,
    pub variants: Seq<VariantModel>,
    pub conditions: Option<ConditionsModel>,
}

/// The value of conditions that may be absent.
pub open spec fn conditions_view(conditions: Option<Conditions>) -> Option<ConditionsModel> {
    match conditions {
        Some(c) => Some(c@),
        None => None,
    }
}

impl View for FlagRow {
    type V = FlagRowModel;

    open spec fn view(&self) -> FlagRowModel {
        FlagRowModel {
            token: self.token@,
            key: self.key@,
            active: self.active,
            rollout: self.rollout,
            variants: views(self.variants@),
            conditions: conditions_view(self.conditions),
        }
    }
}

fn copy_conditions(conditions: &Option<Conditions>) -> (r: Option<Conditions>)
    ensures
        conditions_view(r) == conditions_view(*conditions),
{
    match conditions {
        Some(c) => Some(c.duplicate()),
        None => None,
    }
}

impl Row for FlagRow {
    fn duplicate(&self) -> (r: Self) {
        FlagRow {
            token: self.token.clone(),
            key: self.key.clone(),
            active: self.active,
            rollout: self.rollout,
            variants: duplicate_all(&self.variants),
            conditions: copy_conditions(&self.conditions),
        }
    }
}

/// The flag of a token with a key.
pub open spec fn flag_is(token: Seq<char>, key: Seq<char>) -> spec_fn(FlagRowModel) -> bool {
    |row: FlagRowModel| row.token == token && row.key == key
}

/// Tests [`flag_is`].
pub struct FlagByKey<'a> {
    pub token: &'a str,
    pub key: &'a str,
}

impl<'a> Query<FlagRow> for FlagByKey<'a> {
    open spec fn pred(&self) -> spec_fn(FlagRowModel) -> bool {
        flag_is(self.token@, self.key@)
    }

    fn test(&self, row: &FlagRow) -> (r: bool) {
        same(row.token.as_str(), self.token) && same(row.key.as_str(), self.key)
    }
}

/// The flags of a token.
pub open spec fn flag_of(token: Seq<char>) -> spec_fn(FlagRowModel) -> bool {
    |row: FlagRowModel| row.token == token
}

/// Tests [`flag_of`].
pub struct FlagOfToken<'a> {
    pub token: &'a str,
}

impl<'a> Query<FlagRow> for FlagOfToken<'a> {
    open spec fn pred(&self) -> spec_fn(FlagRowModel) -> bool {
        flag_of(self.token@)
    }

    fn test(&self, row: &FlagRow) -> (r: bool) {
        same(row.token.as_str(), self.token)
    }
}

/// The flags of a token that are active.
pub open spec fn flag_active(token: Seq<char>) -> spec_fn(FlagRowModel) -> bool {
    |row: FlagRowModel| row.token == token && row.active
}

/// Tests [`flag_active`].
pub struct ActiveFlag<'a> {
    pub token: &'a str,
}

impl<'a> Query<FlagRow> for ActiveFlag<'a> {
    open spec fn pred(&self) -> spec_fn(FlagRowModel) -> bool {
        flag_active(self.token@)
    }

    fn test(&self, row: &FlagRow) -> (r: bool) {
        same(row.token.as_str(), self.token) && row.active
    }
}

/// Flags by key.
pub open spec fn flag_order() -> spec_fn(FlagRowModel, FlagRowModel) -> bool {
    |a: FlagRowModel, b: FlagRowModel| a.key != b.key && text_le(a.key, b.key)
}

/// Decides [`flag_order`].
pub struct FlagOrder;

impl Sort<FlagRow> for FlagOrder {
    open spec fn before(&self) -> spec_fn(FlagRowModel, FlagRowModel) -> bool {
        flag_order()
    }

    fn is_before(&self, a: &FlagRow, b: &FlagRow) -> (r: bool) {
        !same(a.key.as_str(), b.key.as_str()) && text_at_most(a.key.as_str(), b.key.as_str())
    }
}

// ── Bucketing ─────────────────────────────────────────────────────────────────

/// The number of the first 60 bits of a digest.
pub open spec fn first_60(digest: Seq<u8>) -> nat {
    let high = (((((((digest[0] as nat * 256 + digest[1] as nat) * 256 + digest[2] as nat) * 256
        + digest[3] as nat) * 256 + digest[4] as nat) * 256 + digest[5] as nat) * 256
        + digest[6] as nat) * 16) as nat;
    high + (digest[7] / 16) as nat
}

/// Doubling a unit halves the quotient.
pub proof fn lemma_doubling(n: nat, unit: nat)
    requires
        unit > 0,
        n / unit >= 0x20_0000_0000_0000,
    ensures
        n / (2 * unit) < n / unit,
        2 * unit <= n,
{
    assert(n / (2 * unit) < n / unit && 2 * unit <= n) by (nonlinear_arith)
        requires
            unit > 0,
            n / unit >= 0x20_0000_0000_0000,
    ;
}

/// The unit in the last of 53 bits of a number, starting the search at a unit.
pub open spec fn unit_of(n: nat, unit: nat) -> nat
    decreases n / unit,
    when unit > 0
{
    if n / unit < 0x20_0000_0000_0000 {
        unit
    } else {
        proof {
            lemma_doubling(n, unit);
        }
        unit_of(n, 2 * unit)
    }
}

/// The multiple of a unit that is nearest to a number; of two, the even one.
pub open spec fn nearest(n: nat, unit: nat) -> nat {
    let q = n / unit;
    let r = n % unit;
    if 2 * r < unit || (2 * r == unit && q % 2 == 0) {
        q * unit
    } else {
        (q + 1) * unit
    }
}

/// A number rounded to 53 significant bits, to the nearest and of two to the even.
pub open spec fn round53(n: nat) -> nat {
    nearest(n, unit_of(n, 1))
}

/// What a flag, a person and a salt are hashed from.
pub open spec fn hash_input(key: Seq<char>, distinct_id: Seq<char>, salt: Seq<char>) -> Seq<u8> {
    encode_utf8(key + "."@ + distinct_id + salt)
}

/// The place of a person in the range of the hash, for a flag and a salt.
pub open spec fn place_of(key: Seq<char>, distinct_id: Seq<char>, salt: Seq<char>) -> nat {
    first_60(sha1_of(hash_input(key, distinct_id, salt)))
}

/// A number over another, rounded up.
pub open spec fn ceiling(n: nat, d: nat) -> nat {
    ((n + d - 1) / d as int) as nat
}

/// A number above zero, counted in the smallest: as a multiple of two to the power of -1074.
pub open spec fn smallest_units(bits: u64) -> nat {
    let exponent = bits / 0x10_0000_0000_0000;
    let fraction = (bits % 0x10_0000_0000_0000) as nat;
    if exponent == 0 {
        fraction
    } else {
        (0x10_0000_0000_0000 + fraction) * pow2((exponent - 1) as nat)
    }
}

/// How many places of the range of the hash, which is two to the 60, lie below a percentage of it: the
/// percentage times two to the 60 over a hundred, rounded up.
pub open spec fn rollout_below(bits: u64) -> nat {
    if at_least_hundred(bits) {
        0x1000_0000_0000_0000
    } else if bits == 0 || bits > 0x7ff0_0000_0000_0000 {
        0
    } else {
        ceiling(smallest_units(bits), 100 * pow2(1014))
    }
}

/// Whether a place is inside a rollout.
pub open spec fn inside(place: nat, rollout: Percentage) -> bool {
    at_least_hundred(rollout.bits) || (!at_most_zero(rollout.bits) && place < rollout_below(rollout.bits))
}

/// Whether a percentage is at most another; neither is a number that is none. Numbers above zero are in the
/// order of their bits.
pub open spec fn percentage_at_most(p: u64, q: u64) -> bool {
    at_most_zero(p) || (p <= q && q <= 0x7ff0_0000_0000_0000)
}

/// A ceiling is the one number that the quotient lies at most one below.
proof fn lemma_ceiling_is(n: nat, d: nat, q: int)
    requires
        d > 0,
        (q - 1) * d < n <= q * d,
    ensures
        ceiling(n, d) == q,
{
    let r = n + d - 1 - q * d;
    assert((q - 1) * d == q * d - d) by (nonlinear_arith);
    lemma_fundamental_div_mod_converse(n + d - 1, d as int, q, r);
    assert(q >= 0) by (nonlinear_arith)
        requires
            d > 0,
            0 <= n <= q * d,
    ;
}

/// What a ceiling is.
proof fn lemma_ceiling_bounds(n: nat, d: nat)
    requires
        d > 0,
    ensures
        (ceiling(n, d) - 1) * d < n <= ceiling(n, d) * d,
{
    let x = n + d - 1;
    let q = x / d as int;
    lemma_fundamental_div_mod(x, d as int);
    lemma_mod_bound(x, d as int);
    lemma_div_pos_is_pos(x, d as int);
    assert((q - 1) * d == q * d - d) by (nonlinear_arith);
    assert(d * q == q * d) by (nonlinear_arith);
}

/// A common factor does not change a ceiling.
proof fn lemma_ceiling_cancels(n: nat, d: nat, factor: nat)
    requires
        d > 0,
        factor > 0,
    ensures
        ceiling(n * factor, d * factor) == ceiling(n, d),
{
    lemma_ceiling_bounds(n, d);
    let q = ceiling(n, d) as int;
    assert(d * factor > 0 && (q - 1) * (d * factor) < n * factor <= q * (d * factor)) by (nonlinear_arith)
        requires
            d > 0,
            factor > 0,
            (q - 1) * d < n <= q * d,
    ;
    lemma_ceiling_is(n * factor, d * factor, q);
}

proof fn lemma_ceiling_grows(m: nat, n: nat, d: nat)
    requires
        m <= n,
        d > 0,
    ensures
        ceiling(m, d) <= ceiling(n, d),
{
    lemma_div_is_ordered(m + d - 1, n + d - 1, d as int);
}

proof fn lemma_units_grow(p: u64, q: u64)
    requires
        p <= q,
    ensures
        smallest_units(p) <= smallest_units(q),
    decreases q - p,
{
    if p < q {
        let before = (q - 1) as u64;
        lemma_units_grow(p, before);
        let exponent = before / 0x10_0000_0000_0000;
        let fraction = before % 0x10_0000_0000_0000;
        if fraction == 0xf_ffff_ffff_ffff {
            assert(q / 0x10_0000_0000_0000 == exponent + 1);
            assert(q % 0x10_0000_0000_0000 == 0);
            lemma2_to64();
            if exponent > 0 {
                lemma_pow2_unfold(exponent as nat);
                let unit = pow2((exponent - 1) as nat);
                let m: nat = 0x1f_ffff_ffff_ffff;
                assert(smallest_units(before) == m * unit);
                assert(smallest_units(q) == 0x10_0000_0000_0000 * (2 * unit));
                assert(m * unit <= 0x10_0000_0000_0000 * (2 * unit)) by (nonlinear_arith)
                    requires
                        m == 0x1f_ffff_ffff_ffff,
                ;
            } else {
                assert(smallest_units(q) == 0x10_0000_0000_0000 * pow2(0));
            }
        } else {
            assert(q / 0x10_0000_0000_0000 == exponent);
            assert(q % 0x10_0000_0000_0000 == fraction + 1);
            if exponent > 0 {
                let unit = pow2((exponent - 1) as nat);
                let m = (0x10_0000_0000_0000 + fraction) as nat;
                assert(smallest_units(before) == m * unit);
                assert(smallest_units(q) == (m + 1) * unit);
                assert(m * unit <= (m + 1) * unit) by (nonlinear_arith);
            }
        }
    }
}

/// Raising a rollout only ever adds people: whoever is inside one is inside every larger one.
pub proof fn law_raising_a_rollout_only_adds(place: nat, small: Percentage, large: Percentage)
    requires
        percentage_at_most(small.bits, large.bits),
        inside(place, small),
    ensures
        inside(place, large),
{
    if !at_least_hundred(large.bits) {
        lemma_units_grow(small.bits, large.bits);
        lemma_pow2_pos(1014);
        lemma_ceiling_grows(
            smallest_units(small.bits),
            smallest_units(large.bits),
            100 * pow2(1014),
        );
    }
}

fn power_of_two(k: u32) -> (r: u128)
    requires
        k <= 64,
    ensures
        r == pow2(k as nat),
        1 <= r <= 0x1_0000_0000_0000_0000,
        k <= 14 ==> r <= 16384,
        k >= 53 ==> r >= 0x20_0000_0000_0000,
{
    let mut out: u128 = 1;
    let mut i: u32 = 0;
    proof {
        lemma2_to64();
        lemma_pow2_adds(32, 21);
        if k < 64 {
            lemma_pow2_strictly_increases(k as nat, 64);
        }
        if k < 14 {
            lemma_pow2_strictly_increases(k as nat, 14);
        }
        if k > 53 {
            lemma_pow2_strictly_increases(53, k as nat);
        }
    }
    while i < k
        invariant
            i <= k <= 64,
            out == pow2(i as nat),
            pow2(k as nat) <= 0x1_0000_0000_0000_0000,
        decreases k - i,
    {
        proof {
            lemma_pow2_unfold((i + 1) as nat);
            if i + 1 < k {
                lemma_pow2_strictly_increases((i + 1) as nat, k as nat);
            }
        }
        out = 2 * out;
        i += 1;
    }
    proof {
        lemma_pow2_pos(k as nat);
    }
    out
}

/// The ceiling of a number with 53 significant bits that is far below one place.
proof fn lemma_tiny_percentage(bits: u64)
    requires
        0 < bits < 0x3c30_0000_0000_0000,
    ensures
        rollout_below(bits) == 1,
{
    let top: u64 = 0x3c30_0000_0000_0000;
    lemma_units_grow(1, bits);
    lemma_units_grow(bits, top);
    assert(smallest_units(1) == 1);
    assert(top / 0x10_0000_0000_0000 == 963 && top % 0x10_0000_0000_0000 == 0);
    lemma_pow2_adds(962, 52);
    lemma2_to64();
    lemma_pow2_adds(32, 20);
    let unit = pow2(962);
    assert(0x10_0000_0000_0000 * unit <= 100 * (unit * 0x10_0000_0000_0000)) by (nonlinear_arith);
    lemma_ceiling_is(smallest_units(bits), 100 * pow2(1014), 1);
}

/// How many places of the range of the hash lie below a percentage.
pub fn places_below(percentage: Percentage) -> (r: u64)
    ensures
        r == rollout_below(percentage.bits),
{
    let bits: u64 = percentage.bits;
    if bits == 0 || bits > 0x7ff0_0000_0000_0000 {
        return 0;
    }
    if bits >= 0x4059_0000_0000_0000 {
        return 0x1000_0000_0000_0000;
    }
    if bits < 0x3c30_0000_0000_0000 {
        proof {
            lemma_tiny_percentage(bits);
        }
        return 1;
    }
    let exponent: u64 = bits / 0x10_0000_0000_0000;
    let m: u128 = 0x10_0000_0000_0000 + (bits % 0x10_0000_0000_0000) as u128;
    if exponent >= 1015 {
        let unit: u128 = power_of_two((exponent - 1015) as u32);
        proof {
            lemma_pow2_adds((exponent - 1015) as nat, 1014);
            lemma_pow2_pos(1014);
            let factor = pow2(1014);
            assert(m * (unit * factor) == (m * unit) * factor) by (nonlinear_arith);
            lemma_ceiling_cancels((m * unit) as nat, 100, factor);
            assert(m * unit <= 0x20_0000_0000_0000 * 16384) by (nonlinear_arith)
                requires
                    m <= 0x20_0000_0000_0000,
                    unit <= 16384,
            ;
        }
        ((m * unit + 99) / 100) as u64
    } else {
        let unit: u128 = power_of_two((1015 - exponent) as u32);
        proof {
            let low = (exponent - 1) as nat;
            lemma_pow2_adds((1015 - exponent) as nat, low);
            lemma_pow2_pos(low);
            let factor = pow2(low);
            assert(100 * (unit * factor) == (100 * unit) * factor) by (nonlinear_arith);
            lemma_ceiling_cancels(m as nat, (100 * unit) as nat, factor);
            assert(smallest_units(bits) == m * factor);
            let d = 100 * unit as int;
            assert((m + d - 1) / d <= 0x40_0000_0000_0000) by {
                lemma_div_is_ordered(m + d - 1, 0x40_0000_0000_0000 * d, d);
                lemma_div_multiples_vanish(0x40_0000_0000_0000, d);
                assert(m + d - 1 <= 0x40_0000_0000_0000 * d) by (nonlinear_arith)
                    requires
                        m <= 0x20_0000_0000_0000,
                        d >= 1,
                ;
            }
        }
        ((m + (100 * unit - 1)) / (100 * unit)) as u64
    }
}

/// A full rollout takes everyone, and an empty one nobody.
pub proof fn law_rollout_ends(place: nat, rollout: Percentage)
    ensures
        at_least_hundred(rollout.bits) ==> inside(place, rollout),
        at_most_zero(rollout.bits) ==> !inside(place, rollout),
{
}

/// A rollout takes exactly the places of its part of the range: those whose fraction of two to the 60 lies
/// below a hundredth of the percentage.
pub proof fn law_a_rollout_takes_its_part(place: nat, rollout: Percentage)
    requires
        0 < rollout.bits < 0x4059_0000_0000_0000,
    ensures
        inside(place, rollout) <==> place * (100 * pow2(1014)) < smallest_units(rollout.bits),
{
    let n = smallest_units(rollout.bits);
    let d = 100 * pow2(1014);
    lemma_pow2_pos(1014);
    lemma_ceiling_bounds(n, d);
    let q = ceiling(n, d);
    if place < q {
        assert(place * d <= (q - 1) * d) by (nonlinear_arith)
            requires
                place <= q - 1,
        ;
    } else {
        assert(place * d >= q * d) by (nonlinear_arith)
            requires
                place >= q,
        ;
    }
}

/// The first variant whose end a place lies below, or else the last.
pub open spec fn variant_at(place: nat, variants: Seq<VariantModel>) -> Seq<char>
    decreases variants.len(),
{
    if variants.len() == 0 {
        Seq::empty()
    } else if variants.len() == 1 || place < variants[0].rollout.below {
        variants[0].key
    } else {
        variant_at(place, variants.drop_first())
    }
}

/// A flag with variants always gives one of them.
pub proof fn law_a_variant_is_always_chosen(place: nat, variants: Seq<VariantModel>)
    requires
        variants.len() > 0,
    ensures
        exists|i: int|
            0 <= i < variants.len() && (#[trigger] variants[i]).key == variant_at(place, variants),
    decreases variants.len(),
{
    if variants.len() == 1 || place < variants[0].rollout.below {
        assert(variants[0].key == variant_at(place, variants));
    } else {
        let rest = variants.drop_first();
        law_a_variant_is_always_chosen(place, rest);
        let i = choose|i: int|
            0 <= i < rest.len() && (#[trigger] rest[i]).key == variant_at(place, rest);
        assert(variants[i + 1].key == variant_at(place, variants));
    }
}

fn rounded(n: u128) -> (r: u128)
    requires
        n <= 0x1_0000_0000_0000_0000_0000_0000,
    ensures
        r == round53(n as nat),
{
    let mut unit: u128 = 1;
    while n / unit >= 0x20_0000_0000_0000
        invariant
            1 <= unit <= n + 1,
            n <= 0x1_0000_0000_0000_0000_0000_0000,
            unit_of(n as nat, unit as nat) == unit_of(n as nat, 1),
        decreases n / unit,
    {
        proof {
            lemma_doubling(n as nat, unit as nat);
        }
        unit = 2 * unit;
    }
    let q: u128 = n / unit;
    let rest: u128 = n % unit;
    assert(q * unit <= n && rest < unit) by (nonlinear_arith)
        requires
            unit > 0,
            q == n / unit,
            rest == n % unit,
    ;
    assert((q + 1) * unit == q * unit + unit) by (nonlinear_arith);
    if 2 * rest < unit || (2 * rest == unit && q % 2 == 0) {
        q * unit
    } else {
        (q + 1) * unit
    }
}

proof fn lemma_rounding_is_small(n: nat)
    requires
        n <= 0x1000_0000_0000_0000,
    ensures
        round53(n) <= 0x4000_0000_0000_0000,
{
    let unit = unit_of(n, 1);
    lemma_unit_bound(n, 1);
    assert(nearest(n, unit) <= n + unit) by (nonlinear_arith)
        requires
            unit > 0,
            nearest(n, unit) == (n / unit) * unit || nearest(n, unit) == (n / unit + 1) * unit,
    ;
}

proof fn lemma_unit_bound(n: nat, unit: nat)
    requires
        1 <= unit <= n + 1,
    ensures
        1 <= unit_of(n, unit) <= n + 1,
    decreases n / unit,
{
    if n / unit >= 0x20_0000_0000_0000 {
        lemma_doubling(n, unit);
        lemma_unit_bound(n, 2 * unit);
    }
}

/// The place of a person in the range of the hash, for a flag and a salt.
pub fn hash_place(key: &str, distinct_id: &str, salt: &str) -> (r: u64)
    ensures
        r == place_of(key@, distinct_id@, salt@),
        r < 0x1000_0000_0000_0000,
{
    let mut input = joined(key, ".");
    input.append(distinct_id);
    input.append(salt);
    let digest = sha1(input.as_str().as_bytes());
    let high: u64 = (((((((digest[0] as u64 * 256 + digest[1] as u64) * 256 + digest[2] as u64)
        * 256 + digest[3] as u64) * 256 + digest[4] as u64) * 256 + digest[5] as u64) * 256
        + digest[6] as u64) * 16);
    let number: u64 = high + (digest[7] / 16) as u64;
    assert(number == first_60(digest@));
    number
}

/// Whether a place of the range of the hash is inside a rollout.
pub fn place_inside(place: u64, rollout: Percentage) -> (r: bool)
    ensures
        r == inside(place as nat, rollout),
{
    if 0x4059_0000_0000_0000 <= rollout.bits && rollout.bits <= 0x7ff0_0000_0000_0000 {
        return true;
    }
    if rollout.bits == 0 || (0x8000_0000_0000_0000 <= rollout.bits && rollout.bits
        <= 0xfff0_0000_0000_0000) {
        return false;
    }
    place < places_below(rollout)
}

/// Whether a person is inside the rollout of a flag.
pub fn in_rollout(key: &str, distinct_id: &str, rollout: Percentage) -> (r: bool)
    ensures
        r == inside(first_60(sha1_of(hash_input(key@, distinct_id@, ""@))), rollout),
{
    place_inside(hash_place(key, distinct_id, ""), rollout)
}

/// The place of a person among the variants of a flag, in hundredths, rounded as the ends of the variants
/// are: to 53 significant bits.
pub open spec fn variant_place(key: Seq<char>, distinct_id: Seq<char>) -> nat {
    round53(100 * round53(place_of(key, distinct_id, "variant"@)))
}

/// The variant of a flag that a person gets. The salt makes it independent of the rollout.
pub fn pick_variant(key: &str, distinct_id: &str, variants: &Vec<Variant>) -> (r: String)
    ensures
        r@ == variant_at(variant_place(key@, distinct_id@), views(variants@)),
{
    let hashed: u64 = hash_place(key, distinct_id, "variant");
    proof {
        lemma_rounding_is_small(hashed as nat);
    }
    let place: u128 = rounded(100 * rounded(hashed as u128));
    let ghost all = views(variants@);
    if variants.len() == 0 {
        let out = String::new();
        assert(out@ =~= Seq::<char>::empty());
        return out;
    }
    let mut i: usize = 0;
    assert(all.skip(0) =~= all);
    while variants.len() - i > 1
        invariant
            i < variants.len(),
            all == views(variants@),
            place == variant_place(key@, distinct_id@),
            variant_at(place as nat, all) == variant_at(place as nat, all.skip(i as int)),
        decreases variants.len() - i,
    {
        assert(all.skip(i as int)[0] == variants@[i as int]@);
        if place < variants[i].rollout.below {
            return variants[i].key.clone();
        }
        assert(all.skip(i as int).drop_first() =~= all.skip(i + 1));
        i += 1;
    }
    assert(all.skip(i as int)[0] == variants@[i as int]@);
    variants[i].key.clone()
}

// ── Conditions ────────────────────────────────────────────────────────────────

/// A text in lower case, as Unicode has it.
pub uninterp spec fn lowercase_of(text: Seq<char>) -> Seq<char>;

/// `str::to_lowercase`: a function of the text.
#[verifier::external_body]
fn lowercase(text: &str) -> (r: String)
    ensures
        r@ == lowercase_of(text@),
{
    text.to_lowercase()
}

/// Whether a text holds another.
pub open spec fn holds_text(text: Seq<char>, part: Seq<char>) -> bool {
    exists|i: int|
        0 <= i <= text.len() - part.len() && #[trigger] text.subrange(i, i + part.len()) == part
}

/// Decides [`holds_text`].
pub fn contains(text: &str, part: &str) -> (r: bool)
    ensures
        r == holds_text(text@, part@),
{
    let x = chars_of(text);
    let y = chars_of(part);
    let mut i: usize = 0;
    while i <= x.len() && x.len() - i >= y.len()
        invariant
            x@ == text@,
            y@ == part@,
            i <= x.len(),
            forall|k: int| 0 <= k < i ==> #[trigger] text@.subrange(k, k + part@.len()) != part@,
        decreases x.len() + 1 - i,
    {
        let mut j: usize = 0;
        while j < y.len() && x[i + j] == y[j]
            invariant
                i + y.len() <= x.len(),
                j <= y.len(),
                forall|k: int| 0 <= k < j ==> x@[i + k] == y@[k],
            decreases y.len() - j,
        {
            j += 1;
        }
        if j == y.len() {
            assert(text@.subrange(i as int, i + part@.len()) =~= part@);
            return true;
        }
        assert(text@.subrange(i as int, i + part@.len())[j as int] != part@[j as int]);
        i += 1;
    }
    false
}

/// How two values compare as numbers.
#[derive(Debug, Clone, Copy, PartialEq, Eq, Structural)]
pub enum NumberOrder {
    Less,
    Equal,
    Greater,
    /// One of them is no number.
    Incomparable,
}

/// How a person's value under a key compares, as a number, with an expected value.
pub struct NumberFact {
    pub key: String,
    pub expected: Json,
    pub order: NumberOrder,
}

/// Integers up to this magnitude compare the same as floating-point numbers and as integers.
pub open spec fn small_integer(value: JsonValue) -> Option<i64> {
    match value {
        JsonValue::Number(_, Some(n)) => if -0x20_0000_0000_0000 <= n <= 0x20_0000_0000_0000 {
            Some(n)
        } else {
            None
        },
        _ => None,
    }
}

/// What the facts say of a key and an expected value.
pub open spec fn stated_order(
    facts: Seq<NumberFact>,
    key: Seq<char>,
    expected: JsonValue,
) -> NumberOrder
    decreases facts.len(),
{
    if facts.len() == 0 {
        NumberOrder::Incomparable
    } else if facts[0].key@ == key && alike(facts[0].expected@, expected) {
        facts[0].order
    } else {
        stated_order(facts.drop_first(), key, expected)
    }
}

/// How a person's value compares, as a number, with an expected value. What integers do not settle, the
/// facts do.
pub open spec fn order_of(
    facts: Seq<NumberFact>,
    key: Seq<char>,
    value: JsonValue,
    expected: JsonValue,
) -> NumberOrder {
    match (small_integer(value), small_integer(expected)) {
        (Some(a), Some(b)) => if a < b {
            NumberOrder::Less
        } else if a > b {
            NumberOrder::Greater
        } else {
            NumberOrder::Equal
        },
        _ => stated_order(facts, key, expected),
    }
}

/// Whether a person's properties meet a filter.
pub open spec fn filter_met(
    properties: Map<Seq<char>, JsonValue>,
    filter: FilterModel,
    facts: Seq<NumberFact>,
) -> bool {
    if !properties.contains_key(filter.key) {
        filter.operator == "is_not"@
    } else {
        let value = properties[filter.key];
        if filter.operator == "exact"@ {
            alike(value, filter.value)
        } else if filter.operator == "is_not"@ {
            !alike(value, filter.value)
        } else if filter.operator == "icontains"@ {
            match (value, filter.value) {
                (JsonValue::Text(a), JsonValue::Text(b)) => holds_text(
                    lowercase_of(a),
                    lowercase_of(b),
                ),
                _ => false,
            }
        } else if filter.operator == "gt"@ {
            order_of(facts, filter.key, value, filter.value) == NumberOrder::Greater
        } else if filter.operator == "lt"@ {
            order_of(facts, filter.key, value, filter.value) == NumberOrder::Less
        } else {
            false
        }
    }
}

fn small(value: &Json) -> (r: Option<i64>)
    ensures
        r == small_integer(value@),
{
    match value.as_i64() {
        Some(n) => if -0x20_0000_0000_0000 <= n && n <= 0x20_0000_0000_0000 {
            Some(n)
        } else {
            None
        },
        None => None,
    }
}

fn number_order(facts: &Vec<NumberFact>, key: &str, value: &Json, expected: &Json) -> (r: NumberOrder)
    ensures
        r == order_of(facts@, key@, value@, expected@),
{
    if let (Some(a), Some(b)) = (small(value), small(expected)) {
        return if a < b {
            NumberOrder::Less
        } else if a > b {
            NumberOrder::Greater
        } else {
            NumberOrder::Equal
        };
    }
    let mut i: usize = 0;
    assert(facts@.skip(0) =~= facts@);
    while i < facts.len()
        invariant
            i <= facts.len(),
            stated_order(facts@, key@, expected@) == stated_order(
                facts@.skip(i as int),
                key@,
                expected@,
            ),
            order_of(facts@, key@, value@, expected@) == stated_order(facts@, key@, expected@),
        decreases facts.len() - i,
    {
        assert(facts@.skip(i as int)[0] == facts@[i as int]);
        if same(facts[i].key.as_str(), key) && facts[i].expected.same(expected) {
            return facts[i].order;
        }
        assert(facts@.skip(i as int).drop_first() =~= facts@.skip(i + 1));
        i += 1;
    }
    NumberOrder::Incomparable
}

/// Decides whether a person's properties meet a filter.
pub fn match_filter(
    properties: &JsonMap,
    filter: &PropertyFilter,
    facts: &Vec<NumberFact>,
) -> (r: bool)
    ensures
        r == filter_met(properties@, filter@, facts@),
{
    let operator = filter.operator.as_str();
    match properties.get(filter.key.as_str()) {
        None => same(operator, "is_not"),
        Some(value) => {
            if same(operator, "exact") {
                value.same(&filter.value)
            } else if same(operator, "is_not") {
                !value.same(&filter.value)
            } else if same(operator, "icontains") {
                match (value.as_str(), filter.value.as_str()) {
                    (Some(a), Some(b)) => contains(
                        lowercase(a.as_str()).as_str(),
                        lowercase(b.as_str()).as_str(),
                    ),
                    _ => false,
                }
            } else if same(operator, "gt") {
                number_order(facts, filter.key.as_str(), value, &filter.value)
                    == NumberOrder::Greater
            } else if same(operator, "lt") {
                number_order(facts, filter.key.as_str(), value, &filter.value)
                    == NumberOrder::Less
            } else {
                false
            }
        },
    }
}

// ── Evaluation ────────────────────────────────────────────────────────────────

/// Whether a person meets the conditions of a flag: every filter, and membership of every cohort.
pub open spec fn conditions_met(
    conditions: Option<ConditionsModel>,
    properties: Map<Seq<char>, JsonValue>,
    cohorts: Seq<Seq<char>>,
    facts: Seq<NumberFact>,
) -> bool {
    match conditions {
        None => true,
        Some(c) => (forall|i: int|
            0 <= i < c.properties.len() ==> filter_met(
                properties,
                #[trigger] c.properties[i],
                facts,
            )) && (forall|i: int|
            0 <= i < c.cohort_ids.len() ==> cohorts.contains(#[trigger] c.cohort_ids[i])),
    }
}

/// A flag as it stands for a person.
pub open spec fn evaluated(
    flag: FlagRowModel,
    bucket_key: Seq<char>,
    properties: Map<Seq<char>, JsonValue>,
    cohorts: Seq<Seq<char>>,
    facts: Seq<NumberFact>,
) -> EvaluatedModel {
    let payload = match flag.conditions {
        Some(c) => c.payload,
        None => None,
    };
    let enabled = conditions_met(flag.conditions, properties, cohorts, facts) && inside(
        place_of(flag.key, bucket_key, ""@),
        flag.rollout,
    );
    EvaluatedModel {
        key: flag.key,
        enabled,
        variant: if enabled && flag.variants.len() > 0 {
            Some(variant_at(variant_place(flag.key, bucket_key), flag.variants))
        } else {
            None
        },
        payload,
    }
}

/// The flags of a token, as a list shows them.
pub open spec fn listed(flags: Seq<FlagRowModel>, token: Seq<char>) -> Seq<FlagDefModel> {
    sorted(selected(flags, flag_of(token)), flag_order()).map_values(
        |f: FlagRowModel|
            FlagDefModel {
                key: f.key,
                active: f.active,
                rollout_percentage: f.rollout,
                variants: f.variants,
                payload: match f.conditions {
                    Some(c) => c.payload,
                    None => None,
                },
            },
    )
}

/// The active flags of a token as they stand for a person.
pub open spec fn all_evaluated(
    flags: Seq<FlagRowModel>,
    token: Seq<char>,
    bucket_key: Seq<char>,
    properties: Map<Seq<char>, JsonValue>,
    cohorts: Seq<Seq<char>>,
    facts: Seq<NumberFact>,
) -> Seq<EvaluatedModel> {
    sorted(selected(flags, flag_active(token)), flag_order()).map_values(
        |f: FlagRowModel| evaluated(f, bucket_key, properties, cohorts, facts),
    )
}

/// The flags with a definition in place: instead of one with the same token and key, or else as the last.
pub open spec fn upserted(flags: Seq<FlagRowModel>, flag: FlagRowModel) -> Seq<FlagRowModel> {
    match index_of(flags, flag_is(flag.token, flag.key)) {
        Some(i) => flags.update(i, flag),
        None => flags.push(flag),
    }
}

fn meets_conditions(
    conditions: &Option<Conditions>,
    properties: &JsonMap,
    cohorts: &Vec<String>,
    facts: &Vec<NumberFact>,
) -> (r: bool)
    ensures
        r == conditions_met(conditions_view(*conditions), properties@, views(cohorts@), facts@),
{
    let c = match conditions {
        Some(c) => c,
        None => {
            return true;
        },
    };
    let ghost model = c@;
    let mut i: usize = 0;
    while i < c.properties.len()
        invariant
            i <= c.properties.len(),
            model == c@,
            conditions_view(*conditions) == Some(model),
            forall|j: int|
                0 <= j < i ==> filter_met(properties@, #[trigger] model.properties[j], facts@),
        decreases c.properties.len() - i,
    {
        assert(model.properties[i as int] == c.properties@[i as int]@);
        if !match_filter(properties, &c.properties[i], facts) {
            return false;
        }
        i += 1;
    }
    let mut k: usize = 0;
    while k < c.cohort_ids.len()
        invariant
            k <= c.cohort_ids.len(),
            model == c@,
            conditions_view(*conditions) == Some(model),
            forall|j: int|
                0 <= j < model.properties.len() ==> filter_met(
                    properties@,
                    #[trigger] model.properties[j],
                    facts@,
                ),
            forall|j: int|
                0 <= j < k ==> views(cohorts@).contains(#[trigger] model.cohort_ids[j]),
        decreases c.cohort_ids.len() - k,
    {
        assert(model.cohort_ids[k as int] == c.cohort_ids@[k as int]@);
        if !lists(cohorts, c.cohort_ids[k].as_str()) {
            return false;
        }
        k += 1;
    }
    true
}

fn lists(texts: &Vec<String>, text: &str) -> (r: bool)
    ensures
        r == views(texts@).contains(text@),
{
    let mut i: usize = 0;
    while i < texts.len()
        invariant
            i <= texts.len(),
            forall|j: int| 0 <= j < i ==> (#[trigger] views(texts@)[j]) != text@,
        decreases texts.len() - i,
    {
        assert(views(texts@)[i as int] == texts@[i as int]@);
        if same(texts[i].as_str(), text) {
            return true;
        }
        i += 1;
    }
    false
}

/// A flag as it stands for a person. Given are the person's cohorts and what is known of their numbers.
pub fn evaluate_one(
    flag: &FlagRow,
    bucket_key: &str,
    properties: &JsonMap,
    cohorts: &Vec<String>,
    facts: &Vec<NumberFact>,
) -> (r: EvaluatedFlag)
    ensures
        r@ == evaluated(flag@, bucket_key@, properties@, views(cohorts@), facts@),
{
    let payload = match &flag.conditions {
        Some(c) => copy_option(&c.payload),
        None => None,
    };
    if !meets_conditions(&flag.conditions, properties, cohorts, facts) || !in_rollout(
        flag.key.as_str(),
        bucket_key,
        flag.rollout,
    ) {
        return EvaluatedFlag { key: flag.key.clone(), enabled: false, variant: None, payload };
    }
    let variant = if flag.variants.len() == 0 {
        None
    } else {
        Some(pick_variant(flag.key.as_str(), bucket_key, &flag.variants))
    };
    EvaluatedFlag { key: flag.key.clone(), enabled: true, variant, payload }
}

/// The stored flags of all tokens.
pub struct FlagStore {
    pub flags: Vec<FlagRow>,
}

impl View for FlagStore {
    type V = Seq<FlagRowModel>;

    open spec fn view(&self) -> Seq<FlagRowModel> {
        views(self.flags@)
    }
}

impl FlagStore {
    /// A store without flags.
    pub fn in_memory() -> (r: FlagStore)
        ensures
            r@ == Seq::<FlagRowModel>::empty(),
    {
        let r = FlagStore { flags: Vec::new() };
        assert(r@ =~= Seq::<FlagRowModel>::empty());
        r
    }

    /// Puts a flag without variants and conditions in place.
    pub fn upsert(&mut self, token: &str, key: &str, active: bool, rollout: Percentage)
        ensures
            final(self)@ == upserted(
                old(self)@,
                (FlagRowModel {
                    token: token@,
                    key: key@,
                    active,
                    rollout,
                    variants: Seq::empty(),
                    conditions: None,
                }),
            ),
    {
        let variants: Vec<Variant> = Vec::new();
        assert(views(variants@) =~= Seq::<VariantModel>::empty());
        self.upsert_full(token, key, active, rollout, variants, None);
    }

    /// Puts a flag in place.
    pub fn upsert_full(
        &mut self,
        token: &str,
        key: &str,
        active: bool,
        rollout: Percentage,
        variants: Vec<Variant>,
        conditions: Option<Conditions>,
    )
        ensures
            final(self)@ == upserted(
                old(self)@,
                (FlagRowModel {
                    token: token@,
                    key: key@,
                    active,
                    rollout,
                    variants: views(variants@),
                    conditions: conditions_view(conditions),
                }),
            ),
    {
        let row = FlagRow {
            token: token.to_owned(),
            key: key.to_owned(),
            active,
            rollout,
            variants,
            conditions,
        };
        match find(&self.flags, &FlagByKey { token, key }) {
            Some(i) => {
                replace(&mut self.flags, i, row);
            },
            None => {
                append(&mut self.flags, row);
            },
        }
    }

    /// Lists the flags of a token by key.
    pub fn list(&self, token: &str) -> (r: Vec<FlagDef>)
        ensures
            views(r@) == listed(self@, token@),
    {
        let rows = select_sorted(&self.flags, &FlagOfToken { token }, &FlagOrder);
        let mut out: Vec<FlagDef> = Vec::new();
        let mut i: usize = 0;
        while i < rows.len()
            invariant
                i <= rows.len(),
                out@.len() == i,
                forall|j: int|
                    0 <= j < i ==> (#[trigger] out@[j])@ == (FlagDefModel {
                        key: rows@[j]@.key,
                        active: rows@[j]@.active,
                        rollout_percentage: rows@[j]@.rollout,
                        variants: rows@[j]@.variants,
                        payload: match rows@[j]@.conditions {
                            Some(c) => c.payload,
                            None => None,
                        },
                    }),
            decreases rows.len() - i,
        {
            let payload = match &rows[i].conditions {
                Some(c) => copy_option(&c.payload),
                None => None,
            };
            out.push(
                FlagDef {
                    key: rows[i].key.clone(),
                    active: rows[i].active,
                    rollout_percentage: rows[i].rollout,
                    variants: duplicate_all(&rows[i].variants),
                    payload,
                },
            );
            i += 1;
        }
        assert(views(out@) =~= listed(self@, token@));
        out
    }

    /// Evaluates every active flag of a token for a person. The person is hashed by the first id that was
    /// ever seen of them, where that is known.
    pub fn evaluate(
        &self,
        token: &str,
        distinct_id: &str,
        properties: &JsonMap,
        cohorts: &Vec<String>,
        facts: &Vec<NumberFact>,
        first_seen_key: Option<&str>,
    ) -> (r: Vec<EvaluatedFlag>)
        ensures
            views(r@) == all_evaluated(
                self@,
                token@,
                match first_seen_key {
                    Some(k) => k@,
                    None => distinct_id@,
                },
                properties@,
                views(cohorts@),
                facts@,
            ),
    {
        let bucket_key = match first_seen_key {
            Some(k) => k,
            None => distinct_id,
        };
        let rows = select_sorted(&self.flags, &ActiveFlag { token }, &FlagOrder);
        let mut out: Vec<EvaluatedFlag> = Vec::new();
        let mut i: usize = 0;
        while i < rows.len()
            invariant
                i <= rows.len(),
                out@.len() == i,
                forall|j: int|
                    0 <= j < i ==> (#[trigger] out@[j])@ == evaluated(
                        rows@[j]@,
                        bucket_key@,
                        properties@,
                        views(cohorts@),
                        facts@,
                    ),
            decreases rows.len() - i,
        {
            out.push(evaluate_one(&rows[i], bucket_key, properties, cohorts, facts));
            i += 1;
        }
        assert(views(out@) =~= all_evaluated(
            self@,
            token@,
            bucket_key@,
            properties@,
            views(cohorts@),
            facts@,
        ));
        out
    }
}

} // verus!
