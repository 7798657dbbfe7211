//! Named filters, the axis each acts on, and the rules that decide which
//! records and entries stay visible.

use vstd::prelude::*;
use crate::data_containers::{DayDataParsed, EntryKey};
use crate::filter_commands::{CommandModel, DateOp, FilterCommand};
use crate::expression_parser::{self, expression_of};
use crate::filter_expression::{lemma_date_rules_ignore_key, EvalData, ExprModel, FilterExpression};
use crate::number::{CompareOp, Decimal};
use vstd::wrapping::u64_specs;
use indexmap::IndexMap;

verus! {

/// The field a filter acts on.
#[derive(Clone, Copy, Debug, Hash, PartialEq, Eq, Structural)]
pub enum FilterType {
    Date,
    Key,
    Value,
}

/// A filter the user defined: the text entered, the tree it compiled to, and
/// the field it acts on.
#[derive(Debug)]
pub struct Filter {
    pub title: String,
    pub expression: FilterExpression,
    pub filter_type: FilterType,
}

/// Identifier of a filter, derived from the structure of its compiled tree:
/// two inputs that compile to the same tree get the same identifier.
#[derive(Clone, Copy, Debug, PartialEq, Eq, Hash, Structural)]
pub struct FilterID {
    pub numeric_id: u64,
}

/// Multiplier of the hash combinator.
pub const HASH_PRIME: u64 = 1099511628211;

/// Starting value of the hash combinator.
pub const HASH_SEED: u64 = 14695981039346656037;

/// Folds one word into a running hash.
pub open spec fn mix(h: u64, w: u64) -> u64 {
    u64_specs::wrapping_add(u64_specs::wrapping_mul(h, HASH_PRIME), w)
}

/// Folds the characters of `s` into a running hash.
pub open spec fn mix_chars(h: u64, s: Seq<char>) -> u64
    decreases s.len(),
{
    if s.len() == 0 {
        h
    } else {
        mix(mix_chars(h, s.drop_last()), s.last() as u64)
    }
}

/// Folds a text and its length into a running hash.
pub open spec fn mix_text(h: u64, s: Seq<char>) -> u64 {
    mix(mix_chars(h, s), s.len() as u64)
}

pub open spec fn mix_decimal(h: u64, d: Decimal) -> u64 {
    mix(mix(mix(h, if d.negative { 1 } else { 0 }), d.mantissa), d.scale as u64)
}

pub open spec fn compare_code(op: CompareOp) -> u64 {
    match op {
        CompareOp::Greater => 1,
        CompareOp::Less => 2,
    }
}

/// Hash of a command: its kind, then each of its fields.
pub open spec fn command_hash(h: u64, c: CommandModel) -> u64 {
    match c {
        CommandModel::Contains(t) => mix_text(mix(h, 1), t),
        CommandModel::KeyValueContains(k, t) => mix_text(mix_text(mix(h, 2), k), t),
        CommandModel::NumOp(op, n) => mix_decimal(mix(mix(h, 3), compare_code(op)), n),
        CommandModel::KeyValueNumOp(k, op, n) => mix_decimal(
            mix(mix_text(mix(h, 4), k), compare_code(op)),
            n,
        ),
        CommandModel::Date(op, d) => mix(
            mix(
                mix(
                    mix(
                        mix(h, 5),
                        match op {
                            DateOp::Before => 1,
                            DateOp::After => 2,
                        },
                    ),
                    d.year as u64,
                ),
                d.month as u64,
            ),
            d.day as u64,
        ),
    }
}

/// Hash of a tree: each node's kind, then its children from left to right.
pub open spec fn expression_hash(h: u64, e: ExprModel) -> u64
    decreases e,
{
    match e {
        ExprModel::SingleCommand(c) => command_hash(mix(h, 10), c),
        ExprModel::Not(a) => expression_hash(mix(h, 11), *a),
        ExprModel::And(a, b) => expression_hash(expression_hash(mix(h, 12), *a), *b),
        ExprModel::Or(a, b) => expression_hash(expression_hash(mix(h, 13), *a), *b),
        ExprModel::Xor(a, b) => expression_hash(expression_hash(mix(h, 14), *a), *b),
        ExprModel::Nor(a, b) => expression_hash(expression_hash(mix(h, 15), *a), *b),
        ExprModel::Nand(a, b) => expression_hash(expression_hash(mix(h, 16), *a), *b),
        ExprModel::Xnor(a, b) => expression_hash(expression_hash(mix(h, 17), *a), *b),
    }
}

fn mix_exec(h: u64, w: u64) -> (r: u64)
    ensures
        r == mix(h, w),
{
    h.wrapping_mul(HASH_PRIME).wrapping_add(w)
}

fn mix_text_exec(h: u64, s: &String) -> (r: u64)
    ensures
        r == mix_text(h, s@),
{
    let chars = crate::text::chars_of(s.as_str());
    let mut acc = h;
    let mut i: usize = 0;
    while i < chars.len()
        invariant
            i <= chars@.len(),
            chars@ == s@,
            acc == mix_chars(h, chars@.subrange(0, i as int)),
        decreases chars@.len() - i,
    {
        assert(chars@.subrange(0, i + 1).drop_last() =~= chars@.subrange(0, i as int));
        acc = mix_exec(acc, chars[i] as u64);
        i += 1;
    }
    assert(chars@.subrange(0, i as int) =~= s@);
    mix_exec(acc, chars.len() as u64)
}

fn mix_decimal_exec(h: u64, d: Decimal) -> (r: u64)
    ensures
        r == mix_decimal(h, d),
{
    mix_exec(mix_exec(mix_exec(h, if d.negative { 1 } else { 0 }), d.mantissa), d.scale as u64)
}

fn compare_code_exec(op: CompareOp) -> (r: u64)
    ensures
        r == compare_code(op),
{
    match op {
        CompareOp::Greater => 1,
        CompareOp::Less => 2,
    }
}

fn command_hash_exec(h: u64, c: &FilterCommand) -> (r: u64)
    ensures
        r == command_hash(h, c@),
{
    match c {
        FilterCommand::Contains(t) => mix_text_exec(mix_exec(h, 1), t),
        FilterCommand::KeyValueContains(k, t) => mix_text_exec(mix_text_exec(mix_exec(h, 2), k), t),
        FilterCommand::NumOp(op, n) => mix_decimal_exec(
            mix_exec(mix_exec(h, 3), compare_code_exec(*op)),
            *n,
        ),
        FilterCommand::KeyValueNumOp(k, op, n) => mix_decimal_exec(
            mix_exec(mix_text_exec(mix_exec(h, 4), k), compare_code_exec(*op)),
            *n,
        ),
        FilterCommand::Date(op, d) => {
            let code: u64 = match op {
                DateOp::Before => 1,
                DateOp::After => 2,
            };
            mix_exec(
                mix_exec(mix_exec(mix_exec(mix_exec(h, 5), code), d.year as u64), d.month as u64),
                d.day as u64,
            )
        },
    }
}

fn expression_hash_exec(h: u64, e: &FilterExpression) -> (r: u64)
    ensures
        r == expression_hash(h, e.model()),
    decreases e,
{
    match e {
        FilterExpression::SingleCommand(c) => command_hash_exec(mix_exec(h, 10), c),
        FilterExpression::Not(a) => expression_hash_exec(mix_exec(h, 11), a),
        FilterExpression::And(a, b) => {
            let x = expression_hash_exec(mix_exec(h, 12), a);
            expression_hash_exec(x, b)
        },
        FilterExpression::Or(a, b) => {
            let x = expression_hash_exec(mix_exec(h, 13), a);
            expression_hash_exec(x, b)
        },
        FilterExpression::Xor(a, b) => {
            let x = expression_hash_exec(mix_exec(h, 14), a);
            expression_hash_exec(x, b)
        },
        FilterExpression::Nor(a, b) => {
            let x = expression_hash_exec(mix_exec(h, 15), a);
            expression_hash_exec(x, b)
        },
        FilterExpression::Nand(a, b) => {
            let x = expression_hash_exec(mix_exec(h, 16), a);
            expression_hash_exec(x, b)
        },
        FilterExpression::Xnor(a, b) => {
            let x = expression_hash_exec(mix_exec(h, 17), a);
            expression_hash_exec(x, b)
        },
    }
}

impl FilterID {
    /// The identifier of a compiled tree: its structural hash.
    pub fn from_expression(expression: &FilterExpression) -> (r: FilterID)
        ensures
            r.numeric_id == expression_hash(HASH_SEED, expression.model()),
    {
        FilterID { numeric_id: expression_hash_exec(HASH_SEED, expression) }
    }
}

impl From<u64> for FilterID {
    fn from(numeric_id: u64) -> (r: FilterID) {
        FilterID { numeric_id }
    }
}

impl vstd::std_specs::convert::FromSpecImpl<u64> for FilterID {
    open spec fn obeys_from_spec() -> bool {
        true
    }

    open spec fn from_spec(numeric_id: u64) -> FilterID {
        FilterID { numeric_id }
    }
}

impl Filter {
    /// Compiles the text a user entered into a filter of type `filter_type`,
    /// together with its identifier. Fails when the text does not read as an
    /// expression.
    pub fn compile(filter_type: FilterType, input: &str) -> (r: Option<(FilterID, Filter)>)
        ensures
            match r {
                Some((id, f)) => {
                    &&& expression_of(filter_type, input@) == Some(f.expression.model())
                    &&& f.title@ == input@
                    &&& f.filter_type == filter_type
                    &&& id.numeric_id == expression_hash(HASH_SEED, f.expression.model())
                },
                None => expression_of(filter_type, input@).is_none(),
            },
    {
        match expression_parser::parse(&filter_type, input) {
            Some(expression) => {
                let id = FilterID::from_expression(&expression);
                Some((id, Filter { title: String::from_str(input), expression, filter_type }))
            },
            None => None,
        }
    }
}

#[verifier::external_type_specification]
#[verifier::external_body]
#[verifier::reject_recursive_types(K)]
#[verifier::reject_recursive_types(V)]
#[verifier::reject_recursive_types(S)]
pub struct ExIndexMap<K, V, S>(IndexMap<K, V, S>);

/// The filters of a filter map, in their order of insertion.
pub uninterp spec fn filters_in(m: IndexMap<FilterID, Filter>) -> Seq<Filter>;

/// Relies on `IndexMap::len`: the number of entries of the map.
#[verifier::external_body]
fn filter_count(m: &IndexMap<FilterID, Filter>) -> (r: usize)
    ensures
        r == filters_in(*m).len(),
{
    m.len()
}

/// Relies on `IndexMap`'s `Index<usize>`: the value of the entry at position
/// `i` in order of insertion (it panics past the end).
#[verifier::external_body]
fn filter_at(m: &IndexMap<FilterID, Filter>, i: usize) -> (r: &Filter)
    requires
        i < filters_in(*m).len(),
    ensures
        *r == filters_in(*m)[i as int],
{
    &m[i]
}

/// Every filter of `filters` holds for entry `key` of `day` under the rules of `ft`.
pub open spec fn passes_all(filters: Seq<Filter>, day: DayDataParsed, key: EntryKey, ft: FilterType) -> bool {
    forall|i: int|
        0 <= i < filters.len() ==> (#[trigger] filters[i]).expression.model().holds(day, key, ft)
}

/// Some filter of `filters` holds for entry `key` of `day` under the rules of `ft`.
pub open spec fn passes_any(filters: Seq<Filter>, day: DayDataParsed, key: EntryKey, ft: FilterType) -> bool {
    exists|i: int|
        0 <= i < filters.len() && (#[trigger] filters[i]).expression.model().holds(day, key, ft)
}

/// The record's date passes every date filter. Date rules read no entry, so
/// this is judged the same under every entry key (see
/// [`lemma_date_filters_ignore_key`]).
pub open spec fn date_passes(day: DayDataParsed, date_filters: Seq<Filter>) -> bool {
    forall|k: EntryKey| #[trigger] passes_all(date_filters, day, k, FilterType::Date)
}

/// Whether a record is shown at all: its date passes every date filter, with
/// or without entries, and every one of its entries passes every value filter.
pub open spec fn day_visible(day: DayDataParsed, date_filters: Seq<Filter>, value_filters: Seq<Filter>) -> bool {
    &&& date_passes(day, date_filters)
    &&& forall|j: int|
        0 <= j < day.entries@.len() ==> passes_all(
            value_filters,
            day,
            (#[trigger] day.entries@[j]).0,
            FilterType::Value,
        )
}

/// Whether date filters pass does not depend on the entry they are judged on.
pub proof fn lemma_date_filters_ignore_key(
    filters: Seq<Filter>,
    day: DayDataParsed,
    k1: EntryKey,
    k2: EntryKey,
)
    ensures
        passes_all(filters, day, k1, FilterType::Date) == passes_all(
            filters,
            day,
            k2,
            FilterType::Date,
        ),
{
    assert forall|i: int| 0 <= i < filters.len() implies (#[trigger] filters[i]).expression.model().holds(
        day,
        k1,
        FilterType::Date,
    ) == filters[i].expression.model().holds(day, k2, FilterType::Date) by {
        lemma_date_rules_ignore_key(filters[i].expression.model(), day, k1, k2);
    }
}

/// Whether an entry of a shown record is listed: when there are key filters,
/// at least one of them must hold for it.
pub open spec fn key_visible(day: DayDataParsed, key: EntryKey, key_filters: Seq<Filter>) -> bool {
    key_filters.len() == 0 || passes_any(key_filters, day, key, FilterType::Key)
}

/// Whether every filter of `filters` holds for `key` of `day` under the rules of `ft`.
fn all_pass(
    day: &DayDataParsed,
    key: &EntryKey,
    filters: &IndexMap<FilterID, Filter>,
    ft: &FilterType,
) -> (r: bool)
    ensures
        r == passes_all(filters_in(*filters), *day, *key, *ft),
{
    let data = EvalData { day, key, filter_type: ft };
    let n = filter_count(filters);
    let mut i: usize = 0;
    while i < n
        invariant
            i <= n == filters_in(*filters).len(),
            data.day == day && data.key == key && data.filter_type == ft,
            forall|k: int|
                0 <= k < i ==> (#[trigger] filters_in(*filters)[k]).expression.model().holds(
                    *day,
                    *key,
                    *ft,
                ),
        decreases n - i,
    {
        if !filter_at(filters, i).expression.evaluate(&data) {
            return false;
        }
        i += 1;
    }
    true
}

/// Runs a record through the date and value filters: it is shown only if its
/// date passes every date filter and each of its entries passes every value
/// filter.
pub fn filter_day(
    day: &DayDataParsed,
    date_filters: &IndexMap<FilterID, Filter>,
    value_filters: &IndexMap<FilterID, Filter>,
) -> (r: bool)
    ensures
        r == day_visible(*day, filters_in(*date_filters), filters_in(*value_filters)),
{
    let no_entry = EntryKey { title: String::new() };
    let date_ok = all_pass(day, &no_entry, date_filters, &FilterType::Date);
    proof {
        assert forall|k: EntryKey| #[trigger]
            passes_all(filters_in(*date_filters), *day, k, FilterType::Date) == date_ok by {
            lemma_date_filters_ignore_key(filters_in(*date_filters), *day, k, no_entry);
        }
    }
    if !date_ok {
        return false;
    }
    let mut j: usize = 0;
    while j < day.entries.len()
        invariant
            j <= day.entries@.len(),
            forall|k: int|
                0 <= k < j ==> passes_all(
                    filters_in(*value_filters),
                    *day,
                    (#[trigger] day.entries@[k]).0,
                    FilterType::Value,
                ),
        decreases day.entries@.len() - j,
    {
        if !all_pass(day, &day.entries[j].0, value_filters, &FilterType::Value) {
            return false;
        }
        j += 1;
    }
    true
}

/// Runs one entry of a record through the key filters: it is listed when
/// there are none, or when at least one holds for it.
pub fn filter_key(day: &DayDataParsed, key: &EntryKey, key_filters: &IndexMap<FilterID, Filter>) -> (r: bool)
    ensures
        r == key_visible(*day, *key, filters_in(*key_filters)),
{
    let n = filter_count(key_filters);
    if n == 0 {
        return true;
    }
    let ft = FilterType::Key;
    let data = EvalData { day, key, filter_type: &ft };
    let mut i: usize = 0;
    while i < n
        invariant
            i <= n == filters_in(*key_filters).len(),
            data.day == day && data.key == key && *data.filter_type == FilterType::Key,
            forall|k: int|
                0 <= k < i ==> !(#[trigger] filters_in(*key_filters)[k]).expression.model().holds(
                    *day,
                    *key,
                    FilterType::Key,
                ),
        decreases n - i,
    {
        if filter_at(key_filters, i).expression.evaluate(&data) {
            return true;
        }
        i += 1;
    }
    false
}

/// The entries of `day`, from the first `n` on, that the key filters list, as
/// pairs of title and value.
pub open spec fn listed_entries(day: DayDataParsed, key_filters: Seq<Filter>, n: int) -> Seq<(Seq<char>, Seq<char>)>
    decreases n,
{
    if n <= 0 || n > day.entries@.len() {
        seq![]
    } else {
        let rest = listed_entries(day, key_filters, n - 1);
        let e = day.entries@[n - 1];
        if key_visible(day, e.0, key_filters) {
            rest.push((e.0.title@, e.1.string_value@))
        } else {
            rest
        }
    }
}

/// Of the first `n` records of `days`, those shown, each as its date text and
/// its listed entries.
pub open spec fn shown_records(
    days: Seq<DayDataParsed>,
    date_filters: Seq<Filter>,
    key_filters: Seq<Filter>,
    value_filters: Seq<Filter>,
    n: int,
) -> Seq<(Seq<char>, Seq<(Seq<char>, Seq<char>)>)>
    decreases n,
{
    if n <= 0 || n > days.len() {
        seq![]
    } else {
        let rest = shown_records(days, date_filters, key_filters, value_filters, n - 1);
        let d = days[n - 1];
        if day_visible(d, date_filters, value_filters) {
            rest.push((d.date.date_string@, listed_entries(d, key_filters, d.entries@.len() as int)))
        } else {
            rest
        }
    }
}

pub open spec fn pairs_model(v: Seq<(String, String)>) -> Seq<(Seq<char>, Seq<char>)> {
    v.map_values(|e: (String, String)| (e.0@, e.1@))
}

pub open spec fn records_model(v: Seq<(String, Vec<(String, String)>)>) -> Seq<(Seq<char>, Seq<(Seq<char>, Seq<char>)>)> {
    v.map_values(|r: (String, Vec<(String, String)>)| (r.0@, pairs_model(r.1@)))
}

fn listed_entries_exec(day: &DayDataParsed, key_filters: &IndexMap<FilterID, Filter>) -> (r: Vec<(String, String)>)
    ensures
        pairs_model(r@) == listed_entries(*day, filters_in(*key_filters), day.entries@.len() as int),
{
    let mut out: Vec<(String, String)> = Vec::new();
    let mut j: usize = 0;
    while j < day.entries.len()
        invariant
            j <= day.entries@.len(),
            pairs_model(out@) == listed_entries(*day, filters_in(*key_filters), j as int),
        decreases day.entries@.len() - j,
    {
        let ghost before = out@;
        if filter_key(day, &day.entries[j].0, key_filters) {
            let pair = (day.entries[j].0.title.clone(), day.entries[j].1.string_value.clone());
            out.push(pair);
            assert(pairs_model(out@) =~= pairs_model(before).push((pair.0@, pair.1@)));
        }
        j += 1;
    }
    out
}

/// The shown records of `days`, in order, each as its date text and the
/// entries that the key filters list.
pub fn filter_data(
    days: &Vec<DayDataParsed>,
    date_filters: &IndexMap<FilterID, Filter>,
    key_filters: &IndexMap<FilterID, Filter>,
    value_filters: &IndexMap<FilterID, Filter>,
) -> (r: Vec<(String, Vec<(String, String)>)>)
    ensures
        records_model(r@) == shown_records(
            days@,
            filters_in(*date_filters),
            filters_in(*key_filters),
            filters_in(*value_filters),
            days@.len() as int,
        ),
{
    let mut out: Vec<(String, Vec<(String, String)>)> = Vec::new();
    let mut i: usize = 0;
    while i < days.len()
        invariant
            i <= days@.len(),
            records_model(out@) == shown_records(
                days@,
                filters_in(*date_filters),
                filters_in(*key_filters),
                filters_in(*value_filters),
                i as int,
            ),
        decreases days@.len() - i,
    {
        let day = &days[i];
        if filter_day(day, date_filters, value_filters) {
            let entries = listed_entries_exec(day, key_filters);
            let record = (day.date.date_string.clone(), entries);
            let ghost before = out@;
            out.push(record);
            assert(records_model(out@) =~= records_model(before).push((record.0@, pairs_model(record.1@))));
        }
        i += 1;
    }
    out
}

/// A record whose date fails any one date filter is not shown, whatever its
/// key and value filters say, and whether or not it has entries.
pub proof fn lemma_failed_date_filter_hides_day(
    day: DayDataParsed,
    date_filters: Seq<Filter>,
    value_filters: Seq<Filter>,
    i: int,
    key: EntryKey,
)
    requires
        0 <= i < date_filters.len(),
        !date_filters[i].expression.model().holds(day, key, FilterType::Date),
    ensures
        !day_visible(day, date_filters, value_filters),
{
    assert(!passes_all(date_filters, day, key, FilterType::Date));
}

} // verus!
