//! Leaf predicates of filter expressions, and how each applies to a record.

use vstd::prelude::*;
use crate::data_containers::{find_entry, CalendarDate, DayDataParsed, EntryKey};
use crate::filter_expression::EvalData;
use crate::number::{num_op, num_op_holds, CompareOp, Decimal};
use crate::text::{chars_of, contains_seq, contains_chars};

verus! {

/// Which side of a date a record must lie on.
#[derive(Clone, Copy, Debug, PartialEq, Eq, Structural)]
pub enum DateOp {
    /// The record's date must come strictly before the given date.
    Before,
    /// The record's date must come strictly after the given date.
    After,
}

/// A single predicate of the filter language.
#[derive(Clone, Debug)]
pub enum FilterCommand {
    /// The subject text contains the given text.
    Contains(String),
    /// The value stored under the given key contains the given text.
    KeyValueContains(String, String),
    /// The subject text, stripped to digits and decimal points, reads as a
    /// number that compares with the given one as the operator says.
    NumOp(CompareOp, Decimal),
    /// Like `NumOp`, on the value stored under the given key.
    KeyValueNumOp(String, CompareOp, Decimal),
    /// The record's date lies before or after the given date.
    Date(DateOp, CalendarDate),
}

/// A [`FilterCommand`] with its texts as character sequences.
pub enum CommandModel {
    Contains(Seq<char>),
    KeyValueContains(Seq<char>, Seq<char>),
    NumOp(CompareOp, Decimal),
    KeyValueNumOp(Seq<char>, CompareOp, Decimal),
    Date(DateOp, CalendarDate),
}

impl View for FilterCommand {
    type V = CommandModel;

    open spec fn view(&self) -> CommandModel {
        match self {
            FilterCommand::Contains(t) => CommandModel::Contains(t@),
            FilterCommand::KeyValueContains(k, t) => CommandModel::KeyValueContains(k@, t@),
            FilterCommand::NumOp(op, n) => CommandModel::NumOp(*op, *n),
            FilterCommand::KeyValueNumOp(k, op, n) => CommandModel::KeyValueNumOp(k@, *op, *n),
            FilterCommand::Date(op, d) => CommandModel::Date(*op, *d),
        }
    }
}

impl CommandModel {
    /// Outcome under date rules: the subject is the record's date text.
    pub open spec fn holds_for_date(self, day: DayDataParsed) -> bool {
        match self {
            CommandModel::Contains(t) => contains_seq(day.date.date_string@, t),
            CommandModel::NumOp(op, n) => num_op_holds(day.date.date_string@, op, n),
            CommandModel::Date(op, d) => match op {
                DateOp::Before => day.date.naive_date.spec_before(d),
                DateOp::After => d.spec_before(day.date.naive_date),
            },
            _ => true,
        }
    }

    /// Outcome under key rules: the subject is the entry's title.
    pub open spec fn holds_for_key(self, key: EntryKey) -> bool {
        match self {
            CommandModel::Contains(t) => contains_seq(key.title@, t),
            CommandModel::NumOp(op, n) => num_op_holds(key.title@, op, n),
            _ => true,
        }
    }

    /// Outcome under value rules: the subject is the value stored under the
    /// command's key; a record without that key passes.
    pub open spec fn holds_for_value(self, day: DayDataParsed) -> bool {
        match self {
            CommandModel::KeyValueContains(k, t) => match day.value_of(k) {
                Some(v) => contains_seq(v, t),
                None => true,
            },
            CommandModel::KeyValueNumOp(k, op, n) => match day.value_of(k) {
                Some(v) => num_op_holds(v, op, n),
                None => true,
            },
            _ => true,
        }
    }
}

/// Index of the entry of `day` titled `key`, or the number of entries.
fn entry_index(day: &DayDataParsed, key: &String) -> (r: usize)
    ensures
        r == find_entry(day.entries@, key@, 0),
{
    let mut i: usize = 0;
    while i < day.entries.len()
        invariant
            i <= day.entries@.len(),
            find_entry(day.entries@, key@, 0)
                == find_entry(day.entries@, key@, i as int),
        decreases day.entries@.len() - i,
    {
        if day.entries[i].0.title == *key {
            return i;
        }
        i += 1;
    }
    i
}

impl FilterCommand {
    /// Applies the command under date rules.
    pub fn apply_date_filter(&self, data: &EvalData) -> (r: bool)
        ensures
            r == self@.holds_for_date(*data.day),
    {
        match self {
            FilterCommand::Contains(keyword) => {
                let subject = chars_of(data.day.date.date_string.as_str());
                contains_chars(&subject, &chars_of(keyword.as_str()))
            },
            FilterCommand::NumOp(op, num) => {
                num_op(&chars_of(data.day.date.date_string.as_str()), *op, *num)
            },
            FilterCommand::Date(op, date) => match op {
                DateOp::Before => data.day.date.naive_date.is_before(date),
                DateOp::After => date.is_before(&data.day.date.naive_date),
            },
            _ => true,
        }
    }

    /// Applies the command under key rules.
    pub fn apply_key_filter(&self, data: &EvalData) -> (r: bool)
        ensures
            r == self@.holds_for_key(*data.key),
    {
        match self {
            FilterCommand::Contains(keyword) => {
                contains_chars(&chars_of(data.key.title.as_str()), &chars_of(keyword.as_str()))
            },
            FilterCommand::NumOp(op, num) => {
                num_op(&chars_of(data.key.title.as_str()), *op, *num)
            },
            _ => true,
        }
    }

    /// Applies the command under value rules.
    pub fn apply_value_filter(&self, data: &EvalData) -> (r: bool)
        ensures
            r == self@.holds_for_value(*data.day),
    {
        match self {
            FilterCommand::KeyValueContains(key, keyword) => {
                let i = entry_index(data.day, key);
                if i < data.day.entries.len() {
                    let value = chars_of(data.day.entries[i].1.string_value.as_str());
                    contains_chars(&value, &chars_of(keyword.as_str()))
                } else {
                    true
                }
            },
            FilterCommand::KeyValueNumOp(key, op, num) => {
                let i = entry_index(data.day, key);
                if i < data.day.entries.len() {
                    num_op(&chars_of(data.day.entries[i].1.string_value.as_str()), *op, *num)
                } else {
                    true
                }
            },
            _ => true,
        }
    }
}

} // verus!
