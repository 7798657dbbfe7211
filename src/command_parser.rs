//! Reading one command of the filter language into a [`FilterCommand`].
//!
//! Commands carry no negation flag of their own: negation is written with the
//! `not` operator of expressions, which applies to any subtree.

use vstd::prelude::*;
use crate::data_containers::{date_of, parse_date, DayDataParsed};
use crate::filter::FilterType;
use crate::filter_commands::{CommandModel, DateOp, FilterCommand};
use crate::number::{parse_number, signed_decimal, CompareOp, Decimal};
use crate::text::{
    chars_of, get_quotation_string, get_quotation_string_and_verify_is_last,
    lemma_find_char_first, quoted, quoted_last, starts_with, starts_with_at, substring,
};

verus! {

/// The keyword that opens each kind of command.
#[derive(Clone, Copy, Debug, Hash, PartialEq, Eq, Structural)]
pub enum Keywords {
    Contains,
    KeyValueContains,
    NumOp,
    KeyValueNumOp,
    Date,
}

impl Keywords {
    pub open spec fn spec_str(self) -> Seq<char> {
        match self {
            Keywords::Contains => "contains"@,
            Keywords::KeyValueContains => "kv-contains"@,
            Keywords::NumOp => "numop"@,
            Keywords::KeyValueNumOp => "kv-numop"@,
            Keywords::Date => "date"@,
        }
    }

    /// The keyword's text.
    pub fn cmd_str(&self) -> (r: &'static str)
        ensures
            r@ == self.spec_str(),
    {
        match self {
            Keywords::Contains => "contains",
            Keywords::KeyValueContains => "kv-contains",
            Keywords::NumOp => "numop",
            Keywords::KeyValueNumOp => "kv-numop",
            Keywords::Date => "date",
        }
    }

    /// The number of characters of the keyword.
    pub fn cmd_len(&self) -> (r: usize)
        ensures
            r == self.spec_str().len(),
    {
        self.cmd_str().unicode_len()
    }
}

/// The comparison that an operator argument names: `>` or `<`.
pub open spec fn compare_op_of(s: Seq<char>) -> Option<CompareOp> {
    if s == seq!['>'] {
        Some(CompareOp::Greater)
    } else if s == seq!['<'] {
        Some(CompareOp::Less)
    } else {
        None
    }
}

/// Arguments of `contains`: one quoted text that ends the command.
pub open spec fn contains_args(s: Seq<char>) -> Option<CommandModel> {
    match quoted_last(s) {
        Some(t) => Some(CommandModel::Contains(t)),
        None => None,
    }
}

/// Arguments of `kv-contains`: a quoted key, then a quoted text that ends the command.
pub open spec fn kv_contains_args(s: Seq<char>) -> Option<CommandModel> {
    match quoted(s) {
        Some((k, rest)) => match quoted_last(rest) {
            Some(t) => Some(CommandModel::KeyValueContains(k, t)),
            None => None,
        },
        None => None,
    }
}

/// A quoted operator, then a quoted number that ends the command.
pub open spec fn numop_params(s: Seq<char>) -> Option<(CompareOp, Decimal)> {
    match quoted(s) {
        Some((o, rest)) => match (compare_op_of(o), quoted_last(rest)) {
            (Some(op), Some(n)) => match signed_decimal(n) {
                Some(num) => Some((op, num)),
                None => None,
            },
            _ => None,
        },
        None => None,
    }
}

/// Arguments of `numop`.
pub open spec fn numop_args(s: Seq<char>) -> Option<CommandModel> {
    match numop_params(s) {
        Some((op, num)) => Some(CommandModel::NumOp(op, num)),
        None => None,
    }
}

/// Arguments of `kv-numop`: a quoted key, then those of `numop`.
pub open spec fn kv_numop_args(s: Seq<char>) -> Option<CommandModel> {
    match quoted(s) {
        Some((k, rest)) => match numop_params(rest) {
            Some((op, num)) => Some(CommandModel::KeyValueNumOp(k, op, num)),
            None => None,
        },
        None => None,
    }
}

/// A quoted date in the canonical format that ends the command.
pub open spec fn date_param(op: DateOp, s: Seq<char>) -> Option<CommandModel> {
    match quoted_last(s) {
        Some(t) => match date_of(t) {
            Some(d) => Some(CommandModel::Date(op, d)),
            None => None,
        },
        None => None,
    }
}

/// Arguments of `date`: ` before` or ` after`, then a quoted date.
pub open spec fn date_args(s: Seq<char>) -> Option<CommandModel> {
    if starts_with(s, " before"@) {
        date_param(DateOp::Before, s.subrange(" before"@.len() as int, s.len() as int))
    } else if starts_with(s, " after"@) {
        date_param(DateOp::After, s.subrange(" after"@.len() as int, s.len() as int))
    } else {
        None
    }
}

/// What `s` after the keyword `k`.
pub open spec fn after_keyword(s: Seq<char>, k: Keywords) -> Seq<char> {
    s.subrange(k.spec_str().len() as int, s.len() as int)
}

/// The command that `s` spells for a filter of type `ft`, if any: the keyword
/// must be allowed for `ft`, and its arguments must read in full.
pub open spec fn command_of(ft: FilterType, s: Seq<char>) -> Option<CommandModel> {
    if starts_with(s, Keywords::Contains.spec_str()) && ft != FilterType::Value {
        contains_args(after_keyword(s, Keywords::Contains))
    } else if starts_with(s, Keywords::KeyValueContains.spec_str()) && ft == FilterType::Value {
        kv_contains_args(after_keyword(s, Keywords::KeyValueContains))
    } else if starts_with(s, Keywords::NumOp.spec_str()) && ft != FilterType::Value {
        numop_args(after_keyword(s, Keywords::NumOp))
    } else if starts_with(s, Keywords::KeyValueNumOp.spec_str()) && ft == FilterType::Value {
        kv_numop_args(after_keyword(s, Keywords::KeyValueNumOp))
    } else if starts_with(s, Keywords::Date.spec_str()) && ft == FilterType::Date {
        date_args(after_keyword(s, Keywords::Date))
    } else {
        None
    }
}

/// `r` is the command `m`.
pub open spec fn parsed_as(r: Option<FilterCommand>, m: Option<CommandModel>) -> bool {
    match r {
        Some(c) => m == Some(c@),
        None => m.is_none(),
    }
}

fn parse_contains(s: &Vec<char>, from: usize) -> (r: Option<FilterCommand>)
    requires
        from <= s@.len(),
    ensures
        parsed_as(r, contains_args(s@.subrange(from as int, s@.len() as int))),
{
    match get_quotation_string_and_verify_is_last(s, from) {
        Some(t) => Some(FilterCommand::Contains(t)),
        None => None,
    }
}

fn parse_kv_contains(s: &Vec<char>, from: usize) -> (r: Option<FilterCommand>)
    requires
        from <= s@.len(),
    ensures
        parsed_as(r, kv_contains_args(s@.subrange(from as int, s@.len() as int))),
{
    match get_quotation_string(s, from) {
        Some(e) => {
            let key = substring(s, from + 2, e);
            match get_quotation_string_and_verify_is_last(s, e + 1) {
                Some(t) => Some(FilterCommand::KeyValueContains(key, t)),
                None => None,
            }
        },
        None => None,
    }
}

fn get_numop_params(s: &Vec<char>, from: usize) -> (r: Option<(CompareOp, Decimal)>)
    requires
        from <= s@.len(),
    ensures
        r == numop_params(s@.subrange(from as int, s@.len() as int)),
{
    match get_quotation_string(s, from) {
        Some(e) => {
            let ghost o = s@.subrange(from + 2, e as int);
            let op = if e == from + 3 && s[from + 2] == '>' {
                assert(o =~= seq!['>']);
                Some(CompareOp::Greater)
            } else if e == from + 3 && s[from + 2] == '<' {
                assert(o =~= seq!['<']);
                Some(CompareOp::Less)
            } else {
                assert(o.len() == 1 ==> o[0] == s@[from + 2]);
                assert(seq!['>'].len() == 1 && seq!['>'][0] == '>');
                assert(seq!['<'].len() == 1 && seq!['<'][0] == '<');
                assert(o != seq!['>'] && o != seq!['<']);
                None
            };
            assert(compare_op_of(o) == op);
            match op {
                Some(op) => match get_quotation_string_and_verify_is_last(s, e + 1) {
                    Some(n) => match parse_number(&chars_of(n.as_str())) {
                        Some(num) => Some((op, num)),
                        None => None,
                    },
                    None => None,
                },
                None => None,
            }
        },
        None => None,
    }
}

fn parse_numop(s: &Vec<char>, from: usize) -> (r: Option<FilterCommand>)
    requires
        from <= s@.len(),
    ensures
        parsed_as(r, numop_args(s@.subrange(from as int, s@.len() as int))),
{
    match get_numop_params(s, from) {
        Some((op, num)) => Some(FilterCommand::NumOp(op, num)),
        None => None,
    }
}

fn parse_kv_numop(s: &Vec<char>, from: usize) -> (r: Option<FilterCommand>)
    requires
        from <= s@.len(),
    ensures
        parsed_as(r, kv_numop_args(s@.subrange(from as int, s@.len() as int))),
{
    match get_quotation_string(s, from) {
        Some(e) => {
            let key = substring(s, from + 2, e);
            match get_numop_params(s, e + 1) {
                Some((op, num)) => Some(FilterCommand::KeyValueNumOp(key, op, num)),
                None => None,
            }
        },
        None => None,
    }
}

fn parse_date_param(op: DateOp, s: &Vec<char>, from: usize) -> (r: Option<FilterCommand>)
    requires
        from <= s@.len(),
    ensures
        parsed_as(r, date_param(op, s@.subrange(from as int, s@.len() as int))),
{
    match get_quotation_string_and_verify_is_last(s, from) {
        Some(t) => match parse_date(t.as_str()) {
            Some(d) => Some(FilterCommand::Date(op, d)),
            None => None,
        },
        None => None,
    }
}

fn parse_date_op(s: &Vec<char>, from: usize) -> (r: Option<FilterCommand>)
    requires
        from <= s@.len(),
    ensures
        parsed_as(r, date_args(s@.subrange(from as int, s@.len() as int))),
{
    let ghost t = s@.subrange(from as int, s@.len() as int);
    let before = " before";
    let after = " after";
    if starts_with_at(s, from, before) {
        let n = before.unicode_len();
        assert(n <= t.len());
        let start = from + n;
        assert(t.subrange(before@.len() as int, t.len() as int) =~= s@.subrange(
            start as int,
            s@.len() as int,
        ));
        parse_date_param(DateOp::Before, s, start)
    } else if starts_with_at(s, from, after) {
        let n = after.unicode_len();
        assert(n <= t.len());
        let start = from + n;
        assert(t.subrange(after@.len() as int, t.len() as int) =~= s@.subrange(
            start as int,
            s@.len() as int,
        ));
        parse_date_param(DateOp::After, s, start)
    } else {
        None
    }
}

/// Reads `input` as one command for a filter of type `filter_type`.
pub fn parse(filter_type: &FilterType, input: String) -> (r: Option<FilterCommand>)
    ensures
        parsed_as(r, command_of(*filter_type, input@)),
{
    let s = chars_of(input.as_str());
    assert(s@.subrange(0, s@.len() as int) =~= s@);
    if starts_with_at(&s, 0, Keywords::Contains.cmd_str()) && *filter_type != FilterType::Value {
        return parse_contains(&s, Keywords::Contains.cmd_len());
    }
    if starts_with_at(&s, 0, Keywords::KeyValueContains.cmd_str()) && *filter_type
        == FilterType::Value {
        return parse_kv_contains(&s, Keywords::KeyValueContains.cmd_len());
    }
    if starts_with_at(&s, 0, Keywords::NumOp.cmd_str()) && *filter_type != FilterType::Value {
        return parse_numop(&s, Keywords::NumOp.cmd_len());
    }
    if starts_with_at(&s, 0, Keywords::KeyValueNumOp.cmd_str()) && *filter_type
        == FilterType::Value {
        return parse_kv_numop(&s, Keywords::KeyValueNumOp.cmd_len());
    }
    if starts_with_at(&s, 0, Keywords::Date.cmd_str()) && *filter_type == FilterType::Date {
        return parse_date_op(&s, Keywords::Date.cmd_len());
    }
    None
}

/// The text of a date command: `date`, then ` after` or ` before`, then the
/// quoted text `t`.
pub open spec fn date_command_text(op: DateOp, t: Seq<char>) -> Seq<char> {
    "date"@ + match op {
        DateOp::Before => " before"@,
        DateOp::After => " after"@,
    } + seq![' ', '"'] + t + seq!['"']
}

proof fn lemma_quoted_last_of(t: Seq<char>)
    requires
        !t.contains('"'),
    ensures
        quoted_last(seq![' ', '"'] + t + seq!['"']) == Some(t),
{
    let q = seq![' ', '"'] + t + seq!['"'];
    assert forall|k: int| 2 <= k < 2 + t.len() implies q[k] != '"' by {
        assert(q[k] == t[k - 2]);
    }
    lemma_find_char_first(q, '"', 2, 2 + t.len() as int);
    assert(q.subrange(2, 2 + t.len() as int) =~= t);
    assert(q.subrange(3 + t.len() as int, q.len() as int) =~= Seq::<char>::empty());
}

/// A date command reads exactly when its quoted text reads as a date in the
/// canonical format. `date after` then holds for a record just when the
/// record's date is strictly later, and `date before` just when it is strictly
/// earlier; a record on that very date passes neither.
pub proof fn lemma_date_command(op: DateOp, t: Seq<char>, day: DayDataParsed)
    requires
        !t.contains('"'),
    ensures
        match date_of(t) {
            Some(d) => {
                &&& command_of(FilterType::Date, date_command_text(op, t)) == Some(
                    CommandModel::Date(op, d),
                )
                &&& CommandModel::Date(op, d).holds_for_date(day) == match op {
                    DateOp::After => d.spec_before(day.date.naive_date),
                    DateOp::Before => day.date.naive_date.spec_before(d),
                }
                &&& !(CommandModel::Date(op, d).holds_for_date(day) && day.date.naive_date == d)
            },
            None => command_of(FilterType::Date, date_command_text(op, t)).is_none(),
        },
{
    reveal_strlit("date");
    reveal_strlit(" after");
    reveal_strlit(" before");
    reveal_strlit("contains");
    reveal_strlit("numop");
    let word = match op {
        DateOp::Before => " before"@,
        DateOp::After => " after"@,
    };
    let q = seq![' ', '"'] + t + seq!['"'];
    let s = date_command_text(op, t);
    assert(s =~= "date"@ + (word + q));
    assert(s[0] == 'd');
    assert(!starts_with(s, "contains"@)) by {
        if starts_with(s, "contains"@) {
            assert(s.subrange(0, 8)[0] == "contains"@[0]);
        }
    }
    assert(!starts_with(s, "numop"@)) by {
        if starts_with(s, "numop"@) {
            assert(s.subrange(0, 5)[0] == "numop"@[0]);
        }
    }
    assert(s.subrange(0, 4) =~= "date"@);
    let r = after_keyword(s, Keywords::Date);
    assert(r =~= word + q);
    assert(r[1] == word[1]);
    match op {
        DateOp::Before => {
            assert(r.subrange(0, 7) =~= " before"@);
            assert(r.subrange(7, r.len() as int) =~= q);
        },
        DateOp::After => {
            assert(!starts_with(r, " before"@)) by {
                if starts_with(r, " before"@) {
                    assert(r.subrange(0, 7)[1] == " before"@[1]);
                }
            }
            assert(r.subrange(0, 6) =~= " after"@);
            assert(r.subrange(6, r.len() as int) =~= q);
        },
    }
    lemma_quoted_last_of(t);
}

/// A `contains` command is one space, a quoted text, and nothing after the
/// closing quote: with anything after it, the command does not read; a second
/// space before the opening quote does not read either.
pub proof fn lemma_contains_command(ft: FilterType, t: Seq<char>, after: Seq<char>)
    requires
        ft != FilterType::Value,
        !t.contains('"'),
    ensures
        command_of(ft, "contains"@ + seq![' ', '"'] + t + seq!['"'] + after) == if after.len()
            == 0 {
            Some(CommandModel::Contains(t))
        } else {
            None
        },
        command_of(ft, "contains"@ + seq![' ', ' ', '"'] + t + seq!['"']).is_none(),
{
    reveal_strlit("contains");
    let q = seq![' ', '"'] + t + seq!['"'] + after;
    let s = "contains"@ + q;
    assert(s =~= "contains"@ + seq![' ', '"'] + t + seq!['"'] + after);
    assert(s.subrange(0, 8) =~= "contains"@);
    assert(after_keyword(s, Keywords::Contains) =~= q);
    assert forall|k: int| 2 <= k < 2 + t.len() implies q[k] != '"' by {
        assert(q[k] == t[k - 2]);
    }
    lemma_find_char_first(q, '"', 2, 2 + t.len() as int);
    assert(q.subrange(2, 2 + t.len() as int) =~= t);
    assert(q.subrange(3 + t.len() as int, q.len() as int) =~= after);
    let s2 = "contains"@ + seq![' ', ' ', '"'] + t + seq!['"'];
    assert(s2.subrange(0, 8) =~= "contains"@);
    assert(after_keyword(s2, Keywords::Contains)[1] == ' ');
}

} // verus!
