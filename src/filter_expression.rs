//! Boolean trees over filter commands, and their evaluation.

use vstd::prelude::*;
use crate::data_containers::{DayDataParsed, EntryKey};
use crate::filter::FilterType;
use crate::filter_commands::{CommandModel, FilterCommand};

verus! {

/// A logical expression over [`FilterCommand`]s. Each node owns its children.
#[derive(Debug)]
pub enum FilterExpression {
    SingleCommand(FilterCommand),
    Not(Box<FilterExpression>),
    And(Box<FilterExpression>, Box<FilterExpression>),
    Or(Box<FilterExpression>, Box<FilterExpression>),
    Xor(Box<FilterExpression>, Box<FilterExpression>),
    Nor(Box<FilterExpression>, Box<FilterExpression>),
    Nand(Box<FilterExpression>, Box<FilterExpression>),
    Xnor(Box<FilterExpression>, Box<FilterExpression>),
}

/// A [`FilterExpression`] with its commands' texts as character sequences.
pub enum ExprModel {
    SingleCommand(CommandModel),
    Not(Box<ExprModel>),
    And(Box<ExprModel>, Box<ExprModel>),
    Or(Box<ExprModel>, Box<ExprModel>),
    Xor(Box<ExprModel>, Box<ExprModel>),
    Nor(Box<ExprModel>, Box<ExprModel>),
    Nand(Box<ExprModel>, Box<ExprModel>),
    Xnor(Box<ExprModel>, Box<ExprModel>),
}

/// Everything one evaluation reads: the record, the entry under evaluation and
/// the kind of filter the expression belongs to.
pub struct EvalData<'a> {
    pub day: &'a DayDataParsed,
    pub key: &'a EntryKey,
    pub filter_type: &'a FilterType,
}

impl ExprModel {
    /// The truth value of the tree for entry `key` of `day`, under the rules of `ft`.
    pub open spec fn holds(self, day: DayDataParsed, key: EntryKey, ft: FilterType) -> bool
        decreases self,
    {
        match self {
            ExprModel::SingleCommand(c) => match ft {
                FilterType::Date => c.holds_for_date(day),
                FilterType::Key => c.holds_for_key(key),
                FilterType::Value => c.holds_for_value(day),
            },
            ExprModel::Not(a) => !a.holds(day, key, ft),
            ExprModel::And(a, b) => a.holds(day, key, ft) && b.holds(day, key, ft),
            ExprModel::Or(a, b) => a.holds(day, key, ft) || b.holds(day, key, ft),
            ExprModel::Xor(a, b) => a.holds(day, key, ft) != b.holds(day, key, ft),
            ExprModel::Nor(a, b) => !(a.holds(day, key, ft) || b.holds(day, key, ft)),
            ExprModel::Nand(a, b) => !(a.holds(day, key, ft) && b.holds(day, key, ft)),
            ExprModel::Xnor(a, b) => a.holds(day, key, ft) == b.holds(day, key, ft),
        }
    }
}

impl FilterExpression {
    pub open spec fn model(&self) -> ExprModel
        decreases self,
    {
        match self {
            FilterExpression::SingleCommand(c) => ExprModel::SingleCommand(c@),
            FilterExpression::Not(a) => ExprModel::Not(Box::new(a.model())),
            FilterExpression::And(a, b) => ExprModel::And(Box::new(a.model()), Box::new(b.model())),
            FilterExpression::Or(a, b) => ExprModel::Or(Box::new(a.model()), Box::new(b.model())),
            FilterExpression::Xor(a, b) => ExprModel::Xor(Box::new(a.model()), Box::new(b.model())),
            FilterExpression::Nor(a, b) => ExprModel::Nor(Box::new(a.model()), Box::new(b.model())),
            FilterExpression::Nand(a, b) => ExprModel::Nand(
                Box::new(a.model()),
                Box::new(b.model()),
            ),
            FilterExpression::Xnor(a, b) => ExprModel::Xnor(
                Box::new(a.model()),
                Box::new(b.model()),
            ),
        }
    }

    /// Whether the entry and record in `data` pass this expression.
    pub fn evaluate(&self, data: &EvalData) -> (r: bool)
        ensures
            r == self.model().holds(*data.day, *data.key, *data.filter_type),
        decreases self,
    {
        match self {
            FilterExpression::SingleCommand(cmd) => match data.filter_type {
                FilterType::Date => cmd.apply_date_filter(data),
                FilterType::Key => cmd.apply_key_filter(data),
                FilterType::Value => cmd.apply_value_filter(data),
            },
            FilterExpression::Not(a) => !a.evaluate(data),
            FilterExpression::And(a, b) => {
                let x = a.evaluate(data);
                let y = b.evaluate(data);
                x && y
            },
            FilterExpression::Or(a, b) => {
                let x = a.evaluate(data);
                let y = b.evaluate(data);
                x || y
            },
            FilterExpression::Xor(a, b) => {
                let x = a.evaluate(data);
                let y = b.evaluate(data);
                x != y
            },
            FilterExpression::Nor(a, b) => {
                let x = a.evaluate(data);
                let y = b.evaluate(data);
                !(x || y)
            },
            FilterExpression::Nand(a, b) => {
                let x = a.evaluate(data);
                let y = b.evaluate(data);
                !(x && y)
            },
            FilterExpression::Xnor(a, b) => {
                let x = a.evaluate(data);
                let y = b.evaluate(data);
                x == y
            },
        }
    }
}

/// Date rules read the record alone, never the entry: a tree's outcome under
/// them is the same for every entry key.
pub proof fn lemma_date_rules_ignore_key(e: ExprModel, day: DayDataParsed, k1: EntryKey, k2: EntryKey)
    ensures
        e.holds(day, k1, FilterType::Date) == e.holds(day, k2, FilterType::Date),
    decreases e,
{
    match e {
        ExprModel::SingleCommand(_) => {},
        ExprModel::Not(a) => lemma_date_rules_ignore_key(*a, day, k1, k2),
        ExprModel::And(a, b) | ExprModel::Or(a, b) | ExprModel::Xor(a, b) | ExprModel::Nor(a, b)
        | ExprModel::Nand(a, b) | ExprModel::Xnor(a, b) => {
            lemma_date_rules_ignore_key(*a, day, k1, k2);
            lemma_date_rules_ignore_key(*b, day, k1, k2);
        },
    }
}

/// The combinators follow the usual two-operand truth tables: for every pair of
/// subtrees, `xor` holds exactly when one side holds, `nand` unless both hold,
/// `nor` when neither holds, and `xnor` when both sides agree.
pub proof fn combinator_truth_tables(
    a: ExprModel,
    b: ExprModel,
    day: DayDataParsed,
    key: EntryKey,
    ft: FilterType,
)
    ensures
        ({
            let x = a.holds(day, key, ft);
            let y = b.holds(day, key, ft);
            &&& ExprModel::Xor(Box::new(a), Box::new(b)).holds(day, key, ft) == ((x && !y) || (!x
                && y))
            &&& ExprModel::Nand(Box::new(a), Box::new(b)).holds(day, key, ft) == (!x || !y)
            &&& ExprModel::Nor(Box::new(a), Box::new(b)).holds(day, key, ft) == (!x && !y)
            &&& ExprModel::Xnor(Box::new(a), Box::new(b)).holds(day, key, ft) == ((x && y) || (!x
                && !y))
            &&& ExprModel::And(Box::new(a), Box::new(b)).holds(day, key, ft) == (x && y)
            &&& ExprModel::Or(Box::new(a), Box::new(b)).holds(day, key, ft) == (x || y)
            &&& ExprModel::Not(Box::new(a)).holds(day, key, ft) == !x
        }),
{
}

} // verus!
