//! The records that filters run over: one date and its key/value entries.

use vstd::prelude::*;
use chrono::Datelike;

verus! {

/// The canonical date format of records and of date commands.
pub const DATE_FORMAT: &'static str = "%Y-%m-%d";

/// A calendar date as year, month and day.
#[derive(Clone, Copy, Debug, PartialEq, Eq, Structural)]
pub struct CalendarDate {
    pub year: i32,
    pub month: u32,
    pub day: u32,
}

impl CalendarDate {
    /// `self` lies strictly before `other` in the calendar.
    pub open spec fn spec_before(self, other: CalendarDate) -> bool {
        self.year < other.year || (self.year == other.year && (self.month < other.month || (
        self.month == other.month && self.day < other.day)))
    }

    /// Whether `self` lies strictly before `other`.
    pub fn is_before(&self, other: &CalendarDate) -> (r: bool)
        ensures
            r == self.spec_before(*other),
    {
        self.year < other.year || (self.year == other.year && (self.month < other.month || (
        self.month == other.month && self.day < other.day)))
    }
}

/// The year, month and day that `text` gives under `format`, if it reads as a
/// valid date.
pub uninterp spec fn parsed_date(text: Seq<char>, format: Seq<char>) -> Option<(i32, u32, u32)>;

/// Relies on chrono's `NaiveDate::parse_from_str` (and its `Datelike` getters):
/// reads `text` under the strftime-style `format` as a valid calendar date.
#[verifier::external_body]
fn parse_date_text(text: &str, format: &str) -> (r: Option<(i32, u32, u32)>)
    ensures
        r == parsed_date(text@, format@),
        r matches Some((y, m, d)) ==> 1 <= m <= 12 && 1 <= d <= 31,
{
    chrono::NaiveDate::parse_from_str(text, format).ok().map(|d| (d.year(), d.month(), d.day()))
}

/// What [`parse_date`] yields for `text`.
pub open spec fn date_of(text: Seq<char>) -> Option<CalendarDate> {
    match parsed_date(text, DATE_FORMAT@) {
        Some((y, m, d)) => Some(CalendarDate { year: y, month: m, day: d }),
        None => None,
    }
}

/// Reads `text` as a date in [`DATE_FORMAT`].
pub fn parse_date(text: &str) -> (r: Option<CalendarDate>)
    ensures
        r == date_of(text@),
{
    match parse_date_text(text, DATE_FORMAT) {
        Some((y, m, d)) => Some(CalendarDate { year: y, month: m, day: d }),
        None => None,
    }
}

/// The date of a record: the parsed date and the text it was read from.
#[derive(Clone, Debug, PartialEq, Eq)]
pub struct DateKey {
    pub naive_date: CalendarDate,
    pub date_string: String,
}

/// The title of one entry of a record.
#[derive(Clone, Debug, PartialEq, Eq)]
pub struct EntryKey {
    pub title: String,
}

/// The text value of one entry of a record.
#[derive(Clone, Debug, PartialEq, Eq)]
pub struct EntryValue {
    pub string_value: String,
}

/// One record: a date and its entries in their order of insertion.
#[derive(Clone, Debug, PartialEq, Eq)]
pub struct DayDataParsed {
    pub date: DateKey,
    pub entries: Vec<(EntryKey, EntryValue)>,
}

/// Index of the first entry from `i` on whose title is `title`, or `entries.len()`.
pub open spec fn find_entry(entries: Seq<(EntryKey, EntryValue)>, title: Seq<char>, i: int) -> int
    decreases entries.len() - i,
{
    if i < 0 || i >= entries.len() {
        entries.len() as int
    } else if entries[i].0.title@ == title {
        i
    } else {
        find_entry(entries, title, i + 1)
    }
}

impl DayDataParsed {
    /// The value stored under `title`, if an entry has that title.
    pub open spec fn value_of(&self, title: Seq<char>) -> Option<Seq<char>> {
        let i = find_entry(self.entries@, title, 0);
        if i < self.entries@.len() {
            Some(self.entries@[i].1.string_value@)
        } else {
            None
        }
    }
}

/// A record as read from storage: the date and the entries as plain text.
#[derive(Clone, Debug)]
pub struct DayDataUnparsed {
    pub date: String,
    pub entries: Vec<(String, String)>,
}

/// Why records could not be read.
#[derive(Debug, PartialEq)]
pub enum ParseError {
    /// The date text does not read as a date in [`DATE_FORMAT`].
    InvalidDate(String),
    /// Two records carry the same date text.
    DuplicateDate(String),
}

impl ParseError {
    /// A sentence that describes the error to a user.
    pub fn message(&self) -> (r: String)
        ensures
            r@ == match self {
                ParseError::InvalidDate(d) => "The date '"@ + d@ + "' is unparseable!"@,
                ParseError::DuplicateDate(d) => "The date '"@ + d@ + "' is contained multiple times!"@,
            },
    {
        match self {
            ParseError::InvalidDate(d) => String::from_str("The date '").concat(d.as_str()).concat(
                "' is unparseable!",
            ),
            ParseError::DuplicateDate(d) => String::from_str("The date '").concat(
                d.as_str(),
            ).concat("' is contained multiple times!"),
        }
    }
}

/// The entries of a parsed record as pairs of texts.
pub open spec fn entry_pairs(entries: Seq<(EntryKey, EntryValue)>) -> Seq<(Seq<char>, Seq<char>)> {
    entries.map_values(|e: (EntryKey, EntryValue)| (e.0.title@, e.1.string_value@))
}

/// The entries of an unparsed record as pairs of texts.
pub open spec fn string_pairs(entries: Seq<(String, String)>) -> Seq<(Seq<char>, Seq<char>)> {
    entries.map_values(|e: (String, String)| (e.0@, e.1@))
}

/// Index of the first pair from `i` on whose title is `title`, or `m.len()`.
pub open spec fn find_title(m: Seq<(Seq<char>, Seq<char>)>, title: Seq<char>, i: int) -> int
    decreases m.len() - i,
{
    if i < 0 || i >= m.len() {
        m.len() as int
    } else if m[i].0 == title {
        i
    } else {
        find_title(m, title, i + 1)
    }
}

/// Inserts a pair as an insertion-ordered map does: a new title goes to the
/// end; a title already present keeps its place and takes the new value.
pub open spec fn insert_pair(m: Seq<(Seq<char>, Seq<char>)>, p: (Seq<char>, Seq<char>)) -> Seq<(Seq<char>, Seq<char>)> {
    let i = find_title(m, p.0, 0);
    if i < m.len() {
        m.update(i, p)
    } else {
        m.push(p)
    }
}

/// The entries that inserting `pairs` one after another gives.
pub open spec fn insert_pairs(pairs: Seq<(Seq<char>, Seq<char>)>) -> Seq<(Seq<char>, Seq<char>)>
    decreases pairs.len(),
{
    if pairs.len() == 0 {
        seq![]
    } else {
        insert_pair(insert_pairs(pairs.drop_last()), pairs.last())
    }
}

/// No two pairs share a title.
pub open spec fn distinct_titles(m: Seq<(Seq<char>, Seq<char>)>) -> bool {
    forall|i: int, j: int| 0 <= i < j < m.len() ==> (#[trigger] m[i]).0 != (#[trigger] m[j]).0
}

proof fn lemma_find_title(m: Seq<(Seq<char>, Seq<char>)>, title: Seq<char>, from: int)
    requires
        0 <= from <= m.len(),
    ensures
        from <= find_title(m, title, from) <= m.len(),
        find_title(m, title, from) < m.len() ==> m[find_title(m, title, from)].0 == title,
        find_title(m, title, from) == m.len() ==> forall|j: int| from <= j < m.len() ==> m[j].0 != title,
    decreases m.len() - from,
{
    if from < m.len() && m[from].0 != title {
        lemma_find_title(m, title, from + 1);
    }
}

proof fn lemma_insert_keeps_distinct(m: Seq<(Seq<char>, Seq<char>)>, p: (Seq<char>, Seq<char>))
    requires
        distinct_titles(m),
    ensures
        distinct_titles(insert_pair(m, p)),
{
    lemma_find_title(m, p.0, 0);
    let r = insert_pair(m, p);
    assert forall|i: int, j: int| 0 <= i < j < r.len() implies (#[trigger] r[i]).0 != (#[trigger] r[j]).0 by {
        if find_title(m, p.0, 0) == m.len() && j == m.len() {
            assert(r[i] == m[i]);
        }
    }
}

proof fn lemma_insert_pairs_distinct(pairs: Seq<(Seq<char>, Seq<char>)>)
    ensures
        distinct_titles(insert_pairs(pairs)),
    decreases pairs.len(),
{
    if pairs.len() > 0 {
        lemma_insert_pairs_distinct(pairs.drop_last());
        lemma_insert_keeps_distinct(insert_pairs(pairs.drop_last()), pairs.last());
    }
}

impl DayDataParsed {
    /// No two entries share a title.
    pub open spec fn wf(&self) -> bool {
        distinct_titles(entry_pairs(self.entries@))
    }
}

/// `p` is what parsing `u` gives: the same date text, read as a date, and the
/// entries of `u` inserted in order, so that each title appears once.
pub open spec fn parsed_from(p: DayDataParsed, u: DayDataUnparsed) -> bool {
    &&& p.date.date_string@ == u.date@
    &&& date_of(u.date@) == Some(p.date.naive_date)
    &&& entry_pairs(p.entries@) == insert_pairs(string_pairs(u.entries@))
}

fn parse_day(unparsed: &DayDataUnparsed) -> (r: Result<DayDataParsed, ParseError>)
    ensures
        match r {
            Ok(d) => parsed_from(d, *unparsed) && d.wf(),
            Err(ParseError::InvalidDate(s)) => date_of(unparsed.date@).is_none() && s@
                == unparsed.date@,
            Err(_) => false,
        },
{
    let naive_date = match parse_date(unparsed.date.as_str()) {
        Some(d) => d,
        None => {
            return Err(ParseError::InvalidDate(unparsed.date.clone()));
        },
    };
    let ghost pairs = string_pairs(unparsed.entries@);
    let mut entries: Vec<(EntryKey, EntryValue)> = Vec::new();
    let mut i: usize = 0;
    assert(entry_pairs(entries@) =~= insert_pairs(pairs.subrange(0, 0)));
    while i < unparsed.entries.len()
        invariant
            i <= unparsed.entries@.len(),
            pairs == string_pairs(unparsed.entries@),
            entry_pairs(entries@) == insert_pairs(pairs.subrange(0, i as int)),
        decreases unparsed.entries@.len() - i,
    {
        let ghost m = entry_pairs(entries@);
        let ghost p = pairs[i as int];
        assert(pairs.subrange(0, i + 1).drop_last() =~= pairs.subrange(0, i as int));
        assert(pairs.subrange(0, i + 1).last() == p);
        let title = &unparsed.entries[i].0;
        let mut j: usize = 0;
        while j < entries.len() && entries[j].0.title != *title
            invariant
                j <= entries@.len(),
                m == entry_pairs(entries@),
                p.0 == title@,
                find_title(m, p.0, 0) == find_title(m, p.0, j as int),
            decreases entries@.len() - j,
        {
            j += 1;
        }
        let key = EntryKey { title: title.clone() };
        let value = EntryValue { string_value: unparsed.entries[i].1.clone() };
        if j < entries.len() {
            entries.set(j, (key, value));
            assert(entry_pairs(entries@) =~= m.update(j as int, p));
        } else {
            entries.push((key, value));
            assert(entry_pairs(entries@) =~= m.push(p));
        }
        i += 1;
    }
    assert(pairs.subrange(0, i as int) =~= pairs);
    proof {
        lemma_insert_pairs_distinct(pairs);
    }
    Ok(
        DayDataParsed {
            date: DateKey { naive_date, date_string: unparsed.date.clone() },
            entries,
        },
    )
}

/// Reads one record: its date must read in [`DATE_FORMAT`]; the entries are
/// kept in order, and a repeated title keeps its first place and takes its
/// last value.
pub fn parse(unparsed: DayDataUnparsed) -> (r: Result<DayDataParsed, ParseError>)
    ensures
        match r {
            Ok(d) => parsed_from(d, unparsed) && d.wf(),
            Err(ParseError::InvalidDate(s)) => date_of(unparsed.date@).is_none() && s@
                == unparsed.date@,
            Err(_) => false,
        },
{
    parse_day(&unparsed)
}

/// Some record before index `i` carries the same date text as record `i`.
pub open spec fn repeats_date(days: Seq<DayDataUnparsed>, i: int) -> bool {
    exists|j: int| 0 <= j < i && (#[trigger] days[j]).date@ == days[i].date@
}

/// Record `i` cannot be taken: its date text repeats or does not read.
pub open spec fn rejected(days: Seq<DayDataUnparsed>, i: int) -> bool {
    repeats_date(days, i) || date_of(days[i].date@).is_none()
}

/// Record `i` is the first that cannot be taken.
pub open spec fn first_rejected(days: Seq<DayDataUnparsed>, i: int) -> bool {
    &&& 0 <= i < days.len()
    &&& rejected(days, i)
    &&& forall|j: int| 0 <= j < i ==> !#[trigger] rejected(days, j)
}

/// The records are in calendar order of their dates.
pub open spec fn sorted_by_date(v: Seq<DayDataParsed>) -> bool {
    forall|a: int, b: int|
        0 <= a < b < v.len() ==> !(#[trigger] v[b]).date.naive_date.spec_before(
            (#[trigger] v[a]).date.naive_date,
        )
}

/// `v` holds the parsed form of every record of `days`, none rejected, one
/// for one, in calendar order, each with distinct entry titles.
pub open spec fn sorted_parse_of(v: Seq<DayDataParsed>, days: Seq<DayDataUnparsed>) -> bool {
    &&& forall|i: int| 0 <= i < days.len() ==> !#[trigger] rejected(days, i)
    &&& v.len() == days.len()
    &&& sorted_by_date(v)
    &&& forall|k: int| 0 <= k < v.len() ==> (#[trigger] v[k]).wf()
    &&& forall|i: int| 0 <= i < days.len() ==> has_parsed_form(v, #[trigger] days[i])
}

/// Some record of `v` is the parsed form of `u`.
pub open spec fn has_parsed_form(v: Seq<DayDataParsed>, u: DayDataUnparsed) -> bool {
    exists|k: int| 0 <= k < v.len() && parsed_from(#[trigger] v[k], u)
}

/// Reads all records and orders them by date. Fails on the first record whose
/// date text repeats an earlier one or does not read as a date.
pub fn parse_and_sort_by_date(unparsed_days: Vec<DayDataUnparsed>) -> (r: Result<Vec<DayDataParsed>, ParseError>)
    ensures
        match r {
            Ok(v) => sorted_parse_of(v@, unparsed_days@),
            Err(ParseError::DuplicateDate(s)) => exists|i: int|
                first_rejected(unparsed_days@, i) && repeats_date(unparsed_days@, i) && s@
                    == unparsed_days@[i].date@,
            Err(ParseError::InvalidDate(s)) => exists|i: int|
                first_rejected(unparsed_days@, i) && !repeats_date(unparsed_days@, i) && s@
                    == unparsed_days@[i].date@,
        },
{
    let ghost days = unparsed_days@;
    let mut sorted: Vec<DayDataParsed> = Vec::new();
    let mut i: usize = 0;
    while i < unparsed_days.len()
        invariant
            i <= days.len(),
            days == unparsed_days@,
            sorted@.len() == i,
            sorted_by_date(sorted@),
            forall|k: int| 0 <= k < sorted@.len() ==> (#[trigger] sorted@[k]).wf(),
            forall|j: int| 0 <= j < i ==> !#[trigger] rejected(days, j),
            forall|j: int| 0 <= j < i ==> has_parsed_form(sorted@, #[trigger] days[j]),
        decreases days.len() - i,
    {
        let mut j: usize = 0;
        while j < i
            invariant
                j <= i < days.len(),
                days == unparsed_days@,
                forall|q: int| 0 <= q < i ==> !#[trigger] rejected(days, q),
                forall|q: int| 0 <= q < j ==> (#[trigger] days[q]).date@ != days[i as int].date@,
            decreases i - j,
        {
            if unparsed_days[j].date == unparsed_days[i].date {
                assert(days[j as int].date@ == days[i as int].date@);
                assert(repeats_date(days, i as int));
                assert(first_rejected(days, i as int));
                return Err(ParseError::DuplicateDate(unparsed_days[i].date.clone()));
            }
            j += 1;
        }
        assert(!repeats_date(days, i as int));
        let day = match parse_day(&unparsed_days[i]) {
            Ok(d) => d,
            Err(e) => {
                assert(first_rejected(days, i as int));
                return Err(e);
            },
        };
        let mut pos: usize = 0;
        while pos < sorted.len() && !day.date.naive_date.is_before(&sorted[pos].date.naive_date)
            invariant
                pos <= sorted@.len(),
                forall|k: int|
                    0 <= k < pos ==> !day.date.naive_date.spec_before(
                        (#[trigger] sorted@[k]).date.naive_date,
                    ),
            decreases sorted@.len() - pos,
        {
            pos += 1;
        }
        let ghost old_sorted = sorted@;
        proof {
            old_sorted.insert_ensures(pos as int, day);
        }
        sorted.insert(pos, day);
        proof {
            let ns = sorted@;
            assert forall|a: int, b: int| 0 <= a < b < ns.len() implies !(#[trigger] ns[b]).date.naive_date.spec_before(
                (#[trigger] ns[a]).date.naive_date,
            ) by {
                if b < pos {
                } else if b == pos {
                    assert(ns[a] == old_sorted[a]);
                } else if a < pos {
                    assert(ns[b] == old_sorted[b - 1]);
                    assert(ns[a] == old_sorted[a]);
                } else if a == pos {
                    assert(ns[b] == old_sorted[b - 1]);
                    assert(!old_sorted[b - 1].date.naive_date.spec_before(old_sorted[pos as int].date.naive_date));
                } else {
                    assert(ns[b] == old_sorted[b - 1]);
                    assert(ns[a] == old_sorted[a - 1]);
                }
            }
            assert forall|q: int| 0 <= q < i + 1 implies has_parsed_form(ns, #[trigger] days[q]) by {
                if q == i {
                    assert(parsed_from(ns[pos as int], days[q]));
                } else {
                    assert(has_parsed_form(old_sorted, days[q]));
                    let k = choose|k: int| 0 <= k < old_sorted.len() && parsed_from(old_sorted[k], days[q]);
                    if k < pos {
                        assert(parsed_from(ns[k], days[q]));
                    } else {
                        assert(parsed_from(ns[k + 1], days[q]));
                    }
                }
            }
            assert(forall|q: int| 0 <= q < i + 1 ==> !#[trigger] rejected(days, q));
            assert forall|q: int| 0 <= q < ns.len() implies (#[trigger] ns[q]).wf() by {
                if q < pos {
                    assert(ns[q] == old_sorted[q]);
                } else if q > pos {
                    assert(ns[q] == old_sorted[q - 1]);
                }
            }
        }
        i += 1;
    }
    assert(sorted_parse_of(sorted@, days));
    Ok(sorted)
}

} // verus!
