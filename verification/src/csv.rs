//! Bulk CSV emission: whole columns are formatted at once, then joined row by row.
//!
//! A column is given by a vector tagged by its first element:
//!
//!   [:d double-array]   doubles; NaN gives an empty field
//!   [:l long-array]     longs
//!   [:date long-array]  epoch-day numbers rendered as YYYY-MM-DD
//!   [:ts days secs]     two long-arrays rendered as "YYYY-MM-DD HH:MM:SS"
//!   [:s vec]            per-row strings (nil gives an empty field), CSV-escaped
//!   [:const s]          the same string for every row (nil gives an empty field)
//!
//! All non-const columns share one length; that length is the row count. How a double prints is
//! given by a table of texts.

use vstd::prelude::*;
use std::collections::HashMap;
use crate::calendar::{day_number, law_dates_are_unique, valid_date};
use crate::calendar::civil_from_days;
use crate::codec::double_is_nan;
use crate::decimal::{digits, int_text, padded_int};
use crate::decimal::{int_string, push_digits, push_padded_int};
use crate::text::{push_text, same_text, text_copy};
use crate::value::{kind_of, lemma_views, vals, Val};
use crate::value::Value;

verus! {

/// How each double prints, by its bit pattern.
pub type DoubleTexts = HashMap<u64, String>;

/// How a double prints.
pub open spec fn double_text(texts: Map<u64, String>, bits: u64) -> Seq<char> {
    texts[bits]@
}

fn print_double(texts: &DoubleTexts, bits: u64) -> (r: String)
    requires
        texts@.contains_key(bits),
    ensures
        r@ == double_text(texts@, bits),
{
    broadcast use vstd::std_specs::hash::group_hash_axioms;

    match texts.get(&bits) {
        Some(s) => s.clone(),
        None => String::new(),
    }
}

// ---------------------------------------------------------------------------
// Cells
// ---------------------------------------------------------------------------

/// The text needs quotes: it has a comma, a quote or a line break.
pub open spec fn needs_quotes(s: Seq<char>) -> bool {
    exists|i: int| 0 <= i < s.len() && is_special(#[trigger] s[i])
}

/// A character that a bare cell cannot hold.
pub open spec fn is_special(c: char) -> bool {
    c == ',' || c == '"' || c == '\n'
}

/// The text with each quote doubled.
pub open spec fn doubled(s: Seq<char>) -> Seq<char>
    decreases s.len(),
{
    if s.len() == 0 {
        Seq::empty()
    } else if s.last() == '"' {
        doubled(s.drop_last()).push('"').push('"')
    } else {
        doubled(s.drop_last()).push(s.last())
    }
}

/// A text as a cell.
pub open spec fn escaped_cell(s: Seq<char>) -> Seq<char> {
    if needs_quotes(s) {
        seq!['"'] + doubled(s) + seq!['"']
    } else {
        s
    }
}

/// The text with each doubled quote single again.
pub open spec fn undoubled(s: Seq<char>) -> Seq<char>
    decreases s.len(),
{
    if s.len() == 0 {
        Seq::empty()
    } else if s.last() == '"' && s.len() >= 2 {
        undoubled(s.drop_last().drop_last()).push('"')
    } else {
        undoubled(s.drop_last()).push(s.last())
    }
}

/// The text that a cell stands for.
pub open spec fn cell_text(c: Seq<char>) -> Seq<char> {
    if c.len() >= 2 && c[0] == '"' {
        undoubled(c.subrange(1, c.len() - 1))
    } else {
        c
    }
}

proof fn lemma_undoubled(s: Seq<char>)
    ensures
        undoubled(doubled(s)) == s,
    decreases s.len(),
{
    if s.len() > 0 {
        lemma_undoubled(s.drop_last());
        let rest = doubled(s.drop_last());
        if s.last() == '"' {
            let d = rest.push('"').push('"');
            assert(d.drop_last().drop_last() =~= rest);
        } else {
            assert(rest.push(s.last()).drop_last() =~= rest);
        }
        assert(s.drop_last().push(s.last()) =~= s);
    }
}

/// A cell stands for the text that it was made from.
pub proof fn law_cells_read_back(s: Seq<char>)
    ensures
        cell_text(escaped_cell(s)) == s,
{
    if needs_quotes(s) {
        let c = escaped_cell(s);
        lemma_undoubled(s);
        assert(c.subrange(1, c.len() - 1) =~= doubled(s));
    } else if s.len() > 0 {
        assert(!is_special(s[0]));
    }
}

/// A text as a cell: quoted where it has a comma, a quote or a line break.
pub fn escape(s: &str) -> (r: String)
    ensures
        r@ == escaped_cell(s@),
{
    let mut special = false;
    for c in it: s.chars()
        invariant
            it.seq() == s@,
            special == exists|i: int| 0 <= i < it.index() && is_special(#[trigger] s@[i]),
    {
        assert(s@[it.index() as int] == c);
        if c == ',' || c == '"' || c == '\n' {
            assert(is_special(s@[it.index() as int]));
            special = true;
        }
    }
    if !special {
        return text_copy(s);
    }
    let mut r = String::new();
    r.push('"');
    assert(s@.take(0) =~= Seq::empty());
    assert(r@ =~= seq!['"'] + doubled(s@.take(0)));
    for c in it: s.chars()
        invariant
            it.seq() == s@,
            r@ == seq!['"'] + doubled(s@.take(it.index() as int)),
    {
        proof {
            let seen = s@.take(it.index() + 1);
            assert(seen.drop_last() =~= s@.take(it.index() as int));
            assert(seen.last() == c);
        }
        let ghost before = r@;
        if c == '"' {
            r.push('"');
        }
        r.push(c);
        assert(r@ =~= seq!['"'] + doubled(s@.take(it.index() + 1)));
    }
    assert(s@.take(s@.len() as int) =~= s@);
    r.push('"');
    assert(r@ =~= seq!['"'] + doubled(s@) + seq!['"']);
    r
}

/// A date as YYYY-MM-DD.
pub open spec fn date_text(y: int, m: int, d: int) -> Seq<char> {
    padded_int(y, 4) + seq!['-'] + padded_int(m, 2) + seq!['-'] + padded_int(d, 2)
}

/// `text` is the date of the day.
pub open spec fn is_day_text(text: Seq<char>, day: int) -> bool {
    exists|y: int, m: int, d: int| #[trigger]
        valid_date(y, m, d) && day_number(y, m, d) == day && text == date_text(y, m, d)
}

/// A time of day as HH:MM:SS.
pub open spec fn clock_text(secs: int) -> Seq<char> {
    padded_int(secs / 3600, 2) + seq![':'] + padded_int((secs % 3600) / 60, 2) + seq![':']
        + padded_int(secs % 60, 2)
}

/// `text` is the date and time: seconds past a day carry into the next.
pub open spec fn is_ts_text(text: Seq<char>, day: int, secs: int) -> bool {
    exists|date: Seq<char>| #[trigger]
        is_day_text(date, day + secs / 86_400) && text == date + seq![' '] + clock_text(
            secs % 86_400,
        )
}

/// A day that can be rendered.
pub open spec fn day_fits(day: int) -> bool {
    i64::MIN <= day <= i64::MAX - 719_468
}

/// An epoch day as YYYY-MM-DD.
pub fn day_str(day: i64) -> (r: String)
    requires
        day_fits(day as int),
    ensures
        is_day_text(r@, day as int),
{
    let (y, m, d) = civil_from_days(day);
    let mut r = String::new();
    push_padded_int(&mut r, y, 4);
    r.push('-');
    push_padded_int(&mut r, m, 2);
    r.push('-');
    push_padded_int(&mut r, d, 2);
    assert(r@ =~= date_text(y as int, m as int, d as int));
    assert(valid_date(y as int, m as int, d as int));
    r
}

fn days_of(secs: i64) -> (r: i64)
    ensures
        r == (secs as int) / 86_400,
{
    let q: i64 = secs / 86_400;
    if secs % 86_400 < 0 {
        q - 1
    } else {
        q
    }
}

/// An epoch day and seconds as "YYYY-MM-DD HH:MM:SS".
pub fn ts_str(day: i64, secs: i64) -> (r: String)
    requires
        day_fits(day + (secs as int) / 86_400),
    ensures
        is_ts_text(r@, day as int, secs as int),
{
    let carry: i64 = days_of(secs);
    let t: i64 = secs % 86_400;
    let rest: i64 = if t < 0 {
        t + 86_400
    } else {
        t
    };
    assert(rest == (secs as int) % 86_400);
    let mut r = day_str(day + carry);
    let ghost date = r@;
    r.push(' ');
    push_padded_int(&mut r, rest / 3600, 2);
    r.push(':');
    push_padded_int(&mut r, (rest % 3600) / 60, 2);
    r.push(':');
    push_padded_int(&mut r, rest % 60, 2);
    assert(r@ =~= date + seq![' '] + clock_text(rest as int));
    assert(is_day_text(date, day + (secs as int) / 86_400));
    r
}

// ---------------------------------------------------------------------------
// Columns
// ---------------------------------------------------------------------------

/// One column of a table.
#[derive(Debug)]
pub enum Column {
    /// Epoch days and seconds of day; seconds past a day carry into the next.
    Timestamps(Vec<i64>, Vec<i64>),
    Doubles(Vec<u64>),
    Longs(Vec<i64>),
    Dates(Vec<i64>),
    Strings(Vec<Option<String>>),
    Const(String),
}

/// What a [`Column`] holds.
pub enum ColumnView {
    Timestamps(Seq<i64>, Seq<i64>),
    Doubles(Seq<u64>),
    Longs(Seq<i64>),
    Dates(Seq<i64>),
    Strings(Seq<Option<Seq<char>>>),
    Const(Seq<char>),
}

/// What an optional text holds.
pub open spec fn optional_text(v: Option<String>) -> Option<Seq<char>> {
    match v {
        Some(s) => Some(s@),
        None => None,
    }
}

/// What optional texts hold.
pub open spec fn cell_texts(v: Seq<Option<String>>) -> Seq<Option<Seq<char>>> {
    Seq::new(v.len(), |i: int| optional_text(v[i]))
}

impl Column {
    /// What the column holds.
    pub open spec fn view(&self) -> ColumnView {
        match self {
            Column::Timestamps(d, s) => ColumnView::Timestamps(d@, s@),
            Column::Doubles(v) => ColumnView::Doubles(v@),
            Column::Longs(v) => ColumnView::Longs(v@),
            Column::Dates(v) => ColumnView::Dates(v@),
            Column::Strings(v) => ColumnView::Strings(cell_texts(v@)),
            Column::Const(s) => ColumnView::Const(s@),
        }
    }

    /// The number of rows; a constant column fits any.
    pub fn len(&self) -> (r: Option<usize>)
        ensures
            (match r {
                Some(n) => Some(n as nat),
                None => None,
            }) == column_len(self.view()),
    {
        match self {
            Column::Doubles(v) => Some(v.len()),
            Column::Longs(v) => Some(v.len()),
            Column::Dates(v) => Some(v.len()),
            Column::Timestamps(d, _) => Some(d.len()),
            Column::Strings(v) => Some(v.len()),
            Column::Const(_) => None,
        }
    }
}

/// The number of rows of a column; a constant column fits any.
pub open spec fn column_len(c: ColumnView) -> Option<nat> {
    match c {
        ColumnView::Doubles(v) => Some(v.len()),
        ColumnView::Longs(v) => Some(v.len()),
        ColumnView::Dates(v) => Some(v.len()),
        ColumnView::Timestamps(d, _) => Some(d.len()),
        ColumnView::Strings(v) => Some(v.len()),
        ColumnView::Const(_) => None,
    }
}

/// The cell of a string column: the text, nothing for nil, or an error.
pub open spec fn cell_of(v: Val, texts: Map<u64, String>) -> Result<Option<Seq<char>>, Seq<char>> {
    match v {
        Val::Nil => Ok(None),
        Val::Str(s) => Ok(Some(s)),
        Val::Bool(b) => Ok(Some(if b { "true"@ } else { "false"@ })),
        Val::Long(n) => Ok(Some(int_text(n as int))),
        Val::Double(x) => Ok(Some(double_text(texts, x))),
        other => Err(
            "string column cells must be string/bool/number/nil, got "@ + kind_of(other),
        ),
    }
}

/// The cells of a string column: the first that is none is the error.
pub open spec fn cells_of(v: Seq<Val>, texts: Map<u64, String>) -> Result<
    Seq<Option<Seq<char>>>,
    Seq<char>,
>
    decreases v.len(),
{
    if v.len() == 0 {
        Ok(Seq::empty())
    } else {
        match cells_of(v.drop_last(), texts) {
            Ok(cells) => match cell_of(v.last(), texts) {
                Ok(cell) => Ok(cells.push(cell)),
                Err(e) => Err(e),
            },
            Err(e) => Err(e),
        }
    }
}

/// The text of a cell; nothing for nil.
pub open spec fn cell_or_empty(c: Option<Seq<char>>) -> Seq<char> {
    match c {
        Some(s) => s,
        None => Seq::empty(),
    }
}

/// What a column specification without a fitting payload fails with.
pub open spec fn bad_payload(tag: Seq<char>, payload: Option<Val>) -> Seq<char> {
    match payload {
        Some(p) => "bad column spec [:"@ + tag + " "@ + kind_of(p)
            + "]: expected [:d double-array], [:l long-array], [:date long-array], [:s vector], or [:const string]"@,
        None => "column spec [:"@ + tag + "] is missing its payload"@,
    }
}

/// The column of timestamps that a specification gives.
pub open spec fn ts_column(days: Seq<i64>, secs: Option<Val>) -> Result<ColumnView, Seq<char>> {
    match secs {
        Some(Val::LongArray(s)) => if days.len() != s.len() {
            Err(
                "[:ts] day/second arrays differ: "@ + digits(days.len()) + " vs "@ + digits(
                    s.len(),
                ),
            )
        } else {
            Ok(ColumnView::Timestamps(days, s))
        },
        _ => Err("[:ts] needs two long-arrays: epoch-days and seconds-of-day"@),
    }
}

/// The column that a tag and its payload give.
pub open spec fn tagged_column(
    tag: Seq<char>,
    payload: Option<Val>,
    third: Option<Val>,
    texts: Map<u64, String>,
) -> Result<ColumnView, Seq<char>> {
    if tag == "d"@ && payload is Some && payload->0 is DoubleArray {
        Ok(ColumnView::Doubles(payload->0->DoubleArray_0))
    } else if tag == "l"@ && payload is Some && payload->0 is LongArray {
        Ok(ColumnView::Longs(payload->0->LongArray_0))
    } else if tag == "date"@ && payload is Some && payload->0 is LongArray {
        Ok(ColumnView::Dates(payload->0->LongArray_0))
    } else if tag == "ts"@ && payload is Some && payload->0 is LongArray {
        ts_column(payload->0->LongArray_0, third)
    } else if tag == "s"@ && payload is Some && payload->0 is Vector {
        match cells_of(payload->0->Vector_0, texts) {
            Ok(cells) => Ok(ColumnView::Strings(cells)),
            Err(e) => Err(e),
        }
    } else if tag == "const"@ {
        match payload {
            None => Ok(ColumnView::Const(Seq::empty())),
            Some(v) => match cell_of(v, texts) {
                Ok(c) => Ok(ColumnView::Const(cell_or_empty(c))),
                Err(e) => Err(e),
            },
        }
    } else {
        Err(bad_payload(tag, payload))
    }
}

/// The element at `i`, if there is one.
pub open spec fn element(items: Seq<Val>, i: int) -> Option<Val> {
    if 0 <= i < items.len() {
        Some(items[i])
    } else {
        None
    }
}

/// A column with a tag and a payload prints the double: it is an element of a double column other
/// than NaN, a cell of a string column or a constant.
pub open spec fn payload_prints(tag: Seq<char>, payload: Option<Val>, bits: u64) -> bool {
    match payload {
        Some(Val::DoubleArray(a)) => tag == "d"@ && !double_is_nan(bits) && a.contains(bits),
        Some(Val::Vector(cells)) => tag == "s"@ && cells.contains(Val::Double(bits)),
        Some(Val::Double(x)) => tag == "const"@ && x == bits,
        _ => false,
    }
}

/// The column that a specification gives prints the double.
pub open spec fn prints(spec_value: Val, bits: u64) -> bool {
    match spec_value {
        Val::Vector(items) => items.len() > 0 && items[0] is Keyword && payload_prints(
            items[0]->Keyword_0.name,
            element(items, 1),
            bits,
        ),
        _ => false,
    }
}

/// Every double that the column prints has its text.
pub open spec fn has_texts(spec_value: Val, texts: Map<u64, String>) -> bool {
    forall|bits: u64| #[trigger] prints(spec_value, bits) ==> texts.contains_key(bits)
}

/// The column that a specification gives.
pub open spec fn column_of(spec_value: Val, texts: Map<u64, String>) -> Result<
    ColumnView,
    Seq<char>,
> {
    match spec_value {
        Val::Vector(items) => if items.len() > 0 && items[0] is Keyword {
            tagged_column(
                items[0]->Keyword_0.name,
                element(items, 1),
                element(items, 2),
                texts,
            )
        } else {
            Err("column spec must start with a keyword tag"@)
        },
        other => Err("column spec must be a vector, got "@ + kind_of(other)),
    }
}

fn bool_text(b: bool) -> (r: String)
    ensures
        r@ == if b {
            "true"@
        } else {
            "false"@
        },
{
    if b {
        text_copy("true")
    } else {
        text_copy("false")
    }
}

/// The view of an optional cell.
pub open spec fn cell_view(r: Result<Option<String>, String>) -> Result<
    Option<Seq<char>>,
    Seq<char>,
> {
    match r {
        Ok(Some(s)) => Ok(Some(s@)),
        Ok(None) => Ok(None),
        Err(e) => Err(e@),
    }
}

/// The cell of a string column.
pub fn string_cell(v: &Value, texts: &DoubleTexts) -> (r: Result<Option<String>, String>)
    requires
        v.view() matches Val::Double(x) ==> texts@.contains_key(x),
    ensures
        cell_view(r) == cell_of(v.view(), texts@),
{
    match v {
        Value::Nil => Ok(None),
        Value::Str(s) => Ok(Some(s.clone())),
        Value::Bool(b) => Ok(Some(bool_text(*b))),
        Value::Long(n) => Ok(Some(int_string(*n))),
        Value::Double(x) => Ok(Some(print_double(texts, *x))),
        other => {
            let mut m = text_copy("string column cells must be string/bool/number/nil, got ");
            push_text(&mut m, other.kind());
            Err(m)
        },
    }
}

/// The view of a column or an error.
pub open spec fn column_view(r: Result<Column, String>) -> Result<ColumnView, Seq<char>> {
    match r {
        Ok(c) => Ok(c.view()),
        Err(e) => Err(e@),
    }
}

fn longs_copy(a: &Vec<i64>) -> (r: Vec<i64>)
    ensures
        r@ == a@,
{
    let mut r: Vec<i64> = Vec::new();
    for i in 0..a.len()
        invariant
            r@ == a@.take(i as int),
    {
        r.push(a[i]);
        assert(a@.take(i + 1) =~= a@.take(i as int).push(a@[i as int]));
    }
    assert(a@.take(a@.len() as int) =~= a@);
    r
}

fn bits_copy(a: &Vec<u64>) -> (r: Vec<u64>)
    ensures
        r@ == a@,
{
    let mut r: Vec<u64> = Vec::new();
    for i in 0..a.len()
        invariant
            r@ == a@.take(i as int),
    {
        r.push(a[i]);
        assert(a@.take(i + 1) =~= a@.take(i as int).push(a@[i as int]));
    }
    assert(a@.take(a@.len() as int) =~= a@);
    r
}

fn string_column(cells: &Vec<Value>, texts: &DoubleTexts) -> (r: Result<Column, String>)
    requires
        forall|bits: u64| #[trigger]
            vals(cells@).contains(Val::Double(bits)) ==> texts@.contains_key(bits),
    ensures
        column_view(r) == (match cells_of(vals(cells@), texts@) {
            Ok(cells) => Ok::<ColumnView, Seq<char>>(ColumnView::Strings(cells)),
            Err(e) => Err(e),
        }),
{
    let ghost all = vals(cells@);
    let mut out: Vec<Option<String>> = Vec::new();
    assert(cell_texts(out@) =~= Seq::empty());
    assert(all.take(0) =~= Seq::empty());
    for i in 0..cells.len()
        invariant
            all == vals(cells@),
            forall|bits: u64| #[trigger]
                all.contains(Val::Double(bits)) ==> texts@.contains_key(bits),
            cells_of(all.take(i as int), texts@) == Ok::<Seq<Option<Seq<char>>>, Seq<char>>(
                cell_texts(out@),
            ),
    {
        proof {
            let seen = all.take(i + 1);
            assert(seen.drop_last() =~= all.take(i as int));
            assert(seen.last() == cells@[i as int].view());
            assert(all[i as int] == cells@[i as int].view());
            if let Val::Double(x) = cells@[i as int].view() {
                assert(all.contains(Val::Double(x)));
            }
        }
        match string_cell(&cells[i], texts) {
            Ok(cell) => {
                let ghost before = out@;
                let ghost v = optional_text(cell);
                out.push(cell);
                assert(cell_texts(out@) =~= cell_texts(before).push(v));
            },
            Err(e) => {
                proof {
                    lemma_first_error(all, texts@, i + 1);
                }
                return Err(e);
            },
        }
    }
    assert(all.take(all.len() as int) =~= all);
    Ok(Column::Strings(out))
}

/// An error among the first `k` cells is the error of all.
proof fn lemma_first_error(v: Seq<Val>, texts: Map<u64, String>, k: int)
    requires
        0 <= k <= v.len(),
        cells_of(v.take(k), texts) is Err,
    ensures
        cells_of(v, texts) == cells_of(v.take(k), texts),
    decreases v.len() - k,
{
    if k < v.len() {
        assert(v.take(k + 1).drop_last() =~= v.take(k));
        lemma_first_error(v, texts, k + 1);
    } else {
        assert(v.take(k) =~= v);
    }
}

fn ts_columns(days: &Vec<i64>, secs: Option<&Value>) -> (r: Result<Column, String>)
    ensures
        column_view(r) == ts_column(
            days@,
            match secs {
                Some(v) => Some(v.view()),
                None => None,
            },
        ),
{
    match secs {
        Some(Value::LongArray(s)) => {
            if days.len() != s.len() {
                let mut m = text_copy("[:ts] day/second arrays differ: ");
                push_digits(&mut m, days.len() as u64);
                push_text(&mut m, " vs ");
                push_digits(&mut m, s.len() as u64);
                return Err(m);
            }
            Ok(Column::Timestamps(longs_copy(days), longs_copy(s)))
        },
        _ => Err(text_copy("[:ts] needs two long-arrays: epoch-days and seconds-of-day")),
    }
}

fn payload_error(tag: &str, payload: Option<&Value>) -> (r: String)
    ensures
        r@ == bad_payload(
            tag@,
            match payload {
                Some(v) => Some(v.view()),
                None => None,
            },
        ),
{
    match payload {
        Some(p) => {
            let mut m = text_copy("bad column spec [:");
            push_text(&mut m, tag);
            push_text(&mut m, " ");
            push_text(&mut m, p.kind());
            push_text(
                &mut m,
                "]: expected [:d double-array], [:l long-array], [:date long-array], [:s vector], or [:const string]",
            );
            m
        },
        None => {
            let mut m = text_copy("column spec [:");
            push_text(&mut m, tag);
            push_text(&mut m, "] is missing its payload");
            m
        },
    }
}

fn const_column(payload: Option<&Value>, texts: &DoubleTexts) -> (r: Result<Column, String>)
    requires
        payload matches Some(v) ==> (v.view() matches Val::Double(x) ==> texts@.contains_key(x)),
    ensures
        column_view(r) == (match payload {
            None => Ok::<ColumnView, Seq<char>>(ColumnView::Const(Seq::empty())),
            Some(v) => match cell_of(v.view(), texts@) {
                Ok(c) => Ok(ColumnView::Const(cell_or_empty(c))),
                Err(e) => Err(e),
            },
        }),
{
    match payload {
        None => {
            let none = String::new();
            assert(none@ =~= Seq::empty());
            Ok(Column::Const(none))
        },
        Some(v) => match string_cell(v, texts) {
            Ok(Some(s)) => Ok(Column::Const(s)),
            Ok(None) => {
                let none = String::new();
                assert(none@ =~= Seq::empty());
                Ok(Column::Const(none))
            },
            Err(e) => Err(e),
        },
    }
}

fn tagged(tag: &str, items: &Vec<Value>, texts: &DoubleTexts) -> (r: Result<Column, String>)
    requires
        forall|bits: u64| #[trigger]
            payload_prints(tag@, element(vals(items@), 1), bits) ==> texts@.contains_key(bits),
    ensures
        column_view(r) == tagged_column(
            tag@,
            element(vals(items@), 1),
            element(vals(items@), 2),
            texts@,
        ),
{
    let payload: Option<&Value> = if items.len() > 1 {
        assert(vals(items@)[1] == items@[1].view());
        Some(&items[1])
    } else {
        None
    };
    let third: Option<&Value> = if items.len() > 2 {
        assert(vals(items@)[2] == items@[2].view());
        Some(&items[2])
    } else {
        None
    };
    proof {
        if payload is Some {
            lemma_views(*payload->0);
        }
    }
    if same_text(tag, "d") {
        if let Some(Value::DoubleArray(a)) = payload {
            return Ok(Column::Doubles(bits_copy(a)));
        }
    }
    if same_text(tag, "l") {
        if let Some(Value::LongArray(a)) = payload {
            return Ok(Column::Longs(longs_copy(a)));
        }
    }
    if same_text(tag, "date") {
        if let Some(Value::LongArray(a)) = payload {
            return Ok(Column::Dates(longs_copy(a)));
        }
    }
    if same_text(tag, "ts") {
        if let Some(Value::LongArray(a)) = payload {
            return ts_columns(a, third);
        }
    }
    if same_text(tag, "s") {
        if let Some(Value::Vector(v)) = payload {
            assert forall|bits: u64| #[trigger]
                vals(v@).contains(Val::Double(bits)) implies texts@.contains_key(bits) by {
                assert(payload_prints(tag@, element(vals(items@), 1), bits));
            }
            return string_column(v, texts);
        }
    }
    if same_text(tag, "const") {
        proof {
            if let Some(v) = payload {
                if let Val::Double(x) = v.view() {
                    assert(payload_prints(tag@, element(vals(items@), 1), x));
                }
            }
        }
        return const_column(payload, texts);
    }
    Err(payload_error(tag, payload))
}

/// The column that a specification gives.
pub fn parse_column(spec_value: &Value, texts: &DoubleTexts) -> (r: Result<Column, String>)
    requires
        has_texts(spec_value.view(), texts@),
    ensures
        column_view(r) == column_of(spec_value.view(), texts@),
{
    proof {
        lemma_views(*spec_value);
    }
    match spec_value {
        Value::Vector(items) => {
            if items.len() > 0 {
                assert(vals(items@)[0] == items@[0].view());
                match &items[0] {
                    Value::Keyword(k) => {
                        proof {
                            let whole = spec_value.view();
                            assert forall|bits: u64| #[trigger]
                                payload_prints(
                                    k.name@,
                                    element(vals(items@), 1),
                                    bits,
                                ) implies texts@.contains_key(bits) by {
                                assert(prints(whole, bits));
                            }
                        }
                        return tagged(k.name.as_str(), items, texts);
                    },
                    _ => {},
                }
            }
            Err(text_copy("column spec must start with a keyword tag"))
        },
        other => {
            let mut m = text_copy("column spec must be a vector, got ");
            push_text(&mut m, other.kind());
            Err(m)
        },
    }
}

// ---------------------------------------------------------------------------
// The document
// ---------------------------------------------------------------------------

/// The date of a day.
pub open spec fn day_text(day: int) -> Seq<char> {
    choose|t: Seq<char>| is_day_text(t, day)
}

/// The date and time of a day and seconds.
pub open spec fn ts_text(day: int, secs: int) -> Seq<char> {
    day_text(day + secs / 86_400) + seq![' '] + clock_text(secs % 86_400)
}

/// A day has one date.
pub proof fn law_day_text_is_unique(t: Seq<char>, day: int)
    requires
        is_day_text(t, day),
    ensures
        t == day_text(day),
{
    let u = day_text(day);
    assert(is_day_text(u, day));
    let (y, m, d) = choose|y: int, m: int, d: int| #[trigger]
        valid_date(y, m, d) && day_number(y, m, d) == day && t == date_text(y, m, d);
    let (y2, m2, d2) = choose|y: int, m: int, d: int| #[trigger]
        valid_date(y, m, d) && day_number(y, m, d) == day && u == date_text(y, m, d);
    law_dates_are_unique(y, m, d, y2, m2, d2);
}

/// The column's days can be rendered.
pub open spec fn column_fits(c: ColumnView) -> bool {
    match c {
        ColumnView::Dates(v) => forall|i: int| 0 <= i < v.len() ==> day_fits(#[trigger] v[i] as int),
        ColumnView::Timestamps(d, s) => forall|i: int|
            0 <= i < d.len() ==> day_fits(#[trigger] d[i] + (s[i] as int) / 86_400),
        _ => true,
    }
}

/// The column's doubles have their texts, but for NaN.
pub open spec fn column_printable(c: ColumnView, texts: Map<u64, String>) -> bool {
    c matches ColumnView::Doubles(v) ==> forall|i: int|
        0 <= i < v.len() && !double_is_nan(#[trigger] v[i]) ==> texts.contains_key(v[i])
}

/// A column whose doubles have their texts can be printed.
proof fn lemma_printable(v: Val, texts: Map<u64, String>)
    requires
        has_texts(v, texts),
    ensures
        column_of(v, texts) matches Ok(c) ==> column_printable(c, texts),
{
    if let Ok(ColumnView::Doubles(a)) = column_of(v, texts) {
        assert forall|i: int| 0 <= i < a.len() && !double_is_nan(#[trigger] a[i]) implies texts.contains_key(
            a[i],
        ) by {
            assert(a.contains(a[i]));
            assert(prints(v, a[i]));
        }
    }
}

/// The cell of a column in a row.
pub open spec fn cell_in(c: ColumnView, texts: Map<u64, String>, row: int) -> Seq<char> {
    match c {
        ColumnView::Doubles(v) => if double_is_nan(v[row]) {
            Seq::empty()
        } else {
            double_text(texts, v[row])
        },
        ColumnView::Longs(v) => int_text(v[row] as int),
        ColumnView::Dates(v) => day_text(v[row] as int),
        ColumnView::Timestamps(d, s) => ts_text(d[row] as int, s[row] as int),
        ColumnView::Strings(v) => match v[row] {
            Some(s) => escaped_cell(s),
            None => Seq::empty(),
        },
        ColumnView::Const(s) => escaped_cell(s),
    }
}

/// The texts with commas between them.
pub open spec fn comma_joined(parts: Seq<Seq<char>>) -> Seq<char>
    decreases parts.len(),
{
    if parts.len() == 0 {
        Seq::empty()
    } else if parts.len() == 1 {
        parts[0]
    } else {
        comma_joined(parts.drop_last()) + seq![','] + parts.last()
    }
}

/// One row, without its line break.
pub open spec fn row_text(cols: Seq<ColumnView>, texts: Map<u64, String>, row: int) -> Seq<char> {
    comma_joined(Seq::new(cols.len(), |i: int| cell_in(cols[i], texts, row)))
}

/// The first `n` rows, each on its line.
pub open spec fn rows_text(cols: Seq<ColumnView>, texts: Map<u64, String>, n: nat) -> Seq<char>
    decreases n,
{
    if n == 0 {
        Seq::empty()
    } else {
        rows_text(cols, texts, (n - 1) as nat) + row_text(cols, texts, n - 1) + seq!['\n']
    }
}

/// The texts of a list of strings.
pub open spec fn names_of(header: Seq<String>) -> Seq<Seq<char>> {
    Seq::new(header.len(), |i: int| header[i]@)
}

/// The header on its line.
pub open spec fn header_text(names: Seq<Seq<char>>) -> Seq<char> {
    comma_joined(Seq::new(names.len(), |i: int| escaped_cell(names[i]))) + seq!['\n']
}

/// The columns that the specifications give; the first that gives none is the error.
pub open spec fn columns_of(specs: Seq<Val>, texts: Map<u64, String>) -> Result<
    Seq<ColumnView>,
    Seq<char>,
>
    decreases specs.len(),
{
    if specs.len() == 0 {
        Ok(Seq::empty())
    } else {
        match columns_of(specs.drop_last(), texts) {
            Ok(cols) => match column_of(specs.last(), texts) {
                Ok(c) => Ok(cols.push(c)),
                Err(e) => Err(e),
            },
            Err(e) => Err(e),
        }
    }
}

/// The number of rows that the first `k` columns agree on; the first that differs is the error.
pub open spec fn agreed_rows(cols: Seq<ColumnView>, names: Seq<Seq<char>>, k: nat) -> Result<
    Option<nat>,
    Seq<char>,
>
    decreases k,
{
    if k == 0 {
        Ok(None)
    } else {
        match agreed_rows(cols, names, (k - 1) as nat) {
            Ok(before) => match (before, column_len(cols[k - 1])) {
                (Some(n), Some(len)) => if n != len {
                    Err(
                        "column "@ + digits((k - 1) as nat) + " ("@ + names[k - 1] + ") has "@
                            + digits(len) + " rows, expected "@ + digits(n),
                    )
                } else {
                    Ok(before)
                },
                (None, Some(len)) => Ok(Some(len)),
                (_, None) => Ok(before),
            },
            Err(e) => Err(e),
        }
    }
}

/// The document that a header and column specifications give, and its number of rows.
pub open spec fn document(
    names: Seq<Seq<char>>,
    specs: Seq<Val>,
    texts: Map<u64, String>,
    with_header: bool,
) -> Result<(Seq<char>, nat), Seq<char>> {
    match columns_of(specs, texts) {
        Err(e) => Err(e),
        Ok(cols) => if cols.len() != names.len() {
            Err(
                digits(names.len()) + " header names but "@ + digits(cols.len()) + " columns"@,
            )
        } else {
            match agreed_rows(cols, names, cols.len()) {
                Err(e) => Err(e),
                Ok(None) => Err("at least one non-const column is required"@),
                Ok(Some(n)) => Ok(
                    (
                        (if with_header {
                            header_text(names)
                        } else {
                            Seq::empty()
                        }) + rows_text(cols, texts, n),
                        n,
                    ),
                ),
            }
        },
    }
}

/// What each column holds.
pub open spec fn column_views(cols: Seq<Column>) -> Seq<ColumnView> {
    Seq::new(cols.len(), |i: int| cols[i].view())
}

fn parse_columns(specs: &Vec<Value>, texts: &DoubleTexts) -> (r: Result<Vec<Column>, String>)
    requires
        forall|i: int| 0 <= i < specs@.len() ==> has_texts((#[trigger] specs@[i]).view(), texts@),
    ensures
        (match r {
            Ok(cols) => Ok::<Seq<ColumnView>, Seq<char>>(column_views(cols@)),
            Err(e) => Err(e@),
        }) == columns_of(vals(specs@), texts@),
{
    let ghost all = vals(specs@);
    let mut cols: Vec<Column> = Vec::new();
    assert(column_views(cols@) =~= Seq::empty());
    assert(all.take(0) =~= Seq::empty());
    for i in 0..specs.len()
        invariant
            all == vals(specs@),
            forall|i: int|
                0 <= i < specs@.len() ==> has_texts((#[trigger] specs@[i]).view(), texts@),
            columns_of(all.take(i as int), texts@) == Ok::<Seq<ColumnView>, Seq<char>>(
                column_views(cols@),
            ),
    {
        proof {
            let seen = all.take(i + 1);
            assert(seen.drop_last() =~= all.take(i as int));
            assert(seen.last() == specs@[i as int].view());
        }
        match parse_column(&specs[i], texts) {
            Ok(c) => {
                let ghost before = cols@;
                let ghost v = c.view();
                cols.push(c);
                assert(column_views(cols@) =~= column_views(before).push(v));
            },
            Err(e) => {
                proof {
                    lemma_first_bad_column(all, texts@, i + 1);
                }
                return Err(e);
            },
        }
    }
    assert(all.take(all.len() as int) =~= all);
    Ok(cols)
}

/// An error among the first `k` columns is the error of all.
proof fn lemma_first_bad_column(specs: Seq<Val>, texts: Map<u64, String>, k: int)
    requires
        0 <= k <= specs.len(),
        columns_of(specs.take(k), texts) is Err,
    ensures
        columns_of(specs, texts) == columns_of(specs.take(k), texts),
    decreases specs.len() - k,
{
    if k < specs.len() {
        assert(specs.take(k + 1).drop_last() =~= specs.take(k));
        lemma_first_bad_column(specs, texts, k + 1);
    } else {
        assert(specs.take(k) =~= specs);
    }
}

/// The columns are those of their specifications, one by one.
proof fn lemma_columns_of(specs: Seq<Val>, texts: Map<u64, String>)
    ensures
        columns_of(specs, texts) matches Ok(cols) ==> cols.len() == specs.len() && forall|i: int|
            0 <= i < specs.len() ==> column_of(specs[i], texts) == Ok::<ColumnView, Seq<char>>(
                #[trigger] cols[i],
            ),
    decreases specs.len(),
{
    if specs.len() > 0 {
        lemma_columns_of(specs.drop_last(), texts);
    }
}

fn rows_error(i: usize, name: &str, len: usize, n: usize) -> (r: String)
    ensures
        r@ == "column "@ + digits(i as nat) + " ("@ + name@ + ") has "@ + digits(len as nat)
            + " rows, expected "@ + digits(n as nat),
{
    let mut m = text_copy("column ");
    push_digits(&mut m, i as u64);
    push_text(&mut m, " (");
    push_text(&mut m, name);
    push_text(&mut m, ") has ");
    push_digits(&mut m, len as u64);
    push_text(&mut m, " rows, expected ");
    push_digits(&mut m, n as u64);
    m
}

/// An error among the first `k` columns' lengths is the error of all.
proof fn lemma_first_bad_length(cols: Seq<ColumnView>, names: Seq<Seq<char>>, k: nat, n: nat)
    requires
        k <= n,
        agreed_rows(cols, names, k) is Err,
    ensures
        agreed_rows(cols, names, n) == agreed_rows(cols, names, k),
    decreases n - k,
{
    if k < n {
        lemma_first_bad_length(cols, names, k, (n - 1) as nat);
    }
}

fn count_rows(cols: &Vec<Column>, header: &Vec<String>) -> (r: Result<Option<usize>, String>)
    requires
        cols@.len() == header@.len(),
    ensures
        (match r {
            Ok(Some(n)) => Ok::<Option<nat>, Seq<char>>(Some(n as nat)),
            Ok(None) => Ok(None),
            Err(e) => Err(e@),
        }) == agreed_rows(column_views(cols@), names_of(header@), cols@.len()),
{
    let ghost views = column_views(cols@);
    let ghost names = names_of(header@);
    let mut n_rows: Option<usize> = None;
    for i in 0..cols.len()
        invariant
            cols@.len() == header@.len(),
            views == column_views(cols@),
            names == names_of(header@),
            agreed_rows(views, names, i as nat) == Ok::<Option<nat>, Seq<char>>(
                match n_rows {
                    Some(n) => Some(n as nat),
                    None => None,
                },
            ),
    {
        assert(views[i as int] == cols@[i as int].view());
        assert(names[i as int] == header@[i as int]@);
        match cols[i].len() {
            Some(len) => match n_rows {
                None => {
                    n_rows = Some(len);
                },
                Some(n) => {
                    if n != len {
                        proof {
                            lemma_first_bad_length(views, names, (i + 1) as nat, cols@.len());
                        }
                        return Err(rows_error(i, header[i].as_str(), len, n));
                    }
                },
            },
            None => {},
        }
    }
    Ok(n_rows)
}

fn cell(c: &Column, texts: &DoubleTexts, row: usize) -> (r: String)
    requires
        column_fits(c.view()),
        column_printable(c.view(), texts@),
        column_len(c.view()) matches Some(n) ==> row < n,
        c.view() matches ColumnView::Timestamps(d, s) ==> d.len() == s.len(),
    ensures
        r@ == cell_in(c.view(), texts@, row as int),
{
    match c {
        Column::Doubles(v) => {
            let bits: u64 = v[row];
            if bits % 0x8000_0000_0000_0000 > 0x7FF0_0000_0000_0000 {
                let none = String::new();
                assert(none@ =~= Seq::empty());
                none
            } else {
                print_double(texts, bits)
            }
        },
        Column::Longs(v) => int_string(v[row]),
        Column::Dates(v) => {
            assert(day_fits(v@[row as int] as int));
            let r = day_str(v[row]);
            proof {
                law_day_text_is_unique(r@, v@[row as int] as int);
            }
            r
        },
        Column::Timestamps(d, s) => {
            assert(day_fits(d@[row as int] + (s@[row as int] as int) / 86_400));
            let r = ts_str(d[row], s[row]);
            proof {
                let day = d@[row as int] as int;
                let secs = s@[row as int] as int;
                let date = choose|date: Seq<char>| #[trigger]
                    is_day_text(date, day + secs / 86_400) && r@ == date + seq![' '] + clock_text(
                        secs % 86_400,
                    );
                law_day_text_is_unique(date, day + secs / 86_400);
            }
            r
        },
        Column::Strings(v) => {
            assert(cell_texts(v@)[row as int] == optional_text(v@[row as int]));
            match &v[row] {
                Some(s) => escape(s.as_str()),
                None => {
                    let none = String::new();
                    assert(none@ =~= Seq::empty());
                    none
                },
            }
        },
        Column::Const(s) => escape(s.as_str()),
    }
}

fn push_row(out: &mut String, cols: &Vec<Column>, texts: &DoubleTexts, row: usize)
    requires
        forall|i: int|
            0 <= i < cols@.len() ==> column_fits((#[trigger] cols@[i]).view())
                && column_printable(cols@[i].view(), texts@) && (column_len(
                cols@[i].view(),
            ) matches Some(n) ==> row < n) && (cols@[i].view() matches ColumnView::Timestamps(
                d,
                s,
            ) ==> d.len() == s.len()),
    ensures
        final(out)@ == old(out)@ + row_text(column_views(cols@), texts@, row as int),
{
    let ghost before = out@;
    let ghost views = column_views(cols@);
    let ghost cells = Seq::new(views.len(), |i: int| cell_in(views[i], texts@, row as int));
    assert(cells.take(0) =~= Seq::empty());
    assert(before + Seq::empty() =~= before);
    for i in 0..cols.len()
        invariant
            forall|i: int|
                0 <= i < cols@.len() ==> column_fits((#[trigger] cols@[i]).view())
                && column_printable(cols@[i].view(), texts@) && (column_len(
                    cols@[i].view(),
                ) matches Some(n) ==> row < n) && (cols@[i].view() matches ColumnView::Timestamps(
                    d,
                    s,
                ) ==> d.len() == s.len()),
            views == column_views(cols@),
            cells == Seq::new(views.len(), |i: int| cell_in(views[i], texts@, row as int)),
            out@ == before + comma_joined(cells.take(i as int)),
    {
        proof {
            let seen = cells.take(i + 1);
            assert(seen.drop_last() =~= cells.take(i as int));
            assert(seen.last() == cell_in(cols@[i as int].view(), texts@, row as int));
            if i == 0 {
                assert(seen[0] == seen.last());
            }
        }
        let ghost now = out@;
        if i > 0 {
            out.push(',');
        }
        let c = cell(&cols[i], texts, row);
        push_text(out, c.as_str());
        assert(out@ =~= before + comma_joined(cells.take(i + 1)));
    }
    assert(cells.take(cells.len() as int) =~= cells);
}

fn push_header(out: &mut String, header: &Vec<String>)
    ensures
        final(out)@ == old(out)@ + header_text(names_of(header@)),
{
    let ghost before = out@;
    let ghost names = names_of(header@);
    let ghost cells = Seq::new(names.len(), |i: int| escaped_cell(names[i]));
    assert(cells.take(0) =~= Seq::empty());
    assert(before + Seq::empty() =~= before);
    for i in 0..header.len()
        invariant
            names == names_of(header@),
            cells == Seq::new(names.len(), |i: int| escaped_cell(names[i])),
            out@ == before + comma_joined(cells.take(i as int)),
    {
        proof {
            let seen = cells.take(i + 1);
            assert(seen.drop_last() =~= cells.take(i as int));
            assert(seen.last() == escaped_cell(header@[i as int]@));
            if i == 0 {
                assert(seen[0] == seen.last());
            }
        }
        if i > 0 {
            out.push(',');
        }
        let c = escape(header[i].as_str());
        push_text(out, c.as_str());
        assert(out@ =~= before + comma_joined(cells.take(i + 1)));
    }
    assert(cells.take(cells.len() as int) =~= cells);
    out.push('\n');
    assert(out@ =~= before + header_text(names));
}

/// Where columns agree on a number of rows, each has that many.
pub proof fn lemma_agreed_rows(cols: Seq<ColumnView>, names: Seq<Seq<char>>, k: nat)
    requires
        k <= cols.len(),
    ensures
        agreed_rows(cols, names, k) matches Ok(Some(n)) ==> forall|i: int|
            0 <= i < k ==> (column_len(#[trigger] cols[i]) matches Some(m) ==> m == n),
        agreed_rows(cols, names, k) matches Ok(None) ==> forall|i: int|
            0 <= i < k ==> column_len(#[trigger] cols[i]) is None,
    decreases k,
{
    if k > 0 {
        lemma_agreed_rows(cols, names, (k - 1) as nat);
    }
}

/// The columns of timestamps pair a second with each day.
proof fn lemma_ts_lengths(v: Val, texts: Map<u64, String>)
    ensures
        column_of(v, texts) matches Ok(ColumnView::Timestamps(d, s)) ==> d.len() == s.len(),
{
}

/// A rendered document and its number of rows.
#[derive(Debug)]
pub struct CsvDocument {
    pub text: String,
    pub rows: usize,
}

/// Every double of the column has its text, and every day its date.
pub open spec fn renders(spec_value: Val, texts: Map<u64, String>) -> bool {
    &&& has_texts(spec_value, texts)
    &&& column_of(spec_value, texts) matches Ok(c) ==> column_fits(c)
}

/// Render a table: the header unless the document continues one, then each row on its line.
pub fn render_csv(
    header: &Vec<String>,
    col_specs: &Vec<Value>,
    texts: &DoubleTexts,
    with_header: bool,
) -> (r: Result<CsvDocument, String>)
    requires
        forall|i: int|
            0 <= i < col_specs@.len() ==> renders((#[trigger] col_specs@[i]).view(), texts@),
    ensures
        (match r {
            Ok(d) => Ok::<(Seq<char>, nat), Seq<char>>((d.text@, d.rows as nat)),
            Err(e) => Err(e@),
        }) == document(names_of(header@), vals(col_specs@), texts@, with_header),
{
    let cols = match parse_columns(col_specs, texts) {
        Ok(cols) => cols,
        Err(e) => {
            return Err(e);
        },
    };
    let ghost views = column_views(cols@);
    let ghost names = names_of(header@);
    assert(views.len() == cols@.len() && names.len() == header@.len());
    if cols.len() != header.len() {
        let mut m = String::new();
        push_digits(&mut m, header.len() as u64);
        push_text(&mut m, " header names but ");
        push_digits(&mut m, cols.len() as u64);
        push_text(&mut m, " columns");
        assert(m@ =~= digits(names.len()) + " header names but "@ + digits(views.len())
            + " columns"@);
        return Err(m);
    }
    let n_rows: usize = match count_rows(&cols, header) {
        Ok(Some(n)) => n,
        Ok(None) => {
            return Err(text_copy("at least one non-const column is required"));
        },
        Err(e) => {
            return Err(e);
        },
    };
    proof {
        lemma_columns_of(vals(col_specs@), texts@);
        lemma_agreed_rows(views, names, cols@.len());
        assert forall|i: int| 0 <= i < cols@.len() implies column_fits(
            (#[trigger] cols@[i]).view(),
        ) && column_printable(cols@[i].view(), texts@) && (column_len(cols@[i].view()) matches Some(n) ==> n == n_rows) && (
        cols@[i].view() matches ColumnView::Timestamps(d, s) ==> d.len() == s.len()) by {
            assert(views[i] == cols@[i].view());
            assert(vals(col_specs@)[i] == col_specs@[i].view());
            lemma_ts_lengths(col_specs@[i].view(), texts@);
            lemma_printable(col_specs@[i].view(), texts@);
        }
    }
    let mut text = String::new();
    assert(text@ =~= Seq::empty());
    if with_header {
        push_header(&mut text, header);
        assert(text@ =~= header_text(names));
    }
    let ghost top = text@;
    assert(top + Seq::empty() =~= top);
    for row in 0..n_rows
        invariant
            views == column_views(cols@),
            forall|i: int|
                0 <= i < cols@.len() ==> column_fits((#[trigger] cols@[i]).view())
                && column_printable(cols@[i].view(), texts@) && (column_len(
                    cols@[i].view(),
                ) matches Some(n) ==> n == n_rows) && (cols@[i].view() matches ColumnView::Timestamps(
                    d,
                    s,
                ) ==> d.len() == s.len()),
            text@ == top + rows_text(views, texts@, row as nat),
    {
        push_row(&mut text, &cols, texts, row);
        text.push('\n');
        assert(text@ =~= top + rows_text(views, texts@, (row + 1) as nat));
    }
    Ok(CsvDocument { text, rows: n_rows })
}

// ---------------------------------------------------------------------------
// Files
// ---------------------------------------------------------------------------

fn push_doubles_of(out: &mut Vec<u64>, spec_value: &Value)
    ensures
        forall|bits: u64| #[trigger]
            final(out)@.contains(bits) <==> old(out)@.contains(bits) || prints(
                spec_value.view(),
                bits,
            ),
{
    let ghost start = out@;
    proof {
        lemma_views(*spec_value);
    }
    let items = match spec_value {
        Value::Vector(items) => items,
        _ => {
            return;
        },
    };
    if items.len() < 2 {
        return;
    }
    proof {
        assert(vals(items@)[0] == items@[0].view());
        assert(vals(items@)[1] == items@[1].view());
        lemma_views(items@[0]);
        lemma_views(items@[1]);
    }
    let tag = match &items[0] {
        Value::Keyword(k) => k.name.as_str(),
        _ => {
            return;
        },
    };
    match &items[1] {
        Value::DoubleArray(a) => {
            if same_text(tag, "d") {
                push_numbers(out, a);
            }
        },
        Value::Vector(cells) => {
            if same_text(tag, "s") {
                push_double_cells(out, cells);
            }
        },
        Value::Double(x) => {
            if same_text(tag, "const") {
                out.push(*x);
                assert(out@[start.len() as int] == *x);
                assert forall|bits: u64| #[trigger] out@.contains(bits) <==> start.contains(bits)
                    || bits == *x by {
                    lemma_pushed(start, *x, bits);
                }
            }
        },
        _ => {},
    }
}

proof fn lemma_pushed(start: Seq<u64>, x: u64, bits: u64)
    ensures
        start.push(x).contains(bits) <==> start.contains(bits) || bits == x,
{
    let all = start.push(x);
    assert(all[start.len() as int] == x);
    if start.contains(bits) {
        let i = choose|i: int| 0 <= i < start.len() && start[i] == bits;
        assert(all[i] == bits);
    }
    if all.contains(bits) {
        let i = choose|i: int| 0 <= i < all.len() && all[i] == bits;
        if i < start.len() {
            assert(start[i] == bits);
        }
    }
}

fn push_numbers(out: &mut Vec<u64>, a: &Vec<u64>)
    ensures
        forall|bits: u64| #[trigger]
            final(out)@.contains(bits) <==> old(out)@.contains(bits) || (!double_is_nan(bits)
                && a@.contains(bits)),
{
    let ghost start = out@;
    for i in 0..a.len()
        invariant
            forall|bits: u64| #[trigger]
                out@.contains(bits) <==> start.contains(bits) || (!double_is_nan(bits) && a@.take(
                    i as int,
                ).contains(bits)),
    {
        let bits: u64 = a[i];
        let ghost before = out@;
        if bits % 0x8000_0000_0000_0000 <= 0x7FF0_0000_0000_0000 {
            out.push(bits);
        }
        proof {
            assert(a@.take(i + 1) =~= a@.take(i as int).push(bits));
            assert forall|b: u64| #[trigger] out@.contains(b) <==> start.contains(b) || (
            !double_is_nan(b) && a@.take(i + 1).contains(b)) by {
                lemma_pushed(a@.take(i as int), bits, b);
                lemma_pushed(before, bits, b);
                assert(before.contains(b) <==> start.contains(b) || (!double_is_nan(b) && a@.take(
                    i as int,
                ).contains(b)));
            }
        }
    }
    assert(a@.take(a@.len() as int) =~= a@);
}

fn push_double_cells(out: &mut Vec<u64>, cells: &Vec<Value>)
    ensures
        forall|bits: u64| #[trigger]
            final(out)@.contains(bits) <==> old(out)@.contains(bits) || vals(cells@).contains(
                Val::Double(bits),
            ),
{
    let ghost start = out@;
    let ghost all = vals(cells@);
    for i in 0..cells.len()
        invariant
            all == vals(cells@),
            forall|bits: u64| #[trigger]
                out@.contains(bits) <==> start.contains(bits) || double_within(
                    all,
                    i as int,
                    bits,
                ),
    {
        let ghost before = out@;
        proof {
            lemma_views(cells@[i as int]);
            assert(all[i as int] == cells@[i as int].view());
        }
        if let Value::Double(x) = &cells[i] {
            out.push(*x);
        }
        proof {
            assert forall|b: u64| #[trigger] out@.contains(b) <==> start.contains(b)
                || double_within(all, i + 1, b) by {
                assert(before.contains(b) <==> start.contains(b) || double_within(
                    all,
                    i as int,
                    b,
                ));
                if let Val::Double(x) = all[i as int] {
                    lemma_pushed(before, x, b);
                    if b == x {
                        assert(double_within(all, i + 1, b));
                    }
                }
                if double_within(all, i as int, b) {
                    let k = choose|k: int| 0 <= k < i && #[trigger] all[k] == Val::Double(b);
                    assert(all[k] == Val::Double(b));
                }
            }
        }
    }
    proof {
        assert forall|b: u64| #[trigger] double_within(all, cells@.len() as int, b)
            <==> all.contains(Val::Double(b)) by {
            if all.contains(Val::Double(b)) {
                let k = choose|k: int| 0 <= k < all.len() && all[k] == Val::Double(b);
                assert(all[k] == Val::Double(b));
            }
        }
    }
}

/// One of the first `n` values is the double.
spec fn double_within(all: Seq<Val>, n: int, bits: u64) -> bool {
    exists|k: int| 0 <= k < n && #[trigger] all[k] == Val::Double(bits)
}

/// The doubles that columns print: those that need a text.
pub fn doubles_to_print(col_specs: &Vec<Value>) -> (r: Vec<u64>)
    ensures
        forall|bits: u64| #[trigger]
            r@.contains(bits) <==> exists|i: int|
                0 <= i < col_specs@.len() && prints((#[trigger] col_specs@[i]).view(), bits),
{
    let mut out: Vec<u64> = Vec::new();
    for i in 0..col_specs.len()
        invariant
            forall|bits: u64| #[trigger]
                out@.contains(bits) <==> exists|k: int|
                    0 <= k < i && prints((#[trigger] col_specs@[k]).view(), bits),
    {
        let ghost before = out@;
        push_doubles_of(&mut out, &col_specs[i]);
        proof {
            assert forall|bits: u64| #[trigger] out@.contains(bits) <==> exists|k: int|
                0 <= k < i + 1 && prints((#[trigger] col_specs@[k]).view(), bits) by {
                assert(out@.contains(bits) <==> before.contains(bits) || prints(
                    col_specs@[i as int].view(),
                    bits,
                ));
                if before.contains(bits) {
                    let k = choose|k: int|
                        0 <= k < i && prints((#[trigger] col_specs@[k]).view(), bits);
                    assert(prints(col_specs@[k].view(), bits));
                }
            }
        }
    }
    out
}

/// What a file holds once a table is written to it, and the number of rows: an appending call goes
/// on where there is a file, without a header; else the table is all that the file holds.
pub open spec fn file_after(
    before: Option<Seq<char>>,
    names: Seq<Seq<char>>,
    specs: Seq<Val>,
    texts: Map<u64, String>,
    append: bool,
) -> Result<(Seq<char>, nat), Seq<char>> {
    let goes_on = append && before is Some;
    match document(names, specs, texts, !goes_on) {
        Err(e) => Err(e),
        Ok((text, n)) => Ok(
            (
                if goes_on {
                    before->0 + text
                } else {
                    text
                },
                n,
            ),
        ),
    }
}

/// What is to be written to a file.
#[derive(Debug)]
pub struct CsvWrite {
    /// What the file holds stays, and the text goes behind it.
    pub goes_on: bool,
    pub text: String,
    pub rows: usize,
}

impl CsvWrite {
    /// What a file holds after the write.
    pub open spec fn after(&self, before: Option<Seq<char>>) -> Seq<char> {
        if self.goes_on {
            before->0 + self.text@
        } else {
            self.text@
        }
    }
}

/// Write a table to a file that is there or not: the header is only written when the file is
/// created or replaced.
pub fn write_csv(
    header: &Vec<String>,
    col_specs: &Vec<Value>,
    texts: &DoubleTexts,
    append: bool,
    exists: bool,
) -> (r: Result<CsvWrite, String>)
    requires
        forall|i: int|
            0 <= i < col_specs@.len() ==> renders((#[trigger] col_specs@[i]).view(), texts@),
    ensures
        r matches Ok(w) ==> w.goes_on == (append && exists),
        forall|before: Option<Seq<char>>|
            before is Some == exists ==> (match r {
                Ok(w) => Ok::<(Seq<char>, nat), Seq<char>>((w.after(before), w.rows as nat)),
                Err(e) => Err(e@),
            }) == #[trigger] file_after(
                before,
                names_of(header@),
                vals(col_specs@),
                texts@,
                append,
            ),
{
    let goes_on = append && exists;
    match render_csv(header, col_specs, texts, !goes_on) {
        Ok(d) => Ok(CsvWrite { goes_on, text: d.text, rows: d.rows }),
        Err(e) => Err(e),
    }
}

/// Two appending calls on a path without a file: the first writes the header and its rows, the
/// second leaves that as it is and puts its rows behind, without another header.
pub proof fn law_appending_writes_one_header(
    names: Seq<Seq<char>>,
    first: Seq<Val>,
    first_texts: Map<u64, String>,
    second: Seq<Val>,
    second_texts: Map<u64, String>,
)
    requires
        file_after(None, names, first, first_texts, true) is Ok,
        document(names, second, second_texts, true) is Ok,
    ensures
        ({
            let (t1, n1) = file_after(None, names, first, first_texts, true)->Ok_0;
            let n2 = (document(names, second, second_texts, true)->Ok_0).1;
            let cols1 = columns_of(first, first_texts)->Ok_0;
            let cols2 = columns_of(second, second_texts)->Ok_0;
            &&& t1 == header_text(names) + rows_text(cols1, first_texts, n1)
            &&& file_after(Some(t1), names, second, second_texts, true) == Ok::<
                (Seq<char>, nat),
                Seq<char>,
            >((t1 + rows_text(cols2, second_texts, n2), n2))
        }),
{
    let (t1, _) = file_after(None, names, first, first_texts, true)->Ok_0;
    let (_, n2) = document(names, second, second_texts, true)->Ok_0;
    let cols2 = columns_of(second, second_texts)->Ok_0;
    let rows = rows_text(cols2, second_texts, n2);
    assert(Seq::<char>::empty() + rows =~= rows);
}

} // verus!
