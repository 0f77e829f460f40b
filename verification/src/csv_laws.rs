//! Laws of rendered documents: what a reader of comma-separated values makes of them.

use vstd::prelude::*;
use crate::calendar::{day_number, valid_date};
use crate::calendar::law_every_day_has_a_date;
use crate::codec::double_is_nan;
use crate::csv::{
    cell_in, cell_of, cell_or_empty, clock_text, column_len, column_of, columns_of, comma_joined,
    date_text, day_text, document, doubled, escaped_cell, header_text, is_day_text, is_special,
    needs_quotes, row_text, rows_text, ColumnView,
};
use crate::csv::lemma_agreed_rows;
use crate::decimal::{digits, int_text, padded, padded_int, zeros};
use crate::value::{NameView, Val};

verus! {

// ---------------------------------------------------------------------------
// Reading
// ---------------------------------------------------------------------------

/// Where a reader stands in a field.
pub enum Place {
    /// Outside quotes.
    Bare,
    /// Inside quotes.
    Quoted,
    /// Behind a quote that ends the quoted part or doubles.
    Closing,
}

/// What a reader has seen: the rows that are complete, the fields of the row that is not, and the
/// field that is not.
#[verifier::ext_equal]
pub struct Reading {
    pub rows: Seq<Seq<Seq<char>>>,
    pub row: Seq<Seq<char>>,
    pub field: Seq<char>,
    pub place: Place,
}

/// A comma or a line break outside quotes ends the field; the line break ends the row too.
pub open spec fn next_field(r: Reading) -> Reading {
    Reading { rows: r.rows, row: r.row.push(r.field), field: Seq::empty(), place: Place::Bare }
}

pub open spec fn next_row(r: Reading) -> Reading {
    Reading {
        rows: r.rows.push(r.row.push(r.field)),
        row: Seq::empty(),
        field: Seq::empty(),
        place: Place::Bare,
    }
}

/// One more character.
pub open spec fn read_char(r: Reading, c: char) -> Reading {
    match r.place {
        Place::Quoted => if c == '"' {
            Reading { place: Place::Closing, ..r }
        } else {
            Reading { field: r.field.push(c), ..r }
        },
        Place::Closing => if c == '"' {
            Reading { field: r.field.push('"'), place: Place::Quoted, ..r }
        } else if c == ',' {
            next_field(r)
        } else if c == '\n' {
            next_row(r)
        } else {
            Reading { field: r.field.push(c), place: Place::Bare, ..r }
        },
        Place::Bare => if c == '"' && r.field.len() == 0 {
            Reading { place: Place::Quoted, ..r }
        } else if c == ',' {
            next_field(r)
        } else if c == '\n' {
            next_row(r)
        } else {
            Reading { field: r.field.push(c), ..r }
        },
    }
}

/// The characters of a text, one by one.
pub open spec fn read_text(r: Reading, s: Seq<char>) -> Reading
    decreases s.len(),
{
    if s.len() == 0 {
        r
    } else {
        read_char(read_text(r, s.drop_last()), s.last())
    }
}

/// The rows of a document, each a list of fields.
pub open spec fn read_document(s: Seq<char>) -> Seq<Seq<Seq<char>>> {
    read_text(fresh(Seq::empty(), Seq::empty()), s).rows
}

/// A reader at the start of a field.
pub open spec fn fresh(rows: Seq<Seq<Seq<char>>>, row: Seq<Seq<char>>) -> Reading {
    Reading { rows, row, field: Seq::empty(), place: Place::Bare }
}

proof fn lemma_read_on(r: Reading, a: Seq<char>, b: Seq<char>)
    ensures
        read_text(r, a + b) == read_text(read_text(r, a), b),
    decreases b.len(),
{
    if b.len() == 0 {
        assert(a + b =~= a);
    } else {
        lemma_read_on(r, a, b.drop_last());
        assert((a + b).drop_last() =~= a + b.drop_last());
    }
}

proof fn lemma_read_one(r: Reading, c: char)
    ensures
        read_text(r, seq![c]) == read_char(r, c),
{
    reveal_with_fuel(read_text, 2);
    assert(seq![c].drop_last() =~= Seq::empty());
}

/// Reading `cell` from the start of a field gives `text`, and nothing else changes: neither a field
/// nor a row ends in it.
pub open spec fn reads_as(cell: Seq<char>, text: Seq<char>) -> bool {
    forall|rows: Seq<Seq<Seq<char>>>, row: Seq<Seq<char>>|
        {
            let r = #[trigger] read_text(fresh(rows, row), cell);
            r.rows == rows && r.row == row && r.field == text && !(r.place is Quoted)
        }
}

/// No character that ends a field, and no quote.
pub open spec fn is_bare(s: Seq<char>) -> bool {
    forall|i: int|
        0 <= i < s.len() ==> #[trigger] s[i] != ',' && s[i] != '"' && s[i] != '\n'
}

proof fn lemma_read_bare(rows: Seq<Seq<Seq<char>>>, row: Seq<Seq<char>>, s: Seq<char>)
    requires
        is_bare(s),
    ensures
        read_text(fresh(rows, row), s) == (Reading { rows, row, field: s, place: Place::Bare }),
    decreases s.len(),
{
    if s.len() > 0 {
        let t = s.drop_last();
        assert forall|i: int| 0 <= i < t.len() implies #[trigger] t[i] != ',' && t[i] != '"' && t[i]
            != '\n' by {
            assert(t[i] == s[i]);
        }
        lemma_read_bare(rows, row, t);
        assert(t.push(s.last()) =~= s);
        assert(s[s.len() - 1] != ',');
    }
}

proof fn lemma_read_doubled(r: Reading, s: Seq<char>)
    requires
        r.place is Quoted,
        r.field.len() == 0,
    ensures
        read_text(r, doubled(s)) == (Reading { field: s, ..r }),
    decreases s.len(),
{
    if s.len() == 0 {
        assert(r.field =~= s);
    } else {
        let t = s.drop_last();
        lemma_read_doubled(r, t);
        let d = doubled(t);
        assert(t.push(s.last()) =~= s);
        if s.last() == '"' {
            let e = d.push('"').push('"');
            assert(e.drop_last() =~= d.push('"'));
            assert(d.push('"').drop_last() =~= d);
            reveal_with_fuel(read_text, 3);
        } else {
            assert(d.push(s.last()).drop_last() =~= d);
        }
    }
}

/// A cell without a comma, a quote or a line break reads as itself.
pub proof fn law_bare_cells(s: Seq<char>)
    requires
        is_bare(s),
    ensures
        reads_as(s, s),
{
    assert forall|rows: Seq<Seq<Seq<char>>>, row: Seq<Seq<char>>|
        {
            let r = #[trigger] read_text(fresh(rows, row), s);
            r.rows == rows && r.row == row && r.field == s && !(r.place is Quoted)
        } by {
        lemma_read_bare(rows, row, s);
    }
}

/// The cell of a text reads as the text, whatever characters it has.
pub proof fn law_cells_read_as_their_text(s: Seq<char>)
    ensures
        reads_as(escaped_cell(s), s),
        is_bare(s) ==> escaped_cell(s) == s,
{
    let cell = escaped_cell(s);
    if needs_quotes(s) {
        let at = choose|i: int| 0 <= i < s.len() && is_special(#[trigger] s[i]);
        assert(!is_bare(s)) by {
            assert(s[at] == ',' || s[at] == '"' || s[at] == '\n');
        }
        assert forall|rows: Seq<Seq<Seq<char>>>, row: Seq<Seq<char>>|
            {
                let r = #[trigger] read_text(fresh(rows, row), cell);
                r.rows == rows && r.row == row && r.field == s && !(r.place is Quoted)
            } by {
            let start = fresh(rows, row);
            let open = Reading { place: Place::Quoted, ..start };
            lemma_read_one(start, '"');
            lemma_read_on(start, seq!['"'], doubled(s));
            lemma_read_doubled(open, s);
            lemma_read_on(start, seq!['"'] + doubled(s), seq!['"']);
            lemma_read_one(Reading { field: s, ..open }, '"');
        }
    } else {
        assert forall|i: int| 0 <= i < s.len() implies #[trigger] s[i] != ',' && s[i] != '"' && s[i]
            != '\n' by {
            assert(!is_special(s[i]));
        }
        law_bare_cells(s);
    }
}

// ---------------------------------------------------------------------------
// Texts that need no quotes
// ---------------------------------------------------------------------------

proof fn lemma_bare_join(a: Seq<char>, b: Seq<char>)
    requires
        is_bare(a),
        is_bare(b),
    ensures
        is_bare(a + b),
{
    let s = a + b;
    assert forall|i: int| 0 <= i < s.len() implies #[trigger] s[i] != ',' && s[i] != '"' && s[i]
        != '\n' by {
        if i < a.len() {
            assert(s[i] == a[i]);
        } else {
            assert(s[i] == b[i - a.len()]);
        }
    }
}

proof fn lemma_bare_digits(n: nat)
    ensures
        is_bare(digits(n)),
    decreases n,
{
    if n >= 10 {
        lemma_bare_digits(n / 10);
        let d = digits(n / 10);
        let s = digits(n);
        assert forall|i: int| 0 <= i < s.len() implies #[trigger] s[i] != ',' && s[i] != '"' && s[i]
            != '\n' by {
            if i < d.len() {
                assert(s[i] == d[i]);
            }
        }
    }
}

proof fn lemma_bare_number(n: int, width: nat)
    ensures
        is_bare(padded_int(n, width)),
{
    let w = if n >= 0 {
        width
    } else if width > 0 {
        (width - 1) as nat
    } else {
        0
    };
    let m = if n >= 0 {
        n as nat
    } else {
        (-n) as nat
    };
    lemma_bare_digits(m);
    if digits(m).len() < w {
        lemma_bare_join(zeros((w - digits(m).len()) as nat), digits(m));
    }
    if n < 0 {
        lemma_bare_join(seq!['-'], padded(m, w));
    }
}

/// A number starts with a digit or a sign.
pub proof fn lemma_number_start(n: int)
    ensures
        int_text(n).len() > 0,
        '0' <= int_text(n)[0] <= '9' || int_text(n)[0] == '-',
{
    let m = if n >= 0 {
        n as nat
    } else {
        (-n) as nat
    };
    lemma_digits_start(m);
    if n < 0 {
        assert(int_text(n)[0] == '-');
    }
}

proof fn lemma_digits_start(n: nat)
    ensures
        digits(n).len() > 0,
        '0' <= digits(n)[0] <= '9',
    decreases n,
{
    if n >= 10 {
        lemma_digits_start(n / 10);
        assert(digits(n)[0] == digits(n / 10)[0]);
    }
}

proof fn lemma_bare_day(day: int)
    ensures
        is_day_text(day_text(day), day),
        is_bare(day_text(day)),
{
    law_every_day_has_a_date(day);
    let (y, m, d) = choose|y: int, m: int, d: int| #[trigger]
        valid_date(y, m, d) && day_number(y, m, d) == day;
    assert(is_day_text(date_text(y, m, d), day));
    let t = day_text(day);
    let (y, m, d) = choose|y: int, m: int, d: int| #[trigger]
        valid_date(y, m, d) && day_number(y, m, d) == day && t == date_text(y, m, d);
    lemma_bare_number(y, 4);
    lemma_bare_number(m, 2);
    lemma_bare_number(d, 2);
    let a = padded_int(y, 4) + seq!['-'];
    let b = a + padded_int(m, 2);
    lemma_bare_join(padded_int(y, 4), seq!['-']);
    lemma_bare_join(a, padded_int(m, 2));
    lemma_bare_join(b, seq!['-']);
    lemma_bare_join(b + seq!['-'], padded_int(d, 2));
}

proof fn lemma_bare_clock(secs: int)
    ensures
        is_bare(clock_text(secs)),
{
    let h = padded_int(secs / 3600, 2);
    let m = padded_int((secs % 3600) / 60, 2);
    lemma_bare_number(secs / 3600, 2);
    lemma_bare_number((secs % 3600) / 60, 2);
    lemma_bare_number(secs % 60, 2);
    lemma_bare_join(h, seq![':']);
    lemma_bare_join(h + seq![':'], m);
    lemma_bare_join(h + seq![':'] + m, seq![':']);
    lemma_bare_join(h + seq![':'] + m + seq![':'], padded_int(secs % 60, 2));
}

// ---------------------------------------------------------------------------
// Rows and documents
// ---------------------------------------------------------------------------

/// What a column says in a row: a string its text, nothing for nil or NaN, a number its digits, a day
/// its date and a moment its date and time.
pub open spec fn says(c: ColumnView, texts: Map<u64, String>, row: int) -> Seq<char> {
    match c {
        ColumnView::Strings(v) => match v[row] {
            Some(s) => s,
            None => Seq::empty(),
        },
        ColumnView::Const(s) => s,
        ColumnView::Longs(v) => int_text(v[row] as int),
        ColumnView::Doubles(v) => if double_is_nan(v[row]) {
            Seq::empty()
        } else {
            texts[v[row]]@
        },
        ColumnView::Dates(v) => day_text(v[row] as int),
        ColumnView::Timestamps(d, s) => day_text(d[row] + (s[row] as int) / 86_400) + seq![' ']
            + clock_text((s[row] as int) % 86_400),
    }
}

/// Doubles print without commas, quotes and line breaks.
pub open spec fn bare_doubles(texts: Map<u64, String>) -> bool {
    forall|bits: u64| #[trigger] texts.contains_key(bits) ==> is_bare(texts[bits]@)
}

/// The doubles of the column that are numbers have their texts.
pub open spec fn doubles_known(c: ColumnView, texts: Map<u64, String>) -> bool {
    c matches ColumnView::Doubles(v) ==> forall|i: int|
        0 <= i < v.len() && !double_is_nan(#[trigger] v[i]) ==> texts.contains_key(v[i])
}

/// The cell of a column in a row reads as what the column says there.
pub proof fn law_cells_say_their_column(c: ColumnView, texts: Map<u64, String>, row: int)
    requires
        bare_doubles(texts),
        doubles_known(c, texts),
        0 <= row,
        column_len(c) matches Some(n) ==> row < n,
    ensures
        reads_as(cell_in(c, texts, row), says(c, texts, row)),
{
    match c {
        ColumnView::Strings(v) => {
            match v[row] {
                Some(s) => {
                    law_cells_read_as_their_text(s);
                },
                None => {
                    law_bare_cells(Seq::empty());
                },
            }
        },
        ColumnView::Const(s) => {
            law_cells_read_as_their_text(s);
        },
        ColumnView::Longs(v) => {
            lemma_bare_number(v[row] as int, 0);
            law_bare_cells(int_text(v[row] as int));
        },
        ColumnView::Doubles(v) => {
            if double_is_nan(v[row]) {
                law_bare_cells(Seq::empty());
            } else {
                assert(texts.contains_key(v[row]));
                law_bare_cells(texts[v[row]]@);
            }
        },
        ColumnView::Dates(v) => {
            lemma_bare_day(v[row] as int);
            law_bare_cells(day_text(v[row] as int));
        },
        ColumnView::Timestamps(d, s) => {
            let day = d[row] + (s[row] as int) / 86_400;
            let date = day_text(day);
            let clock = clock_text((s[row] as int) % 86_400);
            lemma_bare_day(day);
            lemma_bare_clock((s[row] as int) % 86_400);
            lemma_bare_join(date, seq![' ']);
            lemma_bare_join(date + seq![' '], clock);
            law_bare_cells(date + seq![' '] + clock);
        },
    }
}

/// Cells with commas between them read as their texts.
proof fn lemma_read_row(
    rows: Seq<Seq<Seq<char>>>,
    cells: Seq<Seq<char>>,
    fields: Seq<Seq<char>>,
)
    requires
        cells.len() == fields.len(),
        cells.len() > 0,
        forall|i: int| 0 <= i < cells.len() ==> #[trigger] reads_as(cells[i], fields[i]),
    ensures
        ({
            let r = read_text(fresh(rows, Seq::empty()), comma_joined(cells));
            r.rows == rows && r.row == fields.drop_last() && r.field == fields.last() && !(
            r.place is Quoted)
        }),
    decreases cells.len(),
{
    let n = cells.len() as int;
    let start = fresh(rows, Seq::empty());
    assert(reads_as(cells[n - 1], fields[n - 1]));
    if n == 1 {
        let r = read_text(fresh(rows, Seq::empty()), cells[0]);
        assert(r.row == Seq::<Seq<char>>::empty());
        assert(fields.drop_last() =~= Seq::empty());
    } else {
        let before = cells.drop_last();
        let said = fields.drop_last();
        assert forall|i: int| 0 <= i < before.len() implies #[trigger] reads_as(
            before[i],
            said[i],
        ) by {
            assert(reads_as(cells[i], fields[i]));
        }
        lemma_read_row(rows, before, said);
        let r = read_text(start, comma_joined(before));
        lemma_read_on(start, comma_joined(before), seq![',']);
        lemma_read_one(r, ',');
        assert(said.drop_last().push(said.last()) =~= said);
        assert(read_char(r, ',') == fresh(rows, said));
        lemma_read_on(start, comma_joined(before) + seq![','], cells.last());
    }
}

/// A line of cells reads as one more row.
proof fn lemma_read_line(rows: Seq<Seq<Seq<char>>>, cells: Seq<Seq<char>>, fields: Seq<Seq<char>>)
    requires
        cells.len() == fields.len(),
        cells.len() > 0,
        forall|i: int| 0 <= i < cells.len() ==> #[trigger] reads_as(cells[i], fields[i]),
    ensures
        read_text(fresh(rows, Seq::empty()), comma_joined(cells) + seq!['\n']) == fresh(
            rows.push(fields),
            Seq::empty(),
        ),
{
    let start = fresh(rows, Seq::empty());
    lemma_read_row(rows, cells, fields);
    lemma_read_on(start, comma_joined(cells), seq!['\n']);
    lemma_read_one(read_text(start, comma_joined(cells)), '\n');
    assert(fields.drop_last().push(fields.last()) =~= fields);
}

/// What the columns say in a row.
pub open spec fn said_in_row(cols: Seq<ColumnView>, texts: Map<u64, String>, row: int) -> Seq<
    Seq<char>,
> {
    Seq::new(cols.len(), |i: int| says(cols[i], texts, row))
}

/// What the columns say in the first rows.
pub open spec fn said(cols: Seq<ColumnView>, texts: Map<u64, String>, n: nat) -> Seq<
    Seq<Seq<char>>,
> {
    Seq::new(n, |row: int| said_in_row(cols, texts, row))
}

proof fn lemma_read_rows(
    rows: Seq<Seq<Seq<char>>>,
    cols: Seq<ColumnView>,
    texts: Map<u64, String>,
    n: nat,
)
    requires
        cols.len() > 0,
        bare_doubles(texts),
        forall|i: int|
            0 <= i < cols.len() ==> doubles_known(#[trigger] cols[i], texts) && (column_len(
                cols[i],
            ) matches Some(m) ==> n <= m),
    ensures
        read_text(fresh(rows, Seq::empty()), rows_text(cols, texts, n)) == fresh(
            rows + said(cols, texts, n),
            Seq::empty(),
        ),
    decreases n,
{
    let start = fresh(rows, Seq::empty());
    if n == 0 {
        assert(rows + said(cols, texts, n) =~= rows);
    } else {
        let k = (n - 1) as nat;
        lemma_read_rows(rows, cols, texts, k);
        let cells = Seq::new(cols.len(), |i: int| cell_in(cols[i], texts, n - 1));
        let fields = said_in_row(cols, texts, n - 1);
        assert forall|i: int| 0 <= i < cells.len() implies #[trigger] reads_as(
            cells[i],
            fields[i],
        ) by {
            assert(doubles_known(cols[i], texts));
            law_cells_say_their_column(cols[i], texts, n - 1);
        }
        let so_far = rows + said(cols, texts, k);
        lemma_read_line(so_far, cells, fields);
        let line = row_text(cols, texts, n - 1) + seq!['\n'];
        lemma_read_on(start, rows_text(cols, texts, k), line);
        assert(rows_text(cols, texts, n) =~= rows_text(cols, texts, k) + line);
        assert(so_far.push(fields) =~= rows + said(cols, texts, n));
    }
}

/// A rendered document reads back: one row of names where it has a header, then one row for each
/// of the columns' rows, with as many fields as there are columns, and in each field what its
/// column says there.
pub proof fn law_document_reads_back(
    names: Seq<Seq<char>>,
    specs: Seq<Val>,
    texts: Map<u64, String>,
    with_header: bool,
)
    requires
        bare_doubles(texts),
        columns_of(specs, texts) matches Ok(cols) ==> forall|i: int|
            0 <= i < cols.len() ==> doubles_known(#[trigger] cols[i], texts),
    ensures
        document(names, specs, texts, with_header) matches Ok((text, n)) ==> {
            &&& columns_of(specs, texts) matches Ok(cols)
            &&& cols.len() == names.len()
            &&& forall|i: int|
                0 <= i < cols.len() ==> (column_len(#[trigger] cols[i]) matches Some(m) ==> m == n)
            &&& read_document(text) == (if with_header {
                seq![names]
            } else {
                Seq::empty()
            }) + said(cols, texts, n)
        },
{
    if let Ok((text, n)) = document(names, specs, texts, with_header) {
        let cols = columns_of(specs, texts)->Ok_0;
        lemma_agreed_rows(cols, names, cols.len());
        let none: Seq<Seq<Seq<char>>> = Seq::empty();
        let start = fresh(none, Seq::empty());
        assert(cols.len() > 0);
        let head: Seq<Seq<Seq<char>>> = if with_header {
            seq![names]
        } else {
            none
        };
        if with_header {
            let cells = Seq::new(names.len(), |i: int| escaped_cell(names[i]));
            assert forall|i: int| 0 <= i < cells.len() implies #[trigger] reads_as(
                cells[i],
                names[i],
            ) by {
                law_cells_read_as_their_text(names[i]);
            }
            lemma_read_line(none, cells, names);
            lemma_read_on(start, header_text(names), rows_text(cols, texts, n));
            assert(none.push(names) =~= head);
        } else {
            assert(Seq::<char>::empty() + rows_text(cols, texts, n) =~= rows_text(cols, texts, n));
        }
        lemma_read_rows(head, cols, texts, n);
    }
}

// ---------------------------------------------------------------------------
// Column specifications
// ---------------------------------------------------------------------------

/// A column specification: a tag and what follows it.
pub open spec fn tagged_spec(tag: Seq<char>, rest: Seq<Val>) -> Val {
    Val::Vector(seq![Val::Keyword(NameView { namespace: None, name: tag })] + rest)
}

/// What the tags of a column mean.
pub proof fn law_column_tags(
    bits: Seq<u64>,
    longs: Seq<i64>,
    secs: Seq<i64>,
    v: Val,
    texts: Map<u64, String>,
)
    ensures
        column_of(tagged_spec("d"@, seq![Val::DoubleArray(bits)]), texts) == Ok::<
            ColumnView,
            Seq<char>,
        >(ColumnView::Doubles(bits)),
        column_of(tagged_spec("l"@, seq![Val::LongArray(longs)]), texts) == Ok::<
            ColumnView,
            Seq<char>,
        >(ColumnView::Longs(longs)),
        column_of(tagged_spec("date"@, seq![Val::LongArray(longs)]), texts) == Ok::<
            ColumnView,
            Seq<char>,
        >(ColumnView::Dates(longs)),
        longs.len() == secs.len() ==> column_of(
            tagged_spec("ts"@, seq![Val::LongArray(longs), Val::LongArray(secs)]),
            texts,
        ) == Ok::<ColumnView, Seq<char>>(ColumnView::Timestamps(longs, secs)),
        longs.len() != secs.len() ==> column_of(
            tagged_spec("ts"@, seq![Val::LongArray(longs), Val::LongArray(secs)]),
            texts,
        ) is Err,
        cell_of(v, texts) matches Ok(c) ==> column_of(tagged_spec("const"@, seq![v]), texts)
            == Ok::<ColumnView, Seq<char>>(ColumnView::Const(cell_or_empty(c))),
        cell_of(v, texts) is Err ==> column_of(tagged_spec("const"@, seq![v]), texts) is Err,
{
    lemma_tags();
}

proof fn lemma_tags()
    ensures
        "d"@ != "l"@,
        "d"@ != "date"@,
        "d"@ != "ts"@,
        "d"@ != "s"@,
        "d"@ != "const"@,
        "l"@ != "date"@,
        "l"@ != "ts"@,
        "l"@ != "s"@,
        "l"@ != "const"@,
        "date"@ != "ts"@,
        "date"@ != "s"@,
        "date"@ != "const"@,
        "ts"@ != "s"@,
        "ts"@ != "const"@,
        "s"@ != "const"@,
{
    reveal_strlit("d");
    reveal_strlit("l");
    reveal_strlit("date");
    reveal_strlit("ts");
    reveal_strlit("s");
    reveal_strlit("const");
    assert("d"@[0] == 'd' && "l"@[0] == 'l' && "s"@[0] == 's');
    assert("d"@.len() == 1 && "l"@.len() == 1 && "s"@.len() == 1 && "ts"@.len() == 2);
    assert("date"@.len() == 4 && "const"@.len() == 5);
}

/// The cells of a string column are those of its values, one by one: a string is its text, nil
/// is none, a boolean its name and a number its digits; no other value has a cell.
pub proof fn law_string_columns(v: Seq<Val>, texts: Map<u64, String>)
    ensures
        column_of(tagged_spec("s"@, seq![Val::Vector(v)]), texts) matches Ok(c) ==> {
            &&& c matches ColumnView::Strings(cells)
            &&& cells.len() == v.len()
            &&& forall|i: int|
                0 <= i < v.len() ==> match #[trigger] v[i] {
                    Val::Nil => cells[i] is None,
                    Val::Str(s) => cells[i] == Some(s),
                    Val::Bool(b) => cells[i] == Some(if b {
                        "true"@
                    } else {
                        "false"@
                    }),
                    Val::Long(n) => cells[i] == Some(int_text(n as int)),
                    Val::Double(x) => cells[i] == Some(texts[x]@),
                    _ => false,
                }
        },
        column_of(tagged_spec("s"@, seq![Val::Vector(v)]), texts) is Err <==> exists|i: int|
            0 <= i < v.len() && !(#[trigger] v[i] is Nil || v[i] is Str || v[i] is Bool
                || v[i] is Long || v[i] is Double),
{
    lemma_tags();
    lemma_cells(v, texts);
}

proof fn lemma_cells(v: Seq<Val>, texts: Map<u64, String>)
    ensures
        crate::csv::cells_of(v, texts) matches Ok(cells) ==> {
            &&& cells.len() == v.len()
            &&& forall|i: int|
                0 <= i < v.len() ==> cell_of(#[trigger] v[i], texts) == Ok::<
                    Option<Seq<char>>,
                    Seq<char>,
                >(cells[i])
        },
        crate::csv::cells_of(v, texts) is Err <==> exists|i: int|
            0 <= i < v.len() && cell_of(#[trigger] v[i], texts) is Err,
    decreases v.len(),
{
    if v.len() > 0 {
        let w = v.drop_last();
        lemma_cells(w, texts);
        if exists|i: int| 0 <= i < v.len() && cell_of(#[trigger] v[i], texts) is Err {
            let i = choose|i: int| 0 <= i < v.len() && cell_of(#[trigger] v[i], texts) is Err;
            if i < w.len() {
                assert(w[i] == v[i]);
            }
        }
        if crate::csv::cells_of(v, texts) is Err {
            if crate::csv::cells_of(w, texts) is Err {
                let i = choose|i: int| 0 <= i < w.len() && cell_of(#[trigger] w[i], texts) is Err;
                assert(w[i] == v[i]);
            } else {
                assert(cell_of(v[v.len() - 1], texts) is Err);
            }
        } else {
            assert forall|i: int| 0 <= i < v.len() implies cell_of(#[trigger] v[i], texts) == Ok::<
                Option<Seq<char>>,
                Seq<char>,
            >(crate::csv::cells_of(v, texts)->Ok_0[i]) by {
                if i < w.len() {
                    assert(w[i] == v[i]);
                }
            }
        }
    }
}

proof fn lemma_lengths_agree(cols: Seq<ColumnView>, names: Seq<Seq<char>>, n: nat, k: nat)
    requires
        k <= cols.len(),
        forall|i: int|
            0 <= i < cols.len() ==> (column_len(#[trigger] cols[i]) matches Some(m) ==> m == n),
    ensures
        crate::csv::agreed_rows(cols, names, k) == Ok::<Option<nat>, Seq<char>>(
            if exists|i: int| 0 <= i < k && column_len(#[trigger] cols[i]) is Some {
                Some(n)
            } else {
                None
            },
        ),
    decreases k,
{
    if k > 0 {
        lemma_lengths_agree(cols, names, n, (k - 1) as nat);
        assert(column_len(cols[k - 1]) matches Some(m) ==> m == n);
        if exists|i: int| 0 <= i < k && column_len(#[trigger] cols[i]) is Some {
            let i = choose|i: int| 0 <= i < k && column_len(#[trigger] cols[i]) is Some;
            if i < k - 1 {
                assert(column_len(cols[i]) is Some);
            }
        }
    }
}

/// A document is rendered wherever the columns can be read, there is a name for each, and those that
/// are not constant agree on their length, one of them being there.
pub proof fn law_documents_are_rendered(
    names: Seq<Seq<char>>,
    specs: Seq<Val>,
    texts: Map<u64, String>,
    with_header: bool,
    cols: Seq<ColumnView>,
    n: nat,
    k: int,
)
    requires
        columns_of(specs, texts) == Ok::<Seq<ColumnView>, Seq<char>>(cols),
        cols.len() == names.len(),
        forall|i: int|
            0 <= i < cols.len() ==> (column_len(#[trigger] cols[i]) matches Some(m) ==> m == n),
        0 <= k < cols.len(),
        column_len(cols[k]) is Some,
    ensures
        document(names, specs, texts, with_header) matches Ok((text, rows)) && rows == n,
{
    lemma_lengths_agree(cols, names, n, cols.len());
    assert(column_len(cols[k]) is Some);
}

} // verus!
