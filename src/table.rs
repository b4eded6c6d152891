//! The settings table: one header row naming the ten fields, then one row per power level,
//! each cell a decimal number. The CSV text itself is written and read by the csv crate.

use vstd::prelude::*;
use crate::decimal::{
    decimal_digits, decimal_text, parse_u16, u16_of_text, lemma_decimal_digits,
    lemma_decimal_round_trip,
};
use crate::gcu::{field_of, setting_of, Setting};

verus! {

/// Columns of the table.
pub const COLUMNS: usize = 10;

/// The header cell of column `c`: the name of the field it holds.
pub open spec fn column_name(c: nat) -> Seq<u8> {
    if c == 0 {
        seq![112u8, 111u8, 119u8, 101u8, 114u8, 95u8, 108u8, 101u8, 118u8, 101u8, 108u8]
    } else if c == 1 {
        seq![104u8, 105u8, 103u8, 104u8, 95u8, 112u8, 114u8, 101u8, 115u8, 115u8, 117u8, 114u8, 101u8]
    } else if c == 2 {
        seq![109u8, 105u8, 100u8, 95u8, 112u8, 114u8, 101u8, 115u8, 115u8, 117u8, 114u8, 101u8]
    } else if c == 3 {
        seq![108u8, 111u8, 119u8, 95u8, 112u8, 114u8, 101u8, 115u8, 115u8, 117u8, 114u8, 101u8]
    } else if c == 4 {
        seq![104u8, 105u8, 103u8, 104u8, 95u8, 112u8, 117u8, 108u8, 115u8, 101u8]
    } else if c == 5 {
        seq![109u8, 105u8, 100u8, 95u8, 112u8, 117u8, 108u8, 115u8, 101u8]
    } else if c == 6 {
        seq![108u8, 111u8, 119u8, 95u8, 112u8, 117u8, 108u8, 115u8, 101u8]
    } else if c == 7 {
        seq![104u8, 105u8, 103u8, 104u8, 95u8, 115u8, 108u8, 111u8, 112u8, 101u8]
    } else if c == 8 {
        seq![108u8, 111u8, 119u8, 95u8, 115u8, 108u8, 111u8, 112u8, 101u8]
    } else {
        seq![118u8, 111u8, 108u8, 116u8, 115u8]
    }
}

pub fn column_name_text(c: usize) -> (r: Vec<u8>)
    requires
        c < COLUMNS,
    ensures
        r@ == column_name(c as nat),
{
    let v: Vec<u8> = if c == 0 {
        vec![112u8, 111u8, 119u8, 101u8, 114u8, 95u8, 108u8, 101u8, 118u8, 101u8, 108u8]
    } else if c == 1 {
        vec![104u8, 105u8, 103u8, 104u8, 95u8, 112u8, 114u8, 101u8, 115u8, 115u8, 117u8, 114u8, 101u8]
    } else if c == 2 {
        vec![109u8, 105u8, 100u8, 95u8, 112u8, 114u8, 101u8, 115u8, 115u8, 117u8, 114u8, 101u8]
    } else if c == 3 {
        vec![108u8, 111u8, 119u8, 95u8, 112u8, 114u8, 101u8, 115u8, 115u8, 117u8, 114u8, 101u8]
    } else if c == 4 {
        vec![104u8, 105u8, 103u8, 104u8, 95u8, 112u8, 117u8, 108u8, 115u8, 101u8]
    } else if c == 5 {
        vec![109u8, 105u8, 100u8, 95u8, 112u8, 117u8, 108u8, 115u8, 101u8]
    } else if c == 6 {
        vec![108u8, 111u8, 119u8, 95u8, 112u8, 117u8, 108u8, 115u8, 101u8]
    } else if c == 7 {
        vec![104u8, 105u8, 103u8, 104u8, 95u8, 115u8, 108u8, 111u8, 112u8, 101u8]
    } else if c == 8 {
        vec![108u8, 111u8, 119u8, 95u8, 115u8, 108u8, 111u8, 112u8, 101u8]
    } else {
        vec![118u8, 111u8, 108u8, 116u8, 115u8]
    };
    assert(v@ =~= column_name(c as nat));
    v
}

/// The field of `s` that column `c` holds.
pub open spec fn column_value(s: Setting, c: nat) -> u16 {
    if c == 0 {
        s.power_level
    } else {
        field_of(s, (c - 1) as nat)
    }
}

/// The setting whose columns hold `w`, in column order.
pub open spec fn setting_of_columns(w: Seq<u16>) -> Setting {
    setting_of(w[0], w.drop_first())
}

/// The header row: the field names in column order.
pub open spec fn header_row() -> Seq<Seq<u8>> {
    Seq::new(10, |c: int| column_name(c as nat))
}

/// The row of a setting: its fields in decimal, in column order.
pub open spec fn setting_row(s: Setting) -> Seq<Seq<u8>> {
    Seq::new(10, |c: int| decimal_digits(column_value(s, c as nat) as nat))
}

/// The table of `ss`: the header row and one row per setting, or no rows at all when there
/// is no setting.
pub open spec fn settings_rows(ss: Seq<Setting>) -> Seq<Seq<Seq<u8>>> {
    if ss.len() == 0 {
        Seq::empty()
    } else {
        seq![header_row()] + Seq::new(ss.len(), |i: int| setting_row(ss[i]))
    }
}

/// The first column at or after `from` whose header cell is `name`.
pub open spec fn first_match(header: Seq<Seq<u8>>, name: Seq<u8>, from: nat) -> Option<nat>
    decreases header.len() - from,
{
    if from >= header.len() {
        None
    } else if header[from as int] == name {
        Some(from)
    } else {
        first_match(header, name, from + 1)
    }
}

/// The number in `row` under the first header cell named for column `c`.
pub open spec fn cell_value(header: Seq<Seq<u8>>, row: Seq<Seq<u8>>, c: nat) -> Option<u16> {
    match first_match(header, column_name(c), 0) {
        Some(j) => if j < row.len() {
            u16_of_text(row[j as int])
        } else {
            None
        },
        None => None,
    }
}

/// Whether every field can be read from `row` under `header`.
pub open spec fn row_readable(header: Seq<Seq<u8>>, row: Seq<Seq<u8>>) -> bool {
    forall|c: nat| c < 10 ==> #[trigger] cell_value(header, row, c) is Some
}

/// The setting read from `row` under `header`.
pub open spec fn row_setting(header: Seq<Seq<u8>>, row: Seq<Seq<u8>>) -> Setting {
    setting_of_columns(Seq::new(10, |c: int| cell_value(header, row, c as nat)->Some_0))
}

/// The settings a table holds: none for an empty table; else one per row after the header,
/// if every such row is readable.
pub open spec fn settings_of_rows(rows: Seq<Seq<Seq<u8>>>) -> Option<Seq<Setting>> {
    if rows.len() == 0 {
        Some(Seq::empty())
    } else if forall|i: int| 1 <= i < rows.len() ==> row_readable(rows[0], #[trigger] rows[i]) {
        Some(Seq::new((rows.len() - 1) as nat, |i: int| row_setting(rows[0], rows[i + 1])))
    } else {
        None
    }
}

/// How many rows from index `i` on, one after another, can be read under the header row.
pub open spec fn readable_run(rows: Seq<Seq<Seq<u8>>>, i: nat) -> nat
    decreases rows.len() - i,
{
    if i == 0 || i >= rows.len() {
        0
    } else if row_readable(rows[0], rows[i as int]) {
        1 + readable_run(rows, i + 1)
    } else {
        0
    }
}

/// The settings of the rows after the header row, up to the first row that cannot be read.
pub open spec fn leading_settings(rows: Seq<Seq<Seq<u8>>>) -> Seq<Setting> {
    if rows.len() == 0 {
        Seq::empty()
    } else {
        Seq::new(readable_run(rows, 1), |t: int| row_setting(rows[0], rows[t + 1]))
    }
}

/// Whether a byte needs no quoting in CSV: an ASCII letter, digit or `_`.
pub open spec fn plain_byte(b: u8) -> bool {
    (48 <= b <= 57) || (65 <= b <= 90) || (97 <= b <= 122) || b == 95
}

/// Whether a field is one or more bytes that need no quoting.
pub open spec fn plain_field(f: Seq<u8>) -> bool {
    f.len() > 0 && forall|k: int| 0 <= k < f.len() ==> plain_byte(#[trigger] f[k])
}

/// Whether every record has fields, and every field is plain.
pub open spec fn plain_rows(rows: Seq<Seq<Seq<u8>>>) -> bool {
    &&& forall|i: int| 0 <= i < rows.len() ==> (#[trigger] rows[i]).len() > 0
    &&& forall|i: int, j: int|
        0 <= i < rows.len() && 0 <= j < rows[i].len() ==> plain_field(#[trigger] rows[i][j])
}

/// The fields of a record joined by commas.
pub open spec fn comma_joined(row: Seq<Seq<u8>>) -> Seq<u8>
    decreases row.len(),
{
    if row.len() == 0 {
        Seq::empty()
    } else if row.len() == 1 {
        row[0]
    } else {
        comma_joined(row.drop_last()) + seq![44u8] + row.last()
    }
}

/// Records as CSV lines with no quoting: fields joined by commas, each record ended by `\n`.
pub open spec fn plain_text(rows: Seq<Seq<Seq<u8>>>) -> Seq<u8>
    decreases rows.len(),
{
    if rows.len() == 0 {
        Seq::empty()
    } else {
        plain_text(rows.drop_last()) + comma_joined(rows.last()).push(10u8)
    }
}

/// The CSV text of a list of records.
pub uninterp spec fn csv_text(rows: Seq<Seq<Seq<u8>>>) -> Seq<u8>;

/// The records that CSV text holds, or nothing if it cannot be read.
pub uninterp spec fn csv_records(text: Seq<u8>) -> Option<Seq<Seq<Seq<u8>>>>;

/// Relies on csv::Writer::write_record (flexible rows, quotes not doubled) and
/// Writer::into_inner: the text of the records, one line each. Into a `Vec<u8>` with flexible
/// rows neither call can fail: the only failures are of the output and of the field count.
/// With the default quote style a field is quoted only if it holds the delimiter, the quote,
/// the escape byte or a line break, and the default terminator is `\n`: plain fields come
/// out as they are, joined by commas.
#[verifier::external_body]
pub(crate) fn encode_csv(rows: &Vec<Vec<Vec<u8>>>) -> (r: Vec<u8>)
    ensures
        r@ == csv_text(rows.deep_view()),
        plain_rows(rows.deep_view()) ==> r@ == plain_text(rows.deep_view()),
{
    let mut w = csv::WriterBuilder::new().flexible(true).double_quote(false).from_writer(
        Vec::new(),
    );
    for row in rows {
        w.write_record(row).expect("writing to memory does not fail");
    }
    w.into_inner().expect("flushing to memory does not fail")
}

/// Relies on csv::Reader::byte_records (no header row taken apart, flexible rows, quotes not
/// doubled): the records of the text, each as its fields. Lines of plain fields joined by
/// commas, each ended by `\n`, read back as those fields.
#[verifier::external_body]
pub(crate) fn decode_csv(text: &[u8]) -> (r: Option<Vec<Vec<Vec<u8>>>>)
    ensures
        match r {
            Some(rows) => csv_records(text@) == Some(rows.deep_view()),
            None => csv_records(text@) is None,
        },
        forall|rows: Seq<Seq<Seq<u8>>>|
            plain_rows(rows) && #[trigger] plain_text(rows) == text@ ==> r is Some && r->0.deep_view()
                == rows,
{
    let mut rdr = csv::ReaderBuilder::new().has_headers(false).flexible(true).double_quote(
        false,
    ).from_reader(text);
    let mut rows = Vec::new();
    for rec in rdr.byte_records() {
        rows.push(rec.ok()?.iter().map(|f| f.to_vec()).collect());
    }
    Some(rows)
}

proof fn lemma_bytes_deep(v: Vec<u8>)
    ensures
        v.deep_view() == v@,
{
    assert(v.deep_view() =~= v@);
}

/// Whether two byte strings are equal.
fn same_bytes(a: &Vec<u8>, b: &Vec<u8>) -> (r: bool)
    ensures
        r == (a@ == b@),
{
    if a.len() != b.len() {
        return false;
    }
    let mut i: usize = 0;
    while i < a.len()
        invariant
            a@.len() == b@.len(),
            i <= a@.len(),
            forall|t: int| 0 <= t < i ==> a@[t] == b@[t],
        decreases a.len() - i,
    {
        if a[i] != b[i] {
            return false;
        }
        i = i + 1;
    }
    assert(a@ =~= b@);
    true
}

/// The field of `s` that column `c` holds.
pub fn column_field(s: &Setting, c: usize) -> (r: u16)
    requires
        c < COLUMNS,
    ensures
        r == column_value(*s, c as nat),
{
    if c == 0 {
        s.power_level
    } else {
        s.field(c - 1)
    }
}

/// The header row.
pub fn header_text() -> (r: Vec<Vec<u8>>)
    ensures
        r.deep_view() == header_row(),
{
    let mut r: Vec<Vec<u8>> = Vec::new();
    let mut c: usize = 0;
    while c < COLUMNS
        invariant
            c <= COLUMNS,
            r@.len() == c,
            forall|t: int| 0 <= t < c ==> (#[trigger] r@[t])@ == column_name(t as nat),
        decreases COLUMNS - c,
    {
        r.push(column_name_text(c));
        c = c + 1;
    }
    assert forall|t: int| 0 <= t < r@.len() implies #[trigger] r.deep_view()[t] == header_row()[t] by {
        lemma_bytes_deep(r@[t]);
    }
    assert(r.deep_view() =~= header_row());
    r
}

/// The row of one setting: each field in decimal.
pub fn setting_text(s: &Setting) -> (r: Vec<Vec<u8>>)
    ensures
        r.deep_view() == setting_row(*s),
{
    let mut r: Vec<Vec<u8>> = Vec::new();
    let mut c: usize = 0;
    while c < COLUMNS
        invariant
            c <= COLUMNS,
            r@.len() == c,
            forall|t: int|
                0 <= t < c ==> (#[trigger] r@[t])@ == decimal_digits(
                    column_value(*s, t as nat) as nat,
                ),
        decreases COLUMNS - c,
    {
        r.push(decimal_text(column_field(s, c) as u32));
        c = c + 1;
    }
    assert forall|t: int| 0 <= t < r@.len() implies #[trigger] r.deep_view()[t] == setting_row(
        *s,
    )[t] by {
        lemma_bytes_deep(r@[t]);
    }
    assert(r.deep_view() =~= setting_row(*s));
    r
}

/// The table of `ss`: a header row and one row per setting, or nothing for no settings.
pub fn settings_to_rows(ss: &Vec<Setting>) -> (r: Vec<Vec<Vec<u8>>>)
    ensures
        r.deep_view() == settings_rows(ss@),
{
    let mut r: Vec<Vec<Vec<u8>>> = Vec::new();
    if ss.len() == 0 {
        assert(r.deep_view() =~= settings_rows(ss@));
        return r;
    }
    r.push(header_text());
    let mut i: usize = 0;
    while i < ss.len()
        invariant
            i <= ss@.len(),
            r@.len() == i + 1,
            r@[0].deep_view() == header_row(),
            forall|t: int| 0 <= t < i ==> (#[trigger] r@[t + 1]).deep_view() == setting_row(ss@[t]),
        decreases ss.len() - i,
    {
        r.push(setting_text(&ss[i]));
        i = i + 1;
    }
    assert forall|t: int| 0 <= t < r@.len() implies #[trigger] r.deep_view()[t] == settings_rows(
        ss@,
    )[t] by {
        if t > 0 {
            assert(r@[(t - 1) + 1] == r@[t]);
        }
    }
    assert(r.deep_view() =~= settings_rows(ss@));
    r
}

/// The first column whose header cell is `name`.
pub fn find_column(header: &Vec<Vec<u8>>, name: &Vec<u8>) -> (r: Option<usize>)
    ensures
        match r {
            Some(j) => first_match(header.deep_view(), name@, 0) == Some(j as nat),
            None => first_match(header.deep_view(), name@, 0) is None,
        },
{
    let ghost h = header.deep_view();
    let mut j: usize = 0;
    while j < header.len()
        invariant
            h == header.deep_view(),
            j <= header@.len(),
            first_match(h, name@, 0) == first_match(h, name@, j as nat),
        decreases header.len() - j,
    {
        proof {
            lemma_bytes_deep(header@[j as int]);
        }
        assert(h[j as int] == header@[j as int]@);
        if same_bytes(&header[j], name) {
            return Some(j);
        }
        j = j + 1;
    }
    None
}

/// Reads one row under `header`, if every field can be read from it.
pub fn read_row(header: &Vec<Vec<u8>>, row: &Vec<Vec<u8>>) -> (r: Option<Setting>)
    ensures
        match r {
            Some(s) => row_readable(header.deep_view(), row.deep_view()) && s == row_setting(
                header.deep_view(),
                row.deep_view(),
            ),
            None => !row_readable(header.deep_view(), row.deep_view()),
        },
{
    let ghost h = header.deep_view();
    let ghost rw = row.deep_view();
    let mut w: Vec<u16> = Vec::new();
    let mut c: usize = 0;
    while c < COLUMNS
        invariant
            h == header.deep_view(),
            rw == row.deep_view(),
            c <= COLUMNS,
            w@.len() == c,
            forall|t: int| 0 <= t < c ==> cell_value(h, rw, t as nat) == Some(#[trigger] w@[t]),
        decreases COLUMNS - c,
    {
        let name = column_name_text(c);
        let j = match find_column(header, &name) {
            Some(j) => j,
            None => {
                assert(cell_value(h, rw, c as nat) is None);
                return None;
            },
        };
        if j >= row.len() {
            assert(cell_value(h, rw, c as nat) is None);
            return None;
        }
        proof {
            lemma_bytes_deep(row@[j as int]);
        }
        assert(rw[j as int] == row@[j as int]@);
        let v = match parse_u16(row[j].as_slice()) {
            Some(v) => v,
            None => {
                assert(cell_value(h, rw, c as nat) is None);
                return None;
            },
        };
        w.push(v);
        c = c + 1;
    }
    let s = Setting::new(w[0], w[1], w[2], w[3], w[4], w[5], w[6], w[7], w[8], w[9]);
    assert(row_readable(h, rw)) by {
        assert forall|t: nat| t < 10 implies #[trigger] cell_value(h, rw, t) is Some by {
            assert(cell_value(h, rw, t as int as nat) == Some(w@[t as int]));
        }
    }
    assert(Seq::new(10, |t: int| cell_value(h, rw, t as nat)->Some_0) =~= w@) by {
        assert forall|t: int| 0 <= t < 10 implies cell_value(h, rw, t as nat)->Some_0 == w@[t] by {
            assert(cell_value(h, rw, t as nat) == Some(w@[t]));
        }
    }
    assert(w@.drop_first()[0] == w@[1]);
    Some(s)
}

/// The settings read from a table, up to its first row whose fields cannot all be read, and
/// whether every row could be read.
pub fn settings_from_rows(rows: &Vec<Vec<Vec<u8>>>) -> (r: (Vec<Setting>, bool))
    ensures
        r.0@ == leading_settings(rows.deep_view()),
        r.1 == settings_of_rows(rows.deep_view()) is Some,
        r.1 ==> settings_of_rows(rows.deep_view()) == Some(r.0@),
{
    let ghost d = rows.deep_view();
    let mut out: Vec<Setting> = Vec::new();
    if rows.len() == 0 {
        assert(out@ =~= Seq::<Setting>::empty());
        return (out, true);
    }
    assert(d[0] == rows@[0].deep_view());
    let mut i: usize = 1;
    while i < rows.len()
        invariant
            d == rows.deep_view(),
            d[0] == rows@[0].deep_view(),
            1 <= i <= rows@.len(),
            out@.len() == i - 1,
            readable_run(d, 1) == (i - 1) + readable_run(d, i as nat),
            forall|t: int| 1 <= t < i ==> row_readable(d[0], #[trigger] d[t]),
            forall|t: int| 0 <= t < i - 1 ==> #[trigger] out@[t] == row_setting(d[0], d[t + 1]),
        decreases rows.len() - i,
    {
        assert(d[i as int] == rows@[i as int].deep_view());
        match read_row(&rows[0], &rows[i]) {
            Some(s) => {
                out.push(s);
            },
            None => {
                assert(out@ =~= leading_settings(d));
                return (out, false);
            },
        }
        i = i + 1;
    }
    assert(out@ =~= Seq::new((d.len() - 1) as nat, |t: int| row_setting(d[0], d[t + 1])));
    assert(out@ =~= leading_settings(d));
    (out, true)
}

/// No two columns share a header name.
proof fn lemma_names_distinct(a: nat, b: nat)
    requires
        a < 10,
        b < 10,
        a != b,
    ensures
        column_name(a) != column_name(b),
{
    let x = column_name(a);
    let y = column_name(b);
    if x == y {
        assert(x.len() == y.len());
        assert(x[0] == y[0]);
        assert(x[4] == y[4]);
        assert(x[x.len() - 4] == y[y.len() - 4]);
    }
}

/// A column named `name` with no such column before it, from `from` on, is the first match.
proof fn lemma_first_match(h: Seq<Seq<u8>>, name: Seq<u8>, from: nat, c: nat)
    requires
        from <= c < h.len(),
        h[c as int] == name,
        forall|t: int| from <= t < c ==> h[t] != name,
    ensures
        first_match(h, name, from) == Some(c),
    decreases c - from,
{
    if from < c {
        lemma_first_match(h, name, from + 1, c);
    }
}

/// The table of any list of settings holds only plain fields.
pub proof fn lemma_rows_plain(ss: Seq<Setting>)
    ensures
        plain_rows(settings_rows(ss)),
{
    let rows = settings_rows(ss);
    if ss.len() > 0 {
        assert forall|c: int| 0 <= c < 10 implies plain_field(#[trigger] header_row()[c]) by {
            let n = column_name(c as nat);
            assert forall|k: int| 0 <= k < n.len() implies plain_byte(#[trigger] n[k]) by {
                if c == 0 {
                } else if c == 1 {
                } else if c == 2 {
                } else if c == 3 {
                } else if c == 4 {
                } else if c == 5 {
                } else if c == 6 {
                } else if c == 7 {
                } else if c == 8 {
                } else {
                }
            }
        }
        assert forall|i: int, j: int| 0 <= i < rows.len() && 0 <= j < rows[i].len() implies plain_field(
            #[trigger] rows[i][j],
        ) by {
            if i > 0 {
                let s = ss[i - 1];
                assert(rows[i] == setting_row(s));
                lemma_decimal_digits(column_value(s, j as nat) as nat);
                let d = decimal_digits(column_value(s, j as nat) as nat);
                assert forall|k: int| 0 <= k < d.len() implies plain_byte(#[trigger] d[k]) by {
                    assert(crate::decimal::is_digit(d[k]));
                }
            } else {
                assert(rows[0] == header_row());
                assert(plain_field(header_row()[j]));
            }
        }
        assert forall|i: int| 0 <= i < rows.len() implies (#[trigger] rows[i]).len() > 0 by {
            if i > 0 {
                assert(rows[i] == setting_row(ss[i - 1]));
            }
        }
    }
}

/// Reading back the table of a list of settings gives the same settings, in the same order.
pub proof fn lemma_rows_round_trip(ss: Seq<Setting>)
    ensures
        settings_of_rows(settings_rows(ss)) == Some(ss),
{
    let rows = settings_rows(ss);
    if ss.len() > 0 {
        let h = header_row();
        assert(rows[0] == h);
        assert forall|c: nat| c < 10 implies first_match(h, #[trigger] column_name(c), 0) == Some(
            c,
        ) by {
            assert forall|t: int| 0 <= t < c implies h[t] != column_name(c) by {
                lemma_names_distinct(t as nat, c);
            }
            lemma_first_match(h, column_name(c), 0, c);
        }
        assert forall|i: int| 0 <= i < ss.len() implies row_readable(h, #[trigger] rows[i + 1])
            && row_setting(h, rows[i + 1]) == ss[i] by {
            let s = ss[i];
            let row = rows[i + 1];
            assert(row == setting_row(s));
            assert forall|c: nat| c < 10 implies #[trigger] cell_value(h, row, c) == Some(
                column_value(s, c),
            ) by {
                assert(first_match(h, column_name(c), 0) == Some(c));
                lemma_decimal_round_trip(column_value(s, c));
            }
            let w = Seq::new(10, |c: int| cell_value(h, row, c as nat)->Some_0);
            assert forall|c: int| 0 <= c < 10 implies w[c] == column_value(s, c as nat) by {
                assert(cell_value(h, row, c as nat) == Some(column_value(s, c as nat)));
            }
            let d = w.drop_first();
            assert(d[0] == w[1] && d[1] == w[2] && d[2] == w[3] && d[3] == w[4] && d[4] == w[5]
                && d[5] == w[6] && d[6] == w[7] && d[7] == w[8] && d[8] == w[9]);
        }
        assert forall|i: int| 1 <= i < rows.len() implies row_readable(rows[0], #[trigger] rows[i]) by {
            assert(rows[(i - 1) + 1] == rows[i]);
        }
        assert(Seq::new((rows.len() - 1) as nat, |i: int| row_setting(rows[0], rows[i + 1])) =~= ss);
    } else {
        assert(rows =~= Seq::<Seq<Seq<u8>>>::empty());
    }
}

/// A list of settings written out as table text reads back as the same list: its table holds
/// only plain fields, which the text carries unquoted, and the table's rows give those settings
/// in order.
pub proof fn lemma_settings_round_trip(ss: Seq<Setting>)
    ensures
        plain_rows(settings_rows(ss)),
        settings_of_rows(settings_rows(ss)) == Some(ss),
{
    lemma_rows_plain(ss);
    lemma_rows_round_trip(ss);
}

} // verus!
