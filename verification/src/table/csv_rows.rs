//! Tables in comma-separated form, whose quoted values may hold separators and
//! line breaks.
//!
//! The `csv` crate splits the text into records; where each field stands in the
//! text is found here.

use crate::table::limits::saturated;
use crate::table::row::{CellV, ParsedCell};
use crate::table::separator::Separator;
use crate::text::{
    blen, byte_len, leading_ws, lemma_blen_ge_len, lemma_trim_blen, trim, trim_spec, trim_start,
};
use vstd::prelude::*;
use vstd::string::*;
use vstd::utf8::encode_utf8;

verus! {

/// A record of a text: the byte at which the reader began to read it, and its
/// fields without their quotes.
#[derive(Debug)]
pub struct CsvRecord {
    pub start: Option<u64>,
    pub fields: Vec<String>,
}

impl DeepView for CsvRecord {
    type V = (Option<u64>, Seq<Seq<char>>);

    open spec fn deep_view(&self) -> (Option<u64>, Seq<Seq<char>>) {
        (self.start, self.fields.deep_view())
    }
}

/// The records that the `csv` crate reads from a text: for each its start and its
/// fields, or `None` where the reader rejects it.
pub uninterp spec fn csv_records(text: Seq<char>, delimiter: u8) -> Seq<
    Option<(Option<u64>, Seq<Seq<char>>)>,
>;

/// Read the records of a text with `csv::Reader::records`, over a reader without
/// a header record that takes records of any number of fields. What it reads
/// depends on the text and the delimiter alone; `csv_records` is the name of it.
#[verifier::external_body]
fn read_csv_records(text: &str, delimiter: u8) -> (r: Vec<Option<CsvRecord>>)
    ensures
        r.deep_view() == csv_records(text@, delimiter),
{
    let mut builder = csv::ReaderBuilder::new();
    builder.has_headers(false).flexible(true).delimiter(delimiter);
    let mut reader = builder.from_reader(text.as_bytes());
    reader
        .records()
        .map(|result| {
            result.ok().map(|record| CsvRecord {
                start: record.position().map(|p| p.byte()),
                fields: record.iter().map(|field| field.to_string()).collect(),
            })
        })
        .collect()
}

// ---------------------------------------------------------------------------
// Where fields stand.
// ---------------------------------------------------------------------------

/// A byte that ends a field without quotes.
pub open spec fn ends_field(b: u8, sep_byte: u8) -> bool {
    b == sep_byte || b == 0x0A || b == 0x0D
}

/// The first byte at or after `from` that ends a field, or the end of the text.
pub open spec fn field_stop(bytes: Seq<u8>, from: int, sep_byte: u8) -> int
    decreases bytes.len() - from,
{
    if from >= bytes.len() || ends_field(bytes[from], sep_byte) {
        from
    } else {
        field_stop(bytes, from + 1, sep_byte)
    }
}

/// The first quote at or after `from` that is not doubled, or the end of the text.
pub open spec fn closing_quote(bytes: Seq<u8>, from: int) -> int
    decreases bytes.len() - from,
{
    if from >= bytes.len() {
        bytes.len() as int
    } else if bytes[from] != 0x22 {
        closing_quote(bytes, from + 1)
    } else if from + 1 < bytes.len() && bytes[from + 1] == 0x22 {
        closing_quote(bytes, from + 2)
    } else {
        from
    }
}

/// The end of a field without quotes that holds `content_len` bytes.
pub open spec fn unquoted_end(bytes: Seq<u8>, start: int, content_len: int, sep_byte: u8) -> int {
    if start >= bytes.len() {
        bytes.len() as int
    } else if start + content_len < field_stop(bytes, start, sep_byte) {
        start + content_len
    } else {
        field_stop(bytes, start, sep_byte)
    }
}

/// The start of the field behind the one that ends at `pos`.
pub open spec fn next_field(bytes: Seq<u8>, pos: int, sep_byte: u8) -> int {
    let from = if 0 <= pos < bytes.len() && bytes[pos] == 0x22 {
        pos + 1
    } else {
        pos
    };
    let stop = field_stop(bytes, from, sep_byte);
    if stop >= bytes.len() {
        stop
    } else if bytes[stop] == 0x0D && bytes[stop] != sep_byte && stop + 1 < bytes.len() && bytes[stop
        + 1] == 0x0A {
        stop + 2
    } else {
        stop + 1
    }
}

/// Where the text of the field at `start` begins, and where the next field does.
pub open spec fn field_position(bytes: Seq<u8>, start: int, content_len: int, sep_byte: u8) -> (
    int,
    int,
) {
    if start >= bytes.len() {
        (start, start)
    } else if bytes[start] == 0x22 {
        (start + 1, next_field(bytes, closing_quote(bytes, start + 1), sep_byte))
    } else {
        (start, next_field(bytes, unquoted_end(bytes, start, content_len, sep_byte), sep_byte))
    }
}

/// Where the text of a field that begins at `start` comes behind the white space before
/// it.
pub open spec fn field_text_start(field: Seq<char>, start: int) -> int {
    saturated(start + blen(field.take(leading_ws(field))))
}

/// The cell of a field that begins at `start`: its text without white space round it.
pub open spec fn csv_cell(field: Seq<char>, start: int) -> CellV {
    let content = trim_spec(field);
    let at = if content.len() == 0 {
        start
    } else {
        field_text_start(field, start)
    };
    CellV {
        content,
        start,
        content_start: at,
        end: if content.len() == 0 {
            at
        } else {
            saturated(at + blen(content) - 1)
        },
        colspan: 1,
        rowspan: 1,
        halign: None,
        valign: None,
        style: None,
        is_duplication: false,
        duplication_count: 1,
    }
}

/// The cells of the fields from `k` on, the first of which stands at `at`.
pub open spec fn field_cells(
    bytes: Seq<u8>,
    fields: Seq<Seq<char>>,
    k: int,
    at: int,
    base_offset: int,
    sep_byte: u8,
) -> Seq<CellV>
    decreases fields.len() - k,
{
    if k >= fields.len() {
        Seq::empty()
    } else {
        let (start, next) = field_position(bytes, at, blen(fields[k]) as int, sep_byte);
        seq![csv_cell(fields[k], saturated(base_offset + start))] + field_cells(
            bytes,
            fields,
            k + 1,
            next,
            base_offset,
            sep_byte,
        )
    }
}

/// The first byte at or after `from` that breaks no line.
pub open spec fn past_breaks(bytes: Seq<u8>, from: int) -> int
    decreases bytes.len() - from,
{
    if from < bytes.len() && (bytes[from] == 0x0A || bytes[from] == 0x0D) {
        past_breaks(bytes, from + 1)
    } else {
        from
    }
}

/// Where the reader began to read a record.
pub open spec fn record_start(start: Option<u64>) -> int {
    match start {
        Some(n) if n <= usize::MAX => n as int,
        _ => 0,
    }
}

/// The rows of the records from `k` on. A record that was rejected, or that has
/// no fields, makes no row. The reader skips line breaks before a record, so that its
/// first field stands behind them.
pub open spec fn record_rows(
    bytes: Seq<u8>,
    records: Seq<Option<(Option<u64>, Seq<Seq<char>>)>>,
    k: int,
    base_offset: int,
    sep_byte: u8,
) -> Seq<Seq<CellV>>
    decreases records.len() - k,
{
    if k >= records.len() {
        Seq::empty()
    } else {
        let rest = record_rows(bytes, records, k + 1, base_offset, sep_byte);
        match records[k] {
            Some(record) if record.1.len() > 0 => seq![
                field_cells(
                    bytes,
                    record.1,
                    0,
                    past_breaks(bytes, record_start(record.0)),
                    base_offset,
                    sep_byte,
                ),
            ] + rest,
            _ => rest,
        }
    }
}

/// The position behind the record that `pos` stands in: behind the next line feed
/// that is not in quotes, or the end of the text.
pub open spec fn record_end(bytes: Seq<u8>, pos: int, in_quote: bool) -> int
    decreases bytes.len() - pos,
{
    if pos >= bytes.len() {
        bytes.len() as int
    } else if in_quote {
        if bytes[pos] != 0x22 {
            record_end(bytes, pos + 1, true)
        } else if pos + 1 < bytes.len() && bytes[pos + 1] == 0x22 {
            record_end(bytes, pos + 2, true)
        } else {
            record_end(bytes, pos + 1, false)
        }
    } else if bytes[pos] == 0x22 {
        record_end(bytes, pos + 1, true)
    } else if bytes[pos] == 0x0A {
        pos + 1
    } else {
        record_end(bytes, pos + 1, false)
    }
}

/// The first byte at or after `from` that is no carriage return.
pub open spec fn past_returns(bytes: Seq<u8>, from: int) -> int
    decreases bytes.len() - from,
{
    if from >= bytes.len() || bytes[from] != 0x0D {
        from
    } else {
        past_returns(bytes, from + 1)
    }
}

/// Whether the line at `pos` is blank: a line feed comes next, but for carriage
/// returns, or nothing but carriage returns.
pub open spec fn blank_line_at(bytes: Seq<u8>, pos: int) -> bool {
    let q = past_returns(bytes, pos);
    if q < bytes.len() {
        bytes[q] == 0x0A
    } else {
        pos < bytes.len()
    }
}

/// Whether a blank line comes behind the first record, which makes it a header.
pub open spec fn csv_implies_header(
    bytes: Seq<u8>,
    records: Seq<Option<(Option<u64>, Seq<Seq<char>>)>>,
) -> bool {
    &&& records.len() > 0
    &&& records[0] is Some
    &&& blank_line_at(bytes, record_end(bytes, record_start(records[0]->Some_0.0), false))
}

/// The byte that separates the fields.
pub open spec fn csv_separator(sep: Seq<char>) -> u8 {
    if sep.len() == 1 && sep[0] <= '\u{7F}' {
        sep[0] as u8
    } else {
        0x2C
    }
}

/// The rows of a text in comma-separated form.
pub open spec fn csv_rows(text: Seq<char>, sep: Seq<char>, base_offset: int) -> Seq<Seq<CellV>> {
    record_rows(
        encode_utf8(text),
        csv_records(text, csv_separator(sep)),
        0,
        base_offset,
        csv_separator(sep),
    )
}

// ---------------------------------------------------------------------------
// Executable operations.
// ---------------------------------------------------------------------------

/// The first quote at or after `start` that is not doubled.
pub fn find_closing_quote(text: &[u8], start: usize) -> (r: usize)
    ensures
        r == closing_quote(text@, start as int),
        r <= text@.len(),
{
    let mut pos: usize = start;
    while pos < text.len()
        invariant
            closing_quote(text@, start as int) == closing_quote(text@, pos as int),
        decreases text.len() - pos,
    {
        if text[pos] == 0x22 {
            if pos + 1 < text.len() && text[pos + 1] == 0x22 {
                pos += 2;
            } else {
                return pos;
            }
        } else {
            pos += 1;
        }
    }
    text.len()
}

fn find_field_stop(text: &[u8], start: usize, sep_byte: u8) -> (r: usize)
    ensures
        r == field_stop(text@, start as int, sep_byte),
        start <= r,
        r <= text@.len() || r == start,
{
    let mut pos: usize = start;
    while pos < text.len()
        invariant
            start <= pos,
            pos <= text@.len() || pos == start,
            field_stop(text@, start as int, sep_byte) == field_stop(text@, pos as int, sep_byte),
        decreases text.len() - pos,
    {
        let b = text[pos];
        if b == sep_byte || b == 0x0A || b == 0x0D {
            return pos;
        }
        pos += 1;
    }
    pos
}

/// The end of a field without quotes that holds `content_len` bytes.
pub fn find_unquoted_field_end(
    text: &[u8],
    start: usize,
    content_len: usize,
    sep_byte: u8,
) -> (r: usize)
    ensures
        r == unquoted_end(text@, start as int, content_len as int, sep_byte),
        r <= text@.len(),
{
    if start >= text.len() {
        return text.len();
    }
    let stop = find_field_stop(text, start, sep_byte);
    if content_len < stop - start {
        start + content_len
    } else {
        stop
    }
}

/// The start of the field behind the one that ends at `pos`.
pub fn skip_to_next_field(text: &[u8], pos: usize, sep_byte: u8) -> (r: usize)
    ensures
        r == next_field(text@, pos as int, sep_byte),
        r <= text@.len() || r == pos,
{
    let from: usize = if pos < text.len() && text[pos] == 0x22 {
        pos + 1
    } else {
        pos
    };
    let stop = find_field_stop(text, from, sep_byte);
    if stop >= text.len() {
        stop
    } else if text[stop] == 0x0D && text[stop] != sep_byte && stop + 1 < text.len() && text[stop
        + 1] == 0x0A {
        stop + 2
    } else {
        stop + 1
    }
}

/// Where the text of the field at `start` begins, and where the next field does.
pub fn find_csv_field_position(
    text: &[u8],
    start: usize,
    expected_content: &str,
    sep_byte: u8,
) -> (r: (usize, usize))
    ensures
        (r.0 as int, r.1 as int) == field_position(
            text@,
            start as int,
            blen(expected_content@) as int,
            sep_byte,
        ),
{
    if start >= text.len() {
        return (start, start);
    }
    if text[start] == 0x22 {
        let end = find_closing_quote(text, start + 1);
        (start + 1, skip_to_next_field(text, end, sep_byte))
    } else {
        let end = find_unquoted_field_end(text, start, byte_len(expected_content), sep_byte);
        (start, skip_to_next_field(text, end, sep_byte))
    }
}

fn field_cell(field: &str, start: usize) -> (r: ParsedCell)
    ensures
        r.deep_view() == csv_cell(field@, start as int),
{
    let content = trim(field);
    proof {
        lemma_trim_blen(field@);
        lemma_blen_ge_len(content@);
    }
    let (at, end): (usize, usize) = if content.unicode_len() == 0 {
        (start, start)
    } else {
        let at = start.saturating_add(byte_len(field) - byte_len(trim_start(field)));
        (at, at.saturating_add(byte_len(content) - 1))
    };
    ParsedCell {
        content: content.to_owned(),
        start,
        content_start: at,
        end,
        colspan: 1,
        rowspan: 1,
        halign: None,
        valign: None,
        style: None,
        is_duplication: false,
        duplication_count: 1,
    }
}

fn skip_breaks(text: &[u8], from: usize) -> (r: usize)
    ensures
        r == past_breaks(text@, from as int),
{
    let mut at: usize = from;
    while at < text.len() && (text[at] == 0x0A || text[at] == 0x0D)
        invariant
            from <= at,
            past_breaks(text@, from as int) == past_breaks(text@, at as int),
        decreases text.len() - at,
    {
        at += 1;
    }
    at
}

fn start_of(start: Option<u64>) -> (r: usize)
    ensures
        r == record_start(start),
{
    match start {
        Some(n) => if n <= usize::MAX as u64 {
            n as usize
        } else {
            0
        },
        None => 0,
    }
}

/// The cells of the fields of a record.
fn cells_of_record(
    text: &[u8],
    record: &CsvRecord,
    base_offset: usize,
    sep_byte: u8,
) -> (r: Vec<ParsedCell>)
    ensures
        r.deep_view() == field_cells(
            text@,
            record.fields.deep_view(),
            0,
            past_breaks(text@, record_start(record.start)),
            base_offset as int,
            sep_byte,
        ),
{
    let mut cells: Vec<ParsedCell> = Vec::new();
    let mut at: usize = skip_breaks(text, start_of(record.start));
    let ghost fv = record.fields.deep_view();
    let ghost want = field_cells(text@, fv, 0, at as int, base_offset as int, sep_byte);
    let mut k: usize = 0;
    assert(cells.deep_view() + want =~= want);
    while k < record.fields.len()
        invariant
            k <= record.fields@.len(),
            fv == record.fields.deep_view(),
            want == cells.deep_view() + field_cells(
                text@,
                fv,
                k as int,
                at as int,
                base_offset as int,
                sep_byte,
            ),
        decreases record.fields.len() - k,
    {
        let field = record.fields[k].as_str();
        assert(fv[k as int] == field@);
        let (start, next) = find_csv_field_position(text, at, field, sep_byte);
        let ghost before = cells.deep_view();
        let cell = field_cell(field, base_offset.saturating_add(start));
        let ghost cv = cell.deep_view();
        cells.push(cell);
        assert(cells.deep_view() =~= before.push(cv));
        let ghost rest = field_cells(
            text@,
            fv,
            k + 1,
            next as int,
            base_offset as int,
            sep_byte,
        );
        assert(before + (seq![cv] + rest) =~= before.push(cv) + rest);
        at = next;
        k += 1;
    }
    assert(cells.deep_view() + Seq::<CellV>::empty() =~= cells.deep_view());
    cells
}

/// The rows of records that were read from a text.
pub fn parse_csv_table(
    text: &str,
    records: &Vec<Option<CsvRecord>>,
    base_offset: usize,
    sep_byte: u8,
) -> (r: Vec<Vec<ParsedCell>>)
    ensures
        r.deep_view() == record_rows(
            encode_utf8(text@),
            records.deep_view(),
            0,
            base_offset as int,
            sep_byte,
        ),
{
    let bytes = text.as_bytes();
    let ghost rv = records.deep_view();
    let ghost want = record_rows(bytes@, rv, 0, base_offset as int, sep_byte);
    let mut rows: Vec<Vec<ParsedCell>> = Vec::new();
    let mut k: usize = 0;
    assert(rows.deep_view() + want =~= want);
    while k < records.len()
        invariant
            k <= records@.len(),
            rv == records.deep_view(),
            bytes@ == encode_utf8(text@),
            want == rows.deep_view() + record_rows(
                bytes@,
                rv,
                k as int,
                base_offset as int,
                sep_byte,
            ),
        decreases records.len() - k,
    {
        assert(rv[k as int] == records@[k as int].deep_view());
        match &records[k] {
            Some(record) => {
                assert(record.fields.deep_view().len() == record.fields@.len());
                if record.fields.len() > 0 {
                    let ghost before = rows.deep_view();
                    let cells = cells_of_record(bytes, record, base_offset, sep_byte);
                    let ghost cv = cells.deep_view();
                    rows.push(cells);
                    assert(rows.deep_view() =~= before.push(cv));
                    let ghost rest = record_rows(
                        bytes@,
                        rv,
                        k + 1,
                        base_offset as int,
                        sep_byte,
                    );
                    assert(before + (seq![cv] + rest) =~= before.push(cv) + rest);
                }
            },
            None => {},
        }
        k += 1;
    }
    assert(rows.deep_view() + Seq::<Seq<CellV>>::empty() =~= rows.deep_view());
    rows
}

fn find_record_end(bytes: &[u8], start: usize) -> (r: usize)
    ensures
        r == record_end(bytes@, start as int, false),
        r <= bytes@.len(),
{
    let mut pos: usize = start;
    let mut in_quote = false;
    while pos < bytes.len()
        invariant
            record_end(bytes@, start as int, false) == record_end(bytes@, pos as int, in_quote),
        decreases bytes.len() - pos,
    {
        let b = bytes[pos];
        if in_quote {
            if b == 0x22 {
                if pos + 1 < bytes.len() && bytes[pos + 1] == 0x22 {
                    pos += 2;
                    continue;
                }
                in_quote = false;
            }
        } else if b == 0x22 {
            in_quote = true;
        } else if b == 0x0A {
            return pos + 1;
        }
        pos += 1;
    }
    bytes.len()
}

/// Whether a blank line comes behind the first of the records that were read from
/// a text.
pub fn csv_header_implied(text: &str, records: &Vec<Option<CsvRecord>>) -> (r: bool)
    ensures
        r == csv_implies_header(encode_utf8(text@), records.deep_view()),
{
    let bytes = text.as_bytes();
    let ghost rv = records.deep_view();
    assert(rv.len() == records@.len());
    if records.len() == 0 {
        return false;
    }
    assert(rv[0] == records@[0].deep_view());
    match &records[0] {
        None => false,
        Some(first) => {
            let pos = find_record_end(bytes, start_of(first.start));
            let mut q: usize = pos;
            while q < bytes.len() && bytes[q] == 0x0D
                invariant
                    pos <= q <= bytes@.len(),
                    past_returns(bytes@, pos as int) == past_returns(bytes@, q as int),
                decreases bytes.len() - q,
            {
                q += 1;
            }
            if q < bytes.len() {
                bytes[q] == 0x0A
            } else {
                pos < bytes.len()
            }
        },
    }
}

/// Read the rows of a text in comma-separated form that begins at `base_offset`.
pub fn parse_csv_rows(
    text: &str,
    separator: &Separator<'_>,
    has_header: &mut bool,
    base_offset: usize,
) -> (r: Vec<Vec<ParsedCell>>)
    requires
        separator.wf(),
    ensures
        r.deep_view() == csv_rows(text@, separator.raw@, base_offset as int),
        *final(has_header) == (*old(has_header) || csv_implies_header(
            encode_utf8(text@),
            csv_records(text@, csv_separator(separator.raw@)),
        )),
{
    let sep_byte: u8 = match separator.single_byte() {
        Some(b) => b,
        None => 0x2C,
    };
    let records = read_csv_records(text, sep_byte);
    if csv_header_implied(text, &records) {
        *has_header = true;
    }
    parse_csv_table(text, &records, base_offset, sep_byte)
}

} // verus!
