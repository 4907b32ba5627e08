//! The markdown table parser: a single-pass, line-oriented state machine that
//! finds the first pipe-delimited table in a document and yields its data rows
//! as records, keyed by a configured key column.

use vstd::prelude::*;

use crate::text::{split_at_char, split_char, trim, trim_spec};

verus! {

/// One synchronized unit of data: a key plus the field/value pairs derived
/// from one table data row. The key column's own name/value pair is kept
/// among the fields.
#[derive(Debug)]
pub struct Record {
    pub key: String,
    pub fields: Vec<(String, String)>,
}

/// The mathematical value of a [`Record`].
pub struct RecordV {
    pub key: Seq<char>,
    pub fields: Seq<(Seq<char>, Seq<char>)>,
}

/// A fatal parse failure; no record sequence is produced.
#[derive(Clone, Copy, Debug, PartialEq, Eq, Structural)]
pub enum ParseError {
    /// No header cell equals the configured key column name.
    KeyColumnNotFound,
    /// A data row has no cell at the key column's position.
    KeyCellMissing,
}

/// The views of a sequence of strings.
pub open spec fn str_views(lines: Seq<String>) -> Seq<Seq<char>> {
    lines.map_values(|l: String| l@)
}

/// The views of a sequence of field/value pairs.
pub open spec fn field_views(fs: Seq<(String, String)>) -> Seq<(Seq<char>, Seq<char>)> {
    fs.map_values(|p: (String, String)| (p.0@, p.1@))
}

impl View for Record {
    type V = RecordV;

    open spec fn view(&self) -> RecordV {
        RecordV { key: self.key@, fields: field_views(self.fields@) }
    }
}

/// The views of a sequence of records.
pub open spec fn rec_views(recs: Seq<Record>) -> Seq<RecordV> {
    recs.map_values(|r: Record| r@)
}

/// Whether a line, once trimmed, starts a table: its first character is `|`.
pub open spec fn starts_table(line: Seq<char>) -> bool {
    trim_spec(line).len() > 0 && trim_spec(line)[0] == '|'
}

/// One leading and one trailing `|` removed, if present.
pub open spec fn strip_pipes(s: Seq<char>) -> Seq<char> {
    let a = if s.len() > 0 && s[0] == '|' {
        s.drop_first()
    } else {
        s
    };
    if a.len() > 0 && a.last() == '|' {
        a.drop_last()
    } else {
        a
    }
}

/// The cells of a table line: trim the line, strip one outer `|` pair, split
/// the rest on `|`, and trim each resulting cell.
pub open spec fn cells_spec(line: Seq<char>) -> Seq<Seq<char>> {
    split_at_char(strip_pipes(trim_spec(line)), '|').map_values(|c: Seq<char>| trim_spec(c))
}

/// A character allowed in a header/body separator cell.
pub open spec fn is_marker_char(c: char) -> bool {
    c == '-' || c == ':'
}

/// Whether a cell is built only from `-` and `:` characters (possibly empty).
pub open spec fn all_marker(cell: Seq<char>) -> bool {
    forall|k: int| 0 <= k < cell.len() ==> is_marker_char(cell[k])
}

/// Whether a row's cells form the header/body separator row.
pub open spec fn is_separator_cells(cells: Seq<Seq<char>>) -> bool {
    forall|i: int| 0 <= i < cells.len() ==> all_marker(#[trigger] cells[i])
}

/// The position of the first cell equal to the key column name, if any.
pub open spec fn key_index(cells: Seq<Seq<char>>, key: Seq<char>) -> Option<int>
    decreases cells.len(),
{
    if cells.len() == 0 {
        None
    } else if cells[0] == key {
        Some(0int)
    } else {
        match key_index(cells.drop_first(), key) {
            Some(i) => Some(i + 1),
            None => None,
        }
    }
}

/// The field/value pairs of a data row: the header cells zipped against the
/// row's cells; a row shorter than the header yields fewer pairs.
pub open spec fn row_fields(headers: Seq<Seq<char>>, cells: Seq<Seq<char>>) -> Seq<
    (Seq<char>, Seq<char>),
> {
    Seq::new(
        vstd::math::min(headers.len() as int, cells.len() as int) as nat,
        |i: int| (headers[i], cells[i]),
    )
}

/// The records of the data rows that follow the header, given the header
/// cells and the key column's position. A separator row is discarded; a line
/// that does not start a table ends the table; a data row without a cell at
/// the key position is a fatal failure.
pub open spec fn parse_rows(lines: Seq<Seq<char>>, headers: Seq<Seq<char>>, ki: int) -> Result<
    Seq<RecordV>,
    ParseError,
>
    decreases lines.len(),
{
    if lines.len() == 0 {
        Ok(Seq::<RecordV>::empty())
    } else if !starts_table(lines[0]) {
        Ok(Seq::<RecordV>::empty())
    } else {
        let cs = cells_spec(lines[0]);
        if is_separator_cells(cs) {
            parse_rows(lines.drop_first(), headers, ki)
        } else if ki >= cs.len() {
            Err(ParseError::KeyCellMissing)
        } else {
            match parse_rows(lines.drop_first(), headers, ki) {
                Ok(rs) => Ok(
                    seq![RecordV { key: cs[ki], fields: row_fields(headers, cs) }].add(rs),
                ),
                Err(e) => Err(e),
            }
        }
    }
}

/// The records of the first table found in the document: lines before the
/// first table line are ignored; that line is the header, in which the key
/// column is resolved; the lines after it are parsed by [`parse_rows`]. A
/// document with no table line yields no records; a header without the key
/// column is a fatal failure.
pub open spec fn parse_doc(lines: Seq<Seq<char>>, key: Seq<char>) -> Result<
    Seq<RecordV>,
    ParseError,
>
    decreases lines.len(),
{
    if lines.len() == 0 {
        Ok(Seq::<RecordV>::empty())
    } else if starts_table(lines[0]) {
        match key_index(cells_spec(lines[0]), key) {
            Some(ki) => parse_rows(lines.drop_first(), cells_spec(lines[0]), ki),
            None => Err(ParseError::KeyColumnNotFound),
        }
    } else {
        parse_doc(lines.drop_first(), key)
    }
}

/// The key column is resolved by first match among the header cells.
pub proof fn lemma_key_index_at(cells: Seq<Seq<char>>, key: Seq<char>, p: int)
    requires
        0 <= p < cells.len(),
        cells[p] == key,
        forall|k: int| 0 <= k < p ==> cells[k] != key,
    ensures
        key_index(cells, key) == Some(p),
    decreases p,
{
    if p > 0 {
        lemma_key_index_at(cells.drop_first(), key, p - 1);
    }
}

pub proof fn lemma_key_index_none(cells: Seq<Seq<char>>, key: Seq<char>)
    requires
        forall|k: int| 0 <= k < cells.len() ==> cells[k] != key,
    ensures
        key_index(cells, key) is None,
    decreases cells.len(),
{
    if cells.len() > 0 {
        lemma_key_index_none(cells.drop_first(), key);
    }
}

/// Lines that do not start a table are ignored while the parser seeks one.
pub proof fn lemma_parse_doc_seek(lines: Seq<Seq<char>>, key: Seq<char>, i: int)
    requires
        0 <= i <= lines.len(),
        forall|k: int| 0 <= k < i ==> !starts_table(#[trigger] lines[k]),
    ensures
        parse_doc(lines, key) == parse_doc(lines.skip(i), key),
    decreases i,
{
    if i == 0 {
        assert(lines.skip(0) =~= lines);
    } else {
        lemma_parse_doc_seek(lines.drop_first(), key, i - 1);
        assert(lines.drop_first().skip(i - 1) =~= lines.skip(i));
    }
}

/// A document in which no line starts a table parses to no records at all.
pub proof fn lemma_no_table_yields_empty(lines: Seq<Seq<char>>, key: Seq<char>)
    requires
        forall|k: int| 0 <= k < lines.len() ==> !starts_table(#[trigger] lines[k]),
    ensures
        parse_doc(lines, key) == Ok::<Seq<RecordV>, ParseError>(Seq::<RecordV>::empty()),
{
    lemma_parse_doc_seek(lines, key, lines.len() as int);
}

/// When the key column name occurs exactly once among the header cells, the
/// resolved key column index is that occurrence's position.
pub proof fn lemma_key_index_unique(cells: Seq<Seq<char>>, key: Seq<char>, p: int)
    requires
        0 <= p < cells.len(),
        cells[p] == key,
        forall|k: int| 0 <= k < cells.len() && k != p ==> cells[k] != key,
    ensures
        key_index(cells, key) == Some(p),
{
    lemma_key_index_at(cells, key, p);
}

/// If no cell of the first table line equals the key column name, parsing
/// fails with `KeyColumnNotFound` before any record is produced.
pub proof fn lemma_missing_key_column(lines: Seq<Seq<char>>, key: Seq<char>, hi: int)
    requires
        0 <= hi < lines.len(),
        forall|k: int| 0 <= k < hi ==> !starts_table(#[trigger] lines[k]),
        starts_table(lines[hi]),
        forall|k: int|
            0 <= k < cells_spec(lines[hi]).len() ==> #[trigger] cells_spec(lines[hi])[k] != key,
    ensures
        parse_doc(lines, key) == Err::<Seq<RecordV>, ParseError>(ParseError::KeyColumnNotFound),
{
    lemma_parse_doc_seek(lines, key, hi);
    assert(lines.skip(hi)[0] == lines[hi]);
    lemma_key_index_none(cells_spec(lines[hi]), key);
}

/// A separator row directly after the header is discarded and never yields a
/// record: the document parses exactly as if that row were removed.
pub proof fn lemma_separator_row_discarded(lines: Seq<Seq<char>>, key: Seq<char>)
    requires
        lines.len() >= 2,
        starts_table(lines[0]),
        key_index(cells_spec(lines[0]), key) is Some,
        starts_table(lines[1]),
        is_separator_cells(cells_spec(lines[1])),
    ensures
        parse_doc(lines, key) == parse_doc(lines.remove(1), key),
{
    let h = cells_spec(lines[0]);
    let ki = key_index(h, key).unwrap();
    assert(lines.drop_first()[0] == lines[1]);
    assert(parse_rows(lines.drop_first(), h, ki) == parse_rows(
        lines.drop_first().drop_first(),
        h,
        ki,
    ));
    let removed = lines.remove(1);
    assert(removed[0] == lines[0]);
    assert(removed.drop_first() =~= lines.drop_first().drop_first());
}

/// Splits a table line into its trimmed cells, as [`cells_spec`] describes.
fn line_cells(line: &str) -> (r: Vec<String>)
    ensures
        str_views(r@) == cells_spec(line@),
{
    let t = trim(line);
    let tn = t.as_str().unicode_len();
    let start: usize = if tn > 0 && t.as_str().get_char(0) == '|' {
        1
    } else {
        0
    };
    let end: usize = if tn > start && t.as_str().get_char(tn - 1) == '|' {
        tn - 1
    } else {
        tn
    };
    let inner = t.as_str().substring_char(start, end);
    proof {
        let s = trim_spec(line@);
        let a = if s.len() > 0 && s[0] == '|' {
            s.drop_first()
        } else {
            s
        };
        assert(a =~= s.subrange(start as int, tn as int));
        let b = if a.len() > 0 && a.last() == '|' {
            a.drop_last()
        } else {
            a
        };
        assert(b =~= s.subrange(start as int, end as int));
        assert(inner@ == strip_pipes(trim_spec(line@)));
    }
    let pieces = split_char(inner, '|');
    let mut r: Vec<String> = Vec::new();
    let mut j: usize = 0;
    while j < pieces.len()
        invariant
            0 <= j <= pieces.len(),
            str_views(pieces@) == split_at_char(strip_pipes(trim_spec(line@)), '|'),
            r@.len() == j,
            forall|k: int| 0 <= k < j ==> #[trigger] r@[k]@ == trim_spec(pieces@[k]@),
        decreases pieces.len() - j,
    {
        let cell = trim(pieces[j].as_str());
        r.push(cell);
        j = j + 1;
    }
    proof {
        assert(str_views(r@) =~= cells_spec(line@));
    }
    r
}

/// Whether the given cells form the header/body separator row.
fn is_separator_row(cells: &Vec<String>) -> (b: bool)
    ensures
        b == is_separator_cells(str_views(cells@)),
{
    let ghost cviews = str_views(cells@);
    let mut i: usize = 0;
    while i < cells.len()
        invariant
            0 <= i <= cells.len(),
            forall|k: int| 0 <= k < i ==> all_marker(#[trigger] cviews[k]),
        decreases cells.len() - i,
    {
        let c = &cells[i];
        let m = c.as_str().unicode_len();
        let mut k: usize = 0;
        while k < m
            invariant
                0 <= k <= m,
                m == c@.len(),
                forall|q: int| 0 <= q < k ==> is_marker_char(#[trigger] c@[q]),
            decreases m - k,
        {
            let ch = c.as_str().get_char(k);
            if !(ch == '-' || ch == ':') {
                proof {
                    assert(cviews[i as int] == c@);
                    assert(!all_marker(cviews[i as int]));
                }
                return false;
            }
            k = k + 1;
        }
        proof {
            assert(cviews[i as int] == c@);
            assert(all_marker(cviews[i as int]));
        }
        i = i + 1;
    }
    true
}

/// The position of the first cell equal to the key column name, if any.
fn find_key_index(cells: &Vec<String>, key: &String) -> (r: Option<usize>)
    ensures
        match r {
            Some(i) => key_index(str_views(cells@), key@) == Some(i as int),
            None => key_index(str_views(cells@), key@) is None,
        },
{
    let ghost cviews = str_views(cells@);
    let mut j: usize = 0;
    while j < cells.len()
        invariant
            0 <= j <= cells.len(),
            forall|k: int| 0 <= k < j ==> #[trigger] cviews[k] != key@,
        decreases cells.len() - j,
    {
        if cells[j].eq(key) {
            proof {
                lemma_key_index_at(cviews, key@, j as int);
            }
            return Some(j);
        }
        j = j + 1;
    }
    proof {
        lemma_key_index_none(cviews, key@);
    }
    None
}

/// The index of the first line that starts a table, if any.
fn find_header(lines: &Vec<String>) -> (r: Option<usize>)
    ensures
        match r {
            Some(i) => i < lines@.len() && starts_table(lines@[i as int]@) && (forall|k: int|
                0 <= k < i ==> !starts_table(#[trigger] lines@[k]@)),
            None => forall|k: int| 0 <= k < lines@.len() ==> !starts_table(#[trigger] lines@[k]@),
        },
{
    let mut i: usize = 0;
    while i < lines.len()
        invariant
            0 <= i <= lines.len(),
            forall|k: int| 0 <= k < i ==> !starts_table(#[trigger] lines@[k]@),
        decreases lines.len() - i,
    {
        let t = trim(lines[i].as_str());
        if t.as_str().unicode_len() > 0 && t.as_str().get_char(0) == '|' {
            return Some(i);
        }
        i = i + 1;
    }
    None
}

/// Builds the record of one data row: the key is the cell at the key column's
/// position, the fields are the header cells zipped against the row's cells.
fn make_record(headers: &Vec<String>, cells: &Vec<String>, ki: usize) -> (r: Record)
    requires
        ki < cells@.len(),
    ensures
        r@ == (RecordV {
            key: cells@[ki as int]@,
            fields: row_fields(str_views(headers@), str_views(cells@)),
        }),
{
    let ghost hviews = str_views(headers@);
    let ghost cviews = str_views(cells@);
    let key_s = cells[ki].clone();
    let hn = headers.len();
    let cn = cells.len();
    let m: usize = if hn <= cn {
        hn
    } else {
        cn
    };
    let mut fields: Vec<(String, String)> = Vec::new();
    let mut j: usize = 0;
    while j < m
        invariant
            0 <= j <= m,
            m == vstd::math::min(hviews.len() as int, cviews.len() as int),
            fields@.len() == j,
            forall|k: int|
                0 <= k < j ==> (#[trigger] fields@[k]).0@ == hviews[k] && fields@[k].1@
                    == cviews[k],
        decreases m - j,
    {
        fields.push((headers[j].clone(), cells[j].clone()));
        j = j + 1;
    }
    let r = Record { key: key_s, fields };
    proof {
        assert(r@.fields =~= row_fields(hviews, cviews));
    }
    r
}

/// Parses the first table of the document into its records, in document line
/// order, resolving the key column in the header by first match. The result
/// is exactly what [`parse_doc`] states: `Ok` with the record sequence, or
/// the fatal error on which the run must abort.
pub fn parse_table(lines: &Vec<String>, key: &String) -> (r: Result<Vec<Record>, ParseError>)
    ensures
        ({
            let m = parse_doc(str_views(lines@), key@);
            match r {
                Ok(recs) => m == Ok::<Seq<RecordV>, ParseError>(rec_views(recs@)),
                Err(e) => m == Err::<Seq<RecordV>, ParseError>(e),
            }
        }),
{
    let ghost lviews = str_views(lines@);
    let n = lines.len();
    let hi = match find_header(lines) {
        None => {
            proof {
                lemma_no_table_yields_empty(lviews, key@);
                assert(rec_views(Seq::<Record>::empty()) =~= Seq::<RecordV>::empty());
            }
            let empty: Vec<Record> = Vec::new();
            return Ok(empty);
        },
        Some(hi) => hi,
    };
    proof {
        lemma_parse_doc_seek(lviews, key@, hi as int);
        assert(lviews.skip(hi as int)[0] == lviews[hi as int]);
    }
    let header_cells = line_cells(lines[hi].as_str());
    let ghost hviews = str_views(header_cells@);
    let ki = match find_key_index(&header_cells, key) {
        None => {
            return Err(ParseError::KeyColumnNotFound);
        },
        Some(ki) => ki,
    };
    proof {
        assert(lviews.skip(hi as int).drop_first() =~= lviews.skip(hi as int + 1));
    }
    let mut recs: Vec<Record> = Vec::new();
    let mut i: usize = hi + 1;
    while i < n
        invariant
            hi < i <= n,
            n == lviews.len(),
            lviews == str_views(lines@),
            hviews == str_views(header_cells@),
            ({
                let tail = parse_rows(lviews.skip(i as int), hviews, ki as int);
                let whole = parse_doc(lviews, key@);
                match tail {
                    Ok(rs) => whole == Ok::<Seq<RecordV>, ParseError>(rec_views(recs@).add(rs)),
                    Err(e) => whole == Err::<Seq<RecordV>, ParseError>(e),
                }
            }),
        decreases n - i,
    {
        let t = trim(lines[i].as_str());
        if t.as_str().unicode_len() == 0 || t.as_str().get_char(0) != '|' {
            proof {
                assert(!starts_table(lviews.skip(i as int)[0]));
                assert(rec_views(recs@).add(Seq::<RecordV>::empty()) =~= rec_views(recs@));
            }
            return Ok(recs);
        }
        proof {
            assert(starts_table(lviews.skip(i as int)[0]));
        }
        let cells = line_cells(lines[i].as_str());
        let ghost cviews = str_views(cells@);
        proof {
            assert(cviews == cells_spec(lviews.skip(i as int)[0]));
            assert(lviews.skip(i as int).drop_first() =~= lviews.skip(i as int + 1));
        }
        if is_separator_row(&cells) {
            // the header/body separator row: consumed and discarded
        } else if ki >= cells.len() {
            return Err(ParseError::KeyCellMissing);
        } else {
            let rec = make_record(&header_cells, &cells, ki);
            proof {
                let recv = RecordV { key: cviews[ki as int], fields: row_fields(hviews, cviews) };
                assert(rec_views(recs@.push(rec)) =~= rec_views(recs@).push(recv));
                if parse_rows(lviews.skip(i as int + 1), hviews, ki as int) is Ok {
                    let rs = parse_rows(lviews.skip(i as int + 1), hviews, ki as int).unwrap();
                    assert(rec_views(recs@).add(seq![recv].add(rs)) =~= rec_views(
                        recs@.push(rec),
                    ).add(rs));
                }
            }
            recs.push(rec);
        }
        i = i + 1;
    }
    proof {
        assert(lviews.skip(n as int).len() == 0);
        assert(rec_views(recs@).add(Seq::<RecordV>::empty()) =~= rec_views(recs@));
    }
    Ok(recs)
}

} // verus!
