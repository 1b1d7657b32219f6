//! The bridge with the spreadsheet: reading and writing CSV.
//!
//! Written by hand: the format is fixed, so the library carries no parser
//! along with it.
use vstd::prelude::*;
use crate::text::{
    all_ascii, append_str, chars_of, decimal, decimal_string, is_blank, lemma_filter_all, lower_seq,
    lowercase, push_char, str_lowercase, string_of_all, trim, trim_str, lemma_trim_noop,
    lemma_trim_shape, lemma_trim_idempotent,
};
use crate::model::{
    by_id, by_name, category_of_cell, character_by_name, character_name, characters,
    entries_view, label_of, lookup, normalize_spec, normalize_url, roster_len, roster_row,
    with_entry, Category, Entry, EntryView, TechData, TechView, total_entries,
    lemma_total_with_entry, lemma_lookup_with_entry, strings_view, key_pos, lemma_key_pos,
    has_web_scheme, entry_copy, lemma_roster_names, lemma_find_name_at, lemma_find_name_none, lemma_find_id,
    find_id, lemma_label_names_category, lemma_roster_distinct, keys_distinct, lemma_key_pos_push,
};

verus! {

// ---------------------------------------------------------------------------
// Views
// ---------------------------------------------------------------------------

/// A row by the characters of its fields.
pub open spec fn row_view(r: Seq<String>) -> Seq<Seq<char>> {
    r.map_values(|f: String| f@)
}

/// A table by the characters of its fields.
pub open spec fn table_view(t: Seq<Vec<String>>) -> Seq<Seq<Seq<char>>> {
    t.map_values(|r: Vec<String>| row_view(r@))
}

// ---------------------------------------------------------------------------
// Reading
// ---------------------------------------------------------------------------

/// Where the reader stands: the rows already closed, the row and field being
/// read, whether it is inside quotes, and whether the field has not started.
pub struct ScanState {
    pub rows: Seq<Seq<Seq<char>>>,
    pub row: Seq<Seq<char>>,
    pub field: Seq<char>,
    pub quoted: bool,
    pub at_start: bool,
}

pub open spec fn scan_start() -> ScanState {
    ScanState { rows: seq![], row: seq![], field: seq![], quoted: false, at_start: true }
}

/// The reader after the characters from position `i` on.
///
/// Inside quotes a doubled quote is one quote and a single one closes them.
/// Outside, a quote opens them only at the start of a field (in the middle it
/// is text, as Excel does), a comma closes the field, a line feed closes the
/// row and a carriage return is dropped.
pub open spec fn csv_scan(s: Seq<char>, i: int, st: ScanState) -> ScanState
    decreases s.len() - i,
{
    if i < 0 || i >= s.len() {
        st
    } else {
        let c = s[i];
        if st.quoted {
            if c == '"' {
                if i + 1 < s.len() && s[i + 1] == '"' {
                    csv_scan(s, i + 2, ScanState { field: st.field.push('"'), ..st })
                } else {
                    csv_scan(s, i + 1, ScanState { quoted: false, ..st })
                }
            } else {
                csv_scan(s, i + 1, ScanState { field: st.field.push(c), ..st })
            }
        } else if c == '"' && st.at_start {
            csv_scan(s, i + 1, ScanState { quoted: true, at_start: false, ..st })
        } else if c == ',' {
            csv_scan(
                s,
                i + 1,
                ScanState { row: st.row.push(st.field), field: seq![], at_start: true, ..st },
            )
        } else if c == '\n' {
            csv_scan(
                s,
                i + 1,
                ScanState {
                    rows: st.rows.push(st.row.push(st.field)),
                    row: seq![],
                    field: seq![],
                    at_start: true,
                    ..st
                },
            )
        } else if c == '\r' {
            csv_scan(s, i + 1, st)
        } else {
            csv_scan(s, i + 1, ScanState { field: st.field.push(c), at_start: false, ..st })
        }
    }
}

/// The rows once the text is over: the last row counts if anything was read
/// into it.
pub open spec fn scan_finish(st: ScanState) -> Seq<Seq<Seq<char>>> {
    if st.field.len() > 0 || st.row.len() > 0 {
        st.rows.push(st.row.push(st.field))
    } else {
        st.rows
    }
}

/// A row with at least one field that is not blank.
pub open spec fn row_has_content(r: Seq<Seq<char>>) -> bool {
    exists|k: int| 0 <= k < r.len() && !is_blank(#[trigger] r[k])
}

/// The rows of a CSV text; blank lines (those whose fields are all blank) do
/// not count as rows.
pub open spec fn parse_csv_spec(s: Seq<char>) -> Seq<Seq<Seq<char>>> {
    scan_finish(csv_scan(s, 0, scan_start())).filter(|r: Seq<Seq<char>>| row_has_content(r))
}

pub open spec fn state_of(
    rows: Seq<Vec<String>>,
    row: Seq<String>,
    field: Seq<char>,
    quoted: bool,
    at_start: bool,
) -> ScanState {
    ScanState {
        rows: table_view(rows),
        row: row_view(row),
        field,
        quoted,
        at_start,
    }
}

/// Whether some field of the row is not blank.
fn has_content(r: &Vec<String>) -> (b: bool)
    ensures
        b == row_has_content(row_view(r@)),
{
    let mut k: usize = 0;
    while k < r.len()
        invariant
            0 <= k <= r.len(),
            forall|j: int| 0 <= j < k ==> is_blank(#[trigger] row_view(r@)[j]),
        decreases r.len() - k,
    {
        let t = trim_str(r[k].as_str());
        let tv = chars_of(t.as_str());
        if tv.len() > 0 {
            assert(!is_blank(row_view(r@)[k as int]));
            return true;
        }
        k = k + 1;
    }
    false
}

/// CSV reader with quotes: commas and line breaks inside a field, and quotes
/// escaped as "".
pub fn parse_csv(text: &str) -> (rows: Vec<Vec<String>>)
    ensures
        table_view(rows@) == parse_csv_spec(text@),
{
    let s = chars_of(text);
    let n = s.len();
    let mut rows: Vec<Vec<String>> = Vec::new();
    let mut row: Vec<String> = Vec::new();
    let mut field: Vec<char> = Vec::new();
    let mut in_quotes = false;
    // A quote opens a quoted stretch only at the start of the field. In the
    // middle it is literal text, which is how Excel behaves.
    let mut at_field_start = true;
    let mut i: usize = 0;
    assert(table_view(rows@) =~= seq![]);
    assert(row_view(row@) =~= seq![]);
    assert(state_of(rows@, row@, field@, in_quotes, at_field_start) == scan_start());
    while i < n
        invariant
            n == s.len(),
            s@ == text@,
            0 <= i <= n,
            csv_scan(s@, i as int, state_of(rows@, row@, field@, in_quotes, at_field_start))
                == csv_scan(s@, 0, scan_start()),
        decreases n - i,
    {
        let c = s[i];
        let ghost st = state_of(rows@, row@, field@, in_quotes, at_field_start);
        if in_quotes {
            if c == '"' {
                if i + 1 < n && s[i + 1] == '"' {
                    field.push('"');
                    i = i + 2;
                } else {
                    in_quotes = false;
                    i = i + 1;
                }
            } else {
                field.push(c);
                i = i + 1;
            }
        } else if c == '"' && at_field_start {
            in_quotes = true;
            at_field_start = false;
            i = i + 1;
        } else if c == ',' {
            let f = string_of_all(&field);
            let ghost rb = row@;
            row.push(f);
            assert(row_view(row@) =~= row_view(rb).push(field@));
            field = Vec::new();
            at_field_start = true;
            i = i + 1;
        } else if c == '\n' {
            let f = string_of_all(&field);
            let ghost rb = row@;
            row.push(f);
            assert(row_view(row@) =~= row_view(rb).push(field@));
            let ghost tb = rows@;
            let ghost rv = row@;
            rows.push(row);
            assert(table_view(rows@) =~= table_view(tb).push(row_view(rv)));
            row = Vec::new();
            field = Vec::new();
            at_field_start = true;
            i = i + 1;
            assert(row_view(row@) =~= seq![]);
        } else if c == '\r' {
            i = i + 1;
        } else {
            field.push(c);
            at_field_start = false;
            i = i + 1;
        }
        assert(csv_scan(s@, i as int, state_of(rows@, row@, field@, in_quotes, at_field_start))
            == csv_scan(s@, 0, scan_start()));
    }
    let ghost fin = csv_scan(s@, 0, scan_start());
    assert(fin == state_of(rows@, row@, field@, in_quotes, at_field_start));
    if field.len() > 0 || row.len() > 0 {
        let f = string_of_all(&field);
        let ghost rb = row@;
        row.push(f);
        assert(row_view(row@) =~= row_view(rb).push(field@));
        let ghost tb = rows@;
        let ghost rv = row@;
        rows.push(row);
        assert(table_view(rows@) =~= table_view(tb).push(row_view(rv)));
    }
    assert(table_view(rows@) == scan_finish(fin));
    // Blank lines at the end of the sheet do not count as rows.
    let mut kept: Vec<Vec<String>> = Vec::new();
    let mut k: usize = 0;
    let ghost all = table_view(rows@);
    while k < rows.len()
        invariant
            0 <= k <= rows.len(),
            all == table_view(rows@),
            table_view(kept@) == all.subrange(0, k as int).filter(
                |r: Seq<Seq<char>>| row_has_content(r),
            ),
        decreases rows.len() - k,
    {
        let ghost kb = table_view(kept@);
        assert(all.subrange(0, k + 1).drop_last() =~= all.subrange(0, k as int));
        reveal_with_fuel(Seq::filter, 1);
        assert(all[k as int] == row_view(rows@[k as int]@));
        if has_content(&rows[k]) {
            let r = rows[k].clone();
            assert(row_view(r@) == row_view(rows@[k as int]@));
            kept.push(r);
            assert(table_view(kept@) =~= kb.push(all[k as int]));
        }
        k = k + 1;
    }
    assert(all.subrange(0, rows.len() as int) =~= all);
    kept
}

// ---------------------------------------------------------------------------
// Writing
// ---------------------------------------------------------------------------

/// A field that has to go between quotes.
pub open spec fn needs_quotes(v: Seq<char>) -> bool {
    exists|k: int|
        0 <= k < v.len() && (#[trigger] v[k] == '"' || v[k] == ',' || v[k] == '\n' || v[k] == '\r')
}

/// The field with each quote doubled.
pub open spec fn double_quotes(v: Seq<char>) -> Seq<char>
    decreases v.len(),
{
    if v.len() == 0 {
        seq![]
    } else {
        double_quotes(v.drop_last()) + (if v.last() == '"' {
            seq!['"', '"']
        } else {
            seq![v.last()]
        })
    }
}

/// A field as it is written.
pub open spec fn escape(v: Seq<char>) -> Seq<char> {
    if needs_quotes(v) {
        seq!['"'] + double_quotes(v) + seq!['"']
    } else {
        v
    }
}

/// A row as it is written: its fields, escaped, joined by commas.
pub open spec fn join_fields(r: Seq<Seq<char>>) -> Seq<char>
    decreases r.len(),
{
    if r.len() == 0 {
        seq![]
    } else if r.len() == 1 {
        escape(r[0])
    } else {
        join_fields(r.drop_last()) + seq![','] + escape(r.last())
    }
}

/// A table as it is written: its rows joined by CR LF.
pub open spec fn to_csv_spec(t: Seq<Seq<Seq<char>>>) -> Seq<char>
    decreases t.len(),
{
    if t.len() == 0 {
        seq![]
    } else if t.len() == 1 {
        join_fields(t[0])
    } else {
        to_csv_spec(t.drop_last()) + seq!['\r', '\n'] + join_fields(t.last())
    }
}

fn escape_field(value: &String) -> (r: String)
    ensures
        r@ == escape(value@),
{
    let v = chars_of(value.as_str());
    let mut quote = false;
    let mut k: usize = 0;
    while k < v.len()
        invariant
            v@ == value@,
            0 <= k <= v.len(),
            quote == exists|j: int|
                0 <= j < k && (#[trigger] v@[j] == '"' || v@[j] == ',' || v@[j] == '\n' || v@[j]
                    == '\r'),
        decreases v.len() - k,
    {
        let c = v[k];
        if c == '"' || c == ',' || c == '\n' || c == '\r' {
            quote = true;
        }
        k = k + 1;
    }
    if !quote {
        return string_of_all(&v);
    }
    let mut r = String::new();
    push_char(&mut r, '"');
    let mut i: usize = 0;
    while i < v.len()
        invariant
            v@ == value@,
            0 <= i <= v.len(),
            r@ == seq!['"'] + double_quotes(v@.subrange(0, i as int)),
        decreases v.len() - i,
    {
        let c = v[i];
        assert(v@.subrange(0, i + 1).drop_last() =~= v@.subrange(0, i as int));
        if c == '"' {
            push_char(&mut r, '"');
            push_char(&mut r, '"');
        } else {
            push_char(&mut r, c);
        }
        i = i + 1;
        assert(r@ =~= seq!['"'] + double_quotes(v@.subrange(0, i as int)));
    }
    assert(v@.subrange(0, v.len() as int) =~= v@);
    push_char(&mut r, '"');
    r
}

/// The text of a table, rows joined by CR LF and fields by commas.
pub fn to_csv(rows: &[Vec<String>]) -> (r: String)
    ensures
        r@ == to_csv_spec(table_view(rows@)),
{
    let ghost t = table_view(rows@);
    let mut out = String::new();
    let mut i: usize = 0;
    while i < rows.len()
        invariant
            0 <= i <= rows.len(),
            t == table_view(rows@),
            out@ == to_csv_spec(t.subrange(0, i as int)),
        decreases rows.len() - i,
    {
        let row = &rows[i];
        let ghost rv = row_view(row@);
        assert(t.subrange(0, i + 1).drop_last() =~= t.subrange(0, i as int));
        assert(t.subrange(0, i + 1).last() == rv);
        if i > 0 {
            push_char(&mut out, '\r');
            push_char(&mut out, '\n');
        }
        let ghost head = out@;
        let mut j: usize = 0;
        while j < row.len()
            invariant
                0 <= i < rows.len(),
                row == &rows@[i as int],
                rv == row_view(row@),
                0 <= j <= row.len(),
                out@ == head + join_fields(rv.subrange(0, j as int)),
            decreases row.len() - j,
        {
            if j > 0 {
                push_char(&mut out, ',');
            }
            let e = escape_field(&row[j]);
            append_string(&mut out, &e);
            assert(rv.subrange(0, j + 1).drop_last() =~= rv.subrange(0, j as int));
            j = j + 1;
            assert(out@ =~= head + join_fields(rv.subrange(0, j as int)));
        }
        assert(rv.subrange(0, row.len() as int) =~= rv);
        i = i + 1;
        assert(out@ =~= to_csv_spec(t.subrange(0, i as int)));
    }
    assert(t.subrange(0, rows.len() as int) =~= t);
    out
}

fn append_string(out: &mut String, e: &String)
    ensures
        final(out)@ == old(out)@ + e@,
{
    crate::text::append_str(out, e.as_str());
}

// ---------------------------------------------------------------------------
// The sheet's columns
// ---------------------------------------------------------------------------

/// The columns the app understands, in the order it writes them.
pub open spec fn header_names() -> Seq<Seq<char>> {
    seq![
        "Personaje"@,
        "Categoria"@,
        "Titulo"@,
        "Notacion"@,
        "Rival"@,
        "Nota"@,
        "EnlaceX"@,
    ]
}

/// The columns the app understands, in the order it writes them.
pub fn headers() -> (r: Vec<String>)
    ensures
        row_view(r@) == header_names(),
{
    let mut r: Vec<String> = Vec::new();
    r.push("Personaje".to_string());
    r.push("Categoria".to_string());
    r.push("Titulo".to_string());
    r.push("Notacion".to_string());
    r.push("Rival".to_string());
    r.push("Nota".to_string());
    r.push("EnlaceX".to_string());
    assert(row_view(r@) =~= header_names());
    r
}

/// The example row that goes with the downloadable template.
pub open spec fn template_example() -> Seq<Seq<char>> {
    seq![
        "Magneto"@,
        "BnB"@,
        "Combo básico tras anti-air"@,
        "L, L, M, H, 2H"@,
        ""@,
        "Funciona bien en esquina"@,
        "https://x.com/ejemplo"@,
    ]
}

/// The header and an example row, for the downloadable template.
pub fn template_rows() -> (r: Vec<Vec<String>>)
    ensures
        table_view(r@) == seq![header_names(), template_example()],
{
    let mut example: Vec<String> = Vec::new();
    example.push("Magneto".to_string());
    example.push("BnB".to_string());
    example.push("Combo básico tras anti-air".to_string());
    example.push("L, L, M, H, 2H".to_string());
    example.push(String::new());
    example.push("Funciona bien en esquina".to_string());
    example.push("https://x.com/ejemplo".to_string());
    proof {
        reveal_strlit("");
    }
    assert(example@.len() == 7);
    assert(example@[4]@ == ""@);
    assert(example@[0]@ == "Magneto"@);
    assert(row_view(example@) =~= template_example());
    let mut r: Vec<Vec<String>> = Vec::new();
    r.push(headers());
    r.push(example);
    assert(table_view(r@) =~= seq![header_names(), template_example()]);
    r
}

// ---------------------------------------------------------------------------
// Export
// ---------------------------------------------------------------------------

/// The rival's name for a sheet cell: its roster name, or "" when there is
/// none.
pub open spec fn rival_name(r: Option<Seq<char>>) -> Seq<char> {
    match r {
        Some(id) => match by_id(id) {
            Some(c) => c.1,
            None => ""@,
        },
        None => ""@,
    }
}

/// The row of one entry of the `k`-th roster character.
pub open spec fn entry_row(k: int, e: EntryView) -> Seq<Seq<char>> {
    seq![
        roster_row(k).1,
        label_of(e.category),
        e.title,
        e.notation,
        rival_name(e.rival_id),
        e.note,
        e.x_link,
    ]
}

/// The rows of the roster characters from the `k`-th on, roster order.
pub open spec fn export_from(d: TechView, k: int) -> Seq<Seq<Seq<char>>>
    decreases roster_len() - k,
{
    if k < 0 || k >= roster_len() {
        seq![]
    } else {
        (match lookup(d, roster_row(k).0) {
            Some(es) => es.map_values(|e: EntryView| entry_row(k, e)),
            None => seq![],
        }) + export_from(d, k + 1)
    }
}

/// The header, then every saved entry, character by character in roster
/// order, each list in the order it was saved.
pub open spec fn export_spec(d: TechView) -> Seq<Seq<Seq<char>>> {
    seq![header_names()] + export_from(d, 0)
}

/// All the saved tech, in rows ready to open in Sheets or Excel.
pub fn export_rows(data: &TechData) -> (rows: Vec<Vec<String>>)
    ensures
        table_view(rows@) == export_spec(data@),
{
    let mut rows: Vec<Vec<String>> = Vec::new();
    rows.push(headers());
    assert(table_view(rows@) =~= seq![header_names()]);
    let roster = characters();
    // The roster is walked in order so that the CSV always comes out the same.
    let mut k: usize = 0;
    while k < 20
        invariant
            k <= 20,
            roster@.len() == roster_len(),
            forall|j: int| 0 <= j < roster_len() ==> #[trigger] roster@[j]@ == roster_row(j),
            seq![header_names()] + export_from(data@, 0) == table_view(rows@) + export_from(
                data@,
                k as int,
            ),
        decreases 20 - k,
    {
        let character = roster[k];
        assert(character@ == roster_row(k as int));
        let ghost before = table_view(rows@);
        match data.get(character.id) {
            None => {
                assert(export_from(data@, k as int) == export_from(data@, k + 1));
            },
            Some(entries) => {
                let ghost es = entries_view(entries@);
                let mut i: usize = 0;
                while i < entries.len()
                    invariant
                        0 <= i <= entries.len(),
                        es == entries_view(entries@),
                        character@ == roster_row(k as int),
                        table_view(rows@) == before + es.subrange(0, i as int).map_values(
                            |e: EntryView| entry_row(k as int, e),
                        ),
                    decreases entries.len() - i,
                {
                    let e = &entries[i];
                    let mut r: Vec<String> = Vec::new();
                    r.push(character.name.to_string());
                    r.push(e.category.label().to_string());
                    r.push(e.title.clone());
                    r.push(e.notation.clone());
                    let rival = match &e.rival_id {
                        Some(id) => character_name(id.as_str()).to_string(),
                        None => String::new(),
                    };
                    r.push(rival);
                    r.push(e.note.clone());
                    r.push(e.x_link.clone());
                    proof {
                        reveal_strlit("");
                    }
                    assert(es[i as int] == e@);
                    assert(r@.len() == 7);
                    assert(r@[0]@ == roster_row(k as int).1);
                    assert(r@[1]@ == label_of(e.category));
                    assert(r@[2]@ == e.title@);
                    assert(r@[3]@ == e.notation@);
                    assert(r@[4]@ == rival_name(e@.rival_id));
                    assert(r@[5]@ == e.note@);
                    assert(r@[6]@ == e.x_link@);
                    assert(row_view(r@) =~= entry_row(k as int, es[i as int]));
                    let ghost tb = table_view(rows@);
                    rows.push(r);
                    assert(table_view(rows@) =~= tb.push(entry_row(k as int, es[i as int])));
                    i = i + 1;
                    assert(es.subrange(0, i as int).map_values(|e: EntryView| entry_row(k as int, e))
                        =~= es.subrange(0, i - 1).map_values(|e: EntryView| entry_row(k as int, e)).push(
                        entry_row(k as int, es[i - 1]),
                    ));
                }
                assert(es.subrange(0, entries.len() as int) =~= es);
                assert(before + es.map_values(|e: EntryView| entry_row(k as int, e)) + export_from(
                    data@,
                    k + 1,
                ) =~= before + (es.map_values(|e: EntryView| entry_row(k as int, e)) + export_from(
                    data@,
                    k + 1,
                )));
            },
        }
        k = k + 1;
    }
    assert(table_view(rows@) + export_from(data@, 20) =~= table_view(rows@));
    rows
}

// ---------------------------------------------------------------------------
// Import
// ---------------------------------------------------------------------------

#[derive(Debug, Default, Clone, PartialEq)]
pub struct ImportResult {
    pub added: usize,
    pub errors: Vec<String>,
}

/// Position of the first header cell that, trimmed and lower-cased, is
/// `name`, from the `k`-th on, or the length.
pub open spec fn col_index(h: Seq<Seq<char>>, name: Seq<char>, k: int) -> int
    decreases h.len() - k,
{
    if k < 0 || k >= h.len() {
        h.len() as int
    } else if str_lowercase(trim(h[k])) == name {
        k
    } else {
        col_index(h, name, k + 1)
    }
}

pub open spec fn column_of(h: Seq<Seq<char>>, name: Seq<char>) -> Option<int> {
    if col_index(h, name, 0) < h.len() {
        Some(col_index(h, name, 0))
    } else {
        None
    }
}

fn column_index(header: &Vec<String>, name: &str) -> (r: Option<usize>)
    ensures
        match r {
            Some(i) => column_of(row_view(header@), name@) == Some(i as int),
            None => column_of(row_view(header@), name@) is None,
        },
{
    let target = name.to_string();
    let ghost h = row_view(header@);
    let mut k: usize = 0;
    while k < header.len()
        invariant
            0 <= k <= header.len(),
            h == row_view(header@),
            target@ == name@,
            col_index(h, name@, 0) == col_index(h, name@, k as int),
        decreases header.len() - k,
    {
        let t = trim_str(header[k].as_str());
        let l = lowercase(t.as_str());
        if l == target {
            return Some(k);
        }
        k = k + 1;
    }
    None
}

/// A cell of the row, trimmed; "" when the column is missing.
pub open spec fn cell_spec(row: Seq<Seq<char>>, idx: Option<int>) -> Seq<char> {
    match idx {
        Some(i) => if 0 <= i < row.len() {
            trim(row[i])
        } else {
            seq![]
        },
        None => seq![],
    }
}

pub open spec fn opt_index(o: Option<usize>) -> Option<int> {
    match o {
        Some(i) => Some(i as int),
        None => None,
    }
}

fn cell(row: &Vec<String>, index: Option<usize>) -> (r: String)
    ensures
        r@ == cell_spec(row_view(row@), opt_index(index)),
{
    match index {
        Some(i) => if i < row.len() {
            trim_str(row[i].as_str())
        } else {
            String::new()
        },
        None => String::new(),
    }
}

/// Where each column is, once the two that are required are there.
pub struct Columns {
    pub personaje: Option<int>,
    pub titulo: Option<int>,
    pub categoria: Option<int>,
    pub notacion: Option<int>,
    pub rival: Option<int>,
    pub nota: Option<int>,
    pub enlace: Option<int>,
}

pub open spec fn columns_of(h: Seq<Seq<char>>) -> Columns {
    Columns {
        personaje: column_of(h, "personaje"@),
        titulo: column_of(h, "titulo"@),
        categoria: column_of(h, "categoria"@),
        notacion: column_of(h, "notacion"@),
        rival: column_of(h, "rival"@),
        nota: column_of(h, "nota"@),
        enlace: column_of(h, "enlacex"@),
    }
}

/// What a data row gives: an error, or an entry for a character (the id of
/// the entry is given later).
pub enum RowOutcome {
    Error(Seq<char>),
    Add(Seq<char>, EntryView),
}

pub open spec fn unknown_character_msg(n: nat, nombre: Seq<char>) -> Seq<char> {
    "Fila "@ + decimal(n) + ": no reconozco el personaje \""@ + nombre + "\"."@
}

pub open spec fn missing_title_msg(n: nat) -> Seq<char> {
    "Fila "@ + decimal(n) + ": falta el titulo."@
}

/// The outcome of the data row `r`, which is line `n` of the sheet.
pub open spec fn row_outcome(c: Columns, r: Seq<Seq<char>>, n: nat, now: u64) -> RowOutcome {
    let nombre = cell_spec(r, c.personaje);
    match by_name(nombre) {
        None => RowOutcome::Error(unknown_character_msg(n, nombre)),
        Some(ch) => {
            let title = cell_spec(r, c.titulo);
            if title.len() == 0 {
                RowOutcome::Error(missing_title_msg(n))
            } else {
                let category = category_of_cell(cell_spec(r, c.categoria));
                RowOutcome::Add(
                    ch.0,
                    EntryView {
                        id: seq![],
                        title,
                        notation: cell_spec(r, c.notacion),
                        category,
                        rival_id: if category == Category::Matchup {
                            match by_name(cell_spec(r, c.rival)) {
                                Some(rc) => Some(rc.0),
                                None => None,
                            }
                        } else {
                            None
                        },
                        note: cell_spec(r, c.nota),
                        x_link: normalize_spec(cell_spec(r, c.enlace)),
                        created_at: now,
                    },
                )
            }
        },
    }
}

/// The outcomes of the data rows (all rows but the header), in order.
pub open spec fn outcomes(rows: Seq<Seq<Seq<char>>>, now: u64) -> Seq<RowOutcome> {
    let c = columns_of(rows[0]);
    Seq::new((rows.len() - 1) as nat, |k: int| row_outcome(c, rows[k + 1], (k + 2) as nat, now))
}

pub open spec fn errors_of(o: Seq<RowOutcome>) -> Seq<Seq<char>>
    decreases o.len(),
{
    if o.len() == 0 {
        seq![]
    } else {
        match o.last() {
            RowOutcome::Error(m) => errors_of(o.drop_last()).push(m),
            RowOutcome::Add(_, _) => errors_of(o.drop_last()),
        }
    }
}

pub open spec fn adds_of(o: Seq<RowOutcome>) -> Seq<(Seq<char>, EntryView)>
    decreases o.len(),
{
    if o.len() == 0 {
        seq![]
    } else {
        match o.last() {
            RowOutcome::Error(_) => adds_of(o.drop_last()),
            RowOutcome::Add(k, e) => adds_of(o.drop_last()).push((k, e)),
        }
    }
}

/// The tech after adding the planned entries in order, the `k`-th taking
/// `ids[k]` as its id.
pub open spec fn apply_adds(d: TechView, adds: Seq<(Seq<char>, EntryView)>, ids: Seq<Seq<char>>) -> TechView
    decreases adds.len(),
{
    if adds.len() == 0 {
        d
    } else {
        with_entry(
            apply_adds(d, adds.drop_last(), ids),
            adds.last().0,
            EntryView { id: ids[adds.len() - 1], ..adds.last().1 },
        )
    }
}

pub open spec fn empty_file_msg() -> Seq<char> {
    "El archivo esta vacio."@
}

pub open spec fn missing_columns_msg() -> Seq<char> {
    "Faltan columnas obligatorias: Personaje y Titulo. Descarga la plantilla para ver el formato."@
}

/// Whether the text has a header with the two required columns.
pub open spec fn importable(rows: Seq<Seq<Seq<char>>>) -> bool {
    rows.len() > 0 && column_of(rows[0], "personaje"@) is Some && column_of(rows[0], "titulo"@) is Some
}

/// The errors an import reports, in order.
pub open spec fn import_errors(text: Seq<char>, now: u64) -> Seq<Seq<char>> {
    let rows = parse_csv_spec(text);
    if rows.len() == 0 {
        seq![empty_file_msg()]
    } else if !importable(rows) {
        seq![missing_columns_msg()]
    } else {
        errors_of(outcomes(rows, now))
    }
}

/// The entries an import adds, in order, each with its character id.
pub open spec fn import_adds(text: Seq<char>, now: u64) -> Seq<(Seq<char>, EntryView)> {
    let rows = parse_csv_spec(text);
    if importable(rows) {
        adds_of(outcomes(rows, now))
    } else {
        seq![]
    }
}

/// The planned additions by their characters: character id and entry.
pub open spec fn planned_view(v: Seq<(&'static str, Entry)>) -> Seq<(Seq<char>, EntryView)> {
    v.map_values(|p: (&'static str, Entry)| (p.0@, p.1@))
}

/// Reads a CSV into the problems of its rows and the entries it adds, each
/// with its character id and an empty id of its own.
fn plan_import(text: &str, now: u64) -> (r: (Vec<String>, Vec<(&'static str, Entry)>))
    ensures
        row_view(r.0@) == import_errors(text@, now),
        planned_view(r.1@) == import_adds(text@, now),
{
    let rows = parse_csv(text);
    let ghost tv = table_view(rows@);
    let mut adds: Vec<(&'static str, Entry)> = Vec::new();
    if rows.len() == 0 {
        let mut errors: Vec<String> = Vec::new();
        errors.push("El archivo esta vacio.".to_string());
        assert(row_view(errors@) =~= seq![empty_file_msg()]);
        assert(planned_view(adds@) =~= Seq::<(Seq<char>, EntryView)>::empty());
        return (errors, adds);
    }
    let header = &rows[0];
    assert(row_view(header@) == tv[0]);
    let idx_personaje = column_index(header, "personaje");
    let idx_titulo = column_index(header, "titulo");
    if idx_personaje.is_none() || idx_titulo.is_none() {
        let mut errors: Vec<String> = Vec::new();
        errors.push(
            "Faltan columnas obligatorias: Personaje y Titulo. Descarga la plantilla para ver el formato.".to_string(),
        );
        assert(row_view(errors@) =~= seq![missing_columns_msg()]);
        assert(planned_view(adds@) =~= Seq::<(Seq<char>, EntryView)>::empty());
        return (errors, adds);
    }
    let idx_categoria = column_index(header, "categoria");
    let idx_notacion = column_index(header, "notacion");
    let idx_rival = column_index(header, "rival");
    let idx_nota = column_index(header, "nota");
    let idx_enlace = column_index(header, "enlacex");
    let ghost cols = columns_of(tv[0]);
    let ghost outs = outcomes(tv, now);
    let mut errors: Vec<String> = Vec::new();
    assert(planned_view(adds@) =~= adds_of(outs.subrange(0, 0)));
    let mut k: usize = 1;
    while k < rows.len()
        invariant
            1 <= k <= rows.len(),
            tv == table_view(rows@),
            tv == parse_csv_spec(text@),
            importable(tv),
            cols == columns_of(tv[0]),
            outs == outcomes(tv, now),
            opt_index(idx_personaje) == cols.personaje,
            opt_index(idx_titulo) == cols.titulo,
            opt_index(idx_categoria) == cols.categoria,
            opt_index(idx_notacion) == cols.notacion,
            opt_index(idx_rival) == cols.rival,
            opt_index(idx_nota) == cols.nota,
            opt_index(idx_enlace) == cols.enlace,
            row_view(errors@) == errors_of(outs.subrange(0, k - 1)),
            planned_view(adds@) == adds_of(outs.subrange(0, k - 1)),
        decreases rows.len() - k,
    {
        // +1 for the header, +1 because sheets count from 1.
        let numero_fila = k + 1;
        let row = &rows[k];
        let ghost rv = tv[k as int];
        assert(row_view(row@) == rv);
        let ghost o = outs[k - 1];
        assert(o == row_outcome(cols, rv, (k + 1) as nat, now));
        assert(outs.subrange(0, k as int).drop_last() =~= outs.subrange(0, k - 1));
        assert(outs.subrange(0, k as int).last() == o);
        let nombre = cell(row, idx_personaje);
        let character = match character_by_name(nombre.as_str()) {
            Some(c) => c,
            None => {
                let mut msg = "Fila ".to_string();
                let num = decimal_string(numero_fila as u64);
                append_str(&mut msg, num.as_str());
                append_str(&mut msg, ": no reconozco el personaje \"");
                append_str(&mut msg, nombre.as_str());
                append_str(&mut msg, "\".");
                let ghost eb = row_view(errors@);
                errors.push(msg);
                assert(row_view(errors@) =~= eb.push(unknown_character_msg((k + 1) as nat, nombre@)));
                k = k + 1;
                continue;
            },
        };
        let title = cell(row, idx_titulo);
        let tchars = chars_of(title.as_str());
        if tchars.len() == 0 {
            let mut msg = "Fila ".to_string();
            let num = decimal_string(numero_fila as u64);
            append_str(&mut msg, num.as_str());
            append_str(&mut msg, ": falta el titulo.");
            let ghost eb = row_view(errors@);
            errors.push(msg);
            assert(row_view(errors@) =~= eb.push(missing_title_msg((k + 1) as nat)));
            k = k + 1;
            continue;
        }
        let cat_cell = cell(row, idx_categoria);
        let category = Category::from_cell(cat_cell.as_str());
        let rival_id = if category == Category::Matchup {
            let rc = cell(row, idx_rival);
            match character_by_name(rc.as_str()) {
                Some(c) => Some(c.id.to_string()),
                None => None,
            }
        } else {
            None
        };
        let link_cell = cell(row, idx_enlace);
        let entry = Entry {
            id: String::new(),
            title,
            notation: cell(row, idx_notacion),
            category,
            rival_id,
            note: cell(row, idx_nota),
            x_link: normalize_url(link_cell.as_str()),
            created_at: now,
        };
        let ghost before = planned_view(adds@);
        adds.push((character.id, entry));
        assert(planned_view(adds@) =~= before.push((character.id@, entry@)));
        assert(adds_of(outs.subrange(0, k as int)) == adds_of(outs.subrange(0, k - 1)).push(
            (character@.0, entry@),
        ));
        k = k + 1;
    }
    assert(outs.subrange(0, rows.len() - 1) =~= outs);
    (errors, adds)
}

/// Adds the planned entries to `data` in order, the `k`-th taking `ids[k]`
/// as its id.
fn apply_planned(data: &mut TechData, adds: &Vec<(&'static str, Entry)>, ids: &Vec<String>)
    requires
        ids@.len() >= adds@.len(),
    ensures
        final(data)@ == apply_adds(old(data)@, planned_view(adds@), strings_view(ids@)),
{
    let ghost planned = planned_view(adds@);
    let ghost start = data@;
    let ghost sv = strings_view(ids@);
    let mut k: usize = 0;
    while k < adds.len()
        invariant
            0 <= k <= adds.len(),
            planned == planned_view(adds@),
            ids@.len() >= adds.len(),
            sv == strings_view(ids@),
            data@ == apply_adds(start, planned.subrange(0, k as int), sv),
        decreases adds.len() - k,
    {
        let mut e = entry_copy(&adds[k].1);
        e.id = ids[k].clone();
        let ghost pk = planned[k as int];
        assert(pk == (adds@[k as int].0@, adds@[k as int].1@));
        assert(e@ == EntryView { id: sv[k as int], ..pk.1 });
        data.push_entry(adds[k].0, e);
        assert(planned.subrange(0, k + 1).drop_last() =~= planned.subrange(0, k as int));
        k = k + 1;
    }
    assert(planned.subrange(0, adds.len() as int) =~= planned);
}

/// Puts the rows of a CSV into `data`, the `k`-th entry it adds taking
/// `ids[k]` as its id and `now` as its creation time. A bad row does not
/// abort the import: its problem is noted and the others go on.
pub fn import_with_ids(text: &str, data: &mut TechData, now: u64, ids: &Vec<String>) -> (result:
    ImportResult)
    requires
        ids@.len() >= import_adds(text@, now).len(),
    ensures
        row_view(result.errors@) == import_errors(text@, now),
        result.added == import_adds(text@, now).len(),
        final(data)@ == apply_adds(old(data)@, import_adds(text@, now), strings_view(ids@)),
{
    let (errors, adds) = plan_import(text, now);
    apply_planned(data, &adds, ids);
    ImportResult { added: adds.len(), errors }
}

/// Puts the rows of a CSV into `data`. A bad row does not abort the import:
/// its problem is noted and the others go on.
///
/// The rows are read first; then `next_id` is called once for each entry to
/// add, in order, and the entries are added as `import_with_ids` adds them,
/// with those ids and `now` as their creation time.
pub fn import_into<F: FnMut() -> String>(
    text: &str,
    data: &mut TechData,
    now: u64,
    next_id: &mut F,
) -> (result: ImportResult)
    requires
        call_requires(*old(next_id), ()),
    ensures
        row_view(result.errors@) == import_errors(text@, now),
        result.added == import_adds(text@, now).len(),
        exists|ids: Seq<String>|
            ids.len() == import_adds(text@, now).len() && #[trigger] apply_adds(
                old(data)@,
                import_adds(text@, now),
                strings_view(ids),
            ) == final(data)@ && forall|k: int|
                0 <= k < ids.len() ==> call_ensures(*old(next_id), (), #[trigger] ids[k]),
{
    let (errors, adds) = plan_import(text, now);
    let mut ids: Vec<String> = Vec::new();
    while ids.len() < adds.len()
        invariant
            ids.len() <= adds.len(),
            *next_id == *old(next_id),
            call_requires(*next_id, ()),
            forall|j: int| 0 <= j < ids@.len() ==> call_ensures(*old(next_id), (), #[trigger] ids@[j]),
        decreases adds.len() - ids.len(),
    {
        let id = next_id();
        ids.push(id);
    }
    apply_planned(data, &adds, &ids);
    ImportResult { added: adds.len(), errors }
}

// ---------------------------------------------------------------------------
// Writing then reading gives the table back
// ---------------------------------------------------------------------------

/// Whether the field has not started after reading a written field.
pub open spec fn fresh_after(v: Seq<char>) -> bool {
    !needs_quotes(v) && v.len() == 0
}

proof fn lemma_double_quotes_concat(a: Seq<char>, b: Seq<char>)
    ensures
        double_quotes(a + b) == double_quotes(a) + double_quotes(b),
    decreases b.len(),
{
    if b.len() == 0 {
        assert(a + b =~= a);
        assert(double_quotes(a) + double_quotes(b) =~= double_quotes(a));
    } else {
        assert((a + b).drop_last() =~= a + b.drop_last());
        assert((a + b).last() == b.last());
        lemma_double_quotes_concat(a, b.drop_last());
        assert(double_quotes(a) + double_quotes(b) =~= double_quotes(a) + double_quotes(
            b.drop_last(),
        ) + (if b.last() == '"' {
            seq!['"', '"']
        } else {
            seq![b.last()]
        }));
    }
}

proof fn lemma_sub_split(s: Seq<char>, i: int, a: Seq<char>, b: Seq<char>)
    requires
        0 <= i,
        i + a.len() + b.len() <= s.len(),
        s.subrange(i, i + a.len() + b.len()) == a + b,
    ensures
        s.subrange(i, i + a.len()) == a,
        s.subrange(i + a.len(), i + a.len() + b.len()) == b,
{
    assert forall|k: int| 0 <= k < a.len() implies #[trigger] s.subrange(i, i + a.len())[k]
        == a[k] by {
        assert(s.subrange(i, i + a.len() + b.len())[k] == (a + b)[k]);
    }
    assert forall|k: int| 0 <= k < b.len() implies #[trigger] s.subrange(
        i + a.len(),
        i + a.len() + b.len(),
    )[k] == b[k] by {
        assert(s.subrange(i, i + a.len() + b.len())[a.len() + k] == (a + b)[a.len() + k]);
        assert(s.subrange(i, i + a.len() + b.len())[a.len() + k] == s[i + a.len() + k]);
        assert(s.subrange(i + a.len(), i + a.len() + b.len())[k] == s[i + a.len() + k]);
        assert((a + b)[a.len() + k] == b[k]);
    }
    assert(s.subrange(i, i + a.len()) =~= a);
    assert(s.subrange(i + a.len(), i + a.len() + b.len()) =~= b);
}

/// Reading a field that needs no quotes, outside quotes.
proof fn lemma_scan_plain(s: Seq<char>, i: int, v: Seq<char>, st: ScanState)
    requires
        0 <= i,
        i + v.len() <= s.len(),
        s.subrange(i, i + v.len()) == v,
        !needs_quotes(v),
        !st.quoted,
    ensures
        csv_scan(s, i, st) == csv_scan(
            s,
            i + v.len(),
            ScanState { field: st.field + v, at_start: st.at_start && v.len() == 0, ..st },
        ),
    decreases v.len(),
{
    if v.len() == 0 {
        assert(st.field + v =~= st.field);
        assert(ScanState { field: st.field + v, at_start: st.at_start && v.len() == 0, ..st }
            == st);
    } else {
        let c = v[0];
        assert(s[i] == v[0]);
        assert(!(c == '"' || c == ',' || c == '\n' || c == '\r')) by {
            if c == '"' || c == ',' || c == '\n' || c == '\r' {
                assert(needs_quotes(v));
            }
        }
        let st1 = ScanState { field: st.field.push(c), at_start: false, ..st };
        assert(csv_scan(s, i, st) == csv_scan(s, i + 1, st1));
        let rest = v.drop_first();
        assert(s.subrange(i + 1, i + 1 + rest.len()) =~= rest);
        assert(!needs_quotes(rest)) by {
            if needs_quotes(rest) {
                let k = choose|k: int|
                    0 <= k < rest.len() && (#[trigger] rest[k] == '"' || rest[k] == ','
                        || rest[k] == '\n' || rest[k] == '\r');
                assert(v[k + 1] == rest[k]);
            }
        }
        lemma_scan_plain(s, i + 1, rest, st1);
        assert(st1.field + rest =~= st.field + v);
    }
}

/// Reading the inside of a quoted field, inside quotes.
proof fn lemma_scan_quoted_body(s: Seq<char>, i: int, v: Seq<char>, st: ScanState)
    requires
        0 <= i,
        i + double_quotes(v).len() <= s.len(),
        s.subrange(i, i + double_quotes(v).len()) == double_quotes(v),
        st.quoted,
    ensures
        csv_scan(s, i, st) == csv_scan(
            s,
            i + double_quotes(v).len(),
            ScanState { field: st.field + v, ..st },
        ),
    decreases v.len(),
{
    if v.len() == 0 {
        assert(st.field + v =~= st.field);
        assert(ScanState { field: st.field + v, ..st } == st);
    } else {
        let c = v[0];
        let rest = v.drop_first();
        assert(v =~= seq![c] + rest);
        lemma_double_quotes_concat(seq![c], rest);
        assert(seq![c].drop_last() =~= Seq::<char>::empty());
        let head = double_quotes(seq![c]);
        assert(double_quotes(Seq::<char>::empty()) == Seq::<char>::empty());
        assert(seq![c].last() == c);
        assert(Seq::<char>::empty() + (if c == '"' {
            seq!['"', '"']
        } else {
            seq![c]
        }) =~= (if c == '"' {
            seq!['"', '"']
        } else {
            seq![c]
        }));
        assert(head == (if c == '"' {
            seq!['"', '"']
        } else {
            seq![c]
        }));
        let d = double_quotes(v);
        assert(d == head + double_quotes(rest));
        assert(s[i] == d[0]);
        let st1 = ScanState { field: st.field.push(c), ..st };
        if c == '"' {
            assert(s[i + 1] == d[1]);
            assert(csv_scan(s, i, st) == csv_scan(s, i + 2, st1));
        } else {
            assert(csv_scan(s, i, st) == csv_scan(s, i + 1, st1));
        }
        lemma_sub_split(s, i, head, double_quotes(rest));
        lemma_scan_quoted_body(s, i + head.len(), rest, st1);
        assert(st1.field + rest =~= st.field + v);
    }
}

/// Reading one written field from the start of a field.
proof fn lemma_scan_field(s: Seq<char>, i: int, v: Seq<char>, st: ScanState)
    requires
        0 <= i,
        i + escape(v).len() <= s.len(),
        s.subrange(i, i + escape(v).len()) == escape(v),
        i + escape(v).len() == s.len() || s[i + escape(v).len()] != '"',
        !st.quoted,
        st.at_start,
        st.field == Seq::<char>::empty(),
    ensures
        csv_scan(s, i, st) == csv_scan(
            s,
            i + escape(v).len(),
            ScanState { field: v, at_start: fresh_after(v), quoted: false, ..st },
        ),
{
    if !needs_quotes(v) {
        lemma_scan_plain(s, i, v, st);
        assert(st.field + v =~= v);
    } else {
        let d = double_quotes(v);
        let e = escape(v);
        assert(e == seq!['"'] + d + seq!['"']);
        assert(s[i] == e[0]);
        let st1 = ScanState { quoted: true, at_start: false, ..st };
        assert(csv_scan(s, i, st) == csv_scan(s, i + 1, st1));
        lemma_sub_split(s, i, seq!['"'] + d, seq!['"']);
        lemma_sub_split(s, i, seq!['"'], d);
        lemma_scan_quoted_body(s, i + 1, v, st1);
        let p = i + 1 + d.len();
        assert(s[p] == e[d.len() + 1 as int]);
        let st2 = ScanState { field: st1.field + v, ..st1 };
        assert(csv_scan(s, p, st2) == csv_scan(s, p + 1, ScanState { quoted: false, ..st2 }));
        assert(st1.field + v =~= v);
    }
}

/// Reading one written row from the start of a row.
proof fn lemma_scan_row(s: Seq<char>, i: int, r: Seq<Seq<char>>, st: ScanState)
    requires
        r.len() >= 1,
        0 <= i,
        i + join_fields(r).len() <= s.len(),
        s.subrange(i, i + join_fields(r).len()) == join_fields(r),
        i + join_fields(r).len() == s.len() || s[i + join_fields(r).len()] != '"',
        !st.quoted,
        st.at_start,
        st.field == Seq::<char>::empty(),
        st.row == Seq::<Seq<char>>::empty(),
    ensures
        csv_scan(s, i, st) == csv_scan(
            s,
            i + join_fields(r).len(),
            ScanState {
                rows: st.rows,
                row: r.drop_last(),
                field: r.last(),
                quoted: false,
                at_start: fresh_after(r.last()),
            },
        ),
    decreases r.len(),
{
    if r.len() == 1 {
        lemma_scan_field(s, i, r[0], st);
        assert(r.drop_last() =~= st.row);
    } else {
        let r1 = r.drop_last();
        let j1 = join_fields(r1);
        let e = escape(r.last());
        assert(join_fields(r) == j1 + seq![','] + e);
        assert(s.subrange(i, i + j1.len()) =~= j1);
        let q = i + j1.len();
        assert(s[q] == join_fields(r)[j1.len() as int]);
        lemma_scan_row(s, i, r1, st);
        let st1 = ScanState {
            rows: st.rows,
            row: r1.drop_last(),
            field: r1.last(),
            quoted: false,
            at_start: fresh_after(r1.last()),
        };
        let st2 = ScanState { row: r1, field: seq![], at_start: true, ..st1 };
        assert(r1.drop_last().push(r1.last()) =~= r1);
        assert(csv_scan(s, q, st1) == csv_scan(s, q + 1, st2));
        lemma_sub_split(s, i, j1 + seq![','], e);
        lemma_sub_split(s, i, j1, seq![',']);
        lemma_scan_field(s, q + 1, r.last(), st2);
    }
}

/// Reading a whole written table from the start.
proof fn lemma_scan_table(s: Seq<char>, t: Seq<Seq<Seq<char>>>)
    requires
        t.len() >= 1,
        forall|k: int| 0 <= k < t.len() ==> (#[trigger] t[k]).len() >= 1,
        to_csv_spec(t).len() <= s.len(),
        s.subrange(0, to_csv_spec(t).len() as int) == to_csv_spec(t),
        to_csv_spec(t).len() == s.len() || s[to_csv_spec(t).len() as int] != '"',
    ensures
        csv_scan(s, 0, scan_start()) == csv_scan(
            s,
            to_csv_spec(t).len() as int,
            ScanState {
                rows: t.drop_last(),
                row: t.last().drop_last(),
                field: t.last().last(),
                quoted: false,
                at_start: fresh_after(t.last().last()),
            },
        ),
    decreases t.len(),
{
    if t.len() == 1 {
        lemma_scan_row(s, 0, t[0], scan_start());
        assert(t.drop_last() =~= Seq::<Seq<Seq<char>>>::empty());
    } else {
        let t1 = t.drop_last();
        let c1 = to_csv_spec(t1);
        let j = join_fields(t.last());
        assert(to_csv_spec(t) == c1 + seq!['\r', '\n'] + j);
        assert(s.subrange(0, c1.len() as int) =~= c1);
        let q = c1.len() as int;
        assert(s[q] == to_csv_spec(t)[q]);
        assert(s[q + 1] == to_csv_spec(t)[q + 1]);
        assert forall|k: int| 0 <= k < t1.len() implies (#[trigger] t1[k]).len() >= 1 by {
            assert(t1[k] == t[k]);
        }
        lemma_scan_table(s, t1);
        let st1 = ScanState {
            rows: t1.drop_last(),
            row: t1.last().drop_last(),
            field: t1.last().last(),
            quoted: false,
            at_start: fresh_after(t1.last().last()),
        };
        assert(t1[t1.len() - 1].len() >= 1);
        assert(t1.last().drop_last().push(t1.last().last()) =~= t1.last());
        assert(t1.drop_last().push(t1.last()) =~= t1);
        let st2 = ScanState { rows: t1, row: seq![], field: seq![], at_start: true, ..st1 };
        assert(csv_scan(s, q, st1) == csv_scan(s, q + 1, st1));
        assert(csv_scan(s, q + 1, st1) == csv_scan(s, q + 2, st2));
        lemma_sub_split(s, 0, c1 + seq!['\r', '\n'], j);
        assert(t[t.len() - 1].len() >= 1);
        lemma_scan_row(s, q + 2, t.last(), st2);
    }
}

/// An import only adds: it adds exactly one entry per entry it reports,
/// and every list that was there before is still there, at the head of what
/// the character has now.
pub proof fn lemma_import_only_adds(
    d: TechView,
    adds: Seq<(Seq<char>, EntryView)>,
    ids: Seq<Seq<char>>,
    key: Seq<char>,
)
    ensures
        total_entries(apply_adds(d, adds, ids)) == total_entries(d) + adds.len(),
        lookup(d, key) is Some ==> lookup(apply_adds(d, adds, ids), key) is Some
            && lookup(d, key).unwrap().is_prefix_of(lookup(apply_adds(d, adds, ids), key).unwrap()),
    decreases adds.len(),
{
    if adds.len() > 0 {
        let before = apply_adds(d, adds.drop_last(), ids);
        lemma_import_only_adds(d, adds.drop_last(), ids, key);
        let e = EntryView { id: ids[adds.len() - 1], ..adds.last().1 };
        lemma_total_with_entry(before, adds.last().0, e);
        lemma_lookup_with_entry(before, adds.last().0, e, key);
        if lookup(d, key) is Some && key == adds.last().0 {
            let old_list = lookup(d, key).unwrap();
            let mid = lookup(before, key).unwrap();
            assert(old_list.is_prefix_of(mid));
            assert(old_list.is_prefix_of(mid.push(e))) by {
                assert forall|i: int| 0 <= i < old_list.len() implies #[trigger] old_list[i]
                    == mid.push(e)[i] by {
                    assert(mid[i] == old_list[i]);
                }
            }
        }
    }
}

// ---------------------------------------------------------------------------
// Exporting and importing back
// ---------------------------------------------------------------------------

/// What std's lower case gives for the names an export writes (the column
/// names, the roster names, the category labels, and the empty text): their
/// ASCII lower case. Reading an export back relies on it.
pub open spec fn export_names_lowercase() -> bool {
    &&& forall|k: int|
        0 <= k < 7 ==> #[trigger] str_lowercase(header_names()[k]) == lower_seq(header_names()[k])
    &&& forall|k: int|
        0 <= k < roster_len() ==> #[trigger] str_lowercase(roster_row(k).1) == lower_seq(
            roster_row(k).1,
        )
    &&& forall|c: Category| #[trigger] str_lowercase(label_of(c)) == lower_seq(label_of(c))
    &&& str_lowercase(Seq::<char>::empty()) == Seq::<char>::empty()
}

/// Asks std for the lower case of every name an export writes, which is
/// how the facts that reading an export back needs are learnt.
pub fn export_names_lowercase_hold()
    ensures
        export_names_lowercase(),
{
    let h = headers();
    assert(h@.len() == row_view(h@).len());
    let mut k: usize = 0;
    while k < 7
        invariant
            0 <= k <= 7,
            h@.len() == 7,
            row_view(h@) == header_names(),
            forall|j: int|
                0 <= j < k ==> #[trigger] str_lowercase(header_names()[j]) == lower_seq(
                    header_names()[j],
                ),
        decreases 7 - k,
    {
        proof {
        reveal_strlit("Personaje");
        reveal_strlit("Categoria");
        reveal_strlit("Titulo");
        reveal_strlit("Notacion");
        reveal_strlit("Rival");
        reveal_strlit("Nota");
        reveal_strlit("EnlaceX");
        }
        assert(h@[k as int]@ == row_view(h@)[k as int]);
        assert(all_ascii(h@[k as int]@));
        let _ = lowercase(h[k].as_str());
        k = k + 1;
    }
    let roster = characters();
    let mut k: usize = 0;
    while k < 20
        invariant
            0 <= k <= 20,
            roster@.len() == roster_len(),
            forall|j: int| 0 <= j < roster_len() ==> #[trigger] roster@[j]@ == roster_row(j),
            forall|j: int|
                0 <= j < k ==> #[trigger] str_lowercase(roster_row(j).1) == lower_seq(
                    roster_row(j).1,
                ),
            forall|j: int|
                0 <= j < 7 ==> #[trigger] str_lowercase(header_names()[j]) == lower_seq(
                    header_names()[j],
                ),
        decreases 20 - k,
    {
        proof {
        reveal_strlit("Doctor Doom");
        reveal_strlit("Captain America");
        reveal_strlit("Magneto");
        reveal_strlit("Blade");
        reveal_strlit("Black Panther");
        reveal_strlit("Carnage");
        reveal_strlit("Danger");
        reveal_strlit("Deadpool");
        reveal_strlit("Ghost Rider");
        reveal_strlit("Green Goblin");
        reveal_strlit("Hulk");
        reveal_strlit("Iron Man");
        reveal_strlit("Loki");
        reveal_strlit("Magik");
        reveal_strlit("Ms. Marvel");
        reveal_strlit("Peni Parker");
        reveal_strlit("Spider-Man");
        reveal_strlit("Star-Lord");
        reveal_strlit("Storm");
        reveal_strlit("Wolverine");
        }
        assert(roster@[k as int]@ == roster_row(k as int));
        assert(all_ascii(roster_row(k as int).1));
        let _ = lowercase(roster[k].name);
        k = k + 1;
    }
    let cats = Category::all();
    let mut k: usize = 0;
    while k < 3
        invariant
            0 <= k <= 3,
            cats@ == seq![Category::Bnb, Category::Matchup, Category::Nota],
            forall|j: int|
                0 <= j < k ==> #[trigger] str_lowercase(label_of(cats@[j])) == lower_seq(
                    label_of(cats@[j]),
                ),
            forall|j: int|
                0 <= j < roster_len() ==> #[trigger] str_lowercase(roster_row(j).1) == lower_seq(
                    roster_row(j).1,
                ),
            forall|j: int|
                0 <= j < 7 ==> #[trigger] str_lowercase(header_names()[j]) == lower_seq(
                    header_names()[j],
                ),
        decreases 3 - k,
    {
        proof {
        reveal_strlit("BnB");
        reveal_strlit("Matchup");
        reveal_strlit("Nota");
        }
        assert(all_ascii(label_of(cats@[k as int])));
        let _ = lowercase(cats[k].label());
        k = k + 1;
    }
    assert forall|c: Category| #[trigger] str_lowercase(label_of(c)) == lower_seq(label_of(c)) by {
        match c {
            Category::Bnb => assert(label_of(cats@[0]) == label_of(c)),
            Category::Matchup => assert(label_of(cats@[1]) == label_of(c)),
            Category::Nota => assert(label_of(cats@[2]) == label_of(c)),
        }
    }
    proof {
        reveal_strlit("");
    }
    let _ = lowercase("");
    assert(""@ =~= Seq::<char>::empty());
    assert(all_ascii(""@));
    assert(lower_seq(""@) =~= Seq::<char>::empty());
    assert(str_lowercase(Seq::<char>::empty()) == Seq::<char>::empty());
}

/// An entry as an import reads it back from its export row: the same but
/// for the id, which the import gives, and the creation time, which is the
/// import's.
pub open spec fn reimported(e: EntryView, now: u64) -> EntryView {
    EntryView { id: seq![], created_at: now, ..e }
}

/// An entry whose export row reads back as the entry: a title that is not
/// empty, text fields without spaces at either end, a link already
/// normalised, and a rival (a roster id) only on a matchup.
pub open spec fn entry_ready(e: EntryView) -> bool {
    &&& e.title.len() > 0
    &&& trim(e.title) == e.title
    &&& trim(e.notation) == e.notation
    &&& trim(e.note) == e.note
    &&& normalize_spec(e.x_link) == e.x_link
    &&& match e.rival_id {
        Some(r) => e.category == Category::Matchup && by_id(r) is Some,
        None => true,
    }
}

/// Tech that exports and reads back whole: every key is a roster id and
/// every entry is ready.
pub open spec fn export_ready(d: TechView) -> bool {
    &&& forall|i: int| 0 <= i < d.len() ==> #[trigger] by_id(d[i].0) is Some
    &&& forall|i: int, j: int|
        0 <= i < d.len() && 0 <= j < d[i].1.len() ==> entry_ready(#[trigger] d[i].1[j])
}

/// The entries an export writes from the `k`-th roster character on, each
/// with the position of its character, in roster order.
pub open spec fn export_items(d: TechView, k: int) -> Seq<(int, EntryView)>
    decreases roster_len() - k,
{
    if k < 0 || k >= roster_len() {
        seq![]
    } else {
        (match lookup(d, roster_row(k).0) {
            Some(es) => es.map_values(|e: EntryView| (k, e)),
            None => seq![],
        }) + export_items(d, k + 1)
    }
}

/// Every entry of the tech, character by character in roster order, each
/// with its character id, as an import of the export gives them back.
pub open spec fn export_adds(d: TechView, now: u64) -> Seq<(Seq<char>, EntryView)> {
    export_items(d, 0).map_values(
        |p: (int, EntryView)| (roster_row(p.0).0, reimported(p.1, now)),
    )
}

proof fn lemma_export_items(d: TechView, k: int)
    requires
        0 <= k <= roster_len(),
    ensures
        export_from(d, k) == export_items(d, k).map_values(
            |p: (int, EntryView)| entry_row(p.0, p.1),
        ),
        export_ready(d) ==> forall|i: int|
            0 <= i < export_items(d, k).len() ==> k <= (#[trigger] export_items(d, k)[i]).0
                < roster_len() && entry_ready(export_items(d, k)[i].1),
    decreases roster_len() - k,
{
    if k < roster_len() {
        lemma_export_items(d, k + 1);
        let rest = export_items(d, k + 1);
        let head = match lookup(d, roster_row(k).0) {
            Some(es) => es.map_values(|e: EntryView| (k, e)),
            None => seq![],
        };
        let f = |p: (int, EntryView)| entry_row(p.0, p.1);
        assert((head + rest).map_values(f) =~= head.map_values(f) + rest.map_values(f));
        match lookup(d, roster_row(k).0) {
            Some(es) => {
                assert(head.map_values(f) =~= es.map_values(|e: EntryView| entry_row(k, e)));
                if export_ready(d) {
                    lemma_key_pos(d, roster_row(k).0, 0);
                    let p = key_pos(d, roster_row(k).0, 0);
                    assert forall|j: int| 0 <= j < es.len() implies entry_ready(#[trigger] es[j]) by {
                        assert(es[j] == d[p].1[j]);
                    }
                    assert forall|i: int| 0 <= i < (head + rest).len() implies k <= (
                    #[trigger] (head + rest)[i]).0 < roster_len() && entry_ready((head + rest)[i].1) by {
                        if i < head.len() {
                            assert(head[i] == (k, es[i]));
                        } else {
                            assert((head + rest)[i] == rest[i - head.len()]);
                        }
                    }
                }
            },
            None => {
                assert(head.map_values(f) =~= Seq::<Seq<Seq<char>>>::empty());
                assert(head + rest =~= rest);
            },
        }
        assert(export_items(d, k) == head + rest);
    } else {
        assert(export_items(d, k).map_values(|p: (int, EntryView)| entry_row(p.0, p.1))
            =~= Seq::<Seq<Seq<char>>>::empty());
    }
}

/// Where an import finds each column in the header an export writes.
proof fn lemma_header_columns()
    requires
        export_names_lowercase(),
    ensures
        columns_of(header_names()) == (Columns {
            personaje: Some(0),
            titulo: Some(2),
            categoria: Some(1),
            notacion: Some(3),
            rival: Some(4),
            nota: Some(5),
            enlace: Some(6),
        }),
{
    reveal_strlit("Personaje");
    reveal_strlit("Categoria");
    reveal_strlit("Titulo");
    reveal_strlit("Notacion");
    reveal_strlit("Rival");
    reveal_strlit("Nota");
    reveal_strlit("EnlaceX");
    reveal_strlit("personaje");
    reveal_strlit("categoria");
    reveal_strlit("titulo");
    reveal_strlit("notacion");
    reveal_strlit("rival");
    reveal_strlit("nota");
    reveal_strlit("enlacex");
    let h = header_names();
    assert forall|k: int| 0 <= k < 7 implies trim(#[trigger] h[k]) == h[k] by {
        lemma_trim_noop(h[k]);
    }
    assert forall|k: int| 0 <= k < 7 implies str_lowercase(trim(#[trigger] h[k])) == lower_seq(
        h[k],
    ) by {
        assert(str_lowercase(h[k]) == lower_seq(h[k]));
    }
    assert(lower_seq(h[0]) =~= "personaje"@);
    assert(lower_seq(h[1]) =~= "categoria"@);
    assert(lower_seq(h[2]) =~= "titulo"@);
    assert(lower_seq(h[3]) =~= "notacion"@);
    assert(lower_seq(h[4]) =~= "rival"@);
    assert(lower_seq(h[5]) =~= "nota"@);
    assert(lower_seq(h[6]) =~= "enlacex"@);
    reveal_with_fuel(col_index, 8);
    assert(str_lowercase(trim(h[0])) == lower_seq(h[0]));
    assert(str_lowercase(trim(h[1])) == lower_seq(h[1]));
    assert(str_lowercase(trim(h[2])) == lower_seq(h[2]));
    assert(str_lowercase(trim(h[3])) == lower_seq(h[3]));
    assert(str_lowercase(trim(h[4])) == lower_seq(h[4]));
    assert(str_lowercase(trim(h[5])) == lower_seq(h[5]));
    assert(str_lowercase(trim(h[6])) == lower_seq(h[6]));
    assert(col_index(h, "personaje"@, 0) == 0);
    assert("personaje"@[0] != "categoria"@[0]);
    assert(col_index(h, "categoria"@, 0) == 1);
    assert(col_index(h, "titulo"@, 0) == 2);
    assert(col_index(h, "notacion"@, 0) == 3);
    assert(col_index(h, "rival"@, 0) == 4);
    assert(col_index(h, "nota"@, 0) == 5);
    assert(col_index(h, "enlacex"@, 0) == 6);
}

/// A link that normalisation leaves as it is has no spaces at either end,
/// so reading it back from a trimmed cell gives it again.
proof fn lemma_normalized_link(x: Seq<char>)
    requires
        normalize_spec(x) == x,
    ensures
        normalize_spec(trim(x)) == x,
{
    let t = trim(x);
    lemma_trim_shape(x);
    lemma_trim_idempotent(x);
    if t.len() == 0 {
    } else if has_web_scheme(t) {
    } else {
        reveal_strlit("https://");
        assert(x == "https://"@ + t);
        assert(x[0] == 'h');
        assert(x.last() == t.last());
        lemma_trim_noop(x);
    }
}

/// The row an export writes for a ready entry of the `j`-th roster
/// character reads back as that entry, for that character.
proof fn lemma_entry_row_outcome(j: int, e: EntryView, n: nat, now: u64)
    requires
        export_names_lowercase(),
        0 <= j < roster_len(),
        entry_ready(e),
    ensures
        row_outcome(columns_of(header_names()), entry_row(j, e), n, now) == RowOutcome::Add(
            roster_row(j).0,
            reimported(e, now),
        ),
{
    lemma_header_columns();
    lemma_roster_names();
    let c = columns_of(header_names());
    let r = entry_row(j, e);
    let name = roster_row(j).1;
    // The character's name finds the character.
    assert(cell_spec(r, c.personaje) == name);
    assert(str_lowercase(name) == lower_seq(name));
    assert forall|k: int| 0 <= k < j implies str_lowercase(#[trigger] roster_row(k).1) != lower_seq(
        name,
    ) by {
        assert(str_lowercase(roster_row(k).1) == lower_seq(roster_row(k).1));
    }
    lemma_find_name_at(lower_seq(name), j, 0);
    assert(by_name(name) == Some(roster_row(j)));
    // The title, notation, note and link come back as they were.
    assert(cell_spec(r, c.titulo) == e.title);
    assert(cell_spec(r, c.notacion) == e.notation);
    assert(cell_spec(r, c.nota) == e.note);
    lemma_normalized_link(e.x_link);
    // The label names the category.
    lemma_label_names_category(e.category);
    reveal_strlit("BnB");
    reveal_strlit("Matchup");
    reveal_strlit("Nota");
    lemma_trim_noop(label_of(e.category));
    assert(cell_spec(r, c.categoria) == label_of(e.category));
    assert(str_lowercase(label_of(e.category)) == lower_seq(label_of(e.category)));
    assert(category_of_cell(label_of(e.category)) == e.category);
    // The rival's name finds the rival, and an empty cell finds nobody.
    let rcell = cell_spec(r, c.rival);
    match e.rival_id {
        Some(rid) => {
            lemma_find_id(rid, 0);
            let m = find_id(rid, 0);
            assert(by_id(rid) == Some(roster_row(m)));
            let rn = roster_row(m).1;
            assert(rcell == rn);
            assert(str_lowercase(rn) == lower_seq(rn));
            assert forall|k: int| 0 <= k < m implies str_lowercase(#[trigger] roster_row(k).1)
                != lower_seq(rn) by {
                assert(str_lowercase(roster_row(k).1) == lower_seq(roster_row(k).1));
            }
            lemma_find_name_at(lower_seq(rn), m, 0);
            assert(by_name(rcell) == Some(roster_row(m)));
        },
        None => {
            reveal_strlit("");
            assert(rival_name(e.rival_id) =~= Seq::<char>::empty());
            assert(rcell =~= Seq::<char>::empty());
            assert(trim(Seq::<char>::empty()) =~= Seq::<char>::empty());
            assert forall|k: int| 0 <= k < roster_len() implies str_lowercase(
                #[trigger] roster_row(k).1,
            ) != Seq::<char>::empty() by {
                assert(str_lowercase(roster_row(k).1) == lower_seq(roster_row(k).1));
                assert(lower_seq(roster_row(k).1).len() == roster_row(k).1.len());
            }
            lemma_find_name_none(Seq::<char>::empty(), 0);
            assert(by_name(rcell) is None);
        },
    }
}

/// Outcomes that all add give no errors, and add what they say.
proof fn lemma_all_adds(o: Seq<RowOutcome>, a: Seq<(Seq<char>, EntryView)>)
    requires
        o.len() == a.len(),
        forall|i: int| 0 <= i < o.len() ==> #[trigger] o[i] == RowOutcome::Add(a[i].0, a[i].1),
    ensures
        errors_of(o) == Seq::<Seq<char>>::empty(),
        adds_of(o) == a,
    decreases o.len(),
{
    if o.len() > 0 {
        let (o2, a2) = (o.drop_last(), a.drop_last());
        assert forall|i: int| 0 <= i < o2.len() implies #[trigger] o2[i] == RowOutcome::Add(
            a2[i].0,
            a2[i].1,
        ) by {
            assert(o2[i] == o[i]);
        }
        lemma_all_adds(o2, a2);
        assert(o.last() == RowOutcome::Add(a.last().0, a.last().1));
        assert(a2.push(a.last()) =~= a);
    }
}

/// Importing what an export wrote gives back every entry of the tech, with
/// its character, in roster order, only with a new id and creation time,
/// and reports no problem; for tech whose keys are roster ids and whose
/// entries are ready (see `entry_ready`).
pub proof fn lemma_import_of_export(d: TechView, now: u64)
    requires
        export_names_lowercase(),
        export_ready(d),
    ensures
        import_errors(to_csv_spec(export_spec(d)), now) == Seq::<Seq<char>>::empty(),
        import_adds(to_csv_spec(export_spec(d)), now) == export_adds(d, now),
{
    let rows = export_spec(d);
    lemma_export_items(d, 0);
    let items = export_items(d, 0);
    lemma_roster_names();
    reveal_strlit("Personaje");
    // Every row has a field that is not blank: the header's first, and each
    // entry's character name.
    assert forall|k: int| 0 <= k < rows.len() implies row_has_content(#[trigger] rows[k]) by {
        if k == 0 {
            lemma_trim_noop(header_names()[0]);
            assert(!is_blank(rows[0][0]));
        } else {
            let p = items[k - 1];
            assert(rows[k] == entry_row(p.0, p.1));
            assert(!is_blank(rows[k][0]));
        }
    }
    lemma_csv_roundtrip(rows);
    lemma_header_columns();
    assert(rows[0] == header_names());
    assert(importable(rows));
    let o = outcomes(rows, now);
    let a = export_adds(d, now);
    assert forall|i: int| 0 <= i < o.len() implies #[trigger] o[i] == RowOutcome::Add(
        a[i].0,
        a[i].1,
    ) by {
        let p = items[i];
        assert(rows[i + 1] == entry_row(p.0, p.1));
        lemma_entry_row_outcome(p.0, p.1, (i + 2) as nat, now);
    }
    lemma_all_adds(o, a);
}

/// The entries of the planned additions that go to `key`, in order.
pub open spec fn picked(adds: Seq<(Seq<char>, EntryView)>, key: Seq<char>) -> Seq<EntryView> {
    adds.filter(for_key(key)).map_values(entry_part())
}

/// Whether a planned addition goes to `key`.
pub open spec fn for_key(key: Seq<char>) -> spec_fn((Seq<char>, EntryView)) -> bool {
    |p: (Seq<char>, EntryView)| p.0 == key
}

/// The entry of a planned addition.
pub open spec fn entry_part() -> spec_fn((Seq<char>, EntryView)) -> EntryView {
    |p: (Seq<char>, EntryView)| p.1
}

/// An entry without its id.
pub open spec fn strip_id(e: EntryView) -> EntryView {
    EntryView { id: seq![], ..e }
}

proof fn lemma_filter_none<A>(s: Seq<A>, p: spec_fn(A) -> bool)
    requires
        forall|k: int| 0 <= k < s.len() ==> !p(#[trigger] s[k]),
    ensures
        s.filter(p) == Seq::<A>::empty(),
    decreases s.len(),
{
    reveal_with_fuel(Seq::filter, 1);
    if s.len() > 0 {
        let d = s.drop_last();
        assert forall|k: int| 0 <= k < d.len() implies !p(#[trigger] d[k]) by {
            assert(d[k] == s[k]);
        }
        lemma_filter_none(d, p);
        assert(!p(s[s.len() - 1]));
    } else {
        assert(s.filter(p) =~= Seq::<A>::empty());
    }
}

/// Adding planned entries (with no ids yet) to no tech gives each character
/// the entries planned for it, in order, with the ids given; a character
/// with none planned gets no list.
proof fn lemma_lists_from_nothing(
    adds: Seq<(Seq<char>, EntryView)>,
    ids: Seq<Seq<char>>,
    key: Seq<char>,
)
    requires
        forall|i: int| 0 <= i < adds.len() ==> (#[trigger] adds[i]).1.id == Seq::<char>::empty(),
    ensures
        match lookup(apply_adds(Seq::empty(), adds, ids), key) {
            None => picked(adds, key).len() == 0,
            Some(l) => l.len() > 0 && l.map_values(|e: EntryView| strip_id(e)) == picked(adds, key),
        },
    decreases adds.len(),
{
    let f = for_key(key);
    let g = entry_part();
    reveal_with_fuel(Seq::filter, 1);
    if adds.len() == 0 {
        assert(picked(adds, key) =~= Seq::<EntryView>::empty());
    } else {
        let a2 = adds.drop_last();
        assert forall|i: int| 0 <= i < a2.len() implies (#[trigger] a2[i]).1.id
            == Seq::<char>::empty() by {
            assert(a2[i] == adds[i]);
        }
        lemma_lists_from_nothing(a2, ids, key);
        let last = adds.last();
        let e = EntryView { id: ids[adds.len() - 1], ..last.1 };
        let before = apply_adds(Seq::empty(), a2, ids);
        lemma_lookup_with_entry(before, last.0, e, key);
        assert(last.1.id == Seq::<char>::empty());
        assert(strip_id(e) == last.1);
        if last.0 == key {
            assert(adds.filter(f) == a2.filter(f).push(last));
            assert(picked(adds, key) =~= picked(a2, key).push(last.1));
            match lookup(before, key) {
                Some(l) => {
                    assert(l.push(e).map_values(|e: EntryView| strip_id(e)) =~= l.map_values(
                        |e: EntryView| strip_id(e),
                    ).push(strip_id(e)));
                },
                None => {
                    assert(seq![e].map_values(|e: EntryView| strip_id(e)) =~= seq![strip_id(e)]);
                    assert(picked(a2, key) =~= Seq::<EntryView>::empty());
                },
            }
        } else {
            assert(adds.filter(f) == a2.filter(f));
        }
    }
}

/// The export's additions for one character: the entries of the `k`-th
/// roster character, read back.
pub open spec fn export_block(d: TechView, k: int, now: u64) -> Seq<EntryView> {
    match lookup(d, roster_row(k).0) {
        Some(es) => es.map_values(|e: EntryView| reimported(e, now)),
        None => seq![],
    }
}

proof fn lemma_picked_export(d: TechView, now: u64, key: Seq<char>, k: int, m: int)
    requires
        0 <= m <= roster_len(),
    ensures
        (0 <= k < roster_len() && roster_row(k).0 == key) ==> picked(
            export_items(d, m).map_values(
                |p: (int, EntryView)| (roster_row(p.0).0, reimported(p.1, now)),
            ),
            key,
        ) == if m <= k {
            export_block(d, k, now)
        } else {
            Seq::<EntryView>::empty()
        },
        (forall|j: int| 0 <= j < roster_len() ==> (#[trigger] roster_row(j)).0 != key) ==> picked(
            export_items(d, m).map_values(
                |p: (int, EntryView)| (roster_row(p.0).0, reimported(p.1, now)),
            ),
            key,
        ) == Seq::<EntryView>::empty(),
    decreases roster_len() - m,
{
    let h = |p: (int, EntryView)| (roster_row(p.0).0, reimported(p.1, now));
    let f = for_key(key);
    let g = entry_part();
    lemma_roster_distinct();
    if m == roster_len() {
        assert(export_items(d, m).map_values(h) =~= Seq::<(Seq<char>, EntryView)>::empty());
        assert(picked(export_items(d, m).map_values(h), key) =~= Seq::<EntryView>::empty());
    } else {
        lemma_picked_export(d, now, key, k, m + 1);
        let head = match lookup(d, roster_row(m).0) {
            Some(es) => es.map_values(|e: EntryView| (m, e)),
            None => seq![],
        };
        let rest = export_items(d, m + 1);
        assert(export_items(d, m) == head + rest);
        assert((head + rest).map_values(h) =~= head.map_values(h) + rest.map_values(h));
        Seq::filter_distributes_over_add(head.map_values(h), rest.map_values(h), f);
        let hf = head.map_values(h).filter(f);
        let rf = rest.map_values(h).filter(f);
        assert((hf + rf).map_values(g) =~= hf.map_values(g) + rf.map_values(g));
        assert(picked(rest.map_values(h), key) == rf.map_values(g));
        assert(picked(export_items(d, m).map_values(h), key) == hf.map_values(g) + rf.map_values(
            g,
        ));
        if roster_row(m).0 == key {
            assert forall|i: int| 0 <= i < head.map_values(h).len() implies f(
                #[trigger] head.map_values(h)[i],
            ) by {
                assert(head[i].0 == m);
            }
            lemma_filter_all(head.map_values(h), f);
            assert(hf.map_values(g) =~= export_block(d, m, now));
            if 0 <= k < roster_len() && roster_row(k).0 == key && k != m {
                assert(roster_row(m).0 != roster_row(k).0);
            }
            if 0 <= k < roster_len() && roster_row(k).0 == key {
                assert(k == m);
                assert(rf.map_values(g) =~= Seq::<EntryView>::empty());
            }
        } else {
            assert forall|i: int| 0 <= i < head.map_values(h).len() implies !f(
                #[trigger] head.map_values(h)[i],
            ) by {
                assert(head[i].0 == m);
            }
            lemma_filter_none(head.map_values(h), f);
            assert(hf.map_values(g) =~= Seq::<EntryView>::empty());
            assert(picked(export_items(d, m).map_values(h), key) =~= rf.map_values(g));
        }
    }
}

/// Importing what an export wrote into empty tech gives every character the
/// same list it had, entry by entry, but for a new id and the import's
/// creation time; a key with no entries gets no list. (Tech whose keys are
/// roster ids and whose entries are ready, see `entry_ready`.)
#[verifier::spinoff_prover]
pub proof fn lemma_import_of_export_lists(d: TechView, now: u64, ids: Seq<Seq<char>>, key: Seq<char>)
    requires
        export_names_lowercase(),
        export_ready(d),
    ensures
        match lookup(apply_adds(Seq::empty(), import_adds(to_csv_spec(export_spec(d)), now), ids), key) {
            Some(l) => lookup(d, key) matches Some(es) && es.len() > 0 && l.map_values(
                |e: EntryView| strip_id(e),
            ) == es.map_values(|e: EntryView| reimported(e, now)),
            None => lookup(d, key) matches Some(es) ==> es.len() == 0,
        },
{
    lemma_import_of_export(d, now);
    let adds = export_adds(d, now);
    assert forall|i: int| 0 <= i < adds.len() implies (#[trigger] adds[i]).1.id
        == Seq::<char>::empty() by {}
    lemma_lists_from_nothing(adds, ids, key);
    let fresh = apply_adds(Seq::empty(), adds, ids);
    let block = if exists|j: int| 0 <= j < roster_len() && roster_row(j).0 == key {
        let j = choose|j: int| 0 <= j < roster_len() && roster_row(j).0 == key;
        lemma_picked_export(d, now, key, j, 0);
        assert(picked(adds, key) == export_block(d, j, now));
        match lookup(d, key) {
            Some(es) => es.map_values(|e: EntryView| reimported(e, now)),
            None => Seq::<EntryView>::empty(),
        }
    } else {
        lemma_picked_export(d, now, key, 0, 0);
        match lookup(d, key) {
            Some(es) => {
                lemma_key_pos(d, key, 0);
                let p = key_pos(d, key, 0);
                assert(by_id(d[p].0) is Some);
                lemma_find_id(key, 0);
                assert(roster_row(find_id(key, 0)).0 == key);
                assert(false);
            },
            None => {},
        }
        Seq::<EntryView>::empty()
    };
    assert(picked(adds, key) == block);
    match lookup(fresh, key) {
        Some(l) => {
            assert(l.map_values(|e: EntryView| strip_id(e)).len() == l.len());
            assert(block.len() > 0);
            assert(lookup(d, key) is Some);
        },
        None => {
            assert(block.len() == 0);
        },
    }
}

/// How many entries the roster characters from the `k`-th on have.
pub open spec fn roster_count(d: TechView, k: int) -> int
    decreases roster_len() - k,
{
    if k < 0 || k >= roster_len() {
        0
    } else {
        (match lookup(d, roster_row(k).0) {
            Some(es) => es.len() as int,
            None => 0,
        }) + roster_count(d, k + 1)
    }
}

proof fn lemma_items_count(d: TechView, k: int)
    requires
        0 <= k <= roster_len(),
    ensures
        export_items(d, k).len() == roster_count(d, k),
    decreases roster_len() - k,
{
    if k < roster_len() {
        lemma_items_count(d, k + 1);
    }
}

proof fn lemma_roster_count_push(d: TechView, x: (Seq<char>, Seq<EntryView>), k: int)
    requires
        0 <= k <= roster_len(),
        lookup(d, x.0) is None,
    ensures
        roster_count(d.push(x), k) == roster_count(d, k) + if exists|j: int|
            k <= j < roster_len() && roster_row(j).0 == x.0 {
            x.1.len() as int
        } else {
            0
        },
    decreases roster_len() - k,
{
    lemma_roster_distinct();
    if k < roster_len() {
        lemma_roster_count_push(d, x, k + 1);
        let key = roster_row(k).0;
        lemma_key_pos(d, key, 0);
        lemma_key_pos_push(d, x, key, 0);
        if key == x.0 {
            assert(lookup(d.push(x), key) == Some(x.1));
            assert(!exists|j: int| k + 1 <= j < roster_len() && roster_row(j).0 == x.0) by {
                if exists|j: int| k + 1 <= j < roster_len() && roster_row(j).0 == x.0 {
                    let j = choose|j: int| k + 1 <= j < roster_len() && roster_row(j).0 == x.0;
                    assert(roster_row(k).0 != roster_row(j).0);
                }
            }
        } else {
            assert(lookup(d.push(x), key) == lookup(d, key));
            assert((exists|j: int| k <= j < roster_len() && roster_row(j).0 == x.0) == (exists|
                j: int,
            | k + 1 <= j < roster_len() && roster_row(j).0 == x.0));
        }
    }
}

/// Tech whose keys are roster ids, each once, holds as many entries as its
/// roster characters have.
proof fn lemma_roster_count_total(d: TechView)
    requires
        keys_distinct(d),
        forall|i: int| 0 <= i < d.len() ==> #[trigger] by_id(d[i].0) is Some,
    ensures
        roster_count(d, 0) == total_entries(d),
    decreases d.len(),
{
    if d.len() == 0 {
        lemma_roster_count_empty(d, 0);
    } else {
        let d2 = d.drop_last();
        let x = d.last();
        assert(d2.push(x) =~= d);
        assert forall|i: int, j: int| 0 <= i < j < d2.len() implies (#[trigger] d2[i]).0 != (
        #[trigger] d2[j]).0 by {
            assert(d2[i] == d[i] && d2[j] == d[j]);
        }
        assert forall|i: int| 0 <= i < d2.len() implies #[trigger] by_id(d2[i].0) is Some by {
            assert(d2[i] == d[i]);
        }
        lemma_roster_count_total(d2);
        lemma_key_pos(d2, x.0, 0);
        if key_pos(d2, x.0, 0) < d2.len() {
            let p = key_pos(d2, x.0, 0);
            assert(d[p].0 == d[d.len() - 1].0);
        }
        lemma_roster_count_push(d2, x, 0);
        assert(by_id(d[d.len() - 1].0) is Some);
        lemma_find_id(x.0, 0);
        let j = find_id(x.0, 0);
        assert(roster_row(j).0 == x.0);
    }
}

proof fn lemma_roster_count_empty(d: TechView, k: int)
    requires
        d.len() == 0,
        0 <= k <= roster_len(),
    ensures
        roster_count(d, k) == 0,
    decreases roster_len() - k,
{
    if k < roster_len() {
        lemma_roster_count_empty(d, k + 1);
    }
}

/// Importing what an export wrote adds as many entries as the tech holds,
/// when its keys are roster ids, each once.
pub proof fn lemma_import_of_export_count(d: TechView, now: u64)
    requires
        export_names_lowercase(),
        export_ready(d),
        keys_distinct(d),
    ensures
        import_adds(to_csv_spec(export_spec(d)), now).len() == total_entries(d),
{
    lemma_import_of_export(d, now);
    lemma_items_count(d, 0);
    lemma_roster_count_total(d);
}

proof fn lemma_adds_rival_matchup(o: Seq<RowOutcome>)
    requires
        forall|i: int|
            0 <= i < o.len() ==> (#[trigger] o[i] matches RowOutcome::Add(_, e) ==> (e.rival_id is Some
                ==> e.category == Category::Matchup)),
    ensures
        forall|k: int|
            0 <= k < adds_of(o).len() ==> ((#[trigger] adds_of(o)[k]).1.rival_id is Some
                ==> adds_of(o)[k].1.category == Category::Matchup),
    decreases o.len(),
{
    if o.len() > 0 {
        let o2 = o.drop_last();
        assert forall|i: int| 0 <= i < o2.len() implies (#[trigger] o2[i] matches RowOutcome::Add(
            _,
            e,
        ) ==> (e.rival_id is Some ==> e.category == Category::Matchup)) by {
            assert(o2[i] == o[i]);
        }
        lemma_adds_rival_matchup(o2);
        assert(o.last() == o[o.len() - 1]);
    }
}

/// An import keeps a rival only on a matchup: every entry it adds that
/// names a rival is of category Matchup, whatever the row's rival column
/// says.
pub proof fn lemma_rival_only_on_matchup(text: Seq<char>, now: u64)
    ensures
        forall|k: int|
            0 <= k < import_adds(text, now).len() ==> ((#[trigger] import_adds(text, now)[k]).1.rival_id
                is Some ==> import_adds(text, now)[k].1.category == Category::Matchup),
{
    let rows = parse_csv_spec(text);
    if importable(rows) {
        let o = outcomes(rows, now);
        assert forall|i: int| 0 <= i < o.len() implies (#[trigger] o[i] matches RowOutcome::Add(
            _,
            e,
        ) ==> (e.rival_id is Some ==> e.category == Category::Matchup)) by {}
        lemma_adds_rival_matchup(o);
    }
}

/// Writing a table and reading it back gives the same table, for every table
/// whose rows each have a field that is not blank (a row of blank fields is
/// read as a blank line, and blank lines are not rows). Commas, quotes and
/// line breaks inside fields survive the trip.
pub proof fn lemma_csv_roundtrip(t: Seq<Seq<Seq<char>>>)
    requires
        forall|k: int| 0 <= k < t.len() ==> row_has_content(#[trigger] t[k]),
    ensures
        parse_csv_spec(to_csv_spec(t)) == t,
{
    let s = to_csv_spec(t);
    if t.len() == 0 {
        assert(scan_finish(csv_scan(s, 0, scan_start())) =~= Seq::<Seq<Seq<char>>>::empty());
        lemma_filter_all(Seq::<Seq<Seq<char>>>::empty(), |r: Seq<Seq<char>>| row_has_content(r));
    } else {
        assert forall|k: int| 0 <= k < t.len() implies (#[trigger] t[k]).len() >= 1 by {
            assert(row_has_content(t[k]));
        }
        assert(s.subrange(0, s.len() as int) =~= s);
        lemma_scan_table(s, t);
        let last = t.last();
        assert(row_has_content(t[t.len() - 1]));
        assert(last.len() >= 1);
        if last.len() == 1 {
            let k = choose|k: int| 0 <= k < last.len() && !is_blank(#[trigger] last[k]);
            assert(k == 0);
            assert(last.last().len() > 0);
        }
        assert(last.drop_last().push(last.last()) =~= last);
        assert(t.drop_last().push(last) =~= t);
        assert(scan_finish(csv_scan(s, 0, scan_start())) == t);
        lemma_filter_all(t, |r: Seq<Seq<char>>| row_has_content(r));
    }
}

} // verus!
