//! Tabular import: header normalization, row shaping and the bounds of an
//! import, over delimited text (read here through `csv`) and the rows of a
//! worksheet (opened by the application through `calamine`).
use vstd::prelude::*;

use crate::text::{
    ascii_lower_seq, chars_equal, chars_of, decimal, decimal_string, eq_ignore_ascii_case, push_char,
    str_eq_ignore_ascii_case, trim, trim_str, views,
};

verus! {

// ----------------------------------------------------------------------------
// Outside types
// ----------------------------------------------------------------------------

#[verifier::external_type_specification]
#[verifier::external_body]
pub struct ExIoError(std::io::Error);

#[verifier::external_type_specification]
#[verifier::external_body]
pub struct ExCsvError(csv::Error);

#[verifier::external_type_specification]
#[verifier::external_body]
pub struct ExCalamineError(calamine::Error);

// ----------------------------------------------------------------------------
// Data and errors
// ----------------------------------------------------------------------------

/// Largest import file, in bytes (20 MiB).
pub const MAX_FILE_BYTES: u64 = 20971520;

/// Most data rows in one import.
pub const MAX_ROWS: usize = 10000;

/// Most columns in one import.
pub const MAX_COLUMNS: usize = 100;

/// A header row and the data rows below it, all of the header's width.
#[derive(Clone, Debug, PartialEq, Eq)]
pub struct TabularData {
    pub headers: Vec<String>,
    pub rows: Vec<Vec<String>>,
}

/// Why a file could not be imported.
#[derive(Debug)]
pub enum ImportError {
    Io(std::io::Error),
    Csv(csv::Error),
    Spreadsheet(calamine::Error),
    UnsupportedFormat,
    FileTooLarge,
    Empty,
    TooManyColumns,
    TooManyRows,
}

/// The message shown for a refused import.
pub open spec fn import_error_text(e: &ImportError) -> Seq<char> {
    match e {
        ImportError::Io(_) => "Cannot read the selected file"@,
        ImportError::Csv(_) => "Cannot parse the delimited file"@,
        ImportError::Spreadsheet(_) => "Cannot parse the spreadsheet"@,
        ImportError::UnsupportedFormat => "Use an Excel, OpenDocument, CSV, or TSV file"@,
        ImportError::FileTooLarge => "The import file must be 20 MiB or smaller"@,
        ImportError::Empty => "The import file needs a header row and at least one data row"@,
        ImportError::TooManyColumns => "The import can contain at most 100 columns"@,
        ImportError::TooManyRows => "The import can contain at most 10,000 rows"@,
    }
}

impl ImportError {
    /// The message shown to the user.
    pub fn message(&self) -> (r: &'static str)
        ensures
            r@ == import_error_text(self),
    {
        match self {
            ImportError::Io(_) => "Cannot read the selected file",
            ImportError::Csv(_) => "Cannot parse the delimited file",
            ImportError::Spreadsheet(_) => "Cannot parse the spreadsheet",
            ImportError::UnsupportedFormat => "Use an Excel, OpenDocument, CSV, or TSV file",
            ImportError::FileTooLarge => "The import file must be 20 MiB or smaller",
            ImportError::Empty => "The import file needs a header row and at least one data row",
            ImportError::TooManyColumns => "The import can contain at most 100 columns",
            ImportError::TooManyRows => "The import can contain at most 10,000 rows",
        }
    }
}

/// The views of a list of rows.
pub open spec fn row_views(rows: Seq<Vec<String>>) -> Seq<Seq<Seq<char>>> {
    rows.map_values(|r: Vec<String>| views(r@))
}

/// No two headers are equal ignoring ASCII case.
pub open spec fn distinct_ignoring_case(headers: Seq<Seq<char>>) -> bool {
    forall|i: int, j: int|
        0 <= i < j < headers.len() ==> !eq_ignore_ascii_case(#[trigger] headers[i], #[trigger] headers[j])
}

/// What every successful import satisfies: 1 to 100 distinct headers, 1 to
/// 10,000 rows, every row exactly as wide as the header row.
pub open spec fn tabular_wf(d: TabularData) -> bool {
    &&& 1 <= d.headers@.len() <= 100
    &&& 1 <= d.rows@.len() <= 10000
    &&& forall|i: int| 0 <= i < d.rows@.len() ==> (#[trigger] d.rows@[i])@.len() == d.headers@.len()
    &&& distinct_ignoring_case(views(d.headers@))
}

// ----------------------------------------------------------------------------
// Header normalization
// ----------------------------------------------------------------------------

/// `"Column n"`, the name of an unnamed column.
pub open spec fn column_placeholder(number: nat) -> Seq<char> {
    seq!['C', 'o', 'l', 'u', 'm', 'n', ' '] + decimal(number)
}

/// The base name of the header at `index`: the trimmed text, or
/// `"Column {index + 1}"` when that is empty.
pub open spec fn header_base(index: nat, raw: Seq<char>) -> Seq<char> {
    if trim(raw).len() == 0 {
        column_placeholder(index + 1)
    } else {
        trim(raw)
    }
}

/// The `k`-th name tried for a header: the base, then `"base (2)"`,
/// `"base (3)"`, ...
pub open spec fn header_candidate(base: Seq<char>, k: nat) -> Seq<char> {
    if k == 0 {
        base
    } else {
        base + seq![' ', '('] + decimal(k + 1) + seq![')']
    }
}

/// `name` equals one of `taken` ignoring ASCII case.
pub open spec fn collides(taken: Seq<Seq<char>>, name: Seq<char>) -> bool {
    exists|j: int| 0 <= j < taken.len() && eq_ignore_ascii_case(#[trigger] taken[j], name)
}

/// The first candidate number, from `k` on, whose name does not collide.
pub open spec fn first_free_from(taken: Seq<Seq<char>>, base: Seq<char>, k: nat) -> nat
    decreases taken.len() + 1 - k,
{
    if k > taken.len() || !collides(taken, header_candidate(base, k)) {
        k
    } else {
        first_free_from(taken, base, k + 1)
    }
}

/// The name a header gets after the headers `taken` before it.
pub open spec fn header_name(taken: Seq<Seq<char>>, index: nat, raw: Seq<char>) -> Seq<char> {
    let base = header_base(index, raw);
    header_candidate(base, first_free_from(taken, base, 0))
}

/// The normalized header row: each header trimmed (or named after its
/// column), then numbered `(2)`, `(3)`, ... until it differs, ignoring ASCII
/// case, from every header before it.
pub open spec fn normalized_headers(raw: Seq<Seq<char>>) -> Seq<Seq<char>>
    decreases raw.len(),
{
    if raw.len() == 0 {
        Seq::empty()
    } else {
        let taken = normalized_headers(raw.drop_last());
        taken.push(header_name(taken, (raw.len() - 1) as nat, raw.last()))
    }
}

proof fn lemma_normalized_headers_len(raw: Seq<Seq<char>>)
    ensures
        normalized_headers(raw).len() == raw.len(),
    decreases raw.len(),
{
    if raw.len() > 0 {
        lemma_normalized_headers_len(raw.drop_last());
    }
}

/// Two different candidates for one base never collide with each other.
proof fn lemma_candidates_differ(base: Seq<char>, k1: nat, k2: nat)
    requires
        k1 != k2,
    ensures
        !eq_ignore_ascii_case(header_candidate(base, k1), header_candidate(base, k2)),
{
    let c1 = header_candidate(base, k1);
    let c2 = header_candidate(base, k2);
    if eq_ignore_ascii_case(c1, c2) {
        assert(ascii_lower_seq(c1).len() == ascii_lower_seq(c2).len());
        if k1 == 0 || k2 == 0 {
            crate::text::lemma_decimal_digits(k1 + 1);
            crate::text::lemma_decimal_digits(k2 + 1);
            assert(false);
        } else {
            let d1 = decimal(k1 + 1);
            let d2 = decimal(k2 + 1);
            crate::text::lemma_decimal_digits(k1 + 1);
            crate::text::lemma_decimal_digits(k2 + 1);
            assert(d1.len() == d2.len());
            let start = base.len() + 2;
            assert forall|i: int| 0 <= i < d1.len() implies d1[i] == d2[i] by {
                assert(c1[start + i] == d1[i]);
                assert(c2[start + i] == d2[i]);
                assert(ascii_lower_seq(c1)[start + i] == ascii_lower_seq(c2)[start + i]);
                assert(crate::text::is_ascii_digit(d1[i]));
                assert(crate::text::is_ascii_digit(d2[i]));
            }
            assert(d1 =~= d2);
            crate::text::lemma_decimal_injective(k1 + 1, k2 + 1);
        }
    }
}

/// Among the candidates `0..=taken.len()`, one does not collide.
proof fn lemma_some_candidate_free(taken: Seq<Seq<char>>, base: Seq<char>, k: nat)
    requires
        k >= taken.len(),
    ensures
        exists|i: nat| i <= k && !collides(taken, #[trigger] header_candidate(base, i)),
{
    if forall|i: nat| i <= k ==> collides(taken, #[trigger] header_candidate(base, i)) {
        let dom = vstd::set_lib::set_int_range(0, (k + 1) as int);
        let f = |i: int|
            choose|j: int|
                0 <= j < taken.len() && eq_ignore_ascii_case(
                    #[trigger] taken[j],
                    header_candidate(base, i as nat),
                );
        assert forall|i: int| dom.contains(i) implies 0 <= #[trigger] f(i) < taken.len()
            && eq_ignore_ascii_case(taken[f(i)], header_candidate(base, i as nat)) by {
            assert(collides(taken, header_candidate(base, i as nat)));
        }
        assert(vstd::relations::injective_on(f, dom)) by {
            assert forall|x1: int, x2: int|
                dom.contains(x1) && dom.contains(x2) && #[trigger] f(x1) == #[trigger] f(x2) implies x1
                == x2 by {
                if x1 != x2 {
                    lemma_candidates_differ(base, x1 as nat, x2 as nat);
                    assert(eq_ignore_ascii_case(taken[f(x1)], header_candidate(base, x1 as nat)));
                    assert(eq_ignore_ascii_case(taken[f(x2)], header_candidate(base, x2 as nat)));
                }
            }
        }
        vstd::set_lib::lemma_int_range(0, (k + 1) as int);
        vstd::set_lib::lemma_map_size(dom, dom.map(f), f);
        let range = vstd::set_lib::set_int_range(0, taken.len() as int);
        vstd::set_lib::lemma_int_range(0, taken.len() as int);
        assert(dom.map(f).subset_of(range)) by {
            assert forall|y: int| dom.map(f).contains(y) implies range.contains(y) by {
                let x = choose|x: int| dom.contains(x) && f(x) == y;
            }
        }
        vstd::set_lib::lemma_len_subset(dom.map(f), range);
        assert(false);
    }
}

/// The search from `j` ends at the first free candidate.
proof fn lemma_first_free_is(taken: Seq<Seq<char>>, base: Seq<char>, j: nat, k: nat)
    requires
        j <= k <= taken.len(),
        forall|i: nat| j <= i < k ==> collides(taken, #[trigger] header_candidate(base, i)),
        !collides(taken, header_candidate(base, k)),
    ensures
        first_free_from(taken, base, j) == k,
    decreases k - j,
{
    if j < k {
        lemma_first_free_is(taken, base, j + 1, k);
    }
}

/// Normalized headers are distinct ignoring ASCII case.
pub proof fn lemma_normalized_headers_distinct(raw: Seq<Seq<char>>)
    ensures
        distinct_ignoring_case(normalized_headers(raw)),
        normalized_headers(raw).len() == raw.len(),
    decreases raw.len(),
{
    lemma_normalized_headers_len(raw);
    if raw.len() > 0 {
        let taken = normalized_headers(raw.drop_last());
        lemma_normalized_headers_distinct(raw.drop_last());
        let base = header_base((raw.len() - 1) as nat, raw.last());
        lemma_some_candidate_free(taken, base, taken.len());
        let i = choose|i: nat| i <= taken.len() && !collides(taken, #[trigger] header_candidate(base, i));
        let k = first_free_from(taken, base, 0);
        lemma_first_free_bounded(taken, base, 0, i);
        let name = header_candidate(base, k);
        let all = normalized_headers(raw);
        assert(all == taken.push(name));
        assert forall|a: int, b: int| 0 <= a < b < all.len() implies !eq_ignore_ascii_case(
            #[trigger] all[a],
            #[trigger] all[b],
        ) by {
            if b == all.len() - 1 {
                assert(all[a] == taken[a]);
                assert(all[b] == name);
            } else {
                assert(all[a] == taken[a]);
                assert(all[b] == taken[b]);
            }
        }
    }
}

/// The search finds a free candidate no later than a known free one.
proof fn lemma_first_free_bounded(taken: Seq<Seq<char>>, base: Seq<char>, j: nat, free: nat)
    requires
        j <= free <= taken.len(),
        !collides(taken, header_candidate(base, free)),
    ensures
        first_free_from(taken, base, j) <= free,
        !collides(taken, header_candidate(base, first_free_from(taken, base, j))),
    decreases free - j,
{
    if j < free && collides(taken, header_candidate(base, j)) {
        lemma_first_free_bounded(taken, base, j + 1, free);
    }
}

/// Whether `name` equals one of `taken` ignoring ASCII case.
fn name_taken(taken: &Vec<String>, name: &String) -> (r: bool)
    ensures
        r == collides(views(taken@), name@),
{
    let n = taken.len();
    for j in 0..n
        invariant
            n == taken@.len(),
            forall|i: int| 0 <= i < j ==> !eq_ignore_ascii_case(#[trigger] views(taken@)[i], name@),
    {
        assert(views(taken@)[j as int] == taken@[j as int]@);
        if str_eq_ignore_ascii_case(taken[j].as_str(), name.as_str()) {
            return true;
        }
    }
    false
}

/// `"Column n"`.
fn placeholder_name(number: u64) -> (r: String)
    ensures
        r@ == column_placeholder(number as nat),
{
    let mut s = String::new();
    push_char(&mut s, 'C');
    push_char(&mut s, 'o');
    push_char(&mut s, 'l');
    push_char(&mut s, 'u');
    push_char(&mut s, 'm');
    push_char(&mut s, 'n');
    push_char(&mut s, ' ');
    let digits = decimal_string(number);
    s.append(digits.as_str());
    assert(s@ =~= column_placeholder(number as nat));
    s
}

/// `"base (n)"`.
fn numbered_name(base: &String, number: u64) -> (r: String)
    ensures
        r@ == base@ + seq![' ', '('] + decimal(number as nat) + seq![')'],
{
    let mut s = base.clone();
    push_char(&mut s, ' ');
    push_char(&mut s, '(');
    let digits = decimal_string(number);
    s.append(digits.as_str());
    push_char(&mut s, ')');
    assert(s@ =~= base@ + seq![' ', '('] + decimal(number as nat) + seq![')']);
    s
}

/// Trims the headers, names empty ones after their column, and numbers
/// repeated ones (ignoring ASCII case) `(2)`, `(3)`, ...
pub fn normalize_headers(headers: &Vec<String>) -> (r: Vec<String>)
    ensures
        views(r@) == normalized_headers(views(headers@)),
{
    let mut normalized: Vec<String> = Vec::new();
    let n = headers.len();
    assert(views(headers@).take(0) =~= Seq::<Seq<char>>::empty());
    assert(views(normalized@) =~= Seq::<Seq<char>>::empty());
    for index in 0..n
        invariant
            n == headers@.len(),
            views(normalized@) == normalized_headers(views(headers@).take(index as int)),
    {
        proof {
            lemma_normalized_headers_len(views(headers@).take(index as int));
        }
        let ghost taken = views(normalized@);
        assert(views(headers@)[index as int] == headers@[index as int]@);
        let trimmed = trim_str(headers[index].as_str());
        let base: String = if trimmed.unicode_len() == 0 {
            placeholder_name((index as u64) + 1)
        } else {
            trimmed.to_owned()
        };
        let ghost spec_base = header_base(index as nat, headers@[index as int]@);
        assert(base@ == spec_base);
        let mut k: usize = 0;
        let mut candidate: String = base.clone();
        loop
            invariant
                taken == views(normalized@),
                base@ == spec_base,
                taken.len() == index,
                index < n,
                k <= taken.len(),
                candidate@ == header_candidate(spec_base, k as nat),
                forall|i: nat| i < k ==> collides(taken, #[trigger] header_candidate(spec_base, i)),
            ensures
                k <= taken.len(),
                candidate@ == header_candidate(spec_base, k as nat),
                forall|i: nat| i < k ==> collides(taken, #[trigger] header_candidate(spec_base, i)),
                !collides(taken, header_candidate(spec_base, k as nat)),
            decreases taken.len() - k,
        {
            if !name_taken(&normalized, &candidate) {
                break;
            }
            proof {
                if k == taken.len() {
                    lemma_some_candidate_free(taken, spec_base, k as nat);
                    let i = choose|i: nat| i <= k && !collides(taken, #[trigger] header_candidate(spec_base, i));
                    if i < k {
                    } else {
                    }
                    assert(false);
                }
                assert(k < taken.len());
            }
            assert(k < normalized.len());
            k = k + 1;
            candidate = numbered_name(&base, (k as u64) + 1);
        }
        proof {
            lemma_first_free_is(taken, spec_base, 0, k as nat);
            assert(views(headers@).take(index + 1).drop_last() =~= views(headers@).take(index as int));
            assert(views(headers@).take(index + 1).last() == headers@[index as int]@);
        }
        let ghost before = views(normalized@);
        normalized.push(candidate);
        assert(views(normalized@) =~= before.push(candidate@));
    }
    assert(views(headers@).take(n as int) =~= views(headers@));
    normalized
}

} // verus!

verus! {

// ----------------------------------------------------------------------------
// Row shape and bounds
// ----------------------------------------------------------------------------

/// A row cut or padded with empty values to exactly `width` values.
pub open spec fn padded(row: Seq<Seq<char>>, width: nat) -> Seq<Seq<char>> {
    Seq::new(width, |i: int| if i < row.len() { row[i] } else { Seq::<char>::empty() })
}

/// Cuts a row to `width` values, or pads it with empty values.
pub fn pad_row(row: Vec<String>, width: usize) -> (r: Vec<String>)
    ensures
        views(r@) == padded(views(row@), width as nat),
{
    let mut out: Vec<String> = Vec::new();
    for i in 0..width
        invariant
            views(out@) == padded(views(row@), width as nat).take(i as int),
    {
        let ghost before = views(out@);
        if i < row.len() {
            out.push(row[i].clone());
            assert(views(row@)[i as int] == row@[i as int]@);
            assert(padded(views(row@), width as nat)[i as int] == row@[i as int]@);
        } else {
            out.push(String::new());
            assert(padded(views(row@), width as nat)[i as int] == Seq::<char>::empty());
        }
        assert(views(out@) =~= before.push(out@[i as int]@));
        assert(views(out@) =~= padded(views(row@), width as nat).take(i + 1));
    }
    assert(padded(views(row@), width as nat).take(width as int) =~= padded(
        views(row@),
        width as nat,
    ));
    out
}

/// The header row must have 1 to 100 columns.
pub fn validate_column_count(columns: usize) -> (r: Result<(), ImportError>)
    ensures
        columns == 0 ==> r matches Err(ImportError::Empty),
        columns > 100 ==> r matches Err(ImportError::TooManyColumns),
        1 <= columns <= 100 ==> r is Ok,
{
    if columns == 0 {
        return Err(ImportError::Empty);
    }
    if columns > MAX_COLUMNS {
        return Err(ImportError::TooManyColumns);
    }
    Ok(())
}

/// Pairs the headers with the rows; an import needs at least one row.
pub fn finish(headers: Vec<String>, rows: Vec<Vec<String>>) -> (r: Result<TabularData, ImportError>)
    ensures
        rows@.len() == 0 ==> r matches Err(ImportError::Empty),
        rows@.len() > 0 ==> (r matches Ok(d) && d.headers == headers && d.rows == rows),
{
    if rows.len() == 0 {
        return Err(ImportError::Empty);
    }
    Ok(TabularData { headers, rows })
}

// ----------------------------------------------------------------------------
// File formats
// ----------------------------------------------------------------------------

/// How an import file is read.
#[derive(Clone, Copy, Debug, PartialEq, Eq, Structural)]
pub enum TabularFormat {
    /// Delimited text with the given separator byte.
    Delimited(u8),
    /// An Excel or OpenDocument workbook.
    Spreadsheet,
}

/// The format of a file: too large files are refused first, then the
/// extension (ASCII case ignored) decides: `csv`, `tsv`, or `xlsx`, `xls`,
/// `xlsb`, `ods`.
pub open spec fn format_for(file_len: u64, extension: Option<Seq<char>>) -> Option<TabularFormat> {
    if file_len > 20971520 {
        None
    } else {
        match extension {
            None => None,
            Some(e) => {
                let x = ascii_lower_seq(e);
                if x == "csv"@ {
                    Some(TabularFormat::Delimited(44))
                } else if x == "tsv"@ {
                    Some(TabularFormat::Delimited(9))
                } else if x == "xlsx"@ || x == "xls"@ || x == "xlsb"@ || x == "ods"@ {
                    Some(TabularFormat::Spreadsheet)
                } else {
                    None
                }
            },
        }
    }
}

/// The view of an optional extension.
pub open spec fn extension_view(extension: Option<&str>) -> Option<Seq<char>> {
    match extension {
        Some(e) => Some(e@),
        None => None,
    }
}

/// Whether the lowercased extension is the given name.
fn extension_is(lowered: &Vec<char>, name: &str) -> (r: bool)
    ensures
        r == (lowered@ == name@),
{
    let expected = chars_of(name);
    chars_equal(lowered, &expected)
}

/// Decides how to read a file from its size and extension.
pub fn import_format(file_len: u64, extension: Option<&str>) -> (r: Result<TabularFormat, ImportError>)
    ensures
        file_len > MAX_FILE_BYTES ==> r matches Err(ImportError::FileTooLarge),
        file_len <= MAX_FILE_BYTES && format_for(file_len, extension_view(extension)) is None
            ==> r matches Err(ImportError::UnsupportedFormat),
        r is Ok ==> Some(r->Ok_0) == format_for(file_len, extension_view(extension)),
        format_for(file_len, extension_view(extension)) is Some ==> r is Ok,
{
    if file_len > MAX_FILE_BYTES {
        return Err(ImportError::FileTooLarge);
    }
    let ext = match extension {
        Some(e) => e,
        None => return Err(ImportError::UnsupportedFormat),
    };
    let lowered = crate::text::ascii_lowered(ext);
    if extension_is(&lowered, "csv") {
        Ok(TabularFormat::Delimited(44u8))
    } else if extension_is(&lowered, "tsv") {
        Ok(TabularFormat::Delimited(9u8))
    } else if extension_is(&lowered, "xlsx") || extension_is(&lowered, "xls") || extension_is(
        &lowered,
        "xlsb",
    ) || extension_is(&lowered, "ods") {
        Ok(TabularFormat::Spreadsheet)
    } else {
        Err(ImportError::UnsupportedFormat)
    }
}

// ----------------------------------------------------------------------------
// Spreadsheet rows
// ----------------------------------------------------------------------------

/// Some value of the row is not blank after trimming.
pub open spec fn has_content(row: Seq<Seq<char>>) -> bool {
    exists|i: int| 0 <= i < row.len() && trim(#[trigger] row[i]).len() > 0
}

/// One worksheet row below the header: refused once 10,000 rows are kept,
/// otherwise padded to the header width and kept unless blank.
pub open spec fn sheet_row_step(
    acc: Result<Seq<Seq<Seq<char>>>, ImportError>,
    row: Seq<Seq<char>>,
    width: nat,
) -> Result<Seq<Seq<Seq<char>>>, ImportError> {
    match acc {
        Err(e) => Err(e),
        Ok(rows) => if rows.len() == 10000 {
            Err(ImportError::TooManyRows)
        } else if has_content(padded(row, width)) {
            Ok(rows.push(padded(row, width)))
        } else {
            Ok(rows)
        },
    }
}

/// The data rows of a worksheet, given the header width.
pub open spec fn sheet_rows(rows: Seq<Seq<Seq<char>>>, width: nat) -> Result<Seq<Seq<Seq<char>>>, ImportError> {
    rows.fold_left(
        Ok(Seq::<Seq<Seq<char>>>::empty()),
        |acc: Result<Seq<Seq<Seq<char>>>, ImportError>, row: Seq<Seq<char>>|
            sheet_row_step(acc, row, width),
    )
}

/// The table read from a worksheet's rows: the first row gives the
/// headers, the rest the data.
pub open spec fn sheet_table(sheet: Seq<Seq<Seq<char>>>) -> Result<
    (Seq<Seq<char>>, Seq<Seq<Seq<char>>>),
    ImportError,
> {
    if sheet.len() == 0 {
        Err(ImportError::Empty)
    } else {
        let headers = normalized_headers(sheet[0]);
        if headers.len() == 0 {
            Err(ImportError::Empty)
        } else if headers.len() > 100 {
            Err(ImportError::TooManyColumns)
        } else {
            match sheet_rows(sheet.drop_first(), headers.len()) {
                Err(e) => Err(e),
                Ok(rows) => if rows.len() == 0 {
                    Err(ImportError::Empty)
                } else {
                    Ok((headers, rows))
                },
            }
        }
    }
}

proof fn lemma_sheet_row_step_keeps_errors(width: nat)
    ensures
        crate::folds::keeps_errors(
            |acc: Result<Seq<Seq<Seq<char>>>, ImportError>, row: Seq<Seq<char>>|
                sheet_row_step(acc, row, width),
        ),
{
}

/// Whether some value of a row is not blank.
fn row_has_content(row: &Vec<String>) -> (r: bool)
    ensures
        r == has_content(views(row@)),
{
    let n = row.len();
    for i in 0..n
        invariant
            n == row@.len(),
            forall|j: int| 0 <= j < i ==> trim(#[trigger] views(row@)[j]).len() == 0,
    {
        assert(views(row@)[i as int] == row@[i as int]@);
        if trim_str(row[i].as_str()).unicode_len() > 0 {
            return true;
        }
    }
    false
}

/// Copies a row of strings.
fn copy_row(row: &Vec<String>) -> (r: Vec<String>)
    ensures
        r@ == row@,
{
    let mut out: Vec<String> = Vec::new();
    let n = row.len();
    for i in 0..n
        invariant
            n == row@.len(),
            out@ == row@.take(i as int),
    {
        out.push(row[i].clone());
        assert(out@ =~= row@.take(i + 1));
    }
    assert(row@.take(n as int) =~= row@);
    out
}

/// Builds the table of a worksheet from its rows of cell texts.
pub fn tabular_from_sheet(sheet: &Vec<Vec<String>>) -> (r: Result<TabularData, ImportError>)
    ensures
        match r {
            Ok(d) => (sheet_table(row_views(sheet@)) matches Ok((h, rows)) && h == views(d.headers@)
                && rows == row_views(d.rows@)),
            Err(e) => (sheet_table(row_views(sheet@)) matches Err(e2) && e2 == e),
        },
        r matches Ok(d) ==> tabular_wf(d),
{
    proof {
        lemma_sheet_table_wf(row_views(sheet@));
    }
    if sheet.len() == 0 {
        return Err(ImportError::Empty);
    }
    assert(row_views(sheet@)[0] == views(sheet@[0]@));
    let headers = normalize_headers(&sheet[0]);
    proof {
        lemma_normalized_headers_len(views(sheet@[0]@));
    }
    match validate_column_count(headers.len()) {
        Ok(()) => {},
        Err(e) => return Err(e),
    }
    let width = headers.len();
    assert(views(headers@) == normalized_headers(row_views(sheet@)[0]));
    let ghost data = row_views(sheet@).drop_first();
    let ghost f = |acc: Result<Seq<Seq<Seq<char>>>, ImportError>, row: Seq<Seq<char>>|
        sheet_row_step(acc, row, width as nat);
    let ghost init = Ok::<Seq<Seq<Seq<char>>>, ImportError>(Seq::empty());
    let mut rows: Vec<Vec<String>> = Vec::new();
    let n = sheet.len();
    assert(data.take(0) =~= Seq::<Seq<Seq<char>>>::empty());
    assert(row_views(rows@) =~= Seq::<Seq<Seq<char>>>::empty());
    for i in 1..n
        invariant
            n == sheet@.len(),
            n >= 1,
            width == headers@.len(),
            1 <= width <= 100,
            views(headers@) == normalized_headers(row_views(sheet@)[0]),
            data == row_views(sheet@).drop_first(),
            f == (|acc: Result<Seq<Seq<Seq<char>>>, ImportError>, row: Seq<Seq<char>>|
                sheet_row_step(acc, row, width as nat)),
            init == Ok::<Seq<Seq<Seq<char>>>, ImportError>(Seq::empty()),
            data.take(i - 1).fold_left(init, f) == Ok::<Seq<Seq<Seq<char>>>, ImportError>(
                row_views(rows@),
            ),
    {
        proof {
            crate::folds::lemma_fold_take_step(data, init, f, i - 1);
        }
        assert(data[i - 1] == views(sheet@[i as int]@));
        if rows.len() == MAX_ROWS {
            proof {
                lemma_sheet_row_step_keeps_errors(width as nat);
                crate::folds::lemma_fold_error_sticks(data, init, f, i as int);
                assert(views(headers@) == normalized_headers(row_views(sheet@)[0]));
                assert(sheet_rows(data, width as nat) == data.fold_left(init, f));
                assert(sheet_rows(data, width as nat) == Err::<Seq<Seq<Seq<char>>>, ImportError>(ImportError::TooManyRows));
            }
            return Err(ImportError::TooManyRows);
        }
        let values = pad_row(copy_row(&sheet[i]), width);
        if row_has_content(&values) {
            let ghost before = row_views(rows@);
            rows.push(values);
            assert(row_views(rows@) =~= before.push(views(values@)));
        }
    }
    proof {
        if n >= 1 {
            assert(data.take(n - 1) =~= data);
        }
    }
    let ghost final_rows = row_views(rows@);
    let ghost final_headers = views(headers@);
    match finish(headers, rows) {
        Ok(d) => {
            assert(views(d.headers@) == final_headers);
            assert forall|i: int| 0 <= i < d.rows@.len() implies (#[trigger] d.rows@[i])@.len()
                == d.headers@.len() by {
                assert(row_views(d.rows@)[i] == views(d.rows@[i]@));
            }
            Ok(d)
        },
        Err(e) => Err(e),
    }
}

} // verus!

verus! {

/// The rows a worksheet yields are at most 10,000, each of the given width.
proof fn lemma_sheet_rows_shape(rows: Seq<Seq<Seq<char>>>, width: nat)
    ensures
        sheet_rows(rows, width) matches Ok(out) ==> {
            &&& out.len() <= 10000
            &&& forall|i: int| 0 <= i < out.len() ==> (#[trigger] out[i]).len() == width
        },
    decreases rows.len(),
{
    if rows.len() > 0 {
        lemma_sheet_rows_shape(rows.drop_last(), width);
    }
}

/// A table read from a worksheet is well formed.
pub proof fn lemma_sheet_table_wf(sheet: Seq<Seq<Seq<char>>>)
    ensures
        sheet_table(sheet) matches Ok((h, rows)) ==> {
            &&& 1 <= h.len() <= 100
            &&& 1 <= rows.len() <= 10000
            &&& forall|i: int| 0 <= i < rows.len() ==> (#[trigger] rows[i]).len() == h.len()
            &&& distinct_ignoring_case(h)
        },
{
    if sheet.len() > 0 {
        lemma_normalized_headers_distinct(sheet[0]);
        lemma_sheet_rows_shape(sheet.drop_first(), normalized_headers(sheet[0]).len());
    }
}

// ----------------------------------------------------------------------------
// Reading delimited text
// ----------------------------------------------------------------------------

/// The fields of the first record that `csv` reads from `bytes` with the
/// given delimiter, rows of any width allowed; `None` when `csv` reports an
/// error for it.
pub uninterp spec fn csv_header_fields(bytes: Seq<u8>, delimiter: u8) -> Option<Seq<Seq<char>>>;

/// The records that `csv` reads after the first one, up to its first error,
/// and whether an error ended them.
pub uninterp spec fn csv_data_records(bytes: Seq<u8>, delimiter: u8) -> (Seq<Seq<Seq<char>>>, bool);

/// Builds a reader with `csv::ReaderBuilder` (the delimiter set, `flexible`
/// on) and calls `csv::Reader::headers`, which reads the first record. The
/// contract claims that the fields, or the failure, are those that
/// `csv_header_fields` names for the bytes and the delimiter.
#[verifier::external_body]
fn csv_header_row(bytes: &[u8], delimiter: u8) -> (r: Result<Vec<String>, csv::Error>)
    ensures
        match csv_header_fields(bytes@, delimiter) {
            Some(fields) => r is Ok && views(r->Ok_0@) == fields,
            None => r is Err,
        },
{
    let mut reader = csv::ReaderBuilder::new().delimiter(delimiter).flexible(true).from_reader(bytes);
    match reader.headers() {
        Ok(record) => Ok(record.iter().map(|value| value.to_owned()).collect()),
        Err(error) => Err(error),
    }
}

/// Builds a reader with `csv::ReaderBuilder` (the delimiter set, `flexible`
/// on) and walks `csv::Reader::records`, which yields the records after the
/// first one, stopping at the first error. The contract claims that the
/// records and whether an error came are those that `csv_data_records`
/// names for the bytes and the delimiter.
#[verifier::external_body]
fn csv_data_rows(bytes: &[u8], delimiter: u8) -> (r: (Vec<Vec<String>>, Option<csv::Error>))
    ensures
        row_views(r.0@) == csv_data_records(bytes@, delimiter).0,
        r.1.is_some() == csv_data_records(bytes@, delimiter).1,
{
    let mut reader = csv::ReaderBuilder::new().delimiter(delimiter).flexible(true).from_reader(bytes);
    let mut rows = Vec::new();
    for result in reader.records() {
        match result {
            Ok(record) => rows.push(record.iter().map(|value| value.to_owned()).collect()),
            Err(error) => return (rows, Some(error)),
        }
    }
    (rows, None)
}

/// The table read from delimited text, given its first record and the
/// records after it: every record is cut or padded to the header width.
pub open spec fn delimited_table_of(raw: Seq<Seq<char>>, records: Seq<Seq<Seq<char>>>) -> Result<
    (Seq<Seq<char>>, Seq<Seq<Seq<char>>>),
    ImportError,
> {
    let headers = normalized_headers(raw);
    if headers.len() == 0 {
        Err(ImportError::Empty)
    } else if headers.len() > 100 {
        Err(ImportError::TooManyColumns)
    } else if records.len() > 10000 {
        Err(ImportError::TooManyRows)
    } else if records.len() == 0 {
        Err(ImportError::Empty)
    } else {
        Ok((headers, records.map_values(|row: Seq<Seq<char>>| padded(row, headers.len()))))
    }
}

/// Builds the table of delimited text from its first record and the
/// records read after it.
pub fn delimited_table(raw: &Vec<String>, records: &Vec<Vec<String>>) -> (r: Result<TabularData, ImportError>)
    ensures
        match r {
            Ok(d) => (delimited_table_of(views(raw@), row_views(records@)) matches Ok((h, rows))
                && h == views(d.headers@) && rows == row_views(d.rows@)),
            Err(e) => (delimited_table_of(views(raw@), row_views(records@)) matches Err(e2) && e2
                == e),
        },
{
    let headers = normalize_headers(raw);
    proof {
        lemma_normalized_headers_len(views(raw@));
    }
    match validate_column_count(headers.len()) {
        Ok(()) => {},
        Err(e) => return Err(e),
    }
    if records.len() > MAX_ROWS {
        return Err(ImportError::TooManyRows);
    }
    let width = headers.len();
    let ghost header_views = views(headers@);
    let ghost target = row_views(records@).map_values(|row: Seq<Seq<char>>| padded(row, width as nat));
    let mut rows: Vec<Vec<String>> = Vec::new();
    let n = records.len();
    for i in 0..n
        invariant
            n == records@.len(),
            width == headers@.len(),
            target == row_views(records@).map_values(|row: Seq<Seq<char>>| padded(row, width as nat)),
            row_views(rows@) == target.take(i as int),
    {
        let copied = copy_row(&records[i]);
        let padded_row = pad_row(copied, width);
        assert(row_views(records@)[i as int] == views(records@[i as int]@));
        assert(views(padded_row@) == target[i as int]);
        let ghost before = row_views(rows@);
        rows.push(padded_row);
        assert(row_views(rows@) =~= before.push(views(padded_row@)));
        assert(row_views(rows@) =~= target.take(i + 1));
    }
    assert(target.take(n as int) =~= target);
    match finish(headers, rows) {
        Ok(d) => {
            assert(views(d.headers@) == header_views);
            Ok(d)
        },
        Err(e) => Err(e),
    }
}

/// What reading delimited text gives: a `csv` error in the first record, a
/// header row of no or more than 100 columns, more than 10,000 records, a
/// `csv` error in a later record, or the table of the records.
pub open spec fn delimited_outcome(bytes: Seq<u8>, delimiter: u8, r: Result<TabularData, ImportError>) -> bool {
    match csv_header_fields(bytes, delimiter) {
        None => r matches Err(ImportError::Csv(_)),
        Some(raw) => {
            let headers = normalized_headers(raw);
            let (records, failed) = csv_data_records(bytes, delimiter);
            if headers.len() == 0 {
                r matches Err(ImportError::Empty)
            } else if headers.len() > 100 {
                r matches Err(ImportError::TooManyColumns)
            } else if records.len() > 10000 || (records.len() == 10000 && failed) {
                r matches Err(ImportError::TooManyRows)
            } else if failed {
                r matches Err(ImportError::Csv(_))
            } else {
                match r {
                    Ok(d) => (delimited_table_of(raw, records) matches Ok((h, rows)) && h == views(
                        d.headers@,
                    ) && rows == row_views(d.rows@)),
                    Err(e) => (delimited_table_of(raw, records) matches Err(e2) && e2 == e),
                }
            }
        },
    }
}

/// Reads delimited text: the first record gives the headers, every further
/// record is cut or padded to the header width. More than 10,000 records,
/// a header row of no or more than 100 columns, or no record after it are
/// refused.
pub fn read_delimited(bytes: &[u8], delimiter: u8) -> (r: Result<TabularData, ImportError>)
    ensures
        delimited_outcome(bytes@, delimiter, r),
        r matches Ok(d) ==> tabular_wf(d),
{
    let raw = match csv_header_row(bytes, delimiter) {
        Ok(h) => h,
        Err(e) => return Err(ImportError::Csv(e)),
    };
    proof {
        lemma_normalized_headers_len(views(raw@));
        lemma_normalized_headers_distinct(views(raw@));
    }
    match validate_column_count(normalize_headers(&raw).len()) {
        Ok(()) => {},
        Err(e) => return Err(e),
    }
    let (records, failure) = csv_data_rows(bytes, delimiter);
    if records.len() > MAX_ROWS || (records.len() == MAX_ROWS && failure.is_some()) {
        return Err(ImportError::TooManyRows);
    }
    match failure {
        Some(e) => return Err(ImportError::Csv(e)),
        None => {},
    }
    let r = delimited_table(&raw, &records);
    proof {
        if r is Ok {
            let d = r->Ok_0;
            let h = normalized_headers(views(raw@));
            let rows = row_views(records@).map_values(|row: Seq<Seq<char>>| padded(row, h.len()));
            assert(views(d.headers@) == h);
            assert(row_views(d.rows@) == rows);
            assert(d.rows@.len() == rows.len());
            assert forall|i: int| 0 <= i < d.rows@.len() implies (#[trigger] d.rows@[i])@.len()
                == d.headers@.len() by {
                assert(row_views(d.rows@)[i] == views(d.rows@[i]@));
                assert(rows[i].len() == h.len());
            }
        }
    }
    r
}

} // verus!

verus! {

// ----------------------------------------------------------------------------
// Laws of the file formats
// ----------------------------------------------------------------------------

/// Files over 20 MiB are refused whatever their extension; a file without
/// an extension is refused too.
pub proof fn lemma_format_limits(file_len: u64, extension: Option<Seq<char>>)
    ensures
        file_len > 20971520 ==> format_for(file_len, extension) is None,
        format_for(file_len, None) is None,
{
}

/// Up to 20 MiB, `csv` and `tsv` (ASCII case ignored) are read as text
/// separated by commas and tabs, and `xlsx`, `xls`, `xlsb` and `ods` as
/// workbooks; every other extension is refused.
pub proof fn lemma_format_extensions(file_len: u64, extension: Seq<char>)
    requires
        file_len <= 20971520,
    ensures
        ({
            let x = ascii_lower_seq(extension);
            let f = format_for(file_len, Some(extension));
            &&& x == seq!['c', 's', 'v'] ==> f == Some(TabularFormat::Delimited(44))
            &&& x == seq!['t', 's', 'v'] ==> f == Some(TabularFormat::Delimited(9))
            &&& x == seq!['x', 'l', 's', 'x'] ==> f == Some(TabularFormat::Spreadsheet)
            &&& x == seq!['x', 'l', 's'] ==> f == Some(TabularFormat::Spreadsheet)
            &&& x == seq!['x', 'l', 's', 'b'] ==> f == Some(TabularFormat::Spreadsheet)
            &&& x == seq!['o', 'd', 's'] ==> f == Some(TabularFormat::Spreadsheet)
            &&& x != seq!['c', 's', 'v'] && x != seq!['t', 's', 'v'] && x != seq!['x', 'l', 's', 'x']
                && x != seq!['x', 'l', 's'] && x != seq!['x', 'l', 's', 'b'] && x != seq!['o', 'd', 's']
                ==> f is None
        }),
{
    reveal_strlit("csv");
    reveal_strlit("tsv");
    reveal_strlit("xlsx");
    reveal_strlit("xls");
    reveal_strlit("xlsb");
    reveal_strlit("ods");
    assert("csv"@ =~= seq!['c', 's', 'v']);
    assert("tsv"@ =~= seq!['t', 's', 'v']);
    assert("xlsx"@ =~= seq!['x', 'l', 's', 'x']);
    assert("xls"@ =~= seq!['x', 'l', 's']);
    assert("xlsb"@ =~= seq!['x', 'l', 's', 'b']);
    assert("ods"@ =~= seq!['o', 'd', 's']);
}

} // verus!
