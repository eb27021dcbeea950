use calamine::Reader;
use itgla::import_data::{
    delimited_table, finish, import_format, normalize_headers, pad_row, read_delimited, tabular_from_sheet,
    validate_column_count, ImportError, TabularFormat,
};

fn strings(values: &[&str]) -> Vec<String> {
    values.iter().map(|v| (*v).to_string()).collect()
}

#[test]
fn reads_csv_and_normalizes_duplicate_headers() {
    let bytes = b"IP,Ports,IP,\n203.0.113.10,443,primary,owner\n".to_vec();
    let format = import_format(bytes.len() as u64, Some("csv")).unwrap();
    assert_eq!(format, TabularFormat::Delimited(b','));
    let data = read_delimited(&bytes, b',').unwrap();
    assert_eq!(data.headers, ["IP", "Ports", "IP (2)", "Column 4"]);
    assert_eq!(data.rows[0][1], "443");
}

#[test]
fn reads_tab_separated_rows() {
    let bytes = b"Tags\tIP\tPorts\napi\t2001:db8::1\t22,443\n".to_vec();
    let format = import_format(bytes.len() as u64, Some("TSV")).unwrap();
    assert_eq!(format, TabularFormat::Delimited(b'\t'));
    let data = read_delimited(&bytes, b'\t').unwrap();
    assert_eq!(data.rows[0], ["api", "2001:db8::1", "22,443"]);
}

#[test]
fn delimited_rows_are_padded_and_cut() {
    let bytes = b"a,b\n1\n1,2,3\n".to_vec();
    let data = read_delimited(&bytes, b',').unwrap();
    assert_eq!(data.rows, vec![strings(&["1", ""]), strings(&["1", "2"])]);
}

#[test]
fn delimited_imports_need_a_data_row() {
    let only_header = b"a,b\n".to_vec();
    assert!(matches!(
        read_delimited(&only_header, b','),
        Err(ImportError::Empty)
    ));
    assert!(matches!(
        read_delimited(&Vec::new(), b','),
        Err(ImportError::Empty)
    ));
}

#[test]
fn delimited_imports_are_bounded() {
    let mut text = String::from("h\n");
    for i in 0..10_001 {
        text.push_str(&format!("{i}\n"));
    }
    assert!(matches!(
        read_delimited(&text.into_bytes(), b','),
        Err(ImportError::TooManyRows)
    ));
    let wide = (0..101).map(|i| format!("c{i}")).collect::<Vec<_>>().join(",") + "\nx\n";
    assert!(matches!(
        read_delimited(&wide.into_bytes(), b','),
        Err(ImportError::TooManyColumns)
    ));
}

#[test]
fn headers_are_trimmed_named_and_numbered() {
    assert_eq!(
        normalize_headers(&strings(&[" Name ", "", "name", "NAME", "Name (2)", "  "])),
        strings(&["Name", "Column 2", "name (2)", "NAME (3)", "Name (2) (2)", "Column 6"])
    );
    assert!(normalize_headers(&Vec::new()).is_empty());
}

#[test]
fn rows_are_fitted_to_the_header_width() {
    assert_eq!(pad_row(strings(&["a"]), 3), strings(&["a", "", ""]));
    assert_eq!(pad_row(strings(&["a", "b", "c"]), 2), strings(&["a", "b"]));
    assert!(pad_row(strings(&["a"]), 0).is_empty());
}

#[test]
fn column_counts_and_rows_are_checked() {
    assert!(matches!(validate_column_count(0), Err(ImportError::Empty)));
    assert!(matches!(validate_column_count(101), Err(ImportError::TooManyColumns)));
    assert!(validate_column_count(100).is_ok());
    assert!(matches!(finish(strings(&["a"]), Vec::new()), Err(ImportError::Empty)));
    let data = finish(strings(&["a"]), vec![strings(&["1"])]).unwrap();
    assert_eq!(data.headers, ["a"]);
}

#[test]
fn worksheet_rows_skip_blank_lines() {
    let sheet = vec![
        strings(&["Tags", "IP"]),
        strings(&["web", "10.0.0.1", "extra"]),
        strings(&["  ", ""]),
        strings(&["db"]),
    ];
    let data = tabular_from_sheet(&sheet).unwrap();
    assert_eq!(data.headers, ["Tags", "IP"]);
    assert_eq!(data.rows, vec![strings(&["web", "10.0.0.1"]), strings(&["db", ""])]);
    assert!(matches!(tabular_from_sheet(&Vec::new()), Err(ImportError::Empty)));
    assert!(matches!(tabular_from_sheet(&vec![strings(&["a"]), strings(&[" "])]), Err(ImportError::Empty)));
}

#[test]
fn file_formats_follow_size_and_extension() {
    assert!(matches!(import_format(10, Some("CSV")), Ok(TabularFormat::Delimited(b','))));
    assert!(matches!(import_format(10, Some("tsv")), Ok(TabularFormat::Delimited(b'\t'))));
    assert!(matches!(import_format(10, Some("Xlsx")), Ok(TabularFormat::Spreadsheet)));
    assert!(matches!(import_format(10, Some("ods")), Ok(TabularFormat::Spreadsheet)));
    assert!(matches!(import_format(10, Some("txt")), Err(ImportError::UnsupportedFormat)));
    assert!(matches!(import_format(10, None), Err(ImportError::UnsupportedFormat)));
    assert!(matches!(import_format(20 * 1024 * 1024 + 1, Some("csv")), Err(ImportError::FileTooLarge)));
    assert!(import_format(20 * 1024 * 1024, Some("csv")).is_ok());
}

#[test]
fn import_errors_have_messages() {
    assert_eq!(ImportError::TooManyRows.message(), "The import can contain at most 10,000 rows");
    assert_eq!(ImportError::FileTooLarge.message(), "The import file must be 20 MiB or smaller");
}

#[test]
fn delimited_records_are_fitted_to_the_header_row() {
    let raw = strings(&["IP", " ports ", "ip", ""]);
    let records = vec![strings(&["10.0.0.1", "22", "x", "y", "extra"]), strings(&["10.0.0.2"])];
    let data = delimited_table(&raw, &records).unwrap();
    assert_eq!(data.headers, strings(&["IP", "ports", "ip (2)", "Column 4"]));
    assert_eq!(data.rows[0], strings(&["10.0.0.1", "22", "x", "y"]));
    assert_eq!(data.rows[1], strings(&["10.0.0.2", "", "", ""]));
}

#[test]
fn delimited_tables_need_rows_and_bounded_columns() {
    assert!(matches!(delimited_table(&strings(&["a"]), &Vec::new()), Err(ImportError::Empty)));
    assert!(matches!(delimited_table(&Vec::new(), &vec![strings(&["x"])]), Err(ImportError::Empty)));
    let wide: Vec<String> = (0..101).map(|i| format!("c{i}")).collect();
    assert!(matches!(
        delimited_table(&wide, &vec![strings(&["x"])]),
        Err(ImportError::TooManyColumns)
    ));
    let many = vec![strings(&["x"]); 10_001];
    assert!(matches!(delimited_table(&strings(&["a"]), &many), Err(ImportError::TooManyRows)));
    let most = vec![strings(&["x"]); 10_000];
    assert_eq!(delimited_table(&strings(&["a"]), &most).unwrap().rows.len(), 10_000);
}

fn crc32(data: &[u8]) -> u32 {
    let mut crc = 0xFFFF_FFFFu32;
    for &byte in data {
        crc ^= u32::from(byte);
        for _ in 0..8 {
            let mask = (crc & 1).wrapping_neg();
            crc = (crc >> 1) ^ (0xEDB8_8320 & mask);
        }
    }
    !crc
}

/// A zip archive whose entries are stored without compression.
fn stored_zip(files: &[(&str, &str)]) -> Vec<u8> {
    let mut out: Vec<u8> = Vec::new();
    let mut central: Vec<u8> = Vec::new();
    for (name, body) in files {
        let offset = out.len() as u32;
        let data = body.as_bytes();
        let crc = crc32(data);
        let size = data.len() as u32;
        let name_len = name.len() as u16;
        out.extend_from_slice(&0x0403_4b50u32.to_le_bytes());
        for field in [20u16, 0, 0, 0, 0x21] {
            out.extend_from_slice(&field.to_le_bytes());
        }
        for field in [crc, size, size] {
            out.extend_from_slice(&field.to_le_bytes());
        }
        out.extend_from_slice(&name_len.to_le_bytes());
        out.extend_from_slice(&0u16.to_le_bytes());
        out.extend_from_slice(name.as_bytes());
        out.extend_from_slice(data);

        central.extend_from_slice(&0x0201_4b50u32.to_le_bytes());
        for field in [20u16, 20, 0, 0, 0, 0x21] {
            central.extend_from_slice(&field.to_le_bytes());
        }
        for field in [crc, size, size] {
            central.extend_from_slice(&field.to_le_bytes());
        }
        for field in [name_len, 0, 0, 0, 0] {
            central.extend_from_slice(&field.to_le_bytes());
        }
        central.extend_from_slice(&0u32.to_le_bytes());
        central.extend_from_slice(&offset.to_le_bytes());
        central.extend_from_slice(name.as_bytes());
    }
    let central_offset = out.len() as u32;
    let central_size = central.len() as u32;
    let count = files.len() as u16;
    out.extend_from_slice(&central);
    out.extend_from_slice(&0x0605_4b50u32.to_le_bytes());
    for field in [0u16, 0, count, count] {
        out.extend_from_slice(&field.to_le_bytes());
    }
    out.extend_from_slice(&central_size.to_le_bytes());
    out.extend_from_slice(&central_offset.to_le_bytes());
    out.extend_from_slice(&0u16.to_le_bytes());
    out
}

fn inline_cell(reference: &str, text: &str) -> String {
    format!("<c r=\"{reference}\" t=\"inlineStr\"><is><t>{text}</t></is></c>")
}

#[test]
fn first_worksheet_of_a_workbook_is_read() {
    let relationships = "http://schemas.openxmlformats.org/officeDocument/2006/relationships";
    let package_rels = format!(
        "<?xml version=\"1.0\" encoding=\"UTF-8\"?><Relationships xmlns=\"http://schemas.openxmlformats.org/package/2006/relationships\"><Relationship Id=\"rId1\" Type=\"{relationships}/officeDocument\" Target=\"xl/workbook.xml\"/></Relationships>"
    );
    let workbook = format!(
        "<?xml version=\"1.0\" encoding=\"UTF-8\"?><workbook xmlns=\"http://schemas.openxmlformats.org/spreadsheetml/2006/main\" xmlns:r=\"{relationships}\"><sheets><sheet name=\"Servers\" sheetId=\"1\" r:id=\"rId1\"/></sheets></workbook>"
    );
    let workbook_rels = format!(
        "<?xml version=\"1.0\" encoding=\"UTF-8\"?><Relationships xmlns=\"http://schemas.openxmlformats.org/package/2006/relationships\"><Relationship Id=\"rId1\" Type=\"{relationships}/worksheet\" Target=\"worksheets/sheet1.xml\"/></Relationships>"
    );
    let sheet = format!(
        "<?xml version=\"1.0\" encoding=\"UTF-8\"?><worksheet xmlns=\"http://schemas.openxmlformats.org/spreadsheetml/2006/main\"><sheetData><row r=\"1\">{}{}</row><row r=\"2\">{}<c r=\"B2\"><v>443</v></c></row><row r=\"3\">{}</row><row r=\"4\">{}</row></sheetData></worksheet>",
        inline_cell("A1", "IP"),
        inline_cell("B1", "ip"),
        inline_cell("A2", "10.0.0.1"),
        inline_cell("A3", " "),
        inline_cell("A4", "10.0.0.2"),
    );
    let bytes = stored_zip(&[
        ("_rels/.rels", &package_rels),
        ("xl/workbook.xml", &workbook),
        ("xl/_rels/workbook.xml.rels", &workbook_rels),
        ("xl/worksheets/sheet1.xml", &sheet),
    ]);
    let cells = worksheet_cells(bytes);
    let data = tabular_from_sheet(&cells).unwrap();
    assert_eq!(data.headers, strings(&["IP", "ip (2)"]));
    assert_eq!(data.rows, vec![strings(&["10.0.0.1", "443"]), strings(&["10.0.0.2", ""])]);
}

#[test]
fn worksheet_rows_blank_within_the_header_width_are_dropped() {
    let sheet = vec![
        strings(&["IP", "Ports"]),
        strings(&["", " ", "past the width"]),
        strings(&["10.0.0.1"]),
    ];
    let data = tabular_from_sheet(&sheet).unwrap();
    assert_eq!(data.rows, vec![strings(&["10.0.0.1", ""])]);
}

/// The cells of the first worksheet that `calamine` reads from the bytes.
fn worksheet_cells(bytes: Vec<u8>) -> Vec<Vec<String>> {
    let mut workbook = calamine::open_workbook_auto_from_rs(std::io::Cursor::new(bytes)).unwrap();
    let range = workbook.worksheet_range_at(0).unwrap().unwrap();
    range.rows().map(|row| row.iter().map(|cell| cell.to_string()).collect()).collect()
}
