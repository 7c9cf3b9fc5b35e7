use jesd84::cli::{make_table, table_printable};
use jesd84::csd_slice::parse_csd_slice;
use jesd84::error::JesdError;
use jesd84::jesd84_b51::Jesd84B51;
use jesd84::json_sheet::JsonSheet;
use jesd84::out_dto::OutDto;
use jesd84::sheet_orm::{Data, SheetOrm, SheetOrmObj};
use jesd84::text::{push_debug_bytes, push_decimal, str_chars};

#[test]
fn csd_slice_forms() {
    assert_eq!(parse_csd_slice("[511:506]"), Ok(vec![511, 506]));
    assert_eq!(parse_csd_slice("[505]"), Ok(vec![505]));
    assert_eq!(parse_csd_slice("[ 7 : 3 ]"), Ok(vec![7, 3]));
    assert_eq!(parse_csd_slice("[[9]]"), Ok(vec![9]));
    assert_eq!(parse_csd_slice("12"), Ok(vec![12]));
    assert_eq!(parse_csd_slice("[+5]"), Ok(vec![5]));
    assert_eq!(parse_csd_slice("[007:65535]"), Ok(vec![7, 65535]));
    assert_eq!(parse_csd_slice("[\u{3000}4\t]"), Ok(vec![4]));
}

#[test]
fn csd_slice_errors() {
    assert_eq!(parse_csd_slice("[1:2:3]"), Err(JesdError::InvalidCsdFormat));
    assert_eq!(parse_csd_slice("[::]"), Err(JesdError::InvalidCsdFormat));
    assert_eq!(parse_csd_slice("[a]"), Err(JesdError::InvalidInteger));
    assert_eq!(parse_csd_slice("[65536]"), Err(JesdError::InvalidInteger));
    assert_eq!(parse_csd_slice("[]"), Err(JesdError::InvalidInteger));
    assert_eq!(parse_csd_slice("[+]"), Err(JesdError::InvalidInteger));
    assert_eq!(parse_csd_slice("[-1]"), Err(JesdError::InvalidInteger));
    assert_eq!(parse_csd_slice("[1:x]"), Err(JesdError::InvalidInteger));
    assert_eq!(parse_csd_slice("[1 2]"), Err(JesdError::InvalidInteger));
}

fn obj(id: u16, name: &str, slice: Vec<u16>) -> SheetOrmObj {
    SheetOrmObj { id, data: Data::new(name.to_string(), None, 1, "R".to_string(), slice) }
}

#[test]
fn simplify_conf_lines() {
    let sheet = SheetOrm::from_items(vec![
        obj(1, "Reserved", vec![511, 506]),
        obj(2, "Extended Security Commands Error", vec![505]),
        obj(30, "None", vec![]),
    ]);
    assert_eq!(
        sheet.gen_simplify_conf(","),
        "1,Reserved,511,506\n2,Extended Security Commands Error,505,65535\n30,None,No CSD Slice\n"
    );
    assert_eq!(sheet.gen_simplify_conf(",s"), "1,sReserved,s511,s506\n2,sExtended Security Commands Error,s505,s65535\n30,sNone,sNo CSD Slice\n");
    assert_eq!(SheetOrm::from_items(vec![]).gen_simplify_conf(","), "");
}

#[test]
fn data_accessors() {
    let d = Data::new("n".to_string(), Some("F".to_string()), 6, "TBD".to_string(), vec![3]);
    assert_eq!(d.name, "n");
    assert_eq!(d.field, Some("F".to_string()));
    assert_eq!(d.size, 6);
    assert_eq!(d.type_, "TBD");
    assert_eq!(d.csd_slice, vec![3]);
}

#[test]
fn decimal_and_debug_text() {
    let mut s = String::from("x");
    push_decimal(&mut s, 0);
    push_decimal(&mut s, 65535);
    assert_eq!(s, "x065535");
    let mut d = String::new();
    push_debug_bytes(&mut d, &[0, 63, 255]);
    assert_eq!(d, format!("{:?}", vec![0u8, 63, 255]));
    let mut e = String::new();
    push_debug_bytes(&mut e, &[]);
    assert_eq!(e, "[]");
    assert_eq!(str_chars("aé€"), vec!['a', 'é', '€']);
}

#[test]
fn table_of_fields() {
    let mut text = "00".repeat(510);
    text.push_str("3F07");
    let dump = Jesd84B51::new(&text).unwrap();
    let sheet = SheetOrm::from_items(vec![obj(1, "Pair", vec![512, 510]), obj(2, "One", vec![511])]);
    let out = OutDto::new(&sheet, &dump).unwrap();
    let table = make_table(out);
    assert_eq!(table.len(), 3);
    let cells = |r: usize| -> Vec<String> {
        let row = table.get_row(r).unwrap();
        (0..row.len()).map(|c| row.get_cell(c).unwrap().get_content()).collect()
    };
    assert_eq!(cells(0), vec!["ID", "Name", "Data"]);
    assert_eq!(cells(1), vec!["1", "Pair", "[63, 7]"]);
    assert_eq!(cells(2), vec!["2", "One", "[7]"]);
    let shown = table.to_string();
    let lines: Vec<&str> = shown.lines().collect();
    assert_eq!(lines.len(), 3);
    assert!(lines[0].starts_with(" ID | Name | Data"));
    assert!(lines[1].starts_with(" 1  | Pair | [63, 7]"));
    assert!(lines[2].starts_with(" 2  | One  | [7]"));
}

#[test]
fn json_sheet_parses_json() {
    assert!(JsonSheet::new("{\"array\": [1, 2]}").is_ok());
    assert_eq!(JsonSheet::new("{\"array\": ").err(), Some(JesdError::InvalidJson));
}

#[test]
fn table_keeps_lines_of_names() {
    let dump = Jesd84B51::new(&"00".repeat(512)).unwrap();
    let sheet = SheetOrm::from_items(vec![obj(1, "a\r\nb\n", vec![3]), obj(2, "x\ry", vec![4])]);
    let out = OutDto::new(&sheet, &dump).unwrap();
    assert!(table_printable(&out));
    let table = make_table(out);
    assert_eq!(table.get_row(1).unwrap().get_cell(1).unwrap().get_content(), "a\nb");
    assert_eq!(table.get_row(2).unwrap().get_cell(1).unwrap().get_content(), "x\ry");
}

#[test]
fn escape_in_name_is_not_printable() {
    let dump = Jesd84B51::new(&"00".repeat(512)).unwrap();
    let sheet = SheetOrm::from_items(vec![
        obj(1, "plain", vec![3]),
        obj(2, "\u{1b}[\u{a4f9}\u{a4fc}\u{a4f9}\u{a4fc}", vec![4]),
    ]);
    assert!(!table_printable(&OutDto::new(&sheet, &dump).unwrap()));
    let lone = SheetOrm::from_items(vec![obj(1, "a\u{1b}b[", vec![3])]);
    assert!(table_printable(&OutDto::new(&lone, &dump).unwrap()));
}

#[test]
fn error_messages() {
    assert_eq!(JesdError::WrongContentLength.message(), "Content length is not 512 bytes");
    assert_eq!(JesdError::BadSliceLength.message(), "Content length is not 1 or 2 bytes");
    assert_eq!(JesdError::IndexOutOfBounds.message(), "Index out of bounds");
    assert_eq!(
        JesdError::InvalidCsdFormat.message(),
        "Invalid format: expected format [start:end] or [num]"
    );
    assert_eq!(JesdError::InvalidInteger.message(), "expected an integer");
    assert_eq!(JesdError::InvalidDigit.message(), "Content holds a character that is not a hex digit");
    assert_eq!(JesdError::InvalidJson.message(), "Content is not a JSON document");
}
