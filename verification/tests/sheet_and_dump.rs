use jesd84::csd_slice::parse_csd_slice;
use jesd84::error::JesdError;
use jesd84::jesd84_b51::Jesd84B51;
use jesd84::out_dto::{search_binary, OutDto};
use jesd84::sheet_orm::{Data, SheetOrm, SheetOrmObj};

/// The register bytes that the sample register dump holds: bytes 500 and 501
/// are 63, bytes 502 to 504 are 1, all others 0.
fn sample_bytes() -> Vec<u8> {
    let mut bytes = vec![0u8; 512];
    bytes[500] = 63;
    bytes[501] = 63;
    bytes[502] = 1;
    bytes[503] = 1;
    bytes[504] = 1;
    bytes
}

fn hex_text(bytes: &[u8], lower: bool) -> String {
    let mut s = String::new();
    for b in bytes {
        if lower {
            s.push_str(&format!("{:02x}", b));
        } else {
            s.push_str(&format!("{:02X}", b));
        }
    }
    s
}

fn sample_dump() -> Jesd84B51 {
    let mut text = hex_text(&sample_bytes(), false);
    text.push('\n');
    Jesd84B51::new(&text).unwrap()
}

fn entry(id: u16, name: &str, field: Option<&str>, size: u8, type_: &str, slice: &str) -> SheetOrmObj {
    SheetOrmObj {
        id,
        data: Data::new(
            name.to_string(),
            field.map(|f| f.to_string()),
            size,
            type_.to_string(),
            parse_csd_slice(slice).unwrap(),
        ),
    }
}

/// The field sheet of the sample: the same seven entries, built by calls.
fn mock_data() -> SheetOrm {
    SheetOrm::from_items(vec![
        entry(1, "Reserved", None, 6, "TBD", "[511:506]"),
        entry(2, "Extended Security Commands Error", Some("EXT_SECURITY_ERR"), 1, "R", "[505]"),
        entry(3, "Supported Command Sets", Some("S_CMD_SET"), 1, "R", "[504]"),
        entry(4, "HPI features", Some("HPI_FEATURES"), 1, "R", "[503]"),
        entry(5, "Background operations support", Some("BKOPS_SUPPORT"), 1, "R", "[502]"),
        entry(6, "Max packed read commands", Some("MAX_PACKED_READS"), 1, "R", "[501]"),
        entry(7, "Max packed write commands", Some("MAX_PACKED_WRITES"), 1, "R", "[500]"),
    ])
}

#[test]
fn search_binary_test() {
    let sheet = mock_data();
    let dump = sample_dump();
    let i = search_binary(sheet.index(0), &dump).unwrap();
    println!("{:?}", i);
    assert_eq!(i[0], 0);
}

#[test]
fn new() {
    let sheet_orm = mock_data();
    assert_eq!(sheet_orm.len(), 7);
    assert_eq!(sheet_orm.items()[0].id, 1);
    assert_eq!(sheet_orm.index(0).data.csd_slice[0], 511);
    assert_eq!(sheet_orm.index(1).data.csd_slice[0], 505);
    assert_eq!(sheet_orm.items()[1].data.name, "Extended Security Commands Error");
}

#[test]
fn bracket() {
    let sheet_orm = mock_data();
    assert_eq!(sheet_orm.index(0).id, 1);
    assert_eq!(sheet_orm.index(1).data.name, "Extended Security Commands Error");
}

#[test]
fn out_dto_data_of_sample() {
    let sheet = mock_data();
    let dump = sample_dump();
    assert!(OutDto::slices_in_range(&sheet, &dump));
    let out = OutDto::new(&sheet, &dump).unwrap();
    let got: Vec<(u16, String, Vec<u8>)> =
        out.objs().iter().map(|o| (o.id, o.name.clone(), o.data.clone())).collect();
    let want: Vec<(u16, String, Vec<u8>)> = vec![
        (1, "Reserved".to_string(), vec![0, 0, 0, 0, 0]),
        (2, "Extended Security Commands Error".to_string(), vec![0]),
        (3, "Supported Command Sets".to_string(), vec![1]),
        (4, "HPI features".to_string(), vec![1]),
        (5, "Background operations support".to_string(), vec![1]),
        (6, "Max packed read commands".to_string(), vec![63]),
        (7, "Max packed write commands".to_string(), vec![63]),
    ];
    assert_eq!(got, want);
}

#[test]
fn out_dto_first_error_wins() {
    let dump = sample_dump();
    let sheet = SheetOrm::from_items(vec![
        entry(1, "a", None, 1, "R", "[3]"),
        SheetOrmObj { id: 2, data: Data::new("b".to_string(), None, 1, "R".to_string(), vec![1, 2, 3]) },
        entry(3, "c", None, 1, "R", "[600:1]"),
    ]);
    assert!(OutDto::slices_in_range(&sheet, &dump));
    assert_eq!(OutDto::new(&sheet, &dump).unwrap_err(), JesdError::BadSliceLength);
}

#[test]
fn slices_out_of_range_are_found() {
    let dump = sample_dump();
    let reversed = SheetOrm::from_items(vec![entry(1, "a", None, 1, "R", "[1:5]")]);
    assert!(!OutDto::slices_in_range(&reversed, &dump));
    let past_end = SheetOrm::from_items(vec![entry(1, "a", None, 1, "R", "[512]")]);
    assert!(!OutDto::slices_in_range(&past_end, &dump));
    let after_error = SheetOrm::from_items(vec![
        entry(1, "a", None, 1, "R", "[600:1]"),
        entry(2, "b", None, 1, "R", "[512]"),
    ]);
    assert!(OutDto::slices_in_range(&after_error, &dump));
    assert_eq!(OutDto::new(&after_error, &dump).unwrap_err(), JesdError::IndexOutOfBounds);
}

#[test]
fn search_binary_errors() {
    let dump = sample_dump();
    let three = SheetOrmObj { id: 9, data: Data::new("x".to_string(), None, 1, "R".to_string(), vec![1, 2, 3]) };
    assert_eq!(search_binary(&three, &dump), Err(JesdError::BadSliceLength));
    let none = SheetOrmObj { id: 9, data: Data::new("x".to_string(), None, 1, "R".to_string(), vec![]) };
    assert_eq!(search_binary(&none, &dump), Err(JesdError::BadSliceLength));
    let far = entry(9, "x", None, 1, "R", "[513:500]");
    assert_eq!(search_binary(&far, &dump), Err(JesdError::IndexOutOfBounds));
    let whole = entry(9, "x", None, 1, "R", "[512:500]");
    assert_eq!(search_binary(&whole, &dump).unwrap(), vec![63, 63, 1, 1, 1, 0, 0, 0, 0, 0, 0, 0]);
    let empty = entry(9, "x", None, 1, "R", "[7:7]");
    assert_eq!(search_binary(&empty, &dump).unwrap(), Vec::<u8>::new());
}

#[test]
fn dump_decodes_upper_and_lower_hex() {
    let mut bytes = vec![0u8; 512];
    for (i, b) in bytes.iter_mut().enumerate() {
        *b = (i * 7 % 256) as u8;
    }
    let upper = Jesd84B51::new(&hex_text(&bytes, false)).unwrap();
    assert_eq!(upper.bytes.to_vec(), bytes);
    let lower = Jesd84B51::new(&hex_text(&bytes, true)).unwrap();
    assert_eq!(lower.bytes.to_vec(), bytes);
    let decoded = Jesd84B51::decode(&hex_text(&bytes, false)).unwrap();
    assert_eq!(decoded.bytes.to_vec(), bytes);
}

#[test]
fn dump_length_is_checked() {
    let short = "00".repeat(511);
    assert_eq!(Jesd84B51::new(&short).unwrap_err(), JesdError::WrongContentLength);
    let mut long = "00".repeat(512);
    long.push_str("0");
    assert_eq!(Jesd84B51::new(&long).unwrap_err(), JesdError::WrongContentLength);
    let mut two_newlines = "00".repeat(512);
    two_newlines.push_str("\n\n");
    assert_eq!(Jesd84B51::new(&two_newlines).unwrap_err(), JesdError::WrongContentLength);
    let mut crlf = "00".repeat(512);
    crlf.push_str("\r\n");
    assert_eq!(Jesd84B51::new(&crlf).unwrap_err(), JesdError::WrongContentLength);
}

#[test]
fn dump_with_a_space_is_refused() {
    let mut text = "00".repeat(511);
    text.push_str(" 0");
    assert_eq!(Jesd84B51::new(&text).unwrap_err(), JesdError::InvalidDigit);
}

#[test]
fn digit_values_and_pairs() {
    let mut text = "0123456789ABCDEF".repeat(64);
    text.push('\n');
    let nums = Jesd84B51::get_num_array(text).unwrap();
    assert_eq!(nums.len(), 1024);
    assert_eq!(&nums[..16], &[0, 1, 2, 3, 4, 5, 6, 7, 8, 9, 10, 11, 12, 13, 14, 15]);
    assert_eq!(Jesd84B51::get_num_array("0A".to_string()), Err(JesdError::WrongContentLength));
    assert_eq!(Jesd84B51::to_byte_array(vec![1, 2, 15, 15, 3]).unwrap(), vec![0x12, 0xff]);
    assert_eq!(Jesd84B51::to_byte_array(vec![]).unwrap(), Vec::<u8>::new());
    assert_eq!(Jesd84B51::to_byte_array(vec![0x1f, 3]).unwrap(), vec![0xf3]);
}
