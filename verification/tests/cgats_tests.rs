use lcms::cgats::It8;

const SAMPLE_IT8: &str = "CGATS.17
ORIGINATOR\t\"test instrument\"
NUMBER_OF_FIELDS\t4
NUMBER_OF_SETS\t3
BEGIN_DATA_FORMAT
SAMPLE_ID\tLAB_L\tLAB_A\tLAB_B
END_DATA_FORMAT
BEGIN_DATA
A1\t95.0\t-0.5\t1.2
A2\t50.0\t20.0\t-10.0
A3\t10.0\t0.0\t0.0
END_DATA
";

fn as_f64(v: Option<&str>) -> Option<f64> {
    v.and_then(|s| s.parse::<f64>().ok())
}

#[test]
fn parse_basic_it8() {
    let it8 = It8::load_from_str(SAMPLE_IT8).unwrap();
    assert_eq!(it8.sheet_type(), "CGATS.17");
    assert_eq!(it8.table_count(), 1);
    assert_eq!(it8.n_rows(), 3);
}

#[test]
fn read_properties() {
    let it8 = It8::load_from_str(SAMPLE_IT8).unwrap();
    assert_eq!(it8.property("ORIGINATOR"), Some("test instrument"));
    assert_eq!(as_f64(it8.property("NUMBER_OF_FIELDS")), Some(4.0));
    assert_eq!(as_f64(it8.property("NUMBER_OF_SETS")), Some(3.0));
}

#[test]
fn read_data_by_row_col() {
    let it8 = It8::load_from_str(SAMPLE_IT8).unwrap();
    assert_eq!(it8.data_row_col(0, 0), Some("A1"));
    assert_eq!(as_f64(it8.data_row_col(0, 1)), Some(95.0));
    assert_eq!(as_f64(it8.data_row_col(1, 3)), Some(-10.0));
    assert_eq!(as_f64(it8.data_row_col(2, 1)), Some(10.0));
}

#[test]
fn read_data_by_patch_name() {
    let it8 = It8::load_from_str(SAMPLE_IT8).unwrap();
    assert_eq!(as_f64(it8.data("A1", "LAB_L")), Some(95.0));
    assert_eq!(as_f64(it8.data("A2", "LAB_A")), Some(20.0));
    assert_eq!(it8.data("A3", "SAMPLE_ID"), Some("A3"));
}

#[test]
fn save_and_reload_round_trip() {
    let it8 = It8::load_from_str(SAMPLE_IT8).unwrap();
    let text = it8.save_to_string();
    let it8b = It8::load_from_str(&text).unwrap();

    assert_eq!(it8b.sheet_type(), "CGATS.17");
    assert_eq!(it8b.n_rows(), 3);
    assert_eq!(as_f64(it8b.data("A1", "LAB_L")), Some(95.0));
    assert_eq!(as_f64(it8b.data("A2", "LAB_A")), Some(20.0));
}

#[test]
fn programmatic_construction() {
    let mut it8 = It8::new();
    it8.set_sheet_type("IT8.7/1");
    it8.set_property("ORIGINATOR", "test");
    it8.set_data_format(0, "SAMPLE_ID");
    it8.set_data_format(1, "RGB_R");
    it8.set_data_format(2, "RGB_G");
    it8.set_data_format(3, "RGB_B");

    it8.set_data_row_col(0, 0, "P1");
    it8.set_data_row_col(0, 1, "255");
    it8.set_data_row_col(0, 2, "0");
    it8.set_data_row_col(0, 3, "0");

    assert_eq!(as_f64(it8.data("P1", "RGB_R")), Some(255.0));

    let text = it8.save_to_string();
    assert!(text.contains("IT8.7/1"));
    assert!(text.contains("BEGIN_DATA"));
}

#[test]
fn empty_it8() {
    let it8 = It8::new();
    assert_eq!(it8.table_count(), 1);
    assert_eq!(it8.n_rows(), 0);
    assert_eq!(it8.sheet_type(), "CGATS.17");
    assert!(it8.property("ANYTHING").is_none());
}

#[test]
fn multi_table() {
    let text = "TABLE1\nNUMBER_OF_FIELDS\t2\nNUMBER_OF_SETS\t1\n\
                 BEGIN_DATA_FORMAT\nX\tY\nEND_DATA_FORMAT\n\
                 BEGIN_DATA\n1\t2\nEND_DATA\n\
                 TABLE2\nNUMBER_OF_FIELDS\t2\nNUMBER_OF_SETS\t1\n\
                 BEGIN_DATA_FORMAT\nA\tB\nEND_DATA_FORMAT\n\
                 BEGIN_DATA\n3\t4\nEND_DATA\n";
    let mut it8 = It8::load_from_str(text).unwrap();
    assert_eq!(it8.table_count(), 2);

    it8.set_table(0);
    assert_eq!(it8.sheet_type(), "TABLE1");
    assert_eq!(as_f64(it8.data_row_col(0, 0)), Some(1.0));

    it8.set_table(1);
    assert_eq!(it8.sheet_type(), "TABLE2");
    assert_eq!(as_f64(it8.data_row_col(0, 0)), Some(3.0));
}

#[test]
fn comment_lines_ignored() {
    let text = "CGATS.17\n# This is a comment\nORIGINATOR\t\"test\"\n\
                 NUMBER_OF_FIELDS\t1\nNUMBER_OF_SETS\t1\n\
                 BEGIN_DATA_FORMAT\nX\nEND_DATA_FORMAT\n\
                 # Another comment\n\
                 BEGIN_DATA\n42\nEND_DATA\n";
    let it8 = It8::load_from_str(text).unwrap();
    assert_eq!(it8.property("ORIGINATOR"), Some("test"));
    assert_eq!(as_f64(it8.data_row_col(0, 0)), Some(42.0));
}

#[test]
fn get_patch_name_returns_sample_id() {
    let it8 = It8::load_from_str(SAMPLE_IT8).unwrap();
    assert_eq!(it8.get_patch_name(0), Some("A1"));
    assert_eq!(it8.get_patch_name(1), Some("A2"));
    assert_eq!(it8.get_patch_name(2), Some("A3"));
    assert_eq!(it8.get_patch_name(3), None);
}

// ---- further cases ----

#[test]
fn exact_text_of_a_table() {
    let mut it8 = It8::new();
    it8.set_property("B_KEY", "two words");
    it8.set_property("A_KEY", "1.5e3");
    it8.set_data_format(0, "SAMPLE_ID");
    it8.set_data_format(1, "V");
    it8.set_data_row_col(0, 0, "P 1");
    it8.set_data_row_col(0, 1, "say \"hi\"");
    assert!(it8.is_writable());
    assert_eq!(
        it8.save_to_string(),
        "CGATS.17\nA_KEY\t1.5e3\nB_KEY\t\"two words\"\nBEGIN_DATA_FORMAT\nSAMPLE_ID\tV\nEND_DATA_FORMAT\n\
         BEGIN_DATA\n\"P 1\"\t\"say \\\"hi\\\"\"\nEND_DATA\n"
    );
}

#[test]
fn properties_are_kept_in_key_order() {
    let mut it8 = It8::new();
    it8.set_property("ZETA", "1");
    it8.set_property("ALPHA", "2");
    it8.set_property("MID", "3");
    it8.set_property("ALPHA", "4");
    assert_eq!(it8.properties(), vec!["ALPHA", "MID", "ZETA"]);
    assert_eq!(it8.property("ALPHA"), Some("4"));
}

#[test]
fn quoted_values_with_escapes_read_back() {
    let text = "S\nKEY \"a \\\"b\\\" \\\\ c\"\n";
    let it8 = It8::load_from_str(text).unwrap();
    assert_eq!(it8.property("KEY"), Some("a \"b\" \\ c"));
}

#[test]
fn key_without_value_is_ignored() {
    let it8 = It8::load_from_str("S\nLONELY\nOTHER 7\n").unwrap();
    assert_eq!(it8.property("LONELY"), None);
    assert_eq!(it8.property("OTHER"), Some("7"));
}

#[test]
fn empty_text_gives_default_table() {
    let it8 = It8::load_from_str("  \n# nothing\n").unwrap();
    assert_eq!(it8.table_count(), 1);
    assert_eq!(it8.sheet_type(), "CGATS.17");
}

#[test]
fn reading_errors_are_corruption() {
    let cases = [
        "S\nBEGIN_DATA\n1\nEND_DATA\n",
        "S\nBEGIN_DATA_FORMAT\nA B\n",
        "S\nBEGIN_DATA_FORMAT\nA\nEND_DATA_FORMAT\nBEGIN_DATA\n1\n",
        "S\nKEY \"unterminated\n",
        "S\n,\n",
    ];
    for c in cases {
        let e = It8::load_from_str(c).err().unwrap();
        assert_eq!(e.code, lcms::error::ErrorCode::CorruptionDetected);
    }
}

#[test]
fn set_data_adds_a_row_for_a_new_patch() {
    let mut it8 = It8::new();
    it8.set_data_format(0, "SAMPLE_ID");
    it8.set_data_format(1, "X");
    it8.set_data("P1", "X", "10");
    it8.set_data("P2", "X", "20");
    it8.set_data("P1", "X", "11");
    it8.set_data("P3", "MISSING", "30");
    assert_eq!(it8.n_rows(), 2);
    assert_eq!(it8.data("P1", "X"), Some("11"));
    assert_eq!(it8.data("P2", "X"), Some("20"));
    assert_eq!(it8.data("P3", "X"), None);
    assert_eq!(it8.find_data_format("X"), Some(1));
    assert_eq!(it8.find_data_format("Y"), None);
}

#[test]
fn set_data_row_col_outside_format_does_nothing() {
    let mut it8 = It8::new();
    it8.set_data_row_col(0, 0, "x");
    assert_eq!(it8.n_rows(), 0);
    it8.set_data_format(0, "A");
    it8.set_data_row_col(0, 1, "x");
    assert_eq!(it8.n_rows(), 0);
    it8.set_data_row_col(2, 0, "x");
    assert_eq!(it8.n_rows(), 3);
    assert_eq!(it8.data_row_col(1, 0), Some(""));
    assert_eq!(it8.data_format().len(), 1);
}

#[test]
fn set_table_adds_tables() {
    let mut it8 = It8::new();
    assert_eq!(it8.set_table(2), 2);
    assert_eq!(it8.table_count(), 3);
    assert_eq!(it8.sheet_type(), "CGATS.17");
    it8.set_sheet_type("THIRD");
    it8.set_table(0);
    assert_eq!(it8.sheet_type(), "CGATS.17");
}

#[test]
fn numbers_in_any_case_stay_unquoted() {
    let mut it8 = It8::new();
    it8.set_property("A", "-INF");
    it8.set_property("B", "NaN");
    it8.set_property("C", ".5");
    it8.set_property("D", "5.");
    it8.set_property("E", "1e");
    it8.set_property("F", "+2E-7");
    assert_eq!(
        it8.save_to_string(),
        "CGATS.17\nA\t-INF\nB\tNaN\nC\t.5\nD\t5.\nE\t\"1e\"\nF\t+2E-7\n"
    );
}

#[test]
fn dbl_format_is_kept() {
    let mut it8 = It8::default();
    assert_eq!(it8.dbl_format(), "%.10g");
    it8.define_dbl_format("%.3f");
    assert_eq!(it8.dbl_format(), "%.3f");
}

#[test]
fn read_errors_name_their_line() {
    let e = It8::load_from_str("CGATS.17\nBEGIN_DATA\n").err().unwrap();
    assert_eq!(e.message, "line 2: BEGIN_DATA without data format");
    let e = It8::load_from_str("CGATS.17\nKEY \"open").err().unwrap();
    assert_eq!(e.message, "line 2: unterminated string");
    let e = It8::load_from_str("CGATS.17\n\n$").err().unwrap();
    assert_eq!(e.message, "line 3: unexpected character '$'");
    let e = It8::load_from_str("CGATS.17\nBEGIN_DATA_FORMAT\nA B\n").err().unwrap();
    assert_eq!(e.message, "line 4: unexpected EOF in DATA_FORMAT");
}
