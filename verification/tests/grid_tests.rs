use datatroll::render::is_csv_path;
use datatroll::{Cell, Sheet, TableError};

const DATA: &str = "id ,title , director, release date, review
1, old, quintin, 2011, 3.5
2, her, quintin, 2013, 4.2
3, easy, scorces, 2005, 1.0
4, hey, nolan, 1997, 4.7
5, who, martin, 2017, 5.0";

#[test]
fn test_load_parses_typed_cells() {
    let sheet = Sheet::load_data_from_str(DATA);

    assert_eq!(sheet.data.len(), 6);
    assert_eq!(sheet.data[0][0], Cell::String("id".to_string()));
    assert_eq!(sheet.data[1][0], Cell::Int(1));
    assert_eq!(sheet.data[1][1], Cell::String("old".to_string()));
    assert_eq!(sheet.data[1][3], Cell::Int(2011));
    assert_eq!(sheet.data[1][4], Cell::Float((3.5f64).to_bits()));
    assert_eq!(sheet.data[3][4], Cell::Float((1.0f64).to_bits()));
}

#[test]
fn test_token_inference_order() {
    let data = "a,b,c,d,e,f,g
true, false, 12, -3.5, , +7, 9223372036854775808";
    let sheet = Sheet::load_data_from_str(data);

    assert_eq!(sheet.data[1][0], Cell::Bool(true));
    assert_eq!(sheet.data[1][1], Cell::Bool(false));
    assert_eq!(sheet.data[1][2], Cell::Int(12));
    assert_eq!(sheet.data[1][3], Cell::Float((-3.5f64).to_bits()));
    assert_eq!(sheet.data[1][4], Cell::Null);
    assert_eq!(sheet.data[1][5], Cell::Int(7));
    // one past the largest 64-bit integer: it falls through to a double
    assert_eq!(
        sheet.data[1][6],
        Cell::Float((9223372036854775808.0f64).to_bits())
    );
}

#[test]
fn test_load_pads_short_rows() {
    let data = "a,b,c
1, 2
3";
    let sheet = Sheet::load_data_from_str(data);

    for row in &sheet.data {
        assert_eq!(row.len(), 3);
    }
    assert_eq!(sheet.data[1][2], Cell::Null);
    assert_eq!(sheet.data[2][1], Cell::Null);
    assert_eq!(sheet.data[2][2], Cell::Null);
}

#[test]
fn test_load_keeps_long_rows() {
    let data = "a,b
1, 2, 3";
    let sheet = Sheet::load_data_from_str(data);

    assert_eq!(sheet.data[0].len(), 2);
    assert_eq!(sheet.data[1].len(), 3);
    assert_eq!(sheet.data[1][2], Cell::Int(3));
}

#[test]
fn test_paginate_first_page() {
    let mut sheet = Sheet::load_data_from_str(DATA);
    sheet.insert_row("6, fall, lee, 2001, 4.4").unwrap();

    let page = sheet.paginate(1, 2).unwrap();
    assert_eq!(page.len(), 2);
    assert_eq!(page[0][0], Cell::Int(1));
    assert_eq!(page[1][0], Cell::Int(2));
}

#[test]
fn test_paginate_rejects_bad_request() {
    let sheet = Sheet::load_data_from_str(DATA);

    assert_eq!(sheet.paginate(0, 2), Err(TableError::BadPageRequest));
    assert_eq!(sheet.paginate(1, 51), Err(TableError::BadPageRequest));
}

#[test]
fn test_paginate_rejects_small_table() {
    let sheet = Sheet::load_data_from_str(DATA);

    assert_eq!(sheet.paginate(1, 50), Err(TableError::PageUnavailable));
}

#[test]
fn test_insert_row_width_mismatch() {
    let mut sheet = Sheet::load_data_from_str(DATA);

    let before = sheet.data.len();
    let got = sheet.insert_row("1, 2");
    assert_eq!(got, Err(TableError::InvalidInput));
    assert_eq!(sheet.data.len(), before);
}

#[test]
fn test_mean_rejects_text_column() {
    let sheet = Sheet::load_data_from_str(DATA);

    assert_eq!(sheet.mean("title"), Err(TableError::NonNumericCell));
    assert_eq!(sheet.variance("title"), Err(TableError::NonNumericCell));
}

#[test]
fn test_int_aggregates_reject_floats() {
    let sheet = Sheet::load_data_from_str(DATA);

    assert_eq!(sheet.max_int64("review"), Err(TableError::NonIntCell));
    assert_eq!(sheet.min_int64("review"), Err(TableError::NonIntCell));
}

#[test]
fn test_max_int64_all_negative_reports_zero() {
    let data = "v
-3
-8";
    let sheet = Sheet::load_data_from_str(data);

    assert_eq!(sheet.max_int64("v").unwrap(), 0);
    assert_eq!(sheet.min_int64("v").unwrap(), -8);
    assert_eq!(f64::from_bits(sheet.max_float64("v").unwrap()), 0.0);
    assert_eq!(f64::from_bits(sheet.min_float64("v").unwrap()), -8.0);
}

#[test]
fn test_max_float64_widens_integers() {
    let sheet = Sheet::load_data_from_str(DATA);

    assert_eq!(
        f64::from_bits(sheet.max_float64("release date").unwrap()),
        2017.0
    );
    assert_eq!(
        f64::from_bits(sheet.min_float64("release date").unwrap()),
        1997.0
    );
}

#[test]
fn test_mode_keeps_incremental_ties() {
    let data = "name
solo
pair
pair";
    let sheet = Sheet::load_data_from_str(data);

    // the running maximum starts at zero, so the early single entry joins
    // the result before the larger count is seen, and then stays
    let got = sheet.mode("name");
    let want = vec![
        (Cell::String("solo".to_string()), 1),
        (Cell::String("pair".to_string()), 2),
    ];
    assert_eq!(got, want);
}

#[test]
fn test_drop_rows_header_survives() {
    let mut sheet = Sheet::load_data_from_str(DATA);

    sheet.drop_rows("review", |_c: &Cell| true);

    assert_eq!(sheet.data.len(), 1);
    assert_eq!(sheet.data[0][4], Cell::String("review".to_string()));
}

#[test]
fn test_filter_collects_matches() {
    let sheet = Sheet::load_data_from_str(DATA);

    let rows = sheet.filter("director", |c: &Cell| {
        if let Cell::String(s) = c {
            return s == "quintin";
        }
        false
    });

    assert_eq!(rows.len(), 2);
    assert_eq!(rows[0][0], Cell::Int(1));
    assert_eq!(rows[1][0], Cell::Int(2));
}

#[test]
fn test_fill_col_keeps_header() {
    let mut sheet = Sheet::load_data_from_str(DATA);

    sheet.fill_col("title", Cell::Bool(true)).unwrap();
    assert_eq!(sheet.data[0][1], Cell::String("title".to_string()));
    for i in 1..sheet.data.len() {
        assert_eq!(sheet.data[i][1], Cell::Bool(true));
    }
}

#[test]
fn test_map_missing_column_message() {
    let mut sheet = Sheet::load_data_from_str(DATA);

    let got = sheet.map("overrated", |c: Cell| c);
    assert_eq!(got, Err("could not find column 'overrated'".to_string()));
}

#[test]
fn test_render_delimited_text() {
    let data = "kind, open, score
stone, false, 3.5
, true, 12";
    let sheet = Sheet::load_data_from_str(data);

    let text = sheet.to_delimited_text();
    assert_eq!(text, "kind,open,score,\nstone,false,3.5,\n,true,12,\n");
}

#[test]
fn test_csv_path_suffix() {
    assert!(is_csv_path("output.csv"));
    assert!(is_csv_path("dir.with.dots/file.csv"));
    assert!(!is_csv_path("output.txt"));
    assert!(!is_csv_path("archive.csv.bak"));
    // a path without any dot is its own suffix, so the bare name passes
    assert!(is_csv_path("csv"));
    assert!(!is_csv_path("outputcsv"));
}

#[test]
fn test_default_sheet_is_empty() {
    let sheet = Sheet::default();
    assert_eq!(sheet.data.len(), 0);
}
