use egui_txt_viewer::chart::{group_counts, max_count, pie_layout, PieShape};
use egui_txt_viewer::group::{group_values, shown_value_of};
use egui_txt_viewer::number::{format_addr, format_data_with_base, format_hex_prefixed_min2_even, DisplayBase};
use egui_txt_viewer::parser::{parse_content, parse_line, ParsedFile};
use egui_txt_viewer::store::{common_addresses_of, AppState, StatsMetric};

fn file_with(name: &str, pairs: &[(u64, &str)]) -> ParsedFile {
    let mut f = ParsedFile::new(name.to_string());
    for (a, v) in pairs {
        f.insert(*a, v.to_string());
    }
    f
}

fn value(f: &ParsedFile, addr: u64) -> Option<String> {
    f.get(addr).cloned()
}

#[test]
fn tab_line_gives_address_and_value() {
    let f = parse_content("a.txt".to_string(), "1\tx\tFF\tx\tx\t7E");
    assert_eq!(f.len(), 1);
    assert_eq!(value(&f, 0xFF), Some("7E".to_string()));
}

#[test]
fn end_line_stops_parsing() {
    let text = "1\tx\tFF\tx\tx\t7E\nEND\n1\tx\t10\tx\tx\t01\n";
    let f = parse_content("a.txt".to_string(), text);
    assert_eq!(f.len(), 1);
    assert_eq!(value(&f, 0x10), None);
}

#[test]
fn end_marker_any_case_and_padded() {
    let text = "1\tx\t01\tx\tx\tAA\n  eNd  \n1\tx\t02\tx\tx\tBB\n";
    let f = parse_content("a.txt".to_string(), text);
    assert_eq!(f.addresses(), &vec![1u64]);
}

#[test]
fn malformed_lines_are_skipped() {
    let text = [
        "0001\t0\t02\t02\t02h\t7E\t126\t",
        "short\tline",
        "",
        "1\tx\t\tx\tx\t55",
        "1\tx\t03\tx\tx\t",
        "1\tx\tzz\tx\tx\t66",
        "1\tx\t04h\tx\tx\t01",
        "1\tx\t0x05\tx\tx\t02",
        "1\tx\t06",
    ]
    .join("\n");
    let text = text.as_str();
    let f = parse_content("dump.txt".to_string(), text);
    assert_eq!(f.len(), 3);
    assert_eq!(value(&f, 2), Some("7E".to_string()));
    assert_eq!(value(&f, 4), Some("01".to_string()));
    assert_eq!(value(&f, 5), Some("02".to_string()));
    assert_eq!(value(&f, 3), None);
    assert_eq!(value(&f, 6), None);
}

#[test]
fn malformed_line_order_does_not_matter() {
    let a = parse_content("a".to_string(), "bad\n1\tx\t01\tx\tx\tA\n\t\n1\tx\t02\tx\tx\tB\n1\tx\tqq\tx\tx\tC\n");
    let b = parse_content("b".to_string(), "1\tx\t01\tx\tx\tA\n1\tx\tqq\tx\tx\tC\n1\tx\t02\tx\tx\tB\nbad\n");
    assert_eq!(a.len(), 2);
    assert_eq!(b.len(), 2);
    assert_eq!(value(&a, 1), value(&b, 1));
    assert_eq!(value(&a, 2), value(&b, 2));
}

#[test]
fn later_duplicate_overwrites() {
    let f = parse_content("a".to_string(), "1\tx\t0A\tx\tx\t01\n1\tx\t0a\tx\tx\t02\n");
    assert_eq!(f.len(), 1);
    assert_eq!(value(&f, 10), Some("02".to_string()));
    assert_eq!(f.file_name(), "a");
}

#[test]
fn overflowing_address_is_skipped() {
    let f = parse_content("a".to_string(), "1\tx\t10000000000000000\tx\tx\t01\n1\tx\tFFFFFFFFFFFFFFFF\tx\tx\t02\n");
    assert_eq!(f.len(), 1);
    assert_eq!(value(&f, u64::MAX), Some("02".to_string()));
}

#[test]
fn parse_line_reads_one_record() {
    let line: Vec<char> = "9\t9\t 1Fh \t9\t9\t 3C ".chars().collect();
    let r = parse_line(&line).unwrap();
    assert_eq!(r.0, 0x1F);
    assert_eq!(r.1.iter().collect::<String>(), "3C");
    let bad: Vec<char> = "9\t9".chars().collect();
    assert!(parse_line(&bad).is_none());
}

#[test]
fn intersection_of_three_files() {
    let files = vec![
        file_with("a", &[(1, "1"), (2, "2"), (3, "3")]),
        file_with("b", &[(2, "2"), (3, "3"), (4, "4")]),
        file_with("c", &[(3, "3")]),
    ];
    assert_eq!(common_addresses_of(&files), vec![3u64]);
    assert_eq!(common_addresses_of(&Vec::new()), Vec::<u64>::new());
}

#[test]
fn intersection_is_sorted() {
    let files = vec![
        file_with("a", &[(9, "1"), (2, "2"), (5, "3")]),
        file_with("b", &[(5, "2"), (2, "3"), (9, "4")]),
    ];
    assert_eq!(common_addresses_of(&files), vec![2u64, 5, 9]);
}

#[test]
fn app_state_add_clear_readd() {
    let mut s = AppState::new();
    assert!(s.intersect_addresses().is_empty());
    s.add_files(vec![file_with("a", &[(1, "1"), (2, "2"), (3, "3")])]);
    assert_eq!(s.intersect_addresses(), &vec![1u64, 2, 3]);
    s.add_files(vec![file_with("b", &[(2, "2"), (3, "3"), (4, "4")]), file_with("c", &[(3, "3")])]);
    assert_eq!(s.intersect_addresses(), &vec![3u64]);
    assert_eq!(s.files().len(), 3);
    s.clear();
    assert!(s.files().is_empty());
    assert!(s.intersect_addresses().is_empty());
    s.add_files(vec![file_with("b", &[(2, "2"), (3, "3")])]);
    assert_eq!(s.intersect_addresses(), &vec![2u64, 3]);
}

#[test]
fn app_state_display_choices() {
    let mut s = AppState::new();
    assert_eq!(s.display_base(), DisplayBase::Hex);
    assert_eq!(s.stats_metric(), StatsMetric::Count);
    s.cycle_display_base();
    assert_eq!(s.display_base(), DisplayBase::Bin);
    s.cycle_display_base();
    assert_eq!(s.display_base(), DisplayBase::Dec);
    s.cycle_display_base();
    assert_eq!(s.display_base(), DisplayBase::Hex);
    s.toggle_stats_metric();
    assert_eq!(s.stats_metric(), StatsMetric::Percent);
    s.toggle_stats_metric();
    assert_eq!(s.stats_metric(), StatsMetric::Count);
}

#[test]
fn app_state_selection() {
    let mut s = AppState::new();
    s.add_files(vec![file_with("a", &[(7, "01"), (8, "02")]), file_with("b", &[(7, "01"), (8, "03")])]);
    assert_eq!(s.selected_address(), None);
    assert!(s.selected_groups().is_none());
    s.select_row(1);
    assert_eq!(s.selected_row(), Some(1));
    assert_eq!(s.selected_address(), Some(8));
    let g = s.selected_groups().unwrap();
    assert_eq!(g.len(), 2);
    assert_eq!(g[0].display_value, "0x02");
    assert_eq!(g[1].display_value, "0x03");
    s.select_row(5);
    assert_eq!(s.selected_address(), None);
}

#[test]
fn address_formatting() {
    assert_eq!(format_addr(0xA), "0x0a");
    assert_eq!(format_addr(0xABC), "0x0abc");
    assert_eq!(format_addr(0), "0x00");
    assert_eq!(format_addr(0xFF), "0xff");
    assert_eq!(format_addr(u64::MAX), "0xffffffffffffffff");
    assert_eq!(format_hex_prefixed_min2_even(0x1234), "0x1234");
}

#[test]
fn value_formatting_hex() {
    assert_eq!(format_data_with_base("7Eh", DisplayBase::Hex), "0x7e");
    assert_eq!(format_data_with_base("  0x5 ", DisplayBase::Hex), "0x05");
    assert_eq!(format_data_with_base("abc", DisplayBase::Hex), "0x0abc");
}

#[test]
fn value_formatting_bin() {
    assert_eq!(format_data_with_base("126", DisplayBase::Bin), format!("{:08b}", 0x126u64 & 0xFF));
    assert_eq!(format_data_with_base("7E", DisplayBase::Bin), "01111110");
    assert_eq!(format_data_with_base("1FF", DisplayBase::Bin), "11111111");
    assert_eq!(format_data_with_base("0", DisplayBase::Bin), "00000000");
}

#[test]
fn value_formatting_dec() {
    assert_eq!(format_data_with_base("7E", DisplayBase::Dec), "126");
    assert_eq!(format_data_with_base("not_a_number", DisplayBase::Dec), "not_a_number");
    assert_eq!(format_data_with_base(" xyz h", DisplayBase::Hex), "xyz ");
    assert_eq!(format_data_with_base("", DisplayBase::Hex), "");
}

#[test]
fn value_formatting_decimal_fallback() {
    // Too large for 64 bits as hex, but a valid decimal number.
    assert_eq!(format_data_with_base("10000000000000000000", DisplayBase::Dec), "10000000000000000000");
    assert_eq!(format_data_with_base("10000000000000000000", DisplayBase::Hex), "0x8ac7230489e80000");
}

#[test]
fn grouping_three_and_one() {
    let files = vec![
        file_with("f1", &[(5, "01")]),
        file_with("f2", &[(5, "02")]),
        file_with("f3", &[(5, "1h")]),
        file_with("f4", &[(5, "0x01")]),
    ];
    let g = group_values(&files, 5, DisplayBase::Hex);
    assert_eq!(g.len(), 2);
    assert_eq!(g[0].display_value, "0x01");
    assert_eq!(g[0].file_names, vec!["f1".to_string(), "f3".to_string(), "f4".to_string()]);
    assert_eq!(g[1].display_value, "0x02");
    assert_eq!(g[1].file_names, vec!["f2".to_string()]);
    let total = files.len() as f64;
    assert_eq!(g[0].file_names.len() as f64 / total * 100.0, 75.0);
    assert_eq!(g[1].file_names.len() as f64 / total * 100.0, 25.0);
}

#[test]
fn grouping_ties_by_value_and_missing_as_empty() {
    let files = vec![
        file_with("a", &[(1, "0B")]),
        file_with("b", &[(2, "00")]),
        file_with("c", &[(1, "0A")]),
    ];
    let g = group_values(&files, 1, DisplayBase::Hex);
    let values: Vec<&str> = g.iter().map(|e| e.display_value.as_str()).collect();
    assert_eq!(values, vec!["", "0x0a", "0x0b"]);
    assert_eq!(g[0].file_names, vec!["b".to_string()]);
}

#[test]
fn shown_value_of_missing_address_is_empty() {
    let f = file_with("a", &[(1, "10")]);
    assert_eq!(shown_value_of(&f, 1, DisplayBase::Dec), "16");
    assert_eq!(shown_value_of(&f, 2, DisplayBase::Dec), "");
}

#[test]
fn pie_single_group_is_circle() {
    assert!(matches!(pie_layout(&vec![4]), PieShape::Circle));
}

#[test]
fn pie_two_groups_fill_the_turn() {
    match pie_layout(&vec![3, 1]) {
        PieShape::Slices(v) => assert_eq!(v, vec![(0, 3), (3, 4)]),
        PieShape::Circle => panic!("expected slices"),
    }
    match pie_layout(&Vec::new()) {
        PieShape::Slices(v) => assert!(v.is_empty()),
        PieShape::Circle => panic!("expected slices"),
    }
}

#[test]
fn bar_scale_is_largest_count() {
    assert_eq!(max_count(&vec![3, 1, 2]), 3);
    assert_eq!(max_count(&Vec::new()), 1);
    assert_eq!(max_count(&vec![0, 0]), 1);
}

#[test]
fn csv_export_of_shared_addresses() {
    let mut s = AppState::new();
    assert_eq!(s.export_csv(), None);
    s.add_files(vec![
        file_with("a.txt", &[(1, "7E"), (0x10, "01")]),
        file_with("b.txt", &[(1, "zz"), (0x10, "2h"), (3, "00")]),
    ]);
    assert_eq!(s.export_csv(), Some("address,a.txt,b.txt\n0x01,0x7e,zz\n0x10,0x01,0x02\n".to_string()));
    s.cycle_display_base();
    s.cycle_display_base();
    assert_eq!(s.export_csv(), Some("address,a.txt,b.txt\n0x01,126,zz\n0x10,1,2\n".to_string()));
    s.clear();
    assert_eq!(s.export_csv(), None);
}

#[test]
fn grouped_pie_fills_the_file_count() {
    let files = vec![
        file_with("f1", &[(5, "01")]),
        file_with("f2", &[(5, "02")]),
        file_with("f3", &[(6, "01")]),
        file_with("f4", &[(5, "1")]),
        file_with("f5", &[(5, "03")]),
    ];
    let g = group_values(&files, 5, DisplayBase::Hex);
    let counts = group_counts(&g);
    assert_eq!(counts, vec![2, 1, 1, 1]);
    match pie_layout(&counts) {
        PieShape::Slices(v) => {
            assert_eq!(v, vec![(0, 2), (2, 3), (3, 4), (4, 5)]);
            assert_eq!(v.last().unwrap().1, files.len());
        }
        PieShape::Circle => panic!("expected slices"),
    }
}

#[test]
fn defaults_are_hex_and_count() {
    assert_eq!(DisplayBase::default(), DisplayBase::Hex);
    assert_eq!(StatsMetric::default(), StatsMetric::Count);
}
