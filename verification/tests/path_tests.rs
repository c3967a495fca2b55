use log_appender::path::{
    file_stem, format_u64, index_file_name, join_path, log_file_name, parent_dir, parse_u64,
};

#[test]
fn format_u64_writes_decimal() {
    assert_eq!(format_u64(0), "0");
    assert_eq!(format_u64(7), "7");
    assert_eq!(format_u64(10), "10");
    assert_eq!(format_u64(1024), "1024");
    assert_eq!(format_u64(u64::MAX), "18446744073709551615");
}

#[test]
fn parse_u64_reads_decimal() {
    assert_eq!(parse_u64("0"), Some(0));
    assert_eq!(parse_u64("42"), Some(42));
    assert_eq!(parse_u64("007"), Some(7));
    assert_eq!(parse_u64("+5"), Some(5));
    assert_eq!(parse_u64("18446744073709551615"), Some(u64::MAX));
}

#[test]
fn parse_u64_rejects_what_is_no_id() {
    assert_eq!(parse_u64(""), None);
    assert_eq!(parse_u64("+"), None);
    assert_eq!(parse_u64("-1"), None);
    assert_eq!(parse_u64("++1"), None);
    assert_eq!(parse_u64("1+"), None);
    assert_eq!(parse_u64("12a"), None);
    assert_eq!(parse_u64(" 1"), None);
    assert_eq!(parse_u64("1.0"), None);
    assert_eq!(parse_u64("١٢"), None);
    assert_eq!(parse_u64("18446744073709551616"), None);
    assert_eq!(parse_u64("99999999999999999999999"), None);
}

#[test]
fn parse_agrees_with_std() {
    for s in ["0", "+0", "00", "123", "+", "", "abc", "18446744073709551615", "18446744073709551616", "1 ", "-0"] {
        assert_eq!(parse_u64(s), s.parse::<u64>().ok());
    }
}

#[test]
fn format_then_parse_gives_the_id_back() {
    for n in [0u64, 1, 9, 10, 99, 100, 1023, 1024, 1 << 32, u64::MAX - 1, u64::MAX] {
        assert_eq!(parse_u64(&format_u64(n)), Some(n));
        assert_eq!(format_u64(n), n.to_string());
    }
}

#[test]
fn join_path_places_a_name_under_a_directory() {
    assert_eq!(join_path("root", "orders"), "root/orders");
    assert_eq!(join_path("root/", "orders"), "root/orders");
    assert_eq!(join_path("", "0.log"), "0.log");
    assert_eq!(join_path("/", "0.log"), "/0.log");
    assert_eq!(join_path(".", "topic-1"), "./topic-1");
    assert_eq!(join_path("a/b", ""), "a/b/");
}

#[test]
fn file_stem_is_the_last_component_without_extension() {
    assert_eq!(file_stem("0.log"), "0");
    assert_eq!(file_stem("dir/12.log"), "12");
    assert_eq!(file_stem("/a/b.c/7.index"), "7");
    assert_eq!(file_stem("a/b/noext"), "noext");
    assert_eq!(file_stem("a.b.log"), "a.b");
    assert_eq!(file_stem(".log"), ".log");
    assert_eq!(file_stem("dir/"), "");
    assert_eq!(file_stem(""), "");
    assert_eq!(file_stem("é/3.log"), "3");
}

#[test]
fn parent_dir_is_what_stands_before_the_last_slash() {
    assert_eq!(parent_dir("0.log"), "");
    assert_eq!(parent_dir("dir/0.log"), "dir");
    assert_eq!(parent_dir("/0.log"), "/");
    assert_eq!(parent_dir("/a/b/0.log"), "/a/b");
    assert_eq!(parent_dir("./topic-1/0/0.log"), "./topic-1/0");
}

#[test]
fn segment_file_names() {
    assert_eq!(log_file_name(0), "0.log");
    assert_eq!(index_file_name(0), "0.index");
    assert_eq!(log_file_name(15), "15.log");
    assert_eq!(index_file_name(15), "15.index");
}

#[test]
fn segment_names_lead_back_to_the_segment() {
    for dir in ["", "p", "root/orders/0", "/"] {
        for id in [0u64, 3, 10, u64::MAX] {
            let log = join_path(dir, &log_file_name(id));
            assert_eq!(parse_u64(file_stem(&log)), Some(id));
            if dir != "/" {
                assert_eq!(
                    join_path(parent_dir(&log), &index_file_name(id)),
                    join_path(dir, &index_file_name(id))
                );
            }
        }
    }
}
