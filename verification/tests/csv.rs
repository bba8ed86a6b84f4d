use wasmprofiler::Profiler;
use wasmprofiler::profile::ProfileError;

#[test]
fn csv_end_to_end() {
    let bytes = b"func_index,duration\n0,1234\n1,555\n";
    let profile = Profiler::import_profile_from_csv(bytes).expect("valid CSV to import");
    assert_eq!(
        profile.render(),
        "Total time taken 1789us\nFunction <index:0> took 1234us (68%)\nFunction <index:1> took 555us (31%)\n"
    );
}

#[test]
fn csv_sums_duplicate_rows() {
    let bytes = b"func_index,duration\n0,1000\n0,234\n";
    let profile = Profiler::import_profile_from_csv(bytes).expect("valid CSV to import");
    assert_eq!(
        profile.render(),
        "Total time taken 1234us\nFunction <index:0> took 1234us (100%)\n"
    );
}

#[test]
fn csv_columns_found_by_header_name() {
    let bytes = b"duration,func_index\n70,4\n30,2\n";
    let profile = Profiler::import_profile_from_csv(bytes).expect("valid CSV to import");
    assert_eq!(
        profile.render(),
        "Total time taken 100us\nFunction <index:4> took 70us (70%)\nFunction <index:2> took 30us (30%)\n"
    );
}

#[test]
fn csv_empty_input_gives_empty_profile() {
    let profile = Profiler::import_profile_from_csv(b"").expect("empty CSV to import");
    assert_eq!(profile.render(), "Total time taken 0us\n");
}

#[test]
fn csv_header_only_gives_empty_profile() {
    let profile =
        Profiler::import_profile_from_csv(b"func_index,duration\n").expect("header-only CSV");
    assert_eq!(profile.render(), "Total time taken 0us\n");
}

#[test]
fn csv_missing_column_is_rejected() {
    let r = Profiler::import_profile_from_csv(b"func_index,elapsed\n0,10\n");
    assert_eq!(r.err(), Some(ProfileError::CsvFormat));
}

#[test]
fn csv_non_numeric_field_is_rejected() {
    let r = Profiler::import_profile_from_csv(b"func_index,duration\n0,fast\n");
    assert_eq!(r.err(), Some(ProfileError::CsvFormat));
}

#[test]
fn csv_out_of_range_field_is_rejected() {
    let r = Profiler::import_profile_from_csv(b"func_index,duration\n4294967296,10\n");
    assert_eq!(r.err(), Some(ProfileError::CsvFormat));
}

#[test]
fn csv_overflowing_total_is_rejected() {
    let r = Profiler::import_profile_from_csv(
        b"func_index,duration\n0,18446744073709551615\n1,1\n",
    );
    assert_eq!(r.err(), Some(ProfileError::DurationOverflow));
}

#[test]
fn percentages_truncate_and_stay_under_one_hundred() {
    let bytes = b"func_index,duration\n0,1\n1,1\n2,1\n";
    let profile = Profiler::import_profile_from_csv(bytes).expect("valid CSV to import");
    let report = profile.render();
    let mut sum: u64 = 0;
    let mut entry_lines: u64 = 0;
    for line in report.lines().skip(1) {
        let open = line.rfind('(').expect("percentage in line");
        let close = line.rfind("%)").expect("percentage in line");
        sum += line[open + 1..close].parse::<u64>().expect("integer percent");
        entry_lines += 1;
    }
    assert!(sum <= 100);
    assert!(100 - sum <= entry_lines);
}
