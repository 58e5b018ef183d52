use status_tracker::Status;
use status_tracker::Timestamp;
use status_tracker::UserStatus;
use status_tracker::config::Config;
use status_tracker::config::get_data_path;
use status_tracker::duty::DutyError;
use status_tracker::duty::RawUser;
use status_tracker::duty::StatusDescription;
use status_tracker::table::Data;

fn ts(year: u32, month: u32, day: u32, hour: u32, minute: u32, second: u32) -> Timestamp {
    Timestamp { year, month, day, hour, minute, second }
}

fn user(first: &str, last: &str, status: Status) -> UserStatus {
    UserStatus { firstname: first.to_string(), lastname: last.to_string(), status }
}

fn pct(on: usize, present: usize) -> f64 {
    100.0 * on as f64 / present as f64
}

#[test]
fn weekday_matches_calendar() {
    // 2024-01-05 was a Friday, 2024-01-06 a Saturday, 2024-01-08 a Monday.
    assert_eq!(ts(2024, 1, 5, 0, 0, 0).weekday(), 4);
    assert_eq!(ts(2024, 1, 6, 0, 0, 0).weekday(), 5);
    assert_eq!(ts(2024, 1, 7, 0, 0, 0).weekday(), 6);
    assert_eq!(ts(2024, 1, 8, 0, 0, 0).weekday(), 0);
    assert_eq!(ts(1970, 1, 1, 0, 0, 0).weekday(), 3);
    assert_eq!(ts(2000, 2, 29, 0, 0, 0).weekday(), 1);
}

#[test]
fn weekend_window_boundaries() {
    // Friday just before 18:00 is out; from 18:00 on it is in.
    assert!(!ts(2024, 1, 5, 17, 59, 59).is_weekend());
    assert!(ts(2024, 1, 5, 18, 0, 0).is_weekend());
    // Sunday until the last second is in; Monday midnight is out.
    assert!(ts(2024, 1, 7, 23, 59, 59).is_weekend());
    assert!(!ts(2024, 1, 8, 0, 0, 0).is_weekend());
    // Saturday noon is in.
    assert!(ts(2024, 1, 6, 12, 0, 0).is_weekend());
}

#[test]
fn classify_against_sentinel_label() {
    assert_eq!(Status::new("Ready", "Not in service"), Status::OnDuty);
    assert_eq!(Status::new("Not in service", "Not in service"), Status::OffDuty);
    assert_eq!(Status::new("", "Not in service"), Status::OnDuty);
}

#[test]
fn status_labels() {
    assert_eq!(Status::OnDuty.label(), "On Duty");
    assert_eq!(Status::OffDuty.label(), "Off Duty");
}

#[test]
fn empty_snapshot_is_malformed() {
    let mut data = Data::new();
    let users: Vec<UserStatus> = Vec::new();
    let r = data.append(ts(2024, 1, 5, 10, 0, 0), &users);
    assert_eq!(r, Err(DutyError::MalformedSnapshot));
    assert_eq!(data.cols.len(), 0);
    assert_eq!(data.rows.len(), 0);
}

#[test]
fn first_snapshot_scenario() {
    // snapshot1 = {Alice: OnDuty, Bob: OffDuty} on a Friday morning.
    let mut data = Data::new();
    let users = vec![
        user("Alice", "Adams", Status::OnDuty),
        user("Bob", "Brown", Status::OffDuty),
    ];
    data.append(ts(2024, 1, 5, 10, 0, 0), &users).unwrap();
    let summary = data.calculate();
    assert_eq!(summary.len(), 2);
    assert_eq!(summary[0].name, "Alice Adams");
    assert_eq!(pct(summary[0].total_on, summary[0].total_present), 100.0);
    assert_eq!(summary[1].name, "Bob Brown");
    assert_eq!(pct(summary[1].total_on, summary[1].total_present), 0.0);
    // No weekend columns exist: both weekend ratios are undefined.
    assert_eq!(summary[0].weekend_present, 0);
    assert_eq!(summary[1].weekend_present, 0);
}

#[test]
fn second_snapshot_scenario() {
    // Adds snapshot2 = {Alice: OffDuty, Carol: OnDuty} on a Saturday.
    let mut data = Data::new();
    let snapshot1 = vec![
        user("Alice", "Adams", Status::OnDuty),
        user("Bob", "Brown", Status::OffDuty),
    ];
    data.append(ts(2024, 1, 5, 10, 0, 0), &snapshot1).unwrap();
    let snapshot2 = vec![
        user("Alice", "Adams", Status::OffDuty),
        user("Carol", "Clark", Status::OnDuty),
    ];
    data.append(ts(2024, 1, 6, 12, 0, 0), &snapshot2).unwrap();

    assert_eq!(data.cols.len(), 2);
    let names: Vec<&str> = data.rows.iter().map(|r| r.name.as_str()).collect();
    assert_eq!(names, vec!["Alice Adams", "Bob Brown", "Carol Clark"]);

    let summary = data.calculate();
    assert_eq!(summary.len(), 3);
    // Descending by overall ratio: Carol 100, Alice 50, Bob 0.
    assert_eq!(summary[0].name, "Carol Clark");
    assert_eq!(pct(summary[0].total_on, summary[0].total_present), 100.0);
    assert_eq!(pct(summary[0].weekend_on, summary[0].weekend_present), 100.0);
    assert_eq!(summary[1].name, "Alice Adams");
    assert_eq!(pct(summary[1].total_on, summary[1].total_present), 50.0);
    assert_eq!(pct(summary[1].weekend_on, summary[1].weekend_present), 0.0);
    assert_eq!(summary[2].name, "Bob Brown");
    assert_eq!(pct(summary[2].total_on, summary[2].total_present), 0.0);
    // Bob is absent from the only weekend column: undefined, not zero.
    assert_eq!(summary[2].weekend_present, 0);
}

#[test]
fn join_totality_two_snapshots() {
    let mut data = Data::new();
    data.append(ts(2024, 3, 1, 8, 0, 0), &vec![user("Alice", "Adams", Status::OnDuty)])
        .unwrap();
    data.append(ts(2024, 3, 2, 8, 0, 0), &vec![user("Bob", "Brown", Status::OnDuty)])
        .unwrap();
    assert_eq!(data.cols.len(), 2);
    let mut names: Vec<&str> = data.rows.iter().map(|r| r.name.as_str()).collect();
    names.sort();
    assert_eq!(names, vec!["Alice Adams", "Bob Brown"]);
}

#[test]
fn merge_preserves_existing_cells() {
    let mut data = Data::new();
    data.append(ts(2024, 3, 1, 8, 0, 0), &vec![user("Alice", "Adams", Status::OffDuty)])
        .unwrap();
    let before = data.rows[0].cells.clone();
    data.append(ts(2024, 3, 2, 8, 0, 0), &vec![user("Bob", "Brown", Status::OnDuty)])
        .unwrap();
    // Alice's first cell is unchanged; her new cell is absent.
    assert_eq!(data.rows[0].cells[0], before[0]);
    assert_eq!(data.rows[0].cells[1], None);
    // Bob's prior cell is absent, his new one present.
    assert_eq!(data.rows[1].cells[0], None);
    assert_eq!(data.rows[1].cells[1], Some(Status::OnDuty));
}

#[test]
fn absent_cells_count_nowhere() {
    // Carol joins only at the second snapshot; her first cell is
    // absent and must shrink neither numerator nor denominator.
    let mut data = Data::new();
    data.append(ts(2024, 3, 1, 8, 0, 0), &vec![user("Alice", "Adams", Status::OnDuty)])
        .unwrap();
    data.append(
        ts(2024, 3, 4, 8, 0, 0),
        &vec![
            user("Alice", "Adams", Status::OnDuty),
            user("Carol", "Clark", Status::OnDuty),
        ],
    )
    .unwrap();
    let summary = data.calculate();
    let carol = summary.iter().find(|s| s.name == "Carol Clark").unwrap();
    assert_eq!(carol.total_on, 1);
    assert_eq!(carol.total_present, 1);
    assert_eq!(pct(carol.total_on, carol.total_present), 100.0);
}

#[test]
fn ratio_bounds_hold() {
    let mut data = Data::new();
    data.append(
        ts(2024, 1, 5, 10, 0, 0),
        &vec![
            user("Alice", "Adams", Status::OnDuty),
            user("Bob", "Brown", Status::OffDuty),
        ],
    )
    .unwrap();
    data.append(
        ts(2024, 1, 6, 12, 0, 0),
        &vec![
            user("Alice", "Adams", Status::OffDuty),
            user("Carol", "Clark", Status::OnDuty),
        ],
    )
    .unwrap();
    for s in data.calculate() {
        assert!(s.total_present >= 1);
        let p = pct(s.total_on, s.total_present);
        assert!((0.0..=100.0).contains(&p));
        if s.weekend_present > 0 {
            let w = pct(s.weekend_on, s.weekend_present);
            assert!((0.0..=100.0).contains(&w));
        }
    }
}

#[test]
fn summarize_twice_is_identical() {
    let mut data = Data::new();
    data.append(
        ts(2024, 1, 5, 10, 0, 0),
        &vec![
            user("Alice", "Adams", Status::OnDuty),
            user("Bob", "Brown", Status::OnDuty),
            user("Carol", "Clark", Status::OffDuty),
        ],
    )
    .unwrap();
    let s1 = data.calculate();
    let s2 = data.calculate();
    assert_eq!(s1.len(), s2.len());
    for (a, b) in s1.iter().zip(s2.iter()) {
        assert_eq!(a.name, b.name);
        assert_eq!(a.total_on, b.total_on);
        assert_eq!(a.total_present, b.total_present);
        assert_eq!(a.weekend_on, b.weekend_on);
        assert_eq!(a.weekend_present, b.weekend_present);
    }
    // Ties (Alice and Bob are both at 100) keep the join's row order.
    assert_eq!(s1[0].name, "Alice Adams");
    assert_eq!(s1[1].name, "Bob Brown");
}

#[test]
fn timestamp_format_exact() {
    assert_eq!(ts(2024, 1, 5, 10, 0, 0).format(), "2024-01-05T10:00:00");
    assert_eq!(ts(2024, 12, 31, 23, 59, 59).format(), "2024-12-31T23:59:59");
}

#[test]
fn encode_decode_round_trip() {
    let mut data = Data::new();
    data.append(
        ts(2024, 1, 5, 10, 0, 0),
        &vec![
            user("Alice", "Adams", Status::OnDuty),
            user("Bob", "Brown", Status::OffDuty),
        ],
    )
    .unwrap();
    data.append(
        ts(2024, 1, 6, 12, 0, 0),
        &vec![
            user("Alice", "Adams", Status::OffDuty),
            user("Carol", "Clark", Status::OnDuty),
        ],
    )
    .unwrap();
    let text = data.encode();
    let loaded = Data::decode(text.as_str()).unwrap();
    assert_eq!(loaded.cols, data.cols);
    assert_eq!(loaded.rows.len(), data.rows.len());
    for (a, b) in loaded.rows.iter().zip(data.rows.iter()) {
        assert_eq!(a.name, b.name);
        assert_eq!(a.cells, b.cells);
    }
}

#[test]
fn empty_table_round_trip() {
    let data = Data::new();
    let text = data.encode();
    assert_eq!(text.len(), 40);
    assert!(text.chars().all(|c| c == '0'));
    let loaded = Data::decode(text.as_str()).unwrap();
    assert_eq!(loaded.cols.len(), 0);
    assert_eq!(loaded.rows.len(), 0);
}

#[test]
fn decode_rejects_garbage() {
    assert!(matches!(Data::decode(""), Err(DutyError::StorageRead)));
    assert!(matches!(Data::decode("not a table"), Err(DutyError::StorageRead)));
    // A count field of letters.
    assert!(matches!(
        Data::decode("aaaaaaaaaaaaaaaaaaaa00000000000000000000"),
        Err(DutyError::StorageRead)
    ));
    // Trailing characters after a complete empty table.
    assert!(matches!(
        Data::decode("0000000000000000000000000000000000000000x"),
        Err(DutyError::StorageRead)
    ));
}

#[test]
fn user_status_classification() {
    let users = vec![
        RawUser { firstname: "Alice".to_string(), lastname: "Adams".to_string(), status_id: 1 },
        RawUser { firstname: "Bob".to_string(), lastname: "Brown".to_string(), status_id: 2 },
    ];
    let descriptions = vec![
        StatusDescription { id: 1, name: "Ready".to_string() },
        StatusDescription { id: 2, name: "Not in service".to_string() },
    ];
    let r = UserStatus::new_user_status(&users, &descriptions, "Not in service").unwrap();
    assert_eq!(r.len(), 2);
    assert_eq!(r[0].status, Status::OnDuty);
    assert_eq!(r[1].status, Status::OffDuty);
    assert_eq!(r[0].firstname, "Alice");
    assert_eq!(r[1].lastname, "Brown");
}

#[test]
fn unknown_status_id_is_upstream_error() {
    let users = vec![RawUser {
        firstname: "Alice".to_string(),
        lastname: "Adams".to_string(),
        status_id: 7,
    }];
    let descriptions = vec![StatusDescription { id: 1, name: "Ready".to_string() }];
    let r = UserStatus::new_user_status(&users, &descriptions, "Not in service");
    assert!(matches!(r, Err(DutyError::UpstreamFetch)));
}

#[test]
fn config_holds_access_key() {
    let c = Config::new("SECRET-REDACTED");
    assert_eq!(c.divera.access_key, "SECRET-REDACTED");
}

#[test]
fn data_path_per_year() {
    assert_eq!(get_data_path(2024), "2024-status.txt");
    assert_eq!(get_data_path(1999), "1999-status.txt");
    assert_eq!(get_data_path(5), "5-status.txt");
}

#[test]
fn full_name_joins_with_space() {
    let u = user("Alice", "Adams", Status::OnDuty);
    assert_eq!(u.full_name(), "Alice Adams");
}

#[test]
fn leap_year_days() {
    // February of a leap year parses; the 30th never does.
    assert!(Data::decode(&one_col_text("2024-02-29T00:00:00")).is_ok());
    assert!(Data::decode(&one_col_text("2023-02-29T00:00:00")).is_err());
    assert!(Data::decode(&one_col_text("2024-02-30T00:00:00")).is_err());
}

fn one_col_text(col: &str) -> String {
    // One column, one row named "A", present on duty.
    format!(
        "00000000000000000001{}{}{}A{}",
        col, "00000000000000000001", "00000000000000000001", "O"
    )
}

#[test]
fn decode_rejects_invariant_breaches() {
    let col = "2024-01-05T10:00:00";
    // Two identical column timestamps.
    let dup_cols = format!(
        "00000000000000000002{}{}{}{}A{}",
        col, col, "00000000000000000001", "00000000000000000001", "ON"
    );
    assert!(matches!(Data::decode(&dup_cols), Err(DutyError::StorageRead)));
    // Two rows with the same person key.
    let dup_names = format!(
        "00000000000000000001{}{}{}A{}{}A{}",
        col, "00000000000000000002", "00000000000000000001", "O", "00000000000000000001", "F"
    );
    assert!(matches!(Data::decode(&dup_names), Err(DutyError::StorageRead)));
    // A row absent everywhere, which no merge can produce.
    let all_absent = format!(
        "00000000000000000001{}{}{}A{}",
        col, "00000000000000000001", "00000000000000000001", "N"
    );
    assert!(matches!(Data::decode(&all_absent), Err(DutyError::StorageRead)));
}

#[test]
fn one_col_text_parses() {
    let data = Data::decode(&one_col_text("2024-02-29T00:00:00")).unwrap();
    assert_eq!(data.cols.len(), 1);
    assert_eq!(data.cols[0], ts(2024, 2, 29, 0, 0, 0));
    assert_eq!(data.rows.len(), 1);
    assert_eq!(data.rows[0].name, "A");
    assert_eq!(data.rows[0].cells, vec![Some(Status::OnDuty)]);
}
