use chombot::table_models::{TableInfo as HourlyTableInfo, TimeRange};
use chombot::table_ranking::{
    build_tables_message, rank_tables, slot_bounds, transpose, AvailabilityRange, TableInfo,
};

fn table(value: &str, availability: Vec<bool>) -> TableInfo {
    TableInfo { value: value.to_owned(), capacity: 4, availability }
}

fn slot(value: &str, available: bool) -> HourlyTableInfo {
    HourlyTableInfo {
        label: format!("Table {value}"),
        value: value.to_owned(),
        capacity: 6,
        available,
        name: value.to_owned(),
    }
}

fn range(table_id: &str, start: usize, len: u8) -> AvailabilityRange {
    AvailabilityRange { table_id: table_id.to_owned(), start, capacity: 4, len }
}

#[test]
fn availability_ranges_are_maximal_runs() {
    let t = table("T1", vec![true, true, false, true, false, false, true, true, true]);
    assert_eq!(
        t.availability_ranges(),
        vec![range("T1", 0, 2), range("T1", 3, 1), range("T1", 6, 3)]
    );
    assert_eq!(table("T2", vec![false, false]).availability_ranges(), vec![]);
}

#[test]
fn tables_rank_longest_then_latest_first() {
    let ranked = rank_tables(vec![
        table("A", vec![true, true, false, true]),
        table("B", vec![false, true, true, true]),
    ]);
    assert_eq!(ranked, vec![range("B", 1, 3), range("A", 0, 2), range("A", 3, 1)]);
}

#[test]
fn transpose_groups_slots_by_table() {
    let slots = vec![
        vec![slot("1", true), slot("2", false)],
        vec![slot("2", true), slot("1", true)],
    ];
    let tables = transpose(slots).unwrap();
    assert_eq!(tables.len(), 2);
    assert_eq!(tables[0].value, "1");
    assert_eq!(tables[0].capacity, 6);
    assert_eq!(tables[0].availability, vec![true, true]);
    assert_eq!(tables[1].value, "2");
    assert_eq!(tables[1].availability, vec![false, true]);
}

#[test]
fn transpose_rejects_unknown_or_missing_tables() {
    assert!(transpose(vec![vec![slot("1", true)], vec![slot("9", true)]]).is_err());
    assert!(transpose(vec![vec![slot("1", true), slot("2", true)], vec![slot("1", true)]]).is_err());
    assert!(transpose(vec![vec![slot("1", true), slot("1", true)]]).is_err());
    assert!(transpose(vec![]).unwrap().is_empty());
}

#[test]
fn time_range_reads_hours() {
    assert_eq!(TimeRange::parse("12-23").unwrap(), TimeRange { from: 12, to: 23 });
    assert_eq!(TimeRange::parse("+9-010").unwrap(), TimeRange { from: 9, to: 10 });
    assert!(TimeRange::parse("1223").is_err());
    assert!(TimeRange::parse("12-300").is_err());
    assert!(TimeRange::parse("-5").is_err());
    assert!(TimeRange::parse("a-5").is_err());
}

#[test]
fn tables_message_lists_ranked_stretches_with_times() {
    let ranked = vec![range("B", 1, 3), range("A", 0, 2), range("A", 3, 1)];
    assert_eq!(
        build_tables_message("2024-05-01", &ranked, 10),
        "Consider following tables for 2024-05-01:\n```\nTable B: 10:30-12:00\nTable A: 10:00-11:00\nTable A: 11:30-12:00\n```"
    );
    let many: Vec<AvailabilityRange> = (0..7).map(|i| range("T", i, 1)).collect();
    let text = build_tables_message("d", &many, 9);
    assert_eq!(text.matches("Table T").count(), 5);
    assert!(text.contains("Table T: 09:00-09:30\n"));
    assert_eq!(build_tables_message("d", &vec![], 9), "Consider following tables for d:\n```\n\n```");
}

#[test]
fn slot_bounds_cover_each_half_hour() {
    let bounds = slot_bounds(TimeRange { from: 9, to: 11 });
    let expected: Vec<(String, String)> = [("09:01", "09:30"), ("09:31", "10:00"), ("10:01", "10:30"), ("10:31", "11:00")]
        .iter()
        .map(|(a, b)| (a.to_string(), b.to_string()))
        .collect();
    assert_eq!(bounds, expected);
    assert!(slot_bounds(TimeRange { from: 12, to: 12 }).is_empty());
    assert!(slot_bounds(TimeRange { from: 14, to: 12 }).is_empty());
}

#[test]
fn test_deserialization() {
    let time_range_field = TimeRange::parse("12-23").unwrap();
    assert_eq!(time_range_field, TimeRange { from: 12, to: 23 });
}
