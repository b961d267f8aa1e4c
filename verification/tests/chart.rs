use bandmeter::chart::{bucket_by_time, exe_name, is_labelled, max_traffic, tick_margin, ExeTable, Stat, TimeStat, TotalStats};
use bandmeter::period::PeriodType;

fn row(timestamp: i64, exe: Option<&str>, send: u64, recv: u64) -> Stat {
    Stat { timestamp, exe: exe.map(String::from), raddr: String::from("1.1.1.1"), send, recv }
}

#[test]
fn bars_take_rows_in_order() {
    let rows = vec![
        row(1000, Some("/a"), 1, 10),
        row(1060, Some("/b"), 2, 20),
        row(1130, Some("/a"), 3, 30),
        row(1300, None, 4, 40),
    ];
    let (bars, down, up) = bucket_by_time(&rows, 1000, 1360, 120);
    let got: Vec<(i64, u64, u64)> = bars.iter().map(|b| (b.timestamp, b.download, b.upload)).collect();
    assert_eq!(got, vec![(1000, 30, 3), (1120, 30, 3), (1240, 40, 4)]);
    assert_eq!((down, up), (100, 10));
}

#[test]
fn empty_period_has_no_bars() {
    let rows: Vec<Stat> = Vec::new();
    let (bars, down, up) = bucket_by_time(&rows, 50, 50, 60);
    assert!(bars.is_empty());
    assert_eq!((down, up), (0, 0));
    let (bars, _, _) = bucket_by_time(&rows, 0, 3600, 120);
    assert_eq!(bars.len(), 30);
    assert!(bars.iter().all(|b| b.download == 0 && b.upload == 0));
}

#[test]
fn rows_out_of_order_stop_a_bar() {
    let rows = vec![row(1000, None, 0, 1), row(1200, None, 0, 2), row(1010, None, 0, 4)];
    let (bars, down, _) = bucket_by_time(&rows, 1000, 1240, 120);
    let got: Vec<u64> = bars.iter().map(|b| b.download).collect();
    assert_eq!(got, vec![1, 6]);
    assert_eq!(down, 7);
}

#[test]
fn programs_are_totalled_and_ranked() {
    let rows = vec![
        row(0, Some("/usr/bin/a"), 1, 1),
        row(0, Some("/usr/bin/b"), 10, 10),
        row(60, None, 5, 0),
        row(60, Some("/usr/bin/a"), 2, 2),
        row(120, Some("/usr/bin/c"), 3, 3),
    ];
    let mut table = ExeTable::new();
    table.filter_stats(&rows);
    let got: Vec<(Option<String>, u64, u64)> = table.data.iter().map(|a| (a.exe.clone(), a.download, a.upload)).collect();
    assert_eq!(
        got,
        vec![
            (Some(String::from("/usr/bin/b")), 10, 10),
            (Some(String::from("/usr/bin/a")), 3, 3),
            (Some(String::from("/usr/bin/c")), 3, 3),
            (None, 0, 5),
        ]
    );
    assert_eq!(table.max_val, 20);
    table.filter_stats(&[]);
    assert!(table.data.is_empty());
    assert_eq!(table.max_val, 0);
}

#[test]
fn program_names_are_last_path_components() {
    assert_eq!(exe_name(&Some(String::from("/usr/bin/firefox"))), Some(String::from("firefox")));
    assert_eq!(exe_name(&Some(String::from("firefox"))), Some(String::from("firefox")));
    assert_eq!(exe_name(&Some(String::from("/opt/app/"))), Some(String::new()));
    assert_eq!(exe_name(&None), None);
}

#[test]
fn chart_scale_and_labels() {
    assert_eq!(tick_margin(PeriodType::Hour), 3);
    assert_eq!(tick_margin(PeriodType::Day), 3);
    assert_eq!(tick_margin(PeriodType::Week), 1);
    assert_eq!(tick_margin(PeriodType::Month), 1);
    assert!(!is_labelled(0, 3));
    assert!(is_labelled(3, 3));
    assert!(!is_labelled(4, 3));
    let data = vec![
        TimeStat { timestamp: 0, download: 5, upload: 9 },
        TimeStat { timestamp: 60, download: 12, upload: 1 },
    ];
    assert_eq!(max_traffic(&data), 12);
    assert_eq!(max_traffic(&[]), 0);
}

#[test]
fn total_labels() {
    let t = TotalStats { download: 1500, upload: 500 };
    let (down, total, up) = t.labels();
    assert_eq!(down, "1.50 KB");
    assert_eq!(total, "2.00 KB");
    assert_eq!(up, "500 B");
    assert!(!t.is_empty());
    assert!(TotalStats { download: 0, upload: 0 }.is_empty());
}

#[test]
fn chart_and_table_show_the_same_bytes() {
    let rows = vec![
        row(3600, Some("/usr/bin/a"), 7, 100),
        row(3700, Some("/usr/bin/b"), 1, 5),
        row(5000, Some("/usr/bin/a"), 2, 9),
        row(7100, None, 4, 3),
    ];
    let (bars, down, up) = bucket_by_time(&rows, 3600, 7200, 120);
    let bar_down: u64 = bars.iter().map(|b| b.download).sum();
    let bar_up: u64 = bars.iter().map(|b| b.upload).sum();
    let mut table = ExeTable::new();
    table.filter_stats(&rows);
    let table_down: u64 = table.data.iter().map(|a| a.download).sum();
    let table_up: u64 = table.data.iter().map(|a| a.upload).sum();
    assert_eq!((bar_down, bar_up), (117, 14));
    assert_eq!((down, up), (117, 14));
    assert_eq!((table_down, table_up), (117, 14));
    let reversed: Vec<Stat> = rows.iter().rev().cloned().collect();
    let (_, down, up) = bucket_by_time(&reversed, 3600, 7200, 120);
    assert_eq!((down, up), (117, 14));
}

#[test]
fn table_needs_only_each_program_to_fit() {
    let big = 1u64 << 63;
    let rows = vec![row(0, Some("/a"), 0, big), row(0, Some("/b"), 0, big)];
    let mut table = ExeTable::new();
    assert!(bandmeter::chart::filter_checked(&mut table, &rows));
    assert_eq!(table.data.len(), 2);
    assert_eq!(table.max_val, big);
    let too_big = vec![row(0, Some("/a"), 1, big), row(60, Some("/a"), 0, big)];
    let mut other = ExeTable::new();
    assert!(!bandmeter::chart::filter_checked(&mut other, &too_big));
    assert!(other.data.is_empty());
}

#[test]
fn table_does_not_depend_on_row_order() {
    let rows = vec![
        row(0, Some("/x"), 5, 1),
        row(10, Some("/y"), 2, 2),
        row(20, Some("/x"), 1, 1),
        row(30, None, 0, 9),
    ];
    let reversed: Vec<Stat> = rows.iter().rev().cloned().collect();
    let mut t1 = ExeTable::new();
    let mut t2 = ExeTable::new();
    t1.filter_stats(&rows);
    t2.filter_stats(&reversed);
    let a: Vec<(Option<String>, u64, u64)> = t1.data.iter().map(|x| (x.exe.clone(), x.download, x.upload)).collect();
    let b: Vec<(Option<String>, u64, u64)> = t2.data.iter().map(|x| (x.exe.clone(), x.download, x.upload)).collect();
    assert_eq!(a, b);
    assert_eq!(t1.max_val, t2.max_val);
}
