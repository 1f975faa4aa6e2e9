use rustic::backend::FileType;
use rustic::helpers::{
    all_file_types, bold_cell, bytes_size_to_string, count_to_string, file_info_row, file_infos,
    list_size, parse_command, table, table_right_from, table_with_titles, warm_up_command,
    warm_up_wait, CellAlignment, WarmUp, WarmUpOptions, MAX_READER_THREADS_NUM,
};
use rustic::id::Id;

fn id(n: u8) -> Id {
    Id::new([n; 32])
}

#[test]
fn sizes_are_rendered_with_binary_units() {
    assert_eq!(bytes_size_to_string(0), "0 B");
    assert_eq!(bytes_size_to_string(215), "215 B");
    assert_eq!(bytes_size_to_string(1023), "1023 B");
    assert_eq!(bytes_size_to_string(1024), "1.0 kiB");
    assert_eq!(bytes_size_to_string(301_000), "293.9 kiB");
    assert_eq!(bytes_size_to_string(1024 * 1024), "1.0 MiB");
    assert_eq!(bytes_size_to_string(1907 * 1024 * 1024), "1.9 GiB");
}

#[test]
fn counts_are_rendered_in_decimal() {
    assert_eq!(count_to_string(0), "0");
    assert_eq!(count_to_string(9), "9");
    assert_eq!(count_to_string(10), "10");
    assert_eq!(count_to_string(1234567890), "1234567890");
    assert_eq!(count_to_string(u64::MAX), "18446744073709551615");
}

#[test]
fn listing_sizes_add_up() {
    assert_eq!(list_size(&vec![]), 0);
    assert_eq!(list_size(&vec![(id(1), 5), (id(2), 0), (id(3), u32::MAX)]), 5 + u32::MAX as u64);
}

#[test]
fn overview_has_a_line_for_each_kind_and_the_totals() {
    assert_eq!(
        all_file_types(),
        vec![FileType::Key, FileType::Snapshot, FileType::Index, FileType::Pack]
    );
    let lists = vec![
        (FileType::Key, vec![(id(1), 100)]),
        (FileType::Snapshot, vec![]),
        (FileType::Index, vec![(id(2), 2000), (id(3), 48)]),
        (FileType::Pack, vec![(id(4), 1024 * 1024), (id(5), 1024 * 1024)]),
    ];
    let infos = file_infos(&lists);
    assert_eq!(infos.len(), 5);
    let rows: Vec<Vec<String>> = infos.iter().map(file_info_row).collect();
    let row = |a: &str, b: &str, c: &str| vec![a.to_string(), b.to_string(), c.to_string()];
    assert_eq!(rows[0], row("Key", "1", "100 B"));
    assert_eq!(rows[1], row("Snapshot", "0", "0 B"));
    assert_eq!(rows[2], row("Index", "2", "2.0 kiB"));
    assert_eq!(rows[3], row("Pack", "2", "2.0 MiB"));
    assert_eq!(infos[4].tpe, None);
    assert_eq!(infos[4].count, 5);
    assert_eq!(infos[4].size, 100 + 2048 + 2 * 1024 * 1024);
    assert_eq!(rows[4][0], "Total");
    assert_eq!(rows[4][1], "5");
    assert_eq!(file_infos(&vec![]).len(), 1);
    assert_eq!(file_info_row(&file_infos(&vec![])[0]), row("Total", "0", "0 B"));
}

#[test]
fn command_goes_before_reading() {
    let opts = |warm_up, command: Option<&str>, wait| WarmUpOptions {
        warm_up,
        warm_up_command: command.map(|c| c.as_bytes().to_vec()),
        warm_up_wait: wait,
    };
    assert_eq!(warm_up_wait(&opts(true, Some("c"), Some(5)), true), (WarmUp::Command, Some(5)));
    assert_eq!(warm_up_wait(&opts(false, Some("c"), Some(5)), false), (WarmUp::Command, None));
    assert_eq!(warm_up_wait(&opts(true, None, None), true), (WarmUp::Read, None));
    assert_eq!(warm_up_wait(&opts(false, None, Some(9)), true), (WarmUp::Skip, Some(9)));
    assert_eq!(MAX_READER_THREADS_NUM, 20);
}

#[test]
fn marker_is_replaced_by_the_identifier() {
    let hex = "ab".repeat(32);
    let run = |command: &str| String::from_utf8(warm_up_command(command.as_bytes(), &id(0xab))).unwrap();
    assert_eq!(run("warm %id now"), format!("warm {hex} now"));
    assert_eq!(run("%id%id"), format!("{hex}{hex}"));
    assert_eq!(run("%%id %i %d id% %ID"), format!("%{hex} %i %d id% %ID"));
    assert_eq!(run("plain"), "plain");
    assert_eq!(run(""), "");
    assert_eq!(run("%i"), "%i");
    assert_eq!(run("x%id"), format!("x{hex}"));
}

#[test]
fn titles_are_bold_and_columns_are_set_to_their_side() {
    let titles = || vec!["File type".to_string(), "Count".to_string(), "Total Size".to_string()];
    let t = table_right_from(1, titles());
    assert_eq!(t.header.len(), 3);
    assert!(t.header.iter().all(|c| c.bold));
    assert_eq!(t.header[2].content, "Total Size");
    assert_eq!(
        t.alignment,
        vec![CellAlignment::Left, CellAlignment::Right, CellAlignment::Right]
    );
    assert!(t.rows.is_empty());
    let all_right = table_right_from(0, titles());
    assert!(all_right.alignment.iter().all(|a| *a == CellAlignment::Right));
    let left = table_with_titles(titles());
    assert!(left.alignment.iter().all(|a| *a == CellAlignment::Left));
    assert_eq!(left.header.len(), 3);
    let mut empty = table();
    assert!(empty.header.is_empty() && empty.alignment.is_empty());
    empty.add_row(vec!["a".to_string()]);
    empty.add_row(vec![]);
    assert_eq!(empty.rows, vec![vec!["a".to_string()], vec![]]);
    let cell = bold_cell("x".to_string());
    assert!(cell.bold);
    assert_eq!(cell.content, "x");
}

fn words(command: &str) -> Vec<String> {
    parse_command(command.as_bytes())
        .into_iter()
        .map(|w| String::from_utf8(w).unwrap())
        .collect()
}

#[test]
fn command_is_split_at_spaces() {
    assert_eq!(words("warm up now"), vec!["warm", "up", "now"]);
    assert_eq!(words("a \t\n\r  b"), vec!["a", "b"]);
    assert_eq!(words("one"), vec!["one"]);
    assert_eq!(words("trailing "), vec!["trailing"]);
    assert!(words("").is_empty());
    // a command begins with its program
    assert!(words(" leading").is_empty());
}

#[test]
fn quotes_keep_spaces_in_a_word() {
    assert_eq!(words("sh -c \"echo  hi\" 'a b' c"), vec!["sh", "-c", "echo  hi", "a b", "c"]);
    assert_eq!(words("'it is \"one\"' \"it's\""), vec!["it is \"one\"", "it's"]);
    // quotes that are not closed, or hold nothing, are bytes like others
    assert_eq!(words("\"open end"), vec!["\"open", "end"]);
    assert_eq!(words("\"\" x"), vec!["\"\"", "x"]);
    assert_eq!(words("a\"b c\""), vec!["a\"b", "c\""]);
    // a word ends with its quote: what follows at once is not read
    assert_eq!(words("\"a b\"c d"), vec!["a b"]);
}
