use index_sync::lines::{drop_empty_lines, join_lines, split_lines};
use std::io::BufRead;
use index_sync::regenerate_index::{regenerate, relative_index_file, IndexWrite};

fn lines(items: &[&str]) -> Vec<Vec<u8>> {
    items.iter().map(|l| l.as_bytes().to_vec()).collect()
}

fn path(parts: &[&str]) -> Vec<String> {
    parts.iter().map(|p| p.to_string()).collect()
}

#[test]
fn split_takes_line_feeds_as_line_ends() {
    assert_eq!(split_lines(b""), lines(&[]));
    assert_eq!(split_lines(b"a"), lines(&["a"]));
    assert_eq!(split_lines(b"a\n"), lines(&["a"]));
    assert_eq!(split_lines(b"a\nb"), lines(&["a", "b"]));
    assert_eq!(split_lines(b"a\n\nb\n"), lines(&["a", "", "b"]));
    assert_eq!(split_lines(b"\n"), lines(&[""]));
    assert_eq!(split_lines(b"\n\n"), lines(&["", ""]));
}

#[test]
fn split_drops_a_carriage_return_before_a_line_feed_only() {
    assert_eq!(split_lines(b"a\r\nb\r\n"), lines(&["a", "b"]));
    assert_eq!(split_lines(b"a\r"), lines(&["a\r"]));
    assert_eq!(split_lines(b"a\rb\n"), lines(&["a\rb"]));
    assert_eq!(split_lines(b"a\r\r\n"), lines(&["a\r"]));
    assert_eq!(split_lines(b"\r\n"), lines(&[""]));
}

#[test]
fn split_agrees_with_the_standard_library() {
    let samples: [&[u8]; 8] = [
        b"",
        b"{\"name\":\"a\"}\n{\"name\":\"b\"}\n",
        b"one\r\ntwo\nthree",
        b"\n\n\r\n",
        b"tail\r",
        b"x\n\ry\n",
        b"\r",
        b"a\n\n",
    ];
    for sample in samples {
        let expected: Vec<Vec<u8>> =
            sample.lines().map(|l| l.unwrap().into_bytes()).collect();
        assert_eq!(split_lines(sample), expected);
    }
}

#[test]
fn empty_lines_are_dropped() {
    assert_eq!(drop_empty_lines(lines(&["", "a", "", "", "b", ""])), lines(&["a", "b"]));
    assert_eq!(drop_empty_lines(lines(&[])), lines(&[]));
    assert_eq!(drop_empty_lines(lines(&["", ""])), lines(&[]));
}

#[test]
fn join_closes_every_line_with_one_line_feed() {
    assert_eq!(join_lines(&lines(&[])), b"".to_vec());
    assert_eq!(join_lines(&lines(&["a"])), b"a\n".to_vec());
    assert_eq!(join_lines(&lines(&["a", "bc"])), b"a\nbc\n".to_vec());
}

#[test]
fn what_is_written_is_read_back() {
    let records = lines(&["{\"name\":\"a\",\"vers\":\"1.0.0\"}", "{\"name\":\"a\",\"vers\":\"1.0.1\"}"]);
    let data = join_lines(&records);
    assert_eq!(drop_empty_lines(split_lines(&data)), records);
    assert_eq!(join_lines(&drop_empty_lines(split_lines(&data))), data);
}

#[test]
fn index_path_shards_by_the_length_of_the_name() {
    assert_eq!(relative_index_file("a"), Some(path(&["1", "a"])));
    assert_eq!(relative_index_file("ab"), Some(path(&["2", "ab"])));
    assert_eq!(relative_index_file("abc"), Some(path(&["3", "a", "abc"])));
    assert_eq!(relative_index_file("abcd"), Some(path(&["ab", "cd", "abcd"])));
    assert_eq!(relative_index_file("serde_json"), Some(path(&["se", "rd", "serde_json"])));
}

#[test]
fn index_path_is_in_lower_case() {
    assert_eq!(relative_index_file("Serde"), Some(path(&["se", "rd", "serde"])));
    assert_eq!(relative_index_file("X"), Some(path(&["1", "x"])));
    assert_eq!(relative_index_file("AbC"), Some(path(&["3", "a", "abc"])));
    assert_eq!(relative_index_file("A-Z_09"), Some(path(&["a-", "z_", "a-z_09"])));
}

#[test]
fn names_without_a_place_have_no_path() {
    assert_eq!(relative_index_file(""), None);
    assert_eq!(relative_index_file("été"), None);
    assert_eq!(regenerate("", &lines(&["x"])), None);
}

#[test]
fn regenerate_plans_the_whole_file() {
    let records = lines(&["{\"vers\":\"0.1.0\"}", "{\"vers\":\"0.2.0\"}"]);
    assert_eq!(
        regenerate("Rand", &records),
        Some(IndexWrite {
            directory: path(&["ra", "nd"]),
            path: path(&["ra", "nd", "rand"]),
            contents: b"{\"vers\":\"0.1.0\"}\n{\"vers\":\"0.2.0\"}\n".to_vec(),
        })
    );
    assert_eq!(
        regenerate("a", &lines(&[])),
        Some(IndexWrite { directory: path(&["1"]), path: path(&["1", "a"]), contents: vec![] })
    );
}
