use s3_stream_upload::assemble::{assemble, sort_parts};
use s3_stream_upload::part::CompletedPart;

fn part(part_number: i32, e_tag: &str) -> CompletedPart {
    CompletedPart { part_number, e_tag: e_tag.to_string() }
}

#[test]
fn sorts_by_part_number() {
    let sorted = sort_parts(vec![part(3, "c"), part(1, "a"), part(4, "d"), part(2, "b")]);
    assert_eq!(sorted, vec![part(1, "a"), part(2, "b"), part(3, "c"), part(4, "d")]);
}

#[test]
fn sorting_again_changes_nothing() {
    let once = sort_parts(vec![part(5, "e"), part(2, "b"), part(9, "i"), part(1, "a")]);
    let expected = vec![part(1, "a"), part(2, "b"), part(5, "e"), part(9, "i")];
    assert_eq!(once, expected);
    assert_eq!(sort_parts(once), expected);
}

#[test]
fn equal_numbers_keep_their_order() {
    let sorted = sort_parts(vec![part(2, "x"), part(1, "first"), part(2, "y"), part(1, "second")]);
    assert_eq!(sorted, vec![part(1, "first"), part(1, "second"), part(2, "x"), part(2, "y")]);
}

#[test]
fn sorts_nothing_and_one() {
    assert_eq!(sort_parts(Vec::new()), Vec::new());
    assert_eq!(sort_parts(vec![part(1, "a")]), vec![part(1, "a")]);
}

#[test]
fn sorts_negative_numbers_too() {
    assert_eq!(
        sort_parts(vec![part(0, "z"), part(-3, "n"), part(i32::MAX, "m"), part(i32::MIN, "l")]),
        vec![part(i32::MIN, "l"), part(-3, "n"), part(0, "z"), part(i32::MAX, "m")]
    );
}

#[test]
fn assembles_the_parts_in_order() {
    assert_eq!(
        assemble(vec![part(2, "b"), part(3, "c"), part(1, "a")], 3),
        Some(vec![part(1, "a"), part(2, "b"), part(3, "c")])
    );
}

#[test]
fn assembles_the_empty_list_for_no_part() {
    assert_eq!(assemble(Vec::new(), 0), Some(Vec::new()));
}

#[test]
fn one_part() {
    assert_eq!(assemble(vec![part(1, "only")], 1), Some(vec![part(1, "only")]));
}

#[test]
fn missing_part_is_no_list() {
    assert_eq!(assemble(vec![part(1, "a"), part(3, "c")], 3), None);
    assert_eq!(assemble(vec![part(1, "a"), part(3, "c")], 2), None);
    assert_eq!(assemble(vec![part(2, "b")], 1), None);
    assert_eq!(assemble(Vec::new(), 1), None);
}

#[test]
fn doubled_part_is_no_list() {
    assert_eq!(assemble(vec![part(1, "a"), part(1, "a"), part(2, "b")], 3), None);
    assert_eq!(assemble(vec![part(1, "a"), part(1, "b")], 2), None);
    assert_eq!(assemble(vec![part(1, "a"), part(1, "b")], 1), None);
}

#[test]
fn part_too_many_is_no_list() {
    assert_eq!(assemble(vec![part(1, "a"), part(2, "b")], 1), None);
    assert_eq!(assemble(vec![part(0, "z"), part(1, "a")], 2), None);
    assert_eq!(assemble(vec![part(1, "a")], 0), None);
    assert_eq!(assemble(Vec::new(), -1), None);
}

#[test]
fn many_parts_in_reverse() {
    let count = 500;
    let parts: Vec<CompletedPart> =
        (1..=count).rev().map(|n| part(n, &format!("tag{}", n))).collect();
    let list = assemble(parts, count).unwrap();
    assert_eq!(list.len(), count as usize);
    for (i, p) in list.iter().enumerate() {
        assert_eq!(p.part_number, i as i32 + 1);
        assert_eq!(p.e_tag, format!("tag{}", i + 1));
    }
}
