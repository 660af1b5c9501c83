use the_third_sloppening::editor::count_lines;
use the_third_sloppening::line_index::LineIndex;

#[test]
fn index_is_correct_across_chunks() {
    let text = b"a\nb\nc\nd\n";
    let index = LineIndex::build(text, 2);

    assert_eq!(index.line_count(), 5);
    assert_eq!(index.line_start(3), Some(6));
    assert_eq!(index.line_of_offset(0), 0);
    assert_eq!(index.line_of_offset(3), 1);
}

#[test]
fn chunk_size_does_not_change_the_index() {
    let text = b"first\n\nthird line\nfourth\n\n";
    let expected: Vec<Option<usize>> = (0..8).map(|i| LineIndex::build(text, 1).line_start(i)).collect();
    assert_eq!(
        expected,
        vec![Some(0), Some(6), Some(7), Some(18), Some(25), Some(26), None, None]
    );
    for chunk_size in [0usize, 2, 3, 5, 7, 100] {
        let index = LineIndex::build(text, chunk_size);
        assert_eq!(index.line_count(), 6);
        for i in 0..8 {
            assert_eq!(index.line_start(i), expected[i]);
        }
    }
}

#[test]
fn empty_text_has_one_line() {
    let index = LineIndex::build(b"", 4);
    assert_eq!(index.line_count(), 1);
    assert_eq!(index.line_start(0), Some(0));
    assert_eq!(index.line_start(1), None);
    assert_eq!(index.line_of_offset(0), 0);
    assert_eq!(index.line_of_offset(1000), 0);
}

#[test]
fn line_of_each_line_start_is_that_line() {
    let text = "ab\ncd\n\nefg\n".as_bytes();
    let index = LineIndex::build(text, 3);
    for i in 0..index.line_count() {
        let start = index.line_start(i).unwrap();
        assert_eq!(index.line_of_offset(start), i);
    }
    assert_eq!(index.line_of_offset(2), 0);
    assert_eq!(index.line_of_offset(5), 1);
    assert_eq!(index.line_of_offset(9), 3);
    assert_eq!(index.line_of_offset(usize::MAX), 4);
}

#[test]
fn cloned_index_answers_the_same() {
    let index = LineIndex::build(b"x\ny", 1);
    let copy = index.clone();
    assert_eq!(copy.line_count(), 2);
    assert_eq!(copy.line_start(1), Some(2));
}

#[test]
fn line_index_and_editor_count_the_same_lines() {
    for text in ["", "a", "a\n", "\n\n", "one\ntwo\nthree\n"] {
        let index = LineIndex::build(text.as_bytes(), 2);
        assert_eq!(index.line_count(), count_lines(text));
    }
}
