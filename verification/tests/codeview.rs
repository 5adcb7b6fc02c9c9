use memtrace_ui::codeview::{split_lines, window_rows, CodeLoader, CodeRow, LineSpan};
use memtrace_ui::topdown::StackInfo;

fn span(start: usize, end: usize) -> LineSpan {
    LineSpan { start, end }
}

fn info(file_name: &str, line_number: u32, peaked: u64) -> StackInfo {
    StackInfo {
        id: 1,
        name: "f".to_string(),
        file_name: file_name.to_string(),
        line_number,
        peaked,
        leaked: 0,
        allocations: 0,
        temporary: 0,
    }
}

#[test]
fn lines_end_with_a_line_feed_or_with_the_text() {
    assert_eq!(split_lines(b"a\nbc\n\nd"), vec![span(0, 1), span(2, 4), span(5, 5), span(6, 7)]);
    assert_eq!(split_lines(b"a\n"), vec![span(0, 1)]);
    assert_eq!(split_lines(b"a\n\n"), vec![span(0, 1), span(2, 2)]);
    assert_eq!(split_lines(b"\n"), vec![span(0, 0)]);
    assert_eq!(split_lines(b""), vec![]);
    assert_eq!(split_lines(b"abc"), vec![span(0, 3)]);
}

#[test]
fn carriage_return_before_a_line_feed_is_left_out() {
    assert_eq!(split_lines(b"a\r\nb\r\n"), vec![span(0, 1), span(3, 4)]);
    assert_eq!(split_lines(b"\r\n"), vec![span(0, 0)]);
    assert_eq!(split_lines(b"a\r"), vec![span(0, 2)]);
    assert_eq!(split_lines(b"a\rb\n"), vec![span(0, 3)]);
    assert_eq!(split_lines(b"\r\r\n"), vec![span(0, 1)]);
}

#[test]
fn lines_agree_with_the_lines_of_a_string() {
    for text in ["", "a", "a\n", "a\nb", "\n\n", "x\r\ny\r\n\r\nz", "fn main() {\n    let v = vec![1];\n}\n"] {
        let spans = split_lines(text.as_bytes());
        let got: Vec<&str> = spans.iter().map(|s| &text[s.start..s.end]).collect();
        let want: Vec<&str> = text.lines().collect();
        assert_eq!(got, want);
    }
}

#[test]
fn window_shows_half_the_view_on_each_side_of_the_line() {
    let spans: Vec<LineSpan> = (0..20).map(|i| span(2 * i, 2 * i + 1)).collect();
    let rows = window_rows(&spans, 10, 6, 4096);
    assert_eq!(rows.iter().map(|r| r.number).collect::<Vec<_>>(), vec![7, 8, 9, 10, 11, 12, 13]);
    assert_eq!(rows[3], CodeRow { number: 10, span: span(18, 19), peaked: Some(4096) });
    assert_eq!(rows[0], CodeRow { number: 7, span: span(12, 13), peaked: None });
    assert_eq!(rows.iter().filter(|r| r.peaked.is_some()).count(), 1);
}

#[test]
fn window_is_cut_at_the_ends_of_the_file() {
    let spans: Vec<LineSpan> = (0..5).map(|i| span(i, i)).collect();
    assert_eq!(window_rows(&spans, 1, 6, 0).iter().map(|r| r.number).collect::<Vec<_>>(), vec![1, 2, 3, 4]);
    assert_eq!(window_rows(&spans, 5, 7, 0).iter().map(|r| r.number).collect::<Vec<_>>(), vec![2, 3, 4, 5]);
    assert_eq!(window_rows(&spans, 3, 1, 0).iter().map(|r| r.number).collect::<Vec<_>>(), vec![3]);
    assert_eq!(window_rows(&spans, 3, 0, 0).iter().map(|r| r.number).collect::<Vec<_>>(), vec![3]);
    assert_eq!(window_rows(&spans, 9, 4, 0), vec![]);
    assert_eq!(window_rows(&spans, 0, 2, 7).iter().map(|r| (r.number, r.peaked)).collect::<Vec<_>>(), vec![(1, None)]);
    assert_eq!(window_rows(&spans, u32::MAX, u32::MAX, 0).len(), 0);
    assert_eq!(window_rows(&spans, 3, u32::MAX, 0).len(), 5);
    assert_eq!(window_rows(&vec![], 1, 10, 0), vec![]);
}

#[test]
fn loader_keeps_texts_by_name() {
    let mut loader = CodeLoader::new();
    assert!(!loader.contains_key(&"a.rs".to_string()));
    assert_eq!(loader.get(&"a.rs".to_string()), None);
    loader.insert("a.rs".to_string(), "one\ntwo\n".to_string());
    loader.insert("b.rs".to_string(), "b".to_string());
    assert!(loader.contains_key(&"a.rs".to_string()));
    assert_eq!(loader.get(&"b.rs".to_string()), Some(&"b".to_string()));
    assert_eq!(loader.get(&"c.rs".to_string()), None);
    loader.insert("a.rs".to_string(), "new".to_string());
    assert_eq!(loader.get(&"a.rs".to_string()), Some(&"new".to_string()));
    assert_eq!(loader.get(&"b.rs".to_string()), Some(&"b".to_string()));
    assert_eq!(loader.mapped.len(), 2);
}

#[test]
fn viewer_shows_the_lines_around_the_node() {
    let mut loader = CodeLoader::new();
    loader.insert("a.rs".to_string(), "l1\nl2\r\nl3\nl4\nl5\n".to_string());
    let rows = loader.show(&info("a.rs", 3, 77), 2).unwrap();
    assert_eq!(
        rows,
        vec![
            CodeRow { number: 2, span: span(3, 5), peaked: None },
            CodeRow { number: 3, span: span(7, 9), peaked: Some(77) },
            CodeRow { number: 4, span: span(10, 12), peaked: None },
        ]
    );
}

#[test]
fn viewer_shows_nothing_of_a_file_that_was_not_read() {
    let mut loader = CodeLoader::new();
    assert_eq!(loader.show(&info("a.rs", 3, 77), 2), None);
    loader.insert("b.rs".to_string(), "x".to_string());
    assert_eq!(loader.show(&info("a.rs", 3, 77), 2), None);
    assert_eq!(loader.show(&info("", 0, 0), 2), None);
}
