use proflow::parser::compare_presentations;

#[test]
fn identical_documents_are_identical() {
    assert_eq!(
        compare_presentations("{\n  \"a\": 1\n}", "{\n  \"a\": 1\n}"),
        "Presentations are identical"
    );
}

#[test]
fn line_endings_alone_do_not_differ() {
    assert_eq!(
        compare_presentations("a\r\nb\n", "a\nb"),
        "Presentations are identical"
    );
}

#[test]
fn differing_lines_are_reported_with_signs() {
    assert_eq!(
        compare_presentations("{\n  \"a\": 1\n}", "{\n  \"a\": 2\n}\nextra"),
        "Presentations differ:\n-  \"a\": 1\n+  \"a\": 2\n+extra\n"
    );
    assert_eq!(
        compare_presentations("x\ny", "x"),
        "Presentations differ:\n-y\n"
    );
}
