use missingno_gamedb::Report;

#[test]
fn an_empty_report_says_so() {
    let report = Report::default();
    assert_eq!(report.item_count(), 0);
    assert_eq!(report.render("gamedb report"), "# gamedb report\n\nNothing to review.\n");
}

#[test]
fn items_join_their_section_in_order() {
    let mut report = Report::new();
    report.add("A", "one".to_owned());
    report.add("B", "two".to_owned());
    report.add("A", "three".to_owned());
    assert_eq!(report.item_count(), 3);
    assert_eq!(
        report.render("t"),
        "# t\n\n## A (2)\n\n- one\n- three\n\n## B (1)\n\n- two\n"
    );
}
