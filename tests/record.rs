use adr_core::adr::Adr;
use adr_core::date::AdrDate;
use adr_core::status::{AdrState, Status, TransitionStatus};
use chrono::Datelike;

fn today() -> (AdrDate, String) {
    let now = chrono::Utc::now().date_naive();
    let date = AdrDate::new(now.year() as u32, now.month(), now.day()).unwrap();
    (date, now.format("%Y-%m-%d").to_string())
}

#[test]
fn test_adr_update_status() {
    let mut adr_sut = Adr::new();
    adr_sut.file_name = String::from("/a");
    adr_sut.base_path = String::from("/tmp/n");
    adr_sut.file_path = String::from("/a");
    adr_sut.content = String::from(
        "== ADR-MVA-507 Decide about ...\n\n*Status:* {wip} *Date:* 2019-10-28\n\n[cols=\",\",options=...",
    );
    adr_sut.title = String::from("String::from(self.title.as_str())");
    adr_sut.date = String::from("2023-10-28");

    let update_true = adr_sut.update_status(TransitionStatus::DECIDED);

    assert_eq!(adr_sut.status, Status::DECIDED);
    assert_eq!(adr_sut.state, AdrState { status: Status::DECIDED });
    assert_eq!(adr_sut.content.contains(Status::DECIDED.as_str()), true);
    assert_eq!(update_true, true);
}

#[test]
fn test_adr_add_reference() {
    let mut adr_sut = Adr::new();
    adr_sut.file_name = String::from("/a");
    adr_sut.base_path = String::from("/tmp/n");
    adr_sut.file_path = String::from("/a");
    adr_sut.content = String::from(
        "== ADR-MVA-507 Decide about ...\n\n*Status:* {decided} *Date:* 2019-10-28\n\n[cols=\",\",options=...",
    );
    adr_sut.title = String::from("String::from(self.title.as_str())");
    adr_sut.date = String::from("2023-10-28");
    adr_sut.status = Status::DECIDED;
    adr_sut.state = AdrState { status: Status::DECIDED };

    adr_sut.add_reference("by adr-num-123");

    assert_eq!(adr_sut.status, Status::DECIDED);
    assert_eq!(adr_sut.state, AdrState { status: Status::DECIDED });

    let expected_status = "{decided} by adr-num-123 *Date:* 2019-10-28";
    assert_eq!(adr_sut.content.contains(expected_status), true);
}

#[test]
fn test_build_adr_from_adr_constructor() {
    let content = "
        == ADR-MVA-507 Decide about ...

        *Status:* {wip}  *Date:* 2019-10-28
        ....
        bug there is another date 2119-10-28
        [tags]#deployment view# [tags]#network# [tags]#security#";

    let adr_sut = Adr::from("base_path".to_string(), "a_path".to_string(), content.to_string());

    assert_eq!(adr_sut.title, "ADR-MVA-507 Decide about ...");
    assert_eq!(adr_sut.date, "2019-10-28");
    assert_eq!(adr_sut.base_path, "base_path");
    assert_eq!(adr_sut.file_path, "a_path");
    assert_eq!(adr_sut.content, content.to_string());
    assert_eq!(adr_sut.tags, "#deployment view #network #security ");
    assert_eq!(adr_sut.status, Status::WIP);
}

#[test]
fn test_build_adr_wo_tags() {
    let content = "
        == ADR-MVA-507 Decide about ...

        *Status:* {wip}  *Date:* 2019-10-28
        ....";

    let adr_sut = Adr::from("base_path".to_string(), "a_path".to_string(), content.to_string());

    assert_eq!(adr_sut.title, "ADR-MVA-507 Decide about ...");
    assert_eq!(adr_sut.base_path, "base_path");
    assert_eq!(adr_sut.file_path, "a_path");
    assert_eq!(adr_sut.content, content.to_string());
    assert_eq!(adr_sut.tags, "");
}

#[test]
fn test_update_date() {
    let content = "
        == ADR-MVA-507 Decide about ...

        *Status:* {wip}  *Date:* 2019-10-28
        ....";

    let mut adr_sut = Adr::from("base_path".to_string(), "a_path".to_string(), content.to_string());

    assert_eq!(adr_sut.date, "2019-10-28");

    let (date, formatted) = today();
    adr_sut.update_date(date);

    assert_eq!(adr_sut.date, formatted);

    let contain = format!("*Status:* {{wip}}  *Date:* {}", formatted);
    assert_eq!(true, adr_sut.content.contains(contain.as_str()));
}

#[test]
fn test_update_title() {
    let content = "
        == ADR-MVA-507 Decide about ...

        *Status:* {wip}  *Date:* 2019-10-28
        ....";

    let mut adr_sut = Adr::from("base_path".to_string(), "a_path".to_string(), content.to_string());

    assert_eq!(adr_sut.title, "ADR-MVA-507 Decide about ...");
    adr_sut.update_title("This is a new completly amazing title");

    assert_eq!(adr_sut.title, "This is a new completly amazing title");
    assert_eq!(
        true,
        adr_sut.content.contains("== This is a new completly amazing title")
    );
}

#[test]
fn parse_without_markers_gives_sentinels() {
    let adr = Adr::from("b".to_string(), "notes.adoc".to_string(), "plain text\n=\n{}\n".to_string());
    assert_eq!(adr.title, "None");
    assert_eq!(adr.date, "None");
    assert_eq!(adr.status, Status::NONE);
    assert_eq!(adr.tags, "");
    assert!(adr.tags_array.is_empty());
    assert_eq!(adr.file_id, 0);
    assert_eq!(adr.file_name, "notes.adoc");
}

#[test]
fn parse_reads_ids_from_the_file_name_only() {
    let adr = Adr::from("/adr/".to_string(), "007-x/012-foo.adoc".to_string(), String::new());
    assert_eq!(adr.file_name, "012-foo.adoc");
    assert_eq!(adr.file_id, 12);
    assert_eq!(adr.path(), "/adr/007-x/012-foo.adoc");
    let adr = Adr::from("/adr".to_string(), "foo.adoc".to_string(), String::new());
    assert_eq!(adr.path(), "/adr/foo.adoc");
    let adr = Adr::from("/adr".to_string(), "/abs/foo.adoc".to_string(), String::new());
    assert_eq!(adr.path(), "/abs/foo.adoc");
}

#[test]
fn status_token_is_trimmed_and_greedy_on_its_line() {
    let adr = Adr::from("b".to_string(), "a".to_string(), "x { decided }\n".to_string());
    assert_eq!(adr.status, Status::DECIDED);
    let adr = Adr::from("b".to_string(), "a".to_string(), "{wip} {decided}\n".to_string());
    assert_eq!(adr.status, Status::NONE);
    let adr = Adr::from("b".to_string(), "a".to_string(), "{\n}{obsoleted}".to_string());
    assert_eq!(adr.status, Status::CANCELLED);
}

#[test]
fn tags_are_trimmed_and_kept_in_order() {
    let (line, tags) = Adr::get_tags(&String::from("[tags]# b # [tags]## [tags]#a#[tags]#b#"));
    assert_eq!(line, "# b  #a #b ");
    assert_eq!(tags, vec!["b".to_string(), "a".to_string(), "b".to_string()]);
}

#[test]
fn date_is_the_first_date_shaped_text() {
    let adr = Adr::from("b".to_string(), "a".to_string(), "v1-2-3 2020-1-01 2021-02-03x".to_string());
    assert_eq!(adr.date, "2021-02-03");
}

#[test]
fn update_status_on_stamps_the_given_date() {
    let content = "= T\n*Status:* {wip} *Date:* 2019-10-28\n";
    let mut adr = Adr::from("b".to_string(), "001-t.adoc".to_string(), content.to_string());
    let date = AdrDate::new(2024, 2, 9).unwrap();
    assert!(adr.update_status_on(TransitionStatus::DECIDED, date));
    assert_eq!(adr.content, "= T\n*Status:* {decided} *Date:* 2024-02-09\n");
    assert_eq!(adr.date, "2024-02-09");
    assert_eq!(adr.status, Status::DECIDED);

    let before = adr.content.clone();
    assert!(!adr.update_status_on(TransitionStatus::DECIDED, date));
    assert_eq!(adr.content, before);
    assert_eq!(adr.status, Status::DECIDED);
}

#[test]
fn round_trip_after_a_status_change() {
    let content = "= T\n*Status:* {decided} *Date:* 2019-10-28\n[tags]#x#\n";
    let mut adr = Adr::from("b".to_string(), "a.adoc".to_string(), content.to_string());
    let date = AdrDate::new(2030, 12, 31).unwrap();
    assert!(adr.update_status_on(TransitionStatus::SUPERSEDED, date));
    let back = Adr::from("b".to_string(), "a.adoc".to_string(), adr.content.clone());
    assert_eq!(back.status, Status::SUPERSEDED);
    assert_eq!(back.content.matches("{superseded}").count(), 1);
    assert_eq!(back.date, "2030-12-31");
}

#[test]
fn only_the_first_status_token_is_replaced() {
    let content = "{wip}\n{wip}\n";
    let mut adr = Adr::from("b".to_string(), "a".to_string(), content.to_string());
    let date = AdrDate::new(2020, 1, 1).unwrap();
    assert!(adr.update_status_on(TransitionStatus::CANCELLED, date));
    assert_eq!(adr.content, "{obsoleted}\n{wip}\n");
    adr.add_reference("b.adoc");
    assert_eq!(adr.content, "{obsoleted} b.adoc\n{wip}\n");
}

#[test]
fn template_is_retitled() {
    let template = "= short title\n{wip} 2019-10-28\n";
    let adr = Adr::from_template(
        "src".to_string(),
        "002-new-one.adoc".to_string(),
        template.to_string(),
        "New one",
    );
    assert_eq!(adr.content, "= New one\n{wip} 2019-10-28\n");
    assert_eq!(adr.title, "New one");
    assert_eq!(adr.file_id, 2);
    assert_eq!(adr.status, Status::WIP);
}

#[test]
fn dates_are_checked_and_written_with_zeros() {
    assert!(AdrDate::new(2020, 13, 1).is_none());
    assert!(AdrDate::new(2020, 0, 1).is_none());
    assert!(AdrDate::new(10000, 1, 1).is_none());
    assert!(AdrDate::new(2020, 1, 32).is_none());
    let d = AdrDate::new(7, 3, 4).unwrap();
    let text: String = d.to_text().into_iter().collect();
    assert_eq!(text, "0007-03-04");
}

#[test]
fn today_matches_the_clock() {
    let (expected, formatted) = today();
    let got = AdrDate::today().unwrap();
    assert_eq!(got, expected);
    let text: String = got.to_text().into_iter().collect();
    assert_eq!(text, formatted);
}

#[test]
fn a_token_the_parser_trims_is_not_rewritten() {
    let content = "= T\n*Status:* { wip } *Date:* 2019-10-28\n";
    let mut adr = Adr::from("b".to_string(), "a.adoc".to_string(), content.to_string());
    assert_eq!(adr.status, Status::WIP);
    let date = AdrDate::new(2024, 2, 9).unwrap();
    assert!(!adr.update_status_on(TransitionStatus::DECIDED, date));
    assert_eq!(adr.content, content);
    assert_eq!(adr.status, Status::WIP);
}

#[test]
fn status_and_date_read_back_after_a_change() {
    let content = "= T\n2001-01-01 {completed}\n";
    let mut adr = Adr::from("b".to_string(), "a.adoc".to_string(), content.to_string());
    let date = AdrDate::new(2024, 2, 9).unwrap();
    assert!(adr.update_status_on(TransitionStatus::CANCELLED, date));
    let back = Adr::from("b".to_string(), "a.adoc".to_string(), adr.content.clone());
    assert_eq!(back.status, adr.status);
    assert_eq!(back.date, adr.date);
    assert_eq!(adr.content, "= T\n2024-02-09 {obsoleted}\n");
}
