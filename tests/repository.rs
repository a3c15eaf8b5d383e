use adr_core::adr::Adr;
use adr_core::config::AdrToolConfig;
use adr_core::parse::get_seq_id_from_name;
use adr_core::repo::{
    format_decision_name, get_last_seq_id, get_tags_popularity, is_ok, next_seq_id, sort_by_id,
    split_path, split_with,
};

const ADOC_TMPL_NOTAG: &str = ":docinfo1:
    :wip: pass:quotes[[.label.wip]#In Progress#]
    :decided: pass:q[[.label.decided]#Decided#]
    :completed: pass:q[[.label.updated]#Completed By#]
    :completes: pass:q[[.label.updated]#Completes#]
    :supersedes: pass:q[[.label.updated]#Supersedes#]
    :superseded: pass:q[[.label.obsoleted]#Superseded By#]
    :obsoleted: pass:q[[.label.obsoleted]#Obsolete#]

    = short title of solved problem and solution

    *Status:* {decided} *Date:* 2019-10-28
    ...";

fn record(path: &str, content: &str) -> Adr {
    Adr::from(String::from("/adr/"), String::from(path), String::from(content))
}

#[test]
fn mod_test_get_seq() {
    assert_eq!(get_seq_id_from_name("01-my-decision.adoc"), 1);
    assert_eq!(get_seq_id_from_name("00000010-my-decision.adoc"), 10);
    assert_eq!(get_seq_id_from_name("00000001-my-decision.adoc"), 1);
    assert_eq!(get_seq_id_from_name("00000001-my-decision-594.adoc"), 1);
    assert_eq!(get_seq_id_from_name("00000001-my-decision-594-full.adoc"), 1);
    assert_eq!(get_seq_id_from_name("00000001-my-decision-594-full.adoc"), 1);
    assert_eq!(get_seq_id_from_name("00000002-my-decision-594-full.adoc"), 2);
    assert_eq!(get_seq_id_from_name("my-decision-full.adoc"), 0);
}

#[test]
fn seq_id_edge_cases() {
    assert_eq!(get_seq_id_from_name("12.adoc"), 0);
    assert_eq!(get_seq_id_from_name("12"), 0);
    assert_eq!(get_seq_id_from_name("-12-a"), 0);
    assert_eq!(get_seq_id_from_name(""), 0);
    assert_eq!(get_seq_id_from_name("99999999999999999999999-too-big.adoc"), 0);
    assert_eq!(
        get_seq_id_from_name(&format!("{}-max.adoc", usize::MAX)),
        usize::MAX
    );
}

#[test]
fn test_extract_seq_id_from_all_1() {
    let paths = vec![
        "01-my-decision.adoc",
        "00000010-my-decision.adoc",
        "mypath/00000002-my-decision.adoc",
        "mypath/00000003-my-decision-594.adoc",
        "mypath/00000001-my-decision-594-full.adoc",
        "00000001-my-decision-594-full.adoc",
        "mypath/00000001/00000002-my-decision-594-full.adoc",
        "path/my-decision-full.adoc",
        "path/my-decision-543-0.adoc",
    ];

    let mut adr_vec = Vec::new();
    for adr in paths.into_iter() {
        adr_vec.push(record(adr, ADOC_TMPL_NOTAG));
    }

    adr_vec = sort_by_id(adr_vec);
    let seq = get_last_seq_id(adr_vec);
    assert_eq!(seq, 10);
}

#[test]
fn test_extract_seq_id_from_all_2() {
    let paths = vec![
        "attemtps.adoc",
        "attemtps43.adoc",
        "this-is-a-sample-12.adoc",
        "this-is-a-sample-14.adoc",
        "this-is-a-sample-17.adoc",
        "this-is-a-smple4.adoc",
        "this-is-a-smple7.adoc",
    ];

    let mut adr_vec = Vec::new();
    for adr in paths.into_iter() {
        adr_vec.push(record(adr, ADOC_TMPL_NOTAG));
    }

    let seq = get_last_seq_id(adr_vec);
    assert_eq!(seq, 0);
}

#[test]
fn sort_is_ascending_and_stable() {
    let v = vec![
        record("3-c.adoc", "c"),
        record("x.adoc", "first zero"),
        record("1-a.adoc", "a"),
        record("y.adoc", "second zero"),
        record("3-d.adoc", "d"),
    ];
    let sorted = sort_by_id(v);
    let names: Vec<&str> = sorted.iter().map(|a| a.file_name.as_str()).collect();
    assert_eq!(names, vec!["x.adoc", "y.adoc", "1-a.adoc", "3-c.adoc", "3-d.adoc"]);
    assert!(sort_by_id(Vec::new()).is_empty());
    let v = vec![record("a.adoc", "1"), record("b.adoc", "2"), record("c.adoc", "3")];
    let names: Vec<String> = sort_by_id(v).into_iter().map(|a| a.file_name).collect();
    assert_eq!(names, vec!["a.adoc", "b.adoc", "c.adoc"]);
}

#[test]
fn next_id_over_no_records_is_one() {
    assert_eq!(next_seq_id(&Vec::new(), 1), Some(String::from("1")));
    assert_eq!(next_seq_id(&Vec::new(), 3), Some(String::from("001")));
    assert_eq!(next_seq_id(&Vec::new(), 0), Some(String::from("1")));
}

#[test]
fn next_id_after_one_three_ten_is_eleven() {
    let v = vec![record("1-a.adoc", ""), record("3-b.adoc", ""), record("10-c.adoc", "")];
    assert_eq!(next_seq_id(&v, 1), Some(String::from("11")));
    assert_eq!(next_seq_id(&v, 6), Some(String::from("000011")));
    let v = vec![record("10-c.adoc", ""), record("3-b.adoc", ""), record("1-a.adoc", "")];
    assert_eq!(next_seq_id(&v, 0), Some(String::from("11")));
}

#[test]
fn next_id_that_does_not_fit_is_refused() {
    let v = vec![record(&format!("{}-max.adoc", usize::MAX), "")];
    assert_eq!(next_seq_id(&v, 3), None);
}

#[test]
fn mod_test_format_decision_name() {
    let mut cfg = AdrToolConfig::default();
    cfg.use_id_prefix = false;
    let name = format_decision_name(cfg, "my-decision", &Vec::new()).unwrap();
    assert_eq!(name, "my-decision");

    let mut cfg = AdrToolConfig::default();
    cfg.use_id_prefix = false;
    let name = format_decision_name(cfg, "my decision", &Vec::new()).unwrap();
    assert_eq!(name, "my-decision");

    let mut cfg = AdrToolConfig::default();
    cfg.use_id_prefix = false;
    let name = format_decision_name(cfg, "my Decision", &Vec::new()).unwrap();
    assert_eq!(name, "my-decision");
}

#[test]
fn decision_name_with_prefix() {
    let mut cfg = AdrToolConfig::default();
    cfg.use_id_prefix = true;
    cfg.id_prefix_width = 3;
    let existing = vec![record("001-ADR-1.adoc", ""), record("003-ADR-2.adoc", "")];
    let name = format_decision_name(cfg, "title of the ADR", &existing).unwrap();
    assert_eq!(name, "004-title-of-the-adr");
}

#[test]
fn default_config() {
    let cfg = AdrToolConfig::default();
    assert_eq!(cfg.adr_src_dir, "/tmp/adr-samples/src");
    assert_eq!(cfg.adr_template_file, "adr-template-v0.1.adoc");
    assert!(cfg.use_id_prefix);
    assert_eq!(cfg.id_prefix_width, 6);
    assert_eq!(cfg.log_level, 4);
}

#[test]
fn entries_that_are_scanned() {
    assert!(is_ok("a.adoc", false));
    assert!(!is_ok(".a.adoc", false));
    assert!(!is_ok("a.md", false));
    assert!(is_ok("sub", true));
    assert!(!is_ok(".git", true));
    assert!(!is_ok("adoc", false));
    assert!(is_ok(".adoc", true) == false);
}

#[test]
fn test_split_path() {
    let values = split_path("/tmp/adr-samples/src", "/tmp/adr-samples/src/my-decision.adoc");
    assert_eq!("/tmp/adr-samples/src", values.0);
    assert_eq!("my-decision.adoc", values.1);

    let values = split_path(
        "/tmp/adr-samples/src",
        "/tmp/adr-samples/src/sub-folder/dir/my-decision.adoc",
    );
    assert_eq!("/tmp/adr-samples/src", values.0);
    assert_eq!("sub-folder/dir/my-decision.adoc", values.1);

    let values = split_path("/tmp/adr-samples/src", "/another-folder/sub-folder/dir/my-decision.adoc");
    assert_eq!("/tmp/adr-samples/src", values.0);
    assert_eq!("/another-folder/sub-folder/dir/my-decision.adoc", values.1);
}

#[test]
fn split_path_at_component_boundaries() {
    let values = split_path("/tmp/adrs/", "/tmp/adrs/my-sub-dir/my-decision.adoc");
    assert_eq!(values.1, "my-sub-dir/my-decision.adoc");
    let values = split_path("/tmp/ad", "/tmp/adrs/x.adoc");
    assert_eq!(values.1, "/tmp/adrs/x.adoc");
    let values = split_path("", "/tmp/x.adoc");
    assert_eq!(values.1, "/tmp/x.adoc");
    let values = split_path("/a//b", "/a/b/c");
    assert_eq!(values.0, "/a//b");
    assert_eq!(values.1, "c");
    let values = split_path("/a/./b/", "/a/b/c/d.adoc");
    assert_eq!(values.1, "c/d.adoc");
}

#[test]
fn tag_popularity_counts_every_occurrence() {
    let content = "= t\n{wip} 2020-01-01\n[tags]#x#\n";
    let v = vec![record("1-a.adoc", content), record("2-b.adoc", content), record("3-c.adoc", content)];
    let popularity = get_tags_popularity(&v);
    assert_eq!(popularity, vec![(String::from("x"), 3)]);
}

#[test]
fn tag_popularity_of_several_tags() {
    let tagged = ":wip:\n= t\n{wip} 2019-10-28\n[tags]#tag1# [tags]#tag2# [tags]#tag3#\n";
    let v = vec![
        record("001-ADR-1.adoc", tagged),
        record("003-ADR-2.adoc", tagged),
        record("004-ADR-2.adoc", "[tags]#tag1# [tags]# tag1 #"),
    ];
    let popularity = get_tags_popularity(&v);
    assert_eq!(popularity.len(), 3);
    assert!(popularity.contains(&(String::from("tag1"), 4)));
    assert!(popularity.contains(&(String::from("tag2"), 2)));
    assert!(popularity.contains(&(String::from("tag3"), 2)));
    assert!(get_tags_popularity(&Vec::new()).is_empty());
}

#[test]
fn split_with_a_given_rest() {
    let r = split_with("/b", "/b/x", Some(String::from("x")));
    assert_eq!(r, (String::from("/b"), String::from("x")));
    let r = split_with("/b", "/c/x", None);
    assert_eq!(r, (String::from("/b"), String::from("/c/x")));
}
