use actuator::errors::{InvalidArgError, MalformedConfigError, MissingArgError};
use actuator::units::{
    extract_profile, is_service_file_name, is_timer_file_name, sysd_cleanup_unused_service,
    sysd_entry, timer_unit_content, timer_unit_name,
};

#[test]
fn entry_plans_both_units() {
    let plan = sysd_entry("test", "15.2", "test", "02:00:00", "", "", None).unwrap();
    assert_eq!(plan.timer_name, "atg-actuator_test.timer");
    assert_eq!(plan.service_name, "atg-actuator_test.service");
    assert_eq!(
        plan.timer_content,
        "[Timer]\nAccuracySec=1s\nOnCalendar=02:00:00\nWakeSystem=true\nUnit=atg-actuator_test.service\n[Unit]\nDescription=Times actuations via systemd for gpio pins for the switch program.\n[Install]\nWantedBy=timers.target"
    );
    assert_eq!(
        plan.service_content,
        "[Service]\nExecStart=+/usr/local/bin/switch --exec test 15.2\n[Unit]\nDescription=actuates gpio pins for the switch program"
    );
    assert!(plan.write_service);
}

#[test]
fn entry_idempotent() {
    let first = sysd_entry("p1", "12.5", "p1", "00:00:00", "", "", None).unwrap();
    assert!(first.write_service);
    let second = sysd_entry(
        "p1",
        "12.5",
        "p1",
        "00:00:00",
        "",
        "",
        Some(&first.service_content),
    )
    .unwrap();
    assert_eq!(second.service_content, first.service_content);
    assert!(!second.write_service);
}

#[test]
fn entry_rewrites_changed_service() {
    let stale = String::from("[Service]\nExecStart=+/usr/local/bin/switch --exec p1 1\n[Unit]\nDescription=actuates gpio pins for the switch program");
    let plan = sysd_entry("p1", "2", "p1", "00:00:00", "", "", Some(&stale)).unwrap();
    assert!(plan.write_service);
}

#[test]
fn invalid_calendar_writes_nothing() {
    let r = sysd_entry(
        "p1",
        "1.0",
        "p1",
        "not a time",
        "Failed to parse calendar specification",
        "",
        None,
    );
    assert!(r.is_err());
    let r2 = sysd_entry("p1", "1.0", "p1", "x", "", "Failed", None);
    assert!(r2.is_err());
}

#[test]
fn name_classifiers() {
    assert!(is_timer_file_name("atg-actuator_test.timer"));
    assert!(!is_timer_file_name("other_test.timer"));
    assert!(!is_timer_file_name("atg-actuator_test.service"));
    assert!(is_service_file_name("atg-actuator_test.service"));
    assert!(!is_service_file_name("atg-actuator_test.timer"));
    assert!(!is_service_file_name("unrelated.service"));
}

#[test]
fn extracts_profile_between_stem_and_point() {
    let timer = timer_unit_content("prof7", "00:00:00");
    assert_eq!(extract_profile(&timer).unwrap(), "prof7");
    assert_eq!(extract_profile("atg-actuator_abc.service").unwrap(), "abc");
    assert_eq!(extract_profile("atg-actuator_abc").unwrap(), "abc");
    assert!(extract_profile("nothing here").is_none());
}

#[test]
fn cleanup_deletes_only_orphans() {
    // a timer referencing profile a, a service for a, and a service for the
    // orphaned profile b
    let timer_a = timer_unit_content("a", "00:00:00");
    let names = vec![
        timer_unit_name("a"),
        String::from("atg-actuator_a.service"),
        String::from("atg-actuator_b.service"),
    ];
    let doomed = sysd_cleanup_unused_service(&vec![timer_a], &names);
    assert_eq!(doomed, vec![String::from("atg-actuator_b.service")]);
}

#[test]
fn cleanup_after_timer_deletion_removes_service() {
    // no timer left: every service of the manager's namespace goes
    let names = vec![String::from("atg-actuator_test.service")];
    let doomed = sysd_cleanup_unused_service(&Vec::new(), &names);
    assert_eq!(doomed, vec![String::from("atg-actuator_test.service")]);
}

#[test]
fn cleanup_leaves_foreign_files_alone() {
    let timer_a = timer_unit_content("a", "00:00:00");
    let names = vec![
        String::from("cron.service"),
        String::from("atg-actuator_a.timer"),
        String::from("atg-actuator_a.service"),
    ];
    let doomed = sysd_cleanup_unused_service(&vec![timer_a], &names);
    assert!(doomed.is_empty());
}

#[test]
fn error_messages_carry_over() {
    assert_eq!(MalformedConfigError::new().msg, "The config file is malformed");
    assert_eq!(
        InvalidArgError::new().msg,
        "InvalidArg Error : your inputed cmdline-argument is incorrect!"
    );
    assert_eq!(
        MissingArgError::new().msg,
        "MissingArg Error : the cmdline-option is missing an argument!"
    );
}
