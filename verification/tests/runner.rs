use sarena::runner::{
    SubTestAction, SubTestStage, sub_test_next, test_passed,
    GroupError, ProgramRole, TestRunnerError, group_test_programs, program_parts_of,
    read_test_result, str_less, test_error, trim_trailing_zeros,
};
use sarena::tlv::TestStatus;

fn names(v: &[&str]) -> Vec<String> {
    v.iter().map(|s| s.to_string()).collect()
}

#[test]
fn program_names_split_into_role_and_test() {
    assert_eq!(
        program_parts_of("__test_fw_arrange_fwd_basic"),
        Some((ProgramRole::Arrange, "fwd_basic".to_string()))
    );
    assert_eq!(
        program_parts_of("__test_fw_assert_x"),
        Some((ProgramRole::Assert, "x".to_string()))
    );
    assert_eq!(program_parts_of("__test_fw_act_"), None);
    assert_eq!(program_parts_of("__test_fw_cleanup_x"), None);
    assert_eq!(program_parts_of("from_container"), None);
}

#[test]
fn programs_group_by_test_in_name_order() {
    let g = group_test_programs(&names(&[
        "__test_fw_assert_b",
        "from_container",
        "__test_fw_act_a",
        "__test_fw_assert_a",
        "__test_fw_arrange_b",
    ]))
    .unwrap();
    assert_eq!(g.len(), 2);
    assert_eq!(g[0].0, "a");
    assert_eq!(g[0].1.act_name.as_deref(), Some("__test_fw_act_a"));
    assert_eq!(g[0].1.arrange_name, None);
    assert_eq!(g[1].0, "b");
    assert_eq!(g[1].1.arrange_name.as_deref(), Some("__test_fw_arrange_b"));
    assert_eq!(g[1].1.assert_name.as_deref(), Some("__test_fw_assert_b"));
}

#[test]
fn grouping_rejects_duplicates_and_missing_checks() {
    match group_test_programs(&names(&["__test_fw_act_a", "__test_fw_act_a"])) {
        Err(GroupError::Duplicate { role, test }) => {
            assert_eq!(role, ProgramRole::Act);
            assert_eq!(test, "a");
        }
        other => panic!("unexpected {other:?}"),
    }
    match group_test_programs(&names(&["__test_fw_act_z", "__test_fw_act_c", "__test_fw_assert_z"])) {
        Err(GroupError::MissingCheck(t)) => assert_eq!(t, "c"),
        other => panic!("unexpected {other:?}"),
    }
}

#[test]
fn string_order_is_code_point_order() {
    assert!(str_less("a", "b"));
    assert!(str_less("a", "ab"));
    assert!(!str_less("ab", "a"));
    assert!(!str_less("a", "a"));
    assert!(str_less("Z", "a"));
}

#[test]
fn return_codes_of_failed_tests() {
    assert!(!test_error(0));
    assert!(test_error(1));
    assert!(!test_error(2));
    assert!(test_error(3));
}

#[test]
fn result_buffers_are_trimmed_and_parsed() {
    assert_eq!(trim_trailing_zeros(&[1, 0, 2, 0, 0]), vec![1, 0, 2]);
    assert_eq!(trim_trailing_zeros(&[0, 0]), Vec::<u8>::new());
    assert!(matches!(read_test_result(&[0, 0, 0, 0]), Err(TestRunnerError::NoResult)));
    // version 1, name "t", status fail, then padding
    let raw = [0u8, 1, 1, 1, 1, b't', 3, 1, 1, 0, 0, 0];
    let r = read_test_result(&raw).unwrap();
    assert_eq!(r.name, "t");
    assert_eq!(r.status, TestStatus::Fail);
    assert!(matches!(
        read_test_result(&[0, 1, 2, 0, 0]),
        Err(TestRunnerError::ParseError(_))
    ));
}

#[test]
fn a_test_runs_arrange_act_assert_then_reads_its_result() {
    assert_eq!(
        sub_test_next(SubTestStage::ClearMaps, true, true, true, 0),
        SubTestAction::Run(SubTestStage::Arrange)
    );
    assert_eq!(
        sub_test_next(SubTestStage::ClearMaps, false, false, true, 0),
        SubTestAction::Run(SubTestStage::Assert)
    );
    assert_eq!(
        sub_test_next(SubTestStage::Arrange, true, true, true, 0),
        SubTestAction::Run(SubTestStage::Act)
    );
    assert_eq!(sub_test_next(SubTestStage::Arrange, true, true, true, 1), SubTestAction::ArrangeFailed(1));
    assert_eq!(sub_test_next(SubTestStage::Act, true, true, true, 3), SubTestAction::ActFailed(3));
    assert_eq!(
        sub_test_next(SubTestStage::Act, true, true, true, 2),
        SubTestAction::RecordStatusThenAssert(2)
    );
    assert_eq!(
        sub_test_next(SubTestStage::Assert, true, true, true, 0),
        SubTestAction::Run(SubTestStage::ReadResult)
    );
    assert_eq!(sub_test_next(SubTestStage::ReadResult, true, true, true, 0), SubTestAction::Done);
    assert_eq!(sub_test_next(SubTestStage::Act, true, true, false, 0), SubTestAction::Abort);
}

#[test]
fn only_a_failed_status_fails_the_run() {
    let result = |status: TestStatus| sarena::tlv::TestResult {
        name: "t".to_string(),
        file: "f".to_string(),
        status,
        logs: vec![],
    };
    assert!(!test_passed(&result(TestStatus::Fail)));
    assert!(test_passed(&result(TestStatus::Pass)));
    assert!(test_passed(&result(TestStatus::Skip)));
    assert!(test_passed(&result(TestStatus::FrameworkError)));
}
