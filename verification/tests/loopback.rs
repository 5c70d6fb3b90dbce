use blockdev::loopback::{
    detach_args, helper_after_arming,
    cleanup_helper_args, detach_report, direct_io_setting, helper_action, losetup_attach_args,
    DetachOutcome, HelperAction, LoopbackHandles,
};

#[test]
fn direct_io_only_when_on() {
    assert_eq!(direct_io_setting(Some("on")), "on");
    assert_eq!(direct_io_setting(Some("ON")), "off");
    assert_eq!(direct_io_setting(Some("")), "off");
    assert_eq!(direct_io_setting(None), "off");
}

#[test]
fn attach_args() {
    assert_eq!(
        losetup_attach_args("on"),
        vec!["--show", "--direct-io=on", "-P", "--find"]
    );
}

#[test]
fn helper_args() {
    assert_eq!(
        cleanup_helper_args("/dev/loop3", 4321),
        vec!["loopback-cleanup-helper", "--device", "/dev/loop3", "--parent-pid", "4321"]
    );
}

#[test]
fn close_happens_once() {
    let mut h = LoopbackHandles {
        dev: Some("/dev/loop0".to_string()),
        helper_pid: Some(77),
    };
    let plan = h.take_close_plan().unwrap();
    assert_eq!(plan.kill_args, Some(vec!["-TERM".to_string(), "77".to_string()]));
    assert_eq!(plan.detach_args, vec!["-d", "/dev/loop0"]);
    assert!(h.take_close_plan().is_none());
    let mut h = LoopbackHandles {
        dev: Some("/dev/loop1".to_string()),
        helper_pid: None,
    };
    let plan = h.take_close_plan().unwrap();
    assert_eq!(plan.kill_args, None);
    assert_eq!(plan.detach_args, vec!["-d", "/dev/loop1"]);
}

#[test]
fn helper_decisions() {
    assert_eq!(helper_action(10, 10, 10, 15), HelperAction::DetachDevice);
    assert_eq!(helper_action(15, 15, 10, 15), HelperAction::ExitSuccess);
    assert_eq!(helper_action(2, 2, 10, 15), HelperAction::ExitFailure);
    assert_eq!(helper_action(0, 10, 10, 15), HelperAction::ExitFailure);
}

#[test]
fn helper_reports() {
    assert_eq!(
        detach_report("/dev/loop0", &DetachOutcome::Succeeded),
        ("bootc: cleaned up leaked loopback device /dev/loop0\n".to_string(), 0)
    );
    assert_eq!(
        detach_report("/dev/loop0", &DetachOutcome::Failed),
        ("bootc: failed to clean up loopback device /dev/loop0\n".to_string(), 1)
    );
    assert_eq!(
        detach_report("/dev/loop0", &DetachOutcome::Error("boom".to_string())),
        ("bootc: error cleaning up loopback device /dev/loop0: boom\n".to_string(), 1)
    );
}

#[test]
fn close_without_device_touches_nothing() {
    let mut h = LoopbackHandles {
        dev: None,
        helper_pid: Some(5),
    };
    assert!(h.take_close_plan().is_none());
    assert_eq!(h.dev, None);
    assert_eq!(h.helper_pid, Some(5));
}

#[test]
fn parent_gone_before_arming_detaches() {
    assert_eq!(helper_after_arming(4321, 1), Some(HelperAction::DetachDevice));
    assert_eq!(helper_after_arming(4321, -1), Some(HelperAction::DetachDevice));
    assert_eq!(helper_after_arming(4321, 4321), None);
    assert_eq!(detach_args("/dev/loop7"), vec!["-d", "/dev/loop7"]);
}
