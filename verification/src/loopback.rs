//! The decisions around loopback devices: how one is attached, how it is
//! detached exactly once, and what the helper that guards against a leaked
//! device does when a signal arrives.

use vstd::prelude::*;
use crate::num::{decimal, decimal_string, parse_u64_spec, IntErrorKind};

verus! {

/// The `--direct-io` setting: `on` only where `BOOTC_DIRECT_IO` is set to
/// exactly `on`.
pub fn direct_io_setting(var: Option<&str>) -> (r: &'static str)
    ensures
        r@ == (if var matches Some(v) && v@ == "on"@ {
            "on"@
        } else {
            "off"@
        }),
{
    match var {
        Some(v) => {
            if crate::text::str_eq(v, "on") {
                "on"
            } else {
                "off"
            }
        },
        None => "off",
    }
}

pub open spec fn views(v: Seq<String>) -> Seq<Seq<char>> {
    v.map_values(|s: String| s@)
}

/// The arguments given to `losetup` to attach a file, before the file's
/// path: print the device, set direct I/O, scan partitions, pick a free
/// device.
pub fn losetup_attach_args(direct_io: &str) -> (r: Vec<String>)
    ensures
        views(r@) == seq!["--show"@, "--direct-io="@ + direct_io@, "-P"@, "--find"@],
{
    let mut d = "--direct-io=".to_owned();
    d.append(direct_io);
    let r = vec!["--show".to_owned(), d, "-P".to_owned(), "--find".to_owned()];
    assert(views(r@) =~= seq!["--show"@, "--direct-io="@ + direct_io@, "-P"@, "--find"@]);
    r
}

/// The helper's arguments, by their views.
pub open spec fn helper_args_spec(device_path: Seq<char>, parent_pid: u32) -> Seq<Seq<char>> {
    seq![
        "loopback-cleanup-helper"@,
        "--device"@,
        device_path,
        "--parent-pid"@,
        decimal(parent_pid as nat),
    ]
}

/// The arguments with which the program runs itself as the helper that
/// detaches `device_path` if the process `parent_pid` dies.
pub fn cleanup_helper_args(device_path: &str, parent_pid: u32) -> (r: Vec<String>)
    ensures
        views(r@) == helper_args_spec(device_path@, parent_pid),
{
    let r = vec![
        "loopback-cleanup-helper".to_owned(),
        "--device".to_owned(),
        device_path.to_owned(),
        "--parent-pid".to_owned(),
        decimal_string(parent_pid as u64),
    ];
    assert(views(r@) =~= seq![
        "loopback-cleanup-helper"@,
        "--device"@,
        device_path@,
        "--parent-pid"@,
        decimal(parent_pid as nat),
    ]);
    r
}

/// What a loopback device still owns: the device node, until it is
/// detached, and the cleanup helper's process id, if one was started.
pub struct LoopbackHandles {
    pub dev: Option<String>,
    pub helper_pid: Option<u32>,
}

/// The commands that close a loopback device: `kill` the helper, if there
/// is one, then `losetup` to detach.
pub struct ClosePlan {
    pub kill_args: Option<Vec<String>>,
    pub detach_args: Vec<String>,
}

/// The plan that closing `dev` with helper `pid` gives, by its views.
pub open spec fn close_plan_spec(dev: Option<Seq<char>>, pid: Option<u32>) -> Option<
    (Option<Seq<Seq<char>>>, Seq<Seq<char>>),
> {
    match dev {
        None => None,
        Some(d) => Some(
            (
                match pid {
                    Some(p) => Some(seq!["-TERM"@, decimal(p as nat)]),
                    None => None,
                },
                seq!["-d"@, d],
            ),
        ),
    }
}

pub open spec fn plan_view(p: ClosePlan) -> (Option<Seq<Seq<char>>>, Seq<Seq<char>>) {
    (
        match p.kill_args {
            Some(k) => Some(views(k@)),
            None => None,
        },
        views(p.detach_args@),
    )
}

pub open spec fn dev_view(h: LoopbackHandles) -> Option<Seq<char>> {
    match h.dev {
        Some(d) => Some(d@),
        None => None,
    }
}

impl LoopbackHandles {
    /// Takes what closing needs: while a device is held, both it and the
    /// helper are taken and a plan is given; once no device is held, nothing
    /// is touched and no plan is given, so closing happens at most once.
    pub fn take_close_plan(&mut self) -> (r: Option<ClosePlan>)
        ensures
            old(self).dev is None ==> *final(self) == *old(self),
            old(self).dev is Some ==> final(self).dev is None && final(self).helper_pid is None,
            match close_plan_spec(dev_view(*old(self)), old(self).helper_pid) {
                None => r is None,
                Some(v) => r matches Some(p) && plan_view(p) == v,
            },
    {
        if self.dev.is_none() {
            return None;
        }
        let dev = self.dev.take();
        let pid = self.helper_pid.take();
        match dev {
            None => None,
            Some(d) => {
                let kill_args = match pid {
                    Some(p) => {
                        let k = vec!["-TERM".to_owned(), decimal_string(p as u64)];
                        assert(views(k@) =~= seq!["-TERM"@, decimal(p as nat)]);
                        Some(k)
                    },
                    None => None,
                };
                let detach_args = vec!["-d".to_owned(), d];
                assert(views(detach_args@) =~= seq!["-d"@, dev_view(*old(self))->Some_0]);
                Some(ClosePlan { kill_args, detach_args })
            },
        }
    }
}

/// Closing twice detaches once: a plan exists exactly while a device is
/// held, and handles without a device, such as those that `take_close_plan`
/// leaves behind, give none, whatever helper they record.
pub proof fn law_close_at_most_once(dev: Option<Seq<char>>, pid: Option<u32>)
    ensures
        close_plan_spec(None, pid) is None,
        close_plan_spec(dev, pid) is Some <==> dev is Some,
{
}

/// What the cleanup helper does once it is woken.
#[derive(Debug, Clone, Copy, PartialEq, Eq, Structural)]
pub enum HelperAction {
    /// The parent died: detach the device.
    DetachDevice,
    /// The parent closed the device itself: exit with success.
    ExitSuccess,
    /// Anything else: exit with failure.
    ExitFailure,
}

/// The helper's decision on the outcome of waiting for a signal: `wait` is
/// what `sigwaitinfo` returned and `signo` the signal it reported.
pub fn helper_action(wait: i32, signo: i32, sigusr1: i32, sigterm: i32) -> (r: HelperAction)
    ensures
        r == (if wait > 0 && signo == sigusr1 {
            HelperAction::DetachDevice
        } else if wait > 0 && signo == sigterm {
            HelperAction::ExitSuccess
        } else {
            HelperAction::ExitFailure
        }),
{
    if wait > 0 {
        if signo == sigusr1 {
            return HelperAction::DetachDevice;
        } else if signo == sigterm {
            return HelperAction::ExitSuccess;
        }
    }
    HelperAction::ExitFailure
}

/// Whether the helper must act at once, judged right after it has asked to
/// be signalled on its parent's death: `seen_parent` is its parent process
/// id at that moment. If that is no longer `parent_pid`, the parent died
/// before the signal was armed and no signal will come, so the device is
/// detached now; otherwise the helper waits for a signal.
pub fn helper_after_arming(parent_pid: u32, seen_parent: i32) -> (r: Option<HelperAction>)
    ensures
        seen_parent != parent_pid ==> r == Some(HelperAction::DetachDevice),
        seen_parent == parent_pid ==> r is None,
{
    if seen_parent < 0 || seen_parent as u32 != parent_pid {
        Some(HelperAction::DetachDevice)
    } else {
        None
    }
}

/// The arguments given to `losetup` to detach `device_path`.
pub fn detach_args(device_path: &str) -> (r: Vec<String>)
    ensures
        views(r@) == seq!["-d"@, device_path@],
{
    let r = vec!["-d".to_owned(), device_path.to_owned()];
    assert(views(r@) =~= seq!["-d"@, device_path@]);
    r
}

/// How running `losetup -d` ended.
pub enum DetachOutcome {
    Succeeded,
    Failed,
    /// It could not be run; the text describes why.
    Error(String),
}

/// The line the helper writes to standard error after trying to detach
/// `device_path`, and the status it exits with.
pub fn detach_report(device_path: &str, outcome: &DetachOutcome) -> (r: (String, i32))
    ensures
        match outcome {
            DetachOutcome::Succeeded => r.0@ == "bootc: cleaned up leaked loopback device "@
                + device_path@ + "\n"@ && r.1 == 0,
            DetachOutcome::Failed => r.0@ == "bootc: failed to clean up loopback device "@
                + device_path@ + "\n"@ && r.1 == 1,
            DetachOutcome::Error(e) => r.0@ == "bootc: error cleaning up loopback device "@
                + device_path@ + ": "@ + e@ + "\n"@ && r.1 == 1,
        },
{
    match outcome {
        DetachOutcome::Succeeded => {
            let mut m = "bootc: cleaned up leaked loopback device ".to_owned();
            m.append(device_path);
            m.append("\n");
            (m, 0)
        },
        DetachOutcome::Failed => {
            let mut m = "bootc: failed to clean up loopback device ".to_owned();
            m.append(device_path);
            m.append("\n");
            (m, 1)
        },
        DetachOutcome::Error(e) => {
            let mut m = "bootc: error cleaning up loopback device ".to_owned();
            m.append(device_path);
            m.append(": ");
            m.append(e.as_str());
            m.append("\n");
            (m, 1)
        },
    }
}


/// The kill command of a close plan signals exactly the recorded helper:
/// its arguments are `-TERM` and a number that parses back to the helper's
/// process id, whatever that id is; the detach command names the device.
pub proof fn law_close_plan_targets(dev: Seq<char>, pid: u32)
    ensures
        close_plan_spec(Some(dev), Some(pid)) matches Some((Some(k), d)) && k.len() == 2 && k[0]
            == "-TERM"@ && parse_u64_spec(k[1]) == Ok::<u64, IntErrorKind>(pid as u64) && d
            == seq!["-d"@, dev],
        close_plan_spec(Some(dev), None) matches Some((None, d)) && d == seq!["-d"@, dev],
{
    crate::num::law_parse_decimal_roundtrip(pid as u64);
}

/// The helper is told the device and the parent it watches: its third
/// argument is the device path, and its last one parses back to the parent's
/// process id, for every id.
pub proof fn law_helper_args_name_parent(device_path: Seq<char>, parent_pid: u32)
    ensures
        helper_args_spec(device_path, parent_pid).len() == 5,
        helper_args_spec(device_path, parent_pid)[2] == device_path,
        parse_u64_spec(helper_args_spec(device_path, parent_pid)[4]) == Ok::<u64, IntErrorKind>(
            parent_pid as u64,
        ),
{
    crate::num::law_parse_decimal_roundtrip(parent_pid as u64);
}

} // verus!
