//! What the platform layer reports about a file, and the launcher's vocabulary.
use vstd::prelude::*;
use crate::domain::{FileIdentity, FileSnapshot, Platform};
use crate::paths::{parent_of, path_parent};
use crate::text::{chars_of, string_from_chars, string_from_str};

verus! {

/// `std::io::Error`, carried through unchanged.
#[verifier::external_type_specification]
#[verifier::external_body]
pub struct ExIoError(std::io::Error);

/// Identity and snapshot of a regular file, as observed without following links.
#[derive(Debug, Clone, PartialEq, Eq)]
pub struct ObservedFile {
    pub identity: FileIdentity,
    pub snapshot: FileSnapshot,
}

/// Why a file could not be observed.
#[derive(Debug)]
pub enum ObserveError {
    Io(std::io::Error),
    Symlink,
    NotAFile,
    UnsupportedPlatform,
}

/// What the system file handler is asked to do.
#[derive(Debug, Clone, Copy, PartialEq, Eq, Structural)]
pub enum FileLaunchAction {
    Open,
    Reveal,
}

/// Why the system file handler could not be launched.
#[derive(Debug)]
pub enum LaunchError {
    Io(std::io::Error),
    MissingParent,
    UnsupportedPlatform,
}

pub open spec fn clamp_i64(v: int) -> int {
    if v > i64::MAX {
        i64::MAX as int
    } else if v < i64::MIN {
        i64::MIN as int
    } else {
        v
    }
}

/// A timestamp in nanoseconds from whole seconds and a nanosecond part, each step
/// saturating at the bounds of `i64`.
pub open spec fn timestamp_ns(seconds: i64, nanos: i64) -> int {
    clamp_i64(clamp_i64(seconds * 1_000_000_000) + nanos)
}

fn saturate_i128(v: i128) -> (r: i64)
    ensures
        r == clamp_i64(v as int),
{
    if v > i64::MAX as i128 {
        i64::MAX
    } else if v < i64::MIN as i128 {
        i64::MIN
    } else {
        v as i64
    }
}

/// `seconds.saturating_mul(1_000_000_000).saturating_add(nanos)`.
pub fn seconds_and_nanos(seconds: i64, nanos: i64) -> (r: i64)
    ensures
        r == timestamp_ns(seconds, nanos),
{
    let scaled = saturate_i128((seconds as i128) * 1_000_000_000i128);
    saturate_i128((scaled as i128) + (nanos as i128))
}


/// The program and arguments that open or reveal a file; the path is one argument and
/// never passes through a shell.
#[derive(Debug, Clone, PartialEq, Eq)]
pub struct LaunchSpec {
    pub program: &'static str,
    pub args: Vec<String>,
}

/// What each platform runs: `open` (with `-R` to reveal) on macOS, `xdg-open` on the
/// file or its parent directory on Linux, `explorer.exe` (with `/select,` to reveal)
/// on Windows; other platforms have no launcher.
pub open spec fn launch_plan(
    platform: Platform,
    path: Seq<char>,
    action: FileLaunchAction,
) -> Result<(Seq<char>, Seq<Seq<char>>), LaunchFault> {
    match platform {
        Platform::MacOs => Ok(
            (
                "open"@,
                if action == FileLaunchAction::Reveal {
                    seq!["-R"@, path]
                } else {
                    seq![path]
                },
            ),
        ),
        Platform::Linux => match action {
            FileLaunchAction::Open => Ok(("xdg-open"@, seq![path])),
            FileLaunchAction::Reveal => match path_parent(path) {
                Some(parent) => Ok(("xdg-open"@, seq![parent])),
                None => Err(LaunchFault::MissingParent),
            },
        },
        Platform::Windows => Ok(
            (
                "explorer.exe"@,
                if action == FileLaunchAction::Reveal {
                    seq!["/select,"@, path]
                } else {
                    seq![path]
                },
            ),
        ),
        Platform::Other => Err(LaunchFault::UnsupportedPlatform),
    }
}

/// Value form of a launcher refusal.
pub enum LaunchFault {
    MissingParent,
    UnsupportedPlatform,
}

/// The launch of a file on the given platform.
pub fn launch_spec(platform: Platform, path: &str, action: FileLaunchAction) -> (r: Result<
    LaunchSpec,
    LaunchError,
>)
    ensures
        match launch_plan(platform, path@, action) {
            Ok((program, args)) => r matches Ok(spec) && spec.program@ == program
                && spec.args@.map_values(|a: String| a@) == args,
            Err(LaunchFault::MissingParent) => r matches Err(LaunchError::MissingParent),
            Err(LaunchFault::UnsupportedPlatform) => r matches Err(LaunchError::UnsupportedPlatform),
        },
{
    let mut args: Vec<String> = Vec::new();
    match platform {
        Platform::MacOs => {
            if action == FileLaunchAction::Reveal {
                args.push(string_from_str("-R"));
            }
            args.push(string_from_str(path));
            proof {
                reveal_strlit("-R");
            }
            assert(args@.map_values(|a: String| a@) =~= launch_plan(platform, path@, action)->Ok_0.1);
            Ok(LaunchSpec { program: "open", args })
        },
        Platform::Linux => {
            match action {
                FileLaunchAction::Open => {
                    args.push(string_from_str(path));
                },
                FileLaunchAction::Reveal => {
                    let p = chars_of(path);
                    match parent_of(&p) {
                        Some(parent) => {
                            args.push(string_from_chars(&parent));
                        },
                        None => {
                            return Err(LaunchError::MissingParent);
                        },
                    }
                },
            }
            assert(args@.map_values(|a: String| a@) =~= launch_plan(platform, path@, action)->Ok_0.1);
            Ok(LaunchSpec { program: "xdg-open", args })
        },
        Platform::Windows => {
            if action == FileLaunchAction::Reveal {
                args.push(string_from_str("/select,"));
            }
            args.push(string_from_str(path));
            assert(args@.map_values(|a: String| a@) =~= launch_plan(platform, path@, action)->Ok_0.1);
            Ok(LaunchSpec { program: "explorer.exe", args })
        },
        Platform::Other => Err(LaunchError::UnsupportedPlatform),
    }
}

/// `std::io::Error`'s `Display` text. It comes from the operating system's message for
/// the error, so nothing is claimed of it beyond its type.
#[verifier::external_body]
fn io_error_text(error: &std::io::Error) -> (r: String) {
    error.to_string()
}

/// The message a failed observation is reported with: a read failure names the
/// operating system's message after a fixed prefix; the other failures have fixed text.
pub open spec fn is_observe_message(error: ObserveError, message: Seq<char>) -> bool {
    match error {
        ObserveError::Io(_) => exists|t: Seq<char>| message == "无法读取文件元数据："@ + t,
        ObserveError::Symlink => message == "不跟随符号链接"@,
        ObserveError::NotAFile => message == "该路径不是普通文件"@,
        ObserveError::UnsupportedPlatform => message == "当前平台的稳定文件身份适配器尚未实现"@,
    }
}

/// The message of a failed observation.
pub fn observe_error_message(error: &ObserveError) -> (r: String)
    ensures
        is_observe_message(*error, r@),
{
    match error {
        ObserveError::Io(e) => {
            let detail = io_error_text(e);
            let mut m = string_from_str("无法读取文件元数据：");
            m.append(detail.as_str());
            proof {
                assert(m@ == "无法读取文件元数据："@ + detail@);
            }
            m
        },
        ObserveError::Symlink => string_from_str("不跟随符号链接"),
        ObserveError::NotAFile => string_from_str("该路径不是普通文件"),
        ObserveError::UnsupportedPlatform => string_from_str("当前平台的稳定文件身份适配器尚未实现"),
    }
}

} // verus!
