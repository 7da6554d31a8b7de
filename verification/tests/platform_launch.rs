use guixu::domain::Platform;
use guixu::platform::{launch_spec, seconds_and_nanos, FileLaunchAction, LaunchError};

#[test]
fn launch_spec_passes_paths_as_arguments_without_a_shell() {
    let path = "/tmp/report; touch should-not-run.txt";
    for platform in [Platform::MacOs, Platform::Linux, Platform::Windows] {
        let open = launch_spec(platform, path, FileLaunchAction::Open).expect("open spec");
        assert!(open.args.contains(&path.to_owned()));
    }
    let reveal = launch_spec(Platform::MacOs, path, FileLaunchAction::Reveal).expect("reveal spec");
    assert_eq!(reveal.program, "open");
    assert_eq!(reveal.args, vec!["-R".to_owned(), path.to_owned()]);
    let reveal = launch_spec(Platform::Linux, path, FileLaunchAction::Reveal).expect("reveal spec");
    assert_eq!(reveal.program, "xdg-open");
    assert_eq!(reveal.args, vec!["/tmp".to_owned()]);
    let reveal = launch_spec(Platform::Windows, path, FileLaunchAction::Reveal).expect("reveal spec");
    assert_eq!(reveal.args, vec!["/select,".to_owned(), path.to_owned()]);
}

#[test]
fn launching_needs_a_parent_and_a_known_platform() {
    assert!(matches!(
        launch_spec(Platform::Linux, "/", FileLaunchAction::Reveal),
        Err(LaunchError::MissingParent)
    ));
    assert!(matches!(
        launch_spec(Platform::Other, "/a", FileLaunchAction::Open),
        Err(LaunchError::UnsupportedPlatform)
    ));
}

#[test]
fn timestamps_combine_seconds_and_nanoseconds_saturating() {
    assert_eq!(seconds_and_nanos(2, 5), 2_000_000_005);
    assert_eq!(seconds_and_nanos(-1, 0), -1_000_000_000);
    assert_eq!(seconds_and_nanos(i64::MAX, 5), i64::MAX);
    assert_eq!(seconds_and_nanos(i64::MIN, -5), i64::MIN);
}
