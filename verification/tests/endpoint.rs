use amdgpu_fancontrol::card::endpoint::Endpoint;

// The sensor tree for these tests is built under a scratch directory.
const BASE: &str = "/tmp/amdgpu_fancontrol_endpoint_tests";

#[test]
fn endpoint_test_new() {
    let path = "test/sys/class/drm/card0/device/hwmon/hwmon0/pwm1".to_string();
    let endpoint = Endpoint::new(path.clone());

    assert_eq!(endpoint.path, path);
}

#[test]
fn test_exists() {
    let dir = format!("{}/test/sys/class/drm/card0/device/hwmon/hwmon0", BASE);
    fs_err::create_dir_all(&dir).expect("Couldn't create the endpoint directory");
    fs_err::write(format!("{}/pwm1", dir), "30").expect("Couldn't write to pwm1");

    let path = format!("{}/test/sys/class/drm/card0/device/hwmon/hwmon0/pwm1", BASE);
    let endpoint = Endpoint::new(path.clone());

    assert_eq!(endpoint.is_present(), true);

    fs_err::remove_dir_all(BASE).expect("Couldn't clean the endpoint directory");
}

#[test]
fn is_present_false_for_missing_path() {
    let endpoint = Endpoint::new("no/such/attribute".to_string());
    assert_eq!(endpoint.is_present(), false);
}
