use amdgpu_fancontrol::card::Card;
use amdgpu_fancontrol::config::Config;

// The sensor tree for these tests is built under a scratch directory.
const BASE: &str = "/tmp/amdgpu_fancontrol_card_tests";

fn config() -> Config {
    Config {
        cards_path: format!("{}/test/sys/class/drm", BASE),
        cards: vec!["card0".to_string()],
        measurement_window: 30,
        endpoint_path: "device/hwmon/hwmon0".to_string(),
        monitoring_path: format!("{}/test/sys/kernel/debug/dri/0/amdgpu_pm_info", BASE),
    }
}

fn setup() {
    let dir = format!("{}/test/sys/class/drm/card0/device/hwmon/hwmon0", BASE);
    fs_err::create_dir_all(&dir).expect("Couldn't create the endpoint directory");
    fs_err::write(format!("{}/temp1_input", dir), "35000")
        .expect("Couldn't write to temp1_input");
    fs_err::write(format!("{}/pwm1_min", dir), "0").expect("Couldn't write to pwm1_min");
    fs_err::write(format!("{}/pwm1_max", dir), "255").expect("Couldn't write to pwm1_max");
    fs_err::write(format!("{}/pwm1_enable", dir), "2").expect("Couldn't write to pwm1_enable");
    fs_err::write(format!("{}/pwm1", dir), "30").expect("Couldn't write to pwm1");
}

#[test]
fn card_test_new() {
    setup();

    let config = config();
    let path = config.card_path("card0");
    let card = Card::new(&path, config).unwrap();

    assert_eq!(card.path, format!("{}/test/sys/class/drm/card0", BASE));
    assert_eq!(
        card.endpoint_path,
        format!("{}/test/sys/class/drm/card0/device/hwmon/hwmon0", BASE)
    );

    fs_err::remove_dir_all(BASE).expect("Couldn't clean the endpoint directory");
}

#[test]
fn new_yields_nothing_for_a_missing_device() {
    let mut config = config();
    config.cards_path = "no/such/sys/class/drm".to_string();
    let path = config.card_path("card0");

    assert!(Card::new(&path, config).is_none());
}

#[test]
fn new_yields_nothing_when_an_endpoint_is_missing() {
    let base = "/tmp/amdgpu_fancontrol_partial_card_tests";
    let dir = format!("{}/test/sys/class/drm/card0/device/hwmon/hwmon0", base);
    fs_err::create_dir_all(&dir).expect("Couldn't create the endpoint directory");
    fs_err::write(format!("{}/temp1_input", dir), "35000")
        .expect("Couldn't write to temp1_input");
    fs_err::write(format!("{}/pwm1_min", dir), "0").expect("Couldn't write to pwm1_min");
    fs_err::write(format!("{}/pwm1_max", dir), "255").expect("Couldn't write to pwm1_max");
    // no pwm1_enable and no pwm1: the device is not controllable

    let mut config = config();
    config.cards_path = format!("{}/test/sys/class/drm", base);
    let path = config.card_path("card0");

    assert!(Card::new(&path, config).is_none());

    fs_err::remove_dir_all(base).expect("Couldn't clean the endpoint directory");
}

#[test]
fn test_gpu_load() {
    let monitoring_info = "GPU Temperature: 35 C\nGPU Load: 10 %\n";

    assert_eq!(Card::gpu_usage_percentage(Some(monitoring_info)), Some(10));
}
