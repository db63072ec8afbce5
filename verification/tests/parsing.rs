use amdgpu_fancontrol::card::Card;
use amdgpu_fancontrol::config::Config;
use amdgpu_fancontrol::parse::parse_i32;

#[test]
fn parse_plain_integers() {
    assert_eq!(parse_i32("0"), Some(0));
    assert_eq!(parse_i32("30"), Some(30));
    assert_eq!(parse_i32("007"), Some(7));
    assert_eq!(parse_i32("+12"), Some(12));
    assert_eq!(parse_i32("-12"), Some(-12));
    assert_eq!(parse_i32("2147483647"), Some(i32::MAX));
    assert_eq!(parse_i32("-2147483648"), Some(i32::MIN));
}

#[test]
fn parse_rejects_malformed_text() {
    assert_eq!(parse_i32(""), None);
    assert_eq!(parse_i32("+"), None);
    assert_eq!(parse_i32("-"), None);
    assert_eq!(parse_i32("12a"), None);
    assert_eq!(parse_i32("a12"), None);
    assert_eq!(parse_i32(" 12"), None);
    assert_eq!(parse_i32("1 2"), None);
    assert_eq!(parse_i32("12.5"), None);
}

#[test]
fn parse_rejects_values_out_of_range() {
    assert_eq!(parse_i32("2147483648"), None);
    assert_eq!(parse_i32("-2147483649"), None);
    assert_eq!(parse_i32("99999999999999999999"), None);
}

#[test]
fn temperature_scales_millidegrees_toward_zero() {
    assert_eq!(Card::current_temperature("35000"), Some(35));
    assert_eq!(Card::current_temperature("35999"), Some(35));
    assert_eq!(Card::current_temperature("999"), Some(0));
    assert_eq!(Card::current_temperature("-500"), Some(0));
    assert_eq!(Card::current_temperature("-42000"), Some(-42));
    assert_eq!(Card::current_temperature("2147483647"), Some(2147483));
    assert_eq!(Card::current_temperature("-2147483648"), Some(-2147483));
    assert_eq!(Card::current_temperature("warm"), None);
    assert_eq!(Card::current_temperature(""), None);
}

#[test]
fn gpu_load_found_anywhere_in_the_report() {
    assert_eq!(Card::gpu_usage_percentage(Some("GPU Load: 10 %")), Some(10));
    assert_eq!(
        Card::gpu_usage_percentage(Some("MCLK: 300 MHz\nGPU Load: 7 %\nGPU Temperature: 40 C")),
        Some(7)
    );
    assert_eq!(Card::gpu_usage_percentage(Some("GPU Load: 0 % trailing text")), Some(0));
}

#[test]
fn gpu_load_takes_the_first_complete_report() {
    assert_eq!(
        Card::gpu_usage_percentage(Some("GPU Load: 55 %, then GPU Load: 7 %")),
        Some(55)
    );
    // an incomplete announcement is skipped in favour of a later complete one
    assert_eq!(
        Card::gpu_usage_percentage(Some("GPU Load: n/a, GPU Load: 7 %")),
        Some(7)
    );
}

#[test]
fn gpu_load_missing_or_malformed_is_an_error() {
    assert_eq!(Card::gpu_usage_percentage(Some("")), None);
    assert_eq!(Card::gpu_usage_percentage(Some("no load here")), None);
    assert_eq!(Card::gpu_usage_percentage(Some("GPU Load: %")), None);
    assert_eq!(Card::gpu_usage_percentage(Some("GPU Load: 12")), None);
    assert_eq!(Card::gpu_usage_percentage(Some("GPU Load: 12%")), None);
    assert_eq!(Card::gpu_usage_percentage(Some("GPU Load: 9999999999 %")), None);
}

#[test]
fn card_path_joins_the_card_name() {
    let config = Config {
        cards: vec!["card0".to_string()],
        measurement_window: 30,
        cards_path: "test/sys/class/drm".to_string(),
        endpoint_path: "device/hwmon/hwmon0".to_string(),
        monitoring_path: "m".to_string(),
    };
    assert_eq!(config.card_path("card0"), "test/sys/class/drm/card0");
    assert_eq!(config.card_path("card1"), "test/sys/class/drm/card1");
}

#[test]
fn endpoint_paths_resolve_inside_the_endpoint_directory() {
    let card = Card {
        config: Config {
            cards: vec!["card0".to_string()],
            measurement_window: 30,
            cards_path: "test/sys/class/drm".to_string(),
            endpoint_path: "device/hwmon/hwmon0".to_string(),
            monitoring_path: "test/sys/kernel/debug/dri/0/amdgpu_pm_info".to_string(),
        },
        path: "test/sys/class/drm/card0".to_string(),
        endpoint_path: "test/sys/class/drm/card0/device/hwmon/hwmon0".to_string(),
        monitoring_path: "test/sys/kernel/debug/dri/0/amdgpu_pm_info".to_string(),
        temp_window: vec![],
        load_window: vec![],
    };
    assert_eq!(
        card.endpoint("pwm1").path,
        "test/sys/class/drm/card0/device/hwmon/hwmon0/pwm1"
    );
    assert_eq!(
        card.monitoring_endpoint().path,
        "test/sys/kernel/debug/dri/0/amdgpu_pm_info"
    );
}
