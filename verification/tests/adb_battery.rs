use adb_battery::DeviceState;
use adb_battery::Error;
use adb_battery::connected_devices;
use adb_battery::format_values;
use adb_battery::get_battery_info;
use adb_battery::get_devices;
use adb_battery::parse_battery_report;
use adb_battery::select_connected;

fn value_of<'a>(entries: &'a [(String, String)], key: &str) -> Option<&'a str> {
    entries.iter().find(|e| e.0 == key).map(|e| e.1.as_str())
}

#[test]
fn state_token_device_is_connected() {
    assert_eq!(DeviceState::try_from("device"), Ok(DeviceState::Connected));
}

#[test]
fn state_token_unauthorised_both_spellings() {
    assert_eq!(
        DeviceState::try_from("unauthorised"),
        Ok(DeviceState::Unauthorised)
    );
    assert_eq!(
        DeviceState::try_from("unauthorized"),
        Ok(DeviceState::Unauthorised)
    );
}

#[test]
fn state_token_unknown_is_refused() {
    assert_eq!(
        DeviceState::try_from("recovery"),
        Err(Error::AdbDeviceTypeNotSupported("recovery".to_string()))
    );
    assert_eq!(
        DeviceState::try_from("Device"),
        Err(Error::AdbDeviceTypeNotSupported("Device".to_string()))
    );
    assert_eq!(
        DeviceState::try_from(""),
        Err(Error::AdbDeviceTypeNotSupported(String::new()))
    );
}

#[test]
fn device_list_two_records_in_order() {
    let text = "List of devices attached\nABC123\tdevice\nXYZ\tunauthorised\n";
    let devices = get_devices(text).unwrap();
    assert_eq!(devices.len(), 2);
    assert_eq!(devices[0].0, "ABC123");
    assert_eq!(devices[0].1, DeviceState::Connected);
    assert_eq!(devices[1].0, "XYZ");
    assert_eq!(devices[1].1, DeviceState::Unauthorised);
    let connected = connected_devices(&devices);
    assert_eq!(connected, vec!["ABC123".to_string()]);
}

#[test]
fn device_list_line_without_tab_is_refused() {
    let text = "List of devices attached\nnot a device line\n";
    assert_eq!(
        get_devices(text),
        Err(Error::FailedToParseAdbDeviceResponse(
            "not a device line".to_string()
        ))
    );
}

#[test]
fn device_list_line_with_two_tabs_is_refused() {
    let text = "header\na\tdevice\textra\n";
    assert_eq!(
        get_devices(text),
        Err(Error::FailedToParseAdbDeviceResponse(
            "a\tdevice\textra".to_string()
        ))
    );
}

#[test]
fn device_list_skips_blank_lines_and_header() {
    let text = "List of devices attached\n\nABC\tdevice\n\n";
    let devices = get_devices(text).unwrap();
    assert_eq!(devices.len(), 1);
    assert_eq!(devices[0].0, "ABC");
}

#[test]
fn device_list_handles_crlf() {
    let text = "List of devices attached\r\nABC\tdevice\r\n";
    let devices = get_devices(text).unwrap();
    assert_eq!(devices.len(), 1);
    assert_eq!(devices[0].0, "ABC");
    assert_eq!(devices[0].1, DeviceState::Connected);
}

#[test]
fn device_list_empty_input_is_empty() {
    assert_eq!(get_devices(""), Ok(vec![]));
    assert_eq!(get_devices("List of devices attached\n"), Ok(vec![]));
}

#[test]
fn device_list_first_error_wins() {
    let text = "header\nA\trecovery\nno tab line\n";
    assert_eq!(
        get_devices(text),
        Err(Error::AdbDeviceTypeNotSupported("recovery".to_string()))
    );
}

#[test]
fn selection_out_of_range_is_none() {
    let text = "List of devices attached\nABC123\tdevice\nXYZ\tunauthorised\n";
    let devices = get_devices(text).unwrap();
    assert_eq!(select_connected(&devices, 0), Some("ABC123".to_string()));
    assert_eq!(select_connected(&devices, 1), None);
    assert_eq!(select_connected(&devices, 5), None);
}

#[test]
fn battery_basic_normalization() {
    let text = "Current Battery Service state:\n  level: 50\nscale: 100\nvoltage: 4123\n";
    let info = get_battery_info(text).unwrap();
    assert_eq!(value_of(&info, "level"), Some("50 %"));
    assert_eq!(value_of(&info, "voltage"), Some("4.123 V"));
    assert_eq!(value_of(&info, "scale"), None);
}

#[test]
fn battery_level_rescaled_to_percent() {
    let text = "header\nlevel: 40\nscale: 80\n";
    let info = get_battery_info(text).unwrap();
    assert_eq!(value_of(&info, "level"), Some("50 %"));
}

#[test]
fn battery_charging_current_units() {
    let info = get_battery_info("header\nMax charging current: 500000\n").unwrap();
    assert_eq!(value_of(&info, "Max charging current"), Some("500 mA"));
    let info = get_battery_info("header\nMax charging current: 2000000\n").unwrap();
    assert_eq!(value_of(&info, "Max charging current"), Some("2.000 A"));
}

#[test]
fn battery_charge_counter_first_four_characters() {
    let info = get_battery_info("header\nCharge counter: 123456789\n").unwrap();
    assert_eq!(value_of(&info, "Charge counter"), Some("1234 mAh"));
}

#[test]
fn battery_charge_counter_too_short_is_malformed() {
    assert_eq!(
        get_battery_info("header\nCharge counter: 12\n"),
        Err(Error::MalformedFieldValue("Charge counter".to_string()))
    );
}

#[test]
fn battery_temperature_tenths_of_degree() {
    let info = get_battery_info("header\ntemperature: 253\n").unwrap();
    assert_eq!(value_of(&info, "temperature"), Some("25.3 \u{b0}C"));
    let info = get_battery_info("header\ntemperature: -5\n").unwrap();
    assert_eq!(value_of(&info, "temperature"), Some("-0.5 \u{b0}C"));
}

#[test]
fn battery_max_charging_voltage_one_decimal() {
    let info = get_battery_info("header\nMax charging voltage: 5000000\n").unwrap();
    assert_eq!(value_of(&info, "Max charging voltage"), Some("5.0 V"));
    let info = get_battery_info("header\nMax charging voltage: 4950000\n").unwrap();
    assert_eq!(value_of(&info, "Max charging voltage"), Some("5.0 V"));
}

#[test]
fn battery_unknown_fields_pass_through() {
    let info = get_battery_info("header\nstatus: 2\nAC powered: true\n").unwrap();
    assert_eq!(value_of(&info, "status"), Some("2"));
    assert_eq!(value_of(&info, "AC powered"), Some("true"));
}

#[test]
fn battery_malformed_lines_are_skipped() {
    let text = "header\nCurrent Battery Service state:\nlevel: 50\nnonsense\na: b: c\n";
    let info = get_battery_info(text).unwrap();
    assert_eq!(info.len(), 1);
    assert_eq!(value_of(&info, "level"), Some("50 %"));
}

#[test]
fn battery_later_key_overwrites_earlier() {
    let report = parse_battery_report("header\nstatus: 2\nstatus: 5\n");
    assert_eq!(report.len(), 1);
    assert_eq!(value_of(&report, "status"), Some("5"));
}

#[test]
fn battery_report_sorted_by_key() {
    let report = parse_battery_report("header\nvoltage: 1\nlevel: 2\nCharge counter: 3\n");
    let keys: Vec<&str> = report.iter().map(|e| e.0.as_str()).collect();
    assert_eq!(keys, vec!["Charge counter", "level", "voltage"]);
}

#[test]
fn battery_scale_absent_defaults_to_hundred() {
    let info = get_battery_info("header\nlevel: 73\n").unwrap();
    assert_eq!(value_of(&info, "level"), Some("73 %"));
}

#[test]
fn battery_scale_zero_is_malformed() {
    assert_eq!(
        get_battery_info("header\nlevel: 40\nscale: 0\n"),
        Err(Error::MalformedFieldValue("level".to_string()))
    );
}

#[test]
fn battery_non_numeric_level_is_malformed() {
    assert_eq!(
        get_battery_info("header\nlevel: abc\nscale: 80\n"),
        Err(Error::MalformedFieldValue("level".to_string()))
    );
}

#[test]
fn battery_empty_input_is_empty() {
    assert_eq!(get_battery_info(""), Ok(vec![]));
}

#[test]
fn normalize_is_applied_exactly_once_per_parse() {
    let text = "header\nlevel: 40\nscale: 80\n";
    let raw = parse_battery_report(text);
    let once = format_values(&raw).unwrap();
    assert_eq!(get_battery_info(text).unwrap(), once);
    let twice = format_values(&once).unwrap();
    assert_ne!(twice, once);
    assert_eq!(value_of(&once, "level"), Some("50 %"));
    assert_eq!(value_of(&twice, "level"), Some("50 % %"));
}

#[test]
fn battery_keys_are_trimmed_of_leading_blanks() {
    let report = parse_battery_report("header\n  level: 9\n");
    assert_eq!(report.len(), 1);
    assert_eq!(report[0].0, "level");
    assert_eq!(report[0].1, "9");
}

#[test]
fn device_identifier_must_be_nonempty() {
    let text = "List of devices attached\n\tdevice\n";
    assert_eq!(
        get_devices(text),
        Err(Error::FailedToParseAdbDeviceResponse("\tdevice".to_string()))
    );
}

#[test]
fn unterminated_final_line_keeps_carriage_return() {
    let text = "List of devices attached\nA\tdevice\r";
    assert_eq!(
        get_devices(text),
        Err(Error::AdbDeviceTypeNotSupported("device\r".to_string()))
    );
}

#[test]
fn battery_key_trim_covers_unicode_whitespace() {
    let report = parse_battery_report("header\n\u{a0}\u{2003}level: 9\n");
    assert_eq!(report.len(), 1);
    assert_eq!(report[0].0, "level");
}

#[test]
fn battery_value_keeps_inner_spaces() {
    let report = parse_battery_report("header\ntechnology: Li ion\n");
    assert_eq!(value_of(&report, "technology"), Some("Li ion"));
}
