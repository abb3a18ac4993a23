use avio23::config::{done, validate_text, ConfigReport};

const GATEWAY_AND_APPS: &str = "major_frame: 40ms
partitions:
  - id: 0
    name: cpm_f_gateway
    duration: 3ms
    offset: 0ms
    period: 40ms
    image: cpm_f_gateway
  - id: 1
    name: fuel_quantity
    duration: 2ms
    offset: 4ms
    period: 40ms
    image: fuel_quantity
  - id: 2
    name: transfer_pump
    duration: 2ms
    offset: 8ms
    period: 40ms
    image: transfer_pump
";

const WIRED_CHANNELS: &str = "channel:
  - !Sampling
    msg_size: 1KB
    source:
      partition: cpm_f_gateway
      port: iom_to_fuel
    destination:
      - partition: fuel_quantity
        port: iom_to_fuel
      - partition: transfer_pump
        port: iom_to_fuel
      - partition: fuel_controller
        port: iom_to_fuel
  - !Sampling
    msg_size: 1KB
    source:
      partition: fuel_controller
      port: controller_to_iom
    destination:
      - partition: cpm_f_gateway
        port: controller_to_iom
";

fn controller(duration: &str, offset: &str, period: &str) -> String {
    format!(
        "  - id: 3\n    name: fuel_controller\n    duration: {}\n    offset: {}\n    period: {}\n    image: fuel_controller\n",
        duration, offset, period
    )
}

fn config(controller_entry: &str, channels: &str) -> String {
    format!("{}{}{}", GATEWAY_AND_APPS, controller_entry, channels)
}

fn check(text: &str) -> ConfigReport {
    validate_text(text).expect("numbers in range")
}

#[test]
fn complete_configuration_validates() {
    let r = check(&config(&controller("1ms", "12ms", "40ms"), WIRED_CHANNELS));
    assert!(r.ok);
    assert_eq!(r.messages, vec!["schedule, ports and windows look good.".to_string()]);
}

#[test]
fn untagged_channels_count_too() {
    let channels = WIRED_CHANNELS.replace("  - !Sampling\n    msg_size", "  - msg_size");
    let r = check(&config(&controller("5ms", "30ms", "40ms"), &channels));
    assert!(r.ok, "{:?}", r.messages);
}

#[test]
fn unfilled_controller_entry_is_reported() {
    let r = check(&config(&controller("TODO", "TODO", "TODO"), ""));
    assert!(!r.ok);
    assert_eq!(
        r.messages,
        vec![
            "partition 'fuel_controller': missing or malformed duration/offset/period".to_string(),
            "fuel_controller partition is missing — add an entry under partitions:".to_string(),
            "channel: section missing".to_string(),
            "fuel_controller is not a destination of the iom_to_fuel sampling channel — it cannot read sensors"
                .to_string(),
            "fuel_controller has no outgoing sampling channel — add one to send commands to cpm_f_gateway"
                .to_string(),
        ]
    );
}

#[test]
fn overlapping_window_is_reported() {
    let r = check(&config(&controller("2ms", "8ms", "40ms"), WIRED_CHANNELS));
    assert!(!r.ok);
    assert_eq!(
        r.messages,
        vec!["windows overlap: 'transfer_pump' (8..10ms) and 'fuel_controller' (8..10ms)".to_string()]
    );
}

#[test]
fn overlap_is_found_in_offset_order() {
    let r = check(&config(&controller("2ms", "5ms", "40ms"), WIRED_CHANNELS));
    assert_eq!(
        r.messages,
        vec!["windows overlap: 'fuel_quantity' (4..6ms) and 'fuel_controller' (5..7ms)".to_string()]
    );
}

#[test]
fn period_and_frame_overrun_are_reported() {
    let r = check(&config(&controller("2ms", "39ms", "20ms"), WIRED_CHANNELS));
    assert!(!r.ok);
    assert_eq!(
        r.messages,
        vec![
            "partition 'fuel_controller': period 20ms != major_frame 40ms".to_string(),
            "partition 'fuel_controller': window 39..41ms exceeds major frame 40ms".to_string(),
        ]
    );
}

#[test]
fn controller_duration_bounds() {
    let r = check(&config(&controller("6ms", "12ms", "40ms"), WIRED_CHANNELS));
    assert_eq!(
        r.messages,
        vec!["fuel_controller duration must be between 1ms and 5ms (got 6ms)".to_string()]
    );
    let r = check(&config(&controller("0ms", "12ms", "40ms"), WIRED_CHANNELS));
    assert_eq!(
        r.messages,
        vec!["fuel_controller duration must be between 1ms and 5ms (got 0ms)".to_string()]
    );
    let r = check(&config(&controller("500us", "12ms", "40ms"), WIRED_CHANNELS));
    assert!(!r.ok);
}

#[test]
fn unwired_controller_is_reported() {
    let channels = WIRED_CHANNELS.replace("      - partition: fuel_controller\n        port: iom_to_fuel\n", "");
    let r = check(&config(&controller("1ms", "12ms", "40ms"), &channels));
    assert_eq!(
        r.messages,
        vec!["fuel_controller is not a destination of the iom_to_fuel sampling channel — it cannot read sensors"
            .to_string()]
    );
    let channels = WIRED_CHANNELS.replace("      partition: fuel_controller\n      port: controller_to_iom", "      partition: cpm_f_gateway\n      port: controller_to_iom");
    let r = check(&config(&controller("1ms", "12ms", "40ms"), &channels));
    assert_eq!(
        r.messages,
        vec!["fuel_controller has no outgoing sampling channel — add one to send commands to cpm_f_gateway"
            .to_string()]
    );
}

#[test]
fn major_frame_problems() {
    let r = check("partitions: []\n");
    assert_eq!(r.messages, vec!["major_frame: missing or not a string".to_string()]);
    let r = check("major_frame: 40\npartitions: []\n");
    assert_eq!(r.messages, vec!["major_frame: missing or not a string".to_string()]);
    let r = check("major_frame: forty\npartitions: []\n");
    assert!(!r.ok);
    assert_eq!(r.messages, vec!["major_frame: cannot parse 'forty'".to_string()]);
    let r = check("major_frame: 40ms\npartitions: none\n");
    assert_eq!(r.messages, vec!["partitions: missing or not a list".to_string()]);
    let r = check("- 1\n- 2\n");
    assert_eq!(r.messages, vec!["major_frame: missing or not a string".to_string()]);
}

#[test]
fn unnamed_partition() {
    let text = "major_frame: 40ms\npartitions:\n  - duration: 1ms\n";
    let r = check(text);
    assert_eq!(
        r.messages[0],
        "partition '?': missing or malformed duration/offset/period".to_string()
    );
}

#[test]
fn yaml_errors_are_reported() {
    let r = check("major_frame: [40ms\n");
    assert!(!r.ok);
    assert_eq!(r.messages.len(), 1);
    assert!(r.messages[0].starts_with("YAML parse error: "));
    assert!(r.messages[0].len() > "YAML parse error: ".len());
}

#[test]
fn numbers_out_of_range() {
    assert!(validate_text("major_frame: 18446744073709552s\npartitions: []\n").is_none());
    let big = config(&controller("1ms", "18446744073709551615ms", "40ms"), WIRED_CHANNELS);
    assert!(validate_text(&big).is_none());
}

#[test]
fn done_closes_a_report() {
    let r = done(true, vec![]);
    assert!(r.ok);
    assert_eq!(r.messages, vec!["schedule, ports and windows look good.".to_string()]);
    let r = done(false, vec!["x".to_string()]);
    assert!(!r.ok);
    assert_eq!(r.messages, vec!["x".to_string()]);
}

#[test]
fn undeclared_source_partition_is_reported() {
    let channels = WIRED_CHANNELS.replace("      partition: cpm_f_gateway\n      port: iom_to_fuel", "      partition: iom_gateway\n      port: iom_to_fuel");
    let r = check(&config(&controller("1ms", "12ms", "40ms"), &channels));
    assert!(!r.ok);
    assert_eq!(
        r.messages,
        vec!["sampling channel 'iom_to_fuel': source partition 'iom_gateway' is not declared under partitions:"
            .to_string()]
    );
}

#[test]
fn missing_source_partition_is_reported() {
    let channels = WIRED_CHANNELS.replace("      partition: cpm_f_gateway\n      port: iom_to_fuel", "      port: iom_to_fuel");
    let r = check(&config(&controller("1ms", "12ms", "40ms"), &channels));
    assert!(!r.ok);
    assert_eq!(
        r.messages,
        vec!["sampling channel 'iom_to_fuel': source partition '?' is not declared under partitions:".to_string()]
    );
}

#[test]
fn source_messages_come_in_channel_order() {
    let channels = WIRED_CHANNELS
        .replace("      partition: cpm_f_gateway\n      port: iom_to_fuel", "      partition: iom_gateway\n      port: iom_to_fuel")
        .replace("      partition: fuel_controller\n      port: controller_to_iom", "      port: controller_to_iom");
    let r = check(&config(&controller("1ms", "12ms", "40ms"), &channels));
    assert_eq!(
        r.messages,
        vec![
            "sampling channel 'iom_to_fuel': source partition 'iom_gateway' is not declared under partitions:"
                .to_string(),
            "sampling channel 'controller_to_iom': source partition '?' is not declared under partitions:"
                .to_string(),
            "fuel_controller has no outgoing sampling channel — add one to send commands to cpm_f_gateway"
                .to_string(),
        ]
    );
}

#[test]
fn channel_without_destinations_needs_no_declared_source() {
    let channels = format!(
        "{}  - !Sampling\n    msg_size: 1KB\n    source:\n      partition: nowhere\n      port: spare\n    destination: []\n",
        WIRED_CHANNELS
    );
    let r = check(&config(&controller("1ms", "12ms", "40ms"), &channels));
    assert!(r.ok, "{:?}", r.messages);
}
