use soliscloud::normalize::{normalize, Field, NormRecord, Record};
use soliscloud::value::{coerce_to_string, Number, Scalar};

fn num_int(digits: &str) -> Scalar {
    Scalar::Num(Number {
        neg: false,
        int_part: digits.chars().collect(),
        frac_part: Vec::new(),
        is_float: false,
    })
}

fn num_float(int_part: &str, frac: &str) -> Scalar {
    Scalar::Num(Number {
        neg: false,
        int_part: int_part.chars().collect(),
        frac_part: frac.chars().collect(),
        is_float: true,
    })
}

fn st(v: &str) -> Scalar {
    Scalar::Str(v.to_string())
}

fn field(name: &str, value: Scalar) -> Field {
    Field { name: name.to_string(), value }
}

fn run(fields: Vec<Field>) -> NormRecord {
    normalize(&Record { fields })
}

fn got(m: &NormRecord, k: &str) -> Option<String> {
    m.get(k).cloned()
}

#[test]
fn test_detail() {
    let m = run(vec![
        field("id", st("1234567890")),
        field("homeLoadTodayEnergy", num_int("6100")),
        field("homeLoadTodayEnergyStr", st("Wh")),
        field("updateTimeStr", st("2030-01-01 00:00:00")),
    ]);
    assert_eq!(got(&m, "home_load_today_energy_kwh"), Some("6.1".to_string()));
}

#[test]
fn test_unit_flip() {
    let m = run(vec![
        field("homeLoadTotalEnergy", num_float("1", "377")),
        field("homeLoadTotalEnergyStr", st("MWh")),
        field("homeLoadYesterdayEnergy", num_float("0", "0000129")),
        field("homeLoadYesterdayEnergyStr", st("GWh")),
    ]);
    assert_eq!(got(&m, "home_load_total_energy_kwh"), Some("1377.0".to_string()));
    assert_eq!(got(&m, "home_load_yesterday_energy_kwh"), Some("12.9".to_string()));
}

#[test]
fn test_to_string() {
    assert_eq!("hello", coerce_to_string(&st("hello")));
    assert_eq!("0.0", coerce_to_string(&num_float("0", "")));
    assert_eq!("0", coerce_to_string(&num_int("0")));
}

#[test]
fn test_coerce_bool_null() {
    assert_eq!("true", coerce_to_string(&Scalar::Bool(true)));
    assert_eq!("false", coerce_to_string(&Scalar::Bool(false)));
    assert_eq!("null", coerce_to_string(&Scalar::Null));
}

#[test]
fn test_coerce_negative_float() {
    let n = Scalar::Num(Number {
        neg: true,
        int_part: vec!['3'],
        frac_part: vec!['5'],
        is_float: true,
    });
    assert_eq!("-3.5", coerce_to_string(&n));
}

#[test]
fn test_update_time_str_passthrough() {
    let m = run(vec![
        field("updateTime", num_int("1700000000000")),
        field("updateTimeStr", st("2030-01-01 00:00:00")),
    ]);
    assert_eq!(got(&m, "update_time_str"), Some("2030-01-01 00:00:00".to_string()));
    assert_eq!(got(&m, "update_time"), Some("1700000000000".to_string()));
}

#[test]
fn test_empty_unit_leaves_both() {
    let m = run(vec![
        field("loadPower", num_int("42")),
        field("loadPowerStr", st("--")),
    ]);
    assert_eq!(got(&m, "load_power"), Some("42".to_string()));
    assert_eq!(got(&m, "load_power_str"), Some("--".to_string()));
}

#[test]
fn test_orphan_descriptor_passes_through() {
    let m = run(vec![field("powerStr", st("W"))]);
    assert_eq!(got(&m, "power_str"), Some("W".to_string()));
    assert_eq!(m.entries.len(), 1);
}

#[test]
fn test_non_string_descriptor_passes_through() {
    let m = run(vec![
        field("volt", num_int("230")),
        field("voltStr", num_int("42")),
    ]);
    assert_eq!(got(&m, "volt"), Some("230".to_string()));
    assert_eq!(got(&m, "volt_str"), Some("42".to_string()));
}

#[test]
fn test_unknown_unit_kept_lowercased() {
    let m = run(vec![
        field("inverterTemperature", num_float("25", "3")),
        field("inverterTemperatureStr", st("\u{b0}C")),
    ]);
    assert_eq!(got(&m, "inverter_temperature_c"), Some("25.3".to_string()));
}

#[test]
fn test_watt_unit_scaled_down() {
    let m = run(vec![
        field("totalEnergy", num_int("1000")),
        field("totalEnergyStr", st("Wh")),
    ]);
    assert_eq!(got(&m, "total_energy_kwh"), Some("1.0".to_string()));
}

#[test]
fn test_non_numeric_base_unscaled() {
    let m = run(vec![
        field("mode", st("auto")),
        field("modeStr", st("Wh")),
    ]);
    assert_eq!(got(&m, "mode_kwh"), Some("auto".to_string()));
}

#[test]
fn test_collision_later_wins() {
    let m = run(vec![
        field("myKey", num_int("1")),
        field("MyKey", num_int("2")),
    ]);
    assert_eq!(got(&m, "my_key"), Some("2".to_string()));
    assert_eq!(m.entries.len(), 1);
}

#[test]
fn test_no_field_dropped() {
    let m = run(vec![
        field("a", num_int("1")),
        field("aStr", st("Wh")),
        field("bStr", st("kWh")),
        field("c", st("x")),
        field("updateTimeStr", st("t")),
    ]);
    // a and aStr fold into one entry; the rest pass through
    assert_eq!(m.entries.len(), 4);
    assert!(got(&m, "a_kwh").is_some());
    assert!(got(&m, "b_str").is_some());
    assert!(got(&m, "c").is_some());
    assert!(got(&m, "update_time_str").is_some());
}

#[test]
fn test_gwh_scales_up_by_a_million() {
    let m = run(vec![
        field("gridEnergy", num_float("0", "0129")),
        field("gridEnergyStr", st("GWh")),
    ]);
    assert_eq!(got(&m, "grid_energy_kwh"), Some("12900.0".to_string()));
}

#[test]
fn test_negative_value_scaled() {
    let neg_half = Scalar::Num(Number {
        neg: true,
        int_part: vec!['0'],
        frac_part: vec!['5'],
        is_float: true,
    });
    let m = run(vec![
        field("batteryEnergy", neg_half),
        field("batteryEnergyStr", st("Wh")),
    ]);
    assert_eq!(got(&m, "battery_energy_kwh"), Some("-0.0005".to_string()));
}

#[test]
fn test_normalize_twice_identical() {
    let make = || {
        vec![
            field("homeLoadTodayEnergy", num_int("6100")),
            field("homeLoadTodayEnergyStr", st("Wh")),
            field("state", num_int("1")),
            field("updateTimeStr", st("2030-01-01 00:00:00")),
        ]
    };
    let m1 = run(make());
    let m2 = run(make());
    assert_eq!(m1.entries.len(), m2.entries.len());
    for (e1, e2) in m1.entries.iter().zip(m2.entries.iter()) {
        assert_eq!(e1.key, e2.key);
        assert_eq!(e1.value, e2.value);
    }
}
