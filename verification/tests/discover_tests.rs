use asmo::discover::{
    classify_zone, count_core_dirs, parse_lscpu_output, select_thermal_paths, ThermalZone,
    ZoneKind,
};

fn mhz(s: &str) -> f32 {
    s.parse().unwrap_or(0.0)
}

#[test]
fn parse_lscpu_output_normal() {
    let raw = "\
CPU MODELNAME MINMHZ MAXMHZ
0 Cortex-A55 300.0 1804.0
1 Cortex-A55 300.0 1804.0
4 Cortex-A78 710.0 2400.0";

    let cores = parse_lscpu_output(raw, 3);
    assert_eq!(cores.len(), 3);
    assert_eq!(&*cores[0].name, "cpu0");
    assert_eq!(&*cores[1].name, "cpu1");
    assert_eq!(&*cores[2].name, "cpu4");
    assert_eq!(mhz(&cores[0].min_mhz), 300.0);
    assert_eq!(mhz(&cores[2].max_mhz), 2400.0);
}

#[test]
fn parse_lscpu_output_empty() {
    let cores = parse_lscpu_output("CPU MODELNAME MINMHZ MAXMHZ\n", 0);
    assert!(cores.is_empty());
}

#[test]
fn parse_lscpu_output_multiword_model() {
    let raw = "\
CPU MODELNAME MINMHZ MAXMHZ
0 ARM Cortex-A55 rev 1 300.0 1804.0";

    let cores = parse_lscpu_output(raw, 1);
    assert_eq!(cores.len(), 1);
    assert_eq!(&*cores[0].model_name, "ARM Cortex-A55 rev 1");
}

#[test]
fn parse_lscpu_output_sorts_by_core_number() {
    let raw = "\
CPU MODELNAME MINMHZ MAXMHZ
7 Big 710.0 2400.0
0 Little 300.0 1804.0
3 Little 300.0 1804.0";

    let cores = parse_lscpu_output(raw, 3);
    assert_eq!(&*cores[0].name, "cpu0");
    assert_eq!(&*cores[1].name, "cpu3");
    assert_eq!(&*cores[2].name, "cpu7");
}

#[test]
fn lscpu_sorts_numerically_and_skips_short_rows() {
    let raw = "CPU MODELNAME MINMHZ MAXMHZ\n10 A 1 2\n2 B 3 4\n5 short 6\n\n9 C - -";
    let cores = parse_lscpu_output(raw, 0);
    let names: Vec<&str> = cores.iter().map(|c| c.name.as_str()).collect();
    assert_eq!(names, vec!["cpu2", "cpu9", "cpu10"]);
    assert_eq!(mhz(&cores[1].min_mhz), 0.0);
}

#[test]
fn lscpu_without_header_line_is_empty() {
    assert!(parse_lscpu_output("", 4).is_empty());
}

fn zone(name: &str, t: Option<&str>) -> ThermalZone {
    ThermalZone { name: name.to_string(), zone_type: t.map(|s| s.to_string()) }
}

#[test]
fn zones_are_classified_case_insensitively() {
    assert_eq!(classify_zone("CPUSS-0-USR\n"), ZoneKind::Cpu);
    assert_eq!(classify_zone("aoss-0"), ZoneKind::Cpu);
    assert_eq!(classify_zone("gpuss-0"), ZoneKind::Gpu);
    assert_eq!(classify_zone("cpuss-0 gpuss-0"), ZoneKind::Cpu);
    assert_eq!(classify_zone("battery"), ZoneKind::Other);
}

#[test]
fn the_last_matching_zone_by_name_wins() {
    let zones = vec![
        zone("thermal_zone9", Some("cpuss-0")),
        zone("thermal_zone12", Some("aoss-0")),
        zone("thermal_zone3", Some("gpuss-0")),
        zone("thermal_zone8", None),
        zone("cooling_device0", Some("cpuss-0")),
    ];
    let p = select_thermal_paths(&zones);
    assert_eq!(p.cpu_temp_path, "/sys/class/thermal/thermal_zone9/temp");
    assert_eq!(p.gpu_temp_path, "/sys/class/thermal/thermal_zone3/temp");
}

#[test]
fn defaults_without_matching_zones() {
    let p = select_thermal_paths(&vec![zone("thermal_zone0", Some("battery"))]);
    assert_eq!(p.cpu_temp_path, "/sys/class/thermal/thermal_zone0/temp");
    assert_eq!(p.gpu_temp_path, "/sys/class/thermal/thermal_zone1/temp");
}

#[test]
fn core_directories_are_counted() {
    let names: Vec<String> = ["cpu0", "cpu1", "cpu10", "cpufreq", "cpuidle", "cpu", "online", "cpu7"]
        .iter()
        .map(|s| s.to_string())
        .collect();
    assert_eq!(count_core_dirs(&names), 4);
}
