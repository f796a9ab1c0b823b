use upulse::system::{
    battery, bios_line, collect, cpu_fields, cpu_rows, dmi, gpus, is_zone, mem_fits, mem_rows,
    order_supplies, parse_kv, pick_cpu_temp, row, temps, Readings, Supply, SupplyName, SystemProbe,
    Zone, ZONES,
};

/// Thousandths of a degree.
fn milli(t: f32) -> i64 {
    (t * 1000.0).round() as i64
}

fn z(label: &str, t: f32) -> Zone {
    Zone { label: label.to_string(), milli: milli(t) }
}

#[test]
fn cpu_temp_prefers_pkg_zone_even_when_cooler() {
    let zones = [z("acpitz", 70.0), z("x86_pkg_temp", 48.0), z("SEN1", 60.0)];
    assert_eq!(pick_cpu_temp(&zones), Some(milli(48.0)));
}

#[test]
fn cpu_temp_falls_back_to_hottest() {
    let zones = [z("acpitz", 45.0), z("TCPU", 52.5), z("SEN1", 40.0)];
    assert_eq!(pick_cpu_temp(&zones), Some(milli(52.5)));
}

#[test]
fn cpu_temp_none_without_zones() {
    assert_eq!(pick_cpu_temp(&[]), None);
}

#[test]
fn cpu_temp_ignores_broken_sensors() {
    // -273.1 (unset ACPI) is filtered out; a near-zero sensor loses to max.
    let zones = [z("acpitz", -273.1), z("SEN5", 1.05), z("TCPU", 47.0)];
    assert_eq!(pick_cpu_temp(&zones), Some(milli(47.0)));
    let all_junk = [z("acpitz", -273.1), z("SEN5", 200.0)];
    assert_eq!(pick_cpu_temp(&all_junk), None);
    // A junk pkg zone falls through to the hottest plausible zone.
    let junk_pkg = [z("x86_pkg_temp", 0.0), z("TCPU", 41.0)];
    assert_eq!(pick_cpu_temp(&junk_pkg), Some(milli(41.0)));
}

fn rows(items: &[(&str, &str)]) -> Vec<(String, String)> {
    items.iter().map(|(a, b)| (a.to_string(), b.to_string())).collect()
}

const CPUINFO: &str = "processor\t: 0\nmodel name\t: Some CPU @ 3.00GHz\ncpu MHz\t\t: 2995.2\n\
                       cpu cores\t: 4\n\nprocessor\t: 1\nmodel name\t: Other\ncpu MHz : 1.0\nflags\n";

#[test]
fn processor_rows_are_read() {
    let f = cpu_fields(CPUINFO);
    assert_eq!(
        (f.model.as_str(), f.mhz.as_str(), f.cores.as_str(), f.threads),
        ("Some CPU @ 3.00GHz", "2995.2", "4", 2)
    );
    assert_eq!(
        cpu_rows(f, Some("2995".to_string())),
        rows(&[
            ("Model", "Some CPU @ 3.00GHz"),
            ("Cores", "4"),
            ("Threads", "2"),
            ("Clock", "2995 MHz"),
        ])
    );
    // An empty value gives way to a later one.
    assert_eq!(cpu_fields("model name:\nmodel name: X\n").model, "X");
    assert_eq!(cpu_rows(cpu_fields(""), None), rows(&[("Model", "—"), ("Threads", "0")]));
}

#[test]
fn memory_rows_are_read() {
    let text = "MemTotal:       16283176 kB\nMemFree: 1 kB\nSwapTotal:       2097148 kB\n";
    assert!(mem_fits(text));
    assert_eq!(mem_rows(text), rows(&[("RAM total", "15.5 GB"), ("Swap total", "2.0 GB")]));
    assert_eq!(mem_rows("MemTotal: x kB\nSwapTotal: 0 kB\n"), rows(&[("Swap total", "none")]));
    assert_eq!(mem_rows(""), rows(&[("Swap total", "none")]));
    assert!(!mem_fits(&format!("MemTotal: {} kB\n", u64::MAX)));
}

#[test]
fn display_adapters_are_read() {
    let out = "00:02.0 VGA compatible controller: Intel Corporation UHD: rev 1\n\
               00:1f.3 Audio device: Intel\n\
               01:00.0 3D controller: NVIDIA\n\
               Display controller\n";
    assert_eq!(gpus(out), vec!["Intel Corporation UHD: rev 1", "NVIDIA"]);
}

#[test]
fn settings_lose_their_quotes() {
    let text = "NAME=\"Ubuntu\"\nVERSION=\"24.04 \"\nNAME = Again\nEMPTY=\nbroken\n";
    assert_eq!(parse_kv(text, "NAME"), "Again");
    assert_eq!(parse_kv(text, "VERSION"), "24.04 ");
    assert_eq!(parse_kv(text, "EMPTY"), "");
    assert_eq!(parse_kv(text, "ABSENT"), "");
}

#[test]
fn the_hottest_zones_are_kept() {
    let many: Vec<Zone> = (0..12).map(|i| z(&format!("z{i}"), i as f32)).collect();
    let top = temps(many);
    assert_eq!(top.len(), ZONES);
    assert_eq!((top[0].label.as_str(), top[0].milli), ("z11", 11000));
    assert_eq!(top[7].label, "z4");
    // Equal readings keep their order.
    let same = temps(vec![z("a", 1.0), z("b", 2.0), z("c", 1.0)]);
    let order: Vec<&str> = same.iter().map(|z| z.label.as_str()).collect();
    assert_eq!(order, vec!["b", "a", "c"]);
    assert!(is_zone("thermal_zone0") && !is_zone("cooling_device0"));
}

fn supply(kind: &str, capacity: &str, status: &str) -> Supply {
    Supply { kind: kind.to_string(), capacity: capacity.to_string(), status: status.to_string() }
}

#[test]
fn the_first_readable_battery_counts() {
    let names: Vec<SupplyName> = ["AC", "hidpp_battery_0", "BAT0", "BAT1"]
        .iter()
        .map(|n| SupplyName { name: n.to_string() })
        .collect();
    let order: Vec<String> = order_supplies(names).into_iter().map(|s| s.name).collect();
    assert_eq!(order, vec!["BAT0", "BAT1", "AC", "hidpp_battery_0"]);
    assert_eq!(
        battery(&[
            supply("Mains", "", ""),
            supply("Battery", "300", "Full"),
            supply("Battery", "88", ""),
            supply("Battery", "10", "Discharging"),
        ]),
        Some(("Unknown".to_string(), 88))
    );
    assert_eq!(
        battery(&[supply("Battery", "+7", "Charging")]),
        Some(("Charging".to_string(), 7))
    );
    assert_eq!(battery(&[]), None);
}

#[test]
fn everything_is_assembled() {
    assert_eq!(dmi("board_name"), "/sys/class/dmi/id/board_name");
    assert_eq!(bios_line("1.2", "01/02/2026"), "1.2  ·  01/02/2026");
    assert_eq!(bios_line("1.2", ""), "1.2");
    assert_eq!(bios_line("", "01/02/2026"), "");
    assert_eq!(row("a", String::new()), ("a".to_string(), "—".to_string()));
    let info = collect(
        Readings {
            os_release: "PRETTY_NAME=\"Ubuntu 24.04\"\n".to_string(),
            kernel: "6.8.0".to_string(),
            arch: "x86_64".to_string(),
            hostname: "box".to_string(),
            vendor: "V".to_string(),
            model: String::new(),
            board: "B".to_string(),
            bios_version: "1".to_string(),
            bios_date: String::new(),
        },
        rows(&[("Model", "c")]),
        rows(&[("RAM total", "m")]),
        vec!["g".to_string()],
        vec![z("a", 1.0), z("b", 2.0)],
        &[supply("Battery", "50", "Full")],
    );
    assert_eq!(
        info.os,
        rows(&[
            ("Distribution", "Ubuntu 24.04"),
            ("Version", "—"),
            ("Kernel", "6.8.0"),
            ("Architecture", "x86_64"),
            ("Hostname", "box"),
        ])
    );
    assert_eq!(
        info.machine,
        rows(&[("Vendor", "V"), ("Model", "—"), ("Board", "B"), ("BIOS", "1")])
    );
    assert_eq!(info.temps[0].label, "b");
    assert_eq!(info.battery, Some(("Full".to_string(), 50)));
    let mut p = SystemProbe::new();
    assert!(p.gather() && !p.gather());
    p.gathered(info);
    assert!(!p.running && p.state.is_some());
    assert!(p.gather());
}
