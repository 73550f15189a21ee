use galaxy_systrkr::sampler::net::{is_virtual_iface, physical_traffic, NetCounters, NetInterface, NetSample};

#[test]
fn first_reading_has_no_rate() {
    let mut c = NetCounters::new();

    let first = c.observe(1_000_000, 500, 700);

    assert_eq!(first, None);
    let zero = NetSample::default();
    assert_eq!((zero.rx_bps, zero.tx_bps), (0, 0));
}

#[test]
fn second_reading_gives_deltas() {
    let mut c = NetCounters::new();
    c.observe(1_000, 500, 700);
    assert_eq!(c.observe(3_000, 800, 600), Some((2_000, 300, 0)));
}

#[test]
fn virtual_interfaces_are_excluded() {
    for name in ["lo", "docker0", "br-1a2b", "veth12", "virbr0", "tun0", "tap1", "podman0", "wg0", "cni0"] {
        assert!(is_virtual_iface(name), "{name}");
    }
    for name in ["eth0", "enp3s0", "wlan0", "lo0", "l"] {
        assert!(!is_virtual_iface(name), "{name}");
    }
}

#[test]
fn traffic_sums_physical_interfaces() {
    let ifs = vec![
        NetInterface { name: "lo".to_string(), received: 1000, transmitted: 1000 },
        NetInterface { name: "eth0".to_string(), received: 10, transmitted: 20 },
        NetInterface { name: "wlan0".to_string(), received: u64::MAX, transmitted: 1 },
        NetInterface { name: "docker0".to_string(), received: 5, transmitted: 5 },
    ];
    assert_eq!(physical_traffic(&ifs), (u64::MAX, 21));
}
