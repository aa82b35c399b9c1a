use mvsqlite::boot::{boot, boot_with_buggify, Network, NetworkSetting};

#[test]
fn network_starts_once() {
    let mut network = Network::new();
    assert_eq!(boot(&mut network), Some(vec![]));
    assert_eq!(network.booted, Some(false));
    assert_eq!(boot(&mut network), None);
    assert_eq!(boot_with_buggify(&mut network, true), None);
    assert_eq!(network.booted, Some(false));
}

#[test]
fn first_wish_for_fault_injection_counts() {
    let mut network = Network::new();
    assert_eq!(
        boot_with_buggify(&mut network, true),
        Some(vec![
            NetworkSetting::ClientBuggifyEnable,
            NetworkSetting::ClientBuggifySectionActivatedProbability(100),
        ])
    );
    assert_eq!(boot_with_buggify(&mut network, false), None);
    assert_eq!(network.booted, Some(true));
}
