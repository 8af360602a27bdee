use cs140::tcp::{DataPackage, HeaderPackage, RTTPackage, SackPackage, TCPPackage};
use cs140::tcp_layer::{TCPAction, TCPEvent, TCPLayer, INITIAL_RTT};

fn deliveries(actions: &[TCPAction]) -> Vec<Vec<u8>> {
    actions
        .iter()
        .filter_map(|a| match a {
            TCPAction::Deliver(d) => Some(d.clone()),
            _ => None,
        })
        .collect()
}

fn sent(actions: &[TCPAction]) -> Vec<TCPPackage> {
    actions
        .iter()
        .filter_map(|a| match a {
            TCPAction::Send(p) => Some(p.clone()),
            _ => None,
        })
        .collect()
}

#[test]
fn transfer_without_loss_delivers_the_data() {
    // Frames of 32 bytes leave segments of 20 bytes.
    let mut sender = TCPLayer::new(32);
    let mut receiver = TCPLayer::new(32);
    assert_eq!(sender.sequence_length, 20);
    let data: Vec<u8> = (0..100u8).collect();
    assert!(sender.is_ready());
    assert!(sender.step_at(TCPEvent::AppData(data.clone()), 0).is_empty());
    assert!(sender.is_sending());

    let mut packages = Vec::new();
    let mut delivered = Vec::new();
    let mut last_actions = Vec::new();
    while let Some(p) = sender.package_to_send() {
        packages.push(p.clone());
        let actions = receiver.step_at(TCPEvent::Received(p), 0);
        delivered.extend(deliveries(&actions));
        if !actions.is_empty() {
            last_actions = sent(&actions);
        }
        sender.step_at(TCPEvent::PackageSent, 0);
    }
    // The header, then five segments of twenty bytes in order.
    assert_eq!(packages.len(), 6);
    assert_eq!(packages[0], TCPPackage::Header(HeaderPackage { sequence_count: 6, data_length: 100 }));
    assert_eq!(
        packages[2],
        TCPPackage::Data(DataPackage { sequence_id: 2, offset: 20, data: (20..40u8).collect() })
    );
    assert_eq!(delivered, vec![data]);
    assert_eq!(
        last_actions,
        vec![TCPPackage::Sack(SackPackage { missing_ranges: vec![], largest_confirmed_sequence_id: Some(5) })]
    );
    assert!(receiver.is_ready());
}

#[test]
fn rtt_timeout_probes_and_announces_a_vacant_peer() {
    let mut layer = TCPLayer::new(32);
    let actions = layer.step_at(TCPEvent::RttTimeout, 250);
    assert_eq!(actions.len(), 3);
    assert_eq!(sent(&actions), vec![TCPPackage::RttRequest(RTTPackage { rtt_start_millis: 250 }), TCPPackage::PeerVacant]);
    assert!(matches!(actions[2], TCPAction::ResetRttTimeout(5553500)));
}

#[test]
fn start_sets_both_timers() {
    let layer = TCPLayer::new(32);
    let actions = layer.start();
    assert!(matches!(actions[0], TCPAction::ResetRttTimeout(0)));
    assert!(matches!(actions[1], TCPAction::ResetSackTimeout(8330250)));
}

#[test]
fn rtt_request_is_answered_and_response_averages() {
    let mut layer = TCPLayer::new(32);
    let actions = layer.step_at(TCPEvent::Received(TCPPackage::RttRequest(RTTPackage { rtt_start_millis: 17 })), 0);
    assert_eq!(sent(&actions), vec![TCPPackage::RttResponse(RTTPackage { rtt_start_millis: 17 })]);
    let actions = layer.step_at(TCPEvent::Received(TCPPackage::RttResponse(RTTPackage { rtt_start_millis: 900 })), 100);
    assert!(actions.is_empty());
    // (55535 + (1000 + 100 - 900) % 1000) / 2
    assert_eq!(layer.rtt_status.get_rtt(), (INITIAL_RTT + 200) / 2);
}

#[test]
fn receiver_reports_the_gaps_on_its_timer() {
    let mut layer = TCPLayer::new(32);
    layer.step_at(TCPEvent::Received(TCPPackage::Header(HeaderPackage { sequence_count: 10, data_length: 180 })), 0);
    layer.step_at(TCPEvent::Received(TCPPackage::Data(DataPackage { sequence_id: 1, offset: 0, data: vec![1; 20] })), 0);
    layer.step_at(TCPEvent::Received(TCPPackage::Data(DataPackage { sequence_id: 3, offset: 40, data: vec![3; 20] })), 0);
    let actions = layer.step_at(TCPEvent::SackTimeout, 0);
    assert_eq!(
        sent(&actions),
        vec![TCPPackage::Sack(SackPackage { missing_ranges: vec![2..3], largest_confirmed_sequence_id: Some(3) })]
    );
    assert!(matches!(actions[1], TCPAction::ResetSackTimeout(8330250)));
}

#[test]
fn sender_resends_the_smallest_missing_segment() {
    let mut sender = TCPLayer::new(32);
    let data: Vec<u8> = (0..100u8).collect();
    sender.step_at(TCPEvent::AppData(data), 0);
    sender.step_at(TCPEvent::PackageSent, 0);
    let actions = sender.step_at(
        TCPEvent::Received(TCPPackage::Sack(SackPackage { missing_ranges: vec![2..4], largest_confirmed_sequence_id: Some(1) })),
        0,
    );
    assert!(matches!(actions[0], TCPAction::ResetSackTimeout(_)));
    sender.step_at(TCPEvent::PackageSent, 0);
    assert_eq!(
        sender.package_to_send(),
        Some(TCPPackage::Data(DataPackage { sequence_id: 2, offset: 20, data: (20..40u8).collect() }))
    );
    // The sender counts the acknowledgement timer running out.
    sender.step_at(TCPEvent::SackTimeout, 0);
    assert_eq!(sender.sack_timeout_count, 1);
}

#[test]
fn a_vacant_peer_ends_a_transfer() {
    let mut sender = TCPLayer::new(32);
    sender.step_at(TCPEvent::AppData(vec![1, 2, 3]), 0);
    assert!(sender.is_sending());
    sender.step_at(TCPEvent::Received(TCPPackage::PeerVacant), 0);
    assert!(sender.is_ready());
    assert_eq!(sender.package_to_send(), None);
}

#[test]
fn closing_the_application_stops_the_layer() {
    let mut layer = TCPLayer::new(32);
    let actions = layer.step(TCPEvent::AppClosed).expect("the clock reads after 1970");
    assert_eq!(actions.len(), 1);
    assert!(matches!(actions[0], TCPAction::Stop));
}

#[test]
fn a_probe_is_stamped_within_the_second() {
    let probe = cs140::tcp::TCPRTTStatus::generate_rtt_package().expect("the clock reads after 1970");
    assert!(probe.rtt_start_millis < 1000);
}

#[test]
fn events_that_do_not_read_the_clock_always_go_ahead() {
    let mut layer = TCPLayer::new(32);
    let mut twin = TCPLayer::new(32);
    let actions = layer.step(TCPEvent::SackTimeout).expect("no clock is read");
    let expected = twin.step_at(TCPEvent::SackTimeout, 0);
    assert_eq!(actions.len(), expected.len());
    assert!(layer.step(TCPEvent::AppData(vec![1, 2, 3])).is_some());
    assert!(layer.is_sending());
}
