use cs140::ack::AckPackage;
use cs140::ack_machine::{AckAction, AckEvent, AckStateMachine, ACK_TIME_OUT_MILLIS, TIME_OUT_MILLIS};

/// Runs the actions of one side: returns the frames it sent and what it waits for next.
fn split(actions: Vec<AckAction>) -> (Vec<AckPackage>, AckAction) {
    let mut frames = Vec::new();
    let mut wait = None;
    for a in actions {
        match a {
            AckAction::Send(p) => frames.push(p),
            other => wait = Some(other),
        }
    }
    (frames, wait.unwrap())
}

#[test]
fn stop_and_wait_carries_the_data_without_padding() {
    let data: Vec<u8> = (0..100u8).collect();
    let mut tx = AckStateMachine::new(40, 1);
    tx.append(&data);
    let mut rx = AckStateMachine::new(40, 2);

    let (_, mut tx_wait) = split(tx.resume());
    let (_, mut rx_wait) = split(rx.resume());
    assert!(matches!(rx_wait, AckAction::Receive(TIME_OUT_MILLIS)));
    let mut tx_done = false;
    let mut rx_done = false;
    for _ in 0..50 {
        if tx_done && rx_done {
            break;
        }
        // The sender goes on until it waits for a frame.
        while matches!(tx_wait, AckAction::Tick) {
            let (frames, w) = split(tx.step(AckEvent::Tick));
            tx_wait = w;
            for f in frames {
                assert!(matches!(rx_wait, AckAction::Receive(_)));
                let (acks, w) = split(rx.step(AckEvent::Received(f)));
                assert!(acks.is_empty());
                rx_wait = w;
                while matches!(rx_wait, AckAction::Tick) {
                    let (acks, w) = split(rx.step(AckEvent::Tick));
                    rx_wait = w;
                    for ack in acks {
                        assert!(matches!(tx_wait, AckAction::AwaitFrame(ACK_TIME_OUT_MILLIS)));
                        let (_, w) = split(tx.step(AckEvent::Frame(ack)));
                        tx_wait = w;
                    }
                }
                if matches!(rx_wait, AckAction::Finish) {
                    rx_done = true;
                }
            }
        }
        if matches!(tx_wait, AckAction::Finish) {
            tx_done = true;
        }
        if matches!(tx_wait, AckAction::AwaitFrame(_)) && rx_done {
            break;
        }
    }
    assert!(rx_done);
    assert_eq!(rx.rx, data);
    assert_eq!(rx.rx_offset, 3);
}

#[test]
fn too_many_lost_acknowledgements_break_the_link() {
    let mut tx = AckStateMachine::new(40, 1);
    tx.append(&[7; 10]);
    let (frames, w) = split(tx.step(AckEvent::Tick));
    assert_eq!(frames.len(), 1);
    assert!(matches!(w, AckAction::AwaitFrame(ACK_TIME_OUT_MILLIS)));
    for _ in 0..15 {
        let (frames, w) = split(tx.step(AckEvent::FrameTimeout));
        assert_eq!(frames.len(), 1);
        assert!(matches!(w, AckAction::AwaitFrame(_)));
    }
    let (frames, w) = split(tx.step(AckEvent::FrameTimeout));
    assert!(frames.is_empty());
    assert!(matches!(w, AckAction::LinkError));
}

#[test]
fn own_frames_are_not_acknowledgements() {
    let mut tx = AckStateMachine::new(40, 1);
    tx.append(&[7; 10]);
    let (frames, _) = split(tx.step(AckEvent::Tick));
    let echo = AckPackage::new(&[0; 40], 0, 0, false, true, 1, 0);
    let actions = tx.step(AckEvent::Frame(echo));
    assert_eq!(actions.len(), 1);
    assert!(matches!(actions[0], AckAction::AwaitFrame(ACK_TIME_OUT_MILLIS)));
    // A frame of the peer that acknowledges nothing makes the sender send again.
    let other = AckPackage::new(&[0; 40], 40, 0, true, false, 2, 0);
    let (again, _) = split(tx.step(AckEvent::Frame(other)));
    assert_eq!(again, frames);
}

#[test]
fn an_unexpected_frame_is_acknowledged_with_the_last_offset() {
    let mut rx = AckStateMachine::new(40, 2);
    let first = AckPackage::new(&[5; 40], 40, 0, true, false, 1, 0);
    rx.step(AckEvent::Received(first));
    rx.step(AckEvent::Tick);
    let (acks, _) = split(rx.step(AckEvent::Tick));
    assert_eq!(acks[0].offset(), 0);
    assert!(acks[0].has_ack());
    // The same frame again is not taken twice but acknowledged again.
    let again = AckPackage::new(&[5; 40], 40, 0, true, false, 1, 0);
    rx.step(AckEvent::Received(again));
    let (_, w) = split(rx.step(AckEvent::Tick));
    assert!(matches!(w, AckAction::Tick));
    let (acks, _) = split(rx.step(AckEvent::Tick));
    assert_eq!(acks[0].offset(), 0);
    assert_eq!(rx.rx, vec![5; 40]);
}

#[test]
fn a_listening_side_listens_again_after_a_timeout() {
    let mut rx = AckStateMachine::new(40, 2);
    let actions = rx.step(AckEvent::ReceiveTimeout);
    assert!(matches!(actions[0], AckAction::Receive(TIME_OUT_MILLIS)));
}
