use drips::session::{step, Event, Phase};

#[test]
fn successful_transfer_walks_all_phases() {
    let p = Phase::Idle;
    let p = step(p, Event::PeerConnected);
    assert_eq!(p, Phase::Connected);
    let p = step(p, Event::MetadataDone);
    assert_eq!(p, Phase::MetadataExchanged);
    let p = step(p, Event::PayloadDone);
    assert_eq!(p, Phase::PayloadTransferred);
    let p = step(p, Event::ConnectionClosed);
    assert_eq!(p, Phase::Closed);
}

#[test]
fn io_error_is_fatal_from_every_live_phase() {
    for p in [
        Phase::Idle,
        Phase::Connected,
        Phase::MetadataExchanged,
        Phase::PayloadTransferred,
    ] {
        assert_eq!(step(p, Event::IoError), Phase::Failed);
    }
}

#[test]
fn terminal_phases_absorb_every_event() {
    let events = [
        Event::PeerConnected,
        Event::MetadataDone,
        Event::PayloadDone,
        Event::ConnectionClosed,
        Event::IoError,
    ];
    for e in events {
        assert_eq!(step(Phase::Closed, e), Phase::Closed);
        assert_eq!(step(Phase::Failed, e), Phase::Failed);
    }
}

#[test]
fn no_second_peer_after_first_transfer() {
    // Whether the first transfer completed or failed, a further incoming
    // connection is never accepted in the same invocation.
    assert_eq!(step(Phase::Closed, Event::PeerConnected), Phase::Closed);
    assert_eq!(step(Phase::Failed, Event::PeerConnected), Phase::Failed);
    // And from any live phase past Idle, a second connect is a failure,
    // never a fresh Connected transfer.
    for p in [
        Phase::Connected,
        Phase::MetadataExchanged,
        Phase::PayloadTransferred,
    ] {
        assert_eq!(step(p, Event::PeerConnected), Phase::Failed);
    }
}

#[test]
fn out_of_order_events_fail() {
    assert_eq!(step(Phase::Idle, Event::PayloadDone), Phase::Failed);
    assert_eq!(step(Phase::Connected, Event::PayloadDone), Phase::Failed);
    assert_eq!(step(Phase::MetadataExchanged, Event::MetadataDone), Phase::Failed);
}
