use videothumb::packets::{PacketAction, PacketEvent, PacketLoop};

const EAGAIN: i32 = -11;
const EOF: i32 = -541478725;

#[test]
fn a_video_packet_that_decodes_ends_the_loop() {
    let mut st = PacketLoop::start(10, EAGAIN);
    assert_eq!(st.pending, PacketAction::Read);
    assert_eq!(st.step(PacketEvent::Read { ok: true, video: false }), PacketAction::Read);
    assert_eq!(st.step(PacketEvent::Read { ok: true, video: true }), PacketAction::Send);
    assert_eq!(st.packets, 2);
    assert_eq!(st.step(PacketEvent::Sent(0)), PacketAction::Receive);
    assert_eq!(st.step(PacketEvent::Received(EAGAIN)), PacketAction::Read);
    assert_eq!(st.step(PacketEvent::Read { ok: true, video: true }), PacketAction::Send);
    assert_eq!(st.step(PacketEvent::Sent(0)), PacketAction::Receive);
    assert_eq!(st.step(PacketEvent::Received(0)), PacketAction::Done(true));
    // a finished loop stays finished
    assert_eq!(st.step(PacketEvent::Received(EOF)), PacketAction::Done(true));
}

#[test]
fn a_full_decoder_gives_a_frame_first() {
    let mut st = PacketLoop::start(10, EAGAIN);
    st.step(PacketEvent::Read { ok: true, video: true });
    assert_eq!(st.step(PacketEvent::Sent(EAGAIN)), PacketAction::ReceiveWhenFull);
    assert_eq!(st.step(PacketEvent::Received(EAGAIN)), PacketAction::SendAgain);
    // the packet is refused again: it is dropped
    assert_eq!(st.step(PacketEvent::Sent(EAGAIN)), PacketAction::Read);
    st.step(PacketEvent::Read { ok: true, video: true });
    assert_eq!(st.step(PacketEvent::Sent(EAGAIN)), PacketAction::ReceiveWhenFull);
    assert_eq!(st.step(PacketEvent::Received(0)), PacketAction::Done(true));
}

#[test]
fn the_packet_limit_and_the_end_of_file_drain() {
    let mut st = PacketLoop::start(2, EAGAIN);
    assert_eq!(st.step(PacketEvent::Read { ok: true, video: false }), PacketAction::Read);
    assert_eq!(st.step(PacketEvent::Read { ok: true, video: true }), PacketAction::Send);
    assert_eq!(st.step(PacketEvent::Sent(-22)), PacketAction::Drain);
    assert_eq!(st.step(PacketEvent::Received(EOF)), PacketAction::Done(false));

    let mut st = PacketLoop::start(100, EAGAIN);
    assert_eq!(st.step(PacketEvent::Read { ok: false, video: false }), PacketAction::Drain);
    assert_eq!(st.step(PacketEvent::Received(0)), PacketAction::Done(true));

    assert_eq!(PacketLoop::start(0, EAGAIN).pending, PacketAction::Drain);
}

#[test]
fn events_that_do_not_answer_change_nothing() {
    let mut st = PacketLoop::start(5, EAGAIN);
    assert_eq!(st.step(PacketEvent::Sent(0)), PacketAction::Read);
    assert_eq!(st.step(PacketEvent::Received(0)), PacketAction::Read);
    assert_eq!(st.packets, 0);
}
