use miller_engine::context::{
    decode_event, dispatch, handle_event, Config, Context, Dispatcher, Error, Event, EventKind, Payload,
    ReceiverMessage,
};
use miller_engine::context::{AudioLoopError, BufferLayout};
use miller_engine::message::{Decimal, Message, MessageElement};

#[derive(Debug)]
struct DummyDispatcher;

impl Dispatcher for DummyDispatcher {
    type UserData = u32;

    fn print_std(_message: String, _data: &mut Self::UserData) {}

    fn print_err(_message: String, _data: &mut Self::UserData) {}

    fn switch_dsp(_state: bool, _data: &mut Self::UserData) {}

    fn receiver_message(_name: String, _message: Option<Message>, _data: &mut Self::UserData) {}

    fn cannot_find_obj(_name: String, _data: &mut Self::UserData) -> Option<String> {
        None
    }
}

#[derive(Debug, Default)]
struct TestUserData(String);

#[derive(Debug)]
struct TestDispatcher;

impl Dispatcher for TestDispatcher {
    type UserData = TestUserData;

    fn print_std(message: String, data: &mut Self::UserData) {
        data.0 = message;
    }

    fn print_err(message: String, data: &mut Self::UserData) {
        TestDispatcher::print_std(message, data);
    }

    fn switch_dsp(state: bool, data: &mut Self::UserData) {
        if state {
            data.0 = String::from("true");
        }
    }

    fn receiver_message(name: String, msg: Option<Message>, data: &mut Self::UserData) {
        if let Some(message) = msg {
            let val = match message.element_at(0) {
                Some(MessageElement::Float(val)) => format!("{:?}", val),
                Some(MessageElement::Symbol(val)) => val.to_owned(),
                _ => "bang".to_string(),
            };
            data.0 = format!("{}.{}", name, val);
        } else {
            data.0 = name;
        }
    }

    fn cannot_find_obj(name: String, data: &mut Self::UserData) -> Option<String> {
        data.0 = name;
        Some(data.0.clone())
    }
}

fn run(kind: EventKind, payload: Payload, data: &mut TestUserData) -> Option<String> {
    let event = decode_event(kind, payload).unwrap();
    dispatch::<TestDispatcher>(event, data)
}

#[test]
fn handle_event_runs_the_matching_handler() {
    let mut data = TestUserData(String::new());
    assert_eq!(
        handle_event::<TestDispatcher>(EventKind::PrintStd, Payload::Text("foo".to_string()), &mut data),
        None
    );
    assert_eq!(data.0, "foo");
    assert_eq!(
        handle_event::<TestDispatcher>(EventKind::SwitchDsp, Payload::Text("x".to_string()), &mut data),
        None
    );
    assert_eq!(data.0, "foo");
    assert_eq!(
        handle_event::<TestDispatcher>(
            EventKind::CannotFindObject,
            Payload::Text("obj".to_string()),
            &mut data
        ),
        Some("obj".to_string())
    );
    assert_eq!(data.0, "obj");
}

#[test]
fn wrong_frame_size_at_block_boundary() {
    let config = Config::default().with_block_size(1);
    let mut context =
        Context::<DummyDispatcher, i16>::new(config, 0, BufferLayout::Interleaved, 0).unwrap();
    context.next_frame(&[1, 2]).unwrap();
    assert!(context.block_pending());
    assert_eq!(context.next_frame(&[1]).err(), Some(AudioLoopError::WrongInFrameSize));
    assert!(context.block_pending());
    assert_eq!(context.input_block(), &[1, 2]);
}

#[test]
fn config_defaults() {
    let config = Config::default();

    assert_eq!(config.input_ch_num, 2);
    assert_eq!(config.output_ch_num, 2);
    assert_eq!(config.sample_rate, 44100);
    assert_eq!(config.blocksize, 64);
}

#[test]
fn config_builders() {
    let config = Config::default()
        .with_in_ch_num(1)
        .with_out_ch_num(4)
        .with_block_size(32)
        .with_sample_rate(48000);
    assert_eq!(config.input_ch_num, 1);
    assert_eq!(config.output_ch_num, 4);
    assert_eq!(config.blocksize, 32);
    assert_eq!(config.sample_rate, 48000);
}

#[test]
fn context_user_data() {
    let expected = 42;
    let mut context =
        Context::<DummyDispatcher, f32>::new(Config::default(), expected, BufferLayout::Planar, 0.0)
            .unwrap();
    assert_eq!(expected, *context.user_data());

    let data = context.user_data_mut();
    *data = 27;

    assert_eq!(27, *context.user_data());
}

#[test]
fn context_refuses_zero_sizes() {
    for config in [
        Config::default().with_in_ch_num(0),
        Config::default().with_out_ch_num(0),
        Config::default().with_block_size(0),
        Config::default().with_sample_rate(0),
    ] {
        let r = Context::<DummyDispatcher, i16>::new(config, 0, BufferLayout::Interleaved, 0);
        assert_eq!(r.err(), Some(Error::Initializing));
    }
    assert_eq!(Error::Initializing.message(), "Can't initalize context");
}

#[test]
fn dispatcher() {
    let mut data = TestUserData(String::new());

    assert!(run(EventKind::PrintStd, Payload::Text("foo".to_string()), &mut data).is_none());
    assert_eq!("foo", data.0);

    assert!(run(EventKind::PrintErr, Payload::Text("bar".to_string()), &mut data).is_none());
    assert_eq!("bar", data.0);

    assert!(run(EventKind::SwitchDsp, Payload::Integer(1), &mut data).is_none());
    assert_eq!("true", data.0);

    let expected = String::from("receiver_name");
    let msg = ReceiverMessage::new(expected.clone(), None);
    assert!(run(EventKind::ReceiverMessage, Payload::Receiver(msg), &mut data).is_none());
    assert_eq!(expected, data.0);

    let expected = String::from("object_name");
    let result = run(EventKind::CannotFindObject, Payload::Text(expected.clone()), &mut data);
    assert_eq!(result, Some(expected.clone()));
    assert_eq!(expected, data.0);
}

#[test]
fn switch_dsp_reads_positive_as_on() {
    assert!(matches!(
        decode_event(EventKind::SwitchDsp, Payload::Integer(0)),
        Some(Event::SwitchDsp(false))
    ));
    assert!(matches!(
        decode_event(EventKind::SwitchDsp, Payload::Integer(-3)),
        Some(Event::SwitchDsp(false))
    ));
    assert!(matches!(
        decode_event(EventKind::SwitchDsp, Payload::Integer(7)),
        Some(Event::SwitchDsp(true))
    ));
}

#[test]
fn mismatched_payload_decodes_to_nothing() {
    assert!(decode_event(EventKind::PrintStd, Payload::Integer(1)).is_none());
    assert!(decode_event(EventKind::SwitchDsp, Payload::Text("1".to_string())).is_none());
    let msg = ReceiverMessage::new("r".to_string(), None);
    assert!(decode_event(EventKind::CannotFindObject, Payload::Receiver(msg)).is_none());
}

#[test]
fn missing_handlers_do_nothing() {
    let mut data: u32 = 5;
    let event = decode_event(EventKind::CannotFindObject, Payload::Text("x".to_string())).unwrap();
    assert_eq!(dispatch::<DummyDispatcher>(event, &mut data), None);
    let event = decode_event(EventKind::PrintStd, Payload::Text("x".to_string())).unwrap();
    assert_eq!(dispatch::<DummyDispatcher>(event, &mut data), None);
    assert_eq!(data, 5);
}

#[test]
fn receiver_message_reaches_handler_once() {
    let mut data = TestUserData(String::new());
    let message = Message::builder()
        .with_element(MessageElement::Symbol("baz".to_string()))
        .build();
    let msg = ReceiverMessage::new("R".to_string(), Some(message));
    assert_eq!(msg.receiver_name(), "R");
    assert_eq!(msg.message().unwrap().num_elements(), 1);
    run(EventKind::ReceiverMessage, Payload::Receiver(msg), &mut data);
    assert_eq!(data.0, "R.baz");
}

#[test]
fn receivers_register_once() {
    let mut context =
        Context::<DummyDispatcher, i16>::new(Config::default(), 0, BufferLayout::Interleaved, 0)
            .unwrap();
    assert!(!context.is_registered("R"));
    assert!(context.register_receiver("R"));
    assert!(!context.register_receiver("R"));
    assert!(context.is_registered("R"));
    assert!(context.register_receiver("S"));
    assert!(context.unregister_receiver("R"));
    assert!(!context.unregister_receiver("R"));
    assert!(!context.is_registered("R"));
    assert!(context.is_registered("S"));
}

#[test]
fn sent_messages_keep_their_order() {
    let mut context =
        Context::<DummyDispatcher, i16>::new(Config::default(), 0, BufferLayout::Interleaved, 0)
            .unwrap();
    context.send_message("a", Message::builder().with_element(MessageElement::Bang).build());
    context.send_message(
        "b",
        Message::builder()
            .with_element(MessageElement::Float(Decimal::new(3, 0)))
            .build(),
    );
    let out = context.take_outgoing();
    assert_eq!(out.len(), 2);
    assert_eq!(out[0].receiver, "a");
    assert_eq!(out[1].receiver, "b");
    assert_eq!(out[1].message.to_string(), "3");
    assert!(context.take_outgoing().is_empty());
}

#[test]
fn context_next_frame_i16_with_one_block_latency() {
    let config = Config::default().with_block_size(4);
    let mut context =
        Context::<DummyDispatcher, i16>::new(config, 0, BufferLayout::Interleaved, 0).unwrap();
    let blocksize = 4usize;
    let input: Vec<i16> = (0..(blocksize * 2 * 2) as i16).collect();
    let expected: Vec<i16> = input
        .iter()
        .enumerate()
        .map(|(n, val)| val * [2_i16, 3][n % 2])
        .collect();
    let mut result: Vec<i16> = Vec::new();
    for frame in input.chunks(2) {
        if context.block_pending() {
            let block: Vec<i16> = context
                .input_block()
                .iter()
                .enumerate()
                .map(|(n, v)| v * [2_i16, 3][n % 2])
                .collect();
            context.complete_block(&block);
        }
        result.extend_from_slice(context.next_frame(frame).unwrap());
    }
    let actual_blocksize = blocksize * 2;
    assert_eq!(result[..actual_blocksize], vec![0; actual_blocksize][..]);
    assert_eq!(expected[..actual_blocksize], result[actual_blocksize..]);
}

#[test]
fn context_wrong_frame_size() {
    let mut context =
        Context::<DummyDispatcher, f32>::new(Config::default(), 0, BufferLayout::Planar, 0.0)
            .unwrap();
    assert_eq!(
        context.next_frame(&[1.0]).err(),
        Some(AudioLoopError::WrongInFrameSize)
    );
    assert_eq!(context.next_frame(&[1.0, 2.0]).unwrap(), &[0.0, 0.0]);
}
