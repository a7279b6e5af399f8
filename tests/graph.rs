use miller_engine::context::{BufferLayout, Config, Context, Dispatcher};
use miller_engine::graph::{Error, Graph};
use miller_engine::message::{Message, MessageElement};
use miller_engine::object::{ConnectionPair, Object, ObjectPosition};

#[derive(Debug)]
struct TestDispatcher;

impl Dispatcher for TestDispatcher {
    type UserData = u64;

    fn print_std(_message: String, _data: &mut Self::UserData) {}

    fn print_err(_message: String, _data: &mut Self::UserData) {}

    fn switch_dsp(_state: bool, _data: &mut Self::UserData) {}

    fn receiver_message(_name: String, _message: Option<Message>, _data: &mut Self::UserData) {}

    fn cannot_find_obj(_name: String, _data: &mut Self::UserData) -> Option<String> {
        None
    }
}

fn init_test_context() -> Context<TestDispatcher, f32> {
    Context::<TestDispatcher, f32>::new(Config::default(), 0, BufferLayout::Planar, 0.0).unwrap()
}

fn pair(object: Object, index: usize) -> ConnectionPair {
    ConnectionPair { object, index }
}

#[test]
fn new_empty() {
    let mut context = init_test_context();
    let graph = Graph::new_empty(&mut context);
    assert!(!graph.is_attached());
    assert!(graph.objects().is_empty());
}

#[test]
fn add_object() {
    let mut context = init_test_context();
    let mut graph = Graph::new_empty(&mut context);
    graph.attach();

    let obj_str = "osc~ 440";
    let object = graph.add_object(obj_str, Some(ObjectPosition::new(10, 20)));

    assert_eq!(object.to_string(&graph).unwrap(), obj_str.to_string());
    assert_eq!(object.position(&graph).unwrap(), ObjectPosition::new(10, 20));
}

#[test]
fn objects() {
    let mut context = init_test_context();
    let mut graph = Graph::new_empty(&mut context);
    let osc = graph.add_object("osc~ 440", None);
    let dac = graph.add_object("dac~", None);
    let expected = vec![osc, dac];
    assert_eq!(graph.objects(), expected);
}

#[test]
fn dollar_zero() {
    let mut context = init_test_context();
    for n in 1..10 {
        let graph = Graph::new_empty(&mut context);
        assert_eq!(graph.dollar_zero(), n);
    }
}

#[test]
fn position() {
    let mut context = init_test_context();
    let mut graph = Graph::new_empty(&mut context);
    let object = graph.add_object("osc~", None);

    assert_eq!(object.position(&graph).unwrap(), ObjectPosition::new(0, 0));

    let expected = ObjectPosition::new(10, 20);
    let object = graph.add_object("osc~", Some(expected));

    assert_eq!(object.position(&graph).unwrap(), expected);

    let expected = ObjectPosition::new(20, 10);
    object.set_position(&mut graph, expected).unwrap();
    assert_eq!(object.position(&graph).unwrap(), expected);
}

#[test]
fn connections() {
    let mut context = init_test_context();
    let mut graph = Graph::new_empty(&mut context);
    let osc = graph.add_object("osc~", None);
    let dac = graph.add_object("dac~", None);
    graph.add_connection(pair(osc, 0), pair(dac, 0));
    graph.add_connection(pair(osc, 0), pair(dac, 1));

    assert_eq!(
        osc.connections_at_outlet(&graph, 0).unwrap(),
        vec![pair(dac, 0), pair(dac, 1)]
    );
    assert_eq!(dac.connections_at_inlet(&graph, 0).unwrap(), vec![pair(osc, 0)]);
    assert_eq!(dac.connections_at_inlet(&graph, 1).unwrap(), vec![pair(osc, 0)]);
}

#[test]
fn remove() {
    let mut context = init_test_context();
    let mut graph = Graph::new_empty(&mut context);
    let osc = graph.add_object("osc~", None);
    assert_eq!(graph.objects(), vec![osc]);
    assert!(osc.remove(&mut graph));
    assert_eq!(graph.objects(), vec![]);
}

#[test]
fn attach_and_detach_twice() {
    let mut context = init_test_context();
    let mut graph = Graph::new_empty(&mut context);
    assert!(graph.attach());
    assert!(!graph.attach());
    assert!(graph.is_attached());
    assert!(graph.detach());
    assert!(!graph.detach());
    assert!(!graph.is_attached());
}

#[test]
fn connection_added_then_removed() {
    let mut context = init_test_context();
    let mut graph = Graph::new_empty(&mut context);
    let receiver = graph.add_object("receive outer-receive", None);
    let sender = graph.add_object("send connection-test-r", None);
    graph.attach();
    assert!(graph.add_connection(pair(receiver, 0), pair(sender, 0)));
    assert!(!graph.add_connection(pair(receiver, 0), pair(sender, 0)));
    assert_eq!(
        receiver.connections_at_outlet(&graph, 0).unwrap(),
        vec![pair(sender, 0)]
    );
    assert!(graph.remove_connection(pair(receiver, 0), pair(sender, 0)));
    assert!(!graph.remove_connection(pair(receiver, 0), pair(sender, 0)));
    assert!(receiver.connections_at_outlet(&graph, 0).unwrap().is_empty());
    assert!(sender.connections_at_inlet(&graph, 0).unwrap().is_empty());
}

#[test]
fn connections_need_objects_of_the_graph() {
    let mut context = init_test_context();
    let mut g1 = Graph::new_empty(&mut context);
    let mut g2 = Graph::new_empty(&mut context);
    let a = g1.add_object("osc~", None);
    let b = g2.add_object("dac~", None);
    assert!(!g1.add_connection(pair(a, 0), pair(b, 0)));
    assert_eq!(b.position(&g1), Err(Error::NoSuchObject));
    assert!(a.connections_at_outlet(&g1, 0).unwrap().is_empty());
}

#[test]
fn removed_object_is_gone() {
    let mut context = init_test_context();
    let mut graph = Graph::new_empty(&mut context);
    let osc = graph.add_object("osc~", None);
    let dac = graph.add_object("dac~", None);
    graph.add_connection(pair(osc, 0), pair(dac, 0));
    let stale = osc;
    assert!(osc.remove(&mut graph));
    assert_eq!(stale.position(&graph), Err(Error::NoSuchObject));
    assert_eq!(stale.to_string(&graph), Err(Error::NoSuchObject));
    assert_eq!(
        stale.set_position(&mut graph, ObjectPosition::new(1, 1)),
        Err(Error::NoSuchObject)
    );
    assert_eq!(stale.connections_at_outlet(&graph, 0), Err(Error::NoSuchObject));
    let bang = Message::builder().with_element(MessageElement::Bang).build();
    assert_eq!(stale.send_message(&mut graph, 0, bang), Err(Error::NoSuchObject));
    assert!(!stale.remove(&mut graph));
    assert!(dac.connections_at_inlet(&graph, 0).unwrap().is_empty());
    let fresh = graph.add_object("osc~", None);
    assert_ne!(fresh, stale);
    assert_eq!(stale.position(&graph), Err(Error::NoSuchObject));
}

#[test]
fn messages_to_objects_are_queued() {
    let mut context = init_test_context();
    let mut graph = Graph::new_empty(&mut context);
    let sender = graph.add_object("send connection-test-r", None);
    let bang = Message::builder().with_element(MessageElement::Bang).build();
    assert_eq!(sender.send_message(&mut graph, 0, bang), Ok(()));
    let out = graph.take_deliveries();
    assert_eq!(out.len(), 1);
    assert_eq!(out[0].object, sender);
    assert_eq!(out[0].inlet, 0);
    assert!(graph.take_deliveries().is_empty());
}
