//! Graphs: the objects of one dataflow graph and the connections between them, as this library
//! keeps them beside the engine.
//!
//! A graph is made off the audio path, filled, and then attached to its context at once, so that
//! the engine reorders its processing only once. The structural operations keep the rules that
//! the engine's own calls leave loose: attaching twice, detaching twice, adding a connection that
//! is there or between objects that are not, and removing a connection that is not there change
//! nothing and are no error; a removed object is gone for good, and every later use of its handle
//! fails.
use vstd::prelude::*;

use crate::context::{Context, Dispatcher};
use crate::message::Message;

verus! {

/// A position on the canvas.
#[derive(Clone, Copy, Debug, PartialEq, Eq, Structural)]
pub struct ObjectPosition {
    /// X position.
    pub x: i32,
    /// Y position.
    pub y: i32,
}

impl ObjectPosition {
    /// The position (`x`, `y`).
    pub fn new(x: i32, y: i32) -> (r: ObjectPosition)
        ensures
            r == (ObjectPosition { x, y }),
    {
        ObjectPosition { x, y }
    }
}

/// The handle of an object: the token of its graph and its number in that graph. Numbers are
/// never given out twice, so the handle of a removed object never names another one.
#[derive(Clone, Copy, Debug, PartialEq, Eq, Structural)]
pub struct Object {
    graph: usize,
    id: u64,
}

impl Object {
    /// The token of the graph that the object was made in.
    pub closed spec fn spec_graph(self) -> nat {
        self.graph as nat
    }

    /// The number of the object in its graph.
    pub closed spec fn spec_id(self) -> nat {
        self.id as nat
    }

    /// The handle of object `id` of the graph with token `graph`.
    pub closed spec fn handle(graph: nat, id: nat) -> Object {
        Object { graph: graph as usize, id: id as u64 }
    }
}

/// One end of a connection: an object and the index of one of its outlets or inlets.
#[derive(Clone, Copy, Debug, PartialEq, Eq, Structural)]
pub struct ConnectionPair {
    /// The object.
    pub object: Object,
    /// The index of the outlet or inlet.
    pub index: usize,
}

/// A connection, from an outlet to an inlet.
#[derive(Clone, Copy, Debug, PartialEq, Eq, Structural)]
pub struct Connection {
    /// The object and outlet that the connection leaves.
    pub from: ConnectionPair,
    /// The object and inlet that the connection enters.
    pub to: ConnectionPair,
}

/// An object of a graph, as mathematics.
pub struct ObjectRecord {
    pub id: nat,
    pub description: Seq<char>,
    pub position: ObjectPosition,
}

/// A message for an inlet of an object, sent straight to it.
#[derive(Debug)]
pub struct Delivery {
    /// The object.
    pub object: Object,
    /// The inlet.
    pub inlet: usize,
    /// The message.
    pub message: Message,
}

/// A graph as mathematics.
pub struct GraphView {
    pub dollar_zero: nat,
    pub attached: bool,
    pub next_id: nat,
    pub objects: Seq<ObjectRecord>,
    pub connections: Seq<Connection>,
    pub deliveries: Seq<(Object, nat, Message)>,
}

impl GraphView {
    /// Whether `object` is an object of this graph that has not been removed.
    pub open spec fn has_object(self, object: Object) -> bool {
        &&& object.spec_graph() == self.dollar_zero
        &&& exists|i: int|
            0 <= i < self.objects.len() && (#[trigger] self.objects[i]).id == object.spec_id()
    }

    /// The record of the live object `object`.
    pub open spec fn record(self, object: Object) -> ObjectRecord
        recommends
            self.has_object(object),
    {
        let i = choose|i: int|
            0 <= i < self.objects.len() && (#[trigger] self.objects[i]).id == object.spec_id();
        self.objects[i]
    }

    /// The handles of the objects, in the order they were added.
    pub open spec fn handles(self) -> Seq<Object> {
        self.objects.map_values(|r: ObjectRecord| Object::handle(self.dollar_zero, r.id))
    }

    /// The graph after an object described by `description` was added at `position`.
    pub open spec fn after_add(self, description: Seq<char>, position: ObjectPosition) -> GraphView {
        GraphView {
            next_id: self.next_id + 1,
            objects: self.objects.push(
                ObjectRecord { id: self.next_id, description, position },
            ),
            ..self
        }
    }

    pub open spec fn well_formed(self) -> bool {
        &&& self.dollar_zero <= usize::MAX
        &&& self.next_id <= u64::MAX
        &&& forall|i: int| 0 <= i < self.objects.len() ==> (#[trigger] self.objects[i]).id < self.next_id
        &&& forall|i: int, j: int|
            0 <= i < self.objects.len() && 0 <= j < self.objects.len() && i != j ==> (#[trigger] self.objects[i]).id
                != (#[trigger] self.objects[j]).id
        &&& forall|i: int, j: int|
            0 <= i < self.connections.len() && 0 <= j < self.connections.len() && i != j
                ==> #[trigger] self.connections[i] != #[trigger] self.connections[j]
    }
}

/// Whether `c` touches `object` at either end.
pub open spec fn touches(c: Connection, object: Object) -> bool {
    c.from.object == object || c.to.object == object
}

/// The connections that enter `object` at `inlet`, in order: where each one comes from.
pub open spec fn incoming(connections: Seq<Connection>, object: Object, inlet: nat) -> Seq<ConnectionPair> {
    connections.filter(|c: Connection| c.to.object == object && c.to.index == inlet).map_values(
        |c: Connection| c.from,
    )
}

/// The connections that leave `object` at `outlet`, in order: where each one goes.
pub open spec fn outgoing(connections: Seq<Connection>, object: Object, outlet: nat) -> Seq<ConnectionPair> {
    connections.filter(|c: Connection| c.from.object == object && c.from.index == outlet).map_values(
        |c: Connection| c.to,
    )
}

struct ObjectEntry {
    id: u64,
    description: String,
    position: ObjectPosition,
}

/// One dataflow graph of a context.
pub struct Graph {
    dollar_zero: usize,
    attached: bool,
    next_id: u64,
    objects: Vec<ObjectEntry>,
    connections: Vec<Connection>,
    deliveries: Vec<Delivery>,
}

impl View for Graph {
    type V = GraphView;

    closed spec fn view(&self) -> GraphView {
        GraphView {
            dollar_zero: self.dollar_zero as nat,
            attached: self.attached,
            next_id: self.next_id as nat,
            objects: self.objects@.map_values(
                |e: ObjectEntry|
                    ObjectRecord { id: e.id as nat, description: e.description@, position: e.position },
            ),
            connections: self.connections@,
            deliveries: self.deliveries@.map_values(
                |d: Delivery| (d.object, d.inlet as nat, d.message),
            ),
        }
    }
}

proof fn lemma_handle_view(g: nat, id: nat)
    requires
        g <= usize::MAX,
        id <= u64::MAX,
    ensures
        Object::handle(g, id).spec_graph() == g,
        Object::handle(g, id).spec_id() == id,
{
}

impl Graph {
    /// A new graph of `context`, empty and not attached, with the context's next token.
    pub fn new_empty<D: Dispatcher, T: Copy>(context: &mut Context<D, T>) -> (r: Graph)
        requires
            old(context).spec_next_dollar_zero() < usize::MAX,
        ensures
            r@.well_formed(),
            r@.dollar_zero == old(context).spec_next_dollar_zero(),
            !r@.attached,
            r@.next_id == 0,
            r@.objects == Seq::<ObjectRecord>::empty(),
            r@.connections == Seq::<Connection>::empty(),
            r@.deliveries == Seq::<(Object, nat, Message)>::empty(),
            final(context).spec_next_dollar_zero() == old(context).spec_next_dollar_zero() + 1,
            final(context).wf() == old(context).wf(),
            final(context).spec_config() == old(context).spec_config(),
            final(context).spec_loop() == old(context).spec_loop(),
            final(context).spec_user_data() == old(context).spec_user_data(),
            final(context).spec_receivers() == old(context).spec_receivers(),
            final(context).spec_outbox() == old(context).spec_outbox(),
    {
        let dollar_zero = context.issue_dollar_zero();
        let g = Graph {
            dollar_zero,
            attached: false,
            next_id: 0,
            objects: Vec::new(),
            connections: Vec::new(),
            deliveries: Vec::new(),
        };
        assert(g@.objects =~= Seq::<ObjectRecord>::empty());
        assert(g@.deliveries =~= Seq::<(Object, nat, Message)>::empty());
        g
    }

    /// The token that scopes this graph's receivers and senders to it (`$0`).
    pub fn dollar_zero(&self) -> (r: usize)
        ensures
            r == self@.dollar_zero,
    {
        self.dollar_zero
    }

    /// Whether the graph takes part in its context's processing.
    pub fn is_attached(&self) -> (r: bool)
        ensures
            r == self@.attached,
    {
        self.attached
    }

    /// Attaches the graph to its context. Attaching an attached graph changes nothing; the
    /// result says whether the graph was detached, and so whether the engine must be told.
    pub fn attach(&mut self) -> (r: bool)
        ensures
            r == !old(self)@.attached,
            final(self)@ == (GraphView { attached: true, ..old(self)@ }),
    {
        let r = !self.attached;
        self.attached = true;
        r
    }

    /// Detaches the graph from its context, leaving it inert. Detaching a detached graph changes
    /// nothing; the result says whether the graph was attached, and so whether the engine must be
    /// told.
    pub fn detach(&mut self) -> (r: bool)
        ensures
            r == old(self)@.attached,
            final(self)@ == (GraphView { attached: false, ..old(self)@ }),
    {
        let r = self.attached;
        self.attached = false;
        r
    }

    /// Adds the object that `object` describes (such as `"osc~ 440"`) at `position`, or at the
    /// origin when there is none, and returns its handle.
    pub fn add_object(&mut self, object: &str, position: Option<ObjectPosition>) -> (r: Object)
        requires
            old(self)@.well_formed(),
            old(self)@.next_id < u64::MAX,
        ensures
            final(self)@.well_formed(),
            r == Object::handle(old(self)@.dollar_zero, old(self)@.next_id),
            final(self)@.has_object(r),
            forall|o: Object| #[trigger] old(self)@.has_object(o) ==> final(self)@.has_object(o),
            final(self)@ == old(self)@.after_add(
                object@,
                match position {
                    Some(p) => p,
                    None => ObjectPosition { x: 0, y: 0 },
                },
            ),
    {
        let position = match position {
            Some(p) => p,
            None => ObjectPosition { x: 0, y: 0 },
        };
        let id = self.next_id;
        let ghost before = self@;
        self.objects.push(ObjectEntry { id, description: object.to_owned(), position });
        self.next_id = id + 1;
        let ghost rec = ObjectRecord { id: id as nat, description: object@, position };
        assert(self@.objects =~= before.objects.push(rec));
        assert(self@.objects[before.objects.len() as int].id == id);
        assert forall|a: int| 0 <= a < self@.objects.len() implies (#[trigger] self@.objects[a]).id
            < self@.next_id by {
            if a < before.objects.len() {
                assert(self@.objects[a] == before.objects[a]);
            }
        }
        assert forall|a: int, b: int|
            0 <= a < self@.objects.len() && 0 <= b < self@.objects.len() && a != b
                implies (#[trigger] self@.objects[a]).id != (#[trigger] self@.objects[b]).id by {
            if a < before.objects.len() {
                assert(self@.objects[a] == before.objects[a]);
            }
            if b < before.objects.len() {
                assert(self@.objects[b] == before.objects[b]);
            }
        }
        assert(self@.connections == before.connections);
        assert(self@.dollar_zero == before.dollar_zero);
        assert forall|o: Object| #[trigger] before.has_object(o) implies self@.has_object(o) by {
            let k = choose|k: int| 0 <= k < before.objects.len() && (#[trigger] before.objects[k]).id == o.spec_id();
            assert(self@.objects[k] == before.objects[k]);
        }
        assert(self@.well_formed());
        let r = Object { graph: self.dollar_zero, id };
        r
    }

    /// The handles of the objects, in the order they were added.
    pub fn objects(&self) -> (r: Vec<Object>)
        ensures
            r@ == self@.handles(),
    {
        let mut r: Vec<Object> = Vec::new();
        let mut i: usize = 0;
        while i < self.objects.len()
            invariant
                i <= self.objects@.len(),
                r@ == self@.handles().take(i as int),
            decreases self.objects@.len() - i,
        {
            r.push(Object { graph: self.dollar_zero, id: self.objects[i].id });
            i = i + 1;
            assert(r@ =~= self@.handles().take(i as int));
        }
        assert(r@ =~= self@.handles());
        r
    }

    fn find_object(&self, object: Object) -> (r: Option<usize>)
        requires
            self@.well_formed(),
        ensures
            r is Some <==> self@.has_object(object),
            r is Some ==> r->Some_0 < self@.objects.len() && self@.objects[r->Some_0 as int].id
                == object.spec_id() && self@.record(object) == self@.objects[r->Some_0 as int],
    {
        if object.graph != self.dollar_zero {
            return None;
        }
        let mut i: usize = 0;
        while i < self.objects.len()
            invariant
                i <= self@.objects.len(),
                self@.well_formed(),
                object.spec_graph() == self@.dollar_zero,
                forall|k: int| 0 <= k < i ==> (#[trigger] self@.objects[k]).id != object.spec_id(),
            decreases self@.objects.len() - i,
        {
            if self.objects[i].id == object.id {
                assert(self@.objects[i as int].id == object.spec_id());
                let ghost j = choose|j: int|
                    0 <= j < self@.objects.len() && (#[trigger] self@.objects[j]).id == object.spec_id();
                assert(j == i as int);
                return Some(i);
            }
            i = i + 1;
        }
        None
    }

    fn find_connection(&self, c: Connection) -> (r: Option<usize>)
        ensures
            r is Some ==> r->Some_0 < self@.connections.len() && self@.connections[r->Some_0 as int] == c,
            r is None <==> !self@.connections.contains(c),
    {
        let mut i: usize = 0;
        while i < self.connections.len()
            invariant
                i <= self@.connections.len(),
                forall|k: int| 0 <= k < i ==> self@.connections[k] != c,
            decreases self@.connections.len() - i,
        {
            if self.connections[i] == c {
                return Some(i);
            }
            i = i + 1;
        }
        None
    }

    /// Connects outlet `from.index` of `from.object` to inlet `to.index` of `to.object`. Nothing
    /// changes when either object is not in the graph or the connection is already there; the
    /// result says whether it was added.
    pub fn add_connection(&mut self, from: ConnectionPair, to: ConnectionPair) -> (r: bool)
        requires
            old(self)@.well_formed(),
        ensures
            final(self)@.well_formed(),
            r == (old(self)@.has_object(from.object) && old(self)@.has_object(to.object)
                && !old(self)@.connections.contains(Connection { from, to })),
            final(self)@.connections.contains(Connection { from, to }) == (r || old(
                self,
            )@.connections.contains(Connection { from, to })),
            final(self)@ == (GraphView {
                connections: if r {
                    old(self)@.connections.push(Connection { from, to })
                } else {
                    old(self)@.connections
                },
                ..old(self)@
            }),
    {
        let c = Connection { from, to };
        if self.find_object(from.object).is_none() || self.find_object(to.object).is_none() {
            return false;
        }
        if self.find_connection(c).is_some() {
            return false;
        }
        let ghost before = self@;
        self.connections.push(c);
        assert(self@.connections[before.connections.len() as int] == c);
        assert forall|i: int, j: int|
            0 <= i < self@.connections.len() && 0 <= j < self@.connections.len() && i != j
                implies #[trigger] self@.connections[i] != #[trigger] self@.connections[j] by {
            if i < before.connections.len() && j < before.connections.len() {
            } else if i < before.connections.len() {
                assert(before.connections.contains(self@.connections[i]));
            } else {
                assert(before.connections.contains(self@.connections[j]));
            }
        }
        true
    }

    /// Removes the connection from outlet `from.index` of `from.object` to inlet `to.index` of
    /// `to.object`. Nothing changes when there is no such connection; the result says whether
    /// there was.
    pub fn remove_connection(&mut self, from: ConnectionPair, to: ConnectionPair) -> (r: bool)
        requires
            old(self)@.well_formed(),
        ensures
            final(self)@.well_formed(),
            r == old(self)@.connections.contains(Connection { from, to }),
            !final(self)@.connections.contains(Connection { from, to }),
            r ==> exists|k: int|
                0 <= k < old(self)@.connections.len() && old(self)@.connections[k] == (Connection {
                    from,
                    to,
                }) && final(self)@ == (GraphView {
                    connections: old(self)@.connections.remove(k),
                    ..old(self)@
                }),
            !r ==> final(self)@ == old(self)@,
    {
        let c = Connection { from, to };
        match self.find_connection(c) {
            None => false,
            Some(k) => {
                let ghost before = self@;
                let _gone = self.connections.remove(k);
                assert(self@ == (GraphView { connections: before.connections.remove(k as int), ..before }));
                assert forall|i: int, j: int|
                    0 <= i < self@.connections.len() && 0 <= j < self@.connections.len() && i != j
                        implies #[trigger] self@.connections[i] != #[trigger] self@.connections[j] by {
                    let oi = if i < k { i } else { i + 1 };
                    let oj = if j < k { j } else { j + 1 };
                    assert(self@.connections[i] == before.connections[oi]);
                    assert(self@.connections[j] == before.connections[oj]);
                }
                assert(!self@.connections.contains(c)) by {
                    if self@.connections.contains(c) {
                        let i = choose|i: int| 0 <= i < self@.connections.len() && self@.connections[i] == c;
                        let oi = if i < k { i } else { i + 1 };
                        assert(self@.connections[i] == before.connections[oi]);
                    }
                }
                true
            },
        }
    }

    /// Hands over the messages sent straight to objects, oldest first, and empties the queue.
    pub fn take_deliveries(&mut self) -> (r: Vec<Delivery>)
        ensures
            r@.map_values(|d: Delivery| (d.object, d.inlet as nat, d.message))
                == old(self)@.deliveries,
            final(self)@ == (GraphView { deliveries: Seq::empty(), ..old(self)@ }),
    {
        let mut r: Vec<Delivery> = Vec::new();
        std::mem::swap(&mut self.deliveries, &mut r);
        assert(self@.deliveries =~= Seq::<(Object, nat, Message)>::empty());
        r
    }
}

/// The error of using an object handle.
#[derive(Clone, Copy, Debug, PartialEq, Eq, Structural)]
pub enum Error {
    /// The object is not in the graph: it was removed, or belongs to another graph.
    NoSuchObject,
}

impl Object {
    /// The object's position on the canvas, if it is in `graph`.
    pub fn position(&self, graph: &Graph) -> (r: Result<ObjectPosition, Error>)
        requires
            graph@.well_formed(),
        ensures
            r is Ok <==> graph@.has_object(*self),
            r is Ok ==> r->Ok_0 == graph@.record(*self).position,
            r is Err ==> r->Err_0 == Error::NoSuchObject,
    {
        match graph.find_object(*self) {
            Some(i) => Ok(graph.objects[i].position),
            None => Err(Error::NoSuchObject),
        }
    }

    /// The text that describes the object, if it is in `graph`.
    pub fn to_string(&self, graph: &Graph) -> (r: Result<String, Error>)
        requires
            graph@.well_formed(),
        ensures
            r is Ok <==> graph@.has_object(*self),
            r is Ok ==> r->Ok_0@ == graph@.record(*self).description,
            r is Err ==> r->Err_0 == Error::NoSuchObject,
    {
        match graph.find_object(*self) {
            Some(i) => Ok(graph.objects[i].description.clone()),
            None => Err(Error::NoSuchObject),
        }
    }

    /// Moves the object to `position`, if it is in `graph`.
    pub fn set_position(&self, graph: &mut Graph, position: ObjectPosition) -> (r: Result<(), Error>)
        requires
            old(graph)@.well_formed(),
        ensures
            final(graph)@.well_formed(),
            r is Ok <==> old(graph)@.has_object(*self),
            r is Err ==> r->Err_0 == Error::NoSuchObject && final(graph)@ == old(graph)@,
            r is Ok ==> exists|k: int|
                0 <= k < old(graph)@.objects.len() && old(graph)@.objects[k].id == self.spec_id()
                    && final(graph)@ == (GraphView {
                    objects: old(graph)@.objects.update(
                        k,
                        ObjectRecord { position, ..old(graph)@.objects[k] },
                    ),
                    ..old(graph)@
                }),
    {
        match graph.find_object(*self) {
            Some(i) => {
                let ghost before = graph@;
                graph.objects[i].position = position;
                assert(graph@.objects =~= before.objects.update(
                    i as int,
                    ObjectRecord { position, ..before.objects[i as int] },
                ));
                assert forall|a: int, b: int|
                    0 <= a < graph@.objects.len() && 0 <= b < graph@.objects.len() && a != b
                        implies (#[trigger] graph@.objects[a]).id != (#[trigger] graph@.objects[b]).id by {
                    assert(graph@.objects[a].id == before.objects[a].id);
                    assert(graph@.objects[b].id == before.objects[b].id);
                }
                assert forall|a: int| 0 <= a < graph@.objects.len() implies (#[trigger] graph@.objects[a]).id
                    < graph@.next_id by {
                    assert(graph@.objects[a].id == before.objects[a].id);
                }
                assert(graph@.connections == before.connections);
                assert(graph@.next_id == before.next_id);
                assert(graph@.dollar_zero == before.dollar_zero);
                assert(graph@.well_formed());
                Ok(())
            },
            None => Err(Error::NoSuchObject),
        }
    }

    /// Where the connections that enter the object at `inlet` come from, in the order they were
    /// made, if the object is in `graph`.
    pub fn connections_at_inlet(&self, graph: &Graph, inlet: usize) -> (r: Result<
        Vec<ConnectionPair>,
        Error,
    >)
        requires
            graph@.well_formed(),
        ensures
            r is Ok <==> graph@.has_object(*self),
            r is Ok ==> r->Ok_0@ == incoming(graph@.connections, *self, inlet as nat),
            r is Err ==> r->Err_0 == Error::NoSuchObject,
    {
        if graph.find_object(*self).is_none() {
            return Err(Error::NoSuchObject);
        }
        let ghost pred = |c: Connection| c.to.object == *self && c.to.index == inlet as nat;
        let mut r: Vec<ConnectionPair> = Vec::new();
        let mut i: usize = 0;
        while i < graph.connections.len()
            invariant
                i <= graph@.connections.len(),
                pred == (|c: Connection| c.to.object == *self && c.to.index == inlet as nat),
                r@ == graph@.connections.take(i as int).filter(pred).map_values(
                    |c: Connection| c.from,
                ),
            decreases graph@.connections.len() - i,
        {
            let c = graph.connections[i];
            let ghost prev = graph@.connections.take(i as int);
            assert(graph@.connections.take(i + 1).drop_last() =~= prev);
            reveal(Seq::filter);
            if c.to.object == *self && c.to.index == inlet {
                r.push(c.from);
            }
            i = i + 1;
            assert(r@ =~= graph@.connections.take(i as int).filter(pred).map_values(
                |c: Connection| c.from,
            ));
        }
        assert(graph@.connections.take(i as int) =~= graph@.connections);
        Ok(r)
    }

    /// Where the connections that leave the object at `outlet` go, in the order they were made,
    /// if the object is in `graph`.
    pub fn connections_at_outlet(&self, graph: &Graph, outlet: usize) -> (r: Result<
        Vec<ConnectionPair>,
        Error,
    >)
        requires
            graph@.well_formed(),
        ensures
            r is Ok <==> graph@.has_object(*self),
            r is Ok ==> r->Ok_0@ == outgoing(graph@.connections, *self, outlet as nat),
            r is Err ==> r->Err_0 == Error::NoSuchObject,
    {
        if graph.find_object(*self).is_none() {
            return Err(Error::NoSuchObject);
        }
        let ghost pred = |c: Connection| c.from.object == *self && c.from.index == outlet as nat;
        let mut r: Vec<ConnectionPair> = Vec::new();
        let mut i: usize = 0;
        while i < graph.connections.len()
            invariant
                i <= graph@.connections.len(),
                pred == (|c: Connection| c.from.object == *self && c.from.index == outlet as nat),
                r@ == graph@.connections.take(i as int).filter(pred).map_values(
                    |c: Connection| c.to,
                ),
            decreases graph@.connections.len() - i,
        {
            let c = graph.connections[i];
            let ghost prev = graph@.connections.take(i as int);
            assert(graph@.connections.take(i + 1).drop_last() =~= prev);
            reveal(Seq::filter);
            if c.from.object == *self && c.from.index == outlet {
                r.push(c.to);
            }
            i = i + 1;
            assert(r@ =~= graph@.connections.take(i as int).filter(pred).map_values(
                |c: Connection| c.to,
            ));
        }
        assert(graph@.connections.take(i as int) =~= graph@.connections);
        Ok(r)
    }

    /// Sends `message` straight to inlet `inlet` of the object, if it is in `graph`. The engine
    /// takes it at the start of its next block, before any other message, whatever its
    /// timestamp.
    pub fn send_message(&self, graph: &mut Graph, inlet: usize, message: Message) -> (r: Result<(), Error>)
        requires
            old(graph)@.well_formed(),
        ensures
            final(graph)@.well_formed(),
            r is Ok <==> old(graph)@.has_object(*self),
            r is Err ==> r->Err_0 == Error::NoSuchObject && final(graph)@ == old(graph)@,
            r is Ok ==> final(graph)@ == (GraphView {
                deliveries: old(graph)@.deliveries.push((*self, inlet as nat, message)),
                ..old(graph)@
            }),
    {
        match graph.find_object(*self) {
            Some(_) => {
                let ghost before = graph@;
                let ghost m = message;
                graph.deliveries.push(Delivery { object: *self, inlet, message });
                assert(graph@.deliveries =~= before.deliveries.push((*self, inlet as nat, m)));
                Ok(())
            },
            None => Err(Error::NoSuchObject),
        }
    }

    /// Removes the object from `graph`, with every connection that enters or leaves it. The
    /// handle is used up: no later call can reach the object. The result says whether the
    /// object was in the graph.
    pub fn remove(self, graph: &mut Graph) -> (r: bool)
        requires
            old(graph)@.well_formed(),
        ensures
            final(graph)@.well_formed(),
            r == old(graph)@.has_object(self),
            !final(graph)@.has_object(self),
            !r ==> final(graph)@ == old(graph)@,
            r ==> exists|k: int|
                0 <= k < old(graph)@.objects.len() && old(graph)@.objects[k].id == self.spec_id()
                    && final(graph)@ == (GraphView {
                    objects: old(graph)@.objects.remove(k),
                    connections: old(graph)@.connections.filter(|c: Connection| !touches(c, self)),
                    ..old(graph)@
                }),
    {
        match graph.find_object(self) {
            None => false,
            Some(k) => {
                let ghost before = graph@;
                let _gone = graph.objects.remove(k);
                assert(graph@.objects =~= before.objects.remove(k as int));
                let ghost pred = |c: Connection| !touches(c, self);
                let mut kept: Vec<Connection> = Vec::new();
                let mut i: usize = 0;
                while i < graph.connections.len()
                    invariant
                        i <= graph@.connections.len(),
                        graph@.connections == before.connections,
                        pred == (|c: Connection| !touches(c, self)),
                        kept@ == before.connections.take(i as int).filter(pred),
                    decreases graph@.connections.len() - i,
                {
                    let c = graph.connections[i];
                    assert(before.connections.take(i + 1).drop_last() =~= before.connections.take(
                        i as int,
                    ));
                    reveal(Seq::filter);
                    if !(c.from.object == self || c.to.object == self) {
                        kept.push(c);
                    }
                    i = i + 1;
                }
                assert(before.connections.take(i as int) =~= before.connections);
                graph.connections = kept;
                assert(graph@.objects =~= before.objects.remove(k as int));
                proof {
                    let f = before.connections.filter(pred);
                    broadcast use vstd::seq_lib::group_filter_ensures;
                    assert forall|i: int, j: int|
                        0 <= i < f.len() && 0 <= j < f.len() && i != j
                            implies #[trigger] f[i] != #[trigger] f[j] by {
                        lemma_filter_distinct(before.connections, pred);
                    }
                    assert forall|i: int| 0 <= i < graph@.objects.len() implies (#[trigger] graph@.objects[i]).id
                        != self.spec_id() by {
                        let oi = if i < k { i } else { i + 1 };
                        assert(graph@.objects[i] == before.objects[oi]);
                        assert(oi != k);
                    }
                    assert forall|i: int, j: int|
                        0 <= i < graph@.objects.len() && 0 <= j < graph@.objects.len() && i != j
                            implies (#[trigger] graph@.objects[i]).id != (#[trigger] graph@.objects[j]).id by {
                        let oi = if i < k { i } else { i + 1 };
                        let oj = if j < k { j } else { j + 1 };
                        assert(graph@.objects[i] == before.objects[oi]);
                        assert(graph@.objects[j] == before.objects[oj]);
                    }
                    assert forall|i: int| 0 <= i < graph@.objects.len() implies (#[trigger] graph@.objects[i]).id
                        < graph@.next_id by {
                        let oi = if i < k { i } else { i + 1 };
                        assert(graph@.objects[i] == before.objects[oi]);
                    }
                }
                true
            },
        }
    }
}

/// The handle of a removed object stays dead: objects added later get new numbers, so the
/// handle never names one of them.
pub proof fn lemma_removed_stays_removed(
    g: GraphView,
    object: Object,
    description: Seq<char>,
    position: ObjectPosition,
)
    requires
        g.well_formed(),
        g.next_id < u64::MAX,
        object.spec_id() < g.next_id,
        !g.has_object(object),
    ensures
        !g.after_add(description, position).has_object(object),
        Object::handle(g.dollar_zero, g.next_id) != object,
{
    let h = g.after_add(description, position);
    if h.has_object(object) {
        let i = choose|i: int| 0 <= i < h.objects.len() && (#[trigger] h.objects[i]).id == object.spec_id();
        if i < g.objects.len() {
            assert(h.objects[i] == g.objects[i]);
        }
    }
    lemma_handle_view(g.dollar_zero, g.next_id);
}

/// Adding a connection that was not there and then removing it gives back exactly the
/// connections that were there before.
pub proof fn lemma_connect_then_disconnect(g: GraphView, c: Connection)
    requires
        g.well_formed(),
        !g.connections.contains(c),
    ensures
        forall|k: int|
            0 <= k < g.connections.len() + 1 && #[trigger] g.connections.push(c)[k] == c
                ==> g.connections.push(c).remove(k) == g.connections,
{
    assert forall|k: int|
        0 <= k < g.connections.len() + 1 && #[trigger] g.connections.push(c)[k] == c
            implies g.connections.push(c).remove(k) == g.connections by {
        if k < g.connections.len() {
            assert(g.connections[k] == c);
        }
        assert(k == g.connections.len());
        assert(g.connections.push(c).remove(k) =~= g.connections);
    }
}

/// Filtering a list with no repeated entries leaves none.
proof fn lemma_filter_distinct(s: Seq<Connection>, pred: spec_fn(Connection) -> bool)
    requires
        forall|i: int, j: int| 0 <= i < s.len() && 0 <= j < s.len() && i != j ==> #[trigger] s[i] != #[trigger] s[j],
    ensures
        forall|i: int, j: int|
            0 <= i < s.filter(pred).len() && 0 <= j < s.filter(pred).len() && i != j
                ==> #[trigger] s.filter(pred)[i] != #[trigger] s.filter(pred)[j],
    decreases s.len(),
{
    reveal(Seq::filter);
    if s.len() > 0 {
        let init = s.drop_last();
        lemma_filter_distinct(init, pred);
        let f = init.filter(pred);
        if pred(s.last()) {
            broadcast use vstd::seq_lib::group_filter_ensures;
            assert(!init.contains(s.last())) by {
                if init.contains(s.last()) {
                    let i = choose|i: int| 0 <= i < init.len() && init[i] == s.last();
                    assert(s[i] == s[s.len() - 1]);
                }
            }
            assert forall|i: int| 0 <= i < f.len() implies #[trigger] f[i] != s.last() by {
                assert(f.contains(f[i]));
                init.lemma_filter_contains_rev(pred, f[i]);
            }
        }
    }
}

} // verus!
