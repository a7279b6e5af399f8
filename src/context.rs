//! The context: one independent engine instance, its configuration, its audio adapter, the
//! caller's state reached from event handlers, and the receivers registered with it.
use vstd::prelude::*;

use crate::audioloop::LoopState;
pub use crate::audioloop::{AudioLoop, AudioLoopI16, BufferLayout, Error as AudioLoopError};
use crate::message::Message;

verus! {

/// The configuration of a context.
#[derive(Clone, Copy, Debug, PartialEq, Eq, Structural)]
pub struct Config {
    /// The number of input channels.
    pub input_ch_num: u16,
    /// The number of output channels.
    pub output_ch_num: u16,
    /// The number of frames in a block.
    pub blocksize: u16,
    /// The sample rate.
    pub sample_rate: u32,
}

impl Config {
    /// A configuration that an engine can run: every value is positive.
    pub open spec fn is_valid(self) -> bool {
        &&& self.input_ch_num > 0
        &&& self.output_ch_num > 0
        &&& self.blocksize > 0
        &&& self.sample_rate > 0
    }

    /// The same configuration with `ch_num` input channels.
    pub fn with_in_ch_num(self, ch_num: u16) -> (r: Config)
        ensures
            r == (Config { input_ch_num: ch_num, ..self }),
    {
        let mut r = self;
        r.input_ch_num = ch_num;
        r
    }

    /// The same configuration with `ch_num` output channels.
    pub fn with_out_ch_num(self, ch_num: u16) -> (r: Config)
        ensures
            r == (Config { output_ch_num: ch_num, ..self }),
    {
        let mut r = self;
        r.output_ch_num = ch_num;
        r
    }

    /// The same configuration with blocks of `blocksize` frames.
    pub fn with_block_size(self, blocksize: u16) -> (r: Config)
        ensures
            r == (Config { blocksize, ..self }),
    {
        let mut r = self;
        r.blocksize = blocksize;
        r
    }

    /// The same configuration with sample rate `sr`.
    pub fn with_sample_rate(self, sr: u32) -> (r: Config)
        ensures
            r == (Config { sample_rate: sr, ..self }),
    {
        let mut r = self;
        r.sample_rate = sr;
        r
    }
}

impl Default for Config {
    /// Two input and two output channels, blocks of 64 frames at 44100 Hz.
    fn default() -> (r: Config)
        ensures
            r == (Config { input_ch_num: 2, output_ch_num: 2, blocksize: 64, sample_rate: 44100 }),
    {
        Config { input_ch_num: 2, output_ch_num: 2, blocksize: 64, sample_rate: 44100 }
    }
}

/// The error of making a context.
#[derive(Clone, Copy, Debug, PartialEq, Eq, Structural)]
pub enum Error {
    /// The configuration cannot be run.
    Initializing,
}

impl Error {
    /// A sentence that describes the error.
    pub fn message(&self) -> (r: &'static str)
        ensures
            r@ == "Can't initalize context"@,
    {
        match self {
            Error::Initializing => "Can't initalize context",
        }
    }
}

/// The handlers of the events that an engine reports. Each handler states what it does to the
/// caller's state through the spec function beside it, so that what [`dispatch`] does with an
/// event can be said exactly. Unless an implementation says otherwise, a handler does nothing:
/// the state stays as it is and a missing object gets no answer.
///
/// A handler runs while the engine is inside a call of the context (most often while it computes
/// a block), so it must not call back into the context.
pub trait Dispatcher {
    /// The caller's state, handed to every handler.
    type UserData;

    /// What [`Dispatcher::print_std`] does: `before` becomes `after` for the line `message`.
    open spec fn printed_std(message: Seq<char>, before: Self::UserData, after: Self::UserData) -> bool {
        after == before
    }

    /// What [`Dispatcher::print_err`] does: `before` becomes `after` for the line `message`.
    open spec fn printed_err(message: Seq<char>, before: Self::UserData, after: Self::UserData) -> bool {
        after == before
    }

    /// What [`Dispatcher::switch_dsp`] does: `before` becomes `after` for the suggestion `state`.
    open spec fn switched_dsp(state: bool, before: Self::UserData, after: Self::UserData) -> bool {
        after == before
    }

    /// What [`Dispatcher::receiver_message`] does: `before` becomes `after` for `message` sent to
    /// the receiver `name`.
    open spec fn received(
        name: Seq<char>,
        message: Option<Message>,
        before: Self::UserData,
        after: Self::UserData,
    ) -> bool {
        after == before
    }

    /// What [`Dispatcher::cannot_find_obj`] does: `before` becomes `after`, and `answer` is the
    /// answer, for the missing object `name`.
    open spec fn answered(
        name: Seq<char>,
        before: Self::UserData,
        after: Self::UserData,
        answer: Option<String>,
    ) -> bool {
        after == before && answer is None
    }

    /// A line of standard output.
    fn print_std(message: String, data: &mut Self::UserData)
        ensures
            Self::printed_std(message@, *old(data), *final(data)),
    ;

    /// A line of error output.
    fn print_err(message: String, data: &mut Self::UserData)
        ensures
            Self::printed_err(message@, *old(data), *final(data)),
    ;

    /// A suggestion to switch signal processing on or off.
    fn switch_dsp(state: bool, data: &mut Self::UserData)
        ensures
            Self::switched_dsp(state, *old(data), *final(data)),
    ;

    /// A message for a receiver registered with [`Context::register_receiver`]; `message` is
    /// `None` when the engine's message could not be read.
    fn receiver_message(name: String, message: Option<Message>, data: &mut Self::UserData)
        ensures
            Self::received(name@, message, *old(data), *final(data)),
    ;

    /// An object, abstraction or external named `name` cannot be found. The handler may answer
    /// with the path of its definition.
    fn cannot_find_obj(name: String, data: &mut Self::UserData) -> (r: Option<String>)
        ensures
            Self::answered(name@, *old(data), *final(data), r),
    ;
}

/// The kind of an event, as the engine tags it.
#[derive(Clone, Copy, Debug, PartialEq, Eq, Structural)]
pub enum EventKind {
    PrintStd,
    PrintErr,
    SwitchDsp,
    ReceiverMessage,
    CannotFindObject,
}

/// What comes with an event, as read from the engine.
#[derive(Debug)]
pub enum Payload {
    /// A text.
    Text(String),
    /// An integer.
    Integer(i64),
    /// A message for a registered receiver.
    Receiver(ReceiverMessage),
}

/// An event, decoded.
#[derive(Debug)]
pub enum Event {
    PrintStd(String),
    PrintErr(String),
    SwitchDsp(bool),
    ReceiverMessage(ReceiverMessage),
    CannotFindObj(String),
}

/// A message for a registered receiver, as the engine hands it over: the receiver's name, and
/// the message unless it could not be read.
#[derive(Debug)]
pub struct ReceiverMessage {
    receiver_name: String,
    message: Option<Message>,
}

impl ReceiverMessage {
    /// The receiver's name.
    pub closed spec fn spec_receiver_name(&self) -> Seq<char> {
        self.receiver_name@
    }

    /// The message.
    pub closed spec fn spec_message(&self) -> Option<Message> {
        self.message
    }

    /// The message `message` for the receiver named `receiver_name`.
    pub fn new(receiver_name: String, message: Option<Message>) -> (r: ReceiverMessage)
        ensures
            r.spec_receiver_name() == receiver_name@,
            r.spec_message() == message,
    {
        ReceiverMessage { receiver_name, message }
    }

    /// The receiver's name.
    pub fn receiver_name(&self) -> (r: &str)
        ensures
            r@ == self.spec_receiver_name(),
    {
        self.receiver_name.as_str()
    }

    /// The message, unless it could not be read.
    pub fn message(&self) -> (r: Option<&Message>)
        ensures
            r is Some <==> self.spec_message() is Some,
            r is Some ==> *r->Some_0 == self.spec_message()->Some_0,
    {
        match &self.message {
            Some(m) => Some(m),
            None => None,
        }
    }

    /// The receiver's name and the message, taken apart.
    pub fn into_parts(self) -> (r: (String, Option<Message>))
        ensures
            r.0@ == self.spec_receiver_name(),
            r.1 == self.spec_message(),
    {
        (self.receiver_name, self.message)
    }
}

/// Whether the kind of `payload` is the one that events of `kind` carry.
pub open spec fn payload_fits(kind: EventKind, payload: Payload) -> bool {
    match kind {
        EventKind::PrintStd | EventKind::PrintErr | EventKind::CannotFindObject => payload is Text,
        EventKind::SwitchDsp => payload is Integer,
        EventKind::ReceiverMessage => payload is Receiver,
    }
}

/// Reads an event of `kind` from `payload`: the text of a print or of a missing object, the
/// switch of a DSP suggestion (on when the integer is positive), or the receiver's name and its
/// message. A payload of another kind than the tag announces gives nothing.
pub fn decode_event(kind: EventKind, payload: Payload) -> (r: Option<Event>)
    ensures
        r is Some <==> payload_fits(kind, payload),
        payload_fits(kind, payload) ==> match (kind, payload) {
            (EventKind::PrintStd, Payload::Text(t)) => r == Some(Event::PrintStd(t)),
            (EventKind::PrintErr, Payload::Text(t)) => r == Some(Event::PrintErr(t)),
            (EventKind::CannotFindObject, Payload::Text(t)) => r == Some(Event::CannotFindObj(t)),
            (EventKind::SwitchDsp, Payload::Integer(v)) => r == Some(Event::SwitchDsp(v > 0)),
            (EventKind::ReceiverMessage, Payload::Receiver(m)) => r == Some(
                Event::ReceiverMessage(m),
            ),
            _ => false,
        },
{
    match (kind, payload) {
        (EventKind::PrintStd, Payload::Text(t)) => Some(Event::PrintStd(t)),
        (EventKind::PrintErr, Payload::Text(t)) => Some(Event::PrintErr(t)),
        (EventKind::CannotFindObject, Payload::Text(t)) => Some(Event::CannotFindObj(t)),
        (EventKind::SwitchDsp, Payload::Integer(v)) => Some(Event::SwitchDsp(v > 0)),
        (EventKind::ReceiverMessage, Payload::Receiver(m)) => Some(Event::ReceiverMessage(m)),
        _ => None,
    }
}

/// Hands `event` to the one handler of `D` for its kind, with its text, switch or message and
/// with `data`. Only a missing object has an answer: the one its handler gave.
pub fn dispatch<D: Dispatcher>(event: Event, data: &mut D::UserData) -> (r: Option<String>)
    ensures
        handled::<D>(event, *old(data), *final(data), r),
{
    match event {
        Event::PrintStd(t) => {
            D::print_std(t, data);
            None
        },
        Event::PrintErr(t) => {
            D::print_err(t, data);
            None
        },
        Event::SwitchDsp(on) => {
            D::switch_dsp(on, data);
            None
        },
        Event::ReceiverMessage(m) => {
            let (n, m) = m.into_parts();
            D::receiver_message(n, m, data);
            None
        },
        Event::CannotFindObj(n) => D::cannot_find_obj(n, data),
    }
}

/// What handling `event` with the handlers of `D` does: the matching handler's own statement,
/// with the value the event carries; no answer but for a missing object.
pub open spec fn handled<D: Dispatcher>(
    event: Event,
    before: D::UserData,
    after: D::UserData,
    r: Option<String>,
) -> bool {
    match event {
        Event::PrintStd(t) => D::printed_std(t@, before, after) && r is None,
        Event::PrintErr(t) => D::printed_err(t@, before, after) && r is None,
        Event::SwitchDsp(on) => D::switched_dsp(on, before, after) && r is None,
        Event::ReceiverMessage(m) => D::received(
            m.spec_receiver_name(),
            m.spec_message(),
            before,
            after,
        ) && r is None,
        Event::CannotFindObj(n) => D::answered(n@, before, after, r),
    }
}

/// Reads an event of `kind` from `payload` and hands it to its handler in `D`: what the engine's
/// single event entry point does. A payload of another kind than the tag announces runs no
/// handler and leaves `data` as it is.
pub fn handle_event<D: Dispatcher>(kind: EventKind, payload: Payload, data: &mut D::UserData) -> (r:
    Option<String>)
    ensures
        !payload_fits(kind, payload) ==> r is None && *final(data) == *old(data),
        payload_fits(kind, payload) ==> match (kind, payload) {
            (EventKind::PrintStd, Payload::Text(t)) => D::printed_std(t@, *old(data), *final(data))
                && r is None,
            (EventKind::PrintErr, Payload::Text(t)) => D::printed_err(t@, *old(data), *final(data))
                && r is None,
            (EventKind::SwitchDsp, Payload::Integer(v)) => D::switched_dsp(
                v > 0,
                *old(data),
                *final(data),
            ) && r is None,
            (EventKind::ReceiverMessage, Payload::Receiver(m)) => D::received(
                m.spec_receiver_name(),
                m.spec_message(),
                *old(data),
                *final(data),
            ) && r is None,
            (EventKind::CannotFindObject, Payload::Text(t)) => D::answered(
                t@,
                *old(data),
                *final(data),
                r,
            ),
            _ => false,
        },
{
    match decode_event(kind, payload) {
        Some(event) => dispatch::<D>(event, data),
        None => None,
    }
}

/// A message on its way to a named receiver of the engine.
#[derive(Debug)]
pub struct Outgoing {
    /// The receiver's name.
    pub receiver: String,
    /// The message.
    pub message: Message,
}

/// One engine instance as this library keeps it: its configuration, the audio adapter, the
/// caller's state, the receivers registered with it, the messages not yet handed to the engine,
/// and the token of the next graph made in it.
pub struct Context<D: Dispatcher, T> {
    config: Config,
    audio_loop: AudioLoop<T>,
    user_data: D::UserData,
    receivers: Vec<String>,
    outbox: Vec<Outgoing>,
    next_dollar_zero: usize,
}

/// Whether `name` stands in `names`.
pub open spec fn names_contain(names: Seq<String>, name: Seq<char>) -> bool {
    exists|i: int| 0 <= i < names.len() && (#[trigger] names[i])@ == name
}

/// The names in `names`, as a set of texts.
pub open spec fn name_set(names: Seq<String>) -> Set<Seq<char>> {
    Set::new(|n: Seq<char>| names_contain(names, n))
}

/// No two entries of `names` are the same text.
pub open spec fn names_distinct(names: Seq<String>) -> bool {
    forall|i: int, j: int|
        0 <= i < names.len() && 0 <= j < names.len() && i != j ==> (#[trigger] names[i])@
            != (#[trigger] names[j])@
}

fn find_name(names: &Vec<String>, name: &str) -> (r: Option<usize>)
    ensures
        r is Some ==> r->Some_0 < names@.len() && names@[r->Some_0 as int]@ == name@,
        r is None ==> !names_contain(names@, name@),
{
    let mut i: usize = 0;
    while i < names.len()
        invariant
            i <= names@.len(),
            forall|k: int| 0 <= k < i ==> (#[trigger] names@[k])@ != name@,
        decreases names@.len() - i,
    {
        if str_equal(names[i].as_str(), name) {
            return Some(i);
        }
        i = i + 1;
    }
    None
}

/// Whether `a` and `b` are the same text.
pub fn str_equal(a: &str, b: &str) -> (r: bool)
    ensures
        r == (a@ == b@),
{
    let n = a.unicode_len();
    if n != b.unicode_len() {
        return false;
    }
    let mut i: usize = 0;
    while i < n
        invariant
            n == a@.len(),
            n == b@.len(),
            i <= n,
            forall|k: int| 0 <= k < i ==> a@[k] == b@[k],
        decreases n - i,
    {
        if a.get_char(i) != b.get_char(i) {
            return false;
        }
        i = i + 1;
    }
    assert(a@ =~= b@);
    true
}

impl<D: Dispatcher, T: Copy> Context<D, T> {
    /// The configuration.
    pub closed spec fn spec_config(&self) -> Config {
        self.config
    }

    /// The audio adapter.
    pub closed spec fn spec_loop(&self) -> LoopState<T> {
        self.audio_loop@
    }

    /// The caller's state.
    pub closed spec fn spec_user_data(&self) -> D::UserData {
        self.user_data
    }

    /// The names of the receivers registered.
    pub closed spec fn spec_receivers(&self) -> Set<Seq<char>> {
        name_set(self.receivers@)
    }

    /// The messages sent and not yet handed to the engine, oldest first.
    pub closed spec fn spec_outbox(&self) -> Seq<(Seq<char>, Message)> {
        self.outbox@.map_values(|o: Outgoing| (o.receiver@, o.message))
    }

    /// The token that the next graph made in this context gets.
    pub closed spec fn spec_next_dollar_zero(&self) -> nat {
        self.next_dollar_zero as nat
    }

    /// The context's invariant.
    pub closed spec fn wf(&self) -> bool {
        &&& self.audio_loop.wf()
        &&& self.audio_loop@.blocksize == self.config.blocksize
        &&& self.audio_loop@.in_channels == self.config.input_ch_num
        &&& self.audio_loop@.out_channels == self.config.output_ch_num
        &&& names_distinct(self.receivers@)
    }

    /// A context for `config`, holding `user_data`, whose adapter lays blocks out as `layout`
    /// and starts silent with `silence`. A configuration with a value of zero is refused.
    pub fn new(config: Config, user_data: D::UserData, layout: BufferLayout, silence: T) -> (r:
        Result<Self, Error>)
        ensures
            r is Err <==> !config.is_valid(),
            r is Err ==> r->Err_0 == Error::Initializing,
            r is Ok ==> ({
                let c = r->Ok_0;
                &&& c.wf()
                &&& c.spec_config() == config
                &&& c.spec_user_data() == user_data
                &&& c.spec_loop() == LoopState::fresh(
                    layout,
                    silence,
                    config.blocksize as nat,
                    config.input_ch_num as nat,
                    config.output_ch_num as nat,
                )
                &&& c.spec_receivers() == Set::<Seq<char>>::empty()
                &&& c.spec_outbox() == Seq::<(Seq<char>, Message)>::empty()
                &&& c.spec_next_dollar_zero() == 1
            }),
    {
        if config.input_ch_num == 0 || config.output_ch_num == 0 || config.blocksize == 0
            || config.sample_rate == 0 {
            return Err(Error::Initializing);
        }
        let mut audio_loop = AudioLoop::new(layout, silence);
        audio_loop.init_buffers(config.blocksize, config.input_ch_num, config.output_ch_num);
        let c = Context {
            config,
            audio_loop,
            user_data,
            receivers: Vec::new(),
            outbox: Vec::new(),
            next_dollar_zero: 1,
        };
        assert(c.spec_receivers() =~= Set::<Seq<char>>::empty());
        assert(c.spec_outbox() =~= Seq::<(Seq<char>, Message)>::empty());
        Ok(c)
    }

    /// The configuration.
    pub fn config(&self) -> (r: &Config)
        ensures
            *r == self.spec_config(),
    {
        &self.config
    }

    /// The caller's state.
    pub fn user_data(&self) -> (r: &D::UserData)
        ensures
            *r == self.spec_user_data(),
    {
        &self.user_data
    }

    /// The caller's state, to change.
    pub fn user_data_mut(&mut self) -> (r: &mut D::UserData)
        ensures
            *r == old(self).spec_user_data(),
            final(self).spec_user_data() == *final(r),
            final(self).wf() == old(self).wf(),
            final(self).spec_config() == old(self).spec_config(),
            final(self).spec_loop() == old(self).spec_loop(),
            final(self).spec_receivers() == old(self).spec_receivers(),
            final(self).spec_outbox() == old(self).spec_outbox(),
            final(self).spec_next_dollar_zero() == old(self).spec_next_dollar_zero(),
    {
        &mut self.user_data
    }

    /// Whether a receiver named `receiver` is registered.
    pub fn is_registered(&self, receiver: &str) -> (r: bool)
        ensures
            r == self.spec_receivers().contains(receiver@),
    {
        find_name(&self.receivers, receiver).is_some()
    }

    /// Registers a receiver named `receiver`. Registering a name twice is no error: the second
    /// time changes nothing. The result says whether the name is new, and so whether the engine
    /// must be told.
    pub fn register_receiver(&mut self, receiver: &str) -> (r: bool)
        requires
            old(self).wf(),
        ensures
            final(self).wf(),
            r == !old(self).spec_receivers().contains(receiver@),
            final(self).spec_receivers() == old(self).spec_receivers().insert(receiver@),
            final(self).spec_config() == old(self).spec_config(),
            final(self).spec_loop() == old(self).spec_loop(),
            final(self).spec_user_data() == old(self).spec_user_data(),
            final(self).spec_outbox() == old(self).spec_outbox(),
            final(self).spec_next_dollar_zero() == old(self).spec_next_dollar_zero(),
    {
        match find_name(&self.receivers, receiver) {
            Some(_) => {
                assert(self.spec_receivers() =~= self.spec_receivers().insert(receiver@));
                false
            },
            None => {
                let ghost old_names = self.receivers@;
                let name = receiver.to_owned();
                self.receivers.push(name);
                assert(names_contain(self.receivers@, receiver@)) by {
                    assert(self.receivers@[old_names.len() as int]@ == receiver@);
                }
                assert forall|n: Seq<char>| names_contain(self.receivers@, n) == (names_contain(
                    old_names,
                    n,
                ) || n == receiver@) by {
                    if names_contain(old_names, n) {
                        let i = choose|i: int| 0 <= i < old_names.len() && (#[trigger] old_names[i])@ == n;
                        assert(self.receivers@[i] == old_names[i]);
                    }
                    if names_contain(self.receivers@, n) && n != receiver@ {
                        let i = choose|i: int| 0 <= i < self.receivers@.len() && (#[trigger] self.receivers@[i])@ == n;
                        assert(old_names[i] == self.receivers@[i]);
                    }
                }
                assert(name_set(self.receivers@) =~= name_set(old_names).insert(receiver@));
                assert(names_distinct(self.receivers@)) by {
                    assert forall|i: int, j: int|
                        0 <= i < self.receivers@.len() && 0 <= j < self.receivers@.len() && i
                            != j implies (#[trigger] self.receivers@[i])@
                        != (#[trigger] self.receivers@[j])@ by {
                        if i < old_names.len() && j < old_names.len() {
                            assert(self.receivers@[i] == old_names[i]);
                            assert(self.receivers@[j] == old_names[j]);
                        } else if i < old_names.len() {
                            assert(self.receivers@[i] == old_names[i]);
                        } else {
                            assert(self.receivers@[j] == old_names[j]);
                        }
                    }
                }
                true
            },
        }
    }

    /// Unregisters the receiver named `receiver`. Unregistering a name that is not registered is
    /// no error and changes nothing. The result says whether the name was registered, and so
    /// whether the engine must be told.
    pub fn unregister_receiver(&mut self, receiver: &str) -> (r: bool)
        requires
            old(self).wf(),
        ensures
            final(self).wf(),
            r == old(self).spec_receivers().contains(receiver@),
            final(self).spec_receivers() == old(self).spec_receivers().remove(receiver@),
            final(self).spec_config() == old(self).spec_config(),
            final(self).spec_loop() == old(self).spec_loop(),
            final(self).spec_user_data() == old(self).spec_user_data(),
            final(self).spec_outbox() == old(self).spec_outbox(),
            final(self).spec_next_dollar_zero() == old(self).spec_next_dollar_zero(),
    {
        match find_name(&self.receivers, receiver) {
            None => {
                assert(self.spec_receivers() =~= self.spec_receivers().remove(receiver@));
                false
            },
            Some(k) => {
                let ghost old_names = self.receivers@;
                let _gone = self.receivers.remove(k);
                assert forall|n: Seq<char>| names_contain(self.receivers@, n) == (names_contain(
                    old_names,
                    n,
                ) && n != receiver@) by {
                    if names_contain(old_names, n) && n != receiver@ {
                        let i = choose|i: int| 0 <= i < old_names.len() && (#[trigger] old_names[i])@ == n;
                        if i < k {
                            assert(self.receivers@[i] == old_names[i]);
                        } else {
                            assert(i != k);
                            assert(self.receivers@[i - 1] == old_names[i]);
                        }
                    }
                    if names_contain(self.receivers@, n) {
                        let i = choose|i: int| 0 <= i < self.receivers@.len() && (#[trigger] self.receivers@[i])@ == n;
                        if i < k {
                            assert(old_names[i] == self.receivers@[i]);
                        } else {
                            assert(old_names[i + 1] == self.receivers@[i]);
                            assert(old_names[k as int]@ == receiver@);
                        }
                    }
                }
                assert(name_set(self.receivers@) =~= name_set(old_names).remove(receiver@));
                assert(names_distinct(self.receivers@)) by {
                    assert forall|i: int, j: int|
                        0 <= i < self.receivers@.len() && 0 <= j < self.receivers@.len() && i
                            != j implies (#[trigger] self.receivers@[i])@
                        != (#[trigger] self.receivers@[j])@ by {
                        let oi = if i < k { i } else { i + 1 };
                        let oj = if j < k { j } else { j + 1 };
                        assert(self.receivers@[i] == old_names[oi]);
                        assert(self.receivers@[j] == old_names[oj]);
                    }
                }
                true
            },
        }
    }

    /// Sends `message` to the receiver named `receiver`. The engine takes it at its next
    /// scheduling point: until [`Context::take_outgoing`] hands it over, it waits behind the
    /// messages sent before it.
    pub fn send_message(&mut self, receiver: &str, message: Message)
        ensures
            final(self).spec_outbox() == old(self).spec_outbox().push((receiver@, message)),
            final(self).wf() == old(self).wf(),
            final(self).spec_config() == old(self).spec_config(),
            final(self).spec_loop() == old(self).spec_loop(),
            final(self).spec_user_data() == old(self).spec_user_data(),
            final(self).spec_receivers() == old(self).spec_receivers(),
            final(self).spec_next_dollar_zero() == old(self).spec_next_dollar_zero(),
    {
        let ghost before = self.spec_outbox();
        let ghost m = message;
        self.outbox.push(Outgoing { receiver: receiver.to_owned(), message });
        assert(self.spec_outbox() =~= before.push((receiver@, m)));
    }

    /// Hands over the messages sent so far, oldest first, and empties the queue.
    pub fn take_outgoing(&mut self) -> (r: Vec<Outgoing>)
        ensures
            r@.map_values(|o: Outgoing| (o.receiver@, o.message)) == old(self).spec_outbox(),
            final(self).spec_outbox() == Seq::<(Seq<char>, Message)>::empty(),
            final(self).wf() == old(self).wf(),
            final(self).spec_config() == old(self).spec_config(),
            final(self).spec_loop() == old(self).spec_loop(),
            final(self).spec_user_data() == old(self).spec_user_data(),
            final(self).spec_receivers() == old(self).spec_receivers(),
            final(self).spec_next_dollar_zero() == old(self).spec_next_dollar_zero(),
    {
        let mut r: Vec<Outgoing> = Vec::new();
        std::mem::swap(&mut self.outbox, &mut r);
        assert(self.spec_outbox() =~= Seq::<(Seq<char>, Message)>::empty());
        r
    }

    /// Gives out the token of a new graph, and moves on to the next.
    pub fn issue_dollar_zero(&mut self) -> (r: usize)
        requires
            old(self).spec_next_dollar_zero() < usize::MAX,
        ensures
            r == old(self).spec_next_dollar_zero(),
            final(self).spec_next_dollar_zero() == old(self).spec_next_dollar_zero() + 1,
            final(self).wf() == old(self).wf(),
            final(self).spec_config() == old(self).spec_config(),
            final(self).spec_loop() == old(self).spec_loop(),
            final(self).spec_user_data() == old(self).spec_user_data(),
            final(self).spec_receivers() == old(self).spec_receivers(),
            final(self).spec_outbox() == old(self).spec_outbox(),
    {
        let r = self.next_dollar_zero;
        self.next_dollar_zero = r + 1;
        r
    }

    /// Whether a whole block of input is gathered and must go through the engine before the next
    /// frame.
    pub fn block_pending(&self) -> (r: bool)
        ensures
            r == self.spec_loop().block_pending(),
    {
        self.audio_loop.block_pending()
    }

    /// The input gathered for the engine.
    pub fn input_block(&self) -> (r: &[T])
        ensures
            r@ == self.spec_loop().input,
    {
        self.audio_loop.input_block()
    }

    /// Takes `block`, which the engine computed from the gathered input, as the next block to hand
    /// out.
    pub fn complete_block(&mut self, block: &[T])
        requires
            old(self).wf(),
            block@.len() == old(self).spec_loop().output.len(),
        ensures
            final(self).wf(),
            final(self).spec_loop() == old(self).spec_loop().after_block(block@),
            final(self).spec_config() == old(self).spec_config(),
            final(self).spec_user_data() == old(self).spec_user_data(),
            final(self).spec_receivers() == old(self).spec_receivers(),
            final(self).spec_outbox() == old(self).spec_outbox(),
            final(self).spec_next_dollar_zero() == old(self).spec_next_dollar_zero(),
    {
        self.audio_loop.complete_block(block);
    }

    /// The next frame of output for the input frame `in_frame`, as the adapter hands it out.
    pub fn next_frame(&mut self, in_frame: &[T]) -> (r: Result<&[T], AudioLoopError>)
        requires
            old(self).wf(),
            in_frame@.len() == old(self).spec_loop().in_channels ==> !old(
                self,
            ).spec_loop().block_pending(),
        ensures
            final(self).wf(),
            final(self).spec_config() == old(self).spec_config(),
            final(self).spec_user_data() == old(self).spec_user_data(),
            final(self).spec_receivers() == old(self).spec_receivers(),
            final(self).spec_outbox() == old(self).spec_outbox(),
            final(self).spec_next_dollar_zero() == old(self).spec_next_dollar_zero(),
            in_frame@.len() != old(self).spec_loop().in_channels ==> r == Err::<&[T], AudioLoopError>(
                AudioLoopError::WrongInFrameSize,
            ) && final(self).spec_loop() == old(self).spec_loop(),
            in_frame@.len() == old(self).spec_loop().in_channels ==> r is Ok && r->Ok_0@
                == old(self).spec_loop().current_output() && final(self).spec_loop() == old(
                self,
            ).spec_loop().after_frame(in_frame@),
    {
        self.audio_loop.next_frame(in_frame)
    }
}

} // verus!
