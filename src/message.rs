//! Messages: timestamped lists of numbers, symbols and bangs, exchanged with the engine.
use vstd::prelude::*;

use crate::text::{parse, parse_word, read_word, render, render_elements, split, split_words};

verus! {

/// The most digits after the decimal point that a [`Decimal`] holds: as many as a 64-bit
/// magnitude can carry.
pub const MAX_SCALE: u32 = 19;

/// A decimal number `(-1)^negative * magnitude / 10^scale`, kept in its shortest form: no
/// trailing zero after the decimal point, and no sign on zero.
#[derive(Clone, Copy, Debug, PartialEq, Eq, Structural)]
pub struct Decimal {
    negative: bool,
    magnitude: u64,
    scale: u32,
}

/// The shortest form of `magnitude / 10^scale`: trailing zeros after the decimal point removed.
pub open spec fn shortest(magnitude: nat, scale: nat) -> (nat, nat)
    decreases scale,
{
    if scale > 0 && magnitude % 10 == 0 {
        shortest(magnitude / 10, (scale - 1) as nat)
    } else {
        (magnitude, scale)
    }
}

impl Decimal {
    #[verifier::type_invariant]
    pub(crate) open spec fn shortest_form(self) -> bool {
        self.wf()
    }

    /// Whether the number is negative.
    pub closed spec fn spec_negative(self) -> bool {
        self.negative
    }

    /// The digits of the number without its sign, as one integer.
    pub closed spec fn spec_magnitude(self) -> nat {
        self.magnitude as nat
    }

    /// How many of those digits stand after the decimal point.
    pub closed spec fn spec_scale(self) -> nat {
        self.scale as nat
    }

    /// The number `(-1)^negative * magnitude / 10^scale`, in its shortest form.
    pub closed spec fn spec_from_parts(negative: bool, magnitude: nat, scale: nat) -> Decimal {
        let (m, s) = shortest(magnitude, scale);
        Decimal { negative: negative && m != 0, magnitude: m as u64, scale: s as u32 }
    }

    /// A number in its shortest form is what its own parts make.
    pub proof fn lemma_from_parts_of_wf(d: Decimal)
        requires
            d.wf(),
        ensures
            Decimal::spec_from_parts(d.spec_negative(), d.spec_magnitude(), d.spec_scale()) == d,
    {
    }

    /// The shortest-form invariant.
    pub open spec fn wf(self) -> bool {
        &&& shortest(self.spec_magnitude(), self.spec_scale()) == (
        self.spec_magnitude(),
        self.spec_scale(),
        )
        &&& (self.spec_magnitude() == 0 ==> !self.spec_negative())
        &&& self.spec_scale() <= MAX_SCALE
    }

    /// The number `digits / 10^scale`, in its shortest form.
    pub fn new(digits: i64, scale: u32) -> (r: Decimal)
        requires
            scale <= MAX_SCALE,
        ensures
            r.wf(),
            r.spec_negative() == (digits < 0),
            (r.spec_magnitude(), r.spec_scale()) == shortest(
                if digits < 0 {
                    (-digits) as nat
                } else {
                    digits as nat
                },
                scale as nat,
            ),
    {
        let magnitude: u64 = if digits < 0 {
            ((-(digits + 1)) as u64) + 1
        } else {
            digits as u64
        };
        Decimal::from_parts(digits < 0, magnitude, scale)
    }

    /// The number `(-1)^negative * magnitude / 10^scale`, in its shortest form.
    pub fn from_parts(negative: bool, magnitude: u64, scale: u32) -> (r: Decimal)
        requires
            scale <= MAX_SCALE,
        ensures
            r.wf(),
            r.spec_negative() == (negative && magnitude != 0),
            (r.spec_magnitude(), r.spec_scale()) == shortest(magnitude as nat, scale as nat),
            r == Decimal::spec_from_parts(negative, magnitude as nat, scale as nat),
    {
        let mut m: u64 = magnitude;
        let mut s: u32 = scale;
        while s > 0 && m % 10 == 0
            invariant
                shortest(m as nat, s as nat) == shortest(magnitude as nat, scale as nat),
                m == 0 <==> magnitude == 0,
                s <= scale,
            decreases s,
        {
            m = m / 10;
            s = s - 1;
        }
        Decimal { negative: negative && m != 0, magnitude: m, scale: s }
    }

    /// Whether the number is negative.
    pub fn is_negative(&self) -> (r: bool)
        ensures
            r == self.spec_negative(),
    {
        self.negative
    }

    /// The digits of the number without its sign, as one integer.
    pub fn magnitude(&self) -> (r: u64)
        ensures
            r == self.spec_magnitude(),
    {
        self.magnitude
    }

    /// How many digits stand after the decimal point.
    pub fn scale(&self) -> (r: u32)
        ensures
            r == self.spec_scale(),
    {
        self.scale
    }

    /// Zero.
    pub fn zero() -> (r: Decimal)
        ensures
            r.wf(),
            r.spec_magnitude() == 0,
            r.spec_scale() == 0,
            !r.spec_negative(),
    {
        Decimal { negative: false, magnitude: 0, scale: 0 }
    }
}

/// One element of a message.
#[derive(Debug, PartialEq)]
pub enum MessageElement {
    /// A number.
    Float(Decimal),
    /// A symbol.
    Symbol(String),
    /// A bang.
    Bang,
}

/// A message element as mathematics.
pub enum ElementView {
    Float(Decimal),
    Symbol(Seq<char>),
    Bang,
}

impl View for MessageElement {
    type V = ElementView;

    open spec fn view(&self) -> ElementView {
        match self {
            MessageElement::Float(d) => ElementView::Float(*d),
            MessageElement::Symbol(s) => ElementView::Symbol(s@),
            MessageElement::Bang => ElementView::Bang,
        }
    }
}

/// The views of a list of elements.
pub open spec fn elements_view(elements: Seq<MessageElement>) -> Seq<ElementView> {
    elements.map_values(|e: MessageElement| e@)
}

impl Default for MessageElement {
    fn default() -> (r: MessageElement)
        ensures
            r@ == ElementView::Bang,
    {
        MessageElement::Bang
    }
}


/// A message: a timestamp and an ordered list of elements, fixed once built.
#[derive(Debug)]
pub struct Message {
    timestamp: Decimal,
    elements: Vec<MessageElement>,
}

/// Gathers the elements and the timestamp of a message. Start one with [`Message::builder`].
#[derive(Debug)]
pub struct MessageBuilder {
    timestamp: Decimal,
    elements: Vec<MessageElement>,
}

impl MessageBuilder {
    /// The timestamp set so far.
    pub closed spec fn spec_timestamp(&self) -> Decimal {
        self.timestamp
    }

    /// The elements appended so far, in order.
    pub closed spec fn spec_elements(&self) -> Seq<ElementView> {
        elements_view(self.elements@)
    }

    /// Appends `element` to the message.
    pub fn with_element(self, element: MessageElement) -> (r: MessageBuilder)
        ensures
            r.spec_timestamp() == self.spec_timestamp(),
            r.spec_elements() == self.spec_elements().push(element@),
    {
        let mut b = self;
        let ghost e = element@;
        b.elements.push(element);
        assert(elements_view(b.elements@) =~= elements_view(self.elements@).push(e));
        b
    }

    /// Sets the timestamp of the message.
    pub fn with_timestamp(self, timestamp: Decimal) -> (r: MessageBuilder)
        ensures
            r.spec_timestamp() == timestamp,
            r.spec_elements() == self.spec_elements(),
    {
        MessageBuilder { timestamp, elements: self.elements }
    }

    /// The message of the elements appended, in order, and the timestamp set.
    pub fn build(self) -> (r: Message)
        ensures
            r.spec_timestamp() == self.spec_timestamp(),
            r.spec_elements() == self.spec_elements(),
    {
        Message { timestamp: self.timestamp, elements: self.elements }
    }
}

impl Default for MessageBuilder {
    fn default() -> (r: MessageBuilder)
        ensures
            r.spec_timestamp() == Decimal::zero_spec(),
            r.spec_elements() == Seq::<ElementView>::empty(),
    {
        let r = MessageBuilder { timestamp: Decimal::zero(), elements: Vec::new() };
        assert(r.spec_elements() =~= Seq::<ElementView>::empty());
        r
    }
}

impl Decimal {
    /// Zero, as a value.
    pub closed spec fn zero_spec() -> Decimal {
        Decimal { negative: false, magnitude: 0, scale: 0 }
    }
}

impl Message {
    /// The timestamp of the message.
    pub closed spec fn spec_timestamp(&self) -> Decimal {
        self.timestamp
    }

    /// The elements of the message, in order.
    pub closed spec fn spec_elements(&self) -> Seq<ElementView> {
        elements_view(self.elements@)
    }

    /// A builder with no elements and timestamp zero.
    pub fn builder() -> (r: MessageBuilder)
        ensures
            r.spec_timestamp() == Decimal::zero_spec(),
            r.spec_elements() == Seq::<ElementView>::empty(),
    {
        MessageBuilder::default()
    }

    /// The number of elements.
    pub fn num_elements(&self) -> (r: usize)
        ensures
            r == self.spec_elements().len(),
    {
        self.elements.len()
    }

    /// The element at `index`, if there is one.
    pub fn element_at(&self, index: usize) -> (r: Option<&MessageElement>)
        ensures
            index < self.spec_elements().len() ==> r is Some && r->Some_0@
                == self.spec_elements()[index as int],
            index >= self.spec_elements().len() ==> r is None,
    {
        if index < self.elements.len() {
            Some(&self.elements[index])
        } else {
            None
        }
    }

    /// The text of the message: its elements one after another, separated by single spaces.
    pub fn to_string(&self) -> (r: String)
        ensures
            r@ == render(self.spec_elements()),
    {
        render_elements(&self.elements)
    }

    /// The message of the elements that `message` reads as, with `timestamp`. A text with no
    /// word, or with a number of more digits than a message holds, is refused.
    pub fn from_str(timestamp: Decimal, message: &str) -> (r: Result<Message, Error>)
        ensures
            r is Err <==> parse(message@) is None,
            r is Err ==> r->Err_0 == Error::Parse,
            r is Ok ==> r->Ok_0.spec_elements() == parse(message@)->Some_0
                && r->Ok_0.spec_timestamp() == timestamp,
    {
        let words = split_words(message);
        let ghost ws = words@.map_values(|w: String| w@);
        if words.len() == 0 {
            return Err(Error::Parse);
        }
        let mut elements: Vec<MessageElement> = Vec::new();
        let mut i: usize = 0;
        while i < words.len()
            invariant
                i <= words@.len(),
                ws == words@.map_values(|w: String| w@),
                ws == split(message@),
                forall|k: int| 0 <= k < i ==> (#[trigger] parse_word(ws[k])) is Some,
                elements_view(elements@) == ws.take(i as int).map_values(
                    |w: Seq<char>| parse_word(w)->Some_0,
                ),
            decreases words@.len() - i,
        {
            match read_word(words[i].as_str()) {
                None => {
                    assert(parse_word(ws[i as int]) is None);
                    return Err(Error::Parse);
                },
                Some(e) => {
                    let ghost before = elements_view(elements@);
                    let ghost ev = e@;
                    elements.push(e);
                    assert(elements_view(elements@) =~= before.push(ev));
                    i = i + 1;
                    assert(ws.take(i as int).map_values(|w: Seq<char>| parse_word(w)->Some_0)
                        =~= before.push(ev));
                },
            }
        }
        assert(ws.take(i as int) =~= ws);
        Ok(Message { timestamp, elements })
    }

    /// The timestamp of the message.
    pub fn timestamp(&self) -> (r: Decimal)
        ensures
            r == self.spec_timestamp(),
    {
        self.timestamp
    }
}

/// The error of reading a message.
#[derive(Clone, Copy, Debug, PartialEq, Eq, Structural)]
pub enum Error {
    /// The text does not read as a message.
    Parse,
    /// The engine handed over no message.
    RawMessageIsNull,
}

impl Error {
    /// A sentence that describes the error.
    pub fn message(&self) -> (r: &'static str)
        ensures
            *self == Error::Parse ==> r@ == "Can't parse message."@,
            *self == Error::RawMessageIsNull ==> r@ == "Raw message is null."@,
    {
        match self {
            Error::Parse => "Can't parse message.",
            Error::RawMessageIsNull => "Raw message is null.",
        }
    }
}

} // verus!
