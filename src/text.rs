//! The text form of messages: elements written one after another, separated by single spaces.
//! A number is written with an optional `-`, its integer digits and, when it has decimals, a `.`
//! and exactly that many decimal digits; a bang is written `bang`; a symbol is written as it is.
//! Reading splits the text at blanks and reads each word back: `bang`, a number, or else a
//! symbol.
use vstd::prelude::*;

use crate::message::{elements_view, Decimal, ElementView, MessageElement};

verus! {

/// Whether `c` separates words.
pub open spec fn is_blank(c: char) -> bool {
    c == ' ' || c == '\t' || c == '\n' || c == '\r'
}

/// Whether `c` is a decimal digit.
pub open spec fn is_digit(c: char) -> bool {
    '0' <= c && c <= '9'
}

/// The digit that writes `d`, for `d` below ten.
pub open spec fn digit_char(d: nat) -> char {
    if d == 0 {
        '0'
    } else if d == 1 {
        '1'
    } else if d == 2 {
        '2'
    } else if d == 3 {
        '3'
    } else if d == 4 {
        '4'
    } else if d == 5 {
        '5'
    } else if d == 6 {
        '6'
    } else if d == 7 {
        '7'
    } else if d == 8 {
        '8'
    } else {
        '9'
    }
}

/// The value of the digit `c`.
pub open spec fn digit_value(c: char) -> nat {
    if c == '0' {
        0
    } else if c == '1' {
        1
    } else if c == '2' {
        2
    } else if c == '3' {
        3
    } else if c == '4' {
        4
    } else if c == '5' {
        5
    } else if c == '6' {
        6
    } else if c == '7' {
        7
    } else if c == '8' {
        8
    } else {
        9
    }
}

/// Ten to the power `k`.
pub open spec fn pow10(k: nat) -> nat
    decreases k,
{
    if k == 0 {
        1
    } else {
        10 * pow10((k - 1) as nat)
    }
}

/// The shortest digits that write `m`.
pub open spec fn digits(m: nat) -> Seq<char>
    decreases m,
{
    if m < 10 {
        seq![digit_char(m)]
    } else {
        digits(m / 10).push(digit_char(m % 10))
    }
}

/// The last `k` digits of `r`, with leading zeros.
pub open spec fn padded(r: nat, k: nat) -> Seq<char>
    decreases k,
{
    if k == 0 {
        Seq::empty()
    } else {
        padded(r / 10, (k - 1) as nat).push(digit_char(r % 10))
    }
}

/// The value of the digits `s`.
pub open spec fn value(s: Seq<char>) -> nat
    decreases s.len(),
{
    if s.len() == 0 {
        0
    } else {
        value(s.drop_last()) * 10 + digit_value(s.last())
    }
}

/// Whether every character of `s` is a digit.
pub open spec fn all_digits(s: Seq<char>) -> bool {
    forall|i: int| 0 <= i < s.len() ==> is_digit(#[trigger] s[i])
}

/// Whether no character of `s` is a blank.
pub open spec fn no_blanks(s: Seq<char>) -> bool {
    forall|i: int| 0 <= i < s.len() ==> !is_blank(#[trigger] s[i])
}

/// The text of the number `(-1)^negative * m / 10^scale`.
pub open spec fn number_text(negative: bool, m: nat, scale: nat) -> Seq<char> {
    (if negative {
        seq!['-']
    } else {
        Seq::empty()
    }) + digits(m / pow10(scale)) + (if scale == 0 {
        Seq::empty()
    } else {
        seq!['.'] + padded(m % pow10(scale), scale)
    })
}

/// The word `bang`.
pub open spec fn bang_text() -> Seq<char> {
    seq!['b', 'a', 'n', 'g']
}

/// The text of an element.
pub open spec fn element_text(e: ElementView) -> Seq<char> {
    match e {
        ElementView::Float(d) => number_text(d.spec_negative(), d.spec_magnitude(), d.spec_scale()),
        ElementView::Symbol(s) => s,
        ElementView::Bang => bang_text(),
    }
}

/// The words `words`, separated by single spaces.
pub open spec fn join(words: Seq<Seq<char>>) -> Seq<char>
    decreases words.len(),
{
    if words.len() == 0 {
        Seq::empty()
    } else if words.len() == 1 {
        words[0]
    } else {
        words[0] + seq![' '] + join(words.drop_first())
    }
}

/// The text of a list of elements.
pub open spec fn render(elements: Seq<ElementView>) -> Seq<char> {
    join(elements.map_values(|e: ElementView| element_text(e)))
}

/// The length of the word that `s` starts with.
pub open spec fn word_len(s: Seq<char>) -> nat
    decreases s.len(),
{
    if s.len() == 0 || is_blank(s[0]) {
        0
    } else {
        1 + word_len(s.drop_first())
    }
}

/// The words of `s`, in order: its longest runs of characters that are not blanks.
pub open spec fn split(s: Seq<char>) -> Seq<Seq<char>>
    decreases s.len(),
{
    if s.len() == 0 {
        Seq::empty()
    } else if is_blank(s[0]) {
        split(s.drop_first())
    } else {
        let n = word_len(s);
        if 0 < n <= s.len() {
            seq![s.take(n as int)] + split(s.skip(n as int))
        } else {
            Seq::empty()
        }
    }
}

/// The number of digits that `s` starts with.
pub open spec fn leading_digits(s: Seq<char>) -> nat
    decreases s.len(),
{
    if s.len() == 0 || !is_digit(s[0]) {
        0
    } else {
        1 + leading_digits(s.drop_first())
    }
}

/// The most digits that a number of a message may have.
pub const MAX_DIGITS: usize = 19;

/// The word `t` read as a number: its sign, its digits read as one integer, and how many of them
/// stand after the decimal point; nothing when `t` is not a number.
pub open spec fn number_of(t: Seq<char>) -> Option<(bool, Seq<char>, nat)> {
    let negative = t.len() > 0 && t[0] == '-';
    let body = if negative {
        t.drop_first()
    } else {
        t
    };
    let n = leading_digits(body);
    if n == 0 {
        None
    } else if n == body.len() {
        Some((negative, body, 0))
    } else if body[n as int] == '.' && body.len() > n + 1 && leading_digits(body.skip(n + 1int))
        == body.len() - n - 1 {
        Some((negative, body.take(n as int) + body.skip(n + 1int), (body.len() - n - 1) as nat))
    } else {
        None
    }
}

/// The element that the word `t` reads as: `bang`, a number of at most [`MAX_DIGITS`] digits,
/// or a symbol; nothing for a longer number.
pub open spec fn parse_word(t: Seq<char>) -> Option<ElementView> {
    if t == bang_text() {
        Some(ElementView::Bang)
    } else {
        match number_of(t) {
            Some((negative, ds, scale)) => if ds.len() <= MAX_DIGITS {
                Some(ElementView::Float(Decimal::spec_from_parts(negative, value(ds), scale)))
            } else {
                None
            },
            None => Some(ElementView::Symbol(t)),
        }
    }
}

/// The elements that the text `s` reads as: nothing when it has no word, or a word that reads as
/// nothing.
pub open spec fn parse(s: Seq<char>) -> Option<Seq<ElementView>> {
    let words = split(s);
    if words.len() > 0 && forall|i: int| 0 <= i < words.len() ==> (#[trigger] parse_word(words[i])) is Some {
        Some(words.map_values(|w: Seq<char>| parse_word(w)->Some_0))
    } else {
        None
    }
}

/// Whether `s` is written as itself and read back as a symbol: a word that is not `bang` and not
/// a number.
pub open spec fn is_plain_symbol(s: Seq<char>) -> bool {
    &&& s.len() > 0
    &&& no_blanks(s)
    &&& s != bang_text()
    &&& number_of(s) is None
}

/// Whether `e` has a text that reads back as `e`.
pub open spec fn is_textual(e: ElementView) -> bool {
    match e {
        ElementView::Float(d) => d.wf() && digits(d.spec_magnitude() / pow10(d.spec_scale())).len()
            + d.spec_scale() <= MAX_DIGITS,
        ElementView::Symbol(s) => is_plain_symbol(s),
        ElementView::Bang => true,
    }
}

// ---- digits ----

proof fn lemma_pow10_pos(k: nat)
    ensures
        pow10(k) > 0,
    decreases k,
{
    if k > 0 {
        lemma_pow10_pos((k - 1) as nat);
    }
}

proof fn lemma_digit_char(d: nat)
    requires
        d < 10,
    ensures
        is_digit(digit_char(d)),
        digit_value(digit_char(d)) == d,
{
}

proof fn lemma_digits(m: nat)
    ensures
        digits(m).len() > 0,
        all_digits(digits(m)),
        value(digits(m)) == m,
    decreases m,
{
    if m < 10 {
        lemma_digit_char(m);
        assert(seq![digit_char(m)].drop_last() =~= Seq::<char>::empty());
        assert(value(Seq::<char>::empty()) == 0);
        assert(value(digits(m)) == value(digits(m).drop_last()) * 10 + digit_value(digits(m).last()));
    } else {
        lemma_digits(m / 10);
        lemma_digit_char(m % 10);
        let s = digits(m);
        assert(s.drop_last() =~= digits(m / 10));
        assert(s.last() == digit_char(m % 10));
        assert(value(s) == value(digits(m / 10)) * 10 + digit_value(digit_char(m % 10)));
        assert(m == (m / 10) * 10 + m % 10);
        assert forall|i: int| 0 <= i < s.len() implies is_digit(#[trigger] s[i]) by {
            if i < s.len() - 1 {
                assert(s[i] == digits(m / 10)[i]);
            }
        }
    }
}

proof fn lemma_padded(r: nat, k: nat)
    ensures
        padded(r, k).len() == k,
        all_digits(padded(r, k)),
        value(padded(r, k)) == r % pow10(k),
    decreases k,
{
    if k > 0 {
        let k1 = (k - 1) as nat;
        lemma_padded(r / 10, k1);
        lemma_digit_char(r % 10);
        lemma_pow10_pos(k1);
        let s = padded(r, k);
        assert(s.drop_last() =~= padded(r / 10, k1));
        assert forall|i: int| 0 <= i < s.len() implies is_digit(#[trigger] s[i]) by {
            if i < s.len() - 1 {
                assert(s[i] == padded(r / 10, k1)[i]);
            }
        }
        // (r / 10) % 10^(k-1) * 10 + r % 10 == r % 10^k
        let p = pow10(k1);
        assert(((r / 10) % p) * 10 + r % 10 == r % (10 * p)) by {
            vstd::arithmetic::div_mod::lemma_breakdown(r as int, 10, p as int);
            vstd::arithmetic::mul::lemma_mul_is_commutative(10, p as int);
            vstd::arithmetic::mul::lemma_mul_is_commutative(10, ((r / 10) % p) as int);
        }
    }
}

proof fn lemma_value_concat(a: Seq<char>, b: Seq<char>)
    ensures
        value(a + b) == value(a) * pow10(b.len()) + value(b),
    decreases b.len(),
{
    if b.len() == 0 {
        assert(a + b =~= a);
        assert(value(b) == 0);
        assert(pow10(b.len()) == 1);
    } else {
        lemma_value_concat(a, b.drop_last());
        assert((a + b).drop_last() =~= a + b.drop_last());
        assert((a + b).last() == b.last());
        let x = value(a);
        let p = pow10((b.len() - 1) as nat);
        let y = value(b.drop_last());
        let z = digit_value(b.last());
        assert(pow10(b.len()) == 10 * p);
        assert(value(a + b) == value((a + b).drop_last()) * 10 + digit_value((a + b).last()));
        assert(value(a + b) == (x * p + y) * 10 + z);
        assert(value(b) == y * 10 + z);
        assert((x * p + y) * 10 + z == x * (10 * p) + (y * 10 + z)) by (nonlinear_arith);
    }
}

proof fn lemma_leading_digits_concat(a: Seq<char>, b: Seq<char>)
    requires
        all_digits(a),
    ensures
        leading_digits(a + b) == a.len() + leading_digits(b),
    decreases a.len(),
{
    if a.len() == 0 {
        assert(a + b =~= b);
    } else {
        assert((a + b).drop_first() =~= a.drop_first() + b);
        assert(is_digit(a[0]));
        lemma_leading_digits_concat(a.drop_first(), b);
    }
}

proof fn lemma_leading_digits_all(a: Seq<char>)
    requires
        all_digits(a),
    ensures
        leading_digits(a) == a.len(),
{
    lemma_leading_digits_concat(a, Seq::empty());
    assert(a + Seq::<char>::empty() =~= a);
}

/// A number within [`MAX_DIGITS`] digits reads back from its text.
#[verifier::rlimit(50)]
proof fn lemma_number_round_trip(d: Decimal)
    requires
        is_textual(ElementView::Float(d)),
    ensures
        parse_word(element_text(ElementView::Float(d))) == Some(ElementView::Float(d)),
{
    let neg = d.spec_negative();
    let m = d.spec_magnitude();
    let s = d.spec_scale();
    lemma_pow10_pos(s);
    let p = pow10(s);
    let q = m / p;
    let r = m % p;
    lemma_digits(q);
    lemma_padded(r, s);
    let sign: Seq<char> = if neg {
        seq!['-']
    } else {
        Seq::empty()
    };
    let tail: Seq<char> = if s == 0 {
        Seq::empty()
    } else {
        seq!['.'] + padded(r, s)
    };
    let t = element_text(ElementView::Float(d));
    assert(t == sign + digits(q) + tail);
    let body = digits(q) + tail;
    assert(t =~= sign + body);
    assert(t != bang_text()) by {
        if t == bang_text() {
            assert(t[0] == 'b');
            if neg {
                assert(t[0] == '-');
            } else {
                assert(t[0] == digits(q)[0]);
            }
        }
    }
    // the sign
    assert(body[0] == digits(q)[0]);
    assert((t.len() > 0 && t[0] == '-') == neg);
    if neg {
        assert(t.drop_first() =~= body);
    } else {
        assert(t =~= body);
    }
    lemma_leading_digits_concat(digits(q), tail);
    vstd::arithmetic::div_mod::lemma_fundamental_div_mod(m as int, p as int);
    vstd::arithmetic::div_mod::lemma_mod_pos_bound(m as int, p as int);
    vstd::arithmetic::div_mod::lemma_small_mod(r, p);
    assert(m == q * p + r) by (nonlinear_arith)
        requires
            m == p * q + r,
    ;
    if s == 0 {
        assert(tail =~= Seq::<char>::empty());
        assert(body =~= digits(q));
        assert(leading_digits(Seq::<char>::empty()) == 0);
        assert(p == 1);
        assert(r == 0);
        assert(q * p == q) by (nonlinear_arith)
            requires
                p == 1,
        ;
        assert(number_of(t) == Some((neg, body, 0nat)));
        assert(value(body) == m);
    } else {
        assert(leading_digits(tail) == 0) by {
            assert(tail[0] == '.');
        }
        let n = digits(q).len();
        assert(body[n as int] == '.');
        assert(body.skip(n + 1int) =~= padded(r, s));
        lemma_leading_digits_all(padded(r, s));
        assert(body.take(n as int) =~= digits(q));
        let ds = body.take(n as int) + body.skip(n + 1int);
        assert(number_of(t) == Some((neg, ds, s)));
        lemma_value_concat(digits(q), padded(r, s));
        assert(value(ds) == m);
    }
    assert(Decimal::spec_from_parts(neg, m, s) == d) by {
        Decimal::lemma_from_parts_of_wf(d);
    }
}

// ---- words ----

proof fn lemma_word_len_concat(a: Seq<char>, rest: Seq<char>)
    requires
        no_blanks(a),
        rest.len() == 0 || is_blank(rest[0]),
    ensures
        word_len(a + rest) == a.len(),
    decreases a.len(),
{
    if a.len() == 0 {
        assert(a + rest =~= rest);
    } else {
        assert((a + rest).drop_first() =~= a.drop_first() + rest);
        assert(!is_blank(a[0]));
        lemma_word_len_concat(a.drop_first(), rest);
    }
}

/// Words with no blank in them, none empty, joined by single spaces, split back into the same
/// words.
proof fn lemma_split_join(words: Seq<Seq<char>>)
    requires
        forall|i: int| 0 <= i < words.len() ==> (#[trigger] words[i]).len() > 0 && no_blanks(words[i]),
    ensures
        split(join(words)) == words,
    decreases words.len(),
{
    if words.len() == 0 {
        assert(split(Seq::<char>::empty()) =~= Seq::<Seq<char>>::empty());
    } else if words.len() == 1 {
        let w = words[0];
        lemma_word_len_concat(w, Seq::empty());
        assert(w + Seq::<char>::empty() =~= w);
        assert(w.take(w.len() as int) =~= w);
        assert(w.skip(w.len() as int) =~= Seq::<char>::empty());
        assert(split(Seq::<char>::empty()) =~= Seq::<Seq<char>>::empty());
        assert(!is_blank(w[0]));
        assert(join(words) == w);
        assert(split(w) == seq![w.take(w.len() as int)] + split(w.skip(w.len() as int)));
        assert(seq![w] + Seq::<Seq<char>>::empty() =~= words);
    } else {
        let w = words[0];
        let rest = seq![' '] + join(words.drop_first());
        let s = join(words);
        assert(s == w + rest);
        lemma_word_len_concat(w, rest);
        assert(s.take(w.len() as int) =~= w);
        assert(s.skip(w.len() as int) =~= rest);
        assert(rest.drop_first() =~= join(words.drop_first()));
        lemma_split_join(words.drop_first());
        assert(!is_blank(s[0]));
        assert(split(s) == seq![s.take(w.len() as int)] + split(s.skip(w.len() as int)));
        assert(is_blank(rest[0]));
        assert(split(rest) == split(rest.drop_first()));
        assert(split(rest) == split(join(words.drop_first())));
        assert(seq![w] + words.drop_first() =~= words);
    }
}

/// Elements that each have a text reading back as themselves: the text of the list reads back as
/// the same list.
pub proof fn lemma_render_parse(elements: Seq<ElementView>)
    requires
        elements.len() > 0,
        forall|i: int| 0 <= i < elements.len() ==> is_textual(#[trigger] elements[i]),
    ensures
        parse(render(elements)) == Some(elements),
{
    let words = elements.map_values(|e: ElementView| element_text(e));
    assert forall|i: int| 0 <= i < words.len() implies (#[trigger] words[i]).len() > 0 && no_blanks(
        words[i],
    ) by {
        lemma_word_textual(elements[i]);
    }
    lemma_split_join(words);
    assert forall|i: int| 0 <= i < words.len() implies #[trigger] parse_word(words[i]) == Some(
        elements[i],
    ) by {
        lemma_word_round_trip(elements[i]);
    }
    assert(words.map_values(|w: Seq<char>| parse_word(w)->Some_0) =~= elements);
}

proof fn lemma_word_textual(e: ElementView)
    requires
        is_textual(e),
    ensures
        element_text(e).len() > 0,
        no_blanks(element_text(e)),
{
    match e {
        ElementView::Float(d) => {
            let neg = d.spec_negative();
            let s = d.spec_scale();
            lemma_pow10_pos(s);
            let q = d.spec_magnitude() / pow10(s);
            let r = d.spec_magnitude() % pow10(s);
            lemma_digits(q);
            lemma_padded(r, s);
            let t = element_text(e);
            let sign: Seq<char> = if neg {
                seq!['-']
            } else {
                Seq::empty()
            };
            let tail: Seq<char> = if s == 0 {
                Seq::empty()
            } else {
                seq!['.'] + padded(r, s)
            };
            assert(t == sign + digits(q) + tail);
            assert forall|i: int| 0 <= i < t.len() implies !is_blank(#[trigger] t[i]) by {
                if i < sign.len() {
                    assert(t[i] == '-');
                } else if i < sign.len() + digits(q).len() {
                    assert(t[i] == digits(q)[i - sign.len()]);
                } else if i == sign.len() + digits(q).len() {
                    assert(t[i] == '.');
                } else {
                    assert(t[i] == padded(r, s)[i - sign.len() - digits(q).len() - 1]);
                }
            }
        },
        ElementView::Symbol(_) => {},
        ElementView::Bang => {},
    }
}

proof fn lemma_word_round_trip(e: ElementView)
    requires
        is_textual(e),
    ensures
        parse_word(element_text(e)) == Some(e),
{
    match e {
        ElementView::Float(d) => lemma_number_round_trip(d),
        ElementView::Symbol(_) => {},
        ElementView::Bang => {
            assert(number_of(bang_text()) is None) by {
                assert(!is_digit(bang_text()[0]));
                assert(leading_digits(bang_text()) == 0);
            }
        },
    }
}

} // verus!

verus! {

// ---- writing ----

proof fn lemma_pow10_monotone(i: nat, j: nat)
    requires
        i <= j,
    ensures
        pow10(i) <= pow10(j),
    decreases j - i,
{
    if i < j {
        lemma_pow10_monotone(i, (j - 1) as nat);
        lemma_pow10_pos((j - 1) as nat);
    }
}

proof fn lemma_pow10_18()
    ensures
        pow10(18) == 1_000_000_000_000_000_000,
{
    reveal_with_fuel(pow10, 19);
}

/// Ten to the power `k`.
pub fn pow10_u64(k: u32) -> (r: u64)
    requires
        k <= MAX_DIGITS,
    ensures
        r == pow10(k as nat),
{
    let mut r: u64 = 1;
    let mut i: u32 = 0;
    while i < k
        invariant
            i <= k <= MAX_DIGITS,
            r == pow10(i as nat),
        decreases k - i,
    {
        proof {
            lemma_pow10_monotone(i as nat, 18);
            lemma_pow10_18();
        }
        r = r * 10;
        i = i + 1;
    }
    r
}

fn digit_str(d: u64) -> (r: &'static str)
    requires
        d < 10,
    ensures
        r@ == seq![digit_char(d as nat)],
{
    proof {
        reveal_strlit("0");
        reveal_strlit("1");
        reveal_strlit("2");
        reveal_strlit("3");
        reveal_strlit("4");
        reveal_strlit("5");
        reveal_strlit("6");
        reveal_strlit("7");
        reveal_strlit("8");
        reveal_strlit("9");
    }
    let r = if d == 0 {
        "0"
    } else if d == 1 {
        "1"
    } else if d == 2 {
        "2"
    } else if d == 3 {
        "3"
    } else if d == 4 {
        "4"
    } else if d == 5 {
        "5"
    } else if d == 6 {
        "6"
    } else if d == 7 {
        "7"
    } else if d == 8 {
        "8"
    } else {
        "9"
    };
    assert(r@ =~= seq![digit_char(d as nat)]);
    r
}

fn append_digits(m: u64, out: &mut String)
    ensures
        final(out)@ == old(out)@ + digits(m as nat),
    decreases m,
{
    if m < 10 {
        out.append(digit_str(m));
    } else {
        append_digits(m / 10, out);
        out.append(digit_str(m % 10));
        assert(final(out)@ =~= old(out)@ + digits(m as nat));
    }
}

fn append_padded(r: u64, k: u32, out: &mut String)
    ensures
        final(out)@ == old(out)@ + padded(r as nat, k as nat),
    decreases k,
{
    if k == 0 {
        assert(old(out)@ + padded(r as nat, 0) =~= old(out)@);
    } else {
        append_padded(r / 10, k - 1, out);
        out.append(digit_str(r % 10));
        assert(final(out)@ =~= old(out)@ + padded(r as nat, k as nat));
    }
}

/// Writes the text of the number `d` after `out`.
pub fn append_number(d: Decimal, out: &mut String)
    ensures
        final(out)@ == old(out)@ + number_text(d.spec_negative(), d.spec_magnitude(), d.spec_scale()),
{
    proof {
        use_type_invariant(&d);
        reveal_strlit("-");
        reveal_strlit(".");
    }
    let ghost start = out@;
    let ghost sign: Seq<char> = if d.spec_negative() {
        seq!['-']
    } else {
        Seq::empty()
    };
    if d.is_negative() {
        out.append("-");
    }
    assert(out@ =~= start + sign);
    let s = d.scale();
    let m = d.magnitude();
    let p = pow10_u64(s);
    proof {
        lemma_pow10_pos(s as nat);
    }
    append_digits(m / p, out);
    if s > 0 {
        out.append(".");
        append_padded(m % p, s, out);
    }
    assert(out@ =~= start + number_text(d.spec_negative(), d.spec_magnitude(), d.spec_scale()));
}

/// Writes the text of the element `e` after `out`.
pub fn append_element(e: &MessageElement, out: &mut String)
    ensures
        final(out)@ == old(out)@ + element_text(e@),
{
    proof {
        reveal_strlit("bang");
    }
    match e {
        MessageElement::Float(d) => append_number(*d, out),
        MessageElement::Symbol(s) => out.append(s.as_str()),
        MessageElement::Bang => {
            out.append("bang");
            assert("bang"@ =~= bang_text());
        },
    }
}

proof fn lemma_join_push(words: Seq<Seq<char>>, w: Seq<char>)
    ensures
        join(words.push(w)) == if words.len() == 0 {
            w
        } else {
            join(words) + seq![' '] + w
        },
    decreases words.len(),
{
    if words.len() == 0 {
        assert(words.push(w) =~= seq![w]);
        assert(join(seq![w]) == w);
    } else if words.len() == 1 {
        assert(words.push(w).drop_first() =~= seq![w]);
        assert(join(seq![w]) == w);
        assert(join(words) == words[0]);
        assert(words.push(w)[0] == words[0]);
    } else {
        lemma_join_push(words.drop_first(), w);
        assert(words.push(w).drop_first() =~= words.drop_first().push(w));
        assert(words.push(w)[0] == words[0]);
        assert(join(words) == words[0] + seq![' '] + join(words.drop_first()));
        assert(words[0] + seq![' '] + (join(words.drop_first()) + seq![' '] + w) =~= words[0]
            + seq![' '] + join(words.drop_first()) + seq![' '] + w);
    }
}

/// The text of `elements`.
pub fn render_elements(elements: &Vec<MessageElement>) -> (r: String)
    ensures
        r@ == render(elements_view(elements@)),
{
    proof {
        reveal_strlit("");
        reveal_strlit(" ");
    }
    let ghost words = elements_view(elements@).map_values(|e: ElementView| element_text(e));
    let mut out = String::from_str("");
    let mut i: usize = 0;
    while i < elements.len()
        invariant
            i <= elements@.len(),
            words == elements_view(elements@).map_values(|e: ElementView| element_text(e)),
            out@ == join(words.take(i as int)),
        decreases elements@.len() - i,
    {
        proof {
            lemma_join_push(words.take(i as int), words[i as int]);
            assert(words.take(i + 1) =~= words.take(i as int).push(words[i as int]));
        }
        assert(words[i as int] == element_text(elements@[i as int]@));
        let ghost prev = out@;
        if i > 0 {
            out.append(" ");
            proof {
                reveal_strlit(" ");
            }
            assert(" "@ =~= seq![' ']);
        }
        append_element(&elements[i], &mut out);
        assert(out@ =~= if i == 0 {
            words[i as int]
        } else {
            prev + seq![' '] + words[i as int]
        });
        i = i + 1;
        assert(out@ =~= join(words.take(i as int)));
    }
    assert(words.take(i as int) =~= words);
    out
}

// ---- reading ----

fn is_blank_char(c: char) -> (r: bool)
    ensures
        r == is_blank(c),
{
    c == ' ' || c == '\t' || c == '\n' || c == '\r'
}

fn is_digit_char(c: char) -> (r: bool)
    ensures
        r == is_digit(c),
{
    '0' <= c && c <= '9'
}

fn digit_of(c: char) -> (r: u64)
    requires
        is_digit(c),
    ensures
        r == digit_value(c),
        r < 10,
{
    if c == '0' {
        0
    } else if c == '1' {
        1
    } else if c == '2' {
        2
    } else if c == '3' {
        3
    } else if c == '4' {
        4
    } else if c == '5' {
        5
    } else if c == '6' {
        6
    } else if c == '7' {
        7
    } else if c == '8' {
        8
    } else {
        9
    }
}

/// The words of `s`, in order.
pub fn split_words(s: &str) -> (r: Vec<String>)
    ensures
        r@.map_values(|w: String| w@) == split(s@),
{
    let n = s.unicode_len();
    let mut words: Vec<String> = Vec::new();
    let mut i: usize = 0;
    assert(s@.skip(0) =~= s@);
    while i < n
        invariant
            n == s@.len(),
            i <= n,
            words@.map_values(|w: String| w@) + split(s@.skip(i as int)) == split(s@),
        decreases n - i,
    {
        let ghost t = s@.skip(i as int);
        if is_blank_char(s.get_char(i)) {
            assert(t.drop_first() =~= s@.skip(i + 1));
            i = i + 1;
        } else {
            let mut j: usize = i + 1;
            while j < n && !is_blank_char(s.get_char(j))
                invariant
                    n == s@.len(),
                    i < j <= n,
                    no_blanks(s@.subrange(i as int, j as int)),
                decreases n - j,
            {
                j = j + 1;
                assert(no_blanks(s@.subrange(i as int, j as int))) by {
                    assert forall|k: int| 0 <= k < j - i implies !is_blank(
                        #[trigger] s@.subrange(i as int, j as int)[k],
                    ) by {
                        if k < j - 1 - i {
                            assert(s@.subrange(i as int, j as int)[k] == s@.subrange(
                                i as int,
                                j - 1,
                            )[k]);
                        }
                    }
                }
            }
            let ghost a = s@.subrange(i as int, j as int);
            let ghost rest = s@.skip(j as int);
            proof {
                assert(t =~= a + rest);
                lemma_word_len_concat(a, rest);
                assert(t.take(j - i) =~= a);
                assert(t.skip(j - i) =~= rest);
            }
            let w = s.substring_char(i, j).to_owned();
            let ghost before = words@.map_values(|w: String| w@);
            words.push(w);
            assert(words@.map_values(|w: String| w@) =~= before.push(a));
            assert(before.push(a) + split(rest) =~= before + (seq![a] + split(rest)));
            i = j;
        }
    }
    assert(split(s@.skip(n as int)) =~= Seq::<Seq<char>>::empty()) by {
        assert(s@.skip(n as int).len() == 0);
    }
    assert(words@.map_values(|w: String| w@) + Seq::<Seq<char>>::empty() =~= words@.map_values(
        |w: String| w@,
    ));
    words
}

fn scan_digits(w: &str, from: usize) -> (r: usize)
    requires
        from <= w@.len(),
    ensures
        from <= r <= w@.len(),
        leading_digits(w@.skip(from as int)) == r - from,
        all_digits(w@.subrange(from as int, r as int)),
{
    let n = w.unicode_len();
    let mut k: usize = from;
    while k < n && is_digit_char(w.get_char(k))
        invariant
            n == w@.len(),
            from <= k <= n,
            all_digits(w@.subrange(from as int, k as int)),
        decreases n - k,
    {
        k = k + 1;
        assert forall|i: int| 0 <= i < k - from implies is_digit(
            #[trigger] w@.subrange(from as int, k as int)[i],
        ) by {
            if i < k - 1 - from {
                assert(w@.subrange(from as int, k as int)[i] == w@.subrange(from as int, k - 1)[i]);
            }
        }
    }
    let ghost a = w@.subrange(from as int, k as int);
    let ghost rest = w@.skip(k as int);
    proof {
        assert(w@.skip(from as int) =~= a + rest);
        lemma_leading_digits_concat(a, rest);
    }
    k
}

/// Reads the digits `w[from..to]` after the value `acc` of `prefix`.
fn accumulate(w: &str, from: usize, to: usize, acc: u64, Ghost(prefix): Ghost<Seq<char>>) -> (r: u64)
    requires
        from <= to <= w@.len(),
        all_digits(w@.subrange(from as int, to as int)),
        acc == value(prefix),
        prefix.len() + (to - from) <= MAX_DIGITS,
        acc < pow10(prefix.len()),
    ensures
        r == value(prefix + w@.subrange(from as int, to as int)),
        r < pow10((prefix.len() + (to - from)) as nat),
{
    let mut a = acc;
    let mut k = from;
    while k < to
        invariant
            from <= k <= to <= w@.len(),
            all_digits(w@.subrange(from as int, to as int)),
            prefix.len() + (to - from) <= MAX_DIGITS,
            a == value(prefix + w@.subrange(from as int, k as int)),
            a < pow10((prefix.len() + (k - from)) as nat),
        decreases to - k,
    {
        let c = w.get_char(k);
        assert(w@.subrange(from as int, to as int)[k - from] == c);
        let d = digit_of(c);
        let ghost e = (prefix.len() + (k - from)) as nat;
        proof {
            lemma_pow10_monotone(e, 18);
            lemma_pow10_18();
            assert(a * 10 + d < pow10(e) * 10) by (nonlinear_arith)
                requires
                    a < pow10(e),
                    d < 10,
            ;
        }
        let ghost before = prefix + w@.subrange(from as int, k as int);
        a = a * 10 + d;
        k = k + 1;
        proof {
            let after = prefix + w@.subrange(from as int, k as int);
            assert(after.drop_last() =~= before);
            assert(after.last() == c);
        }
    }
    a
}

/// The element that the word `w` reads as.
pub fn read_word(w: &str) -> (r: Option<MessageElement>)
    ensures
        r is Some <==> parse_word(w@) is Some,
        r is Some ==> r->Some_0@ == parse_word(w@)->Some_0,
{
    proof {
        reveal_strlit("bang");
    }
    assert("bang"@ =~= bang_text());
    if crate::context::str_equal(w, "bang") {
        return Some(MessageElement::Bang);
    }
    let n = w.unicode_len();
    let negative = n > 0 && w.get_char(0) == '-';
    let start: usize = if negative {
        1
    } else {
        0
    };
    let ghost body = if negative {
        w@.drop_first()
    } else {
        w@
    };
    assert(body =~= w@.skip(start as int));
    let k = scan_digits(w, start);
    let symbol = Some(MessageElement::Symbol(w.to_owned()));
    if k == start {
        return symbol;
    }
    let nd = k - start;
    if k == n {
        assert(body =~= w@.subrange(start as int, k as int));
        if nd > MAX_DIGITS {
            return None;
        }
        assert(Seq::<char>::empty() + w@.subrange(start as int, k as int) =~= body);
        let v = accumulate(w, start, k, 0, Ghost(Seq::empty()));
        return Some(MessageElement::Float(Decimal::from_parts(negative, v, 0)));
    }
    assert(body[nd as int] == w@[k as int]);
    if w.get_char(k) != '.' || n <= k + 1 {
        return symbol;
    }
    let j = scan_digits(w, k + 1);
    assert(body.skip(nd + 1int) =~= w@.skip(k + 1int));
    if j < n {
        return symbol;
    }
    let ds_len = nd + (n - k - 1);
    let ghost int_part = w@.subrange(start as int, k as int);
    let ghost frac_part = w@.subrange(k + 1int, n as int);
    assert(body.take(nd as int) =~= int_part);
    assert(body.skip(nd + 1int) =~= frac_part);
    if ds_len > MAX_DIGITS {
        return None;
    }
    assert(Seq::<char>::empty() + int_part =~= int_part);
    let v0 = accumulate(w, start, k, 0, Ghost(Seq::empty()));
    let v = accumulate(w, k + 1, n, v0, Ghost(int_part));
    let scale = (n - k - 1) as u32;
    Some(MessageElement::Float(Decimal::from_parts(negative, v, scale)))
}

} // verus!
