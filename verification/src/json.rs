//! Streaming parser for a stream of concatenated structured-value documents,
//! and a builder that folds the parser's events into value trees.
//!
//! The parser is a recursive-descent grammar reshaped into an explicit state
//! machine: one `next` call produces one event, and a stack of saved states
//! stands in for the call stack, so parsing is driven one pull at a time.
//! After a complete document the state returns to `Undefined` and the same
//! instance parses the next document from where the character stream left off.
//! The whole machine is mirrored, step for step, by spec functions over
//! `PView`, and every method's contract says that the code computes exactly
//! what the mirror does.

use vstd::prelude::*;

verus! {

/// Exact decimal components of a numeric literal.
///
/// A value stands for `sign * (integer + fraction/10^fraction_len) * 10^(exp_sign * exponent)`,
/// where `sign` is `-1` when `negative` holds and `exp_sign` is `-1` when
/// `exponent_negative` holds. Keeping the components instead of a binary
/// floating-point value preserves the digits exactly as they were read.
/// Digit accumulation wraps at the component width, as an accumulator does.
#[derive(Clone, Copy, Debug, PartialEq, Eq, Structural)]
pub struct Number {
    pub negative: bool,
    pub integer: u64,
    pub fraction: u64,
    pub fraction_len: usize,
    pub exponent_negative: bool,
    pub exponent: u32,
}

impl Number {
    /// The number a plain unsigned integer stands for.
    pub fn from_u64(value: u64) -> (r: Number)
        ensures
            r == (Number {
                negative: false,
                integer: value,
                fraction: 0,
                fraction_len: 0,
                exponent_negative: false,
                exponent: 0,
            }),
    {
        Number {
            negative: false,
            integer: value,
            fraction: 0,
            fraction_len: 0,
            exponent_negative: false,
            exponent: 0,
        }
    }
}

/// The syntax violation a parse error reports: the exact expectation that failed.
#[derive(Clone, Copy, Debug, PartialEq, Eq, Structural)]
pub enum Error {
    ExpectedValue,
    ExpectedValueOrArrayEnd,
    ExpectedKeyOrObjectEnd,
    ExpectedColon,
    EOFWhileParsingString,
    EOFWhileParsingArray,
    EOFWhileParsingObject,
    EOFWhileParsingObjectKey,
    EOFWhileParsingObjectColon,
    EOFWhileParsingObjectValue,
    InvalidEscape,
    InvalidUnicodeCodePoint,
    LoneLeadingSurrogateInHexEscape,
    UnexpectedEndOfHexEscape,
    /// The catch-all violation of the number grammar: a missing digit, or a
    /// digit after a leading zero.
    ToDo,
}

/// The error attached to an `Error` event.
#[derive(Clone, Copy, Debug, PartialEq, Eq, Structural)]
pub enum ParserError {
    SyntaxError(Error),
    BrokenParser,
    IOError,
}

/// One parse event: scalar values, container boundaries, or a terminal error.
#[derive(Debug, Clone, PartialEq)]
pub enum JsonEvent {
    NullValue,
    BooleanValue(bool),
    NumberValue(Number),
    StringValue(String),
    ArrayBegin,
    ArrayEnd,
    ObjectBegin,
    ObjectEnd,
    Error(ParserError),
}

/// The machine's state between two pulls.
#[derive(Clone, Copy, Debug, PartialEq, Eq, Structural)]
pub enum ParserState {
    Undefined,
    Broken,
    ParseArray,
    ParseArrayMaybe,
    ParseObject,
    ParseObjectPair,
    ParseObjectMaybe,
}

/// A structured value: the tree a complete document builds into.
///
/// An object keeps its pairs in the order the document gave them; lookup
/// goes by name, and when a document repeats a name the latest pair wins.
#[derive(Debug)]
pub enum Value {
    Null,
    Bool(bool),
    Number(Number),
    String(String),
    List(Vec<Value>),
    Object(Vec<(String, Value)>),
}

/// The spec-level image of a `Value`.
pub ghost enum ValueS {
    Null,
    Bool(bool),
    Num(Number),
    Str(Seq<char>),
    List(Seq<ValueS>),
    Object(Seq<(Seq<char>, ValueS)>),
}

/// The spec-level image of a value tree.
pub open spec fn value_view(v: Value) -> ValueS
    decreases v, 0int,
    via value_view_dec
{
    match v {
        Value::Null => ValueS::Null,
        Value::Bool(b) => ValueS::Bool(b),
        Value::Number(n) => ValueS::Num(n),
        Value::String(s) => ValueS::Str(s@),
        Value::List(elems) => ValueS::List(views_of_list(elems@, 0)),
        Value::Object(pairs) => ValueS::Object(views_of_pairs(pairs@, 0)),
    }
}

/// The images of the elements of a list, from slot `i` on.
pub open spec fn views_of_list(elems: Seq<Value>, i: int) -> Seq<ValueS>
    decreases elems, elems.len() - i,
    via views_of_list_dec
{
    if 0 <= i < elems.len() {
        seq![value_view(elems[i])] + views_of_list(elems, i + 1)
    } else {
        Seq::empty()
    }
}

/// The images of the pairs of an object, from slot `i` on.
pub open spec fn views_of_pairs(pairs: Seq<(String, Value)>, i: int) -> Seq<(Seq<char>, ValueS)>
    decreases pairs, pairs.len() - i,
    via views_of_pairs_dec
{
    if 0 <= i < pairs.len() {
        seq![(pairs[i].0@, value_view(pairs[i].1))] + views_of_pairs(pairs, i + 1)
    } else {
        Seq::empty()
    }
}

#[via_fn]
proof fn value_view_dec(v: Value) {
    broadcast use vstd::std_specs::vec::group_vec_axioms;
    broadcast use vstd::seq::group_seq_axioms;

}

#[via_fn]
proof fn views_of_list_dec(elems: Seq<Value>, i: int) {
    broadcast use vstd::seq::group_seq_axioms;

}

#[via_fn]
proof fn views_of_pairs_dec(pairs: Seq<(String, Value)>, i: int) {
    broadcast use vstd::seq::group_seq_axioms;

}

impl View for Value {
    type V = ValueS;

    open spec fn view(&self) -> ValueS {
        value_view(*self)
    }
}

/// The last binding of a name among object pairs, as a map lookup would
/// see it.
pub open spec fn value_lookup_s(pairs: Seq<(Seq<char>, ValueS)>, name: Seq<char>) -> Option<ValueS>
    decreases pairs.len(),
{
    if pairs.len() == 0 {
        Option::None
    } else if pairs.last().0 == name {
        Option::Some(pairs.last().1)
    } else {
        value_lookup_s(pairs.drop_last(), name)
    }
}

/// The images of a pair list, slot by slot.
pub proof fn lemma_value_views_of_pairs_all(pairs: Seq<(String, Value)>)
    ensures
        views_of_pairs(pairs, 0).len() == pairs.len(),
        forall|j: int|
            0 <= j < pairs.len() ==> #[trigger] views_of_pairs(pairs, 0)[j] == (
                pairs[j].0@,
                value_view(pairs[j].1),
            ),
{
    lemma_value_views_of_pairs_index(pairs, 0);
    assert forall|j: int| 0 <= j < pairs.len() implies #[trigger] views_of_pairs(pairs, 0)[j] == (
        pairs[j].0@,
        value_view(pairs[j].1),
    ) by {
        assert(views_of_pairs(pairs, 0)[j - 0] == (pairs[j].0@, value_view(pairs[j].1)));
    }
}

proof fn lemma_value_views_of_pairs_index(pairs: Seq<(String, Value)>, i: int)
    requires
        0 <= i <= pairs.len(),
    ensures
        views_of_pairs(pairs, i).len() == pairs.len() - i,
        forall|j: int|
            i <= j < pairs.len() ==> #[trigger] views_of_pairs(pairs, i)[j - i] == (
                pairs[j].0@,
                value_view(pairs[j].1),
            ),
    decreases pairs.len() - i,
{
    broadcast use vstd::seq::group_seq_axioms;

    if i < pairs.len() {
        lemma_value_views_of_pairs_index(pairs, i + 1);
        assert forall|j: int| i <= j < pairs.len() implies #[trigger] views_of_pairs(pairs, i)[j
            - i] == (pairs[j].0@, value_view(pairs[j].1)) by {
            if j == i {
            } else {
                assert(views_of_pairs(pairs, i) == seq![(pairs[i].0@, value_view(pairs[i].1))]
                    + views_of_pairs(pairs, i + 1));
                assert((seq![(pairs[i].0@, value_view(pairs[i].1))] + views_of_pairs(pairs, i + 1))[
                    j - i] == views_of_pairs(pairs, i + 1)[j - i - 1]);
                assert(views_of_pairs(pairs, i + 1)[j - (i + 1)] == (pairs[j].0@, value_view(
                    pairs[j].1,
                )));
            }
        }
    }
}

impl Value {
    /// The value bound to a field name, if this value is an object that
    /// binds it; the latest binding wins.
    pub fn find(&self, key: &str) -> (r: Option<&Value>)
        ensures
            (match r {
                Option::Some(v) => (match *self {
                    Value::Object(_) => value_lookup_s(value_view(*self)->Object_0, key@)
                        == Option::Some(value_view(*v)),
                    _ => false,
                }),
                Option::None => (match *self {
                    Value::Object(_) => value_lookup_s(value_view(*self)->Object_0, key@) is None,
                    _ => true,
                }),
            }),
    {
        match self {
            Value::Object(pairs) => {
                proof {
                    lemma_value_views_of_pairs_all(pairs@);
                }
                let ghost view0 = views_of_pairs(pairs@, 0);
                let mut i: usize = pairs.len();
                proof {
                    assert(view0.take(i as int) =~= view0);
                }
                loop
                    invariant
                        *self == Value::Object(*pairs),
                        0 <= i <= pairs@.len(),
                        view0 == views_of_pairs(pairs@, 0),
                        view0.len() == pairs@.len(),
                        forall|j: int|
                            0 <= j < pairs@.len() ==> #[trigger] view0[j] == (
                                pairs@[j].0@,
                                value_view(pairs@[j].1),
                            ),
                        value_lookup_s(view0, key@) == value_lookup_s(
                            view0.take(i as int),
                            key@,
                        ),
                    ensures
                        i == 0,
                        value_lookup_s(view0, key@) is None,
                    decreases i,
                {
                    if i == 0 {
                        proof {
                            assert(view0.take(0) =~= Seq::<(Seq<char>, ValueS)>::empty());
                        }
                        break;
                    }
                    let k: &String = &pairs[i - 1].0;
                    if strings_equal(key, k.as_str()) {
                        proof {
                            assert(view0.take(i as int).last() == view0[i - 1]);
                        }
                        return Option::Some(&pairs[i - 1].1);
                    }
                    proof {
                        assert(view0.take(i as int).drop_last() =~= view0.take(i as int - 1));
                    }
                    i = i - 1;
                }
                Option::None
            },
            _ => Option::None,
        }
    }
}

/// The spec-level image of a `JsonEvent`: a string event is seen as its
/// character sequence.
pub ghost enum EventS {
    Null,
    Bool(bool),
    Num(Number),
    Str(Seq<char>),
    ArrayBegin,
    ArrayEnd,
    ObjectBegin,
    ObjectEnd,
    Error(ParserError),
}

impl View for JsonEvent {
    type V = EventS;

    open spec fn view(&self) -> EventS {
        match self {
            JsonEvent::NullValue => EventS::Null,
            JsonEvent::BooleanValue(b) => EventS::Bool(*b),
            JsonEvent::NumberValue(n) => EventS::Num(*n),
            JsonEvent::StringValue(s) => EventS::Str(s@),
            JsonEvent::ArrayBegin => EventS::ArrayBegin,
            JsonEvent::ArrayEnd => EventS::ArrayEnd,
            JsonEvent::ObjectBegin => EventS::ObjectBegin,
            JsonEvent::ObjectEnd => EventS::ObjectEnd,
            JsonEvent::Error(e) => EventS::Error(*e),
        }
    }
}

/// The spec-level image of an optional event, as `Parser::next` returns it.
pub open spec fn opt_event_view(e: Option<JsonEvent>) -> Option<EventS> {
    match e {
        Option::Some(ev) => Option::Some(ev@),
        Option::None => Option::None,
    }
}

/// The complete spec-level state of a parser: the input characters, the read
/// position, the one-character lookahead, whether that lookahead was consumed
/// by the last event, the machine state, and the stack of saved states.
pub ghost struct PView {
    pub input: Seq<char>,
    pub pos: int,
    pub ch: Option<char>,
    pub handled: bool,
    pub state: ParserState,
    pub stack: Seq<ParserState>,
}

/// The lookahead character, with the NUL character standing for "none".
pub open spec fn char_v(p: PView) -> char {
    match p.ch {
        Option::Some(c) => c,
        Option::None => '\0',
    }
}

/// End of input: the lookahead has run off the end.
pub open spec fn eof_v(p: PView) -> bool {
    p.ch is None
}

/// Reading one character: the lookahead moves forward, or runs off the end.
pub open spec fn bump_v(p: PView) -> PView {
    if p.pos < p.input.len() {
        PView { ch: Option::Some(p.input[p.pos]), pos: p.pos + 1, ..p }
    } else {
        PView { ch: Option::None, ..p }
    }
}

/// A state entered only between a container's begin and its end.
pub open spec fn is_container_state(s: ParserState) -> bool {
    s == ParserState::ParseArray || s == ParserState::ParseArrayMaybe
        || s == ParserState::ParseObject || s == ParserState::ParseObjectPair
        || s == ParserState::ParseObjectMaybe
}

/// Well-formedness of a parser state: the position is inside the input, the
/// lookahead is gone only at the end, and every saved state below the first
/// stack slot belongs to an enclosing container, so that closing a container
/// always finds a saved state to restore.
pub open spec fn wf_v(p: PView) -> bool {
    &&& 0 <= p.pos <= p.input.len()
    &&& (p.ch is None ==> p.pos == p.input.len())
    &&& (is_container_state(p.state) ==> p.stack.len() >= 1)
    &&& (forall|i: int|
        0 <= i < p.stack.len() && is_container_state(#[trigger] p.stack[i]) ==> i >= 1)
}

/// Ordering `1` before `0` for the termination measure: consuming the
/// lookahead or answering it both make progress.
pub open spec fn some_flag(p: PView) -> int {
    if p.ch is Some {
        1
    } else {
        0
    }
}

pub open spec fn is_ws_char(c: char) -> bool {
    c == ' ' || c == '\n' || c == '\t' || c == '\r'
}

pub open spec fn is_digit_char(c: char) -> bool {
    '0' as u32 <= c as u32 && c as u32 <= '9' as u32
}

pub open spec fn digit_val(c: char) -> u64 {
    (c as u32 - '0' as u32) as u64
}

/// Skipping whitespace: read until the lookahead is not a space character.
pub open spec fn spec_ws(p: PView) -> PView
    decreases p.input.len() - p.pos,
{
    if is_ws_char(char_v(p)) {
        if p.pos < p.input.len() {
            spec_ws(bump_v(p))
        } else {
            bump_v(p)
        }
    } else {
        p
    }
}

/// What `spec_ws` can do to a state: it only moves the lookahead forward.
pub proof fn lemma_ws_props(p: PView)
    ensures
        spec_ws(p).input == p.input,
        spec_ws(p).pos >= p.pos,
        spec_ws(p).state == p.state,
        spec_ws(p).stack == p.stack,
        spec_ws(p).handled == p.handled,
        spec_ws(p).pos == p.pos ==> (spec_ws(p) == p || spec_ws(p).ch is None),
        spec_ws(p).pos == p.pos || spec_ws(p).pos <= p.input.len(),
        wf_v(p) ==> wf_v(spec_ws(p)),
    decreases p.input.len() - p.pos,
{
    if is_ws_char(char_v(p)) {
        if p.pos < p.input.len() {
            lemma_ws_props(bump_v(p));
        }
    }
}

/// One accumulated decimal digit, wrapping at the accumulator width.
pub open spec fn wrap10_64(acc: u64, d: u64) -> u64 {
    (((acc as int) * 10 + d) % 0x1_0000_0000_0000_0000) as u64
}

/// One accumulated decimal digit of the exponent, wrapping at its width.
pub open spec fn wrap10_32(acc: u32, d: u32) -> u32 {
    (((acc as int) * 10 + d) % 0x1_0000_0000) as u32
}

/// The digit-accumulation loop: read digits into `acc` until the lookahead is
/// not a digit or the input ends.
pub open spec fn spec_digits_u64(p: PView, acc: u64) -> (PView, u64)
    decreases p.input.len() - p.pos,
{
    if eof_v(p) {
        (p, acc)
    } else if is_digit_char(char_v(p)) {
        let acc2 = wrap10_64(acc, digit_val(char_v(p)));
        if p.pos < p.input.len() {
            spec_digits_u64(bump_v(p), acc2)
        } else {
            (bump_v(p), acc2)
        }
    } else {
        (p, acc)
    }
}

/// The fraction-digit loop: like `spec_digits_u64`, also counting the digits.
pub open spec fn spec_digits_frac(p: PView, acc: u64, n: int) -> (PView, u64, int)
    decreases p.input.len() - p.pos,
{
    if eof_v(p) {
        (p, acc, n)
    } else if is_digit_char(char_v(p)) {
        let acc2 = wrap10_64(acc, digit_val(char_v(p)));
        if p.pos < p.input.len() {
            spec_digits_frac(bump_v(p), acc2, n + 1)
        } else {
            (bump_v(p), acc2, n + 1)
        }
    } else {
        (p, acc, n)
    }
}

/// The exponent-digit loop.
pub open spec fn spec_digits_u32(p: PView, acc: u32) -> (PView, u32)
    decreases p.input.len() - p.pos,
{
    if eof_v(p) {
        (p, acc)
    } else if is_digit_char(char_v(p)) {
        let acc2 = wrap10_32(acc, digit_val(char_v(p)) as u32);
        if p.pos < p.input.len() {
            spec_digits_u32(bump_v(p), acc2)
        } else {
            (bump_v(p), acc2)
        }
    } else {
        (p, acc)
    }
}

/// After all components are read: the lookahead was not consumed by the
/// number, and a number that ends the input inside a container is an error,
/// since its delimiter can never come.
pub open spec fn spec_number_tail(p: PView, num: Number) -> (Result<Number, ParserError>, PView) {
    let p1 = PView { handled: false, ..p };
    if eof_v(p1) && p1.state == ParserState::ParseArrayMaybe {
        (Result::Err(ParserError::SyntaxError(Error::EOFWhileParsingArray)), p1)
    } else if eof_v(p1) && p1.state == ParserState::ParseObjectMaybe {
        (Result::Err(ParserError::SyntaxError(Error::EOFWhileParsingObjectValue)), p1)
    } else {
        (Result::Ok(num), p1)
    }
}

/// The optional exponent: `e`/`E`, an optional sign, then at least one digit.
pub open spec fn spec_number_exp(p0: PView, neg: bool, integer: u64, frac: u64, flen: int) -> (
    Result<Number, ParserError>,
    PView,
) {
    if char_v(p0) == 'e' || char_v(p0) == 'E' {
        let p1 = bump_v(p0);
        let signed = if char_v(p1) == '+' {
            (false, bump_v(p1))
        } else if char_v(p1) == '-' {
            (true, bump_v(p1))
        } else {
            (false, p1)
        };
        let eneg = signed.0;
        let p2 = signed.1;
        if !is_digit_char(char_v(p2)) {
            (Result::Err(ParserError::SyntaxError(Error::ToDo)), p2)
        } else {
            let r = spec_digits_u32(p2, 0);
            spec_number_tail(
                r.0,
                Number {
                    negative: neg,
                    integer: integer,
                    fraction: frac,
                    fraction_len: flen as usize,
                    exponent_negative: eneg,
                    exponent: r.1,
                },
            )
        }
    } else {
        spec_number_tail(
            p0,
            Number {
                negative: neg,
                integer: integer,
                fraction: frac,
                fraction_len: flen as usize,
                exponent_negative: false,
                exponent: 0,
            },
        )
    }
}

/// The optional fraction: a dot must be followed by at least one digit.
pub open spec fn spec_number_frac(p0: PView, neg: bool, integer: u64) -> (
    Result<Number, ParserError>,
    PView,
) {
    if char_v(p0) == '.' {
        let p1 = bump_v(p0);
        if !is_digit_char(char_v(p1)) {
            (Result::Err(ParserError::SyntaxError(Error::ToDo)), p1)
        } else {
            let r = spec_digits_frac(p1, 0, 0);
            spec_number_exp(r.0, neg, integer, r.1, r.2)
        }
    } else {
        spec_number_exp(p0, neg, integer, 0, 0)
    }
}

/// The whole number grammar: optional minus, an integer part whose leading
/// zero must stand alone, then fraction and exponent.
pub open spec fn spec_number_impl(p0: PView) -> (Result<Number, ParserError>, PView) {
    let sign = if char_v(p0) == '-' {
        (true, bump_v(p0))
    } else {
        (false, p0)
    };
    let neg = sign.0;
    let p1 = sign.1;
    if char_v(p1) == '0' {
        let p2 = bump_v(p1);
        if is_digit_char(char_v(p2)) {
            (Result::Err(ParserError::SyntaxError(Error::ToDo)), p2)
        } else {
            spec_number_frac(p2, neg, 0)
        }
    } else if is_digit_char(char_v(p1)) {
        let r = spec_digits_u64(p1, 0);
        spec_number_frac(r.0, neg, r.1)
    } else {
        (Result::Err(ParserError::SyntaxError(Error::ToDo)), p1)
    }
}

/// A number event, or a syntax error that breaks the machine for good.
pub open spec fn spec_parse_number(p: PView) -> (EventS, PView) {
    let r = spec_number_impl(p);
    match r.0 {
        Result::Ok(n) => (EventS::Num(n), r.1),
        Result::Err(e) => (EventS::Error(e), PView { state: ParserState::Broken, ..r.1 }),
    }
}

pub open spec fn is_hex_char(c: char) -> bool {
    is_digit_char(c) || c == 'a' || c == 'A' || c == 'b' || c == 'B' || c == 'c' || c == 'C'
        || c == 'd' || c == 'D' || c == 'e' || c == 'E' || c == 'f' || c == 'F'
}

pub open spec fn hex_val(c: char) -> u16 {
    if is_digit_char(c) {
        digit_val(c) as u16
    } else if c == 'a' || c == 'A' {
        10
    } else if c == 'b' || c == 'B' {
        11
    } else if c == 'c' || c == 'C' {
        12
    } else if c == 'd' || c == 'D' {
        13
    } else if c == 'e' || c == 'E' {
        14
    } else {
        15
    }
}

/// The four-digit hex escape loop: each step reads one character and folds it
/// into the accumulator; anything but a hex digit, or running out of input,
/// is an invalid escape.
pub open spec fn spec_hex_loop(p: PView, n: u16, i: int) -> (Result<u16, ParserError>, PView)
    decreases 4 - i,
{
    if i < 4 && !eof_v(p) {
        let p1 = bump_v(p);
        if is_hex_char(char_v(p1)) {
            let n2 = ((n as int) * 16 + hex_val(char_v(p1))) as u16;
            spec_hex_loop(p1, n2, i + 1)
        } else {
            (Result::Err(ParserError::SyntaxError(Error::InvalidEscape)), p1)
        }
    } else if i != 4 {
        (Result::Err(ParserError::SyntaxError(Error::InvalidEscape)), p)
    } else {
        (Result::Ok(n), p)
    }
}

/// What the hex loop can do to the state: it never moves the position back,
/// and it never conjures a lookahead out of a finished input.
pub proof fn lemma_hex_props(p: PView, n: u16, i: int)
    ensures
        spec_hex_loop(p, n, i).1.input == p.input,
        spec_hex_loop(p, n, i).1.pos >= p.pos,
        spec_hex_loop(p, n, i).1.state == p.state,
        spec_hex_loop(p, n, i).1.stack == p.stack,
        spec_hex_loop(p, n, i).1.handled == p.handled,
        spec_hex_loop(p, n, i).1.pos == p.pos || spec_hex_loop(p, n, i).1.pos <= p.input.len(),
        spec_hex_loop(p, n, i).1.pos == p.pos ==> (spec_hex_loop(p, n, i).1 == p
            || spec_hex_loop(p, n, i).1.ch is None),
        wf_v(p) ==> wf_v(spec_hex_loop(p, n, i).1),
    decreases 4 - i,
{
    if i < 4 && !eof_v(p) {
        let p1 = bump_v(p);
        if is_hex_char(char_v(p1)) {
            lemma_hex_props(p1, ((n as int) * 16 + hex_val(char_v(p1))) as u16, i + 1);
        }
    }
}

/// A code point is a scalar value unless it falls in the surrogate range.
pub open spec fn from_u32_s(n: u32) -> Option<char> {
    if n < 0xD800 || (0xDFFF < n && n <= 0x10FFFF) {
        Option::Some(n as char)
    } else {
        Option::None
    }
}

/// The end-of-input error inside a string names the object key when one is
/// being parsed, so the diagnostic keeps that asymmetry.
pub open spec fn string_eof_error(p: PView) -> ParserError {
    if p.state == ParserState::ParseObjectPair {
        ParserError::SyntaxError(Error::EOFWhileParsingObjectKey)
    } else {
        ParserError::SyntaxError(Error::EOFWhileParsingString)
    }
}

/// The string-body loop: plain characters accumulate; a backslash arms the
/// escape flag; the recognized escapes map to their characters; a hex escape
/// decodes four digits, rejecting lone low surrogates; an unescaped quote
/// ends the string, consuming the lookahead.
pub open spec fn spec_string_loop(p: PView, acc: Seq<char>, escape: bool) -> (
    Result<Seq<char>, ParserError>,
    PView,
)
    decreases p.input.len() - p.pos, some_flag(p),
    via spec_string_loop_dec
{
    if eof_v(p) {
        (Result::Err(string_eof_error(p)), p)
    } else if escape {
        let c = char_v(p);
        if c == 'u' {
            let r = spec_hex_loop(p, 0, 0);
            match r.0 {
                Result::Err(e) => (Result::Err(e), r.1),
                Result::Ok(n) => if 0xDC00 <= n && n <= 0xDFFF {
                    (
                        Result::Err(
                            ParserError::SyntaxError(Error::LoneLeadingSurrogateInHexEscape),
                        ),
                        r.1,
                    )
                } else {
                    match from_u32_s(n as u32) {
                        Option::Some(u) => spec_string_loop(bump_v(r.1), acc.push(u), false),
                        Option::None => (
                            Result::Err(ParserError::SyntaxError(Error::InvalidUnicodeCodePoint)),
                            r.1,
                        ),
                    }
                },
            }
        } else if c == '"' || c == '\\' || c == '/' || c == 'b' || c == 'f' || c == 'n' || c == 'r'
            || c == 't' {
            spec_string_loop(bump_v(p), acc.push(escape_char(c)), false)
        } else {
            (Result::Err(ParserError::SyntaxError(Error::InvalidEscape)), p)
        }
    } else if char_v(p) == '\\' {
        spec_string_loop(bump_v(p), acc, true)
    } else if char_v(p) == '"' {
        (Result::Ok(acc), PView { handled: true, ..p })
    } else {
        spec_string_loop(bump_v(p), acc.push(char_v(p)), false)
    }
}

#[via_fn]
proof fn spec_string_loop_dec(p: PView, acc: Seq<char>, escape: bool) {
    if !eof_v(p) && escape && char_v(p) == 'u' {
        lemma_hex_props(p, 0, 0);
    }
}

/// The character an escape sequence stands for.
pub open spec fn escape_char(c: char) -> char {
    if c == 'b' {
        '\u{8}'
    } else if c == 'f' {
        '\u{c}'
    } else if c == 'n' {
        '\n'
    } else if c == 'r' {
        '\r'
    } else if c == 't' {
        '\t'
    } else {
        c
    }
}

/// A string event, or a syntax error that breaks the machine for good.
pub open spec fn spec_parse_string(p: PView) -> (EventS, PView) {
    let r = spec_string_loop(p, Seq::empty(), false);
    match r.0 {
        Result::Ok(s) => (EventS::Str(s), r.1),
        Result::Err(e) => (EventS::Error(e), PView { state: ParserState::Broken, ..r.1 }),
    }
}

/// Completing a keyword: the remaining characters must each match, and the
/// closing lookahead is consumed; any mismatch is a syntax error.
pub open spec fn spec_complete(p: PView, ident: Seq<char>, ev: EventS) -> (EventS, PView)
    decreases ident.len(),
{
    if ident.len() == 0 {
        (ev, PView { handled: true, ..p })
    } else {
        let p1 = bump_v(p);
        if char_v(p1) == ident[0] {
            spec_complete(p1, ident.drop_first(), ev)
        } else {
            (
                EventS::Error(ParserError::SyntaxError(Error::ExpectedValue)),
                PView { state: ParserState::Broken, ..p1 },
            )
        }
    }
}

/// Dispatch on the lookahead: keywords, numbers, strings, or a container
/// begin, which saves the current state on the stack and switches into the
/// container's own state.
pub open spec fn spec_parse_value(p: PView) -> (EventS, PView) {
    let c = char_v(p);
    if c == 'n' {
        spec_complete(p, seq!['u', 'l', 'l'], EventS::Null)
    } else if c == 't' {
        spec_complete(p, seq!['r', 'u', 'e'], EventS::Bool(true))
    } else if c == 'f' {
        spec_complete(p, seq!['a', 'l', 's', 'e'], EventS::Bool(false))
    } else if c == '-' || is_digit_char(c) {
        spec_parse_number(p)
    } else if c == '"' {
        spec_parse_string(bump_v(p))
    } else if c == '[' {
        (
            EventS::ArrayBegin,
            PView {
                stack: p.stack.push(p.state),
                state: ParserState::ParseArray,
                handled: true,
                ..p
            },
        )
    } else if c == '{' {
        (
            EventS::ObjectBegin,
            PView {
                stack: p.stack.push(p.state),
                state: ParserState::ParseObject,
                handled: true,
                ..p
            },
        )
    } else {
        (
            EventS::Error(ParserError::SyntaxError(Error::ExpectedValue)),
            PView { state: ParserState::Broken, ..p },
        )
    }
}

/// Inside an array: a close bracket restores the saved state; a comma is only
/// allowed after an element and is followed by the next element; anything
/// else is read as an element.
pub open spec fn spec_parse_array(p: PView, first: bool) -> (EventS, PView)
    decreases p.input.len() - p.pos, some_flag(p), 1int,
    via spec_parse_array_dec
{
    let p1 = spec_ws(p);
    if eof_v(p1) {
        (
            EventS::Error(ParserError::SyntaxError(Error::EOFWhileParsingArray)),
            PView { state: ParserState::Broken, ..p1 },
        )
    } else {
        let c = char_v(p1);
        if c == ']' {
            (
                EventS::ArrayEnd,
                PView {
                    state: p1.stack.last(),
                    stack: p1.stack.drop_last(),
                    handled: true,
                    ..p1
                },
            )
        } else if c == ',' {
            let p2 = bump_v(p1);
            if first {
                (
                    EventS::Error(ParserError::SyntaxError(Error::ExpectedValueOrArrayEnd)),
                    PView { state: ParserState::Broken, ..p2 },
                )
            } else {
                spec_parse_array(p2, false)
            }
        } else {
            spec_parse_value(PView { state: ParserState::ParseArrayMaybe, ..p1 })
        }
    }
}

#[via_fn]
proof fn spec_parse_array_dec(p: PView, first: bool) {
    lemma_ws_props(p);
}

/// Inside an object: a close brace restores the saved state; a quote starts a
/// key, remembering that a pair is under way; a comma is only allowed after a
/// pair; anything else is a syntax error.
pub open spec fn spec_parse_object(p: PView, first: bool) -> (EventS, PView)
    decreases p.input.len() - p.pos, some_flag(p), 1int,
    via spec_parse_object_dec
{
    let p1 = spec_ws(p);
    if eof_v(p1) {
        (
            EventS::Error(ParserError::SyntaxError(Error::EOFWhileParsingObject)),
            PView { state: ParserState::Broken, ..p1 },
        )
    } else {
        let c = char_v(p1);
        if c == '}' {
            (
                EventS::ObjectEnd,
                PView {
                    state: p1.stack.last(),
                    stack: p1.stack.drop_last(),
                    handled: true,
                    ..p1
                },
            )
        } else if c == '"' {
            spec_parse_string(bump_v(PView { state: ParserState::ParseObjectPair, ..p1 }))
        } else if c == ',' {
            let p2 = bump_v(p1);
            if first {
                (
                    EventS::Error(ParserError::SyntaxError(Error::ExpectedKeyOrObjectEnd)),
                    PView { state: ParserState::Broken, ..p2 },
                )
            } else {
                spec_parse_object(p2, false)
            }
        } else {
            (
                EventS::Error(ParserError::SyntaxError(Error::ExpectedKeyOrObjectEnd)),
                PView { state: ParserState::Broken, ..p1 },
            )
        }
    }
}

#[via_fn]
proof fn spec_parse_object_dec(p: PView, first: bool) {
    lemma_ws_props(p);
}

/// After an object key: a colon, then the pair's value.
pub open spec fn spec_parse_object_value(p: PView) -> (EventS, PView) {
    let p1 = spec_ws(p);
    if eof_v(p1) {
        (
            EventS::Error(ParserError::SyntaxError(Error::EOFWhileParsingObjectColon)),
            PView { state: ParserState::Broken, ..p1 },
        )
    } else if char_v(p1) != ':' {
        (
            EventS::Error(ParserError::SyntaxError(Error::ExpectedColon)),
            PView { state: ParserState::Broken, ..p1 },
        )
    } else {
        let p2 = spec_ws(bump_v(p1));
        if eof_v(p2) {
            (
                EventS::Error(ParserError::SyntaxError(Error::EOFWhileParsingObjectValue)),
                PView { state: ParserState::Broken, ..p2 },
            )
        } else {
            spec_parse_value(PView { state: ParserState::ParseObjectMaybe, ..p2 })
        }
    }
}

/// One step of the machine, dispatching on the saved state. In the
/// `Undefined` state spaces between documents are skipped, and a clean end of
/// input ends the event stream; a broken machine repeats its terminal error.
pub open spec fn spec_parse(p: PView) -> (Option<EventS>, PView) {
    match p.state {
        ParserState::Undefined => {
            let p1 = spec_ws(p);
            if eof_v(p1) {
                (Option::None, p1)
            } else {
                let r = spec_parse_value(p1);
                (Option::Some(r.0), r.1)
            }
        },
        ParserState::Broken => (Option::Some(EventS::Error(ParserError::BrokenParser)), p),
        ParserState::ParseArray => {
            let r = spec_parse_array(p, true);
            (Option::Some(r.0), r.1)
        },
        ParserState::ParseArrayMaybe => {
            let r = spec_parse_array(p, false);
            (Option::Some(r.0), r.1)
        },
        ParserState::ParseObject => {
            let r = spec_parse_object(p, true);
            (Option::Some(r.0), r.1)
        },
        ParserState::ParseObjectPair => {
            let r = spec_parse_object_value(p);
            (Option::Some(r.0), r.1)
        },
        ParserState::ParseObjectMaybe => {
            let r = spec_parse_object(p, false);
            (Option::Some(r.0), r.1)
        },
    }
}

/// One pull: a broken machine answers at once; otherwise, if the last event
/// consumed the lookahead, the next character is read first, and the machine
/// takes one step.
pub open spec fn spec_next(p: PView) -> (Option<EventS>, PView) {
    if p.state == ParserState::Broken {
        (Option::Some(EventS::Error(ParserError::BrokenParser)), p)
    } else if p.handled {
        spec_parse(PView { handled: false, ..bump_v(p) })
    } else {
        spec_parse(p)
    }
}

/// How much work one pull can still do before the machine must either stop
/// or repeat a terminal error: once the lookahead is gone nothing is left;
/// otherwise reading costs four, losing the lookahead two, and answering an
/// unconsumed lookahead one.
pub open spec fn measure_of(p: PView) -> int {
    if p.ch is None {
        0
    } else {
        4 * (p.input.len() - p.pos) + 2 + (if p.handled {
            0int
        } else {
            1
        })
    }
}

proof fn lemma_bump_measure(p: PView)
    requires
        wf_v(p),
    ensures
        wf_v(bump_v(p)),
        measure_of(bump_v(p)) <= measure_of(p),
        p.ch is Some ==> measure_of(bump_v(p)) <= measure_of(p) - 2,
{
}

proof fn lemma_ws_measure(p: PView)
    requires
        wf_v(p),
    ensures
        measure_of(spec_ws(p)) <= measure_of(p),
    decreases p.input.len() - p.pos,
{
    if is_ws_char(char_v(p)) {
        if p.pos < p.input.len() {
            lemma_bump_measure(p);
            lemma_ws_measure(bump_v(p));
        }
    }
}

proof fn lemma_digits_u64_props(p: PView, acc: u64)
    ensures
        spec_digits_u64(p, acc).0.input == p.input,
        spec_digits_u64(p, acc).0.state == p.state,
        spec_digits_u64(p, acc).0.stack == p.stack,
        spec_digits_u64(p, acc).0.handled == p.handled,
        wf_v(p) ==> wf_v(spec_digits_u64(p, acc).0),
        wf_v(p) ==> measure_of(spec_digits_u64(p, acc).0) <= measure_of(p),
        wf_v(p) && !eof_v(p) && is_digit_char(char_v(p)) ==> measure_of(
            spec_digits_u64(p, acc).0,
        ) <= measure_of(p) - 2,
    decreases p.input.len() - p.pos,
{
    if !eof_v(p) && is_digit_char(char_v(p)) {
        if wf_v(p) {
            lemma_bump_measure(p);
        }
        let acc2 = wrap10_64(acc, digit_val(char_v(p)));
        if p.pos < p.input.len() {
            lemma_digits_u64_props(bump_v(p), acc2);
        }
    }
}

proof fn lemma_digits_frac_props(p: PView, acc: u64, n: int)
    ensures
        spec_digits_frac(p, acc, n).0.input == p.input,
        spec_digits_frac(p, acc, n).0.state == p.state,
        spec_digits_frac(p, acc, n).0.stack == p.stack,
        spec_digits_frac(p, acc, n).0.handled == p.handled,
        wf_v(p) ==> wf_v(spec_digits_frac(p, acc, n).0),
        wf_v(p) ==> measure_of(spec_digits_frac(p, acc, n).0) <= measure_of(p),
    decreases p.input.len() - p.pos,
{
    if !eof_v(p) && is_digit_char(char_v(p)) {
        if wf_v(p) {
            lemma_bump_measure(p);
        }
        let acc2 = wrap10_64(acc, digit_val(char_v(p)));
        if p.pos < p.input.len() {
            lemma_digits_frac_props(bump_v(p), acc2, n + 1);
        }
    }
}

proof fn lemma_digits_u32_props(p: PView, acc: u32)
    ensures
        spec_digits_u32(p, acc).0.input == p.input,
        spec_digits_u32(p, acc).0.state == p.state,
        spec_digits_u32(p, acc).0.stack == p.stack,
        spec_digits_u32(p, acc).0.handled == p.handled,
        wf_v(p) ==> wf_v(spec_digits_u32(p, acc).0),
        wf_v(p) ==> measure_of(spec_digits_u32(p, acc).0) <= measure_of(p),
    decreases p.input.len() - p.pos,
{
    if !eof_v(p) && is_digit_char(char_v(p)) {
        if wf_v(p) {
            lemma_bump_measure(p);
        }
        let acc2 = wrap10_32(acc, digit_val(char_v(p)) as u32);
        if p.pos < p.input.len() {
            lemma_digits_u32_props(bump_v(p), acc2);
        }
    }
}

proof fn lemma_hex_measure(p: PView, n: u16, i: int)
    requires
        wf_v(p),
    ensures
        wf_v(spec_hex_loop(p, n, i).1),
        measure_of(spec_hex_loop(p, n, i).1) <= measure_of(p),
    decreases 4 - i,
{
    if i < 4 && !eof_v(p) {
        lemma_bump_measure(p);
        let p1 = bump_v(p);
        if is_hex_char(char_v(p1)) {
            lemma_hex_measure(p1, ((n as int) * 16 + hex_val(char_v(p1))) as u16, i + 1);
        }
    }
}

proof fn lemma_string_props(p: PView, acc: Seq<char>, escape: bool)
    requires
        !p.handled,
        wf_v(p),
    ensures
        spec_string_loop(p, acc, escape).1.input == p.input,
        spec_string_loop(p, acc, escape).1.state == p.state,
        spec_string_loop(p, acc, escape).1.stack == p.stack,
        wf_v(spec_string_loop(p, acc, escape).1),
        measure_of(spec_string_loop(p, acc, escape).1) <= measure_of(p),
        spec_string_loop(p, acc, escape).0 is Ok ==> measure_of(spec_string_loop(p, acc, escape).1)
            < measure_of(p),
    decreases p.input.len() - p.pos, some_flag(p),
{
    if !eof_v(p) {
        if escape && char_v(p) == 'u' {
            lemma_hex_props(p, 0, 0);
            lemma_hex_measure(p, 0, 0);
            let r = spec_hex_loop(p, 0, 0);
            if r.0 is Ok {
                let n = r.0->Ok_0;
                if !(0xDC00 <= n && n <= 0xDFFF) && from_u32_s(n as u32) is Some {
                    lemma_bump_measure(r.1);
                    let u = from_u32_s(n as u32)->0;
                    if r.1.pos < p.input.len() {
                        lemma_string_props(bump_v(r.1), acc.push(u), false);
                    } else {
                        lemma_string_props(bump_v(r.1), acc.push(u), false);
                    }
                }
            }
        } else if escape {
            let c = char_v(p);
            if c == '"' || c == '\\' || c == '/' || c == 'b' || c == 'f' || c == 'n' || c == 'r'
                || c == 't' {
                lemma_bump_measure(p);
                lemma_string_props(bump_v(p), acc.push(escape_char(c)), false);
            }
        } else if char_v(p) == '\\' {
            lemma_bump_measure(p);
            lemma_string_props(bump_v(p), acc, true);
        } else if char_v(p) == '"' {
        } else {
            lemma_bump_measure(p);
            lemma_string_props(bump_v(p), acc.push(char_v(p)), false);
        }
    }
}

proof fn lemma_complete_props(p: PView, ident: Seq<char>, ev: EventS)
    requires
        !p.handled,
        wf_v(p),
    ensures
        spec_complete(p, ident, ev).1.input == p.input,
        spec_complete(p, ident, ev).1.stack == p.stack,
        wf_v(spec_complete(p, ident, ev).1),
        measure_of(spec_complete(p, ident, ev).1) <= measure_of(p),
        !(ev is Error) && spec_complete(p, ident, ev).0 is Error ==> spec_complete(
            p,
            ident,
            ev,
        ).1.state == ParserState::Broken,
        p.ch is Some && ident.len() > 0 && !(spec_complete(p, ident, ev).0 is Error)
            ==> measure_of(spec_complete(p, ident, ev).1) < measure_of(p),
    decreases ident.len(),
{
    if ident.len() > 0 {
        lemma_bump_measure(p);
        let p1 = bump_v(p);
        if char_v(p1) == ident[0] {
            lemma_complete_props(p1, ident.drop_first(), ev);
        }
    }
}

proof fn lemma_number_tail_props(p: PView, num: Number)
    requires
        !p.handled,
        wf_v(p),
    ensures
        spec_number_tail(p, num).1 == (PView { handled: false, ..p }),
        wf_v(spec_number_tail(p, num).1),
        measure_of(spec_number_tail(p, num).1) == measure_of(p),
{
}

proof fn lemma_number_exp_props(p: PView, neg: bool, integer: u64, frac: u64, flen: int)
    requires
        !p.handled,
        wf_v(p),
    ensures
        spec_number_exp(p, neg, integer, frac, flen).1.input == p.input,
        spec_number_exp(p, neg, integer, frac, flen).1.state == p.state,
        spec_number_exp(p, neg, integer, frac, flen).1.stack == p.stack,
        spec_number_exp(p, neg, integer, frac, flen).1.handled == false,
        wf_v(spec_number_exp(p, neg, integer, frac, flen).1),
        measure_of(spec_number_exp(p, neg, integer, frac, flen).1) <= measure_of(p),
{
    if char_v(p) == 'e' || char_v(p) == 'E' {
        lemma_bump_measure(p);
        let p1 = bump_v(p);
        lemma_bump_measure(p1);
        let p2 = if char_v(p1) == '+' || char_v(p1) == '-' {
            bump_v(p1)
        } else {
            p1
        };
        lemma_digits_u32_props(p2, 0);
        if is_digit_char(char_v(p2)) {
            let q = spec_digits_u32(p2, 0).0;
            lemma_number_tail_props(
                q,
                Number {
                    negative: neg,
                    integer: integer,
                    fraction: frac,
                    fraction_len: flen as usize,
                    exponent_negative: char_v(p1) == '-',
                    exponent: spec_digits_u32(p2, 0).1,
                },
            );
        }
    } else {
        lemma_number_tail_props(
            p,
            Number {
                negative: neg,
                integer: integer,
                fraction: frac,
                fraction_len: flen as usize,
                exponent_negative: false,
                exponent: 0,
            },
        );
    }
}

proof fn lemma_number_frac_props(p: PView, neg: bool, integer: u64)
    requires
        !p.handled,
        wf_v(p),
    ensures
        spec_number_frac(p, neg, integer).1.input == p.input,
        spec_number_frac(p, neg, integer).1.state == p.state,
        spec_number_frac(p, neg, integer).1.stack == p.stack,
        spec_number_frac(p, neg, integer).1.handled == false,
        wf_v(spec_number_frac(p, neg, integer).1),
        measure_of(spec_number_frac(p, neg, integer).1) <= measure_of(p),
{
    if char_v(p) == '.' {
        lemma_bump_measure(p);
        let p1 = bump_v(p);
        if is_digit_char(char_v(p1)) {
            lemma_digits_frac_props(p1, 0, 0);
            let r = spec_digits_frac(p1, 0, 0);
            lemma_number_exp_props(r.0, neg, integer, r.1, r.2);
        }
    } else {
        lemma_number_exp_props(p, neg, integer, 0, 0);
    }
}

proof fn lemma_number_props(p: PView)
    requires
        !p.handled,
        wf_v(p),
    ensures
        spec_number_impl(p).1.input == p.input,
        spec_number_impl(p).1.state == p.state,
        spec_number_impl(p).1.stack == p.stack,
        wf_v(spec_number_impl(p).1),
        measure_of(spec_number_impl(p).1) <= measure_of(p),
        (char_v(p) == '-' || is_digit_char(char_v(p))) && spec_number_impl(p).0 is Ok
            ==> measure_of(spec_number_impl(p).1) < measure_of(p),
{
    lemma_bump_measure(p);
    let p1 = if char_v(p) == '-' {
        bump_v(p)
    } else {
        p
    };
    if char_v(p1) == '0' {
        lemma_bump_measure(p1);
        let p2 = bump_v(p1);
        if !is_digit_char(char_v(p2)) {
            lemma_number_frac_props(p2, char_v(p) == '-', 0);
        }
    } else if is_digit_char(char_v(p1)) {
        lemma_digits_u64_props(p1, 0);
        let r = spec_digits_u64(p1, 0);
        lemma_number_frac_props(r.0, char_v(p) == '-', r.1);
    }
}

proof fn lemma_value_props(p: PView)
    requires
        !p.handled,
        wf_v(p),
    ensures
        spec_parse_value(p).1.input == p.input,
        wf_v(spec_parse_value(p).1),
        measure_of(spec_parse_value(p).1) <= measure_of(p),
        !(spec_parse_value(p).0 is Error) ==> measure_of(spec_parse_value(p).1) < measure_of(p),
        spec_parse_value(p).0 is Error ==> spec_parse_value(p).1.state == ParserState::Broken,
    decreases 0int,
{
    let c = char_v(p);
    if c == 'n' {
        lemma_complete_props(p, seq!['u', 'l', 'l'], EventS::Null);
    } else if c == 't' {
        lemma_complete_props(p, seq!['r', 'u', 'e'], EventS::Bool(true));
    } else if c == 'f' {
        lemma_complete_props(p, seq!['a', 'l', 's', 'e'], EventS::Bool(false));
    } else if c == '-' || is_digit_char(c) {
        lemma_number_props(p);
    } else if c == '"' {
        lemma_bump_measure(p);
        lemma_string_props(bump_v(p), Seq::empty(), false);
    } else if c == '[' || c == '{' {
        let q = spec_parse_value(p).1;
        assert forall|i: int|
            0 <= i < q.stack.len() && is_container_state(#[trigger] q.stack[i]) implies i
            >= 1 by {
            if i < p.stack.len() {
                assert(q.stack[i] == p.stack[i]);
            }
        }
    } else {
    }
}

proof fn lemma_array_props(p: PView, first: bool)
    requires
        !p.handled,
        wf_v(p),
        is_container_state(p.state),
    ensures
        spec_parse_array(p, first).1.input == p.input,
        wf_v(spec_parse_array(p, first).1),
        measure_of(spec_parse_array(p, first).1) <= measure_of(p),
        !(spec_parse_array(p, first).0 is Error) ==> measure_of(spec_parse_array(p, first).1)
            < measure_of(p),
        spec_parse_array(p, first).0 is Error ==> spec_parse_array(p, first).1.state
            == ParserState::Broken,
    decreases p.input.len() - p.pos, some_flag(p), 1int,
{
    lemma_ws_props(p);
    lemma_ws_measure(p);
    let p1 = spec_ws(p);
    if !eof_v(p1) {
        let c = char_v(p1);
        if c == ']' {
            let q = spec_parse_array(p, first).1;
            assert(q.stack =~= p1.stack.drop_last());
            assert forall|i: int|
                0 <= i < q.stack.len() && is_container_state(#[trigger] q.stack[i]) implies i
                >= 1 by {
                assert(q.stack[i] == p1.stack[i]);
            }
            assert(is_container_state(q.state) ==> q.stack.len() >= 1) by {
                if is_container_state(q.state) {
                    assert(p1.stack[p1.stack.len() - 1] == q.state);
                }
            }
        } else if c == ',' {
            lemma_bump_measure(p1);
            if !first {
                lemma_array_props(bump_v(p1), false);
            }
        } else {
            lemma_value_props(PView { state: ParserState::ParseArrayMaybe, ..p1 });
        }
    }
}

proof fn lemma_object_props(p: PView, first: bool)
    requires
        !p.handled,
        wf_v(p),
        is_container_state(p.state),
    ensures
        spec_parse_object(p, first).1.input == p.input,
        wf_v(spec_parse_object(p, first).1),
        measure_of(spec_parse_object(p, first).1) <= measure_of(p),
        !(spec_parse_object(p, first).0 is Error) ==> measure_of(spec_parse_object(p, first).1)
            < measure_of(p),
        spec_parse_object(p, first).0 is Error ==> spec_parse_object(p, first).1.state
            == ParserState::Broken,
    decreases p.input.len() - p.pos, some_flag(p), 1int,
{
    lemma_ws_props(p);
    lemma_ws_measure(p);
    let p1 = spec_ws(p);
    if !eof_v(p1) {
        let c = char_v(p1);
        if c == '}' {
            let q = spec_parse_object(p, first).1;
            assert(q.stack =~= p1.stack.drop_last());
            assert forall|i: int|
                0 <= i < q.stack.len() && is_container_state(#[trigger] q.stack[i]) implies i
                >= 1 by {
                assert(q.stack[i] == p1.stack[i]);
            }
            assert(is_container_state(q.state) ==> q.stack.len() >= 1) by {
                if is_container_state(q.state) {
                    assert(p1.stack[p1.stack.len() - 1] == q.state);
                }
            }
        } else if c == '"' {
            lemma_bump_measure(PView { state: ParserState::ParseObjectPair, ..p1 });
            lemma_string_props(
                bump_v(PView { state: ParserState::ParseObjectPair, ..p1 }),
                Seq::empty(),
                false,
            );
        } else if c == ',' {
            lemma_bump_measure(p1);
            if !first {
                lemma_object_props(bump_v(p1), false);
            }
        } else {
        }
    }
}

proof fn lemma_object_value_props(p: PView)
    requires
        !p.handled,
        wf_v(p),
        is_container_state(p.state),
    ensures
        spec_parse_object_value(p).1.input == p.input,
        wf_v(spec_parse_object_value(p).1),
        measure_of(spec_parse_object_value(p).1) <= measure_of(p),
        !(spec_parse_object_value(p).0 is Error) ==> measure_of(spec_parse_object_value(p).1)
            < measure_of(p),
        spec_parse_object_value(p).0 is Error ==> spec_parse_object_value(p).1.state
            == ParserState::Broken,
{
    lemma_ws_props(p);
    lemma_ws_measure(p);
    let p1 = spec_ws(p);
    if !eof_v(p1) && char_v(p1) == ':' {
        lemma_bump_measure(p1);
        lemma_ws_props(bump_v(p1));
        lemma_ws_measure(bump_v(p1));
        let p2 = spec_ws(bump_v(p1));
        if !eof_v(p2) {
            lemma_value_props(PView { state: ParserState::ParseObjectMaybe, ..p2 });
        }
    }
}

proof fn lemma_parse_props(p: PView)
    requires
        !p.handled,
        wf_v(p),
    ensures
        spec_parse(p).1.input == p.input,
        wf_v(spec_parse(p).1),
        measure_of(spec_parse(p).1) <= measure_of(p),
        (match spec_parse(p).0 {
            Option::Some(ev) => !(ev is Error) ==> measure_of(spec_parse(p).1) < measure_of(p),
            Option::None => true,
        }),
        (match spec_parse(p).0 {
            Option::Some(ev) => ev is Error ==> spec_parse(p).1.state == ParserState::Broken,
            Option::None => true,
        }),
{
    match p.state {
        ParserState::Undefined => {
            lemma_ws_props(p);
            lemma_ws_measure(p);
            let p1 = spec_ws(p);
            if !eof_v(p1) {
                lemma_value_props(p1);
            }
        },
        ParserState::Broken => {},
        ParserState::ParseArray => lemma_array_props(p, true),
        ParserState::ParseArrayMaybe => lemma_array_props(p, false),
        ParserState::ParseObject => lemma_object_props(p, true),
        ParserState::ParseObjectPair => lemma_object_value_props(p),
        ParserState::ParseObjectMaybe => lemma_object_props(p, false),
    }
}

/// What one pull does to the machine as a whole: the input never changes,
/// well-formedness is kept, the measure never grows, any event that is not an
/// error strictly shrinks it, and any error event leaves the machine broken.
pub proof fn lemma_next_props(p: PView)
    requires
        wf_v(p),
    ensures
        spec_next(p).1.input == p.input,
        wf_v(spec_next(p).1),
        measure_of(spec_next(p).1) <= measure_of(p),
        (match spec_next(p).0 {
            Option::Some(ev) => !(ev is Error) ==> measure_of(spec_next(p).1) < measure_of(p),
            Option::None => true,
        }),
        (match spec_next(p).0 {
            Option::Some(ev) => ev is Error ==> spec_next(p).1.state == ParserState::Broken,
            Option::None => true,
        }),
{
    if p.state != ParserState::Broken {
        if p.handled {
            lemma_bump_measure(p);
            lemma_parse_props(PView { handled: false, ..bump_v(p) });
        } else {
            lemma_parse_props(p);
        }
    }
}

/// Once broken, always broken: every further pull yields the same terminal
/// error and leaves the machine exactly as it is.
pub proof fn lemma_broken_forever(p: PView)
    requires
        p.state == ParserState::Broken,
    ensures
        spec_next(p) == (Option::Some(EventS::Error(ParserError::BrokenParser)), p),
{
}

/// The view of a freshly built parser over the given characters.
pub open spec fn initial_view(input: Seq<char>) -> PView {
    PView {
        input: input,
        pos: 0,
        ch: Option::Some('\0'),
        handled: true,
        state: ParserState::Undefined,
        stack: Seq::empty(),
    }
}

fn is_digit(c: char) -> (b: bool)
    ensures
        b == is_digit_char(c),
{
    let u = c as u32;
    '0' as u32 <= u && u <= '9' as u32
}

fn digit(c: char) -> (d: u64)
    requires
        is_digit_char(c),
    ensures
        d == digit_val(c),
{
    (c as u32 - '0' as u32) as u64
}

fn is_hex(c: char) -> (b: bool)
    ensures
        b == is_hex_char(c),
{
    is_digit(c) || c == 'a' || c == 'A' || c == 'b' || c == 'B' || c == 'c' || c == 'C'
        || c == 'd' || c == 'D' || c == 'e' || c == 'E' || c == 'f' || c == 'F'
}

fn hex_of(c: char) -> (d: u16)
    requires
        is_hex_char(c),
    ensures
        d == hex_val(c),
{
    if is_digit(c) {
        (c as u32 - '0' as u32) as u16
    } else if c == 'a' || c == 'A' {
        10
    } else if c == 'b' || c == 'B' {
        11
    } else if c == 'c' || c == 'C' {
        12
    } else if c == 'd' || c == 'D' {
        13
    } else if c == 'e' || c == 'E' {
        14
    } else {
        15
    }
}

fn wrap10_u64(acc: u64, d: u64) -> (r: u64)
    ensures
        r == wrap10_64(acc, d),
{
    let t: u128 = (acc as u128) * 10 + (d as u128);
    let m: u128 = t % 0x1_0000_0000_0000_0000u128;
    assert(m < 0x1_0000_0000_0000_0000) by (nonlinear_arith)
        requires
            m == t % 0x1_0000_0000_0000_0000u128,
    ;
    m as u64
}

fn wrap10_u32(acc: u32, d: u32) -> (r: u32)
    ensures
        r == wrap10_32(acc, d),
{
    let t: u64 = (acc as u64) * 10 + (d as u64);
    let m: u64 = t % 0x1_0000_0000u64;
    assert(m < 0x1_0000_0000) by (nonlinear_arith)
        requires
            m == t % 0x1_0000_0000u64,
    ;
    m as u32
}

/// Relies on String::push: appends exactly the one character.
#[verifier::external_body]
pub(crate) fn push_char(s: &mut String, c: char)
    ensures
        final(s)@ == old(s)@.push(c),
{
    s.push(c);
}

/// Relies on String::push_str: appends the other text's characters.
#[verifier::external_body]
pub(crate) fn push_str_to(s: &mut String, t: &str)
    ensures
        final(s)@ == old(s)@ + t@,
{
    s.push_str(t);
}

/// Relies on str::chars: the characters of the text, in order.
#[verifier::external_body]
pub(crate) fn str_chars(s: &str) -> (r: Vec<char>)
    ensures
        r@ == s@,
{
    s.chars().collect()
}

/// Relies on str's equality: true exactly when the character sequences
/// match.
#[verifier::external_body]
pub(crate) fn strings_equal(a: &str, b: &str) -> (r: bool)
    ensures
        r == (a@ == b@),
{
    a == b
}

/// Relies on char::from_u32: yields the character for every code point at or
/// below 0x10FFFF outside the surrogate range, and nothing otherwise.
#[verifier::external_body]
fn char_from_u32(n: u32) -> (r: Option<char>)
    ensures
        r == from_u32_s(n),
{
    char::from_u32(n)
}

/// The streaming parser: the input characters, the read position, the
/// one-character lookahead, and the machine state with its stack.
pub struct Parser {
    reader: Vec<char>,
    pos: usize,
    ch: Option<char>,
    handled: bool,
    state: ParserState,
    stack: Vec<ParserState>,
}

impl View for Parser {
    type V = PView;

    closed spec fn view(&self) -> PView {
        PView {
            input: self.reader@,
            pos: self.pos as int,
            ch: self.ch,
            handled: self.handled,
            state: self.state,
            stack: self.stack@,
        }
    }
}

impl Parser {
    /// The invariant every method of the machine preserves.
    pub open spec fn wf(&self) -> bool {
        wf_v(self@)
    }

    /// A parser over the given characters, ready to pull the first document.
    pub fn new(reader: Vec<char>) -> (p: Parser)
        ensures
            p@ == initial_view(reader@),
            p.wf(),
    {
        Parser {
            reader: reader,
            pos: 0,
            ch: Option::Some('\0'),
            handled: true,
            state: ParserState::Undefined,
            stack: Vec::new(),
        }
    }

    fn bump(&mut self)
        requires
            wf_v(old(self)@),
        ensures
            final(self)@ == bump_v(old(self)@),
            wf_v(final(self)@),
    {
        if self.pos < self.reader.len() {
            self.ch = Option::Some(self.reader[self.pos]);
            self.pos = self.pos + 1;
        } else {
            self.ch = Option::None;
        }
    }

    fn eof(&self) -> (r: bool)
        ensures
            r == eof_v(self@),
    {
        self.ch.is_none()
    }

    fn char(&self) -> (c: char)
        ensures
            c == char_v(self@),
    {
        match self.ch {
            Option::Some(c) => c,
            Option::None => '\0',
        }
    }

    fn next_char(&mut self) -> (c: Option<char>)
        requires
            wf_v(old(self)@),
        ensures
            final(self)@ == bump_v(old(self)@),
            c == Option::Some(char_v(bump_v(old(self)@))),
            wf_v(final(self)@),
    {
        self.bump();
        Option::Some(self.char())
    }

    fn whitespaces(&mut self)
        requires
            wf_v(old(self)@),
        ensures
            final(self)@ == spec_ws(old(self)@),
            wf_v(final(self)@),
    {
        loop
            invariant
                wf_v(self@),
                spec_ws(self@) == spec_ws(old(self)@),
            ensures
                wf_v(self@),
                spec_ws(self@) == spec_ws(old(self)@),
                !is_ws_char(char_v(self@)),
            decreases self.reader@.len() - self.pos, some_flag(self@),
        {
            let c = self.char();
            if c == ' ' || c == '\n' || c == '\t' || c == '\r' {
                self.bump();
            } else {
                break;
            }
        }
    }

    fn syntax_error(&mut self, error: Error) -> (r: JsonEvent)
        requires
            wf_v(old(self)@),
        ensures
            final(self)@ == (PView { state: ParserState::Broken, ..old(self)@ }),
            r@ == EventS::Error(ParserError::SyntaxError(error)),
            wf_v(final(self)@),
    {
        self.state = ParserState::Broken;
        JsonEvent::Error(ParserError::SyntaxError(error))
    }

    fn complete(&mut self, ident: &[char], value: JsonEvent) -> (r: JsonEvent)
        requires
            wf_v(old(self)@),
        ensures
            r@ == spec_complete(old(self)@, ident@, value@).0,
            final(self)@ == spec_complete(old(self)@, ident@, value@).1,
            wf_v(final(self)@),
    {
        let ghost goal = spec_complete(old(self)@, ident@, value@);
        assert(ident@.skip(0) =~= ident@);
        let mut i: usize = 0;
        loop
            invariant
                wf_v(self@),
                0 <= i <= ident@.len(),
                goal == spec_complete(old(self)@, ident@, value@),
                spec_complete(self@, ident@.skip(i as int), value@) == goal,
            ensures
                wf_v(self@),
                i == ident@.len(),
                spec_complete(self@, ident@.skip(i as int), value@) == goal,
            decreases ident@.len() - i,
        {
            if i >= ident.len() {
                break;
            }
            match self.next_char() {
                Option::Some(c) => {
                    assert(ident@.skip(i as int)[0] == ident@[i as int]);
                    if c != ident[i] {
                        self.state = ParserState::Broken;
                        return JsonEvent::Error(ParserError::SyntaxError(Error::ExpectedValue));
                    }
                },
                Option::None => {
                    assert(false);
                },
            }
            i = i + 1;
            assert(ident@.skip(i as int - 1).drop_first() =~= ident@.skip(i as int));
        }
        assert(ident@.skip(i as int) =~= Seq::<char>::empty());
        self.handled = true;
        value
    }

    #[verifier::rlimit(100)]
    fn parse_number_impl(&mut self) -> (r: Result<Number, ParserError>)
        requires
            wf_v(old(self)@),
        ensures
            r == spec_number_impl(old(self)@).0,
            final(self)@ == spec_number_impl(old(self)@).1,
            wf_v(final(self)@),
    {
        let negative: bool = if self.char() == '-' {
            self.bump();
            true
        } else {
            false
        };

        // Integer part: a leading zero must be the only digit before the dot.
        let mut integer: u64 = 0;
        let c0 = self.char();
        if c0 == '0' {
            self.bump();
            if is_digit(self.char()) {
                return Result::Err(ParserError::SyntaxError(Error::ToDo));
            }
        } else if is_digit(c0) {
            let ghost pd = self@;
            loop
                invariant
                    wf_v(self@),
                    spec_digits_u64(self@, integer) == spec_digits_u64(pd, 0),
                ensures
                    wf_v(self@),
                    (self@, integer) == spec_digits_u64(pd, 0),
                decreases self.reader@.len() - self.pos, some_flag(self@),
            {
                if self.eof() {
                    break;
                }
                let c = self.char();
                if is_digit(c) {
                    integer = wrap10_u64(integer, digit(c));
                } else {
                    break;
                }
                self.bump();
            }
        } else {
            return Result::Err(ParserError::SyntaxError(Error::ToDo));
        }
        assert(spec_number_impl(old(self)@) == spec_number_frac(self@, negative, integer));
        let ghost frac_from = self@;

        // Fraction: a dot must be followed by at least one digit.
        let mut fraction: u64 = 0;
        let mut fraction_len: usize = 0;
        if self.char() == '.' {
            self.bump();
            if !is_digit(self.char()) {
                return Result::Err(ParserError::SyntaxError(Error::ToDo));
            }
            let ghost pf = self@;
            assert(pf.pos >= 1);
            loop
                invariant
                    wf_v(self@),
                    pf.pos >= 1,
                    self@.input == pf.input,
                    fraction_len as int <= self.pos - pf.pos + 1,
                    self@.ch is Some ==> fraction_len as int <= self.pos - pf.pos,
                    spec_digits_frac(self@, fraction, fraction_len as int) == spec_digits_frac(
                        pf,
                        0,
                        0,
                    ),
                ensures
                    wf_v(self@),
                    (self@, fraction, fraction_len as int) == spec_digits_frac(pf, 0, 0),
                decreases self.reader@.len() - self.pos, some_flag(self@),
            {
                if self.eof() {
                    break;
                }
                let c = self.char();
                if is_digit(c) {
                    fraction = wrap10_u64(fraction, digit(c));
                } else {
                    break;
                }
                self.bump();
                fraction_len = fraction_len + 1;
            }
        }
        assert(spec_number_frac(frac_from, negative, integer) == spec_number_exp(
            self@,
            negative,
            integer,
            fraction,
            fraction_len as int,
        ));
        let ghost exp_from = self@;

        // Exponent: `e`/`E`, an optional sign, then at least one digit.
        let mut exponent: u32 = 0;
        let mut exp_negative: bool = false;
        let ce = self.char();
        if ce == 'e' || ce == 'E' {
            self.bump();
            let cs = self.char();
            if cs == '+' {
                self.bump();
            } else if cs == '-' {
                exp_negative = true;
                self.bump();
            }
            if !is_digit(self.char()) {
                return Result::Err(ParserError::SyntaxError(Error::ToDo));
            }
            let ghost pe = self@;
            loop
                invariant
                    wf_v(self@),
                    spec_digits_u32(self@, exponent) == spec_digits_u32(pe, 0),
                ensures
                    wf_v(self@),
                    (self@, exponent) == spec_digits_u32(pe, 0),
                decreases self.reader@.len() - self.pos, some_flag(self@),
            {
                if self.eof() {
                    break;
                }
                let c = self.char();
                if is_digit(c) {
                    exponent = wrap10_u32(exponent, digit(c) as u32);
                } else {
                    break;
                }
                self.bump();
            }
        }
        let num = Number {
            negative: negative,
            integer: integer,
            fraction: fraction,
            fraction_len: fraction_len,
            exponent_negative: exp_negative,
            exponent: exponent,
        };
        assert(spec_number_exp(exp_from, negative, integer, fraction, fraction_len as int)
            == spec_number_tail(self@, num));

        // A number that runs to the end of input inside a container is an
        // error: its closing delimiter can never come.
        self.handled = false;
        if self.eof() {
            if self.state == ParserState::ParseArrayMaybe {
                return Result::Err(ParserError::SyntaxError(Error::EOFWhileParsingArray));
            }
            if self.state == ParserState::ParseObjectMaybe {
                return Result::Err(ParserError::SyntaxError(Error::EOFWhileParsingObjectValue));
            }
        }
        Result::Ok(num)
    }

    #[verifier::rlimit(50)]
    fn parse_number(&mut self) -> (r: JsonEvent)
        requires
            wf_v(old(self)@),
        ensures
            r@ == spec_parse_number(old(self)@).0,
            final(self)@ == spec_parse_number(old(self)@).1,
            wf_v(final(self)@),
    {
        match self.parse_number_impl() {
            Result::Ok(n) => JsonEvent::NumberValue(n),
            Result::Err(e) => {
                self.state = ParserState::Broken;
                JsonEvent::Error(e)
            },
        }
    }

    #[verifier::rlimit(50)]
    fn decode_hex_escape(&mut self) -> (r: Result<u16, ParserError>)
        requires
            wf_v(old(self)@),
        ensures
            r == spec_hex_loop(old(self)@, 0, 0).0,
            final(self)@ == spec_hex_loop(old(self)@, 0, 0).1,
            wf_v(final(self)@),
    {
        let mut i: usize = 0;
        let mut n: u16 = 0;
        loop
            invariant
                wf_v(self@),
                0 <= i <= 4,
                (n as int) < (if i == 0 {
                    1int
                } else if i == 1 {
                    16
                } else if i == 2 {
                    256
                } else if i == 3 {
                    4096
                } else {
                    65536
                }),
                spec_hex_loop(self@, n, i as int) == spec_hex_loop(old(self)@, 0, 0),
            ensures
                wf_v(self@),
                !(i < 4 && !eof_v(self@)),
                (if i != 4 {
                    (
                        Result::<u16, ParserError>::Err(
                            ParserError::SyntaxError(Error::InvalidEscape),
                        ),
                        self@,
                    )
                } else {
                    (Result::<u16, ParserError>::Ok(n), self@)
                }) == spec_hex_loop(old(self)@, 0, 0),
            decreases 4 - i,
        {
            if !(i < 4 && !self.eof()) {
                break;
            }
            self.bump();
            let c = self.char();
            if is_hex(c) {
                n = n * 16 + hex_of(c);
            } else {
                return Result::Err(ParserError::SyntaxError(Error::InvalidEscape));
            }
            i = i + 1;
        }
        if i != 4 {
            Result::Err(ParserError::SyntaxError(Error::InvalidEscape))
        } else {
            Result::Ok(n)
        }
    }

    #[verifier::rlimit(100)]
    fn parse_string_impl(&mut self) -> (r: Result<String, ParserError>)
        requires
            wf_v(old(self)@),
        ensures
            final(self)@ == spec_string_loop(old(self)@, Seq::empty(), false).1,
            wf_v(final(self)@),
            (match r {
                Result::Ok(s) => spec_string_loop(old(self)@, Seq::empty(), false).0
                    == Result::<Seq<char>, ParserError>::Ok(s@),
                Result::Err(e) => spec_string_loop(old(self)@, Seq::empty(), false).0
                    == Result::<Seq<char>, ParserError>::Err(e),
            }),
    {
        let ghost goal = spec_string_loop(old(self)@, Seq::empty(), false);
        let mut result = String::new();
        let mut escape = false;
        loop
            invariant
                wf_v(self@),
                goal == spec_string_loop(old(self)@, Seq::empty(), false),
                spec_string_loop(self@, result@, escape) == goal,
            decreases self.reader@.len() - self.pos, some_flag(self@),
        {
            if self.eof() {
                if self.state == ParserState::ParseObjectPair {
                    return Result::Err(ParserError::SyntaxError(Error::EOFWhileParsingObjectKey));
                } else {
                    return Result::Err(ParserError::SyntaxError(Error::EOFWhileParsingString));
                }
            }
            if escape {
                let c = self.char();
                if c == 'u' {
                    let ghost ph = self@;
                    proof {
                        lemma_hex_props(ph, 0, 0);
                    }
                    match self.decode_hex_escape() {
                        Result::Err(e) => {
                            return Result::Err(e);
                        },
                        Result::Ok(n) => {
                            if 0xDC00 <= n && n <= 0xDFFF {
                                return Result::Err(
                                    ParserError::SyntaxError(Error::LoneLeadingSurrogateInHexEscape),
                                );
                            }
                            match char_from_u32(n as u32) {
                                Option::Some(u) => {
                                    push_char(&mut result, u);
                                },
                                Option::None => {
                                    return Result::Err(
                                        ParserError::SyntaxError(Error::InvalidUnicodeCodePoint),
                                    );
                                },
                            }
                        },
                    }
                } else if c == '"' {
                    push_char(&mut result, '"');
                } else if c == '\\' {
                    push_char(&mut result, '\\');
                } else if c == '/' {
                    push_char(&mut result, '/');
                } else if c == 'b' {
                    push_char(&mut result, '\u{8}');
                } else if c == 'f' {
                    push_char(&mut result, '\u{c}');
                } else if c == 'n' {
                    push_char(&mut result, '\n');
                } else if c == 'r' {
                    push_char(&mut result, '\r');
                } else if c == 't' {
                    push_char(&mut result, '\t');
                } else {
                    return Result::Err(ParserError::SyntaxError(Error::InvalidEscape));
                }
                escape = false;
            } else if self.char() == '\\' {
                escape = true;
            } else {
                let c = self.char();
                if c == '"' {
                    self.handled = true;
                    return Result::Ok(result);
                }
                push_char(&mut result, c);
            }
            self.bump();
        }
    }

    fn parse_string(&mut self) -> (r: JsonEvent)
        requires
            wf_v(old(self)@),
        ensures
            r@ == spec_parse_string(old(self)@).0,
            final(self)@ == spec_parse_string(old(self)@).1,
            wf_v(final(self)@),
    {
        match self.parse_string_impl() {
            Result::Ok(s) => JsonEvent::StringValue(s),
            Result::Err(e) => {
                self.state = ParserState::Broken;
                JsonEvent::Error(e)
            },
        }
    }

    #[verifier::rlimit(50)]
    fn parse_value(&mut self) -> (r: JsonEvent)
        requires
            wf_v(old(self)@),
        ensures
            r@ == spec_parse_value(old(self)@).0,
            final(self)@ == spec_parse_value(old(self)@).1,
            wf_v(final(self)@),
    {
        let c = self.char();
        if c == 'n' {
            self.complete(&['u', 'l', 'l'], JsonEvent::NullValue)
        } else if c == 't' {
            self.complete(&['r', 'u', 'e'], JsonEvent::BooleanValue(true))
        } else if c == 'f' {
            self.complete(&['a', 'l', 's', 'e'], JsonEvent::BooleanValue(false))
        } else if c == '-' || is_digit(c) {
            self.parse_number()
        } else if c == '"' {
            self.bump();
            self.parse_string()
        } else if c == '[' {
            self.stack.push(self.state);
            self.state = ParserState::ParseArray;
            self.handled = true;
            JsonEvent::ArrayBegin
        } else if c == '{' {
            self.stack.push(self.state);
            self.state = ParserState::ParseObject;
            self.handled = true;
            JsonEvent::ObjectBegin
        } else {
            self.syntax_error(Error::ExpectedValue)
        }
    }

    #[verifier::rlimit(50)]
    fn parse_array(&mut self, first: bool) -> (r: JsonEvent)
        requires
            wf_v(old(self)@),
            is_container_state(old(self)@.state),
        ensures
            r@ == spec_parse_array(old(self)@, first).0,
            final(self)@ == spec_parse_array(old(self)@, first).1,
            wf_v(final(self)@),
        decreases self.reader@.len() - self.pos, some_flag(self@), 1int,
    {
        proof {
            lemma_ws_props(old(self)@);
        }
        self.whitespaces();
        if self.eof() {
            return self.syntax_error(Error::EOFWhileParsingArray);
        }
        let c = self.char();
        if c == ']' {
            let saved = self.stack.pop();
            self.state = saved.unwrap();
            self.handled = true;
            assert(final(self)@.stack =~= spec_parse_array(old(self)@, first).1.stack);
            JsonEvent::ArrayEnd
        } else if c == ',' {
            self.bump();
            if first {
                self.syntax_error(Error::ExpectedValueOrArrayEnd)
            } else {
                proof {
                    lemma_ws_props(old(self)@);
                }
                self.parse_array(false)
            }
        } else {
            self.state = ParserState::ParseArrayMaybe;
            self.parse_value()
        }
    }

    #[verifier::rlimit(50)]
    fn parse_object(&mut self, first: bool) -> (r: JsonEvent)
        requires
            wf_v(old(self)@),
            is_container_state(old(self)@.state),
        ensures
            r@ == spec_parse_object(old(self)@, first).0,
            final(self)@ == spec_parse_object(old(self)@, first).1,
            wf_v(final(self)@),
        decreases self.reader@.len() - self.pos, some_flag(self@), 1int,
    {
        proof {
            lemma_ws_props(old(self)@);
        }
        self.whitespaces();
        if self.eof() {
            return self.syntax_error(Error::EOFWhileParsingObject);
        }
        let c = self.char();
        if c == '}' {
            let saved = self.stack.pop();
            self.state = saved.unwrap();
            self.handled = true;
            assert(final(self)@.stack =~= spec_parse_object(old(self)@, first).1.stack);
            JsonEvent::ObjectEnd
        } else if c == '"' {
            self.state = ParserState::ParseObjectPair;
            self.bump();
            self.parse_string()
        } else if c == ',' {
            self.bump();
            if first {
                self.syntax_error(Error::ExpectedKeyOrObjectEnd)
            } else {
                proof {
                    lemma_ws_props(old(self)@);
                }
                self.parse_object(false)
            }
        } else {
            self.syntax_error(Error::ExpectedKeyOrObjectEnd)
        }
    }

    #[verifier::rlimit(50)]
    fn parse_object_value(&mut self) -> (r: JsonEvent)
        requires
            wf_v(old(self)@),
            is_container_state(old(self)@.state),
        ensures
            r@ == spec_parse_object_value(old(self)@).0,
            final(self)@ == spec_parse_object_value(old(self)@).1,
            wf_v(final(self)@),
    {
        proof {
            lemma_ws_props(old(self)@);
        }
        self.whitespaces();
        if self.eof() {
            return self.syntax_error(Error::EOFWhileParsingObjectColon);
        }
        if self.char() != ':' {
            return self.syntax_error(Error::ExpectedColon);
        }
        self.bump();
        let ghost pmid = self@;
        proof {
            lemma_ws_props(pmid);
        }
        self.whitespaces();
        if self.eof() {
            return self.syntax_error(Error::EOFWhileParsingObjectValue);
        }
        self.state = ParserState::ParseObjectMaybe;
        self.parse_value()
    }

    #[verifier::rlimit(50)]
    fn parse(&mut self) -> (r: Option<JsonEvent>)
        requires
            wf_v(old(self)@),
        ensures
            opt_event_view(r) == spec_parse(old(self)@).0,
            final(self)@ == spec_parse(old(self)@).1,
            wf_v(final(self)@),
    {
        match self.state {
            ParserState::Undefined => {
                proof {
                    lemma_ws_props(old(self)@);
                }
                self.whitespaces();
                if self.eof() {
                    Option::None
                } else {
                    Option::Some(self.parse_value())
                }
            },
            ParserState::Broken => Option::Some(JsonEvent::Error(ParserError::BrokenParser)),
            ParserState::ParseArray => Option::Some(self.parse_array(true)),
            ParserState::ParseArrayMaybe => Option::Some(self.parse_array(false)),
            ParserState::ParseObject => Option::Some(self.parse_object(true)),
            ParserState::ParseObjectPair => Option::Some(self.parse_object_value()),
            ParserState::ParseObjectMaybe => Option::Some(self.parse_object(false)),
        }
    }

    /// One pull of the event stream: `None` ends the stream at a clean end of
    /// input; after any error event the machine is broken and every further
    /// pull yields the `BrokenParser` error.
    pub fn next(&mut self) -> (r: Option<JsonEvent>)
        requires
            old(self).wf(),
        ensures
            opt_event_view(r) == spec_next(old(self)@).0,
            final(self)@ == spec_next(old(self)@).1,
            final(self).wf(),
    {
        if self.state == ParserState::Broken {
            return Option::Some(JsonEvent::Error(ParserError::BrokenParser));
        }
        if self.handled {
            self.handled = false;
            assert(self@ == (PView { handled: false, ..old(self)@ }));
            assert(wf_v(self@));
            self.bump();
        }
        self.parse()
    }
}


/// The events of at most `n` pulls in a row, with the machine state they
/// leave behind; the run stops early if the stream ends.
pub open spec fn run_events(p: PView, n: nat) -> (Seq<EventS>, PView)
    decreases n,
{
    if n == 0 {
        (Seq::empty(), p)
    } else {
        let r = spec_next(p);
        match r.0 {
            Option::None => (Seq::empty(), r.1),
            Option::Some(e) => {
                let rest = run_events(r.1, (n - 1) as nat);
                (seq![e] + rest.0, rest.1)
            },
        }
    }
}

/// Runs compose: after a full run of `n1` events, running `n2` more
/// continues exactly where the first run left off.
pub proof fn lemma_run_split(p: PView, n1: nat, n2: nat)
    requires
        run_events(p, n1).0.len() == n1,
    ensures
        run_events(p, (n1 + n2) as nat).0 == run_events(p, n1).0 + run_events(
            run_events(p, n1).1,
            n2,
        ).0,
        run_events(p, (n1 + n2) as nat).1 == run_events(run_events(p, n1).1, n2).1,
    decreases n1,
{
    if n1 == 0 {
        assert(run_events(p, n2).0 =~= Seq::<EventS>::empty() + run_events(p, n2).0);
    } else {
        let r = spec_next(p);
        match r.0 {
            Option::None => {},
            Option::Some(e) => {
                lemma_run_split(r.1, (n1 - 1) as nat, n2);
                let a = run_events(r.1, (n1 - 1) as nat).0;
                let b = run_events(run_events(r.1, (n1 - 1) as nat).1, n2).0;
                assert(seq![e] + (a + b) =~= (seq![e] + a) + b);
            },
        }
    }
}

/// The event sequence a value stands for: one event for a scalar; a
/// container wraps its parts in its begin and end events, an object pair
/// being its name's string event followed by its value's events.
pub open spec fn events_of(v: ValueS) -> Seq<EventS>
    decreases v, 0int,
    via events_of_dec
{
    match v {
        ValueS::Null => seq![EventS::Null],
        ValueS::Bool(b) => seq![EventS::Bool(b)],
        ValueS::Num(n) => seq![EventS::Num(n)],
        ValueS::Str(s) => seq![EventS::Str(s)],
        ValueS::List(elems) => seq![EventS::ArrayBegin] + events_of_elems(elems, 0) + seq![
            EventS::ArrayEnd,
        ],
        ValueS::Object(pairs) => seq![EventS::ObjectBegin] + events_of_pairs(pairs, 0) + seq![
            EventS::ObjectEnd,
        ],
    }
}

/// The events of a list's elements, from slot `i` on.
pub open spec fn events_of_elems(vs: Seq<ValueS>, i: int) -> Seq<EventS>
    decreases vs, vs.len() - i,
    via events_of_elems_dec
{
    if 0 <= i < vs.len() {
        events_of(vs[i]) + events_of_elems(vs, i + 1)
    } else {
        Seq::empty()
    }
}

/// The events of an object's pairs, from slot `i` on.
pub open spec fn events_of_pairs(ps: Seq<(Seq<char>, ValueS)>, i: int) -> Seq<EventS>
    decreases ps, ps.len() - i,
    via events_of_pairs_dec
{
    if 0 <= i < ps.len() {
        seq![EventS::Str(ps[i].0)] + events_of(ps[i].1) + events_of_pairs(ps, i + 1)
    } else {
        Seq::empty()
    }
}

#[via_fn]
proof fn events_of_dec(v: ValueS) {
    broadcast use vstd::seq::group_seq_axioms;

}

#[via_fn]
proof fn events_of_elems_dec(vs: Seq<ValueS>, i: int) {
    broadcast use vstd::seq::group_seq_axioms;

}

#[via_fn]
proof fn events_of_pairs_dec(ps: Seq<(Seq<char>, ValueS)>, i: int) {
    broadcast use vstd::seq::group_seq_axioms;

}

proof fn lemma_views_list_snoc(s: Seq<Value>, x: Value, i: int)
    requires
        0 <= i <= s.len(),
    ensures
        views_of_list(s.push(x), i) == views_of_list(s, i).push(value_view(x)),
    decreases s.len() - i,
{
    if i < s.len() {
        lemma_views_list_snoc(s, x, i + 1);
        assert(s.push(x)[i] == s[i]);
        assert(seq![value_view(s[i])] + views_of_list(s, i + 1).push(value_view(x)) =~= (seq![
            value_view(s[i]),
        ] + views_of_list(s, i + 1)).push(value_view(x)));
    } else {
        assert(views_of_list(s, i) =~= Seq::<ValueS>::empty());
        assert(views_of_list(s.push(x), i + 1) =~= Seq::<ValueS>::empty());
        assert(views_of_list(s.push(x), i) =~= Seq::<ValueS>::empty().push(value_view(x)));
    }
}

proof fn lemma_views_pairs_snoc(s: Seq<(String, Value)>, k: String, x: Value, i: int)
    requires
        0 <= i <= s.len(),
    ensures
        views_of_pairs(s.push((k, x)), i) == views_of_pairs(s, i).push((k@, value_view(x))),
    decreases s.len() - i,
{
    if i < s.len() {
        lemma_views_pairs_snoc(s, k, x, i + 1);
        assert(s.push((k, x))[i] == s[i]);
        assert(seq![(s[i].0@, value_view(s[i].1))] + views_of_pairs(s, i + 1).push(
            (k@, value_view(x)),
        ) =~= (seq![(s[i].0@, value_view(s[i].1))] + views_of_pairs(s, i + 1)).push(
            (k@, value_view(x)),
        ));
    } else {
        assert(views_of_pairs(s, i) =~= Seq::<(Seq<char>, ValueS)>::empty());
        assert(views_of_pairs(s.push((k, x)), i + 1) =~= Seq::<(Seq<char>, ValueS)>::empty());
        assert(views_of_pairs(s.push((k, x)), i) =~= Seq::<(Seq<char>, ValueS)>::empty().push(
            (k@, value_view(x)),
        ));
    }
}

proof fn lemma_events_elems_snoc(vs: Seq<ValueS>, x: ValueS, i: int)
    requires
        0 <= i <= vs.len(),
    ensures
        events_of_elems(vs.push(x), i) == events_of_elems(vs, i) + events_of(x),
    decreases vs.len() - i,
{
    if i < vs.len() {
        lemma_events_elems_snoc(vs, x, i + 1);
        assert(vs.push(x)[i] == vs[i]);
        assert(events_of(vs[i]) + (events_of_elems(vs, i + 1) + events_of(x)) =~= (events_of(
            vs[i],
        ) + events_of_elems(vs, i + 1)) + events_of(x));
    } else {
        assert(events_of_elems(vs, i) =~= Seq::<EventS>::empty());
        assert(events_of_elems(vs.push(x), i + 1) =~= Seq::<EventS>::empty());
        assert(events_of_elems(vs.push(x), i) =~= events_of(x));
        assert(Seq::<EventS>::empty() + events_of(x) =~= events_of(x));
    }
}

proof fn lemma_events_pairs_snoc(ps: Seq<(Seq<char>, ValueS)>, k: Seq<char>, x: ValueS, i: int)
    requires
        0 <= i <= ps.len(),
    ensures
        events_of_pairs(ps.push((k, x)), i) == events_of_pairs(ps, i) + (seq![EventS::Str(k)]
            + events_of(x)),
    decreases ps.len() - i,
{
    if i < ps.len() {
        lemma_events_pairs_snoc(ps, k, x, i + 1);
        assert(ps.push((k, x))[i] == ps[i]);
        assert(seq![EventS::Str(ps[i].0)] + events_of(ps[i].1) + (events_of_pairs(ps, i + 1)
            + (seq![EventS::Str(k)] + events_of(x))) =~= (seq![EventS::Str(ps[i].0)] + events_of(
            ps[i].1,
        ) + events_of_pairs(ps, i + 1)) + (seq![EventS::Str(k)] + events_of(x)));
    } else {
        assert(events_of_pairs(ps, i) =~= Seq::<EventS>::empty());
        assert(events_of_pairs(ps.push((k, x)), i + 1) =~= Seq::<EventS>::empty());
        assert(events_of_pairs(ps.push((k, x)), i) =~= seq![EventS::Str(k)] + events_of(x)
            + Seq::<EventS>::empty());
        assert(seq![EventS::Str(k)] + events_of(x) + Seq::<EventS>::empty() =~= seq![
            EventS::Str(k),
        ] + events_of(x));
        assert(Seq::<EventS>::empty() + (seq![EventS::Str(k)] + events_of(x)) =~= seq![
            EventS::Str(k),
        ] + events_of(x));
    }
}


/// The spec-level state of a builder: its machine, and one completion flag
/// per array being assembled.
pub ghost struct BView {
    pub p: PView,
    pub arrays: Seq<bool>,
}

/// A pull that answered one scalar event with the matching finished value.
pub open spec fn builder_scalar_case(
    r: Option<Result<Value, ParserError>>,
    vs: ValueS,
    b0: BView,
    b1: BView,
    q: PView,
) -> bool {
    match r {
        Option::Some(Result::Ok(v)) => value_view(v) == vs && b1.p == q && b1.arrays == b0.arrays,
        _ => false,
    }
}

/// A pull that opened a container: either a finished tree comes back, whose
/// events are exactly the run the machine performed; or an error that the
/// last event of such a run reported; or nothing, when the events gave the
/// container no proper end, the completion flags left as they were.
pub open spec fn builder_container_case(
    r: Option<Result<Value, ParserError>>,
    b0: BView,
    b1: BView,
) -> bool {
    match r {
        Option::Some(Result::Ok(v)) => {
            &&& run_events(b0.p, events_of(value_view(v)).len() as nat) == (
                events_of(value_view(v)),
                b1.p,
            )
            &&& b1.arrays == b0.arrays
        },
        Option::Some(Result::Err(e)) => exists|n: nat|
            1 <= n && (#[trigger] run_events(b0.p, n)).0.len() == n && run_events(b0.p, n).0.last()
                == EventS::Error(e) && run_events(b0.p, n).1 == b1.p,
        Option::None => b1.arrays == b0.arrays,
    }
}

/// What one pull of the builder yields, case by case over the machine's
/// first event: the stream's end passes through; a scalar event becomes its
/// value; an error event becomes that error; a container end answers the
/// enclosing assembly, an array end raising the newest completion flag; and
/// a container begin assembles a whole tree.
pub open spec fn builder_step(b0: BView, b1: BView, r: Option<Result<Value, ParserError>>) -> bool {
    let s = spec_next(b0.p);
    match s.0 {
        Option::None => r is None && b1.p == s.1 && b1.arrays == b0.arrays,
        Option::Some(ev) => match ev {
            EventS::Null => builder_scalar_case(r, ValueS::Null, b0, b1, s.1),
            EventS::Bool(x) => builder_scalar_case(r, ValueS::Bool(x), b0, b1, s.1),
            EventS::Num(n) => builder_scalar_case(r, ValueS::Num(n), b0, b1, s.1),
            EventS::Str(t) => builder_scalar_case(r, ValueS::Str(t), b0, b1, s.1),
            EventS::Error(e) => r == Option::Some(Result::<Value, ParserError>::Err(e)) && b1.p
                == s.1 && b1.arrays == b0.arrays,
            EventS::ArrayEnd => r is None && b1.p == s.1 && b1.arrays == (if b0.arrays.len() > 0 {
                b0.arrays.update(b0.arrays.len() - 1, true)
            } else {
                b0.arrays
            }),
            EventS::ObjectEnd => r is None && b1.p == s.1 && b1.arrays == b0.arrays,
            EventS::ArrayBegin => builder_container_case(r, b0, b1),
            EventS::ObjectBegin => builder_container_case(r, b0, b1),
        },
    }
}

/// The builder: it pulls the parser's events and folds them into finished
/// value trees, one per top-level document.
pub struct Builder {
    parser: Parser,
    arrays: Vec<bool>,
}

impl View for Builder {
    type V = BView;

    closed spec fn view(&self) -> BView {
        BView { p: self.parser@, arrays: self.arrays@ }
    }
}

impl Builder {
    /// The invariant every pull of the builder preserves.
    pub open spec fn wf(&self) -> bool {
        wf_v(self@.p)
    }

    /// A builder over the given characters, ready to assemble the first
    /// document.
    pub fn new(src: Vec<char>) -> (b: Builder)
        ensures
            b@.p == initial_view(src@),
            b@.arrays == Seq::<bool>::empty(),
            b.wf(),
    {
        Builder { parser: Parser::new(src), arrays: Vec::new() }
    }

    /// One document, or the error that cut its assembly short; `None` ends
    /// the stream at a clean end of input.
    #[verifier::rlimit(100)]
    pub fn next(&mut self) -> (r: Option<Result<Value, ParserError>>)
        requires
            old(self).wf(),
        ensures
            final(self).wf(),
            final(self)@.p.input == old(self)@.p.input,
            measure_of(final(self)@.p) <= measure_of(old(self)@.p),
            (match r {
                Option::Some(Result::Ok(_)) => measure_of(final(self)@.p) < measure_of(
                    old(self)@.p,
                ),
                _ => true,
            }),
            builder_step(old(self)@, final(self)@, r),
            (match r {
                Option::Some(Result::Ok(v)) => run_events(
                    old(self)@.p,
                    events_of(value_view(v)).len() as nat,
                ) == (events_of(value_view(v)), final(self)@.p) && final(self)@.arrays
                    == old(self)@.arrays,
                _ => true,
            }),
            (match r {
                Option::Some(Result::Err(e)) => exists|n: nat|
                    1 <= n && (#[trigger] run_events(old(self)@.p, n)).0.len() == n && run_events(
                        old(self)@.p,
                        n,
                    ).0.last() == EventS::Error(e) && run_events(old(self)@.p, n).1
                        == final(self)@.p,
                _ => true,
            }),
        decreases measure_of(self@.p), 0int,
    {
        let ghost p0 = self@.p;
        let ghost a0 = self@.arrays;
        proof {
            lemma_next_props(p0);
            reveal_with_fuel(run_events, 3);
        }
        let ev = self.parser.next();
        match ev {
            Option::None => Option::None,
            Option::Some(JsonEvent::NullValue) => {
                proof {
                    assert(run_events(p0, 1).0 =~= events_of(ValueS::Null));
                }
                Option::Some(Result::Ok(Value::Null))
            },
            Option::Some(JsonEvent::BooleanValue(b)) => {
                proof {
                    assert(run_events(p0, 1).0 =~= events_of(ValueS::Bool(b)));
                }
                Option::Some(Result::Ok(Value::Bool(b)))
            },
            Option::Some(JsonEvent::NumberValue(n)) => {
                proof {
                    assert(run_events(p0, 1).0 =~= events_of(ValueS::Num(n)));
                }
                Option::Some(Result::Ok(Value::Number(n)))
            },
            Option::Some(JsonEvent::StringValue(t)) => {
                proof {
                    assert(run_events(p0, 1).0 =~= events_of(ValueS::Str(t@)));
                }
                Option::Some(Result::Ok(Value::String(t)))
            },
            Option::Some(JsonEvent::Error(e)) => {
                proof {
                    assert(run_events(p0, 1).0.len() == 1);
                    assert(run_events(p0, 1).0.last() == EventS::Error(e));
                }
                Option::Some(Result::Err(e))
            },
            Option::Some(JsonEvent::ArrayEnd) => {
                let n = self.arrays.len();
                if n > 0 {
                    let _ = self.arrays.pop();
                    self.arrays.push(true);
                    proof {
                        assert(self@.arrays =~= a0.update(a0.len() - 1, true));
                    }
                }
                Option::None
            },
            Option::Some(JsonEvent::ObjectEnd) => Option::None,
            Option::Some(JsonEvent::ArrayBegin) => self.next_array(Ghost(p0), Ghost(a0)),
            Option::Some(JsonEvent::ObjectBegin) => self.next_object(Ghost(p0), Ghost(a0)),
        }
    }

    /// Assembles one array after its begin event: elements are built until
    /// the matching end event raises this array's completion flag.
    #[verifier::rlimit(100)]
    fn next_array(&mut self, Ghost(p0): Ghost<PView>, Ghost(a0): Ghost<Seq<bool>>) -> (r: Option<
        Result<Value, ParserError>,
    >)
        requires
            old(self).wf(),
            wf_v(p0),
            spec_next(p0).0 == Option::Some(EventS::ArrayBegin),
            old(self)@.p == spec_next(p0).1,
            old(self)@.arrays == a0,
            measure_of(old(self)@.p) < measure_of(p0),
        ensures
            final(self).wf(),
            final(self)@.p.input == old(self)@.p.input,
            measure_of(final(self)@.p) <= measure_of(old(self)@.p),
            builder_container_case(r, BView { p: p0, arrays: a0 }, final(self)@),
        decreases measure_of(self@.p), 1int,
    {
        let slot: usize = self.arrays.len();
        self.arrays.push(false);
        let mut array: Vec<Value> = Vec::new();
        let ghost mut evs: Seq<EventS> = Seq::empty();
        proof {
            reveal_with_fuel(run_events, 3);
            lemma_next_props(p0);
            assert(run_events(p0, 1).0 =~= seq![EventS::ArrayBegin] + evs);
            assert(run_events(p0, 1).1 == spec_next(p0).1);
            assert(views_of_list(array@, 0) =~= Seq::<ValueS>::empty());
            assert(events_of_elems(views_of_list(array@, 0), 0) =~= evs);
            assert(self@.arrays.take(slot as int) =~= a0);
        }
        loop
            invariant
                wf_v(self@.p),
                self@.p.input == p0.input,
                old(self)@.p.input == p0.input,
                wf_v(p0),
                measure_of(self@.p) < measure_of(p0),
                measure_of(self@.p) <= measure_of(old(self)@.p),
                spec_next(p0).0 == Option::Some(EventS::ArrayBegin),
                slot == a0.len(),
                self@.arrays.len() == slot + 1,
                self@.arrays.take(slot as int) == a0,
                self@.arrays[slot as int] == false,
                evs == events_of_elems(views_of_list(array@, 0), 0),
                run_events(p0, (1 + evs.len()) as nat) == (
                    seq![EventS::ArrayBegin] + evs,
                    self@.p,
                ),
            decreases measure_of(self@.p),
        {
            let ghost pb = self@.p;
            let ghost ab = self@.arrays;
            let el = self.next();
            match el {
                Option::Some(Result::Ok(v)) => {
                    proof {
                        let vv = value_view(v);
                        assert(run_events(p0, (1 + evs.len()) as nat).0.len() == 1 + evs.len());
                        lemma_run_split(p0, (1 + evs.len()) as nat, events_of(vv).len() as nat);
                        lemma_views_list_snoc(array@, v, 0);
                        lemma_events_elems_snoc(views_of_list(array@, 0), vv, 0);
                        assert((seq![EventS::ArrayBegin] + evs) + events_of(vv) =~= seq![
                            EventS::ArrayBegin,
                        ] + (evs + events_of(vv)));
                        evs = evs + events_of(vv);
                    }
                    array.push(v);
                },
                Option::Some(Result::Err(e)) => {
                    proof {
                        let m = choose|m: nat|
                            1 <= m && (#[trigger] run_events(pb, m)).0.len() == m && run_events(
                                pb,
                                m,
                            ).0.last() == EventS::Error(e) && run_events(pb, m).1 == self@.p;
                        assert(run_events(p0, (1 + evs.len()) as nat).0.len() == 1 + evs.len());
                        lemma_run_split(p0, (1 + evs.len()) as nat, m);
                        let n: nat = ((1 + evs.len()) as nat + m) as nat;
                        assert(run_events(p0, n).0 == (seq![EventS::ArrayBegin] + evs)
                            + run_events(pb, m).0);
                        assert(run_events(p0, n).0.len() == n);
                        assert(run_events(p0, n).0.last() == run_events(pb, m).0.last());
                        assert(1 <= n && (#[trigger] run_events(p0, n)).0.len() == n && run_events(
                            p0,
                            n,
                        ).0.last() == EventS::Error(e) && run_events(p0, n).1 == self@.p);
                    }
                    return Option::Some(Result::Err(e));
                },
                Option::None => {
                    let flag = self.arrays[slot];
                    if flag {
                        proof {
                            let s = spec_next(pb);
                            if s.0 is Some && s.0->0 is ArrayBegin {
                                assert(self@.arrays.take(ab.len() as int) == ab);
                                assert(self@.arrays[slot as int] == ab[slot as int]);
                                assert(false);
                            }
                            if s.0 is Some && s.0->0 is ObjectBegin {
                                assert(self@.arrays.take(ab.len() as int) == ab);
                                assert(self@.arrays[slot as int] == ab[slot as int]);
                                assert(false);
                            }
                            assert(s.0 == Option::Some(EventS::ArrayEnd));
                            assert(self@.p == s.1);
                            lemma_next_props(pb);
                            reveal_with_fuel(run_events, 3);
                            assert(run_events(pb, 1).0 =~= seq![EventS::ArrayEnd]);
                            assert(run_events(pb, 1).1 == spec_next(pb).1);
                            assert(run_events(p0, (1 + evs.len()) as nat).0.len() == 1
                                + evs.len());
                            lemma_run_split(p0, (1 + evs.len()) as nat, 1);
                        }
                        self.arrays.truncate(slot);
                        proof {
                            assert(self@.arrays =~= a0);
                            let vv = value_view(Value::List(array));
                            assert(vv == ValueS::List(views_of_list(array@, 0)));
                            assert(events_of(vv) =~= (seq![EventS::ArrayBegin] + evs) + seq![
                                EventS::ArrayEnd,
                            ]);
                            let n: nat = ((1 + evs.len()) as nat + 1) as nat;
                            assert(events_of(vv).len() == n);
                            assert(run_events(p0, n).0 == (seq![EventS::ArrayBegin] + evs)
                                + run_events(run_events(p0, (1 + evs.len()) as nat).1, 1).0);
                            assert(run_events(p0, n).0 =~= events_of(vv));
                        }
                        return Option::Some(Result::Ok(Value::List(array)));
                    } else {
                        self.arrays.truncate(slot);
                        proof {
                            assert(self@.arrays =~= a0);
                        }
                        return Option::None;
                    }
                },
            }
        }
    }

    /// Assembles one object after its begin event: names and their values
    /// alternate until the matching end event.
    #[verifier::rlimit(100)]
    fn next_object(&mut self, Ghost(p0): Ghost<PView>, Ghost(a0): Ghost<Seq<bool>>) -> (r: Option<
        Result<Value, ParserError>,
    >)
        requires
            old(self).wf(),
            wf_v(p0),
            spec_next(p0).0 == Option::Some(EventS::ObjectBegin),
            old(self)@.p == spec_next(p0).1,
            old(self)@.arrays == a0,
            measure_of(old(self)@.p) < measure_of(p0),
        ensures
            final(self).wf(),
            final(self)@.p.input == old(self)@.p.input,
            measure_of(final(self)@.p) <= measure_of(old(self)@.p),
            builder_container_case(r, BView { p: p0, arrays: a0 }, final(self)@),
        decreases measure_of(self@.p), 1int,
    {
        let depth: usize = self.arrays.len();
        let last_flag: bool = if depth > 0 {
            self.arrays[depth - 1]
        } else {
            false
        };
        let mut object: Vec<(String, Value)> = Vec::new();
        let ghost mut evs: Seq<EventS> = Seq::empty();
        proof {
            reveal_with_fuel(run_events, 3);
            lemma_next_props(p0);
            assert(run_events(p0, 1).0 =~= seq![EventS::ObjectBegin] + evs);
            assert(run_events(p0, 1).1 == spec_next(p0).1);
            assert(views_of_pairs(object@, 0) =~= Seq::<(Seq<char>, ValueS)>::empty());
            assert(events_of_pairs(views_of_pairs(object@, 0), 0) =~= evs);
        }
        loop
            invariant
                wf_v(self@.p),
                self@.p.input == p0.input,
                old(self)@.p.input == p0.input,
                wf_v(p0),
                measure_of(self@.p) < measure_of(p0),
                measure_of(self@.p) <= measure_of(old(self)@.p),
                spec_next(p0).0 == Option::Some(EventS::ObjectBegin),
                self@.arrays == a0,
                depth == a0.len(),
                depth > 0 ==> last_flag == a0[depth - 1],
                evs == events_of_pairs(views_of_pairs(object@, 0), 0),
                run_events(p0, (1 + evs.len()) as nat) == (
                    seq![EventS::ObjectBegin] + evs,
                    self@.p,
                ),
            decreases measure_of(self@.p),
        {
            let ghost pk = self@.p;
            proof {
                lemma_next_props(pk);
            }
            let kev = self.parser.next();
            match kev {
                Option::Some(JsonEvent::StringValue(k)) => {
                    let ghost pv = self@.p;
                    proof {
                        reveal_with_fuel(run_events, 3);
                        assert(run_events(pk, 1).0 =~= seq![EventS::Str(k@)]);
                        assert(run_events(p0, (1 + evs.len()) as nat).0.len() == 1 + evs.len());
                        lemma_run_split(p0, (1 + evs.len()) as nat, 1);
                        assert(run_events(p0, (1 + evs.len() + 1) as nat).0 =~= seq![
                            EventS::ObjectBegin,
                        ] + (evs + seq![EventS::Str(k@)]));
                        assert(run_events(p0, (1 + evs.len() + 1) as nat).1 == self@.p);
                        assert(run_events(p0, (1 + evs.len() + 1) as nat).0.len() == 1 + evs.len()
                            + 1);
                    }
                    let el = self.next();
                    match el {
                        Option::Some(Result::Ok(v)) => {
                            proof {
                                let vv = value_view(v);
                                assert(run_events(p0, (1 + evs.len() + 1) as nat).0.len() == 1
                                    + evs.len() + 1);
                                lemma_run_split(
                                    p0,
                                    (1 + evs.len() + 1) as nat,
                                    events_of(vv).len() as nat,
                                );
                                lemma_views_pairs_snoc(object@, k, v, 0);
                                lemma_events_pairs_snoc(views_of_pairs(object@, 0), k@, vv, 0);
                                assert((seq![EventS::ObjectBegin] + (evs + seq![EventS::Str(k@)]))
                                    + events_of(vv) =~= seq![EventS::ObjectBegin] + (evs + (seq![
                                    EventS::Str(k@),
                                ] + events_of(vv))));
                                evs = evs + (seq![EventS::Str(k@)] + events_of(vv));
                            }
                            object.push((k, v));
                        },
                        Option::Some(Result::Err(e)) => {
                            proof {
                                let m = choose|m: nat|
                                    1 <= m && (#[trigger] run_events(pv, m)).0.len() == m
                                        && run_events(pv, m).0.last() == EventS::Error(e)
                                        && run_events(pv, m).1 == self@.p;
                                assert(run_events(p0, (1 + evs.len() + 1) as nat).0.len() == 1
                                    + evs.len() + 1);
                                lemma_run_split(p0, (1 + evs.len() + 1) as nat, m);
                                let n: nat = ((1 + evs.len() + 1) as nat + m) as nat;
                                assert(run_events(p0, (1 + evs.len() + 1) as nat).1 == pv);
                                assert(run_events(pv, m).0.len() == m && m >= 1);
                                assert(run_events(p0, n).0 == run_events(
                                    p0,
                                    (1 + evs.len() + 1) as nat,
                                ).0 + run_events(pv, m).0);
                                assert(run_events(p0, n).0.len() == n);
                                assert(run_events(p0, n).0.last() == run_events(pv, m).0.last());
                                assert(1 <= n && (#[trigger] run_events(p0, n)).0.len() == n
                                    && run_events(p0, n).0.last() == EventS::Error(e)
                                    && run_events(p0, n).1 == self@.p);
                            }
                            return Option::Some(Result::Err(e));
                        },
                        Option::None => {
                            if depth > 0 {
                                let _ = self.arrays.pop();
                                self.arrays.push(last_flag);
                            }
                            proof {
                                assert(self@.arrays =~= a0);
                            }
                            return Option::None;
                        },
                    }
                },
                Option::Some(JsonEvent::ObjectEnd) => {
                    proof {
                        reveal_with_fuel(run_events, 3);
                        assert(run_events(pk, 1).0 =~= seq![EventS::ObjectEnd]);
                        assert(run_events(p0, (1 + evs.len()) as nat).0.len() == 1 + evs.len());
                        lemma_run_split(p0, (1 + evs.len()) as nat, 1);
                        let vv = value_view(Value::Object(object));
                        assert(vv == ValueS::Object(views_of_pairs(object@, 0)));
                        assert(events_of(vv) =~= (seq![EventS::ObjectBegin] + evs) + seq![
                            EventS::ObjectEnd,
                        ]);
                        let n: nat = ((1 + evs.len()) as nat + 1) as nat;
                        assert(events_of(vv).len() == n);
                        assert(run_events(p0, n).0 =~= events_of(vv));
                    }
                    return Option::Some(Result::Ok(Value::Object(object)));
                },
                Option::Some(JsonEvent::Error(e)) => {
                    proof {
                        reveal_with_fuel(run_events, 3);
                        assert(run_events(pk, 1).0 =~= seq![EventS::Error(e)]);
                        assert(run_events(p0, (1 + evs.len()) as nat).0.len() == 1 + evs.len());
                        lemma_run_split(p0, (1 + evs.len()) as nat, 1);
                        let n: nat = ((1 + evs.len()) as nat + 1) as nat;
                        assert(run_events(p0, n).0.len() == n);
                        assert(run_events(p0, n).0.last() == run_events(pk, 1).0.last());
                        assert(1 <= n && (#[trigger] run_events(p0, n)).0.len() == n && run_events(
                            p0,
                            n,
                        ).0.last() == EventS::Error(e) && run_events(p0, n).1 == self@.p);
                    }
                    return Option::Some(Result::Err(e));
                },
                Option::Some(_) => {
                    return Option::None;
                },
                Option::None => {
                    return Option::None;
                },
            }
        }
    }
}


proof fn lemma_cancel_prefix(a: Seq<EventS>, b: Seq<EventS>, c: Seq<EventS>, d: Seq<EventS>)
    requires
        a + b == c + d,
        a.len() == c.len(),
    ensures
        a == c,
        b == d,
{
    broadcast use vstd::seq::group_seq_axioms;

    vstd::seq::axiom_seq_add_len(a, b);
    vstd::seq::axiom_seq_add_len(c, d);
    assert((a + b).len() == (c + d).len());
    assert forall|k: int| 0 <= k < a.len() implies a[k] == c[k] by {
        assert((a + b)[k] == a[k]);
        assert((c + d)[k] == c[k]);
    }
    assert(a =~= c);
    assert(b.len() == d.len());
    assert forall|k: int| 0 <= k < b.len() implies b[k] == d[k] by {
        assert((a + b)[k + a.len()] == b[k]);
        assert((c + d)[k + c.len()] == d[k]);
    }
    assert(b =~= d);
}

/// Every value's event sequence is nonempty and opens with something other
/// than a container's end.
proof fn lemma_events_head(v: ValueS)
    ensures
        events_of(v).len() >= 1,
        events_of(v)[0] != EventS::ArrayEnd,
        events_of(v)[0] != EventS::ObjectEnd,
{
    broadcast use vstd::seq::group_seq_axioms;

    match v {
        ValueS::List(elems) => {
            assert(events_of(v)[0] == EventS::ArrayBegin);
        },
        ValueS::Object(pairs) => {
            assert(events_of(v)[0] == EventS::ObjectBegin);
        },
        _ => {},
    }
}

/// An event sequence determines the value it stands for: two values with
/// the same events, followed by anything, are the same value with the same
/// remainder. Together with the builder's contract this makes the
/// round-trip exact: the tree a document builds into is the one whose
/// events the machine produced, and no other.
pub proof fn lemma_events_of_injective(v1: ValueS, v2: ValueS)
    requires
        events_of(v1) == events_of(v2),
    ensures
        v1 == v2,
{
    lemma_unique_value(v1, v2, Seq::empty(), Seq::empty());
    assert(events_of(v1) + Seq::<EventS>::empty() =~= events_of(v1));
    assert(events_of(v2) + Seq::<EventS>::empty() =~= events_of(v2));
}

proof fn lemma_unique_value(v1: ValueS, v2: ValueS, r1: Seq<EventS>, r2: Seq<EventS>)
    requires
        events_of(v1) + r1 == events_of(v2) + r2,
    ensures
        v1 == v2,
        r1 == r2,
    decreases v1, 0int,
{
    broadcast use vstd::seq::group_seq_axioms;

    lemma_events_head(v1);
    lemma_events_head(v2);
    assert(events_of(v1)[0] == (events_of(v1) + r1)[0]);
    assert(events_of(v2)[0] == (events_of(v2) + r2)[0]);
    match v1 {
        ValueS::Null => {
            assert(events_of(v2)[0] == EventS::Null);
            assert(v2 is Null);
            lemma_cancel_prefix(events_of(v1), r1, events_of(v2), r2);
        },
        ValueS::Bool(b1) => {
            assert(events_of(v2)[0] == EventS::Bool(b1));
            assert(v2 == ValueS::Bool(b1));
            lemma_cancel_prefix(events_of(v1), r1, events_of(v2), r2);
        },
        ValueS::Num(n1) => {
            assert(events_of(v2)[0] == EventS::Num(n1));
            assert(v2 == ValueS::Num(n1));
            lemma_cancel_prefix(events_of(v1), r1, events_of(v2), r2);
        },
        ValueS::Str(s1) => {
            assert(events_of(v2)[0] == EventS::Str(s1));
            assert(v2 == ValueS::Str(s1));
            lemma_cancel_prefix(events_of(v1), r1, events_of(v2), r2);
        },
        ValueS::List(e1) => {
            assert(events_of(v2)[0] == EventS::ArrayBegin);
            let e2 = v2->List_0;
            assert(v2 == ValueS::List(e2));
            assert((seq![EventS::ArrayBegin] + events_of_elems(e1, 0) + seq![EventS::ArrayEnd])
                + r1 =~= seq![EventS::ArrayBegin] + (events_of_elems(e1, 0) + (seq![
                EventS::ArrayEnd,
            ] + r1)));
            assert((seq![EventS::ArrayBegin] + events_of_elems(e2, 0) + seq![EventS::ArrayEnd])
                + r2 =~= seq![EventS::ArrayBegin] + (events_of_elems(e2, 0) + (seq![
                EventS::ArrayEnd,
            ] + r2)));
            lemma_cancel_prefix(
                seq![EventS::ArrayBegin],
                events_of_elems(e1, 0) + (seq![EventS::ArrayEnd] + r1),
                seq![EventS::ArrayBegin],
                events_of_elems(e2, 0) + (seq![EventS::ArrayEnd] + r2),
            );
            lemma_unique_elems(e1, 0, e2, 0, r1, r2);
            assert forall|k: int| 0 <= k < e1.len() implies e1[k] == e2[k] by {
                assert(e1[0 + k] == e2[0 + k]);
            }
            assert(e1 =~= e2);
        },
        ValueS::Object(p1) => {
            assert(events_of(v2)[0] == EventS::ObjectBegin);
            let p2 = v2->Object_0;
            assert(v2 == ValueS::Object(p2));
            assert((seq![EventS::ObjectBegin] + events_of_pairs(p1, 0) + seq![EventS::ObjectEnd])
                + r1 =~= seq![EventS::ObjectBegin] + (events_of_pairs(p1, 0) + (seq![
                EventS::ObjectEnd,
            ] + r1)));
            assert((seq![EventS::ObjectBegin] + events_of_pairs(p2, 0) + seq![EventS::ObjectEnd])
                + r2 =~= seq![EventS::ObjectBegin] + (events_of_pairs(p2, 0) + (seq![
                EventS::ObjectEnd,
            ] + r2)));
            lemma_cancel_prefix(
                seq![EventS::ObjectBegin],
                events_of_pairs(p1, 0) + (seq![EventS::ObjectEnd] + r1),
                seq![EventS::ObjectBegin],
                events_of_pairs(p2, 0) + (seq![EventS::ObjectEnd] + r2),
            );
            lemma_unique_pairs(p1, 0, p2, 0, r1, r2);
            assert forall|k: int| 0 <= k < p1.len() implies p1[k] == p2[k] by {
                assert(p1[0 + k] == p2[0 + k]);
            }
            assert(p1 =~= p2);
        },
    }
}

proof fn lemma_unique_elems(
    e1: Seq<ValueS>,
    i1: int,
    e2: Seq<ValueS>,
    i2: int,
    r1: Seq<EventS>,
    r2: Seq<EventS>,
)
    requires
        0 <= i1 <= e1.len(),
        0 <= i2 <= e2.len(),
        events_of_elems(e1, i1) + (seq![EventS::ArrayEnd] + r1) == events_of_elems(e2, i2) + (seq![
            EventS::ArrayEnd,
        ] + r2),
    ensures
        e1.len() - i1 == e2.len() - i2,
        forall|k: int| 0 <= k < e1.len() - i1 ==> #[trigger] e1[i1 + k] == e2[i2 + k],
        r1 == r2,
    decreases e1, e1.len() - i1,
{
    broadcast use vstd::seq::group_seq_axioms;

    if i1 == e1.len() && i2 == e2.len() {
        assert(events_of_elems(e1, i1) =~= Seq::<EventS>::empty());
        assert(events_of_elems(e2, i2) =~= Seq::<EventS>::empty());
        assert(seq![EventS::ArrayEnd] + r1 =~= events_of_elems(e1, i1) + (seq![EventS::ArrayEnd]
            + r1));
        assert(seq![EventS::ArrayEnd] + r2 =~= events_of_elems(e2, i2) + (seq![EventS::ArrayEnd]
            + r2));
        lemma_cancel_prefix(seq![EventS::ArrayEnd], r1, seq![EventS::ArrayEnd], r2);
    } else if i1 < e1.len() && i2 < e2.len() {
        lemma_events_head(e1[i1]);
        lemma_events_head(e2[i2]);
        assert(events_of_elems(e1, i1) + (seq![EventS::ArrayEnd] + r1) =~= events_of(e1[i1]) + (
        events_of_elems(e1, i1 + 1) + (seq![EventS::ArrayEnd] + r1)));
        assert(events_of_elems(e2, i2) + (seq![EventS::ArrayEnd] + r2) =~= events_of(e2[i2]) + (
        events_of_elems(e2, i2 + 1) + (seq![EventS::ArrayEnd] + r2)));
        lemma_unique_value(
            e1[i1],
            e2[i2],
            events_of_elems(e1, i1 + 1) + (seq![EventS::ArrayEnd] + r1),
            events_of_elems(e2, i2 + 1) + (seq![EventS::ArrayEnd] + r2),
        );
        lemma_unique_elems(e1, i1 + 1, e2, i2 + 1, r1, r2);
        assert forall|k: int| 0 <= k < e1.len() - i1 implies #[trigger] e1[i1 + k] == e2[i2
            + k] by {
            if k == 0 {
                assert(e1[i1 + 0] == e1[i1] && e2[i2 + 0] == e2[i2]);
            } else {
                assert(e1[(i1 + 1) + (k - 1)] == e2[(i2 + 1) + (k - 1)]);
            }
        }
    } else if i1 < e1.len() {
        lemma_events_head(e1[i1]);
        assert(events_of_elems(e2, i2) =~= Seq::<EventS>::empty());
        assert((events_of_elems(e2, i2) + (seq![EventS::ArrayEnd] + r2))[0] == EventS::ArrayEnd);
        assert(events_of_elems(e1, i1) + (seq![EventS::ArrayEnd] + r1) =~= events_of(e1[i1]) + (
        events_of_elems(e1, i1 + 1) + (seq![EventS::ArrayEnd] + r1)));
        assert((events_of(e1[i1]) + (events_of_elems(e1, i1 + 1) + (seq![EventS::ArrayEnd] + r1)))[
            0] == events_of(e1[i1])[0]);
        assert(false);
    } else {
        lemma_events_head(e2[i2]);
        assert(events_of_elems(e1, i1) =~= Seq::<EventS>::empty());
        assert((events_of_elems(e1, i1) + (seq![EventS::ArrayEnd] + r1))[0] == EventS::ArrayEnd);
        assert(events_of_elems(e2, i2) + (seq![EventS::ArrayEnd] + r2) =~= events_of(e2[i2]) + (
        events_of_elems(e2, i2 + 1) + (seq![EventS::ArrayEnd] + r2)));
        assert((events_of(e2[i2]) + (events_of_elems(e2, i2 + 1) + (seq![EventS::ArrayEnd] + r2)))[
            0] == events_of(e2[i2])[0]);
        assert(false);
    }
}

proof fn lemma_unique_pairs(
    p1: Seq<(Seq<char>, ValueS)>,
    i1: int,
    p2: Seq<(Seq<char>, ValueS)>,
    i2: int,
    r1: Seq<EventS>,
    r2: Seq<EventS>,
)
    requires
        0 <= i1 <= p1.len(),
        0 <= i2 <= p2.len(),
        events_of_pairs(p1, i1) + (seq![EventS::ObjectEnd] + r1) == events_of_pairs(p2, i2) + (seq![
            EventS::ObjectEnd,
        ] + r2),
    ensures
        p1.len() - i1 == p2.len() - i2,
        forall|k: int| 0 <= k < p1.len() - i1 ==> #[trigger] p1[i1 + k] == p2[i2 + k],
        r1 == r2,
    decreases p1, p1.len() - i1,
{
    broadcast use vstd::seq::group_seq_axioms;

    if i1 == p1.len() && i2 == p2.len() {
        assert(events_of_pairs(p1, i1) =~= Seq::<EventS>::empty());
        assert(events_of_pairs(p2, i2) =~= Seq::<EventS>::empty());
        assert(seq![EventS::ObjectEnd] + r1 =~= events_of_pairs(p1, i1) + (seq![EventS::ObjectEnd]
            + r1));
        assert(seq![EventS::ObjectEnd] + r2 =~= events_of_pairs(p2, i2) + (seq![EventS::ObjectEnd]
            + r2));
        lemma_cancel_prefix(seq![EventS::ObjectEnd], r1, seq![EventS::ObjectEnd], r2);
    } else if i1 < p1.len() && i2 < p2.len() {
        assert(events_of_pairs(p1, i1) + (seq![EventS::ObjectEnd] + r1) =~= seq![
            EventS::Str(p1[i1].0),
        ] + (events_of(p1[i1].1) + (events_of_pairs(p1, i1 + 1) + (seq![EventS::ObjectEnd] + r1))));
        assert(events_of_pairs(p2, i2) + (seq![EventS::ObjectEnd] + r2) =~= seq![
            EventS::Str(p2[i2].0),
        ] + (events_of(p2[i2].1) + (events_of_pairs(p2, i2 + 1) + (seq![EventS::ObjectEnd] + r2))));
        assert((seq![EventS::Str(p1[i1].0)] + (events_of(p1[i1].1) + (events_of_pairs(p1, i1 + 1)
            + (seq![EventS::ObjectEnd] + r1))))[0] == EventS::Str(p1[i1].0));
        assert((seq![EventS::Str(p2[i2].0)] + (events_of(p2[i2].1) + (events_of_pairs(p2, i2 + 1)
            + (seq![EventS::ObjectEnd] + r2))))[0] == EventS::Str(p2[i2].0));
        assert(p1[i1].0 == p2[i2].0);
        lemma_cancel_prefix(
            seq![EventS::Str(p1[i1].0)],
            events_of(p1[i1].1) + (events_of_pairs(p1, i1 + 1) + (seq![EventS::ObjectEnd] + r1)),
            seq![EventS::Str(p2[i2].0)],
            events_of(p2[i2].1) + (events_of_pairs(p2, i2 + 1) + (seq![EventS::ObjectEnd] + r2)),
        );
        lemma_unique_value(
            p1[i1].1,
            p2[i2].1,
            events_of_pairs(p1, i1 + 1) + (seq![EventS::ObjectEnd] + r1),
            events_of_pairs(p2, i2 + 1) + (seq![EventS::ObjectEnd] + r2),
        );
        lemma_unique_pairs(p1, i1 + 1, p2, i2 + 1, r1, r2);
        assert(p1[i1] == p2[i2]);
        assert forall|k: int| 0 <= k < p1.len() - i1 implies #[trigger] p1[i1 + k] == p2[i2
            + k] by {
            if k == 0 {
                assert(p1[i1 + 0] == p1[i1] && p2[i2 + 0] == p2[i2]);
            } else {
                assert(p1[(i1 + 1) + (k - 1)] == p2[(i2 + 1) + (k - 1)]);
            }
        }
    } else if i1 < p1.len() {
        assert(events_of_pairs(p2, i2) =~= Seq::<EventS>::empty());
        assert((events_of_pairs(p2, i2) + (seq![EventS::ObjectEnd] + r2))[0] == EventS::ObjectEnd);
        assert(events_of_pairs(p1, i1) + (seq![EventS::ObjectEnd] + r1) =~= seq![
            EventS::Str(p1[i1].0),
        ] + (events_of(p1[i1].1) + (events_of_pairs(p1, i1 + 1) + (seq![EventS::ObjectEnd] + r1))));
        assert((seq![EventS::Str(p1[i1].0)] + (events_of(p1[i1].1) + (events_of_pairs(p1, i1 + 1)
            + (seq![EventS::ObjectEnd] + r1))))[0] == EventS::Str(p1[i1].0));
        assert(false);
    } else {
        assert(events_of_pairs(p1, i1) =~= Seq::<EventS>::empty());
        assert((events_of_pairs(p1, i1) + (seq![EventS::ObjectEnd] + r1))[0] == EventS::ObjectEnd);
        assert(events_of_pairs(p2, i2) + (seq![EventS::ObjectEnd] + r2) =~= seq![
            EventS::Str(p2[i2].0),
        ] + (events_of(p2[i2].1) + (events_of_pairs(p2, i2 + 1) + (seq![EventS::ObjectEnd] + r2))));
        assert((seq![EventS::Str(p2[i2].0)] + (events_of(p2[i2].1) + (events_of_pairs(p2, i2 + 1)
            + (seq![EventS::ObjectEnd] + r2))))[0] == EventS::Str(p2[i2].0));
        assert(false);
    }
}

} // verus!
