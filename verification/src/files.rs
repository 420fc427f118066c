//! The file sink's logic: a tiny streaming tokenizer that splits a format
//! string into literal runs and slash-separated field-path placeholders, a
//! resolver that walks a placeholder's path through a record, and the cache
//! that keys open handles by filesystem identity rather than by path text.
//! Opening, writing and asking the filesystem for an identity happen outside;
//! everything that decides is here.

use crate::find_in_pairs;
use crate::json::push_char;
use crate::json::str_chars;
use crate::json::ValueS;
use crate::lookup_s;
use crate::render::number_str;
use crate::render::push_number;
use crate::render::scalar_str;
use crate::item_view;
use crate::Record;
use crate::RecordItem;
use vstd::prelude::*;

verus! {

/// The one way a format string can be malformed: it ends inside a
/// placeholder.
#[derive(Clone, Copy, Debug, PartialEq, Eq, Structural)]
pub enum ParserError {
    EOFWhileParsingPlaceholder,
}

/// One token of a format string: a literal run, a field path, or the
/// tokenizer's terminal error.
#[derive(Debug, Clone, PartialEq)]
pub enum ParserEvent {
    Literal(String),
    Placeholder(Vec<String>),
    Error(ParserError),
}

/// The tokenizer's state between two pulls.
#[derive(Debug, PartialEq)]
pub enum ParserState {
    Undefined,
    ParsePlaceholder,
    Broken(ParserError),
}

/// The spec-level image of a token.
pub ghost enum EventV {
    Literal(Seq<char>),
    Placeholder(Seq<Seq<char>>),
    Error(ParserError),
}

/// The images of a list of field names.
pub open spec fn string_views(v: Seq<String>) -> Seq<Seq<char>> {
    Seq::new(v.len(), |i: int| v[i]@)
}

impl View for ParserEvent {
    type V = EventV;

    open spec fn view(&self) -> EventV {
        match self {
            ParserEvent::Literal(s) => EventV::Literal(s@),
            ParserEvent::Placeholder(fields) => EventV::Placeholder(string_views(fields@)),
            ParserEvent::Error(e) => EventV::Error(*e),
        }
    }
}

/// The spec-level image of an optional token.
pub open spec fn opt_token_view(e: Option<ParserEvent>) -> Option<EventV> {
    match e {
        Option::Some(ev) => Option::Some(ev@),
        Option::None => Option::None,
    }
}

/// The complete spec-level state of a tokenizer.
pub ghost struct FView {
    pub input: Seq<char>,
    pub pos: int,
    pub state: ParserState,
}

pub open spec fn fp_wf(p: FView) -> bool {
    0 <= p.pos <= p.input.len()
}

/// A literal run: characters accumulate until an opening brace or the end of
/// the input; the brace switches the state into the placeholder.
pub open spec fn spec_fp_literal(p: FView, acc: Seq<char>) -> (EventV, FView)
    decreases p.input.len() - p.pos,
{
    if 0 <= p.pos < p.input.len() {
        let c = p.input[p.pos];
        let p1 = FView { pos: p.pos + 1, ..p };
        if c == '{' {
            (EventV::Literal(acc), FView { state: ParserState::ParsePlaceholder, ..p1 })
        } else {
            spec_fp_literal(p1, acc.push(c))
        }
    } else {
        (EventV::Literal(acc), p)
    }
}

/// A placeholder: characters accumulate into the current field name, a slash
/// finishes one name and starts the next, a closing brace finishes the
/// placeholder, and the end of the input is the terminal error.
pub open spec fn spec_fp_placeholder(p: FView, cur: Seq<char>, fields: Seq<Seq<char>>) -> (
    EventV,
    FView,
)
    decreases p.input.len() - p.pos,
{
    if 0 <= p.pos < p.input.len() {
        let c = p.input[p.pos];
        let p1 = FView { pos: p.pos + 1, ..p };
        if c == '}' {
            (EventV::Placeholder(fields.push(cur)), FView { state: ParserState::Undefined, ..p1 })
        } else if c == '/' {
            spec_fp_placeholder(p1, Seq::empty(), fields.push(cur))
        } else {
            spec_fp_placeholder(p1, cur.push(c), fields)
        }
    } else {
        (
            EventV::Error(ParserError::EOFWhileParsingPlaceholder),
            FView { state: ParserState::Broken(ParserError::EOFWhileParsingPlaceholder), ..p },
        )
    }
}

/// One pull of the tokenizer: a broken tokenizer repeats its error; outside
/// a placeholder the next character either opens one or starts a literal
/// run; the input's clean end ends the token stream.
pub open spec fn spec_fp_next(p: FView) -> (Option<EventV>, FView) {
    match p.state {
        ParserState::Broken(e) => (Option::Some(EventV::Error(e)), p),
        ParserState::ParsePlaceholder => {
            let r = spec_fp_placeholder(p, Seq::empty(), Seq::empty());
            (Option::Some(r.0), r.1)
        },
        ParserState::Undefined => {
            if 0 <= p.pos < p.input.len() {
                let c = p.input[p.pos];
                let p1 = FView { pos: p.pos + 1, ..p };
                let r = if c == '{' {
                    spec_fp_placeholder(p1, Seq::empty(), Seq::empty())
                } else {
                    spec_fp_literal(p1, seq![c])
                };
                (Option::Some(r.0), r.1)
            } else {
                (Option::None, p)
            }
        },
    }
}

proof fn lemma_fp_literal_props(p: FView, acc: Seq<char>)
    requires
        fp_wf(p),
    ensures
        spec_fp_literal(p, acc).1.input == p.input,
        spec_fp_literal(p, acc).1.pos >= p.pos,
        fp_wf(spec_fp_literal(p, acc).1),
    decreases p.input.len() - p.pos,
{
    if 0 <= p.pos < p.input.len() {
        let c = p.input[p.pos];
        if c != '{' {
            lemma_fp_literal_props(FView { pos: p.pos + 1, ..p }, acc.push(c));
        }
    }
}

proof fn lemma_fp_placeholder_props(p: FView, cur: Seq<char>, fields: Seq<Seq<char>>)
    requires
        fp_wf(p),
    ensures
        spec_fp_placeholder(p, cur, fields).1.input == p.input,
        spec_fp_placeholder(p, cur, fields).1.pos >= p.pos,
        fp_wf(spec_fp_placeholder(p, cur, fields).1),
    decreases p.input.len() - p.pos,
{
    if 0 <= p.pos < p.input.len() {
        let c = p.input[p.pos];
        let p1 = FView { pos: p.pos + 1, ..p };
        if c == '/' {
            lemma_fp_placeholder_props(p1, Seq::empty(), fields.push(cur));
        } else if c != '}' {
            lemma_fp_placeholder_props(p1, cur.push(c), fields);
        }
    }
}

/// What one pull does: the input never changes, the position never moves
/// back, and a token that is not an error moves it strictly forward.
pub proof fn lemma_fp_next_props(p: FView)
    requires
        fp_wf(p),
    ensures
        spec_fp_next(p).1.input == p.input,
        spec_fp_next(p).1.pos >= p.pos,
        fp_wf(spec_fp_next(p).1),
        (match spec_fp_next(p).0 {
            Option::Some(ev) => !(ev is Error) ==> spec_fp_next(p).1.pos > p.pos,
            Option::None => true,
        }),
{
    match p.state {
        ParserState::Broken(_) => {},
        ParserState::ParsePlaceholder => {
            lemma_fp_placeholder_props(p, Seq::empty(), Seq::empty());
            lemma_fp_placeholder_strict(p, Seq::empty(), Seq::empty());
        },
        ParserState::Undefined => {
            if 0 <= p.pos < p.input.len() {
                let c = p.input[p.pos];
                let p1 = FView { pos: p.pos + 1, ..p };
                if c == '{' {
                    lemma_fp_placeholder_props(p1, Seq::empty(), Seq::empty());
                    lemma_fp_placeholder_strict(p1, Seq::empty(), Seq::empty());
                } else {
                    lemma_fp_literal_props(p1, seq![c]);
                }
            }
        },
    }
}

proof fn lemma_fp_placeholder_strict(p: FView, cur: Seq<char>, fields: Seq<Seq<char>>)
    requires
        fp_wf(p),
    ensures
        !(spec_fp_placeholder(p, cur, fields).0 is Error) ==> spec_fp_placeholder(
            p,
            cur,
            fields,
        ).1.pos > p.pos,
    decreases p.input.len() - p.pos,
{
    if 0 <= p.pos < p.input.len() {
        let c = p.input[p.pos];
        let p1 = FView { pos: p.pos + 1, ..p };
        if c == '/' {
            lemma_fp_placeholder_strict(p1, Seq::empty(), fields.push(cur));
            lemma_fp_placeholder_props(p1, Seq::empty(), fields.push(cur));
        } else if c != '}' {
            lemma_fp_placeholder_strict(p1, cur.push(c), fields);
            lemma_fp_placeholder_props(p1, cur.push(c), fields);
        }
    }
}

/// The whole token stream of a format string: tokens until the clean end,
/// the first error ending the stream with that error as its last token.
pub open spec fn fp_collect(p: FView) -> Seq<EventV>
    decreases p.input.len() - p.pos, 1int,
    via fp_collect_dec
{
    let r = spec_fp_next(p);
    match r.0 {
        Option::None => Seq::empty(),
        Option::Some(ev) => if ev is Error {
            seq![ev]
        } else {
            seq![ev] + fp_collect(r.1)
        },
    }
}

#[via_fn]
proof fn fp_collect_dec(p: FView) {
    if fp_wf(p) {
        lemma_fp_next_props(p);
    }
}

/// The initial tokenizer state over a format string.
pub open spec fn fp_initial(input: Seq<char>) -> FView {
    FView { input: input, pos: 0, state: ParserState::Undefined }
}

/// The streaming tokenizer over a format string's characters.
pub struct FormatParser {
    reader: Vec<char>,
    pos: usize,
    state: ParserState,
}

impl View for FormatParser {
    type V = FView;

    closed spec fn view(&self) -> FView {
        FView { input: self.reader@, pos: self.pos as int, state: self.state }
    }
}

impl FormatParser {
    pub open spec fn wf(&self) -> bool {
        fp_wf(self@)
    }

    /// A tokenizer over the given characters.
    pub fn new(reader: Vec<char>) -> (p: FormatParser)
        ensures
            p@ == fp_initial(reader@),
            p.wf(),
    {
        FormatParser { reader: reader, pos: 0, state: ParserState::Undefined }
    }

    fn parse_literal(&mut self, ch: char) -> (r: ParserEvent)
        requires
            wf_start(old(self)@),
        ensures
            r@ == spec_fp_literal(old(self)@, seq![ch]).0,
            final(self)@ == spec_fp_literal(old(self)@, seq![ch]).1,
            final(self).wf(),
    {
        let mut result = String::new();
        push_char(&mut result, ch);
        proof {
            assert(Seq::<char>::empty().push(ch) =~= seq![ch]);
        }
        loop
            invariant_except_break
                self@.state == old(self)@.state,
                spec_fp_literal(self@, result@) == spec_fp_literal(old(self)@, seq![ch]),
            invariant
                fp_wf(self@),
                self@.input == old(self)@.input,
            ensures
                fp_wf(self@),
                self@.input == old(self)@.input,
                (self@.pos == self@.input.len() && self@.state == old(self)@.state
                    && spec_fp_literal(self@, result@) == spec_fp_literal(old(self)@, seq![ch]))
                    || (
                self@.state == ParserState::ParsePlaceholder && spec_fp_literal(
                    old(self)@,
                    seq![ch],
                ).1 == self@),
                spec_fp_literal(old(self)@, seq![ch]).0 == EventV::Literal(result@),
            decreases self.reader@.len() - self.pos,
        {
            if self.pos >= self.reader.len() {
                break;
            }
            let c = self.reader[self.pos];
            self.pos = self.pos + 1;
            if c == '{' {
                self.state = ParserState::ParsePlaceholder;
                break;
            }
            push_char(&mut result, c);
        }
        ParserEvent::Literal(result)
    }

    fn parse_placeholder(&mut self) -> (r: ParserEvent)
        requires
            wf_start(old(self)@),
        ensures
            r@ == spec_fp_placeholder(old(self)@, Seq::empty(), Seq::empty()).0,
            final(self)@ == spec_fp_placeholder(old(self)@, Seq::empty(), Seq::empty()).1,
            final(self).wf(),
    {
        let mut cur = String::new();
        let mut fields: Vec<String> = Vec::new();
        proof {
            assert(string_views(fields@) =~= Seq::<Seq<char>>::empty());
        }
        loop
            invariant
                fp_wf(self@),
                self@.state == old(self)@.state,
                self@.input == old(self)@.input,
                spec_fp_placeholder(self@, cur@, string_views(fields@)) == spec_fp_placeholder(
                    old(self)@,
                    Seq::empty(),
                    Seq::empty(),
                ),
            decreases self.reader@.len() - self.pos,
        {
            if self.pos >= self.reader.len() {
                self.state = ParserState::Broken(ParserError::EOFWhileParsingPlaceholder);
                return ParserEvent::Error(ParserError::EOFWhileParsingPlaceholder);
            }
            let c = self.reader[self.pos];
            self.pos = self.pos + 1;
            if c == '}' {
                self.state = ParserState::Undefined;
                let ghost fields0 = fields@;
                fields.push(cur);
                proof {
                    assert(string_views(fields@) =~= string_views(fields0).push(cur@));
                }
                return ParserEvent::Placeholder(fields);
            } else if c == '/' {
                let ghost fields0 = fields@;
                let done = cur;
                fields.push(done);
                cur = String::new();
                proof {
                    assert(string_views(fields@) =~= string_views(fields0).push(done@));
                }
            } else {
                push_char(&mut cur, c);
            }
        }
    }

    /// One pull of the token stream: `None` ends it at a clean end of input;
    /// after the terminal error every further pull repeats it.
    pub fn next(&mut self) -> (r: Option<ParserEvent>)
        requires
            old(self).wf(),
        ensures
            opt_token_view(r) == spec_fp_next(old(self)@).0,
            final(self)@ == spec_fp_next(old(self)@).1,
            final(self).wf(),
    {
        match self.state {
            ParserState::Broken(e) => Option::Some(ParserEvent::Error(e)),
            ParserState::ParsePlaceholder => Option::Some(self.parse_placeholder()),
            ParserState::Undefined => {
                if self.pos >= self.reader.len() {
                    Option::None
                } else {
                    let c = self.reader[self.pos];
                    self.pos = self.pos + 1;
                    if c == '{' {
                        Option::Some(self.parse_placeholder())
                    } else {
                        Option::Some(self.parse_literal(c))
                    }
                }
            },
        }
    }
}

/// Well-formed and not broken: the states the private steps run in.
pub open spec fn wf_start(p: FView) -> bool {
    fp_wf(p) && !(p.state is Broken)
}

/// Walking a field path through nested objects: each name must be found in
/// the object at hand; the first name that is not there names the failure.
pub open spec fn walk_path(fields: Seq<Seq<char>>, i: int, cur: ValueS) -> Result<ValueS, Seq<char>>
    decreases fields.len() - i,
{
    if 0 <= i < fields.len() {
        match cur {
            ValueS::Object(ps) => match lookup_s(ps, fields[i]) {
                Option::Some(v) => walk_path(fields, i + 1, v),
                Option::None => Result::Err(fields[i]),
            },
            _ => Result::Err(fields[i]),
        }
    } else {
        Result::Ok(cur)
    }
}

/// The spec-level image of a resolution error.
pub ghost enum TokenErrV {
    KeyNotFound(Seq<char>),
    TypeMismatch,
    SyntaxError(ParserError),
}

/// Why one token failed to resolve: a path name that is not there, a
/// container where a scalar was needed, or a tokenizer error replayed.
#[derive(Debug, Clone, PartialEq)]
pub enum TokenError {
    KeyNotFound(String),
    TypeMismatch,
    SyntaxError(ParserError),
}

impl View for TokenError {
    type V = TokenErrV;

    open spec fn view(&self) -> TokenErrV {
        match self {
            TokenError::KeyNotFound(k) => TokenErrV::KeyNotFound(k@),
            TokenError::TypeMismatch => TokenErrV::TypeMismatch,
            TokenError::SyntaxError(e) => TokenErrV::SyntaxError(*e),
        }
    }
}

/// What one token resolves to against a record: a literal is its own text; a
/// placeholder walks its path and renders the scalar it reaches; an error
/// token replays the tokenizer's error.
pub open spec fn consume_s(ev: EventV, payload: Seq<(Seq<char>, ValueS)>) -> Result<
    Seq<char>,
    TokenErrV,
> {
    match ev {
        EventV::Literal(s) => Result::Ok(s),
        EventV::Error(e) => Result::Err(TokenErrV::SyntaxError(e)),
        EventV::Placeholder(fields) => match walk_path(fields, 0, ValueS::Object(payload)) {
            Result::Err(k) => Result::Err(TokenErrV::KeyNotFound(k)),
            Result::Ok(v) => match scalar_str(v) {
                Option::Some(t) => Result::Ok(t),
                Option::None => Result::Err(TokenErrV::TypeMismatch),
            },
        },
    }
}

/// A placeholder that reaches an array- or object-valued leaf fails with a
/// type mismatch: a container is never silently rendered as text.
pub proof fn lemma_container_leaf_never_renders(
    fields: Seq<Seq<char>>,
    payload: Seq<(Seq<char>, ValueS)>,
)
    ensures
        (match walk_path(fields, 0, ValueS::Object(payload)) {
            Result::Ok(v) => (v is List || v is Object) ==> consume_s(
                EventV::Placeholder(fields),
                payload,
            ) == Result::<Seq<char>, TokenErrV>::Err(TokenErrV::TypeMismatch),
            Result::Err(_) => true,
        }),
{
}

/// Resolves one token against a record.
pub fn consume(event: &ParserEvent, payload: &Record) -> (r: Result<String, TokenError>)
    ensures
        (match r {
            Result::Ok(s) => consume_s(event@, payload@) == Result::<Seq<char>, TokenErrV>::Ok(s@),
            Result::Err(e) => consume_s(event@, payload@) == Result::<Seq<char>, TokenErrV>::Err(
                e@,
            ),
        }),
{
    match event {
        ParserEvent::Literal(s) => Result::Ok(s.clone()),
        ParserEvent::Error(e) => Result::Err(TokenError::SyntaxError(*e)),
        ParserEvent::Placeholder(fields) => {
            let ghost fv = string_views(fields@);
            let mut i: usize = 0;
            let mut current: &RecordItem = &RecordItem::Null;
            let mut started = false;
            loop
                invariant
                    event@ == EventV::Placeholder(fv),
                    0 <= i <= fields@.len(),
                    fv == string_views(fields@),
                    !started ==> i == 0,
                    (if started {
                        walk_path(fv, i as int, item_view(*current))
                    } else {
                        walk_path(fv, 0, ValueS::Object(payload@))
                    }) == walk_path(fv, 0, ValueS::Object(payload@)),
                ensures
                    i == fields@.len(),
                    started ==> walk_path(fv, 0, ValueS::Object(payload@)) == Result::<
                        ValueS,
                        Seq<char>,
                    >::Ok(item_view(*current)),
                    !started ==> walk_path(fv, 0, ValueS::Object(payload@)) == Result::<
                        ValueS,
                        Seq<char>,
                    >::Ok(ValueS::Object(payload@)),
                decreases fields@.len() - i,
            {
                if i >= fields.len() {
                    break;
                }
                let name: &String = &fields[i];
                let found = if started {
                    match current {
                        RecordItem::Object(ps) => find_in_pairs(ps, name.as_str()),
                        _ => Option::None,
                    }
                } else {
                    payload.find(name.as_str())
                };
                match found {
                    Option::Some(v) => {
                        current = v;
                        started = true;
                    },
                    Option::None => {
                        proof {
                            assert(event@ == EventV::Placeholder(fv));
                            assert(fv[i as int] == fields@[i as int]@);
                            if started {
                                assert(walk_path(fv, i as int, item_view(*current))
                                    == Result::<ValueS, Seq<char>>::Err(fv[i as int]));
                            } else {
                                assert(walk_path(fv, 0, ValueS::Object(payload@)) == Result::<
                                    ValueS,
                                    Seq<char>,
                                >::Err(fv[0]));
                            }
                            assert(walk_path(fv, 0, ValueS::Object(payload@)) == Result::<
                                ValueS,
                                Seq<char>,
                            >::Err(name@));
                            assert(consume_s(EventV::Placeholder(fv), payload@) == Result::<
                                Seq<char>,
                                TokenErrV,
                            >::Err(TokenErrV::KeyNotFound(name@)));
                        }
                        return Result::Err(TokenError::KeyNotFound(name.clone()));
                    },
                }
                i = i + 1;
            }
            if !started {
                return Result::Err(TokenError::TypeMismatch);
            }
            render_scalar(current)
        },
    }
}

/// Renders a scalar item as its natural text; containers do not render.
fn render_scalar(v: &RecordItem) -> (r: Result<String, TokenError>)
    ensures
        (match r {
            Result::Ok(s) => scalar_str(item_view(*v)) == Option::Some(s@),
            Result::Err(e) => e@ == TokenErrV::TypeMismatch && scalar_str(item_view(*v)) is None,
        }),
{
    match v {
        RecordItem::Null => Result::Ok("null".to_owned()),
        RecordItem::Bool(b) => if *b {
            Result::Ok("true".to_owned())
        } else {
            Result::Ok("false".to_owned())
        },
        RecordItem::Number(n) => {
            let mut s = String::new();
            push_number(&mut s, *n);
            proof {
                assert(Seq::<char>::empty() + number_str(*n) =~= number_str(*n));
            }
            Result::Ok(s)
        },
        RecordItem::String(s) => Result::Ok(s.clone()),
        RecordItem::Array(_) => Result::Err(TokenError::TypeMismatch),
        RecordItem::Object(_) => Result::Err(TokenError::TypeMismatch),
    }
}

/// The images of a list of tokens.
pub open spec fn token_views(v: Seq<ParserEvent>) -> Seq<EventV> {
    Seq::new(v.len(), |i: int| v[i]@)
}

/// The whole token stream of a format string, pulled until the clean end or
/// the first error, which ends the stream as its last token.
fn collect_tokens(src: Vec<char>) -> (r: Vec<ParserEvent>)
    ensures
        token_views(r@) == fp_collect(fp_initial(src@)),
{
    let ghost total = fp_collect(fp_initial(src@));
    let mut p = FormatParser::new(src);
    let mut out: Vec<ParserEvent> = Vec::new();
    proof {
        assert(token_views(out@) =~= Seq::<EventV>::empty());
        assert(Seq::<EventV>::empty() + fp_collect(p@) =~= fp_collect(p@));
    }
    loop
        invariant_except_break
            token_views(out@) + fp_collect(p@) == total,
        invariant
            p.wf(),
            total == fp_collect(fp_initial(src@)),
        ensures
            token_views(out@) == total,
        decreases p@.input.len() - p@.pos,
    {
        let ghost p0 = p@;
        proof {
            lemma_fp_next_props(p0);
        }
        let ghost out0 = out@;
        match p.next() {
            Option::None => {
                proof {
                    assert(fp_collect(p0) =~= Seq::<EventV>::empty());
                    assert(token_views(out@) =~= token_views(out@) + fp_collect(p0));
                }
                break;
            },
            Option::Some(ev) => {
                let is_err = match &ev {
                    ParserEvent::Error(_) => true,
                    _ => false,
                };
                let ghost evv = ev@;
                out.push(ev);
                proof {
                    assert(token_views(out@) =~= token_views(out0).push(evv));
                }
                if is_err {
                    proof {
                        assert(fp_collect(p0) =~= seq![evv]);
                        assert(token_views(out0).push(evv) =~= token_views(out0) + seq![evv]);
                        assert(token_views(out@) =~= total);
                    }
                    break;
                }
                proof {
                    assert(fp_collect(p0) == seq![evv] + fp_collect(p@));
                    assert(token_views(out0).push(evv) + fp_collect(p@) =~= token_views(out0) + (
                    seq![evv] + fp_collect(p@)));
                }
            },
        }
    }
    out
}

/// What a token list resolves to against a record, token by token from slot
/// `i`: the concatenation of every token's text, or the first failure.
pub open spec fn resolve_s(tokens: Seq<EventV>, payload: Seq<(Seq<char>, ValueS)>, i: int) -> Result<
    Seq<char>,
    TokenErrV,
>
    decreases tokens.len() - i,
{
    if 0 <= i < tokens.len() {
        match consume_s(tokens[i], payload) {
            Result::Err(e) => Result::Err(e),
            Result::Ok(t) => match resolve_s(tokens, payload, i + 1) {
                Result::Err(e) => Result::Err(e),
                Result::Ok(rest) => Result::Ok(t + rest),
            },
        }
    } else {
        Result::Ok(Seq::empty())
    }
}

/// Text already produced, in front of what a resolution tail yields.
pub open spec fn prepend_text(a: Seq<char>, r: Result<Seq<char>, TokenErrV>) -> Result<
    Seq<char>,
    TokenErrV,
> {
    match r {
        Result::Ok(t) => Result::Ok(a + t),
        Result::Err(e) => Result::Err(e),
    }
}

/// Resolves every token in order into one piece of text; any token's
/// failure is the whole resolution's failure, and the record is dropped by
/// the caller, never written.
pub fn resolve_tokens(tokens: &Vec<ParserEvent>, payload: &Record) -> (r: Result<
    String,
    TokenError,
>)
    ensures
        (match r {
            Result::Ok(s) => resolve_s(token_views(tokens@), payload@, 0) == Result::<
                Seq<char>,
                TokenErrV,
            >::Ok(s@),
            Result::Err(e) => resolve_s(token_views(tokens@), payload@, 0) == Result::<
                Seq<char>,
                TokenErrV,
            >::Err(e@),
        }),
{
    let ghost tv = token_views(tokens@);
    let mut acc = String::new();
    let mut i: usize = 0;
    proof {
        assert(prepend_text(acc@, resolve_s(tv, payload@, 0)) == resolve_s(tv, payload@, 0)) by {
            match resolve_s(tv, payload@, 0) {
                Result::Ok(t) => {
                    assert(Seq::<char>::empty() + t =~= t);
                },
                Result::Err(_) => {},
            }
        }
    }
    loop
        invariant
            tv == token_views(tokens@),
            0 <= i <= tokens@.len(),
            prepend_text(acc@, resolve_s(tv, payload@, i as int)) == resolve_s(tv, payload@, 0),
        ensures
            i == tokens@.len(),
            prepend_text(acc@, resolve_s(tv, payload@, i as int)) == resolve_s(tv, payload@, 0),
        decreases tokens@.len() - i,
    {
        if i >= tokens.len() {
            break;
        }
        match consume(&tokens[i], payload) {
            Result::Err(e) => {
                proof {
                    assert(tv[i as int] == tokens@[i as int]@);
                }
                return Result::Err(e);
            },
            Result::Ok(t) => {
                let ghost acc0 = acc@;
                crate::json::push_str_to(&mut acc, t.as_str());
                proof {
                    assert(tv[i as int] == tokens@[i as int]@);
                    assert(prepend_text(acc@, resolve_s(tv, payload@, i as int + 1)) == resolve_s(
                        tv,
                        payload@,
                        0,
                    )) by {
                        match resolve_s(tv, payload@, i as int + 1) {
                            Result::Ok(rest) => {
                                assert((acc0 + t@) + rest =~= acc0 + (t@ + rest));
                            },
                            Result::Err(_) => {},
                        }
                    }
                }
            },
        }
        i = i + 1;
    }
    proof {
        assert(resolve_s(tv, payload@, tokens@.len() as int) == Result::<
            Seq<char>,
            TokenErrV,
        >::Ok(Seq::<char>::empty()));
        assert(acc@ + Seq::<char>::empty() =~= acc@);
    }
    Result::Ok(acc)
}

/// The first cache slot holding the given file identity.
pub open spec fn find_slot(files: Seq<u64>, ino: u64, i: int) -> Option<int>
    decreases files.len() - i,
{
    if 0 <= i < files.len() {
        if files[i] == ino {
            Option::Some(i)
        } else {
            find_slot(files, ino, i + 1)
        }
    } else {
        Option::None
    }
}

/// The spec-level state of a file sink: its two token lists and the file
/// identity each cached handle slot belongs to.
pub ghost struct FOView {
    pub path: Seq<EventV>,
    pub message: Seq<EventV>,
    pub files: Seq<u64>,
}

/// The file sink's decisions: pre-tokenized path and message templates, and
/// the handle cache keyed by filesystem identity, never by path text. The
/// sink's caller resolves a record's path, asks the filesystem for that
/// path's identity, acquires the slot for it -- opening a handle only when
/// the slot is fresh -- and writes the resolved message line to it.
pub struct FileOutput {
    path: Vec<ParserEvent>,
    message: Vec<ParserEvent>,
    files: Vec<u64>,
}

impl View for FileOutput {
    type V = FOView;

    closed spec fn view(&self) -> FOView {
        FOView { path: token_views(self.path@), message: token_views(self.message@), files: self.files@ }
    }
}

impl FileOutput {
    /// A sink over a path template and a message format, with an empty
    /// handle cache.
    pub fn new(path: &str, format: &str) -> (o: FileOutput)
        ensures
            o@.path == fp_collect(fp_initial(path@)),
            o@.message == fp_collect(fp_initial(format@)),
            o@.files == Seq::<u64>::empty(),
    {
        let o = FileOutput {
            path: collect_tokens(str_chars(path)),
            message: collect_tokens(str_chars(format)),
            files: Vec::new(),
        };
        proof {
            assert(o@.files =~= Seq::<u64>::empty());
        }
        o
    }

    /// The record's target path: every path token resolved, in order.
    pub fn resolve_path(&self, payload: &Record) -> (r: Result<String, TokenError>)
        ensures
            (match r {
                Result::Ok(s) => resolve_s(self@.path, payload@, 0) == Result::<
                    Seq<char>,
                    TokenErrV,
                >::Ok(s@),
                Result::Err(e) => resolve_s(self@.path, payload@, 0) == Result::<
                    Seq<char>,
                    TokenErrV,
                >::Err(e@),
            }),
    {
        resolve_tokens(&self.path, payload)
    }

    /// The record's message line: every message token resolved, in order.
    pub fn resolve_message(&self, payload: &Record) -> (r: Result<String, TokenError>)
        ensures
            (match r {
                Result::Ok(s) => resolve_s(self@.message, payload@, 0) == Result::<
                    Seq<char>,
                    TokenErrV,
                >::Ok(s@),
                Result::Err(e) => resolve_s(self@.message, payload@, 0) == Result::<
                    Seq<char>,
                    TokenErrV,
                >::Err(e@),
            }),
    {
        resolve_tokens(&self.message, payload)
    }

    /// The handle slot for a file identity: an already-cached identity keeps
    /// its slot and nothing is opened; a new identity is given the next slot,
    /// and only then does the caller open a handle, at most once per
    /// identity for the sink's lifetime.
    pub fn acquire(&mut self, ino: u64) -> (r: (usize, bool))
        ensures
            final(self)@.path == old(self)@.path,
            final(self)@.message == old(self)@.message,
            (match find_slot(old(self)@.files, ino, 0) {
                Option::Some(ix) => r.0 == ix && r.1 == false && final(self)@.files == old(
                    self,
                )@.files,
                Option::None => r.0 == old(self)@.files.len() && r.1 == true && final(self)@.files
                    == old(self)@.files.push(ino),
            }),
    {
        let mut i: usize = 0;
        loop
            invariant
                0 <= i <= self.files@.len(),
                self@ == old(self)@,
                find_slot(self.files@, ino, 0) == find_slot(self.files@, ino, i as int),
            ensures
                self@ == old(self)@,
                i == self.files@.len(),
                find_slot(self.files@, ino, 0) is None,
            decreases self.files@.len() - i,
        {
            if i >= self.files.len() {
                break;
            }
            if self.files[i] == ino {
                return (i, false);
            }
            i = i + 1;
        }
        let slot = self.files.len();
        self.files.push(ino);
        (slot, true)
    }
}

/// Two acquisitions that land on the same file identity share one slot: once
/// an identity has a slot, acquiring it again finds that slot and opens
/// nothing new.
pub proof fn lemma_same_identity_shares_handle(files: Seq<u64>, ino: u64)
    ensures
        find_slot(files.push(ino), ino, 0) is Some,
        (match find_slot(files, ino, 0) {
            Option::Some(ix) => find_slot(files.push(ino), ino, 0) == Option::Some(ix),
            Option::None => find_slot(files.push(ino), ino, 0) == Option::Some(
                files.len() as int,
            ),
        }),
{
    lemma_find_slot_push(files, ino, 0);
}

proof fn lemma_find_slot_push(files: Seq<u64>, ino: u64, i: int)
    requires
        0 <= i <= files.len(),
    ensures
        (match find_slot(files, ino, i) {
            Option::Some(ix) => find_slot(files.push(ino), ino, i) == Option::Some(ix),
            Option::None => find_slot(files.push(ino), ino, i) == Option::Some(
                files.len() as int,
            ),
        }),
    decreases files.len() - i,
{
    if i < files.len() {
        if files[i] != ino {
            lemma_find_slot_push(files, ino, i + 1);
        }
    }
}

} // verus!
