//! The wire codec: one protocol message to one transport line and back.
//!
//! A line is `<prelude> <reciever> <sender> <fields...>`, optionally followed
//! by `%<payload>`; the prelude token decides the variant and therefore the
//! meaning of the remaining fields.

use vstd::prelude::*;

use crate::text::{
    all_digits, chars_to_string, dec_str, escape, escape_chars, find_pct, is_token,
    lemma_dec_str_digits, lemma_pct_pos_first, lemma_pct_pos_none, lemma_tokens_append_space,
    lemma_tokens_append_token, lemma_unescape_escape, pad8, pad8_chars, parse_u32_chars, pct_pos,
    push_str_chars, spec_is_digit, spec_parse_u32, str_to_chars, sub_vec, token_views, tokenize,
    tokens_of, unescape, unescape_chars,
};

verus! {

/// The kind of a message and its variant-specific fields.
#[allow(inconsistent_fields)]
pub enum MessageType {
    /// A complete, unparted message. `payload` is `None` exactly when the
    /// line carries no payload marker: absence of a payload and an empty
    /// payload are distinct on the wire and stay distinct here.
    Sea0 { action: String, payload: Option<String> },
    /// Announces that `parts` part frames sharing `id` will follow.
    Sea1 { action: String, id: String, parts: u32 },
    /// One chunk of a parted payload.
    Sea2 { part: u32, id: String, payload: String },
}

/// A message of the protocol: a variant plus the two peer names.
pub struct Message {
    pub message_type: MessageType,
    pub sender: String,
    pub reciever: String,
}

/// Why a line failed to decode.
#[derive(Debug, Clone, Copy, PartialEq, Eq)]
pub enum MessageParseError {
    /// The header holds no fields at all.
    EmptyMessageContent,
    /// The first field is not a known prelude token.
    UnknownSeaDotProtocol,
    /// A field (or a required payload marker) the variant needs is missing.
    IncompleteHeader,
    /// A numeric field does not read as a positive `u32`.
    ParseIntError,
}

pub ghost enum MessageTypeView {
    Sea0 { action: Seq<char>, payload: Option<Seq<char>> },
    Sea1 { action: Seq<char>, id: Seq<char>, parts: u32 },
    Sea2 { part: u32, id: Seq<char>, payload: Seq<char> },
}

pub ghost struct MessageView {
    pub message_type: MessageTypeView,
    pub sender: Seq<char>,
    pub reciever: Seq<char>,
}

/// The view of an optional payload.
pub open spec fn payload_view(p: Option<String>) -> Option<Seq<char>> {
    match p {
        Option::Some(s) => Option::Some(s@),
        Option::None => Option::None,
    }
}

impl View for MessageType {
    type V = MessageTypeView;

    open spec fn view(&self) -> MessageTypeView {
        match self {
            MessageType::Sea0 { action, payload } => MessageTypeView::Sea0 {
                action: action@,
                payload: payload_view(*payload),
            },
            MessageType::Sea1 { action, id, parts } => MessageTypeView::Sea1 {
                action: action@,
                id: id@,
                parts: *parts,
            },
            MessageType::Sea2 { part, id, payload } => MessageTypeView::Sea2 {
                part: *part,
                id: id@,
                payload: payload@,
            },
        }
    }
}

impl View for Message {
    type V = MessageView;

    open spec fn view(&self) -> MessageView {
        MessageView {
            message_type: self.message_type@,
            sender: self.sender@,
            reciever: self.reciever@,
        }
    }
}

/// A message the protocol can carry faithfully: peer names, actions and
/// transfer ids are tokens, and an announced part count is positive.
pub open spec fn wf_msg(m: MessageView) -> bool {
    &&& is_token(m.sender)
    &&& is_token(m.reciever)
    &&& match m.message_type {
        MessageTypeView::Sea0 { action, .. } => is_token(action),
        MessageTypeView::Sea1 { action, id, parts } => is_token(action) && is_token(id) && parts
            >= 1,
        MessageTypeView::Sea2 { id, .. } => is_token(id),
    }
}

pub open spec fn prelude_single() -> Seq<char> {
    seq!['\\', 's', 'e', 'a', '.', '0']
}

pub open spec fn prelude_announce() -> Seq<char> {
    seq!['\\', 's', 'e', 'a', '.', '1']
}

pub open spec fn prelude_part() -> Seq<char> {
    seq!['\\', 's', 'e', 'a', '.', '2']
}

pub open spec fn prelude_of(t: MessageTypeView) -> Seq<char> {
    match t {
        MessageTypeView::Sea0 { .. } => prelude_single(),
        MessageTypeView::Sea1 { .. } => prelude_announce(),
        MessageTypeView::Sea2 { .. } => prelude_part(),
    }
}

/// The fields of `ts` in order, each followed by one separating space.
pub open spec fn spaced(ts: Seq<Seq<char>>) -> Seq<char>
    decreases ts.len(),
{
    if ts.len() == 0 {
        Seq::empty()
    } else {
        spaced(ts.drop_last()) + ts.last() + seq![' ']
    }
}

/// The one transport line a message encodes to. The payload marker
/// appears exactly when an unparted message carries a payload.
pub open spec fn encoded(m: MessageView) -> Seq<char> {
    match m.message_type {
        MessageTypeView::Sea0 { action, payload } => match payload {
            Option::Some(p) => spaced(seq![prelude_single(), m.reciever, m.sender, action])
                + seq!['%'] + escape(p),
            Option::None => spaced(seq![prelude_single(), m.reciever, m.sender]) + action,
        },
        MessageTypeView::Sea1 { action, id, parts } => spaced(
            seq![prelude_announce(), m.reciever, m.sender, dec_str(parts as nat), id],
        ) + action,
        MessageTypeView::Sea2 { part, id, payload } => spaced(
            seq![prelude_part(), m.reciever, m.sender, pad8(part as nat), id],
        ) + seq!['%'] + escape(payload),
    }
}

/// What decoding a line yields: the header is everything before the first
/// payload marker, split into fields; the first field picks the variant;
/// missing fields, a missing required marker, and bad numbers each give
/// their error.
pub open spec fn parsed(line: Seq<char>) -> Result<MessageView, MessageParseError> {
    let p = pct_pos(line) as int;
    let header = line.take(p);
    let has_marker = p < line.len();
    let payload = if has_marker {
        unescape(line.skip(p + 1))
    } else {
        Seq::<char>::empty()
    };
    let toks = tokens_of(header);
    if toks.len() == 0 {
        Err(MessageParseError::EmptyMessageContent)
    } else if toks[0] == prelude_single() {
        if toks.len() < 4 {
            Err(MessageParseError::IncompleteHeader)
        } else {
            Ok(
                (MessageView {
                    message_type: MessageTypeView::Sea0 {
                        action: toks[3],
                        payload: if has_marker {
                            Option::Some(payload)
                        } else {
                            Option::None
                        },
                    },
                    sender: toks[2],
                    reciever: toks[1],
                }),
            )
        }
    } else if toks[0] == prelude_announce() {
        if toks.len() < 6 {
            Err(MessageParseError::IncompleteHeader)
        } else {
            match spec_parse_u32(toks[3]) {
                Option::None => Err(MessageParseError::ParseIntError),
                Option::Some(parts) => if parts == 0 {
                    Err(MessageParseError::ParseIntError)
                } else {
                    Ok(
                        (MessageView {
                            message_type: MessageTypeView::Sea1 {
                                action: toks[5],
                                id: toks[4],
                                parts,
                            },
                            sender: toks[2],
                            reciever: toks[1],
                        }),
                    )
                },
            }
        }
    } else if toks[0] == prelude_part() {
        if toks.len() < 5 {
            Err(MessageParseError::IncompleteHeader)
        } else if !has_marker {
            Err(MessageParseError::IncompleteHeader)
        } else {
            match spec_parse_u32(toks[3]) {
                Option::None => Err(MessageParseError::ParseIntError),
                Option::Some(part) => Ok(
                    (MessageView {
                        message_type: MessageTypeView::Sea2 { part, id: toks[4], payload },
                        sender: toks[2],
                        reciever: toks[1],
                    }),
                ),
            }
        }
    } else {
        Err(MessageParseError::UnknownSeaDotProtocol)
    }
}

/// A decode result, seen abstractly.
pub open spec fn decode_result_view(r: Result<Message, MessageParseError>) -> Result<
    MessageView,
    MessageParseError,
> {
    match r {
        Ok(m) => Ok(m@),
        Err(e) => Err(e),
    }
}

impl Clone for MessageType {
    /// A clone carries the same fields.
    fn clone(&self) -> (r: Self)
        ensures
            r == *self,
    {
        match self {
            MessageType::Sea0 { action, payload } => MessageType::Sea0 {
                action: action.clone(),
                payload: match payload {
                    Option::Some(p) => Option::Some(p.clone()),
                    Option::None => Option::None,
                },
            },
            MessageType::Sea1 { action, id, parts } => MessageType::Sea1 {
                action: action.clone(),
                id: id.clone(),
                parts: *parts,
            },
            MessageType::Sea2 { part, id, payload } => MessageType::Sea2 {
                part: *part,
                id: id.clone(),
                payload: payload.clone(),
            },
        }
    }
}

impl MessageType {
    /// The literal token that identifies this variant on the wire.
    pub fn prelude(&self) -> (r: String)
        ensures
            r@ == prelude_of(self@),
    {
        proof {
            reveal_strlit("\\sea.0");
            reveal_strlit("\\sea.1");
            reveal_strlit("\\sea.2");
            assert(("\\sea.0")@ =~= prelude_single());
            assert(("\\sea.1")@ =~= prelude_announce());
            assert(("\\sea.2")@ =~= prelude_part());
        }
        match self {
            MessageType::Sea0 { .. } => "\\sea.0".to_owned(),
            MessageType::Sea1 { .. } => "\\sea.1".to_owned(),
            MessageType::Sea2 { .. } => "\\sea.2".to_owned(),
        }
    }
}

/// True exactly when `t` is the prelude token ending in `tag`.
fn is_prelude(t: &Vec<char>, tag: char) -> (r: bool)
    ensures
        r == (t@ == seq!['\\', 's', 'e', 'a', '.', tag]),
{
    let r = t.len() == 6 && t[0] == '\\' && t[1] == 's' && t[2] == 'e' && t[3] == 'a' && t[4] == '.'
        && t[5] == tag;
    proof {
        let target = seq!['\\', 's', 'e', 'a', '.', tag];
        if r {
            assert(t@ =~= target);
        } else {
            if t@ == target {
                assert(t@.len() == 6);
                assert(t@[0] == '\\' && t@[1] == 's' && t@[2] == 'e' && t@[3] == 'a' && t@[4] == '.'
                    && t@[5] == tag);
            }
        }
    }
    r
}

impl Message {
    /// Decodes one transport line, exactly as [`parsed`] says.
    pub fn from_string(message: String) -> (r: Result<Self, MessageParseError>)
        ensures
            decode_result_view(r) == parsed(message@),
    {
        let chars = str_to_chars(message.as_str());
        let p = find_pct(&chars);
        let header = sub_vec(&chars, 0, p);
        proof {
            assert(header@ =~= message@.take(p as int));
        }
        let has_marker = p < chars.len();
        let payload_chars = if has_marker {
            let raw = sub_vec(&chars, p + 1, chars.len());
            proof {
                assert(raw@ =~= message@.skip(p + 1));
            }
            unescape_chars(&raw)
        } else {
            Vec::<char>::new()
        };
        let toks = tokenize(&header);
        proof {
            assert(token_views(toks@) == tokens_of(message@.take(pct_pos(message@) as int)));
        }
        if toks.len() == 0 {
            return Err(MessageParseError::EmptyMessageContent);
        }
        proof {
            assert(token_views(toks@)[0] == toks@[0]@);
        }
        if is_prelude(&toks[0], '0') {
            if toks.len() < 4 {
                return Err(MessageParseError::IncompleteHeader);
            }
            proof {
                assert(token_views(toks@)[1] == toks@[1]@);
                assert(token_views(toks@)[2] == toks@[2]@);
                assert(token_views(toks@)[3] == toks@[3]@);
            }
            let action = chars_to_string(&toks[3]);
            let payload = if has_marker {
                Some(chars_to_string(&payload_chars))
            } else {
                None
            };
            let sender = chars_to_string(&toks[2]);
            let reciever = chars_to_string(&toks[1]);
            Ok(Message { message_type: MessageType::Sea0 { action, payload }, sender, reciever })
        } else if is_prelude(&toks[0], '1') {
            if toks.len() < 6 {
                return Err(MessageParseError::IncompleteHeader);
            }
            proof {
                assert(token_views(toks@)[1] == toks@[1]@);
                assert(token_views(toks@)[2] == toks@[2]@);
                assert(token_views(toks@)[3] == toks@[3]@);
                assert(token_views(toks@)[4] == toks@[4]@);
                assert(token_views(toks@)[5] == toks@[5]@);
            }
            match parse_u32_chars(&toks[3]) {
                Option::None => Err(MessageParseError::ParseIntError),
                Option::Some(parts) => {
                    if parts == 0 {
                        return Err(MessageParseError::ParseIntError);
                    }
                    let action = chars_to_string(&toks[5]);
                    let id = chars_to_string(&toks[4]);
                    let sender = chars_to_string(&toks[2]);
                    let reciever = chars_to_string(&toks[1]);
                    Ok(
                        Message {
                            message_type: MessageType::Sea1 { action, id, parts },
                            sender,
                            reciever,
                        },
                    )
                },
            }
        } else if is_prelude(&toks[0], '2') {
            if toks.len() < 5 {
                return Err(MessageParseError::IncompleteHeader);
            }
            if !has_marker {
                return Err(MessageParseError::IncompleteHeader);
            }
            proof {
                assert(token_views(toks@)[1] == toks@[1]@);
                assert(token_views(toks@)[2] == toks@[2]@);
                assert(token_views(toks@)[3] == toks@[3]@);
                assert(token_views(toks@)[4] == toks@[4]@);
            }
            match parse_u32_chars(&toks[3]) {
                Option::None => Err(MessageParseError::ParseIntError),
                Option::Some(part) => {
                    let id = chars_to_string(&toks[4]);
                    let payload = chars_to_string(&payload_chars);
                    let sender = chars_to_string(&toks[2]);
                    let reciever = chars_to_string(&toks[1]);
                    Ok(
                        Message {
                            message_type: MessageType::Sea2 { part, id, payload },
                            sender,
                            reciever,
                        },
                    )
                },
            }
        } else {
            Err(MessageParseError::UnknownSeaDotProtocol)
        }
    }

    /// Builds a resource request: an unparted message whose action is `req`
    /// and whose payload names the resource.
    pub fn make_resource_request(sender: &str, reciever: &str, resource: &str) -> (r: Self)
        ensures
            r@ == (MessageView {
                message_type: MessageTypeView::Sea0 {
                    action: "req"@,
                    payload: Some(resource@),
                },
                sender: sender@,
                reciever: reciever@,
            }),
    {
        Message {
            message_type: MessageType::Sea0 {
                action: "req".to_owned(),
                payload: Some(resource.to_owned()),
            },
            sender: sender.to_owned(),
            reciever: reciever.to_owned(),
        }
    }

    pub fn reciever(&self) -> (r: String)
        ensures
            r@ == self@.reciever,
    {
        self.reciever.clone()
    }

    pub fn sender(&self) -> (r: String)
        ensures
            r@ == self@.sender,
    {
        self.sender.clone()
    }

    pub fn message_type(&self) -> (r: MessageType)
        ensures
            r@ == self@.message_type,
    {
        self.message_type.clone()
    }

    /// Encodes this message as its one transport line, exactly as
    /// [`encoded`] says.
    pub fn to_line(&self) -> (r: String)
        ensures
            r@ == encoded(self@),
    {
        let mut out: Vec<char> = Vec::new();
        match &self.message_type {
            MessageType::Sea0 { action, payload } => {
                push_prelude_field(&mut out, '0');
                push_field(&mut out, self.reciever.as_str());
                push_field(&mut out, self.sender.as_str());
                match payload {
                    Some(p) => {
                        push_field(&mut out, action.as_str());
                        out.push('%');
                        let pc = str_to_chars(p.as_str());
                        let esc = escape_chars(&pc);
                        push_all(&mut out, &esc);
                        proof {
                            lemma_spaced4(
                                prelude_single(),
                                self@.reciever,
                                self@.sender,
                                action@,
                            );
                            assert(out@ =~= encoded(self@));
                        }
                    },
                    None => {
                        push_str_chars(&mut out, action.as_str());
                        proof {
                            lemma_spaced3(prelude_single(), self@.reciever, self@.sender);
                            assert(out@ =~= encoded(self@));
                        }
                    },
                }
            },
            MessageType::Sea1 { action, id, parts } => {
                push_prelude_field(&mut out, '1');
                push_field(&mut out, self.reciever.as_str());
                push_field(&mut out, self.sender.as_str());
                let ds = crate::text::u32_to_chars(*parts);
                push_all(&mut out, &ds);
                out.push(' ');
                push_field(&mut out, id.as_str());
                push_str_chars(&mut out, action.as_str());
                proof {
                    lemma_spaced5(
                        prelude_announce(),
                        self@.reciever,
                        self@.sender,
                        dec_str(*parts as nat),
                        id@,
                    );
                    assert(out@ =~= encoded(self@));
                }
            },
            MessageType::Sea2 { part, id, payload } => {
                push_prelude_field(&mut out, '2');
                push_field(&mut out, self.reciever.as_str());
                push_field(&mut out, self.sender.as_str());
                let ix = pad8_chars(*part);
                push_all(&mut out, &ix);
                out.push(' ');
                push_field(&mut out, id.as_str());
                out.push('%');
                let pc = str_to_chars(payload.as_str());
                let esc = escape_chars(&pc);
                push_all(&mut out, &esc);
                proof {
                    lemma_spaced5(
                        prelude_part(),
                        self@.reciever,
                        self@.sender,
                        pad8(*part as nat),
                        id@,
                    );
                    assert(out@ =~= encoded(self@));
                }
            },
        }
        chars_to_string(&out)
    }
}

/// Appends one field and its separating space.
fn push_field(out: &mut Vec<char>, s: &str)
    ensures
        final(out)@ == old(out)@ + s@ + seq![' '],
{
    push_str_chars(out, s);
    out.push(' ');
    proof {
        assert(final(out)@ =~= old(out)@ + s@ + seq![' ']);
    }
}

/// Appends the prelude token ending in `tag`, and its separating space.
fn push_prelude_field(out: &mut Vec<char>, tag: char)
    ensures
        final(out)@ == old(out)@ + seq!['\\', 's', 'e', 'a', '.', tag] + seq![' '],
{
    out.push('\\');
    out.push('s');
    out.push('e');
    out.push('a');
    out.push('.');
    out.push(tag);
    out.push(' ');
    proof {
        assert(final(out)@ =~= old(out)@ + seq!['\\', 's', 'e', 'a', '.', tag] + seq![' ']);
    }
}

/// Appends all of `v`.
fn push_all(out: &mut Vec<char>, v: &Vec<char>)
    ensures
        final(out)@ == old(out)@ + v@,
{
    let mut i: usize = 0;
    while i < v.len()
        invariant
            i <= v@.len(),
            out@ == old(out)@ + v@.take(i as int),
        decreases v@.len() - i,
    {
        out.push(v[i]);
        i += 1;
        proof {
            assert(old(out)@ + v@.take(i as int) =~= (old(out)@ + v@.take(i - 1)).push(v@[i - 1]));
        }
    }
    proof {
        assert(old(out)@ + v@.take(v@.len() as int) =~= old(out)@ + v@);
    }
}

pub(crate) proof fn lemma_spaced3(a: Seq<char>, b: Seq<char>, c: Seq<char>)
    ensures
        spaced(seq![a, b, c]) == a + seq![' '] + b + seq![' '] + c + seq![' '],
{
    assert(seq![a, b, c].drop_last() =~= seq![a, b]);
    assert(seq![a, b].drop_last() =~= seq![a]);
    assert(seq![a].drop_last() =~= Seq::<Seq<char>>::empty());
    assert(spaced(Seq::<Seq<char>>::empty()) == Seq::<char>::empty());
    assert(spaced(seq![a]) == spaced(Seq::<Seq<char>>::empty()) + a + seq![' ']);
    assert(spaced(seq![a, b]) == spaced(seq![a]) + b + seq![' ']);
    assert(spaced(seq![a, b, c]) == spaced(seq![a, b]) + c + seq![' ']);
    assert(spaced(seq![a, b, c]) =~= a + seq![' '] + b + seq![' '] + c + seq![' ']);
}

pub(crate) proof fn lemma_spaced4(a: Seq<char>, b: Seq<char>, c: Seq<char>, d: Seq<char>)
    ensures
        spaced(seq![a, b, c, d]) == a + seq![' '] + b + seq![' '] + c + seq![' '] + d + seq![' '],
{
    let ts = seq![a, b, c, d];
    assert(ts.drop_last() =~= seq![a, b, c]);
    lemma_spaced3(a, b, c);
    assert(spaced(ts) == spaced(seq![a, b, c]) + d + seq![' ']);
    assert(spaced(ts) =~= a + seq![' '] + b + seq![' '] + c + seq![' '] + d + seq![' ']);
}

/// A non-empty spaced header ends with its separating space.
proof fn lemma_spaced_last(ts: Seq<Seq<char>>)
    ensures
        ts.len() == 0 ==> spaced(ts).len() == 0,
        ts.len() > 0 ==> spaced(ts).len() > 0 && spaced(ts).last() == ' ',
{
    if ts.len() > 0 {
        assert(spaced(ts) == spaced(ts.drop_last()) + ts.last() + seq![' ']);
    }
}

/// A spaced header splits back into exactly its fields.
proof fn lemma_tokens_of_spaced(ts: Seq<Seq<char>>)
    requires
        forall|i: int| #![trigger ts[i]]
            0 <= i < ts.len() ==> ts[i].len() > 0 && (forall|j: int|
                0 <= j < ts[i].len() ==> !crate::spec_is_space(ts[i][j])),
    ensures
        tokens_of(spaced(ts)) == ts,
    decreases ts.len(),
{
    if ts.len() > 0 {
        let dl = ts.drop_last();
        let t = ts.last();
        lemma_tokens_of_spaced(dl);
        lemma_spaced_last(dl);
        lemma_tokens_append_token(spaced(dl), t);
        assert(spaced(dl) + t + seq![' '] =~= (spaced(dl) + t).push(' '));
        lemma_tokens_append_space(spaced(dl) + t, ' ');
        assert(tokens_of(spaced(ts)) == tokens_of(spaced(dl)).push(t));
        assert(dl.push(t) =~= ts);
    }
}

/// A spaced header made of marker-free fields holds no payload marker.
proof fn lemma_spaced_no_pct(ts: Seq<Seq<char>>)
    requires
        forall|i: int| #![trigger ts[i]]
            0 <= i < ts.len() ==> (forall|j: int| 0 <= j < ts[i].len() ==> ts[i][j] != '%'),
    ensures
        forall|k: int| 0 <= k < spaced(ts).len() ==> spaced(ts)[k] != '%',
    decreases ts.len(),
{
    if ts.len() > 0 {
        let dl = ts.drop_last();
        let t = ts.last();
        lemma_spaced_no_pct(dl);
        let s = spaced(ts);
        let a = spaced(dl);
        assert forall|k: int| 0 <= k < s.len() implies s[k] != '%' by {
            if k < a.len() {
                assert(s[k] == a[k]);
            } else if k < a.len() + t.len() {
                assert(s[k] == t[k - a.len()]);
            } else {
                assert(s[k] == ' ');
            }
        }
    }
}

/// Digits pass through the header unharmed: they neither separate fields
/// nor start a payload.
proof fn lemma_digits_are_token(s: Seq<char>)
    requires
        all_digits(s),
    ensures
        forall|j: int| 0 <= j < s.len() ==> !crate::spec_is_space(s[j]) && s[j] != '%',
{
    assert forall|j: int| 0 <= j < s.len() implies !crate::spec_is_space(s[j]) && s[j] != '%' by {
        assert(spec_is_digit(s[j]));
        assert(s[j] as u32 >= 48);
    }
}

/// The three prelude tokens are valid fields and pairwise distinct.
proof fn lemma_preludes()
    ensures
        is_token(prelude_single()),
        is_token(prelude_announce()),
        is_token(prelude_part()),
        prelude_single() != prelude_announce(),
        prelude_single() != prelude_part(),
        prelude_announce() != prelude_part(),
{
    assert(prelude_single()[5] != prelude_announce()[5]);
    assert(prelude_single()[5] != prelude_part()[5]);
    assert(prelude_announce()[5] != prelude_part()[5]);
}

/// Round trip: decoding the encoding of any well-formed message gives that
/// message back.
pub proof fn lemma_round_trip(m: MessageView)
    requires
        wf_msg(m),
    ensures
        parsed(encoded(m)) == Ok::<MessageView, MessageParseError>(m),
{
    lemma_preludes();
    let line = encoded(m);
    match m.message_type {
        MessageTypeView::Sea0 { action, payload } => match payload {
            Option::Some(p) => {
                let ts = seq![prelude_single(), m.reciever, m.sender, action];
                assert(header_fields_ok(ts));
                lemma_round_trip_marker_variant(ts, p, m);
            },
            Option::None => {
                let ts = seq![prelude_single(), m.reciever, m.sender];
                let header = spaced(ts);
                assert(header_fields_ok(ts));
                lemma_spaced_no_pct(ts);
                assert forall|k: int| 0 <= k < line.len() implies line[k] != '%' by {
                    if k < header.len() {
                        assert(line[k] == header[k]);
                    } else {
                        assert(line[k] == action[k - header.len()]);
                    }
                }
                lemma_pct_pos_none(line);
                assert(line.take(line.len() as int) =~= line);
                lemma_tokens_of_spaced(ts);
                lemma_spaced_last(ts);
                lemma_tokens_append_token(header, action);
                assert(tokens_of(line) == ts.push(action));
                let toks = tokens_of(line);
                assert(toks[0] == prelude_single());
                assert(toks.len() == 4);
            },
        },
        MessageTypeView::Sea1 { action, id, parts } => {
            let ts = seq![prelude_announce(), m.reciever, m.sender, dec_str(parts as nat), id];
            let header = spaced(ts);
            lemma_dec_str_digits(parts as nat);
            lemma_digits_are_token(dec_str(parts as nat));
            assert(header_fields_ok(ts));
            lemma_spaced_no_pct(ts);
            assert forall|k: int| 0 <= k < line.len() implies line[k] != '%' by {
                if k < header.len() {
                    assert(line[k] == header[k]);
                } else {
                    assert(line[k] == action[k - header.len()]);
                }
            }
            lemma_pct_pos_none(line);
            assert(line.take(line.len() as int) =~= line);
            lemma_tokens_of_spaced(ts);
            lemma_spaced_last(ts);
            lemma_tokens_append_token(header, action);
            assert(tokens_of(line) == ts.push(action));
            let toks = tokens_of(line);
            assert(toks[0] == prelude_announce());
            assert(toks.len() == 6);
            assert(spec_parse_u32(toks[3]) == Some(parts));
        },
        MessageTypeView::Sea2 { part, id, payload } => {
            let ts = seq![prelude_part(), m.reciever, m.sender, pad8(part as nat), id];
            lemma_pad8_parse(part as nat);
            lemma_digits_are_token(pad8(part as nat));
            assert(header_fields_ok(ts));
            lemma_round_trip_marker_variant(ts, payload, m);
            let toks = tokens_of(spaced(ts));
            assert(spec_parse_u32(toks[3]) == Some(part));
        },
    }
}

/// Every field of `ts` is non-empty, separator-free and marker-free.
spec fn header_fields_ok(ts: Seq<Seq<char>>) -> bool {
    forall|i: int| #![trigger ts[i]]
        0 <= i < ts.len() ==> ts[i].len() > 0 && (forall|j: int|
            0 <= j < ts[i].len() ==> !crate::spec_is_space(ts[i][j]) && ts[i][j] != '%')
}

/// Shared part of the round trip for the two variants that carry a payload
/// marker: the marker is found right after the header, the header splits
/// into the fields, and the payload unescapes to what was sent.
proof fn lemma_round_trip_marker_variant(ts: Seq<Seq<char>>, payload: Seq<char>, m: MessageView)
    requires
        header_fields_ok(ts),
        encoded(m) == spaced(ts) + seq!['%'] + escape(payload),
    ensures
        pct_pos(encoded(m)) == spaced(ts).len(),
        pct_pos(encoded(m)) < encoded(m).len(),
        encoded(m).take(spaced(ts).len() as int) == spaced(ts),
        unescape(encoded(m).skip(spaced(ts).len() as int + 1)) == payload,
        tokens_of(spaced(ts)) == ts,
{
    let header = spaced(ts);
    let line = encoded(m);
    lemma_spaced_no_pct(ts);
    assert(line.len() == header.len() + 1 + escape(payload).len());
    assert(line[header.len() as int] == '%');
    assert forall|j: int| 0 <= j < header.len() implies line[j] != '%' by {
        assert(line[j] == header[j]);
    }
    lemma_pct_pos_first(line, header.len() as int);
    assert(line.take(header.len() as int) =~= header);
    assert(line.skip(header.len() as int + 1) =~= escape(payload));
    lemma_unescape_escape(payload);
    lemma_tokens_of_spaced(ts);
}

/// A padded index reads back as the index.
proof fn lemma_pad8_parse(n: nat)
    requires
        n <= u32::MAX,
    ensures
        all_digits(pad8(n)),
        pad8(n).len() >= 1,
        spec_parse_u32(pad8(n)) == Some(n as u32),
{
    lemma_dec_str_digits(n);
    if dec_str(n).len() >= 8 {
    } else {
        let k = (8 - dec_str(n).len()) as nat;
        crate::text::lemma_zeros(k);
        crate::text::lemma_dec_val_leading_zeros(k, dec_str(n));
        assert forall|i: int| 0 <= i < pad8(n).len() implies spec_is_digit(pad8(n)[i]) by {
            if i < k {
                assert(pad8(n)[i] == '0');
            } else {
                assert(pad8(n)[i] == dec_str(n)[i - k]);
            }
        }
    }
}

pub(crate) proof fn lemma_spaced5(a: Seq<char>, b: Seq<char>, c: Seq<char>, d: Seq<char>, e: Seq<char>)
    ensures
        spaced(seq![a, b, c, d, e]) == a + seq![' '] + b + seq![' '] + c + seq![' '] + d + seq![' ']
            + e + seq![' '],
{
    let ts = seq![a, b, c, d, e];
    assert(ts.drop_last() =~= seq![a, b, c, d]);
    lemma_spaced4(a, b, c, d);
    assert(spaced(ts) =~= a + seq![' '] + b + seq![' '] + c + seq![' '] + d + seq![' '] + e + seq![
        ' ',
    ]);
}

} // verus!

