//! Splitting an oversized payload into an announcement plus part frames,
//! each of which encodes to a line that fits the transport limit.

use vstd::prelude::*;
use vstd::string::StrSliceExecFns;

use crate::codec::{encoded, Message, MessageType, MessageTypeView, MessageView, prelude_part};
use crate::text::{
    chars_to_string, esc_char, escape, is_token, lemma_escape_append, pad8, str_to_chars, sub_vec,
    token_views,
};

verus! {

/// The transport line limit the original deployment used.
pub const MAX_MESSAGE_LENGTH: usize = 510;

/// Ceiling on the payload length handed to the splitter: it keeps every
/// part index below 100000000, so the fixed eight-digit index field is
/// never outgrown (each part carries at least one payload character).
pub const MAX_CHUNK_PAYLOAD: usize = 99999999;

/// Why a payload could not be split.
#[derive(Debug, Clone, Copy, PartialEq, Eq)]
pub enum ChunkingConfigError {
    /// The transport limit cannot accommodate even the framing overhead
    /// for the given peer names, or there is no payload to part.
    CapacityNonPositive,
}

/// Wire cost of one payload character.
pub open spec fn esc_cost(c: char) -> nat {
    esc_char(c).len()
}

/// Length of the first chunk: the longest prefix whose escaped form fits
/// in `cap` characters.
pub open spec fn chunk_len(s: Seq<char>, cap: nat) -> nat
    decreases s.len(),
{
    if s.len() == 0 {
        0
    } else if esc_cost(s[0]) > cap {
        0
    } else {
        1 + chunk_len(s.drop_first(), (cap - esc_cost(s[0])) as nat)
    }
}

pub proof fn lemma_chunk_len_bounds(s: Seq<char>, cap: nat)
    ensures
        chunk_len(s, cap) <= s.len(),
        s.len() > 0 && cap >= 2 ==> chunk_len(s, cap) >= 1,
    decreases s.len(),
{
    if s.len() > 0 && esc_cost(s[0]) <= cap {
        lemma_chunk_len_bounds(s.drop_first(), (cap - esc_cost(s[0])) as nat);
    }
}

/// The payload, cut greedily into chunks that each fit `cap` once escaped.
pub open spec fn chunks(s: Seq<char>, cap: nat) -> Seq<Seq<char>>
    decreases s.len(),
    when cap >= 2
    via chunks_decreases
{
    if s.len() == 0 {
        Seq::empty()
    } else {
        seq![s.take(chunk_len(s, cap) as int)] + chunks(s.skip(chunk_len(s, cap) as int), cap)
    }
}

#[via_fn]
proof fn chunks_decreases(s: Seq<char>, cap: nat) {
    lemma_chunk_len_bounds(s, cap);
}

/// The chunks of `s`, concatenated back in order.
pub open spec fn concat_all(ts: Seq<Seq<char>>) -> Seq<char>
    decreases ts.len(),
{
    if ts.len() == 0 {
        Seq::empty()
    } else {
        ts.first() + concat_all(ts.drop_first())
    }
}

/// The escaped form of the first chunk fits its budget.
pub proof fn lemma_chunk_cost(s: Seq<char>, cap: nat)
    ensures
        escape(s.take(chunk_len(s, cap) as int)).len() <= cap,
    decreases s.len(),
{
    let k = chunk_len(s, cap);
    if s.len() == 0 || esc_cost(s[0]) > cap {
        assert(s.take(0) =~= Seq::<char>::empty());
    } else {
        let e = esc_cost(s[0]);
        lemma_chunk_cost(s.drop_first(), (cap - e) as nat);
        let k2 = chunk_len(s.drop_first(), (cap - e) as nat);
        lemma_chunk_len_bounds(s.drop_first(), (cap - e) as nat);
        assert(k == 1 + k2);
        assert(s.take(k as int) =~= seq![s[0]] + s.drop_first().take(k2 as int));
        lemma_escape_append(seq![s[0]], s.drop_first().take(k2 as int));
        assert(seq![s[0]].drop_first() =~= Seq::<char>::empty());
        assert(escape(seq![s[0]]) == esc_char(s[0]) + escape(Seq::<char>::empty()));
        assert(escape(seq![s[0]]).len() == e);
    }
}

/// Splitting loses nothing and adds nothing: the chunks concatenate back
/// to the payload, there are at most as many chunks as characters, and
/// every chunk is non-empty with its escaped form within `cap`.
pub proof fn lemma_chunks_concat(s: Seq<char>, cap: nat)
    requires
        cap >= 2,
    ensures
        concat_all(chunks(s, cap)) == s,
        chunks(s, cap).len() <= s.len(),
        forall|i: int|
            0 <= i < chunks(s, cap).len() ==> #[trigger] chunks(s, cap)[i].len() >= 1 && escape(
                chunks(s, cap)[i],
            ).len() <= cap,
    decreases s.len(),
{
    if s.len() > 0 {
        lemma_chunk_len_bounds(s, cap);
        lemma_chunk_cost(s, cap);
        let k = chunk_len(s, cap) as int;
        lemma_chunks_concat(s.skip(k), cap);
        let cs = chunks(s, cap);
        let rest = chunks(s.skip(k), cap);
        assert(cs == seq![s.take(k)] + rest);
        assert(cs.first() == s.take(k));
        assert(cs.drop_first() =~= rest);
        assert(concat_all(cs) == s.take(k) + concat_all(rest));
        assert(s.take(k) + s.skip(k) =~= s);
        assert forall|i: int|
            0 <= i < cs.len() implies #[trigger] cs[i].len() >= 1 && escape(cs[i]).len()
            <= cap by {
            if i == 0 {
                assert(cs[0] == s.take(k));
            } else {
                assert(cs[i] == rest[i - 1]);
            }
        }
    }
}

/// With no character needing escape, every chunk is exactly `cap` long
/// while payload remains: an exact multiple gives exactly `len / cap`
/// chunks and no trailing empty one.
pub proof fn lemma_chunks_exact(s: Seq<char>, cap: nat, m: nat)
    requires
        cap >= 2,
        forall|i: int| 0 <= i < s.len() ==> esc_cost(#[trigger] s[i]) == 1,
        s.len() == m * cap,
    ensures
        chunks(s, cap).len() == m,
    decreases m,
{
    if m == 0 {
        assert(s.len() == 0) by (nonlinear_arith)
            requires
                m == 0,
                s.len() == m * cap,
        ;
    } else {
        assert(s.len() >= cap) by (nonlinear_arith)
            requires
                s.len() == m * cap,
                m >= 1,
                cap >= 2,
        ;
        lemma_chunk_len_plain(s, cap, cap);
        let k = chunk_len(s, cap) as int;
        assert(k == cap);
        assert(s.skip(k).len() == (m - 1) * cap) by (nonlinear_arith)
            requires
                s.len() == m * cap,
                m >= 1,
                k == cap,
                s.skip(k).len() == s.len() - k,
        ;
        assert forall|i: int| 0 <= i < s.skip(k).len() implies esc_cost(#[trigger] s.skip(k)[i])
            == 1 by {
            assert(s.skip(k)[i] == s[i + k]);
        }
        lemma_chunks_exact(s.skip(k), cap, (m - 1) as nat);
        assert(chunks(s, cap) == seq![s.take(k)] + chunks(s.skip(k), cap));
    }
}

/// With no character needing escape, the first chunk takes `min(len, b)`
/// characters of a budget `b`.
proof fn lemma_chunk_len_plain(s: Seq<char>, cap: nat, b: nat)
    requires
        forall|i: int| 0 <= i < s.len() ==> esc_cost(#[trigger] s[i]) == 1,
    ensures
        chunk_len(s, b) == if s.len() <= b {
            s.len()
        } else {
            b
        },
    decreases s.len(),
{
    if s.len() > 0 && b >= 1 {
        assert(esc_cost(s[0]) == 1);
        assert forall|i: int| 0 <= i < s.drop_first().len() implies esc_cost(
            #[trigger] s.drop_first()[i],
        ) == 1 by {
            assert(s.drop_first()[i] == s[i + 1]);
        }
        lemma_chunk_len_plain(s.drop_first(), cap, (b - 1) as nat);
    }
}

// ---------------------------------------------------------------------------
// The messages a split produces
// ---------------------------------------------------------------------------

pub open spec fn single_view(
    sender: Seq<char>,
    reciever: Seq<char>,
    action: Seq<char>,
    payload: Seq<char>,
) -> MessageView {
    MessageView {
        message_type: MessageTypeView::Sea0 { action, payload: Some(payload) },
        sender,
        reciever,
    }
}

pub open spec fn announce_view(
    sender: Seq<char>,
    reciever: Seq<char>,
    action: Seq<char>,
    id: Seq<char>,
    parts: u32,
) -> MessageView {
    MessageView { message_type: MessageTypeView::Sea1 { action, id, parts }, sender, reciever }
}

pub open spec fn part_view(
    sender: Seq<char>,
    reciever: Seq<char>,
    id: Seq<char>,
    part: u32,
    payload: Seq<char>,
) -> MessageView {
    MessageView { message_type: MessageTypeView::Sea2 { part, id, payload }, sender, reciever }
}

/// The part frames for the given chunks, indexed from zero in order.
pub open spec fn part_views(
    sender: Seq<char>,
    reciever: Seq<char>,
    id: Seq<char>,
    cs: Seq<Seq<char>>,
) -> Seq<MessageView> {
    Seq::new(cs.len(), |i: int| part_view(sender, reciever, id, i as u32, cs[i]))
}

/// Everything a chunked split emits, in sending order: the announcement,
/// then the parts.
pub open spec fn split_views(
    sender: Seq<char>,
    reciever: Seq<char>,
    action: Seq<char>,
    id: Seq<char>,
    payload: Seq<char>,
    cap: nat,
) -> Seq<MessageView> {
    seq![
        announce_view(sender, reciever, action, id, chunks(payload, cap).len() as u32),
    ] + part_views(sender, reciever, id, chunks(payload, cap))
}

/// Encoded length of a part frame with no payload: the fixed framing
/// overhead of every part between these peers under this transfer id.
pub open spec fn part_overhead(sender: Seq<char>, reciever: Seq<char>, id: Seq<char>) -> nat {
    encoded(part_view(sender, reciever, id, 0, Seq::empty())).len()
}

/// A split succeeds with these messages: the single frame alone when it
/// fits, else the announcement and the parts cut to the capacity the
/// limit leaves.
pub open spec fn split_result_ok(
    r: Seq<MessageView>,
    sender: Seq<char>,
    reciever: Seq<char>,
    action: Seq<char>,
    id: Seq<char>,
    payload: Seq<char>,
    limit: nat,
) -> bool {
    let single = single_view(sender, reciever, action, payload);
    if encoded(single).len() < limit {
        r == seq![single]
    } else {
        let oh = part_overhead(sender, reciever, id);
        &&& oh + 3 <= limit
        &&& payload.len() > 0
        &&& r == split_views(sender, reciever, action, id, payload, (limit - 1 - oh) as nat)
        &&& encoded(r[0]).len() < limit
    }
}

/// A split is refused exactly when the single frame does not fit and the
/// limit leaves no room for payload (or there is no payload to part, or
/// the announcement itself cannot fit).
pub open spec fn split_refused(
    sender: Seq<char>,
    reciever: Seq<char>,
    action: Seq<char>,
    id: Seq<char>,
    payload: Seq<char>,
    limit: nat,
) -> bool {
    let single = single_view(sender, reciever, action, payload);
    let oh = part_overhead(sender, reciever, id);
    &&& encoded(single).len() >= limit
    &&& {
        ||| oh + 3 > limit
        ||| payload.len() == 0
        ||| encoded(
            announce_view(
                sender,
                reciever,
                action,
                id,
                chunks(payload, (limit - 1 - oh) as nat).len() as u32,
            ),
        ).len() >= limit
    }
}

/// The views of a vector of messages, in order.
pub open spec fn msg_views(v: Seq<Message>) -> Seq<MessageView> {
    Seq::new(v.len(), |i: int| v[i]@)
}

/// The payloads of the part frames that follow the announcement, in
/// index order.
pub open spec fn part_payloads(r: Seq<MessageView>) -> Seq<Seq<char>> {
    Seq::new(
        if r.len() >= 1 {
            (r.len() - 1) as nat
        } else {
            0
        },
        |i: int|
            match r[i + 1].message_type {
                MessageTypeView::Sea2 { payload, .. } => payload,
                _ => Seq::<char>::empty(),
            },
    )
}

/// The payload a sequence of split frames carries: the single frame's
/// payload, or the part payloads joined in index order.
pub open spec fn carried_payload(r: Seq<MessageView>) -> Seq<char> {
    if r.len() == 1 {
        match r[0].message_type {
            MessageTypeView::Sea0 { payload: Option::Some(p), .. } => p,
            _ => Seq::<char>::empty(),
        }
    } else {
        concat_all(part_payloads(r))
    }
}

/// Every part frame with an index below the eight-digit bound costs the
/// same framing overhead: only the escaped payload varies.
pub proof fn lemma_part_line_len(
    sender: Seq<char>,
    reciever: Seq<char>,
    id: Seq<char>,
    i: u32,
    payload: Seq<char>,
)
    requires
        i < 100000000,
    ensures
        encoded(part_view(sender, reciever, id, i, payload)).len() == part_overhead(
            sender,
            reciever,
            id,
        ) + escape(payload).len(),
{
    crate::text::lemma_pad8(i as nat);
    crate::text::lemma_pad8(0);
    crate::codec::lemma_spaced5(prelude_part(), reciever, sender, pad8(i as nat), id);
    crate::codec::lemma_spaced5(prelude_part(), reciever, sender, pad8(0), id);
    assert(escape(Seq::<char>::empty()) == Seq::<char>::empty());
}

/// No oversized frames: when a chunked split goes through, every message
/// it emits encodes to a line strictly under the transport limit.
pub proof fn lemma_split_frames_fit(
    sender: Seq<char>,
    reciever: Seq<char>,
    action: Seq<char>,
    id: Seq<char>,
    payload: Seq<char>,
    limit: nat,
)
    requires
        payload.len() > 0,
        payload.len() <= MAX_CHUNK_PAYLOAD as nat,
        part_overhead(sender, reciever, id) + 3 <= limit,
        encoded(
            announce_view(
                sender,
                reciever,
                action,
                id,
                chunks(payload, (limit - 1 - part_overhead(sender, reciever, id)) as nat).len()
                    as u32,
            ),
        ).len() < limit,
    ensures
        forall|k: int|
            0 <= k < split_views(
                sender,
                reciever,
                action,
                id,
                payload,
                (limit - 1 - part_overhead(sender, reciever, id)) as nat,
            ).len() ==> encoded(
                #[trigger] split_views(
                    sender,
                    reciever,
                    action,
                    id,
                    payload,
                    (limit - 1 - part_overhead(sender, reciever, id)) as nat,
                )[k],
            ).len() < limit,
{
    let oh = part_overhead(sender, reciever, id);
    let cap = (limit - 1 - oh) as nat;
    let cs = chunks(payload, cap);
    let sv = split_views(sender, reciever, action, id, payload, cap);
    lemma_chunks_concat(payload, cap);
    assert forall|k: int| 0 <= k < sv.len() implies encoded(sv[k]).len() < limit by {
        if k == 0 {
            assert(sv[0] == announce_view(sender, reciever, action, id, cs.len() as u32));
        } else {
            let i = k - 1;
            assert(sv[k] == part_views(sender, reciever, id, cs)[i]);
            assert(cs[i].len() >= 1 && escape(cs[i]).len() <= cap);
            lemma_part_line_len(sender, reciever, id, i as u32, cs[i]);
        }
    }
}

/// No oversized frames, whichever way a split succeeded: every message it
/// returned encodes to a line strictly under the transport limit.
pub proof fn lemma_no_oversized_frames(
    r: Seq<MessageView>,
    sender: Seq<char>,
    reciever: Seq<char>,
    action: Seq<char>,
    id: Seq<char>,
    payload: Seq<char>,
    limit: nat,
)
    requires
        payload.len() <= MAX_CHUNK_PAYLOAD as nat,
        split_result_ok(r, sender, reciever, action, id, payload, limit),
    ensures
        forall|k: int| 0 <= k < r.len() ==> encoded(#[trigger] r[k]).len() < limit,
{
    let single = single_view(sender, reciever, action, payload);
    if encoded(single).len() < limit {
        assert(r == seq![single]);
        assert forall|k: int| 0 <= k < r.len() implies encoded(#[trigger] r[k]).len() < limit by {
            assert(r[k] == single);
        }
    } else {
        let oh = part_overhead(sender, reciever, id);
        let cap = (limit - 1 - oh) as nat;
        let sv = split_views(sender, reciever, action, id, payload, cap);
        assert(r[0] == announce_view(sender, reciever, action, id, chunks(payload, cap).len() as u32));
        lemma_split_frames_fit(sender, reciever, action, id, payload, limit);
        assert forall|k: int| 0 <= k < r.len() implies encoded(#[trigger] r[k]).len() < limit by {
            assert(r[k] == sv[k]);
        }
    }
}

/// The framing overhead of a part depends only on the lengths of the peer
/// names and of the transfer id: prelude, fixed eight-digit index, marker
/// and separators account for the rest. In particular, for the 36-character
/// ids the splitter generates, capacity is fixed by the inputs alone.
pub proof fn lemma_part_overhead(sender: Seq<char>, reciever: Seq<char>, id: Seq<char>)
    ensures
        part_overhead(sender, reciever, id) == sender.len() + reciever.len() + id.len() + 20,
{
    crate::text::lemma_pad8(0);
    crate::codec::lemma_spaced5(prelude_part(), reciever, sender, pad8(0), id);
    assert(escape(Seq::<char>::empty()) == Seq::<char>::empty());
}

/// Boundary law at the split contract: when chunking occurs, no payload
/// character needs escaping and the payload length is an exact multiple of
/// the per-part capacity, the split emits exactly that many part frames
/// after the announcement — never a trailing empty one.
pub proof fn lemma_split_exact_multiple(
    r: Seq<MessageView>,
    sender: Seq<char>,
    reciever: Seq<char>,
    action: Seq<char>,
    id: Seq<char>,
    payload: Seq<char>,
    limit: nat,
    m: nat,
)
    requires
        payload.len() <= MAX_CHUNK_PAYLOAD as nat,
        split_result_ok(r, sender, reciever, action, id, payload, limit),
        encoded(single_view(sender, reciever, action, payload)).len() >= limit,
        forall|i: int| 0 <= i < payload.len() ==> esc_cost(#[trigger] payload[i]) == 1,
        payload.len() == m * (limit - 1 - part_overhead(sender, reciever, id)) as nat,
    ensures
        r.len() == m + 1,
        r[0] == announce_view(sender, reciever, action, id, m as u32),
        forall|k: int|
            1 <= k < r.len() ==> ((#[trigger] r[k]).message_type matches MessageTypeView::Sea2 {
                payload: p,
                ..
            } && p.len() >= 1),
{
    let oh = part_overhead(sender, reciever, id);
    let cap = (limit - 1 - oh) as nat;
    lemma_chunks_exact(payload, cap, m);
    lemma_chunks_concat(payload, cap);
    let cs = chunks(payload, cap);
    assert(r == split_views(sender, reciever, action, id, payload, cap));
    assert(r.len() == cs.len() + 1);
    assert forall|k: int|
        1 <= k < r.len() implies ((#[trigger] r[k]).message_type matches MessageTypeView::Sea2 {
        payload: p,
        ..
    } && p.len() >= 1) by {
        assert(r[k] == part_views(sender, reciever, id, cs)[k - 1]);
        assert(cs[k - 1].len() >= 1);
    }
}

/// The boundary law restated without the transfer id: under any id of the
/// generated 36-character length, the per-part capacity is
/// `limit - sender.len() - reciever.len() - 57`, and an exact multiple of
/// it (with no character needing escape) gives exactly that many parts.
pub proof fn lemma_response_exact_multiple(
    r: Seq<MessageView>,
    sender: Seq<char>,
    reciever: Seq<char>,
    action: Seq<char>,
    id: Seq<char>,
    payload: Seq<char>,
    limit: nat,
    m: nat,
)
    requires
        payload.len() <= MAX_CHUNK_PAYLOAD as nat,
        id.len() == 36,
        split_result_ok(r, sender, reciever, action, id, payload, limit),
        encoded(single_view(sender, reciever, action, payload)).len() >= limit,
        forall|i: int| 0 <= i < payload.len() ==> esc_cost(#[trigger] payload[i]) == 1,
        limit >= sender.len() + reciever.len() + 57,
        payload.len() == m * ((limit - sender.len() - reciever.len() - 57) as nat),
    ensures
        r.len() == m + 1,
        r[0] == announce_view(sender, reciever, action, id, m as u32),
        forall|k: int|
            1 <= k < r.len() ==> ((#[trigger] r[k]).message_type matches MessageTypeView::Sea2 {
                payload: p,
                ..
            } && p.len() >= 1),
{
    lemma_part_overhead(sender, reciever, id);
    assert((limit - 1 - part_overhead(sender, reciever, id)) as nat == (limit - sender.len()
        - reciever.len() - 57) as nat);
    lemma_split_exact_multiple(r, sender, reciever, action, id, payload, limit, m);
}

// ---------------------------------------------------------------------------
// Executable splitting
// ---------------------------------------------------------------------------

/// Takes one chunk: how many characters, starting at `pos`, fit a budget
/// of `cap` wire characters.
fn chunk_step(s: &Vec<char>, pos: usize, cap: usize) -> (k: usize)
    requires
        pos <= s@.len(),
    ensures
        k == chunk_len(s@.skip(pos as int), cap as nat),
        pos + k <= s@.len(),
{
    let mut j: usize = pos;
    let mut b: usize = cap;
    loop
        invariant
            pos <= j <= s@.len(),
            b <= cap,
            chunk_len(s@.skip(pos as int), cap as nat) == (j - pos) + chunk_len(
                s@.skip(j as int),
                b as nat,
            ),
        decreases s@.len() - j,
    {
        if j == s.len() {
            proof {
                assert(s@.skip(j as int) =~= Seq::<char>::empty());
            }
            return j - pos;
        }
        let c = s[j];
        let e: usize = if c == '\\' || c == '\n' || c == '\r' {
            2
        } else {
            1
        };
        proof {
            let rem = s@.skip(j as int);
            assert(rem[0] == s@[j as int]);
            assert(e == esc_cost(rem[0]));
            assert(rem.drop_first() =~= s@.skip(j as int + 1));
        }
        if e > b {
            proof {
                assert(chunk_len(s@.skip(j as int), b as nat) == 0);
            }
            return j - pos;
        }
        j += 1;
        b -= e;
    }
}

/// Cuts the whole payload into chunks, exactly as [`chunks`] says.
fn chunk_payload(s: &Vec<char>, cap: usize) -> (cs: Vec<Vec<char>>)
    requires
        cap >= 2,
    ensures
        token_views(cs@) == chunks(s@, cap as nat),
{
    let mut cs: Vec<Vec<char>> = Vec::new();
    let mut pos: usize = 0;
    proof {
        assert(s@.skip(0) =~= s@);
        assert(token_views(cs@) =~= Seq::<Seq<char>>::empty());
        assert(Seq::<Seq<char>>::empty() + chunks(s@, cap as nat) =~= chunks(s@, cap as nat));
    }
    while pos < s.len()
        invariant
            cap >= 2,
            pos <= s@.len(),
            chunks(s@, cap as nat) == token_views(cs@) + chunks(s@.skip(pos as int), cap as nat),
        decreases s@.len() - pos,
    {
        let k = chunk_step(s, pos, cap);
        proof {
            lemma_chunk_len_bounds(s@.skip(pos as int), cap as nat);
        }
        let chunk = sub_vec(s, pos, pos + k);
        cs.push(chunk);
        proof {
            let rem = s@.skip(pos as int);
            assert(rem.take(k as int) =~= s@.subrange(pos as int, (pos + k) as int));
            assert(rem.skip(k as int) =~= s@.skip((pos + k) as int));
            assert(chunks(rem, cap as nat) == seq![rem.take(k as int)] + chunks(
                rem.skip(k as int),
                cap as nat,
            ));
            assert(token_views(cs@) =~= token_views(cs@.drop_last()).push(chunk@));
            assert(token_views(cs@) + chunks(s@.skip((pos + k) as int), cap as nat) =~= chunks(
                s@,
                cap as nat,
            ));
        }
        pos = pos + k;
    }
    proof {
        assert(s@.skip(s@.len() as int) =~= Seq::<char>::empty());
        assert(token_views(cs@) + Seq::<Seq<char>>::empty() =~= token_views(cs@));
    }
    cs
}

/// What may appear in a fresh transfer id: a lowercase hexadecimal digit
/// or a hyphen.
pub open spec fn is_id_char(c: char) -> bool {
    c == '-' || (48 <= c as u32 && c as u32 <= 57) || (97 <= c as u32 && c as u32 <= 102)
}

/// Relies on `uuid::Uuid::new_v4` and the hyphenated lowercase form its
/// `Display` implementation prints: 36 characters, each a hexadecimal
/// digit or a hyphen. Nothing more is assumed of a random id.
#[verifier::external_body]
fn fresh_transfer_id() -> (r: String)
    ensures
        r@.len() == 36,
        forall|i: int| 0 <= i < r@.len() ==> is_id_char(#[trigger] r@[i]),
{
    format!("{}", uuid::Uuid::new_v4())
}

/// Id characters pass through the header unharmed, so any fresh id is a
/// valid field.
proof fn lemma_id_token(s: Seq<char>)
    requires
        s.len() > 0,
        forall|i: int| 0 <= i < s.len() ==> is_id_char(#[trigger] s[i]),
    ensures
        is_token(s),
{
    assert forall|i: int| 0 <= i < s.len() implies !crate::spec_is_space(s[i]) && s[i]
        != '%' by {
        assert(is_id_char(s[i]));
    }
}

impl Message {
    /// Splits a payload for the wire under the given transfer id: the
    /// single frame alone when it fits the limit, else an announcement
    /// followed by the part frames, cut so that each line stays under the
    /// limit. Refuses, with `CapacityNonPositive`, exactly when the limit
    /// leaves no room for payload beside the framing, when there is no
    /// payload to part, or when the announcement itself cannot fit.
    pub fn split_with_id(
        sender: &str,
        reciever: &str,
        action: &str,
        payload: &str,
        limit: usize,
        id: &str,
    ) -> (r: Result<Vec<Message>, ChunkingConfigError>)
        requires
            payload@.len() <= MAX_CHUNK_PAYLOAD,
        ensures
            (match r {
                Ok(v) => split_result_ok(
                    msg_views(v@),
                    sender@,
                    reciever@,
                    action@,
                    id@,
                    payload@,
                    limit as nat,
                ),
                Err(e) => e == ChunkingConfigError::CapacityNonPositive && split_refused(
                    sender@,
                    reciever@,
                    action@,
                    id@,
                    payload@,
                    limit as nat,
                ),
            }),
            (match r {
                Ok(v) => carried_payload(msg_views(v@)) == payload@ && (forall|k: int|
                    0 <= k < v@.len() ==> encoded(#[trigger] msg_views(v@)[k]).len() < limit)
                    && (forall|k: int|
                    0 <= k < part_payloads(msg_views(v@)).len() ==> #[trigger] part_payloads(
                        msg_views(v@),
                    )[k].len() >= 1),
                Err(_) => true,
            }),
    {
        let single = Message {
            message_type: MessageType::Sea0 {
                action: action.to_owned(),
                payload: Some(payload.to_owned()),
            },
            sender: sender.to_owned(),
            reciever: reciever.to_owned(),
        };
        let line = single.to_line();
        if line.as_str().unicode_len() < limit {
            let mut v: Vec<Message> = Vec::new();
            v.push(single);
            proof {
                assert(msg_views(v@) =~= seq![
                    single_view(sender@, reciever@, action@, payload@),
                ]);
                assert(carried_payload(msg_views(v@)) == payload@);
                assert(part_payloads(msg_views(v@)).len() == 0);
                assert forall|k: int| 0 <= k < v@.len() implies encoded(
                    #[trigger] msg_views(v@)[k],
                ).len() < limit by {
                    assert(msg_views(v@)[k] == single_view(sender@, reciever@, action@, payload@));
                }
            }
            return Ok(v);
        }
        let probe = Message {
            message_type: MessageType::Sea2 { part: 0, id: id.to_owned(), payload: String::new() },
            sender: sender.to_owned(),
            reciever: reciever.to_owned(),
        };
        let oh = probe.to_line().as_str().unicode_len();
        proof {
            assert(escape(Seq::<char>::empty()) == Seq::<char>::empty());
            assert(oh == part_overhead(sender@, reciever@, id@));
        }
        if payload.is_empty() || limit < 3 || limit - 3 < oh {
            return Err(ChunkingConfigError::CapacityNonPositive);
        }
        let cap = limit - 1 - oh;
        let pchars = str_to_chars(payload);
        let cs = chunk_payload(&pchars, cap);
        proof {
            lemma_chunks_concat(payload@, cap as nat);
            assert(cs@.len() == token_views(cs@).len());
        }
        let count = cs.len() as u32;
        let ann = Message {
            message_type: MessageType::Sea1 {
                action: action.to_owned(),
                id: id.to_owned(),
                parts: count,
            },
            sender: sender.to_owned(),
            reciever: reciever.to_owned(),
        };
        let ghost sv = split_views(sender@, reciever@, action@, id@, payload@, cap as nat);
        if ann.to_line().as_str().unicode_len() >= limit {
            return Err(ChunkingConfigError::CapacityNonPositive);
        }
        let mut out: Vec<Message> = Vec::new();
        out.push(ann);
        proof {
            assert(sv[0] == announce_view(sender@, reciever@, action@, id@, count));
            assert(msg_views(out@) =~= sv.take(1));
        }
        let mut i: usize = 0;
        while i < cs.len()
            invariant
                cap >= 2,
                i <= cs@.len(),
                cs@.len() <= MAX_CHUNK_PAYLOAD,
                token_views(cs@) == chunks(payload@, cap as nat),
                sv == split_views(sender@, reciever@, action@, id@, payload@, cap as nat),
                sv.len() == cs@.len() + 1,
                msg_views(out@) == sv.take(i as int + 1),
            decreases cs@.len() - i,
        {
            let chunk_str = chars_to_string(&cs[i]);
            let part = Message {
                message_type: MessageType::Sea2 {
                    part: i as u32,
                    id: id.to_owned(),
                    payload: chunk_str,
                },
                sender: sender.to_owned(),
                reciever: reciever.to_owned(),
            };
            proof {
                assert(token_views(cs@)[i as int] == cs@[i as int]@);
                assert(part@ == part_view(
                    sender@,
                    reciever@,
                    id@,
                    i as u32,
                    chunks(payload@, cap as nat)[i as int],
                ));
                assert(sv[i as int + 1] == part_views(
                    sender@,
                    reciever@,
                    id@,
                    chunks(payload@, cap as nat),
                )[i as int]);
            }
            let ghost old_out = out@;
            out.push(part);
            i += 1;
            proof {
                assert(out@ == old_out.push(part));
                assert(msg_views(old_out).len() == i as int);
                assert(old_out.len() == i as int);
                assert forall|j: int| 0 <= j < i + 1 implies msg_views(out@)[j] == sv.take(
                    i as int + 1,
                )[j] by {
                    if j < i {
                        assert(out@[j] == old_out[j]);
                        assert(msg_views(old_out)[j] == sv.take(i as int)[j]);
                    } else {
                        assert(out@[j] == part);
                    }
                }
                assert(msg_views(out@) =~= sv.take(i as int + 1));
            }
        }
        proof {
            assert(sv.take(sv.len() as int) =~= sv);
            let cs2 = chunks(payload@, cap as nat);
            assert(part_payloads(sv) =~= cs2);
            assert(carried_payload(sv) == payload@);
            assert(split_result_ok(sv, sender@, reciever@, action@, id@, payload@, limit as nat));
            lemma_no_oversized_frames(
                sv,
                sender@,
                reciever@,
                action@,
                id@,
                payload@,
                limit as nat,
            );
        }
        Ok(out)
    }

    /// Splits a payload for the wire under a fresh random transfer id.
    pub fn split(sender: &str, reciever: &str, action: &str, payload: &str, limit: usize) -> (r:
        Result<Vec<Message>, ChunkingConfigError>)
        requires
            payload@.len() <= MAX_CHUNK_PAYLOAD,
        ensures
            (match r {
                Ok(v) => exists|id: Seq<char>|
                    is_token(id) && id.len() == 36 && #[trigger] split_result_ok(
                        msg_views(v@),
                        sender@,
                        reciever@,
                        action@,
                        id,
                        payload@,
                        limit as nat,
                    ),
                Err(e) => e == ChunkingConfigError::CapacityNonPositive && exists|id: Seq<char>|
                    is_token(id) && id.len() == 36 && #[trigger] split_refused(
                        sender@,
                        reciever@,
                        action@,
                        id,
                        payload@,
                        limit as nat,
                    ),
            }),
            (match r {
                Ok(v) => carried_payload(msg_views(v@)) == payload@ && (forall|k: int|
                    0 <= k < v@.len() ==> encoded(#[trigger] msg_views(v@)[k]).len() < limit)
                    && (forall|k: int|
                    0 <= k < part_payloads(msg_views(v@)).len() ==> #[trigger] part_payloads(
                        msg_views(v@),
                    )[k].len() >= 1),
                Err(_) => true,
            }),
    {
        let id = fresh_transfer_id();
        proof {
            lemma_id_token(id@);
        }
        Message::split_with_id(sender, reciever, action, payload, limit, id.as_str())
    }

    /// Builds a resource response: the payload under action `res`, split
    /// as needed for the deployment's transport line limit.
    pub fn make_resource_response(sender: &str, reciever: &str, payload: &str) -> (r: Result<
        Vec<Message>,
        ChunkingConfigError,
    >)
        requires
            payload@.len() <= MAX_CHUNK_PAYLOAD,
        ensures
            (match r {
                Ok(v) => exists|id: Seq<char>|
                    is_token(id) && id.len() == 36 && #[trigger] split_result_ok(
                        msg_views(v@),
                        sender@,
                        reciever@,
                        "res"@,
                        id,
                        payload@,
                        MAX_MESSAGE_LENGTH as nat,
                    ),
                Err(e) => e == ChunkingConfigError::CapacityNonPositive && exists|id: Seq<char>|
                    is_token(id) && id.len() == 36 && #[trigger] split_refused(
                        sender@,
                        reciever@,
                        "res"@,
                        id,
                        payload@,
                        MAX_MESSAGE_LENGTH as nat,
                    ),
            }),
            (match r {
                Ok(v) => carried_payload(msg_views(v@)) == payload@ && (forall|k: int|
                    0 <= k < v@.len() ==> encoded(#[trigger] msg_views(v@)[k]).len()
                        < MAX_MESSAGE_LENGTH) && (forall|k: int|
                    0 <= k < part_payloads(msg_views(v@)).len() ==> #[trigger] part_payloads(
                        msg_views(v@),
                    )[k].len() >= 1),
                Err(_) => true,
            }),
    {
        Message::split(sender, reciever, "res", payload, MAX_MESSAGE_LENGTH)
    }
}

} // verus!
