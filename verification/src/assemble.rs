//! The receiver side: reassembling parted payloads keyed by peer and
//! transfer id, tolerating duplicates and out-of-order delivery.

use vstd::prelude::*;

use crate::chunk::{chunks, concat_all, lemma_chunks_concat};
use crate::codec::{Message, MessageType, MessageTypeView};
use crate::text::chars_to_string;
use crate::text::push_str_chars;

verus! {

/// Why a part frame was rejected. The offending frame alone is dropped;
/// no transfer is torn down.
#[derive(Debug, Clone, Copy, PartialEq, Eq)]
pub enum ReassemblyError {
    /// No announcement created a transfer under this peer and id.
    UnknownTransfer,
    /// The part index is not below the announced part count.
    IndexOutOfRange,
}

/// One in-flight transfer.
pub struct Transfer {
    pub peer: String,
    pub id: String,
    pub action: String,
    pub expected: u32,
    pub got: Vec<Option<String>>,
    pub created: u64,
    pub filled: usize,
}

pub ghost struct TransferView {
    pub peer: Seq<char>,
    pub id: Seq<char>,
    pub action: Seq<char>,
    pub expected: u32,
    pub got: Seq<Option<Seq<char>>>,
    pub created: u64,
}

pub open spec fn opt_view(o: Option<String>) -> Option<Seq<char>> {
    match o {
        Option::Some(s) => Option::Some(s@),
        Option::None => Option::None,
    }
}

pub open spec fn got_views(g: Seq<Option<String>>) -> Seq<Option<Seq<char>>> {
    Seq::new(g.len(), |i: int| opt_view(g[i]))
}

impl View for Transfer {
    type V = TransferView;

    open spec fn view(&self) -> TransferView {
        TransferView {
            peer: self.peer@,
            id: self.id@,
            action: self.action@,
            expected: self.expected,
            got: got_views(self.got@),
            created: self.created,
        }
    }
}

/// How many part slots are filled.
pub open spec fn num_filled(got: Seq<Option<Seq<char>>>) -> nat
    decreases got.len(),
{
    if got.len() == 0 {
        0
    } else {
        num_filled(got.drop_last()) + if got.last() is Some {
            1nat
        } else {
            0nat
        }
    }
}

/// The payload a finished transfer yields: the chunks joined in index
/// order (an unfilled slot contributes nothing).
pub open spec fn assembled(got: Seq<Option<Seq<char>>>) -> Seq<char>
    decreases got.len(),
{
    if got.len() == 0 {
        Seq::empty()
    } else {
        (match got.first() {
            Option::Some(p) => p,
            Option::None => Seq::empty(),
        }) + assembled(got.drop_first())
    }
}

pub proof fn lemma_num_filled_le(got: Seq<Option<Seq<char>>>)
    ensures
        num_filled(got) <= got.len(),
    decreases got.len(),
{
    if got.len() > 0 {
        lemma_num_filled_le(got.drop_last());
    }
}

/// Filling one empty slot raises the count by one; refilling a slot
/// leaves it unchanged.
pub proof fn lemma_num_filled_update(got: Seq<Option<Seq<char>>>, i: int, p: Seq<char>)
    requires
        0 <= i < got.len(),
    ensures
        num_filled(got.update(i, Some(p))) == num_filled(got) + if got[i] is Some {
            0nat
        } else {
            1nat
        },
    decreases got.len(),
{
    let up = got.update(i, Some(p));
    if i == got.len() - 1 {
        assert(up.drop_last() =~= got.drop_last());
        assert(up.last() == Some(p));
    } else {
        assert(up.drop_last() =~= got.drop_last().update(i, Some(p)));
        assert(up.last() == got.last());
        lemma_num_filled_update(got.drop_last(), i, p);
    }
}

/// A transfer with every slot filled has nothing missing.
pub proof fn lemma_num_filled_all(got: Seq<Option<Seq<char>>>)
    requires
        num_filled(got) == got.len(),
    ensures
        forall|i: int| 0 <= i < got.len() ==> got[i] is Some,
    decreases got.len(),
{
    if got.len() > 0 {
        lemma_num_filled_le(got.drop_last());
        lemma_num_filled_all(got.drop_last());
        assert forall|i: int| 0 <= i < got.len() implies got[i] is Some by {
            if i < got.len() - 1 {
                assert(got[i] == got.drop_last()[i]);
            }
        }
    }
}

/// Appending one slot appends its contribution.
pub proof fn lemma_assembled_push(got: Seq<Option<Seq<char>>>, x: Option<Seq<char>>)
    ensures
        assembled(got.push(x)) == assembled(got) + (match x {
            Option::Some(p) => p,
            Option::None => Seq::<char>::empty(),
        }),
    decreases got.len(),
{
    let w = got.push(x);
    if got.len() == 0 {
        assert(w.drop_first() =~= Seq::<Option<Seq<char>>>::empty());
        assert(w.first() == x);
        assert(assembled(got) =~= Seq::<char>::empty());
        assert(assembled(Seq::<Option<Seq<char>>>::empty()) == Seq::<char>::empty());
        assert(assembled(w) == (match w.first() {
            Option::Some(p) => p,
            Option::None => Seq::<char>::empty(),
        }) + assembled(w.drop_first()));
        assert(assembled(w) =~= (match x {
            Option::Some(p) => p,
            Option::None => Seq::<char>::empty(),
        }));
    } else {
        assert(w.first() == got.first());
        assert(w.drop_first() =~= got.drop_first().push(x));
        lemma_assembled_push(got.drop_first(), x);
        assert(assembled(w) =~= assembled(got) + (match x {
            Option::Some(p) => p,
            Option::None => Seq::<char>::empty(),
        }));
    }
}

/// A fully delivered transfer assembles to its chunks in order.
pub proof fn lemma_assembled_complete(payloads: Seq<Seq<char>>)
    ensures
        assembled(payloads.map_values(|p: Seq<char>| Some(p))) == concat_all(payloads),
    decreases payloads.len(),
{
    let m = payloads.map_values(|p: Seq<char>| Some(p));
    if payloads.len() == 0 {
        assert(m.len() == 0);
    } else {
        lemma_assembled_complete(payloads.drop_first());
        assert(m.first() == Some(payloads.first()));
        assert(m.drop_first() =~= payloads.drop_first().map_values(|p: Seq<char>| Some(p)));
        assert(assembled(m) == payloads.first() + assembled(m.drop_first()));
    }
}

// ---------------------------------------------------------------------------
// Laws of delivery
// ---------------------------------------------------------------------------

/// A transfer's slots before anything arrived.
pub open spec fn blank(n: nat) -> Seq<Option<Seq<char>>> {
    Seq::new(n, |i: int| Option::<Seq<char>>::None)
}

/// The slots after a whole sequence of part deliveries, each recorded by
/// index, exactly as one `deliver_part` call records one.
pub open spec fn deliver_all(
    got: Seq<Option<Seq<char>>>,
    parts: Seq<(int, Seq<char>)>,
) -> Seq<Option<Seq<char>>>
    decreases parts.len(),
{
    if parts.len() == 0 {
        got
    } else {
        deliver_all(got.update(parts.first().0, Some(parts.first().1)), parts.drop_first())
    }
}

/// Delivering the same part again changes nothing.
pub proof fn lemma_deliver_idempotent(got: Seq<Option<Seq<char>>>, i: int, p: Seq<char>)
    requires
        0 <= i < got.len(),
    ensures
        got.update(i, Some(p)).update(i, Some(p)) == got.update(i, Some(p)),
{
    assert(got.update(i, Some(p)).update(i, Some(p)) =~= got.update(i, Some(p)));
}

/// After any deliveries consistent with one payload per index, a slot is
/// filled exactly when some delivery hit it, and always with that
/// payload: the outcome depends only on the set of indices delivered,
/// not on their order or on repetitions.
pub proof fn lemma_deliver_all_slots(
    got0: Seq<Option<Seq<char>>>,
    payloads: Seq<Seq<char>>,
    parts: Seq<(int, Seq<char>)>,
)
    requires
        got0.len() == payloads.len(),
        forall|i: int|
            0 <= i < got0.len() ==> got0[i] == Option::<Seq<char>>::None || got0[i] == Some(
                #[trigger] payloads[i],
            ),
        forall|k: int|
            0 <= k < parts.len() ==> 0 <= (#[trigger] parts[k]).0 < payloads.len() && parts[k].1
                == payloads[parts[k].0],
    ensures
        deliver_all(got0, parts).len() == payloads.len(),
        forall|i: int|
            0 <= i < payloads.len() ==> #[trigger] deliver_all(got0, parts)[i] == (if got0[i]
                is Some || (exists|k: int| 0 <= k < parts.len() && (#[trigger] parts[k]).0 == i) {
                Some(payloads[i])
            } else {
                Option::<Seq<char>>::None
            }),
    decreases parts.len(),
{
    if parts.len() > 0 {
        let i0 = parts.first().0;
        let got1 = got0.update(i0, Some(parts.first().1));
        assert forall|i: int|
            0 <= i < got1.len() implies got1[i] == Option::<Seq<char>>::None || got1[i] == Some(
            #[trigger] payloads[i],
        ) by {
            if i != i0 {
                assert(got1[i] == got0[i]);
            }
        }
        assert forall|k: int|
            0 <= k < parts.drop_first().len() implies 0 <= (#[trigger] parts.drop_first()[k]).0
            < payloads.len() && parts.drop_first()[k].1 == payloads[parts.drop_first()[k].0] by {
            assert(parts.drop_first()[k] == parts[k + 1]);
        }
        lemma_deliver_all_slots(got1, payloads, parts.drop_first());
        assert(deliver_all(got0, parts) == deliver_all(got1, parts.drop_first()));
        assert forall|i: int|
            0 <= i < payloads.len() implies #[trigger] deliver_all(got0, parts)[i] == (if got0[i]
            is Some || (exists|k: int| 0 <= k < parts.len() && (#[trigger] parts[k]).0 == i) {
            Some(payloads[i])
        } else {
            Option::<Seq<char>>::None
        }) by {
            if got0[i] is Some || (exists|k: int| 0 <= k < parts.len() && (#[trigger] parts[k]).0
                == i) {
                if got1[i] is Some {
                } else {
                    let k = choose|k: int|
                        0 <= k < parts.len() && (#[trigger] parts[k]).0 == i;
                    assert(k != 0);
                    assert(parts.drop_first()[k - 1] == parts[k]);
                    assert(exists|k2: int|
                        0 <= k2 < parts.drop_first().len() && (#[trigger] parts.drop_first()[k2]).0
                            == i);
                }
            } else {
                assert(got1[i] == got0[i]);
                if exists|k2: int|
                    0 <= k2 < parts.drop_first().len() && (#[trigger] parts.drop_first()[k2]).0
                        == i {
                    let k2 = choose|k2: int|
                        0 <= k2 < parts.drop_first().len() && (#[trigger] parts.drop_first()[k2]).0
                            == i;
                    assert(parts.drop_first()[k2] == parts[k2 + 1]);
                    assert(false);
                }
            }
        }
    }
}

/// Order independence and idempotence: any delivery sequence that covers
/// every index, in any order and with any repetitions, fills the
/// transfer completely and identically.
pub proof fn lemma_reassembly_order_independent(
    payloads: Seq<Seq<char>>,
    parts: Seq<(int, Seq<char>)>,
    at: spec_fn(int) -> int,
)
    requires
        forall|k: int|
            0 <= k < parts.len() ==> 0 <= (#[trigger] parts[k]).0 < payloads.len() && parts[k].1
                == payloads[parts[k].0],
        forall|i: int|
            0 <= i < payloads.len() ==> 0 <= #[trigger] at(i) < parts.len() && parts[at(i)].0 == i,
    ensures
        deliver_all(blank(payloads.len()), parts) == payloads.map_values(
            |p: Seq<char>| Some(p),
        ),
        assembled(deliver_all(blank(payloads.len()), parts)) == concat_all(payloads),
{
    lemma_deliver_all_slots(blank(payloads.len()), payloads, parts);
    let g = deliver_all(blank(payloads.len()), parts);
    assert forall|i: int| 0 <= i < payloads.len() implies g[i] == Some(#[trigger] payloads[i]) by {
        assert(0 <= at(i) < parts.len() && parts[at(i)].0 == i);
        assert(exists|k: int| 0 <= k < parts.len() && (#[trigger] parts[k]).0 == i);
    }
    assert(g =~= payloads.map_values(|p: Seq<char>| Some(p)));
    lemma_assembled_complete(payloads);
}

/// Chunk/reassemble inverse: delivering every part a split produced, in
/// any covering order, assembles exactly the payload that was split.
pub proof fn lemma_split_reassembles(
    payload: Seq<char>,
    cap: nat,
    cs: Seq<Seq<char>>,
    parts: Seq<(int, Seq<char>)>,
    at: spec_fn(int) -> int,
)
    requires
        cap >= 2,
        cs == chunks(payload, cap),
        forall|k: int|
            0 <= k < parts.len() ==> 0 <= (#[trigger] parts[k]).0 < cs.len() && parts[k].1
                == cs[parts[k].0],
        forall|i: int|
            0 <= i < cs.len() ==> 0 <= #[trigger] at(i) < parts.len() && parts[at(i)].0 == i,
    ensures
        assembled(deliver_all(blank(cs.len()), parts)) == payload,
{
    lemma_reassembly_order_independent(cs, parts, at);
    lemma_chunks_concat(payload, cap);
}

// ---------------------------------------------------------------------------
// The assembler
// ---------------------------------------------------------------------------

/// A payload ready for delivery to the caller: the action it answers and
/// the reassembled bytes.
#[derive(Debug, PartialEq, Eq)]
pub struct Completed {
    pub action: String,
    pub payload: String,
}

/// The transfer table: every in-flight transfer, keyed by peer and id.
pub struct Assembler {
    pub transfers: Vec<Transfer>,
}

/// The views of the table's transfers, in order.
pub open spec fn t_views(ts: Seq<Transfer>) -> Seq<TransferView> {
    Seq::new(ts.len(), |i: int| ts[i]@)
}

impl View for Assembler {
    type V = Seq<TransferView>;

    open spec fn view(&self) -> Seq<TransferView> {
        t_views(self.transfers@)
    }
}

/// Index of the first transfer under this key, or -1.
pub open spec fn find_idx(ts: Seq<TransferView>, peer: Seq<char>, id: Seq<char>) -> int
    decreases ts.len(),
{
    if ts.len() == 0 {
        -1
    } else if ts.first().peer == peer && ts.first().id == id {
        0
    } else {
        let r = find_idx(ts.drop_first(), peer, id);
        if r == -1 {
            -1
        } else {
            r + 1
        }
    }
}

pub proof fn lemma_find_idx_props(ts: Seq<TransferView>, peer: Seq<char>, id: Seq<char>)
    ensures
        -1 <= find_idx(ts, peer, id) < ts.len(),
        find_idx(ts, peer, id) >= 0 ==> ts[find_idx(ts, peer, id)].peer == peer && ts[find_idx(
            ts,
            peer,
            id,
        )].id == id,
        find_idx(ts, peer, id) == -1 ==> forall|j: int|
            0 <= j < ts.len() ==> !((#[trigger] ts[j]).peer == peer && ts[j].id == id),
    decreases ts.len(),
{
    if ts.len() > 0 && !(ts.first().peer == peer && ts.first().id == id) {
        lemma_find_idx_props(ts.drop_first(), peer, id);
        assert forall|j: int|
            find_idx(ts, peer, id) == -1 && 0 <= j < ts.len() implies !((#[trigger] ts[j]).peer
            == peer && ts[j].id == id) by {
            if j > 0 {
                assert(ts[j] == ts.drop_first()[j - 1]);
            }
        }
    }
}

/// The scan finds the first match.
pub proof fn lemma_find_idx_first(ts: Seq<TransferView>, peer: Seq<char>, id: Seq<char>, k: int)
    requires
        0 <= k < ts.len(),
        ts[k].peer == peer && ts[k].id == id,
        forall|j: int| 0 <= j < k ==> !((#[trigger] ts[j]).peer == peer && ts[j].id == id),
    ensures
        find_idx(ts, peer, id) == k,
    decreases k,
{
    if k > 0 {
        assert forall|j: int|
            0 <= j < k - 1 implies !((#[trigger] ts.drop_first()[j]).peer == peer
            && ts.drop_first()[j].id == id) by {
            assert(ts.drop_first()[j] == ts[j + 1]);
        }
        assert(ts.drop_first()[k - 1] == ts[k]);
        lemma_find_idx_first(ts.drop_first(), peer, id, k - 1);
    }
}

/// No two transfers share a key.
pub open spec fn keys_unique(ts: Seq<TransferView>) -> bool {
    forall|i: int, j: int|
        0 <= i < j < ts.len() ==> !((#[trigger] ts[i]).peer == (#[trigger] ts[j]).peer && ts[i].id
            == ts[j].id)
}

impl Transfer {
    /// The slot vector matches the announced count, and the fill counter
    /// counts the filled slots.
    pub open spec fn wf(&self) -> bool {
        &&& self.got@.len() == self.expected as int
        &&& self.filled as int == num_filled(got_views(self.got@))
    }
}

/// A transfer after one part is recorded.
pub open spec fn delivered_transfer(t: TransferView, index: int, payload: Seq<char>) -> TransferView {
    TransferView { got: t.got.update(index, Some(payload)), ..t }
}

/// A transfer no part of which is missing.
pub open spec fn is_complete(t: TransferView) -> bool {
    num_filled(t.got) == t.got.len()
}

/// A transfer the timeout policy may evict.
pub open spec fn expired(t: TransferView, now: u64, max_idle: u64) -> bool {
    t.created <= now && now - t.created >= max_idle
}

/// The transfers that survive a sweep at `now`.
pub open spec fn retained(ts: Seq<TransferView>, now: u64, max_idle: u64) -> Seq<TransferView>
    decreases ts.len(),
{
    if ts.len() == 0 {
        Seq::empty()
    } else {
        let r = retained(ts.drop_last(), now, max_idle);
        if expired(ts.last(), now, max_idle) {
            r
        } else {
            r.push(ts.last())
        }
    }
}

impl Assembler {
    /// Every transfer is well formed and no key repeats.
    pub open spec fn inv(&self) -> bool {
        &&& forall|i: int|
            0 <= i < self.transfers@.len() ==> (#[trigger] self.transfers@[i]).wf()
        &&& keys_unique(self@)
    }

    /// An empty table.
    pub fn new() -> (r: Assembler)
        ensures
            r.inv(),
            r@ == Seq::<TransferView>::empty(),
    {
        let r = Assembler { transfers: Vec::new() };
        proof {
            assert(r@ =~= Seq::<TransferView>::empty());
        }
        r
    }

    /// How many transfers are in flight.
    pub fn pending_transfers(&self) -> (n: usize)
        ensures
            n == self@.len(),
    {
        self.transfers.len()
    }

    /// First index under this key, if any.
    fn find(&self, peer: &str, id: &str) -> (r: Option<usize>)
        ensures
            (match r {
                Some(k) => k < self@.len() && find_idx(self@, peer@, id@) == k as int,
                None => find_idx(self@, peer@, id@) == -1,
            }),
    {
        let peer_s = peer.to_owned();
        let id_s = id.to_owned();
        let mut k: usize = 0;
        while k < self.transfers.len()
            invariant
                k <= self@.len(),
                self@.len() == self.transfers@.len(),
                peer_s@ == peer@,
                id_s@ == id@,
                forall|j: int|
                    0 <= j < k ==> !((#[trigger] self@[j]).peer == peer@ && self@[j].id == id@),
            decreases self@.len() - k,
        {
            let hit = self.transfers[k].peer == peer_s && self.transfers[k].id == id_s;
            proof {
                assert(self@[k as int] == self.transfers@[k as int]@);
            }
            if hit {
                proof {
                    lemma_find_idx_first(self@, peer@, id@, k as int);
                }
                return Some(k);
            }
            k += 1;
        }
        proof {
            lemma_find_idx_props(self@, peer@, id@);
            if find_idx(self@, peer@, id@) >= 0 {
                assert(false);
            }
        }
        None
    }

    /// Records an announcement: creates the transfer with empty slots,
    /// unless one already runs under this key, which is kept untouched.
    pub fn announce(&mut self, peer: &str, id: &str, action: &str, part_count: u32, now: u64)
        requires
            old(self).inv(),
            part_count >= 1,
        ensures
            final(self).inv(),
            (if find_idx(old(self)@, peer@, id@) >= 0 {
                final(self)@ == old(self)@
            } else {
                final(self)@ == old(self)@.push(
                    (TransferView {
                        peer: peer@,
                        id: id@,
                        action: action@,
                        expected: part_count,
                        got: blank(part_count as nat),
                        created: now,
                    }),
                )
            }),
    {
        match self.find(peer, id) {
            Some(_) => {},
            None => {
                let mut got: Vec<Option<String>> = Vec::new();
                let mut i: usize = 0;
                while i < part_count as usize
                    invariant
                        i <= part_count as usize,
                        got@.len() == i,
                        forall|j: int| 0 <= j < i ==> got@[j] is None,
                    decreases part_count as usize - i,
                {
                    got.push(None);
                    i += 1;
                }
                let t = Transfer {
                    peer: peer.to_owned(),
                    id: id.to_owned(),
                    action: action.to_owned(),
                    expected: part_count,
                    got,
                    created: now,
                    filled: 0,
                };
                proof {
                    assert(got_views(t.got@) =~= blank(part_count as nat));
                    lemma_num_filled_blank(got_views(t.got@));
                    assert(t.wf());
                }
                let ghost old_ts = self.transfers@;
                self.transfers.push(t);
                proof {
                    assert(self@ =~= t_views(old_ts).push(t@));
                    lemma_find_idx_props(t_views(old_ts), peer@, id@);
                    assert forall|i2: int, j2: int|
                        0 <= i2 < j2 < self@.len() implies !((#[trigger] self@[i2]).peer
                        == (#[trigger] self@[j2]).peer && self@[i2].id == self@[j2].id) by {
                        if j2 < self@.len() - 1 {
                            assert(self@[i2] == t_views(old_ts)[i2]);
                            assert(self@[j2] == t_views(old_ts)[j2]);
                        } else {
                            assert(self@[i2] == t_views(old_ts)[i2]);
                            assert(self@[j2] == t@);
                        }
                    }
                    assert forall|i2: int|
                        0 <= i2 < self.transfers@.len() implies (
                        #[trigger] self.transfers@[i2]).wf() by {
                        if i2 < self.transfers@.len() - 1 {
                            assert(self.transfers@[i2] == old_ts[i2]);
                        }
                    }
                }
            },
        }
    }
}

impl Assembler {
    /// Records one part frame. An unknown key or an index at or past the
    /// announced count rejects that frame alone, leaving the table as it
    /// was; otherwise the slot is written (a duplicate is overwritten),
    /// and once no slot is missing the transfer is discarded and its
    /// action and reassembled payload are handed back.
    pub fn deliver_part(&mut self, peer: &str, id: &str, index: u32, payload: &str) -> (r: Result<
        Option<Completed>,
        ReassemblyError,
    >)
        requires
            old(self).inv(),
        ensures
            final(self).inv(),
            ({
                let k = find_idx(old(self)@, peer@, id@);
                match r {
                    Err(ReassemblyError::UnknownTransfer) => k == -1 && final(self)@ == old(
                        self,
                    )@,
                    Err(ReassemblyError::IndexOutOfRange) => k >= 0 && (index as int) >= old(
                        self,
                    )@[k].expected as int && final(self)@ == old(self)@,
                    Ok(c) => {
                        &&& k >= 0
                        &&& (index as int) < old(self)@[k].expected as int
                        &&& {
                            let t2 = delivered_transfer(old(self)@[k], index as int, payload@);
                            match c {
                                None => !is_complete(t2) && final(self)@ == old(self)@.update(
                                    k,
                                    t2,
                                ),
                                Some(done) => {
                                    &&& is_complete(t2)
                                    &&& done.action@ == t2.action
                                    &&& done.payload@ == assembled(t2.got)
                                    &&& final(self)@ == old(self)@.remove(k)
                                },
                            }
                        }
                    },
                }
            }),
    {
        let k = match self.find(peer, id) {
            None => {
                return Err(ReassemblyError::UnknownTransfer);
            },
            Some(k) => k,
        };
        let ghost old_ts = self.transfers@;
        let ghost tv0 = old(self)@[k as int];
        let mut t = self.transfers.remove(k);
        proof {
            assert(t == old_ts[k as int]);
            assert(t@ == tv0);
        }
        if index >= t.expected {
            self.transfers.insert(k, t);
            proof {
                assert(self.transfers@ =~= old_ts);
                assert(final(self)@ =~= old(self)@);
            }
            return Err(ReassemblyError::IndexOutOfRange);
        }
        let idx = index as usize;
        let ghost got0 = got_views(t.got@);
        let old_entry = t.got.remove(idx);
        t.got.insert(idx, Some(payload.to_owned()));
        proof {
            assert(got_views(t.got@) =~= got0.update(idx as int, Some(payload@)));
            lemma_num_filled_update(got0, idx as int, payload@);
            lemma_num_filled_le(got0);
            assert(opt_view(old_entry) == got0[idx as int]);
        }
        if old_entry.is_none() {
            proof {
                if !(t.filled < t.got@.len()) {
                    lemma_num_filled_all(got0);
                    assert(got0[idx as int] is Some);
                    assert(false);
                }
            }
            t.filled = t.filled + 1;
        }
        let ghost t2 = delivered_transfer(tv0, index as int, payload@);
        proof {
            assert(t@ == t2);
            assert(t.wf());
        }
        if t.filled == t.got.len() {
            proof {
                assert(is_complete(t2));
                lemma_num_filled_all(t2.got);
            }
            let mut acc: Vec<char> = Vec::new();
            let mut i: usize = 0;
            while i < t.got.len()
                invariant
                    i <= t.got@.len(),
                    t@ == t2,
                    acc@ == assembled(t2.got.take(i as int)),
                decreases t.got@.len() - i,
            {
                let ghost pre = t2.got.take(i as int);
                match &t.got[i] {
                    Some(s) => {
                        push_str_chars(&mut acc, s.as_str());
                        proof {
                            assert(t2.got[i as int] == opt_view(t.got@[i as int]));
                        }
                    },
                    None => {
                        proof {
                            assert(t2.got[i as int] == opt_view(t.got@[i as int]));
                        }
                    },
                }
                i += 1;
                proof {
                    assert(t2.got.take(i as int) =~= pre.push(t2.got[i - 1]));
                    lemma_assembled_push(pre, t2.got[i - 1]);
                }
            }
            proof {
                assert(t2.got.take(t2.got.len() as int) =~= t2.got);
            }
            let done = Completed { action: t.action.clone(), payload: chars_to_string(&acc) };
            proof {
                assert(self.transfers@ =~= old_ts.remove(k as int));
                assert(final(self)@ =~= old(self)@.remove(k as int));
                lemma_inv_remove(old(self)@, old_ts, k as int);
            }
            Ok(Some(done))
        } else {
            self.transfers.insert(k, t);
            proof {
                assert(self.transfers@ =~= old_ts.remove(k as int).insert(k as int, t));
                assert(final(self)@ =~= old(self)@.update(k as int, t2));
                assert(!is_complete(t2));
                lemma_inv_update(old(self)@, old_ts, k as int, t);
            }
            Ok(None)
        }
    }
}

impl Assembler {
    /// Evicts every transfer that has sat idle since before `now` by at
    /// least `max_idle`: announced but never completed transfers do not
    /// hold memory forever. Everything else stays, in order.
    pub fn evict_idle(&mut self, now: u64, max_idle: u64)
        requires
            old(self).inv(),
        ensures
            final(self).inv(),
            final(self)@ == retained(old(self)@, now, max_idle),
    {
        let ghost all = old(self)@;
        let mut i: usize = 0;
        let ghost j: int = 0;
        proof {
            assert(all.take(0) =~= Seq::<TransferView>::empty());
            assert(all.skip(0) =~= all);
            assert(retained(all.take(0), now, max_idle) + all.skip(0) =~= all);
        }
        while i < self.transfers.len()
            invariant
                0 <= j <= all.len(),
                i as int == retained(all.take(j), now, max_idle).len(),
                self@ == retained(all.take(j), now, max_idle) + all.skip(j),
                i <= self.transfers@.len(),
                forall|p: int|
                    0 <= p < self.transfers@.len() ==> (#[trigger] self.transfers@[p]).wf(),
                keys_unique(self@),
            decreases all.len() - j,
        {
            proof {
                assert(self@[i as int] == all.skip(j)[0]);
                assert(all.skip(j)[0] == all[j]);
                assert(all.take(j + 1) =~= all.take(j).push(all[j]));
                assert(all.take(j + 1).drop_last() =~= all.take(j));
                assert(all.take(j + 1).last() == all[j]);
                assert(all.skip(j + 1) =~= all.skip(j).drop_first());
            }
            let t_created = self.transfers[i].created;
            let is_old = t_created <= now && now - t_created >= max_idle;
            proof {
                assert(self.transfers@[i as int]@ == self@[i as int]);
                assert(is_old == expired(all[j], now, max_idle));
                assert(retained(all.take(j + 1), now, max_idle) == if expired(
                    all[j],
                    now,
                    max_idle,
                ) {
                    retained(all.take(j), now, max_idle)
                } else {
                    retained(all.take(j), now, max_idle).push(all[j])
                });
            }
            if is_old {
                let ghost pre = self.transfers@;
                let _ = self.transfers.remove(i);
                proof {
                    assert(t_views(self.transfers@) =~= t_views(pre).remove(i as int));
                    assert(self@ =~= retained(all.take(j + 1), now, max_idle) + all.skip(j + 1));
                    assert forall|p: int|
                        0 <= p < self.transfers@.len() implies (
                    #[trigger] self.transfers@[p]).wf() by {
                        if p < i {
                            assert(self.transfers@[p] == pre[p]);
                        } else {
                            assert(self.transfers@[p] == pre[p + 1]);
                        }
                    }
                    assert forall|p: int, q: int|
                        0 <= p < q < self@.len() implies !((#[trigger] self@[p]).peer == (
                    #[trigger] self@[q]).peer && self@[p].id == self@[q].id) by {
                        let p0 = if p < i {
                            p
                        } else {
                            p + 1
                        };
                        let q0 = if q < i {
                            q
                        } else {
                            q + 1
                        };
                        assert(self@[p] == t_views(pre)[p0]);
                        assert(self@[q] == t_views(pre)[q0]);
                    }
                }
            } else {
                proof {
                    assert(self@ =~= retained(all.take(j + 1), now, max_idle) + all.skip(j + 1));
                }
                i += 1;
            }
            proof {
                j = j + 1;
            }
        }
        proof {
            assert(all.skip(j).len() == 0);
            assert(j == all.len());
            assert(all.take(j) =~= all);
            assert(self@ =~= retained(all, now, max_idle));
        }
    }

    /// Feeds one decoded message to the receiver: an unparted message is
    /// delivered at once (one that carries no payload as an empty one, a
    /// distinction the [`Message`] itself preserves); an announcement
    /// opens its transfer; a part frame goes to [`Self::deliver_part`]
    /// keyed by the message's sender.
    pub fn accept(&mut self, m: &Message, now: u64) -> (r: Result<Option<Completed>, ReassemblyError>)
        requires
            old(self).inv(),
            (m@.message_type matches MessageTypeView::Sea1 { parts, .. } ==> parts >= 1),
        ensures
            final(self).inv(),
            (match m@.message_type {
                MessageTypeView::Sea0 { action, payload } => final(self)@ == old(self)@ && (
                match r {
                    Ok(Some(done)) => done.action@ == action && done.payload@ == (match payload {
                        Option::Some(p) => p,
                        Option::None => Seq::<char>::empty(),
                    }),
                    _ => false,
                }),
                MessageTypeView::Sea1 { action, id, parts } => r == Ok::<
                    Option<Completed>,
                    ReassemblyError,
                >(None) && (if find_idx(old(self)@, m@.sender, id) >= 0 {
                    final(self)@ == old(self)@
                } else {
                    final(self)@ == old(self)@.push(
                        (TransferView {
                            peer: m@.sender,
                            id,
                            action,
                            expected: parts,
                            got: blank(parts as nat),
                            created: now,
                        }),
                    )
                }),
                MessageTypeView::Sea2 { part, id, payload } => {
                    let k = find_idx(old(self)@, m@.sender, id);
                    match r {
                        Err(ReassemblyError::UnknownTransfer) => k == -1 && final(self)@ == old(
                            self,
                        )@,
                        Err(ReassemblyError::IndexOutOfRange) => k >= 0 && (part as int) >= old(
                            self,
                        )@[k].expected as int && final(self)@ == old(self)@,
                        Ok(c) => {
                            &&& k >= 0
                            &&& (part as int) < old(self)@[k].expected as int
                            &&& {
                                let t2 = delivered_transfer(old(self)@[k], part as int, payload);
                                match c {
                                    None => !is_complete(t2) && final(self)@ == old(
                                        self,
                                    )@.update(k, t2),
                                    Some(done) => {
                                        &&& is_complete(t2)
                                        &&& done.action@ == t2.action
                                        &&& done.payload@ == assembled(t2.got)
                                        &&& final(self)@ == old(self)@.remove(k)
                                    },
                                }
                            }
                        },
                    }
                },
            }),
    {
        match &m.message_type {
            MessageType::Sea0 { action, payload } => {
                let delivered = match payload {
                    Some(p) => p.clone(),
                    None => String::new(),
                };
                Ok(Some(Completed { action: action.clone(), payload: delivered }))
            },
            MessageType::Sea1 { action, id, parts } => {
                self.announce(m.sender.as_str(), id.as_str(), action.as_str(), *parts, now);
                Ok(None)
            },
            MessageType::Sea2 { part, id, payload } => self.deliver_part(
                m.sender.as_str(),
                id.as_str(),
                *part,
                payload.as_str(),
            ),
        }
    }
}

/// Removing a transfer preserves the table invariant.
proof fn lemma_inv_remove(tvs: Seq<TransferView>, ts: Seq<Transfer>, k: int)
    requires
        0 <= k < ts.len(),
        tvs == t_views(ts),
        forall|i: int| 0 <= i < ts.len() ==> (#[trigger] ts[i]).wf(),
        keys_unique(tvs),
    ensures
        forall|i: int| 0 <= i < ts.remove(k).len() ==> (#[trigger] ts.remove(k)[i]).wf(),
        keys_unique(t_views(ts.remove(k))),
        t_views(ts.remove(k)) == tvs.remove(k),
{
    assert(t_views(ts.remove(k)) =~= tvs.remove(k));
    assert forall|i: int, j: int|
        0 <= i < j < tvs.remove(k).len() implies !((#[trigger] tvs.remove(k)[i]).peer == (
    #[trigger] tvs.remove(k)[j]).peer && tvs.remove(k)[i].id == tvs.remove(k)[j].id) by {
        let i0 = if i < k {
            i
        } else {
            i + 1
        };
        let j0 = if j < k {
            j
        } else {
            j + 1
        };
        assert(tvs.remove(k)[i] == tvs[i0]);
        assert(tvs.remove(k)[j] == tvs[j0]);
    }
}

/// Replacing a transfer under the same key preserves the table invariant.
proof fn lemma_inv_update(tvs: Seq<TransferView>, ts: Seq<Transfer>, k: int, t: Transfer)
    requires
        0 <= k < ts.len(),
        tvs == t_views(ts),
        forall|i: int| 0 <= i < ts.len() ==> (#[trigger] ts[i]).wf(),
        keys_unique(tvs),
        t.wf(),
        t@.peer == tvs[k].peer,
        t@.id == tvs[k].id,
    ensures
        forall|i: int|
            0 <= i < ts.remove(k).insert(k, t).len() ==> (#[trigger] ts.remove(k).insert(
                k,
                t,
            )[i]).wf(),
        keys_unique(t_views(ts.remove(k).insert(k, t))),
        t_views(ts.remove(k).insert(k, t)) == tvs.update(k, t@),
{
    let ts2 = ts.remove(k).insert(k, t);
    assert(ts2 =~= ts.update(k, t));
    assert(t_views(ts2) =~= tvs.update(k, t@));
    assert forall|i: int| 0 <= i < ts2.len() implies (#[trigger] ts2[i]).wf() by {
        if i != k {
            assert(ts2[i] == ts[i]);
        }
    }
    let tvs2 = t_views(ts2);
    assert forall|i: int, j: int|
        0 <= i < j < tvs2.len() implies !((#[trigger] tvs2[i]).peer == (#[trigger] tvs2[j]).peer
        && tvs2[i].id == tvs2[j].id) by {
        assert(tvs2[i].peer == tvs[i].peer && tvs2[i].id == tvs[i].id);
        assert(tvs2[j].peer == tvs[j].peer && tvs2[j].id == tvs[j].id);
    }
}

/// No slot of a blank transfer is filled.
proof fn lemma_num_filled_blank(got: Seq<Option<Seq<char>>>)
    requires
        forall|j: int| 0 <= j < got.len() ==> got[j] is None,
    ensures
        num_filled(got) == 0,
    decreases got.len(),
{
    if got.len() > 0 {
        lemma_num_filled_blank(got.drop_last());
    }
}

} // verus!
