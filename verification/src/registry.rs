//! The shared peer registry: a mapping from peer identity to that peer's
//! outbound mailbox, together with the broadcast fan-out that enqueues one
//! sender's line onto every other registered peer's mailbox.
//!
//! The registry's mathematical model is a `Map<u64, MailboxModel>`; every
//! operation's contract is stated as a pure transformation of that map
//! (`spec_insert`, `spec_remove`, `spec_broadcast`, ...), so that callers and
//! the laws in [`crate::laws`] reason about the model alone.

use vstd::prelude::*;

verus! {

/// The mathematical model of one peer's mailbox: whether its receiving side
/// is still attached, and the queued lines in delivery (FIFO) order.
#[verifier::ext_equal]
pub struct MailboxModel {
    pub open: bool,
    pub queue: Seq<Seq<char>>,
}

/// A freshly created mailbox: receiving side attached, nothing queued.
pub open spec fn fresh_mailbox() -> MailboxModel {
    MailboxModel { open: true, queue: Seq::empty() }
}

/// The model of `PeerRegistry::insert`: the identity maps to a fresh mailbox,
/// replacing any previous entry.
pub open spec fn spec_insert(m: Map<u64, MailboxModel>, id: u64) -> Map<u64, MailboxModel> {
    m.insert(id, fresh_mailbox())
}

/// The model of `PeerRegistry::remove`: the entry is gone; removing an absent
/// identity changes nothing.
pub open spec fn spec_remove(m: Map<u64, MailboxModel>, id: u64) -> Map<u64, MailboxModel> {
    m.remove(id)
}

/// The model of `PeerRegistry::close_mailbox`: the entry's receiving side is
/// marked gone; its queued lines and every other entry are untouched.
pub open spec fn spec_close(m: Map<u64, MailboxModel>, id: u64) -> Map<u64, MailboxModel> {
    if m.contains_key(id) {
        m.insert(id, MailboxModel { open: false, queue: m[id].queue })
    } else {
        m
    }
}

/// Whether a broadcast by `sender` delivers to `id`: the recipient is
/// registered, is not the sender, and its mailbox is still open.
pub open spec fn delivers_to(m: Map<u64, MailboxModel>, sender: u64, id: u64) -> bool {
    m.contains_key(id) && id != sender && m[id].open
}

/// The model of `PeerRegistry::broadcast_except`: the line is appended to the
/// mailbox of every registered peer other than the sender whose mailbox is
/// open; membership, open flags, and every other queue are unchanged.
pub open spec fn spec_broadcast(m: Map<u64, MailboxModel>, sender: u64, line: Seq<char>) -> Map<
    u64,
    MailboxModel,
> {
    Map::new(
        |id: u64| m.contains_key(id),
        |id: u64|
            if delivers_to(m, sender, id) {
                MailboxModel { open: m[id].open, queue: m[id].queue.push(line) }
            } else {
                m[id]
            },
    )
}

/// The model of `PeerRegistry::take_next`: the head of the entry's queue is
/// gone; an absent entry or an empty queue changes nothing.
pub open spec fn spec_take(m: Map<u64, MailboxModel>, id: u64) -> Map<u64, MailboxModel> {
    if m.contains_key(id) && m[id].queue.len() > 0 {
        m.insert(id, MailboxModel { open: m[id].open, queue: m[id].queue.drop_first() })
    } else {
        m
    }
}

/// One peer's outbound mailbox: an unbounded FIFO of formatted lines, plus a
/// flag recording whether the receiving side is still attached. A closed
/// mailbox silently drops further broadcasts to this peer.
pub struct Mailbox {
    open: bool,
    queue: Vec<String>,
}

impl View for Mailbox {
    type V = MailboxModel;

    closed spec fn view(&self) -> MailboxModel {
        MailboxModel { open: self.open, queue: self.queue@.map_values(|s: String| s@) }
    }
}

struct Entry {
    id: u64,
    mailbox: Mailbox,
}

spec fn distinct_ids(s: Seq<Entry>) -> bool {
    forall|i: int, j: int| 0 <= i < j < s.len() ==> s[i].id != s[j].id
}

spec fn map_of(s: Seq<Entry>) -> Map<u64, MailboxModel>
    decreases s.len(),
{
    if s.len() == 0 {
        Map::empty()
    } else {
        map_of(s.drop_last()).insert(s.last().id, s.last().mailbox@)
    }
}

proof fn lemma_distinct_drop_last(s: Seq<Entry>)
    requires
        s.len() > 0,
        distinct_ids(s),
    ensures
        distinct_ids(s.drop_last()),
{
    assert forall|i: int, j: int|
        0 <= i < j < s.drop_last().len() implies s.drop_last()[i].id != s.drop_last()[j].id by {
        assert(s.drop_last()[i] == s[i]);
        assert(s.drop_last()[j] == s[j]);
    }
}

proof fn lemma_map_of_dom(s: Seq<Entry>)
    ensures
        forall|id: u64|
            #[trigger] map_of(s).contains_key(id) <==> (exists|i: int|
                0 <= i < s.len() && s[i].id == id),
    decreases s.len(),
{
    if s.len() > 0 {
        lemma_map_of_dom(s.drop_last());
        assert forall|id: u64| #[trigger] map_of(s).contains_key(id) implies (exists|i: int|
            0 <= i < s.len() && s[i].id == id) by {
            if id == s.last().id {
                assert(s[s.len() - 1].id == id);
            } else {
                assert(map_of(s.drop_last()).contains_key(id));
                let i = choose|i: int| 0 <= i < s.drop_last().len() && s.drop_last()[i].id == id;
                assert(s[i].id == id);
            }
        }
        assert forall|id: u64| (exists|i: int| 0 <= i < s.len() && s[i].id == id) implies #[trigger]
            map_of(s).contains_key(id) by {
            let i = choose|i: int| 0 <= i < s.len() && s[i].id == id;
            if i < s.len() - 1 {
                assert(s.drop_last()[i].id == id);
                assert(map_of(s.drop_last()).contains_key(id));
            }
        }
    }
}

proof fn lemma_map_of_index(s: Seq<Entry>, i: int)
    requires
        distinct_ids(s),
        0 <= i < s.len(),
    ensures
        map_of(s).contains_key(s[i].id),
        map_of(s)[s[i].id] == s[i].mailbox@,
    decreases s.len(),
{
    if i < s.len() - 1 {
        lemma_distinct_drop_last(s);
        lemma_map_of_index(s.drop_last(), i);
        assert(s.drop_last()[i] == s[i]);
        assert(s[i].id != s.last().id);
    }
}

proof fn lemma_map_of_push(s: Seq<Entry>, e: Entry)
    ensures
        map_of(s.push(e)) == map_of(s).insert(e.id, e.mailbox@),
{
    assert(s.push(e).drop_last() =~= s);
    assert(s.push(e).last() == e);
}

proof fn lemma_map_of_update(s: Seq<Entry>, i: int, e: Entry)
    requires
        distinct_ids(s),
        0 <= i < s.len(),
        e.id == s[i].id,
    ensures
        map_of(s.update(i, e)) == map_of(s).insert(e.id, e.mailbox@),
    decreases s.len(),
{
    let t = s.update(i, e);
    if i == s.len() - 1 {
        assert(t.drop_last() =~= s.drop_last());
        assert(t.last() == e);
        assert(map_of(s).insert(e.id, e.mailbox@) =~= map_of(s.drop_last()).insert(
            e.id,
            e.mailbox@,
        ));
    } else {
        lemma_distinct_drop_last(s);
        lemma_map_of_update(s.drop_last(), i, e);
        assert(t.drop_last() =~= s.drop_last().update(i, e));
        assert(t.last() == s.last());
        assert(e.id != s.last().id);
        assert(map_of(t) =~= map_of(s).insert(e.id, e.mailbox@));
    }
}

proof fn lemma_map_of_remove(s: Seq<Entry>, i: int)
    requires
        distinct_ids(s),
        0 <= i < s.len(),
    ensures
        map_of(s.remove(i)) == map_of(s).remove(s[i].id),
        distinct_ids(s.remove(i)),
    decreases s.len(),
{
    assert forall|a: int, b: int|
        0 <= a < b < s.remove(i).len() implies s.remove(i)[a].id != s.remove(i)[b].id by {
        assert(s.remove(i)[a] == (if a < i {
            s[a]
        } else {
            s[a + 1]
        }));
        assert(s.remove(i)[b] == (if b < i {
            s[b]
        } else {
            s[b + 1]
        }));
    }
    if i == s.len() - 1 {
        assert(s.remove(i) =~= s.drop_last());
        lemma_distinct_drop_last(s);
        lemma_map_of_dom(s.drop_last());
        assert(!map_of(s.drop_last()).contains_key(s[i].id)) by {
            if map_of(s.drop_last()).contains_key(s[i].id) {
                let j = choose|j: int|
                    0 <= j < s.drop_last().len() && s.drop_last()[j].id == s[i].id;
                assert(s[j].id == s[i].id);
            }
        }
        assert(map_of(s.drop_last()) =~= map_of(s).remove(s[i].id));
    } else {
        lemma_distinct_drop_last(s);
        lemma_map_of_remove(s.drop_last(), i);
        assert(s.remove(i).drop_last() =~= s.drop_last().remove(i));
        assert(s.remove(i).last() == s.last());
        assert(s[i].id != s.last().id);
        assert(map_of(s.remove(i)) =~= map_of(s).remove(s[i].id));
    }
}

proof fn lemma_map_of_len(s: Seq<Entry>)
    requires
        distinct_ids(s),
    ensures
        map_of(s).dom().finite(),
        map_of(s).dom().len() == s.len(),
    decreases s.len(),
{
    if s.len() > 0 {
        lemma_distinct_drop_last(s);
        lemma_map_of_len(s.drop_last());
        lemma_map_of_dom(s.drop_last());
        assert(!map_of(s.drop_last()).contains_key(s.last().id)) by {
            if map_of(s.drop_last()).contains_key(s.last().id) {
                let j = choose|j: int|
                    0 <= j < s.drop_last().len() && s.drop_last()[j].id == s.last().id;
                assert(s[j].id == s[s.len() - 1].id);
            }
        }
        assert(map_of(s).dom() =~= map_of(s.drop_last()).dom().insert(s.last().id));
    }
}

/// The shared peer registry: at most one entry per identity; an entry exists
/// exactly while that connection is eligible to receive broadcasts. In the
/// running relay one exclusion lock guards the whole registry, so each
/// operation below is one critical section.
pub struct PeerRegistry {
    entries: Vec<Entry>,
}

impl View for PeerRegistry {
    type V = Map<u64, MailboxModel>;

    closed spec fn view(&self) -> Map<u64, MailboxModel> {
        map_of(self.entries@)
    }
}

impl PeerRegistry {
    /// Well-formedness: no identity appears twice.
    pub closed spec fn wf(&self) -> bool {
        distinct_ids(self.entries@)
    }

    /// An empty registry: nobody is reachable.
    pub fn new() -> (r: PeerRegistry)
        ensures
            r.wf(),
            r@ == Map::<u64, MailboxModel>::empty(),
    {
        PeerRegistry { entries: Vec::new() }
    }

    fn find_index(&self, id: u64) -> (r: Option<usize>)
        ensures
            match r {
                Some(i) => i < self.entries@.len() && self.entries@[i as int].id == id,
                None => forall|j: int| 0 <= j < self.entries@.len() ==> self.entries@[j].id != id,
            },
    {
        let mut i: usize = 0;
        while i < self.entries.len()
            invariant
                i <= self.entries@.len(),
                forall|j: int| 0 <= j < i ==> self.entries@[j].id != id,
            decreases self.entries@.len() - i,
        {
            if self.entries[i].id == id {
                return Some(i);
            }
            i = i + 1;
        }
        None
    }

    /// Registers a peer: the identity now maps to a fresh, open, empty
    /// mailbox, replacing any previous entry for the same identity. Called
    /// once per connection, immediately after a successful handshake.
    pub fn insert(&mut self, id: u64)
        requires
            old(self).wf(),
        ensures
            final(self).wf(),
            final(self)@ == spec_insert(old(self)@, id),
    {
        let ghost s0 = self.entries@;
        match self.find_index(id) {
            Some(i) => {
                proof {
                    lemma_map_of_remove(s0, i as int);
                }
                self.entries.remove(i);
            },
            None => {
                proof {
                    lemma_map_of_dom(s0);
                    assert(map_of(s0).remove(id) =~= map_of(s0));
                }
            },
        }
        let ghost s1 = self.entries@;
        let entry = Entry { id, mailbox: Mailbox { open: true, queue: Vec::new() } };
        proof {
            assert(entry.mailbox@.queue =~= fresh_mailbox().queue);
            assert(entry.mailbox@ == fresh_mailbox());
            assert forall|j: int| 0 <= j < s1.len() implies s1[j].id != id by {
                lemma_map_of_dom(s1);
                assert(!map_of(s1).contains_key(id));
            }
            lemma_map_of_push(s1, entry);
        }
        self.entries.push(entry);
        proof {
            assert(map_of(s1) == map_of(s0).remove(id));
            assert(self@ =~= spec_insert(old(self)@, id));
        }
    }

    /// Unregisters a peer so that no further broadcast reaches it. Idempotent:
    /// removing an absent identity changes nothing, and no other peer's
    /// mailbox is affected either way.
    pub fn remove(&mut self, id: u64)
        requires
            old(self).wf(),
        ensures
            final(self).wf(),
            final(self)@ == spec_remove(old(self)@, id),
    {
        match self.find_index(id) {
            Some(i) => {
                proof {
                    lemma_map_of_remove(self.entries@, i as int);
                }
                self.entries.remove(i);
            },
            None => {
                proof {
                    lemma_map_of_dom(self.entries@);
                    assert(spec_remove(self@, id) =~= self@);
                }
            },
        }
    }

    /// Records that a peer's receiving side is gone (its outbound loop ended
    /// or its connection dropped before the registry entry was removed):
    /// further broadcasts to it are silently dropped. Every queued line and
    /// every other entry stay as they were.
    pub fn close_mailbox(&mut self, id: u64)
        requires
            old(self).wf(),
        ensures
            final(self).wf(),
            final(self)@ == spec_close(old(self)@, id),
    {
        let ghost s0 = self.entries@;
        match self.find_index(id) {
            Some(i) => {
                let mut e = self.entries.remove(i);
                e.mailbox.open = false;
                self.entries.insert(i, e);
                proof {
                    assert(self.entries@ =~= s0.update(i as int, e));
                    lemma_map_of_update(s0, i as int, e);
                    lemma_map_of_index(s0, i as int);
                    assert forall|a: int, b: int|
                        0 <= a < b < self.entries@.len() implies self.entries@[a].id
                        != self.entries@[b].id by {
                        assert(self.entries@[a].id == s0[a].id);
                        assert(self.entries@[b].id == s0[b].id);
                    }
                    assert(e.mailbox@ == MailboxModel { open: false, queue: old(self)@[id].queue });
                    assert(self@ == spec_close(old(self)@, id));
                }
            },
            None => {
                proof {
                    lemma_map_of_dom(s0);
                }
            },
        }
    }

    /// The broadcast fan-out: appends `line` to the mailbox of every
    /// registered peer other than `sender` whose mailbox is open, skipping —
    /// and never failing on — peers whose mailbox has closed. Returns the
    /// identities that received the line, each exactly once.
    pub fn broadcast_except(&mut self, sender: u64, line: &str) -> (delivered: Vec<u64>)
        requires
            old(self).wf(),
        ensures
            final(self).wf(),
            final(self)@ == spec_broadcast(old(self)@, sender, line@),
            forall|k: int|
                0 <= k < delivered@.len() ==> delivers_to(
                    old(self)@,
                    sender,
                    #[trigger] delivered@[k],
                ),
            forall|id: u64| delivers_to(old(self)@, sender, id) ==> delivered@.contains(id),
            delivered@.no_duplicates(),
    {
        let ghost s0 = self.entries@;
        let mut delivered: Vec<u64> = Vec::new();
        let mut i: usize = 0;
        while i < self.entries.len()
            invariant
                i <= self.entries@.len(),
                self.entries@.len() == s0.len(),
                distinct_ids(s0),
                forall|j: int|
                    0 <= j < s0.len() ==> (#[trigger] self.entries@[j]).id == s0[j].id
                        && self.entries@[j].mailbox@.open == s0[j].mailbox@.open,
                forall|j: int| i <= j < s0.len() ==> #[trigger] self.entries@[j] == s0[j],
                forall|j: int|
                    0 <= j < i ==> (#[trigger] self.entries@[j]).mailbox@.queue == (if s0[j].id
                        != sender && s0[j].mailbox@.open {
                        s0[j].mailbox@.queue.push(line@)
                    } else {
                        s0[j].mailbox@.queue
                    }),
                forall|k: int|
                    0 <= k < delivered@.len() ==> delivers_to(
                        map_of(s0),
                        sender,
                        #[trigger] delivered@[k],
                    ),
                forall|j: int| i <= j < s0.len() ==> !delivered@.contains(#[trigger] s0[j].id),
                forall|j: int|
                    0 <= j < i && s0[j].id != sender && s0[j].mailbox@.open
                        ==> delivered@.contains(#[trigger] s0[j].id),
                delivered@.no_duplicates(),
            decreases self.entries@.len() - i,
        {
            let ghost d0 = delivered@;
            let id = self.entries[i].id;
            let is_open = self.entries[i].mailbox.open;
            proof {
                assert(id == s0[i as int].id);
                assert(is_open == s0[i as int].mailbox@.open);
            }
            if id != sender && is_open {
                let ghost pre = self.entries@;
                let mut e = self.entries.remove(i);
                e.mailbox.queue.push(line.to_owned());
                proof {
                    assert(e.mailbox@.queue =~= pre[i as int].mailbox@.queue.push(line@));
                }
                self.entries.insert(i, e);
                proof {
                    assert(self.entries@ =~= pre.update(i as int, e));
                    assert(!d0.contains(id));
                }
                delivered.push(id);
                proof {
                    lemma_map_of_index(s0, i as int);
                    assert(delivers_to(map_of(s0), sender, id));
                    assert(delivered@ =~= d0.push(id));
                    assert forall|k: int|
                        0 <= k < delivered@.len() implies delivers_to(
                            map_of(s0),
                            sender,
                            #[trigger] delivered@[k],
                        ) by {
                        if k < d0.len() {
                            assert(delivered@[k] == d0[k]);
                        } else {
                            assert(delivered@[k] == id);
                        }
                    }
                    assert forall|j: int|
                        i + 1 <= j < s0.len() implies !delivered@.contains(
                            #[trigger] s0[j].id,
                        ) by {
                        if delivered@.contains(s0[j].id) {
                            let k = choose|k: int|
                                0 <= k < delivered@.len() && delivered@[k] == s0[j].id;
                            if k < d0.len() {
                                assert(d0[k] == s0[j].id);
                                assert(d0.contains(s0[j].id));
                            } else {
                                assert(delivered@[k] == id);
                                assert(s0[j].id == s0[i as int].id);
                            }
                        }
                    }
                    assert forall|j: int|
                        0 <= j < i + 1 && s0[j].id != sender && s0[j].mailbox@.open
                            implies delivered@.contains(#[trigger] s0[j].id) by {
                        if j < i {
                            assert(d0.contains(s0[j].id));
                            let k = choose|k: int| 0 <= k < d0.len() && d0[k] == s0[j].id;
                            assert(delivered@[k] == s0[j].id);
                        } else {
                            assert(delivered@[d0.len() as int] == id);
                        }
                    }
                    assert(delivered@.no_duplicates()) by {
                        assert forall|a: int, b: int|
                            0 <= a < b < delivered@.len() implies delivered@[a]
                            != delivered@[b] by {
                            if b == d0.len() {
                                assert(delivered@[a] == d0[a]);
                                if d0[a] == id {
                                    assert(d0.contains(id));
                                }
                            } else {
                                assert(delivered@[a] == d0[a]);
                                assert(delivered@[b] == d0[b]);
                            }
                        }
                    }
                }
            }
            i = i + 1;
        }
        proof {
            let m0 = old(self)@;
            let s1 = self.entries@;
            lemma_map_of_dom(s0);
            lemma_map_of_dom(s1);
            assert forall|a: int, b: int| 0 <= a < b < s1.len() implies s1[a].id != s1[b].id by {
                assert(s1[a].id == s0[a].id);
                assert(s1[b].id == s0[b].id);
            }
            assert(distinct_ids(s1));
            assert forall|id: u64| #[trigger] self@.contains_key(id) == m0.contains_key(id) by {
                if self@.contains_key(id) {
                    let j = choose|j: int| 0 <= j < s1.len() && s1[j].id == id;
                    assert(s0[j].id == id);
                    assert(m0.contains_key(id));
                }
                if m0.contains_key(id) {
                    let j = choose|j: int| 0 <= j < s0.len() && s0[j].id == id;
                    assert(s1[j].id == id);
                    assert(self@.contains_key(id));
                }
            }
            assert forall|id: u64| self@.contains_key(id) implies self@[id] == spec_broadcast(
                m0,
                sender,
                line@,
            )[id] by {
                let j = choose|j: int| 0 <= j < s1.len() && s1[j].id == id;
                lemma_map_of_index(s1, j);
                lemma_map_of_index(s0, j);
                assert(s0[j].id == id);
                assert(m0[id] == s0[j].mailbox@);
                assert(self@[id] == s1[j].mailbox@);
                assert(s1[j].mailbox@ == spec_broadcast(m0, sender, line@)[id]);
            }
            assert(self@ =~= spec_broadcast(m0, sender, line@));
            assert forall|id: u64| delivers_to(m0, sender, id) implies delivered@.contains(
                id,
            ) by {
                let j = choose|j: int| 0 <= j < s0.len() && s0[j].id == id;
                lemma_map_of_index(s0, j);
                assert(s0[j].id != sender && s0[j].mailbox@.open);
            }
            assert(map_of(s0) == m0);
        }
        delivered
    }

    /// Hands the peer's outbound loop the next line to write, in FIFO order:
    /// the oldest queued line, if the peer is registered and has one.
    pub fn take_next(&mut self, id: u64) -> (r: Option<String>)
        requires
            old(self).wf(),
        ensures
            final(self).wf(),
            final(self)@ == spec_take(old(self)@, id),
            match r {
                Some(line) => old(self)@.contains_key(id) && old(self)@[id].queue.len() > 0
                    && line@ == old(self)@[id].queue[0],
                None => !old(self)@.contains_key(id) || old(self)@[id].queue.len() == 0,
            },
    {
        let ghost s0 = self.entries@;
        match self.find_index(id) {
            Some(i) => {
                proof {
                    lemma_map_of_index(s0, i as int);
                }
                let qlen = self.entries[i].mailbox.queue.len();
                if qlen > 0 {
                    let mut e = self.entries.remove(i);
                    let line = e.mailbox.queue.remove(0);
                    self.entries.insert(i, e);
                    proof {
                        assert(self.entries@ =~= s0.update(i as int, e));
                        lemma_map_of_update(s0, i as int, e);
                        assert forall|a: int, b: int|
                            0 <= a < b < self.entries@.len() implies self.entries@[a].id
                            != self.entries@[b].id by {
                            assert(self.entries@[a].id == s0[a].id);
                            assert(self.entries@[b].id == s0[b].id);
                        }
                        assert(e.mailbox@.queue =~= old(self)@[id].queue.drop_first());
                        assert(e.mailbox@ =~~= MailboxModel {
                            open: old(self)@[id].open,
                            queue: old(self)@[id].queue.drop_first(),
                        });
                        assert(self@ == spec_take(old(self)@, id));
                        assert(line@ == old(self)@[id].queue[0]);
                    }
                    Some(line)
                } else {
                    proof {
                        assert(old(self)@[id].queue.len() == 0);
                        assert(spec_take(old(self)@, id) == old(self)@);
                    }
                    None
                }
            },
            None => {
                proof {
                    lemma_map_of_dom(s0);
                    assert(!old(self)@.contains_key(id));
                }
                None
            },
        }
    }

    /// Whether a peer is currently registered, i.e. eligible to receive
    /// broadcasts.
    pub fn is_registered(&self, id: u64) -> (r: bool)
        requires
            self.wf(),
        ensures
            r == self@.contains_key(id),
    {
        proof {
            lemma_map_of_dom(self.entries@);
        }
        match self.find_index(id) {
            Some(_) => true,
            None => false,
        }
    }

    /// How many peers are currently registered.
    pub fn peer_count(&self) -> (n: usize)
        requires
            self.wf(),
        ensures
            self@.dom().finite(),
            n == self@.dom().len(),
    {
        proof {
            lemma_map_of_len(self.entries@);
        }
        self.entries.len()
    }

    /// How many lines are queued for a peer, if it is registered.
    pub fn pending_count(&self, id: u64) -> (r: Option<usize>)
        requires
            self.wf(),
        ensures
            match r {
                Some(n) => self@.contains_key(id) && n == self@[id].queue.len(),
                None => !self@.contains_key(id),
            },
    {
        proof {
            lemma_map_of_dom(self.entries@);
        }
        match self.find_index(id) {
            Some(i) => {
                proof {
                    lemma_map_of_index(self.entries@, i as int);
                }
                Some(self.entries[i].mailbox.queue.len())
            },
            None => None,
        }
    }
}

} // verus!
