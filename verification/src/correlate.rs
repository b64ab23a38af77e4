//! Correlation of outbound requests with their responses, by request
//! identifier.
use vstd::prelude::*;

verus! {

/// One open slot: a request identifier and the caller's ticket for it.
#[derive(Clone, Copy, Debug)]
pub struct PendingRequest {
    /// The request's 128-bit identifier.
    pub id: [u8; 16],
    /// The caller's handle for delivering the response.
    pub ticket: u64,
}

/// Some slot in `s` is for identifier `id`.
pub open spec fn pending_has(s: Seq<PendingRequest>, id: Seq<u8>) -> bool {
    exists|i: int| 0 <= i < s.len() && (#[trigger] s[i]).id@ == id
}

/// The ticket registered in `s` under `id`, if any.
pub open spec fn ticket_of(s: Seq<PendingRequest>, id: Seq<u8>) -> Option<u64> {
    if pending_has(s, id) {
        Some(s[choose|i: int| 0 <= i < s.len() && (#[trigger] s[i]).id@ == id].ticket)
    } else {
        None
    }
}

/// The table of open single-shot response slots.
pub struct CorrelationTable {
    /// The open slots, one per outstanding request identifier.
    pub pending: Vec<PendingRequest>,
}

impl CorrelationTable {
    /// Identifiers are distinct.
    pub open spec fn wf(self) -> bool {
        forall|i: int, j: int|
            0 <= i < self.pending@.len() && 0 <= j < self.pending@.len() && i != j
                ==> self.pending@[i].id@ != self.pending@[j].id@
    }

    /// An empty table.
    pub fn new() -> (r: CorrelationTable)
        ensures
            r.wf(),
            r.pending@ =~= Seq::<PendingRequest>::empty(),
    {
        CorrelationTable { pending: Vec::new() }
    }

    fn position_of(&self, id: &[u8; 16]) -> (r: Option<usize>)
        ensures
            match r {
                Some(i) => i < self.pending@.len() && self.pending@[i as int].id@ == id@,
                None => !pending_has(self.pending@, id@),
            },
    {
        let mut i: usize = 0;
        while i < self.pending.len()
            invariant
                i <= self.pending@.len(),
                forall|j: int| 0 <= j < i ==> (#[trigger] self.pending@[j]).id@ != id@,
            decreases self.pending@.len() - i,
        {
            if ids_equal(&self.pending[i].id, id) {
                return Some(i);
            }
            i = i + 1;
        }
        None
    }

    /// Open a slot for `id` with the caller's `ticket`; refused when a
    /// slot for `id` is already open.
    pub fn register(&mut self, id: [u8; 16], ticket: u64) -> (r: bool)
        requires
            old(self).wf(),
        ensures
            final(self).wf(),
            r == !pending_has(old(self).pending@, id@),
            r ==> ticket_of(final(self).pending@, id@) == Some(ticket),
            r ==> forall|other: Seq<u8>|
                other != id@ ==> #[trigger] ticket_of(final(self).pending@, other) == ticket_of(
                    old(self).pending@,
                    other,
                ),
            !r ==> *final(self) == *old(self),
    {
        match self.position_of(&id) {
            Some(_) => false,
            None => {
                let ghost pre = self.pending@;
                let p = PendingRequest { id, ticket };
                self.pending.push(p);
                proof {
                    lemma_pending_push(pre, p);
                }
                true
            },
        }
    }

    /// Deliver a response carrying `id`: consumes the slot and returns
    /// its ticket; with no open slot for `id`, nothing changes and the
    /// message is not a correlated response.
    pub fn take(&mut self, id: &[u8; 16]) -> (r: Option<u64>)
        requires
            old(self).wf(),
        ensures
            final(self).wf(),
            r == ticket_of(old(self).pending@, id@),
            !pending_has(final(self).pending@, id@),
            forall|other: Seq<u8>|
                other != id@ ==> #[trigger] ticket_of(final(self).pending@, other) == ticket_of(
                    old(self).pending@,
                    other,
                ),
            r is None ==> *final(self) == *old(self),
    {
        match self.position_of(id) {
            Some(i) => {
                let ghost pre = self.pending@;
                let p = self.pending.remove(i);
                proof {
                    lemma_pending_at_index(pre, i as int);
                    lemma_pending_remove(pre, i as int);
                }
                Some(p.ticket)
            },
            None => {
                proof {
                    assert(ticket_of(old(self).pending@, id@) is None);
                }
                None
            },
        }
    }

    /// Number of open slots.
    pub fn len(&self) -> (r: usize)
        ensures
            r == self.pending@.len(),
    {
        self.pending.len()
    }
}

/// Law: slots are independent: delivering a response for one request
/// identifier neither consumes nor alters the slot of any other, so two
/// outstanding requests with distinct identifiers can never receive each
/// other's responses.
pub proof fn lemma_correlation_uniqueness(
    pre: CorrelationTable,
    post: CorrelationTable,
    id1: Seq<u8>,
    id2: Seq<u8>,
    r: Option<u64>,
)
    requires
        pre.wf(),
        id1 != id2,
        r == ticket_of(pre.pending@, id1),
        !pending_has(post.pending@, id1),
        forall|other: Seq<u8>|
            other != id1 ==> #[trigger] ticket_of(post.pending@, other) == ticket_of(
                pre.pending@,
                other,
            ),
    ensures
        ticket_of(post.pending@, id2) == ticket_of(pre.pending@, id2),
        pending_has(pre.pending@, id2) && pending_has(pre.pending@, id1) ==> r == ticket_of(
            pre.pending@,
            id1,
        ) && ticket_of(post.pending@, id2) is Some,
{
}

/// With distinct identifiers, the slot at `i` is the one `ticket_of` reads.
proof fn lemma_pending_at_index(s: Seq<PendingRequest>, i: int)
    requires
        0 <= i < s.len(),
        forall|a: int, b: int|
            0 <= a < s.len() && 0 <= b < s.len() && a != b ==> s[a].id@ != s[b].id@,
    ensures
        pending_has(s, s[i].id@),
        ticket_of(s, s[i].id@) == Some(s[i].ticket),
{
    let id = s[i].id@;
    assert(pending_has(s, id));
    let j = choose|j: int| 0 <= j < s.len() && (#[trigger] s[j]).id@ == id;
    if j != i {
        assert(s[j].id@ == id);
    }
}

proof fn lemma_pending_push(s: Seq<PendingRequest>, p: PendingRequest)
    requires
        !pending_has(s, p.id@),
        forall|a: int, b: int|
            0 <= a < s.len() && 0 <= b < s.len() && a != b ==> s[a].id@ != s[b].id@,
    ensures
        forall|a: int, b: int|
            0 <= a < s.push(p).len() && 0 <= b < s.push(p).len() && a != b ==> s.push(p)[a].id@
                != s.push(p)[b].id@,
        ticket_of(s.push(p), p.id@) == Some(p.ticket),
        forall|other: Seq<u8>|
            other != p.id@ ==> #[trigger] ticket_of(s.push(p), other) == ticket_of(s, other),
{
    let s2 = s.push(p);
    assert forall|a: int, b: int|
        0 <= a < s2.len() && 0 <= b < s2.len() && a != b implies s2[a].id@ != s2[b].id@ by {
        if a < s.len() && b < s.len() {
            assert(s2[a] == s[a] && s2[b] == s[b]);
        } else if a < s.len() {
            assert(s2[a] == s[a] && s2[b] == p);
        } else {
            assert(s2[a] == p && s2[b] == s[b]);
        }
    }
    assert(s2[s.len() as int] == p);
    lemma_pending_at_index(s2, s.len() as int);
    assert forall|other: Seq<u8>| other != p.id@
        implies #[trigger] ticket_of(s2, other) == ticket_of(s, other) by {
        if pending_has(s, other) {
            let j = choose|j: int| 0 <= j < s.len() && (#[trigger] s[j]).id@ == other;
            assert(s2[j] == s[j]);
            lemma_pending_at_index(s, j);
            lemma_pending_at_index(s2, j);
        } else {
            if pending_has(s2, other) {
                let j = choose|j: int| 0 <= j < s2.len() && (#[trigger] s2[j]).id@ == other;
                assert(j < s.len());
                assert(s[j].id@ == other);
            }
        }
    }
}

proof fn lemma_pending_remove(s: Seq<PendingRequest>, i: int)
    requires
        0 <= i < s.len(),
        forall|a: int, b: int|
            0 <= a < s.len() && 0 <= b < s.len() && a != b ==> s[a].id@ != s[b].id@,
    ensures
        forall|a: int, b: int|
            0 <= a < s.remove(i).len() && 0 <= b < s.remove(i).len() && a != b ==> s.remove(
                i,
            )[a].id@ != s.remove(i)[b].id@,
        !pending_has(s.remove(i), s[i].id@),
        forall|other: Seq<u8>|
            other != s[i].id@ ==> #[trigger] ticket_of(s.remove(i), other) == ticket_of(s, other),
{
    let s2 = s.remove(i);
    assert forall|a: int, b: int|
        0 <= a < s2.len() && 0 <= b < s2.len() && a != b implies s2[a].id@ != s2[b].id@ by {
        let pa: int = if a < i { a } else { a + 1 };
        let pb: int = if b < i { b } else { b + 1 };
        assert(s2[a] == s[pa] && s2[b] == s[pb]);
    }
    assert forall|a: int| 0 <= a < s2.len() implies s2[a].id@ != s[i].id@ by {
        let pa: int = if a < i { a } else { a + 1 };
        assert(s2[a] == s[pa]);
    }
    assert forall|other: Seq<u8>| other != s[i].id@
        implies #[trigger] ticket_of(s2, other) == ticket_of(s, other) by {
        if pending_has(s, other) {
            let j = choose|j: int| 0 <= j < s.len() && (#[trigger] s[j]).id@ == other;
            assert(j != i);
            let nj: int = if j < i { j } else { j - 1 };
            assert(s2[nj] == s[j]);
            lemma_pending_at_index(s, j);
            lemma_pending_at_index(s2, nj);
        } else {
            if pending_has(s2, other) {
                let j = choose|j: int| 0 <= j < s2.len() && (#[trigger] s2[j]).id@ == other;
                let pj: int = if j < i { j } else { j + 1 };
                assert(s[pj].id@ == other);
            }
        }
    }
}

/// Byte equality of two request identifiers.
pub fn ids_equal(a: &[u8; 16], b: &[u8; 16]) -> (r: bool)
    ensures
        r == (a@ =~= b@),
{
    let mut i: usize = 0;
    while i < 16
        invariant
            i <= 16,
            forall|j: int| 0 <= j < i ==> a@[j] == b@[j],
        decreases 16 - i,
    {
        if a[i] != b[i] {
            return false;
        }
        i = i + 1;
    }
    true
}

} // verus!
