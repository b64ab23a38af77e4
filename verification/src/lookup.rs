//! The iterative lookup: its state and each round's decisions. Who is
//! asked, what came back and when the search stops is decided here; the
//! requests themselves travel outside, wave by wave.
use vstd::prelude::*;
use crate::id::NodeID;
use crate::routing::{Node, NodeView, closer_eq, has_id, unique_ids, sort_by_distance,
    lemma_closer_eq_total, lemma_closer_eq_trans};

verus! {

/// Some peer in `s` reads `v`.
pub open spec fn wave_covered(s: Seq<Node>, v: NodeView) -> bool {
    exists|i: int| 0 <= i < s.len() && (#[trigger] s[i])@ == v
}

/// The views of a peer list.
pub open spec fn node_views(s: Seq<Node>) -> Seq<NodeView> {
    Seq::new(s.len(), |i: int| s[i]@)
}

/// The identifier views of an identifier list.
pub open spec fn id_views(s: Seq<NodeID>) -> Seq<Seq<u8>> {
    Seq::new(s.len(), |i: int| s[i]@)
}

/// The identifiers of a peer list.
pub open spec fn wave_ids(s: Seq<Node>) -> Seq<Seq<u8>> {
    Seq::new(s.len(), |i: int| s[i]@.node_id)
}

/// Some view in `s` carries the identifier `id`.
pub open spec fn views_have_id(s: Seq<NodeView>, id: Seq<u8>) -> bool {
    exists|i: int| 0 <= i < s.len() && (#[trigger] s[i]).node_id == id
}

/// One round's results folded into the seen set, in order: a peer whose
/// identifier is already seen changes nothing, a new one is appended.
pub open spec fn merge_views(seen: Seq<NodeView>, found: Seq<NodeView>) -> Seq<NodeView>
    decreases found.len(),
{
    if found.len() == 0 {
        seen
    } else {
        let next = if views_have_id(seen, found[0].node_id) {
            seen
        } else {
            seen.push(found[0])
        };
        merge_views(next, found.drop_first())
    }
}

proof fn lemma_merge_views_take(seen: Seq<NodeView>, found: Seq<NodeView>, i: int)
    requires
        0 <= i < found.len(),
    ensures
        merge_views(seen, found.take(i + 1)) == ({
            let cur = merge_views(seen, found.take(i));
            if views_have_id(cur, found[i].node_id) {
                cur
            } else {
                cur.push(found[i])
            }
        }),
    decreases i,
{
    let step = if views_have_id(seen, found[0].node_id) {
        seen
    } else {
        seen.push(found[0])
    };
    if i == 0 {
        assert(found.take(0) =~= Seq::<NodeView>::empty());
        assert(merge_views(seen, found.take(0)) == seen);
        assert(found.take(1).len() == 1);
        assert(found.take(1)[0] == found[0]);
        assert(found.take(1).drop_first() =~= Seq::<NodeView>::empty());
        assert(merge_views(seen, found.take(1)) == merge_views(step, found.take(1).drop_first()));
        assert(merge_views(step, found.take(1).drop_first()).len() >= 0);
        assert(found.take(1).drop_first().len() == 0);
        assert(merge_views(step, found.take(1).drop_first()) == step);
    } else {
        assert(found.take(i + 1).len() == i + 1);
        assert(found.take(i + 1)[0] == found[0]);
        assert(found.take(i)[0] == found[0]);
        assert(found.take(i + 1).drop_first() =~= found.drop_first().take(i));
        assert(found.take(i).drop_first() =~= found.drop_first().take(i - 1));
        assert(merge_views(seen, found.take(i + 1)) == merge_views(
            step,
            found.take(i + 1).drop_first(),
        ));
        assert(merge_views(seen, found.take(i)) == merge_views(
            step,
            found.take(i).drop_first(),
        ));
        lemma_merge_views_take(step, found.drop_first(), i - 1);
        assert(found.drop_first()[i - 1] == found[i]);
    }
}

/// A permutation of peers with distinct identifiers has distinct
/// identifiers.
proof fn lemma_perm_unique_ids(a: Seq<Node>, b: Seq<Node>)
    requires
        a.to_multiset() == b.to_multiset(),
        unique_ids(a),
    ensures
        unique_ids(b),
{
    broadcast use vstd::seq_lib::group_to_multiset_ensures;

    assert(a.no_duplicates()) by {
        assert forall|i: int, j: int| 0 <= i < j < a.len() implies a[i] != a[j] by {
            assert(a[i]@.node_id != a[j]@.node_id);
        }
    }
    a.lemma_multiset_has_no_duplicates();
    b.lemma_multiset_has_no_duplicates_conv();
    assert forall|i: int, j: int|
        0 <= i < b.len() && 0 <= j < b.len() && i != j
        implies b[i]@.node_id != b[j]@.node_id by {
        if b[i]@.node_id == b[j]@.node_id {
            assert(b[i] != b[j]);
            assert(b.contains(b[i]) && b.contains(b[j]));
            assert(b.to_multiset().count(b[i]) > 0);
            assert(b.to_multiset().count(b[j]) > 0);
            assert(a.to_multiset().count(b[i]) > 0);
            assert(a.to_multiset().count(b[j]) > 0);
            assert(a.contains(b[i]) && a.contains(b[j]));
            let ia = choose|ia: int| 0 <= ia < a.len() && a[ia] == b[i];
            let ja = choose|ja: int| 0 <= ja < a.len() && a[ja] == b[j];
            assert(ia != ja);
        }
    }
}

/// An iterative lookup in progress.
pub struct LookupState {
    /// What the lookup is converging on.
    pub target: NodeID,
    /// How many peers are queried per round, and returned at the end.
    pub alpha: usize,
    /// Every peer learned of so far, one per identifier.
    pub seen: Vec<Node>,
    /// Identifiers already queried.
    pub queried: Vec<NodeID>,
    /// The `alpha` closest peers seen, closest first.
    pub closest: Vec<Node>,
}

impl LookupState {
    /// Peers are distinct; the frontier is sorted, bounded, drawn from
    /// the seen set, distinct, as large as the bound allows, and no
    /// frontier peer is farther than a seen peer left out.
    pub open spec fn wf(self) -> bool {
        &&& self.alpha >= 1
        &&& unique_ids(self.seen@)
        &&& unique_ids(self.closest@)
        &&& self.closest@.len() == (if self.alpha <= self.seen@.len() {
            self.alpha as int
        } else {
            self.seen@.len() as int
        })
        &&& forall|i: int, j: int|
            0 <= i < j < self.closest@.len() ==> closer_eq(
                self.target@,
                self.closest@[i]@,
                self.closest@[j]@,
            )
        &&& forall|i: int|
            0 <= i < self.closest@.len() ==> wave_covered(
                self.seen@,
                (#[trigger] self.closest@[i])@,
            )
        &&& forall|i: int, sj: int|
            0 <= i < self.closest@.len() && 0 <= sj < self.seen@.len() && !has_id(
                self.closest@,
                (#[trigger] self.seen@[sj])@.node_id,
            ) ==> closer_eq(self.target@, (#[trigger] self.closest@[i])@, self.seen@[sj]@)
    }

    /// Start a lookup from the closest locally known peers.
    pub fn start(target: NodeID, alpha: usize, initial: Vec<Node>) -> (r: LookupState)
        requires
            alpha >= 1,
        ensures
            r.wf(),
            r.target == target,
            r.alpha == alpha,
            r.queried@.len() == 0,
    {
        let mut state = LookupState {
            target,
            alpha,
            seen: Vec::new(),
            queried: Vec::new(),
            closest: Vec::new(),
        };
        state.absorb(&initial);
        state
    }

    /// The next peers to query: up to `alpha` frontier peers not yet
    /// queried, which become marked as queried; empty only when the
    /// whole frontier has been queried.
    pub fn take_wave(&mut self) -> (r: Vec<Node>)
        requires
            old(self).wf(),
        ensures
            final(self).wf(),
            final(self).target == old(self).target,
            final(self).alpha == old(self).alpha,
            final(self).seen@ == old(self).seen@,
            final(self).closest@ == old(self).closest@,
            r@.len() <= old(self).alpha,
            forall|i: int|
                0 <= i < r@.len() ==> wave_covered(old(self).closest@, (#[trigger] r@[i])@),
            forall|i: int|
                0 <= i < r@.len() ==> !ids_have(old(self).queried@, (#[trigger] r@[i])@.node_id),
            id_views(final(self).queried@) == id_views(old(self).queried@) + wave_ids(r@),
            r@.len() == 0 ==> forall|i: int|
                0 <= i < old(self).closest@.len() ==> ids_have(
                    old(self).queried@,
                    (#[trigger] old(self).closest@[i])@.node_id,
                ),
    {
        let mut wave: Vec<Node> = Vec::new();
        let mut i: usize = 0;
        let ghost pre_closest = self.closest@;
        let ghost pre_queried = self.queried@;
        proof {
            assert(id_views(self.queried@) =~= id_views(pre_queried) + wave_ids(wave@));
        }
        while i < self.closest.len() && wave.len() < self.alpha
            invariant
                old(self).wf(),
                self.target == old(self).target,
                self.alpha == old(self).alpha,
                self.seen@ == old(self).seen@,
                self.closest@ == old(self).closest@,
                self.closest@ == pre_closest,
                pre_queried == old(self).queried@,
                self.alpha >= 1,
                i <= self.closest@.len(),
                wave@.len() <= self.alpha,
                forall|a: int|
                    0 <= a < wave@.len() ==> wave_covered(pre_closest, (#[trigger] wave@[a])@),
                forall|a: int|
                    0 <= a < wave@.len() ==> !ids_have(pre_queried, (#[trigger] wave@[a])@.node_id),
                id_views(self.queried@) == id_views(pre_queried) + wave_ids(wave@),
                self.queried@.len() == pre_queried.len() + wave@.len(),
                forall|a: int| 0 <= a < pre_queried.len() ==> self.queried@[a] == pre_queried[a],
                wave@.len() == 0 ==> self.queried@ == pre_queried,
                wave@.len() == 0 ==> forall|a: int|
                    0 <= a < i ==> ids_have(self.queried@, (#[trigger] pre_closest[a])@.node_id),
            decreases self.closest@.len() - i,
        {
            if !ids_contain(&self.queried, &self.closest[i].node_id) {
                let picked = self.closest[i].duplicate();
                let ghost pre_wave = wave@;
                let ghost mid_queried = self.queried@;
                wave.push(picked);
                self.queried.push(self.closest[i].node_id);
                proof {
                    assert(wave@[pre_wave.len() as int]@ == pre_closest[i as int]@);
                    assert forall|a: int| 0 <= a < wave@.len()
                        implies wave_covered(pre_closest, (#[trigger] wave@[a])@) by {
                        if a < pre_wave.len() {
                            assert(wave@[a] == pre_wave[a]);
                        }
                    }
                    assert(!ids_have(pre_queried, pre_closest[i as int]@.node_id)) by {
                        if ids_have(pre_queried, pre_closest[i as int]@.node_id) {
                            let w = choose|w: int|
                                0 <= w < pre_queried.len() && (#[trigger] pre_queried[w])@
                                    == pre_closest[i as int]@.node_id;
                            assert(mid_queried[w] == pre_queried[w]);
                            assert(mid_queried[w]@ == pre_closest[i as int]@.node_id);
                            assert(ids_have(mid_queried, pre_closest[i as int]@.node_id));
                        }
                    }
                    assert forall|a: int| 0 <= a < wave@.len()
                        implies !ids_have(pre_queried, (#[trigger] wave@[a])@.node_id) by {
                        if a < pre_wave.len() {
                            assert(wave@[a] == pre_wave[a]);
                        }
                    }
                    assert forall|a: int| 0 <= a < self.queried@.len()
                        implies id_views(self.queried@)[a] == (id_views(pre_queried) + wave_ids(
                        wave@,
                    ))[a] by {
                        if a < mid_queried.len() {
                            assert(self.queried@[a] == mid_queried[a]);
                            assert(id_views(mid_queried)[a] == (id_views(pre_queried) + wave_ids(
                                pre_wave,
                            ))[a]);
                            if a >= pre_queried.len() {
                                assert(wave@[a - pre_queried.len()] == pre_wave[a
                                    - pre_queried.len()]);
                            }
                        } else {
                            assert(self.queried@[a]@ == pre_closest[i as int]@.node_id);
                            assert(wave@[a - pre_queried.len()] == wave@[wave@.len() - 1]);
                            assert(wave@[wave@.len() - 1]@ == pre_closest[i as int]@);
                        }
                    }
                    assert(id_views(self.queried@) =~= id_views(pre_queried) + wave_ids(wave@));
                }
            } else {
                proof {
                    assert(ids_have(self.queried@, pre_closest[i as int]@.node_id));
                }
            }
            i = i + 1;
        }
        wave
    }

    /// Fold one round's results in: unseen peers join the seen set, in
    /// order, and the frontier becomes the `alpha` closest peers seen.
    /// Reports whether any previously unseen peer arrived; a frontier
    /// that was nonempty stays nonempty and its best peer never gets
    /// farther from the target.
    pub fn absorb(&mut self, found: &Vec<Node>) -> (r: bool)
        requires
            old(self).alpha >= 1,
            unique_ids(old(self).seen@),
        ensures
            final(self).wf(),
            final(self).target == old(self).target,
            final(self).alpha == old(self).alpha,
            final(self).queried@ == old(self).queried@,
            node_views(final(self).seen@) == merge_views(
                node_views(old(self).seen@),
                node_views(found@),
            ),
            r == exists|i: int|
                0 <= i < found@.len() && !has_id(old(self).seen@, (#[trigger] found@[i])@.node_id),
            old(self).wf() && old(self).closest@.len() > 0 ==> final(self).closest@.len() > 0
                && closer_eq(
                old(self).target@,
                final(self).closest@[0]@,
                old(self).closest@[0]@,
            ),
    {
        let mut any_new = false;
        let mut i: usize = 0;
        let ghost pre_seen = self.seen@;
        proof {
            assert(node_views(found@).take(0) =~= Seq::<NodeView>::empty());
            assert(node_views(self.seen@) =~= merge_views(
                node_views(pre_seen),
                node_views(found@).take(0),
            ));
        }
        while i < found.len()
            invariant
                self.target == old(self).target,
                self.alpha == old(self).alpha,
                self.queried@ == old(self).queried@,
                self.closest@ == old(self).closest@,
                i <= found@.len(),
                unique_ids(self.seen@),
                forall|a: int|
                    0 <= a < pre_seen.len() ==> self.seen@[a] == pre_seen[a],
                self.seen@.len() >= pre_seen.len(),
                node_views(self.seen@) == merge_views(
                    node_views(pre_seen),
                    node_views(found@).take(i as int),
                ),
                any_new == exists|a: int|
                    0 <= a < i && !has_id(pre_seen, (#[trigger] found@[a])@.node_id),
                self.seen@.len() > pre_seen.len() ==> any_new,
                forall|a: int|
                    pre_seen.len() <= a < self.seen@.len() ==> !has_id(
                        pre_seen,
                        (#[trigger] self.seen@[a])@.node_id,
                    ),
            decreases found@.len() - i,
        {
            let f = &found[i];
            proof {
                lemma_merge_views_take(node_views(pre_seen), node_views(found@), i as int);
                assert(node_views(found@)[i as int] == found@[i as int]@);
            }
            if !seen_contains(&self.seen, &f.node_id) {
                let ghost mid_seen = self.seen@;
                self.seen.push(f.duplicate());
                any_new = true;
                proof {
                    let post = self.seen@;
                    assert(post[mid_seen.len() as int]@ == found@[i as int]@);
                    assert forall|a: int, b: int|
                        0 <= a < post.len() && 0 <= b < post.len() && a != b
                        implies post[a]@.node_id != post[b]@.node_id by {
                        if a < mid_seen.len() && b < mid_seen.len() {
                            assert(post[a] == mid_seen[a] && post[b] == mid_seen[b]);
                        } else if a < mid_seen.len() {
                            assert(post[a] == mid_seen[a]);
                            assert(!has_id(mid_seen, post[b]@.node_id));
                        } else {
                            assert(post[b] == mid_seen[b]);
                            assert(!has_id(mid_seen, post[a]@.node_id));
                        }
                    }
                    assert(!has_id(pre_seen, found@[i as int]@.node_id)) by {
                        if has_id(pre_seen, found@[i as int]@.node_id) {
                            let a = choose|a: int|
                                0 <= a < pre_seen.len() && pre_seen[a]@.node_id
                                    == found@[i as int]@.node_id;
                            assert(mid_seen[a] == pre_seen[a]);
                        }
                    }
                    assert(!views_have_id(node_views(mid_seen), found@[i as int]@.node_id)) by {
                        if views_have_id(node_views(mid_seen), found@[i as int]@.node_id) {
                            let w = choose|w: int|
                                0 <= w < node_views(mid_seen).len() && (#[trigger] node_views(
                                    mid_seen,
                                )[w]).node_id == found@[i as int]@.node_id;
                            assert(mid_seen[w]@.node_id == found@[i as int]@.node_id);
                        }
                    }
                    assert(node_views(post) =~= node_views(mid_seen).push(found@[i as int]@));
                    assert(node_views(self.seen@) =~= merge_views(
                        node_views(pre_seen),
                        node_views(found@).take(i + 1),
                    ));
                }
            } else {
                proof {
                    let mid_seen = self.seen@;
                    let a = choose|a: int|
                        0 <= a < self.seen@.len() && self.seen@[a]@.node_id
                            == found@[i as int]@.node_id;
                    if a < pre_seen.len() {
                        assert(self.seen@[a] == pre_seen[a]);
                        assert(pre_seen[a]@.node_id == found@[i as int]@.node_id);
                        assert(has_id(pre_seen, found@[i as int]@.node_id));
                    } else {
                        assert(self.seen@.len() > pre_seen.len());
                    }
                    assert(views_have_id(node_views(mid_seen), found@[i as int]@.node_id)) by {
                        assert(node_views(mid_seen)[a].node_id == found@[i as int]@.node_id);
                    }
                    assert(node_views(self.seen@) =~= merge_views(
                        node_views(pre_seen),
                        node_views(found@).take(i + 1),
                    ));
                }
            }
            i = i + 1;
        }
        proof {
            assert(node_views(found@).take(found@.len() as int) =~= node_views(found@));
        }
        let copies = copy_nodes(&self.seen);
        let ghost copies_view = copies@;
        proof {
            assert forall|a: int, b: int|
                0 <= a < copies_view.len() && 0 <= b < copies_view.len() && a != b
                implies copies_view[a]@.node_id != copies_view[b]@.node_id by {
                assert(copies_view[a]@ == self.seen@[a]@);
                assert(copies_view[b]@ == self.seen@[b]@);
            }
        }
        let mut sorted = sort_by_distance(copies, &self.target);
        let ghost sorted_full = sorted@;
        proof {
            lemma_perm_unique_ids(copies_view, sorted_full);
        }
        sorted.truncate(self.alpha);
        proof {
            broadcast use vstd::seq_lib::group_to_multiset_ensures;

            if self.alpha < sorted_full.len() {
                assert(sorted@ =~= sorted_full.take(self.alpha as int));
            } else {
                assert(sorted@ =~= sorted_full);
            }
            assert(unique_ids(sorted@)) by {
                assert forall|a: int, b: int|
                    0 <= a < sorted@.len() && 0 <= b < sorted@.len() && a != b
                    implies sorted@[a]@.node_id != sorted@[b]@.node_id by {
                    assert(sorted@[a] == sorted_full[a] && sorted@[b] == sorted_full[b]);
                }
            }
            assert forall|a: int| 0 <= a < sorted@.len()
                implies wave_covered(self.seen@, (#[trigger] sorted@[a])@) by {
                let x = sorted@[a];
                assert(sorted_full[a] == x);
                assert(sorted_full.contains(x));
                assert(sorted_full.to_multiset().count(x) > 0);
                assert(copies_view.to_multiset().count(x) > 0);
                assert(copies_view.contains(x));
                let ci = choose|ci: int| 0 <= ci < copies_view.len() && copies_view[ci] == x;
                assert(copies_view[ci]@ == self.seen@[ci]@);
            }
            assert forall|a: int, sj: int|
                0 <= a < sorted@.len() && 0 <= sj < self.seen@.len() && !has_id(
                    sorted@,
                    (#[trigger] self.seen@[sj])@.node_id,
                ) implies closer_eq(self.target@, (#[trigger] sorted@[a])@, self.seen@[sj]@) by {
                let y = copies_view[sj];
                assert(y@ == self.seen@[sj]@);
                assert(copies_view.contains(y));
                assert(copies_view.to_multiset().count(y) > 0);
                assert(sorted_full.to_multiset().count(y) > 0);
                assert(sorted_full.contains(y));
                let sx = choose|sx: int| 0 <= sx < sorted_full.len() && sorted_full[sx] == y;
                if sx < sorted@.len() {
                    assert(sorted@[sx]@.node_id == self.seen@[sj]@.node_id);
                    assert(has_id(sorted@, self.seen@[sj]@.node_id));
                } else {
                    assert(sorted@[a] == sorted_full[a]);
                    assert(closer_eq(self.target@, sorted_full[a]@, sorted_full[sx]@));
                }
            }
        }
        self.closest = sorted;
        proof {
            if old(self).wf() && old(self).closest@.len() > 0 {
                let v = old(self).closest@[0]@;
                let si = choose|si: int|
                    0 <= si < old(self).seen@.len() && (#[trigger] old(self).seen@[si])@ == v;
                assert(self.seen@[si]@ == v);
                assert(self.seen@.len() >= 1);
                assert(self.closest@.len() > 0);
                if has_id(self.closest@, v.node_id) {
                    let ci = choose|ci: int|
                        0 <= ci < self.closest@.len() && self.closest@[ci]@.node_id == v.node_id;
                    assert(closer_eq(self.target@, self.closest@[ci]@, v)) by {
                        assert(crate::id::xor_bytes(self.closest@[ci]@.node_id, self.target@)
                            =~= crate::id::xor_bytes(v.node_id, self.target@));
                        lemma_closer_eq_total(self.target@, self.closest@[ci]@, self.closest@[ci]@);
                    }
                    if ci > 0 {
                        lemma_closer_eq_trans(
                            self.target@,
                            self.closest@[0]@,
                            self.closest@[ci]@,
                            v,
                        );
                    }
                } else {
                    assert(closer_eq(self.target@, self.closest@[0]@, self.seen@[si]@));
                }
            }
        }
        any_new
    }

    /// Copies of the frontier: the closest peers this lookup knows.
    pub fn best(&self) -> (r: Vec<Node>)
        ensures
            r@.len() == self.closest@.len(),
            forall|i: int| 0 <= i < r@.len() ==> (#[trigger] r@[i])@ == self.closest@[i]@,
    {
        copy_nodes(&self.closest)
    }
}

/// Some identifier in `s` equals `id`.
pub open spec fn ids_have(s: Seq<NodeID>, id: Seq<u8>) -> bool {
    exists|i: int| 0 <= i < s.len() && (#[trigger] s[i])@ == id
}

/// Whether the identifier list contains `id`.
fn ids_contain(ids: &Vec<NodeID>, id: &NodeID) -> (r: bool)
    ensures
        r == ids_have(ids@, id@),
{
    let mut i: usize = 0;
    while i < ids.len()
        invariant
            i <= ids@.len(),
            forall|j: int| 0 <= j < i ==> (#[trigger] ids@[j])@ != id@,
        decreases ids@.len() - i,
    {
        if ids[i].equals(id) {
            proof {
                assert(ids@[i as int]@ =~= id@);
            }
            return true;
        }
        i = i + 1;
    }
    false
}

/// Whether a peer with identifier `id` is in the list.
fn seen_contains(nodes: &Vec<Node>, id: &NodeID) -> (r: bool)
    ensures
        r == has_id(nodes@, id@),
{
    let mut i: usize = 0;
    while i < nodes.len()
        invariant
            i <= nodes@.len(),
            forall|j: int| 0 <= j < i ==> nodes@[j]@.node_id != id@,
        decreases nodes@.len() - i,
    {
        if nodes[i].node_id.equals(id) {
            proof {
                assert(nodes@[i as int]@.node_id =~= id@);
            }
            return true;
        }
        i = i + 1;
    }
    false
}

/// View-equal copies of a peer list.
fn copy_nodes(nodes: &Vec<Node>) -> (r: Vec<Node>)
    ensures
        r@.len() == nodes@.len(),
        forall|i: int| 0 <= i < r@.len() ==> (#[trigger] r@[i])@ == nodes@[i]@,
{
    let mut out: Vec<Node> = Vec::new();
    let mut i: usize = 0;
    while i < nodes.len()
        invariant
            i <= nodes@.len(),
            out@.len() == i,
            forall|j: int| 0 <= j < i ==> (#[trigger] out@[j])@ == nodes@[j]@,
        decreases nodes@.len() - i,
    {
        out.push(nodes[i].duplicate());
        i = i + 1;
    }
    out
}

/// How many stores in a fan-out were acknowledged.
pub fn count_successes(acks: &Vec<bool>) -> (r: usize)
    ensures
        r == acks@.filter(|a: bool| a).len(),
        (r > 0) == acks@.contains(true),
{
    let mut count: usize = 0;
    let mut i: usize = 0;
    proof {
        assert(acks@.take(0) =~= Seq::<bool>::empty());
        acks@.take(0).lemma_filter_len(|a: bool| a);
        assert(acks@.take(0).filter(|a: bool| a) =~= Seq::<bool>::empty());
    }
    while i < acks.len()
        invariant
            i <= acks@.len(),
            count == acks@.take(i as int).filter(|a: bool| a).len(),
            count <= i,
            (count > 0) == acks@.take(i as int).contains(true),
        decreases acks@.len() - i,
    {
        let ghost pre = acks@.take(i as int);
        if acks[i] {
            count = count + 1;
        }
        proof {
            assert(acks@.take(i + 1) =~= pre.push(acks@[i as int]));
            pre.lemma_filter_push(acks@[i as int], |a: bool| a);
            acks@.take(i as int).lemma_filter_len(|a: bool| a);
            if acks@[i as int] {
                assert(acks@.take(i + 1).contains(true)) by {
                    assert(acks@.take(i + 1)[i as int] == true);
                }
            } else {
                assert(acks@.take(i + 1).contains(true) == pre.contains(true)) by {
                    if acks@.take(i + 1).contains(true) {
                        let w = choose|w: int|
                            0 <= w < acks@.take(i + 1).len() && #[trigger] acks@.take(i + 1)[w]
                                == true;
                        if w < i {
                            assert(pre[w] == true);
                        }
                    } else {
                        if pre.contains(true) {
                            let w = choose|w: int| 0 <= w < pre.len() && pre[w] == true;
                            assert(acks@.take(i + 1)[w] == true);
                        }
                    }
                }
            }
        }
        i = i + 1;
    }
    proof {
        assert(acks@.take(acks@.len() as int) =~= acks@);
    }
    count
}

} // verus!
