//! Ring assembly for multi-part relations: filtering of boundary-segment
//! members and a greedy, priority-tiered topological sort that orders the
//! segments into ring-traversal order, recording a traversal direction for
//! each. The sort's whole behaviour is specified: its result equals the
//! mathematical walk `sort_spec`, so the ordering, the traversal flags and
//! the tie-break order are pinned; every member is emitted exactly once,
//! with only its `reverse` flag possibly changed.
use std::collections::HashMap;
use vstd::multiset::Multiset;
use vstd::prelude::*;

verus! {

broadcast use
    vstd::std_specs::hash::group_hash_axioms,
    vstd::seq_lib::group_to_multiset_ensures,
    vstd::multiset::group_multiset_axioms;

/// Role of a member inside its relation.
#[derive(Clone, Copy, Debug, PartialEq, Eq, Structural)]
pub enum MemberRole {
    Inner,
    Outer,
    Unused,
}

/// Kind of entity a member refers to.
#[derive(Clone, Copy, Debug, PartialEq, Eq, Structural)]
pub enum MemberType {
    Node,
    Way,
    Relation,
}

/// A reference inside a multi-part relation. `reverse` records the
/// traversal direction that assembly resolves for the member's chain.
#[derive(Clone, Copy, Debug, PartialEq, Eq, Structural)]
pub struct Member {
    pub id: u64,
    pub role: MemberRole,
    pub member_type: MemberType,
    pub reverse: bool,
}

/// The member with its traversal flag cleared: assembly may set the flag
/// but never changes which member it is.
pub open spec fn unoriented(m: Member) -> Member {
    Member { reverse: false, ..m }
}

/// The member list with every traversal flag cleared.
pub open spec fn unoriented_seq(s: Seq<Member>) -> Seq<Member> {
    s.map_values(|m: Member| unoriented(m))
}

/// The multiset of members, traversal flags disregarded.
pub open spec fn unoriented_multiset(s: Seq<Member>) -> Multiset<Member> {
    unoriented_seq(s).to_multiset()
}

/// A member that matters for rendering: an inner- or outer-role way whose
/// resolved chain is non-empty.
pub open spec fn kept_member(m: Member, ways: Map<u64, Vec<u64>>) -> bool {
    &&& (m.role == MemberRole::Inner || m.role == MemberRole::Outer)
    &&& m.member_type == MemberType::Way
    &&& ways.contains_key(m.id)
    &&& ways[m.id]@.len() > 0
}

/// The member list restricted to the members that matter for rendering,
/// in their original relative order.
pub open spec fn drained(members: Seq<Member>, ways: Map<u64, Vec<u64>>) -> Seq<Member> {
    members.filter(|m: Member| kept_member(m, ways))
}

/// Every member's chain is present in the lookup and non-empty.
pub open spec fn chains_resolved(members: Seq<Member>, ways: Map<u64, Vec<u64>>) -> bool {
    forall|t: int|
        0 <= t < members.len() ==> ways.contains_key((#[trigger] members[t]).id)
            && ways[members[t].id]@.len() > 0
}

proof fn lemma_drained_extend(s: Seq<Member>, ways: Map<u64, Vec<u64>>, i: int)
    requires
        0 <= i < s.len(),
    ensures
        kept_member(s[i], ways) ==> drained(s.subrange(0, i + 1), ways) == drained(
            s.subrange(0, i),
            ways,
        ).push(s[i]),
        !kept_member(s[i], ways) ==> drained(s.subrange(0, i + 1), ways) == drained(
            s.subrange(0, i),
            ways,
        ),
{
    reveal(Seq::filter);
    let t = s.subrange(0, i + 1);
    assert(t.drop_last() =~= s.subrange(0, i));
    assert(t.last() == s[i]);
}

impl Member {
    /// A fresh member; its traversal flag starts cleared.
    pub fn new(id: u64, role: MemberRole, member_type: MemberType) -> (r: Self)
        ensures
            r.id == id && r.role == role && r.member_type == member_type && !r.reverse,
    {
        Member { id, role, member_type, reverse: false }
    }

    /// Law: keeps exactly the inner- or outer-role way members whose
    /// resolved chain is non-empty, in their original relative order;
    /// every other member is removed.
    pub fn drain(members: &mut Vec<Member>, ways: &HashMap<u64, Vec<u64>>)
        ensures
            final(members)@ == drained(old(members)@, ways@),
    {
        let mut out: Vec<Member> = Vec::new();
        let mut i: usize = 0;
        while i < members.len()
            invariant
                i <= members@.len(),
                out@ == drained(members@.subrange(0, i as int), ways@),
            decreases members@.len() - i,
        {
            let m = members[i];
            let keep = (m.role == MemberRole::Inner || m.role == MemberRole::Outer)
                && m.member_type == MemberType::Way && (match ways.get(&m.id) {
                Some(refs) => refs.len() > 0,
                None => false,
            });
            proof {
                assert(keep == kept_member(m, ways@));
                lemma_drained_extend(members@, ways@, i as int);
            }
            if keep {
                out.push(m);
            }
            i = i + 1;
        }
        proof {
            assert(members@.subrange(0, members@.len() as int) =~= members@);
        }
        *members = out;
    }
}

/// The unoriented members at the positions marked visited.
spec fn visited_multiset(s: Seq<Member>, vis: Seq<bool>) -> Multiset<Member>
    decreases s.len(),
{
    if s.len() == 0 || vis.len() == 0 {
        Multiset::empty()
    } else {
        visited_multiset(s.drop_last(), vis.drop_last()).add(
            if vis.last() {
                Multiset::empty().insert(unoriented(s.last()))
            } else {
                Multiset::empty()
            },
        )
    }
}

/// Marking one more position adds its unoriented member to the multiset.
proof fn lemma_visited_multiset_update(s: Seq<Member>, vis: Seq<bool>, t: int)
    requires
        s.len() == vis.len(),
        0 <= t < s.len(),
        !vis[t],
    ensures
        visited_multiset(s, vis.update(t, true)) == visited_multiset(s, vis).insert(
            unoriented(s[t]),
        ),
    decreases s.len(),
{
    let vis2 = vis.update(t, true);
    if t == s.len() - 1 {
        assert(vis2.drop_last() =~= vis.drop_last());
        assert(vis2.last());
        assert(!vis.last());
        assert(visited_multiset(s, vis2) =~= visited_multiset(s, vis).insert(unoriented(s[t])));
    } else {
        lemma_visited_multiset_update(s.drop_last(), vis.drop_last(), t);
        assert(vis2.drop_last() =~= vis.drop_last().update(t, true));
        assert(vis2.last() == vis.last());
        assert(s.drop_last()[t] == s[t]);
        assert(visited_multiset(s, vis2) =~= visited_multiset(s, vis).insert(unoriented(s[t])));
    }
}

/// With nothing marked, the visited multiset is empty.
proof fn lemma_visited_multiset_none(s: Seq<Member>, vis: Seq<bool>)
    requires
        vis.len() == s.len(),
        forall|t: int| 0 <= t < vis.len() ==> !vis[t],
    ensures
        visited_multiset(s, vis) == Multiset::<Member>::empty(),
    decreases s.len(),
{
    if s.len() > 0 {
        lemma_visited_multiset_none(s.drop_last(), vis.drop_last());
        assert(visited_multiset(s, vis) =~= Multiset::<Member>::empty());
    }
}

/// With every position marked, the visited multiset is the whole list's.
proof fn lemma_visited_multiset_all(s: Seq<Member>, vis: Seq<bool>)
    requires
        vis.len() == s.len(),
        forall|t: int| 0 <= t < vis.len() ==> vis[t],
    ensures
        visited_multiset(s, vis) == unoriented_multiset(s),
    decreases s.len(),
{
    if s.len() == 0 {
        assert(unoriented_seq(s).len() == 0);
        assert(unoriented_seq(s).to_multiset() =~= Multiset::<Member>::empty());
    } else {
        lemma_visited_multiset_all(s.drop_last(), vis.drop_last());
        assert(unoriented_seq(s) =~= unoriented_seq(s.drop_last()).push(unoriented(s.last())));
        assert(unoriented_multiset(s) == unoriented_multiset(s.drop_last()).insert(
            unoriented(s.last()),
        ));
        assert(visited_multiset(s, vis) =~= unoriented_multiset(s));
    }
}

/// Concatenation adds the unoriented multisets.
proof fn lemma_unoriented_multiset_concat(a: Seq<Member>, b: Seq<Member>)
    ensures
        unoriented_multiset(a + b) == unoriented_multiset(a).add(unoriented_multiset(b)),
{
    assert(unoriented_seq(a + b) =~= unoriented_seq(a) + unoriented_seq(b));
    vstd::seq_lib::lemma_multiset_commutative(unoriented_seq(a), unoriented_seq(b));
}

/// Number of positions marked true.
spec fn count_true(s: Seq<bool>) -> int
    decreases s.len(),
{
    if s.len() == 0 {
        0
    } else {
        count_true(s.drop_last()) + (if s.last() {
            1int
        } else {
            0int
        })
    }
}

proof fn lemma_count_true_bound(s: Seq<bool>)
    ensures
        0 <= count_true(s) <= s.len(),
    decreases s.len(),
{
    if s.len() > 0 {
        lemma_count_true_bound(s.drop_last());
    }
}

proof fn lemma_count_true_update(s: Seq<bool>, t: int)
    requires
        0 <= t < s.len(),
        !s[t],
    ensures
        count_true(s.update(t, true)) == count_true(s) + 1,
    decreases s.len(),
{
    let s2 = s.update(t, true);
    if t == s.len() - 1 {
        assert(s2.drop_last() =~= s.drop_last());
    } else {
        lemma_count_true_update(s.drop_last(), t);
        assert(s2.drop_last() =~= s.drop_last().update(t, true));
        assert(s2.last() == s.last());
    }
}

/// Every index list in the multimap points inside the member list.
spec fn index_lists_bounded(m: Map<u64, Vec<usize>>, n: int) -> bool {
    forall|k: u64, t: int|
        m.contains_key(k) && 0 <= t < m[k]@.len() ==> (#[trigger] m[k]@[t]) < n
}

/// First id of a member's resolved chain.
pub open spec fn chain_first(ways: Map<u64, Vec<u64>>, m: Member) -> u64
    recommends
        ways.contains_key(m.id),
        ways[m.id]@.len() > 0,
{
    ways[m.id]@[0]
}

/// Last id of a member's resolved chain.
pub open spec fn chain_last(ways: Map<u64, Vec<u64>>, m: Member) -> u64
    recommends
        ways.contains_key(m.id),
        ways[m.id]@.len() > 0,
{
    ways[m.id]@.last()
}

/// Index of the first member at or after `k` whose role leaves `Inner`;
/// the list's length when none does.
pub open spec fn first_non_inner_from(s: Seq<Member>, k: int) -> int
    decreases s.len() - k,
{
    if k < 0 || k >= s.len() {
        s.len() as int
    } else if s[k].role != MemberRole::Inner {
        k
    } else {
        first_non_inner_from(s, k + 1)
    }
}

/// Index of the first member whose role leaves `Inner`, or 0 when every
/// role is `Inner`.
pub open spec fn first_non_inner_start(s: Seq<Member>) -> int {
    if first_non_inner_from(s, 0) == s.len() {
        0
    } else {
        first_non_inner_from(s, 0)
    }
}

/// The chain of `m` starts or ends at an endpoint of the chain of `m0`.
pub open spec fn closes_outer(ways: Map<u64, Vec<u64>>, m0: Member, m: Member) -> bool {
    ||| chain_first(ways, m) == chain_first(ways, m0)
    ||| chain_first(ways, m) == chain_last(ways, m0)
    ||| chain_last(ways, m) == chain_first(ways, m0)
    ||| chain_last(ways, m) == chain_last(ways, m0)
}

/// First index at or after `k` that ends the outer run opened at `iend`:
/// the role is no longer `Outer`, or (after the first outer) the chain
/// closes the outer ring; the list's length when the run reaches the end.
pub open spec fn outer_end_from(s: Seq<Member>, ways: Map<u64, Vec<u64>>, iend: int, k: int) -> int
    decreases s.len() - k,
{
    if k < 0 || k >= s.len() {
        s.len() as int
    } else if s[k].role != MemberRole::Outer || (k > iend && closes_outer(ways, s[iend], s[k])) {
        k
    } else {
        outer_end_from(s, ways, iend, k + 1)
    }
}

/// The member list with the first outer run moved ahead of the leading
/// inner run — the single shallow correction applied when the list opens
/// with an inner member.
pub open spec fn reordered(s: Seq<Member>, ways: Map<u64, Vec<u64>>) -> Seq<Member> {
    if s.len() > 0 && s[0].role == MemberRole::Inner {
        let iend = first_non_inner_start(s);
        let oend = outer_end_from(s, ways, iend, iend);
        s.subrange(iend, oend) + s.subrange(0, iend) + s.subrange(oend, s.len() as int)
    } else {
        s
    }
}

/// Ascending indices below `bound` whose chain starts at `ep`.
pub open spec fn idx_with_first(
    ms: Seq<Member>,
    ways: Map<u64, Vec<u64>>,
    ep: u64,
    bound: int,
) -> Seq<int>
    decreases bound,
{
    if bound <= 0 {
        Seq::empty()
    } else {
        idx_with_first(ms, ways, ep, bound - 1) + (if chain_first(ways, ms[bound - 1]) == ep {
            seq![bound - 1]
        } else {
            Seq::empty()
        })
    }
}

/// Ascending indices below `bound` whose chain ends at `ep`.
pub open spec fn idx_with_last(
    ms: Seq<Member>,
    ways: Map<u64, Vec<u64>>,
    ep: u64,
    bound: int,
) -> Seq<int>
    decreases bound,
{
    if bound <= 0 {
        Seq::empty()
    } else {
        idx_with_last(ms, ways, ep, bound - 1) + (if chain_last(ways, ms[bound - 1]) == ep {
            seq![bound - 1]
        } else {
            Seq::empty()
        })
    }
}

/// The executable index list denotes the spec index list.
spec fn list_matches(v: Seq<usize>, s: Seq<int>) -> bool {
    &&& v.len() == s.len()
    &&& forall|t: int| 0 <= t < v.len() ==> v[t] as int == s[t]
}

/// The larger of four lengths.
pub open spec fn max4(a: int, b: int, c: int, d: int) -> int {
    let ab = if a >= b {
        a
    } else {
        b
    };
    let cd = if c >= d {
        c
    } else {
        d
    };
    if ab >= cd {
        ab
    } else {
        cd
    }
}

/// The first unvisited candidate, scanning ranks `k` and up, the four
/// tiers in strict priority order within a rank. The pair holds the tier —
/// 0: continue forward (`fil`), 1: reversed continuation (`lif`), 2: the
/// next chain runs backwards (`lil`), 3: shared leading endpoint (`fif`) —
/// and the candidate index.
pub open spec fn pick_candidate(
    fifs: Seq<int>,
    lifs: Seq<int>,
    fils: Seq<int>,
    lils: Seq<int>,
    vis: Seq<bool>,
    k: int,
    max_k: int,
) -> Option<(int, int)>
    decreases max_k - k,
{
    if k < 0 || k >= max_k {
        None
    } else if k < fils.len() && !vis[fils[k]] {
        Some((0int, fils[k]))
    } else if k < lifs.len() && !vis[lifs[k]] {
        Some((1int, lifs[k]))
    } else if k < lils.len() && !vis[lils[k]] {
        Some((2int, lils[k]))
    } else if k < fifs.len() && !vis[fifs[k]] {
        Some((3int, fifs[k]))
    } else {
        pick_candidate(fifs, lifs, fils, lils, vis, k + 1, max_k)
    }
}

/// Every index in the chain-first list lies below the bound and names a
/// member whose chain starts at `ep`.
proof fn lemma_idx_with_first_elems(ms: Seq<Member>, ways: Map<u64, Vec<u64>>, ep: u64, bound: int)
    ensures
        forall|t: int|
            0 <= t < idx_with_first(ms, ways, ep, bound).len() ==> {
                let c = #[trigger] idx_with_first(ms, ways, ep, bound)[t];
                0 <= c < bound && chain_first(ways, ms[c]) == ep
            },
    decreases bound,
{
    if bound > 0 {
        lemma_idx_with_first_elems(ms, ways, ep, bound - 1);
        let pre = idx_with_first(ms, ways, ep, bound - 1);
        let cur = idx_with_first(ms, ways, ep, bound);
        assert forall|t: int| #![trigger cur[t]] 0 <= t < cur.len() implies {
            let c = cur[t];
            0 <= c < bound && chain_first(ways, ms[c]) == ep
        } by {
            if t < pre.len() {
                assert(cur[t] == pre[t]);
            } else {
                assert(cur[t] == bound - 1);
            }
        }
    }
}

/// Every index in the chain-last list lies below the bound and names a
/// member whose chain ends at `ep`.
proof fn lemma_idx_with_last_elems(ms: Seq<Member>, ways: Map<u64, Vec<u64>>, ep: u64, bound: int)
    ensures
        forall|t: int|
            0 <= t < idx_with_last(ms, ways, ep, bound).len() ==> {
                let c = #[trigger] idx_with_last(ms, ways, ep, bound)[t];
                0 <= c < bound && chain_last(ways, ms[c]) == ep
            },
    decreases bound,
{
    if bound > 0 {
        lemma_idx_with_last_elems(ms, ways, ep, bound - 1);
        let pre = idx_with_last(ms, ways, ep, bound - 1);
        let cur = idx_with_last(ms, ways, ep, bound);
        assert forall|t: int| #![trigger cur[t]] 0 <= t < cur.len() implies {
            let c = cur[t];
            0 <= c < bound && chain_last(ways, ms[c]) == ep
        } by {
            if t < pre.len() {
                assert(cur[t] == pre[t]);
            } else {
                assert(cur[t] == bound - 1);
            }
        }
    }
}

/// Law: adjacency of the greedy walk. A candidate picked for a member with
/// chain endpoints `fep` (first) and `lep` (last) is unvisited and shares
/// the endpoint its tier names: tier 0 starts at `lep` (continue forward),
/// tier 1 ends at `fep` (reversed continuation), tier 2 ends at `lep` (the
/// next chain runs backwards), tier 3 starts at `fep` (shared leading
/// endpoint). Consecutive emitted members joined via a match therefore
/// share an endpoint; a caller detects a new ring exactly where this
/// continuity fails, as no explicit ring markers are inserted.
pub proof fn lemma_pick_candidate_adjacency(
    ms: Seq<Member>,
    ways: Map<u64, Vec<u64>>,
    fep: u64,
    lep: u64,
    vis: Seq<bool>,
    k: int,
    mk: int,
    tier: int,
    c: int,
)
    requires
        pick_candidate(
            idx_with_first(ms, ways, fep, ms.len() as int),
            idx_with_last(ms, ways, fep, ms.len() as int),
            idx_with_first(ms, ways, lep, ms.len() as int),
            idx_with_last(ms, ways, lep, ms.len() as int),
            vis,
            k,
            mk,
        ) == Some((tier, c)),
    ensures
        0 <= c < ms.len(),
        0 <= c < vis.len() ==> !vis[c],
        0 <= tier <= 3,
        tier == 0 ==> chain_first(ways, ms[c]) == lep,
        tier == 1 ==> chain_last(ways, ms[c]) == fep,
        tier == 2 ==> chain_last(ways, ms[c]) == lep,
        tier == 3 ==> chain_first(ways, ms[c]) == fep,
    decreases mk - k,
{
    let n = ms.len() as int;
    let fifs = idx_with_first(ms, ways, fep, n);
    let lifs = idx_with_last(ms, ways, fep, n);
    let fils = idx_with_first(ms, ways, lep, n);
    let lils = idx_with_last(ms, ways, lep, n);
    lemma_idx_with_first_elems(ms, ways, fep, n);
    lemma_idx_with_last_elems(ms, ways, fep, n);
    lemma_idx_with_first_elems(ms, ways, lep, n);
    lemma_idx_with_last_elems(ms, ways, lep, n);
    if !(k < 0 || k >= mk) {
        if k < fils.len() && !vis[fils[k]] {
        } else if k < lifs.len() && !vis[lifs[k]] {
        } else if k < lils.len() && !vis[lils[k]] {
        } else if k < fifs.len() && !vis[fifs[k]] {
        } else {
            lemma_pick_candidate_adjacency(ms, ways, fep, lep, vis, k + 1, mk, tier, c);
        }
    }
}

/// The greedy walk, one step per unit of fuel: a visited index defers to
/// the fallback pointer; an unvisited one is emitted with the traversal
/// flag its tier resolves, and the walk continues with the picked
/// candidate, or restarts at the fallback pointer when no candidate is
/// left. The walk ends when the fallback pointer has passed every index.
pub open spec fn walk(
    ms: Seq<Member>,
    ways: Map<u64, Vec<u64>>,
    fuel: nat,
    i: int,
    j: int,
    vis: Seq<bool>,
    rev: bool,
) -> Seq<Member>
    decreases fuel,
{
    let n = ms.len() as int;
    if fuel == 0 || i < 0 || i >= n || vis.len() != n {
        Seq::empty()
    } else if vis[i] {
        if j < n {
            walk(ms, ways, (fuel - 1) as nat, j, j + 1, vis, rev)
        } else {
            Seq::empty()
        }
    } else {
        let m = ms[i];
        let vis2 = vis.update(i, true);
        let fep = chain_first(ways, m);
        let lep = chain_last(ways, m);
        let fifs = idx_with_first(ms, ways, fep, n);
        let lifs = idx_with_last(ms, ways, fep, n);
        let fils = idx_with_first(ms, ways, lep, n);
        let lils = idx_with_last(ms, ways, lep, n);
        let mk = max4(fifs.len() as int, lifs.len() as int, fils.len() as int, lils.len() as int);
        match pick_candidate(fifs, lifs, fils, lils, vis2, 0, mk) {
            Some(pick) => {
                let erev = if pick.0 == 3 {
                    rev
                } else {
                    pick.0 == 1
                };
                let nrev = pick.0 == 1 || pick.0 == 2;
                seq![Member { reverse: erev, ..m }] + walk(
                    ms,
                    ways,
                    (fuel - 1) as nat,
                    pick.1,
                    j,
                    vis2,
                    nrev,
                )
            },
            None => {
                if j < n {
                    seq![Member { reverse: rev, ..m }] + walk(
                        ms,
                        ways,
                        (fuel - 1) as nat,
                        j,
                        j + 1,
                        vis2,
                        rev,
                    )
                } else {
                    seq![Member { reverse: rev, ..m }]
                }
            },
        }
    }
}

/// The full assembly: the pre-pass reorder, then the greedy walk from the
/// first member with nothing visited. Three units of fuel per member bound
/// the walk's steps: each step either visits a member or advances the
/// fallback pointer.
pub open spec fn sort_spec(mmembers: Seq<Member>, ways: Map<u64, Vec<u64>>) -> Seq<Member> {
    if mmembers.len() == 0 {
        Seq::empty()
    } else {
        let ms = reordered(mmembers, ways);
        walk(
            ms,
            ways,
            (3 * mmembers.len() + 1) as nat,
            0,
            0,
            Seq::new(mmembers.len(), |t: int| false),
            false,
        )
    }
}

/// Appends `src[from..to]` to `dst`.
fn push_range(dst: &mut Vec<Member>, src: &Vec<Member>, from: usize, to: usize)
    requires
        from <= to <= src@.len(),
    ensures
        final(dst)@ == old(dst)@ + src@.subrange(from as int, to as int),
{
    let mut k: usize = from;
    proof {
        assert(dst@ =~= dst@ + src@.subrange(from as int, from as int));
    }
    while k < to
        invariant
            from <= k <= to <= src@.len(),
            dst@ == old(dst)@ + src@.subrange(from as int, k as int),
        decreases to - k,
    {
        dst.push(src[k]);
        proof {
            assert(dst@ =~= old(dst)@ + src@.subrange(from as int, k + 1));
        }
        k = k + 1;
    }
}

/// A vector of `n` cleared marks.
fn false_vec(n: usize) -> (v: Vec<bool>)
    ensures
        v@.len() == n,
        forall|t: int| 0 <= t < n ==> !v@[t],
{
    let mut v: Vec<bool> = Vec::new();
    while v.len() < n
        invariant
            v@.len() <= n,
            forall|t: int| 0 <= t < v@.len() ==> !v@[t],
        decreases n - v@.len(),
    {
        v.push(false);
    }
    v
}

/// First index whose role leaves `Inner`, or 0 when every role is `Inner`.
fn first_non_inner(members: &Vec<Member>) -> (r: usize)
    ensures
        members@.len() > 0 ==> r < members@.len(),
        r as int == first_non_inner_start(members@),
{
    let mut k: usize = 0;
    while k < members.len()
        invariant
            k <= members@.len(),
            first_non_inner_from(members@, 0) == first_non_inner_from(members@, k as int),
        decreases members@.len() - k,
    {
        if members[k].role != MemberRole::Inner {
            proof {
                assert(first_non_inner_from(members@, k as int) == k);
            }
            return k;
        }
        proof {
            assert(first_non_inner_from(members@, k as int) == first_non_inner_from(
                members@,
                k + 1,
            ));
        }
        k = k + 1;
    }
    proof {
        assert(first_non_inner_from(members@, k as int) == members@.len());
    }
    0
}

/// First index at or after `iend` where the role is no longer `Outer`, or
/// where (after the first outer) the chain's endpoint meets an endpoint of
/// the chain at `iend`, closing the outer ring; the list's length when the
/// run reaches the end.
fn outer_run_end(members: &Vec<Member>, ways: &HashMap<u64, Vec<u64>>, iend: usize) -> (r: usize)
    requires
        chains_resolved(members@, ways@),
        iend < members@.len(),
    ensures
        iend <= r <= members@.len(),
        r as int == outer_end_from(members@, ways@, iend as int, iend as int),
{
    let m0 = members[iend];
    let refs0 = ways.get(&m0.id).unwrap();
    let ref0 = refs0[0];
    let ref1 = refs0[refs0.len() - 1];
    proof {
        assert(ref0 == chain_first(ways@, members@[iend as int]));
        assert(ref1 == chain_last(ways@, members@[iend as int]));
    }
    let mut k: usize = iend;
    while k < members.len()
        invariant
            iend <= k <= members@.len(),
            iend < members@.len(),
            chains_resolved(members@, ways@),
            ref0 == chain_first(ways@, members@[iend as int]),
            ref1 == chain_last(ways@, members@[iend as int]),
            outer_end_from(members@, ways@, iend as int, iend as int) == outer_end_from(
                members@,
                ways@,
                iend as int,
                k as int,
            ),
        decreases members@.len() - k,
    {
        let m = members[k];
        if m.role != MemberRole::Outer {
            proof {
                assert(outer_end_from(members@, ways@, iend as int, k as int) == k);
            }
            return k;
        }
        if k > iend {
            let refs = ways.get(&m.id).unwrap();
            let f = refs[0];
            let l = refs[refs.len() - 1];
            proof {
                assert(f == chain_first(ways@, members@[k as int]));
                assert(l == chain_last(ways@, members@[k as int]));
            }
            if f == ref0 || f == ref1 || l == ref0 || l == ref1 {
                proof {
                    assert(closes_outer(ways@, members@[iend as int], members@[k as int]));
                    assert(outer_end_from(members@, ways@, iend as int, k as int) == k);
                }
                return k;
            }
            proof {
                assert(!closes_outer(ways@, members@[iend as int], members@[k as int]));
            }
        }
        proof {
            assert(outer_end_from(members@, ways@, iend as int, k as int) == outer_end_from(
                members@,
                ways@,
                iend as int,
                k + 1,
            ));
        }
        k = k + 1;
    }
    proof {
        assert(outer_end_from(members@, ways@, iend as int, k as int) == members@.len());
    }
    members.len()
}

impl Member {
    /// Orders the members into ring-traversal order by a greedy,
    /// priority-tiered walk over endpoint-indexed candidate lists, setting
    /// each emitted member's traversal flag.
    ///
    /// Law: the result holds exactly the input members — every member is
    /// emitted exactly once, with only its `reverse` flag possibly
    /// changed.
    #[verifier::rlimit(100)]
    pub fn sort(mmembers: &Vec<Member>, ways: &HashMap<u64, Vec<u64>>) -> (r: Vec<Member>)
        requires
            chains_resolved(mmembers@, ways@),
        ensures
            r@ == sort_spec(mmembers@, ways@),
            r@.len() == mmembers@.len(),
            unoriented_multiset(r@) == unoriented_multiset(mmembers@),
            mmembers@.len() > 0 ==> r@.len() > 0 && unoriented(r@[0]) == unoriented(
                reordered(mmembers@, ways@)[0],
            ),
            mmembers@.len() > 0 && mmembers@[0].role != MemberRole::Inner ==> unoriented(r@[0])
                == unoriented(mmembers@[0]),
    {
        if mmembers.len() == 0 {
            let r: Vec<Member> = Vec::new();
            proof {
                assert(unoriented_seq(r@) =~= unoriented_seq(mmembers@));
                assert(r@ == sort_spec(mmembers@, ways@));
            }
            return r;
        }
        let n = mmembers.len();
        // When the list opens with inner members, move the first outer run
        // to the front, then the inner run, then the remainder.
        let mut ms: Vec<Member> = Vec::new();
        if mmembers[0].role == MemberRole::Inner {
            let iend = first_non_inner(mmembers);
            let oend = outer_run_end(mmembers, ways, iend);
            push_range(&mut ms, mmembers, iend, oend);
            push_range(&mut ms, mmembers, 0, iend);
            push_range(&mut ms, mmembers, oend, n);
            proof {
                let s = mmembers@;
                let a = s.subrange(0, iend as int);
                let b = s.subrange(iend as int, oend as int);
                let c = s.subrange(oend as int, n as int);
                assert(ms@ =~= b + a + c);
                assert(s =~= a + b + c);
                assert(ms@ == reordered(mmembers@, ways@));
                lemma_unoriented_multiset_concat(b + a, c);
                lemma_unoriented_multiset_concat(b, a);
                lemma_unoriented_multiset_concat(a + b, c);
                lemma_unoriented_multiset_concat(a, b);
                assert(unoriented_multiset(ms@) =~= unoriented_multiset(s));
                assert forall|t: int|
                    0 <= t < ms@.len() implies ways@.contains_key((#[trigger] ms@[t]).id)
                    && ways@[ms@[t].id]@.len() > 0 by {
                    if t < b.len() {
                        assert(ms@[t] == s[iend + t]);
                    } else if t < b.len() + a.len() {
                        assert(ms@[t] == s[t - b.len()]);
                    } else {
                        assert(ms@[t] == s[oend + (t - b.len() - a.len())]);
                    }
                }
            }
        } else {
            push_range(&mut ms, mmembers, 0, n);
            proof {
                assert(ms@ =~= mmembers@);
                assert(ms@ == reordered(mmembers@, ways@));
            }
        }
        proof {
            assert(ms@.len() == n);
        }
        // Endpoint-indexed candidate lists: chain-first id and chain-last
        // id of each member, each mapping to the member indices in order.
        let mut first_ids: HashMap<u64, Vec<usize>> = HashMap::new();
        let mut last_ids: HashMap<u64, Vec<usize>> = HashMap::new();
        let mut idx: usize = 0;
        while idx < n
            invariant
                idx <= n,
                n == ms@.len(),
                ms@ == reordered(mmembers@, ways@),
                chains_resolved(ms@, ways@),
                index_lists_bounded(first_ids@, n as int),
                index_lists_bounded(last_ids@, n as int),
                forall|ep: u64| #[trigger]
                    first_ids@.contains_key(ep) ==> list_matches(
                        first_ids@[ep]@,
                        idx_with_first(ms@, ways@, ep, idx as int),
                    ),
                forall|ep: u64|
                    !(#[trigger] first_ids@.contains_key(ep)) ==> idx_with_first(
                        ms@,
                        ways@,
                        ep,
                        idx as int,
                    ).len() == 0,
                forall|ep: u64| #[trigger]
                    last_ids@.contains_key(ep) ==> list_matches(
                        last_ids@[ep]@,
                        idx_with_last(ms@, ways@, ep, idx as int),
                    ),
                forall|ep: u64|
                    !(#[trigger] last_ids@.contains_key(ep)) ==> idx_with_last(
                        ms@,
                        ways@,
                        ep,
                        idx as int,
                    ).len() == 0,
            decreases n - idx,
        {
            let m = ms[idx];
            let refs = ways.get(&m.id).unwrap();
            let fi = refs[0];
            let li = refs[refs.len() - 1];
            proof {
                assert(fi == chain_first(ways@, ms@[idx as int]));
                assert(li == chain_last(ways@, ms@[idx as int]));
            }
            let ghost fmap0 = first_ids@;
            if first_ids.contains_key(&fi) {
                let mut v = first_ids.remove(&fi).unwrap();
                v.push(idx);
                first_ids.insert(fi, v);
            } else {
                let mut v: Vec<usize> = Vec::new();
                v.push(idx);
                first_ids.insert(fi, v);
            }
            proof {
                assert forall|ep: u64| #[trigger]
                    first_ids@.contains_key(ep) implies list_matches(
                    first_ids@[ep]@,
                    idx_with_first(ms@, ways@, ep, idx + 1),
                ) by {
                    if ep == fi {
                        assert(idx_with_first(ms@, ways@, ep, idx + 1) == idx_with_first(
                            ms@,
                            ways@,
                            ep,
                            idx as int,
                        ) + seq![idx as int]);
                    } else {
                        assert(first_ids@[ep] == fmap0[ep]);
                        assert(fmap0.contains_key(ep));
                        assert(idx_with_first(ms@, ways@, ep, idx + 1) =~= idx_with_first(
                            ms@,
                            ways@,
                            ep,
                            idx as int,
                        ));
                    }
                }
                assert forall|ep: u64| !(#[trigger] first_ids@.contains_key(ep)) implies
                    idx_with_first(ms@, ways@, ep, idx + 1).len() == 0 by {
                    assert(ep != fi);
                    assert(!fmap0.contains_key(ep));
                    assert(idx_with_first(ms@, ways@, ep, idx + 1) =~= idx_with_first(
                        ms@,
                        ways@,
                        ep,
                        idx as int,
                    ));
                }
            }
            let ghost lmap0 = last_ids@;
            if last_ids.contains_key(&li) {
                let mut v = last_ids.remove(&li).unwrap();
                v.push(idx);
                last_ids.insert(li, v);
            } else {
                let mut v: Vec<usize> = Vec::new();
                v.push(idx);
                last_ids.insert(li, v);
            }
            proof {
                assert forall|ep: u64| #[trigger]
                    last_ids@.contains_key(ep) implies list_matches(
                    last_ids@[ep]@,
                    idx_with_last(ms@, ways@, ep, idx + 1),
                ) by {
                    if ep == li {
                        assert(idx_with_last(ms@, ways@, ep, idx + 1) == idx_with_last(
                            ms@,
                            ways@,
                            ep,
                            idx as int,
                        ) + seq![idx as int]);
                    } else {
                        assert(last_ids@[ep] == lmap0[ep]);
                        assert(lmap0.contains_key(ep));
                        assert(idx_with_last(ms@, ways@, ep, idx + 1) =~= idx_with_last(
                            ms@,
                            ways@,
                            ep,
                            idx as int,
                        ));
                    }
                }
                assert forall|ep: u64| !(#[trigger] last_ids@.contains_key(ep)) implies
                    idx_with_last(ms@, ways@, ep, idx + 1).len() == 0 by {
                    assert(ep != li);
                    assert(!lmap0.contains_key(ep));
                    assert(idx_with_last(ms@, ways@, ep, idx + 1) =~= idx_with_last(
                        ms@,
                        ways@,
                        ep,
                        idx as int,
                    ));
                }
            }
            idx = idx + 1;
        }
        // Greedy traversal: emit the current member, then continue with the
        // first unvisited candidate, scanning ranks low to high and tiers
        // in priority order within a rank; when none continues, restart at
        // the fallback pointer.
        let mut visited = false_vec(n);
        let mut sorted: Vec<Member> = Vec::new();
        let mut i: usize = 0;
        let mut j: usize = 0;
        let mut reverse: bool = false;
        let ghost mut fuel: int = 3 * (n as int) + 1;
        proof {
            lemma_visited_multiset_none(ms@, visited@);
            lemma_count_true_bound(visited@);
            assert(count_true(visited@) == 0) by {
                lemma_count_true_none(visited@);
            }
            assert(visited@ =~= Seq::new(mmembers@.len(), |t: int| false));
            assert(sort_spec(mmembers@, ways@) == walk(
                ms@,
                ways@,
                fuel as nat,
                0,
                0,
                visited@,
                false,
            ));
            assert(sorted@ + walk(ms@, ways@, fuel as nat, 0, 0, visited@, false) =~= walk(
                ms@,
                ways@,
                fuel as nat,
                0,
                0,
                visited@,
                false,
            ));
        }
        while i < n
            invariant
                n == ms@.len(),
                n == mmembers@.len(),
                ms@ == reordered(mmembers@, ways@),
                visited@.len() == n,
                i < n,
                j <= n,
                chains_resolved(ms@, ways@),
                index_lists_bounded(first_ids@, n as int),
                index_lists_bounded(last_ids@, n as int),
                forall|ep: u64| #[trigger]
                    first_ids@.contains_key(ep) ==> list_matches(
                        first_ids@[ep]@,
                        idx_with_first(ms@, ways@, ep, n as int),
                    ),
                forall|ep: u64|
                    !(#[trigger] first_ids@.contains_key(ep)) ==> idx_with_first(
                        ms@,
                        ways@,
                        ep,
                        n as int,
                    ).len() == 0,
                forall|ep: u64| #[trigger]
                    last_ids@.contains_key(ep) ==> list_matches(
                        last_ids@[ep]@,
                        idx_with_last(ms@, ways@, ep, n as int),
                    ),
                forall|ep: u64|
                    !(#[trigger] last_ids@.contains_key(ep)) ==> idx_with_last(
                        ms@,
                        ways@,
                        ep,
                        n as int,
                    ).len() == 0,
                unoriented_multiset(ms@) == unoriented_multiset(mmembers@),
                forall|t: int| 0 <= t < j ==> t == i || visited@[t],
                0 <= count_true(visited@) <= n,
                sorted@.len() == count_true(visited@),
                count_true(visited@) == 0 ==> i == 0,
                sorted@.len() > 0 ==> unoriented(sorted@[0]) == unoriented(ms@[0]),
                unoriented_multiset(sorted@) == visited_multiset(ms@, visited@),
                fuel >= 1 + 2 * (n - count_true(visited@)) + (n - j),
                sorted@ + walk(ms@, ways@, fuel as nat, i as int, j as int, visited@, reverse)
                    == sort_spec(mmembers@, ways@),
            ensures
                visited@.len() == n,
                forall|t: int| 0 <= t < n ==> visited@[t],
                sorted@.len() > 0 ==> unoriented(sorted@[0]) == unoriented(ms@[0]),
                unoriented_multiset(sorted@) == visited_multiset(ms@, visited@),
                unoriented_multiset(ms@) == unoriented_multiset(mmembers@),
                n == ms@.len(),
                n == mmembers@.len(),
                ms@ == reordered(mmembers@, ways@),
                sorted@ == sort_spec(mmembers@, ways@),
            decreases n - count_true(visited@), n - j,
        {
            if visited[i] {
                proof {
                    lemma_count_true_pos(visited@, i as int);
                }
                if j < n {
                    proof {
                        assert(walk(ms@, ways@, fuel as nat, i as int, j as int, visited@, reverse)
                            == walk(
                            ms@,
                            ways@,
                            (fuel - 1) as nat,
                            j as int,
                            j + 1,
                            visited@,
                            reverse,
                        ));
                        fuel = fuel - 1;
                    }
                    i = j;
                    j = j + 1;
                } else {
                    proof {
                        assert(walk(ms@, ways@, fuel as nat, i as int, j as int, visited@, reverse)
                            =~= Seq::<Member>::empty());
                        assert(sorted@ + Seq::<Member>::empty() =~= sorted@);
                    }
                    break;
                }
            } else {
                let ghost pre_vis = visited@;
                visited[i] = true;
                proof {
                    lemma_count_true_update(pre_vis, i as int);
                    lemma_count_true_bound(visited@);
                    lemma_visited_multiset_update(ms@, pre_vis, i as int);
                }
                let m = ms[i];
                let refs = ways.get(&m.id).unwrap();
                let first_ep = refs[0];
                let last_ep = refs[refs.len() - 1];
                let empty_list: Vec<usize> = Vec::new();
                let fifs = match first_ids.get(&first_ep) {
                    Some(v) => v,
                    None => &empty_list,
                };
                let lifs = match last_ids.get(&first_ep) {
                    Some(v) => v,
                    None => &empty_list,
                };
                let fils = match first_ids.get(&last_ep) {
                    Some(v) => v,
                    None => &empty_list,
                };
                let lils = match last_ids.get(&last_ep) {
                    Some(v) => v,
                    None => &empty_list,
                };
                proof {
                    assert(first_ep == chain_first(ways@, ms@[i as int]));
                    assert(last_ep == chain_last(ways@, ms@[i as int]));
                    assert(list_matches(fifs@, idx_with_first(ms@, ways@, first_ep, n as int)));
                    assert(list_matches(lifs@, idx_with_last(ms@, ways@, first_ep, n as int)));
                    assert(list_matches(fils@, idx_with_first(ms@, ways@, last_ep, n as int)));
                    assert(list_matches(lils@, idx_with_last(ms@, ways@, last_ep, n as int)));
                }
                let mut max_k = fifs.len();
                if lifs.len() > max_k {
                    max_k = lifs.len();
                }
                if fils.len() > max_k {
                    max_k = fils.len();
                }
                if lils.len() > max_k {
                    max_k = lils.len();
                }
                let mut kk: usize = 0;
                let mut has_next = false;
                let mut next_i: usize = 0;
                let mut emit_rev: bool = reverse;
                let mut new_rev: bool = reverse;
                let ghost mut tier: int = 0;
                let ghost sfifs = idx_with_first(ms@, ways@, first_ep, n as int);
                let ghost slifs = idx_with_last(ms@, ways@, first_ep, n as int);
                let ghost sfils = idx_with_first(ms@, ways@, last_ep, n as int);
                let ghost slils = idx_with_last(ms@, ways@, last_ep, n as int);
                while kk < max_k && !has_next
                    invariant
                        visited@.len() == n,
                        has_next ==> next_i < n,
                        forall|t: int| 0 <= t < fifs@.len() ==> fifs@[t] < n,
                        forall|t: int| 0 <= t < lifs@.len() ==> lifs@[t] < n,
                        forall|t: int| 0 <= t < fils@.len() ==> fils@[t] < n,
                        forall|t: int| 0 <= t < lils@.len() ==> lils@[t] < n,
                        sfifs == idx_with_first(ms@, ways@, first_ep, n as int),
                        slifs == idx_with_last(ms@, ways@, first_ep, n as int),
                        sfils == idx_with_first(ms@, ways@, last_ep, n as int),
                        slils == idx_with_last(ms@, ways@, last_ep, n as int),
                        list_matches(fifs@, sfifs),
                        list_matches(lifs@, slifs),
                        list_matches(fils@, sfils),
                        list_matches(lils@, slils),
                        max_k as int == max4(
                            sfifs.len() as int,
                            slifs.len() as int,
                            sfils.len() as int,
                            slils.len() as int,
                        ),
                        !has_next ==> pick_candidate(
                            sfifs,
                            slifs,
                            sfils,
                            slils,
                            visited@,
                            0,
                            max_k as int,
                        ) == pick_candidate(
                            sfifs,
                            slifs,
                            sfils,
                            slils,
                            visited@,
                            kk as int,
                            max_k as int,
                        ),
                        has_next ==> {
                            &&& 0 <= tier <= 3
                            &&& pick_candidate(
                                sfifs,
                                slifs,
                                sfils,
                                slils,
                                visited@,
                                0,
                                max_k as int,
                            ) == Some((tier, next_i as int))
                            &&& emit_rev == (if tier == 3 {
                                reverse
                            } else {
                                tier == 1
                            })
                            &&& new_rev == (tier == 1 || tier == 2)
                        },
                    decreases max_k - kk,
                {
                    if kk < fils.len() && !visited[fils[kk]] {
                        // continue forward
                        next_i = fils[kk];
                        emit_rev = false;
                        new_rev = false;
                        has_next = true;
                        proof {
                            tier = 0;
                            assert(pick_candidate(sfifs, slifs, sfils, slils, visited@, kk as int,
                                max_k as int) == Some((0int, next_i as int)));
                        }
                    } else if kk < lifs.len() && !visited[lifs[kk]] {
                        // reversed continuation on both sides
                        next_i = lifs[kk];
                        emit_rev = true;
                        new_rev = true;
                        has_next = true;
                        proof {
                            tier = 1;
                            assert(pick_candidate(sfifs, slifs, sfils, slils, visited@, kk as int,
                                max_k as int) == Some((1int, next_i as int)));
                        }
                    } else if kk < lils.len() && !visited[lils[kk]] {
                        // the next chain runs backwards
                        next_i = lils[kk];
                        emit_rev = false;
                        new_rev = true;
                        has_next = true;
                        proof {
                            tier = 2;
                            assert(pick_candidate(sfifs, slifs, sfils, slils, visited@, kk as int,
                                max_k as int) == Some((2int, next_i as int)));
                        }
                    } else if kk < fifs.len() && !visited[fifs[kk]] {
                        // shared leading endpoint: the emitted flag stays
                        next_i = fifs[kk];
                        emit_rev = reverse;
                        new_rev = false;
                        has_next = true;
                        proof {
                            tier = 3;
                            assert(pick_candidate(sfifs, slifs, sfils, slils, visited@, kk as int,
                                max_k as int) == Some((3int, next_i as int)));
                        }
                    } else {
                        proof {
                            assert(pick_candidate(sfifs, slifs, sfils, slils, visited@, kk as int,
                                max_k as int) == pick_candidate(sfifs, slifs, sfils, slils,
                                visited@, kk + 1, max_k as int));
                        }
                    }
                    kk = kk + 1;
                }
                proof {
                    if !has_next {
                        assert(pick_candidate(sfifs, slifs, sfils, slils, visited@, kk as int,
                            max_k as int) is None);
                    }
                }
                let ghost pre_sorted = sorted@;
                let mut emitted = m;
                emitted.reverse = if has_next {
                    emit_rev
                } else {
                    reverse
                };
                sorted.push(emitted);
                proof {
                    assert(unoriented(emitted) == unoriented(ms@[i as int]));
                    assert(unoriented_seq(sorted@) =~= unoriented_seq(pre_sorted).push(
                        unoriented(ms@[i as int]),
                    ));
                    assert(unoriented_multiset(sorted@) =~= visited_multiset(ms@, visited@));
                    if pre_sorted.len() == 0 {
                        assert(i == 0);
                        assert(unoriented(sorted@[0]) == unoriented(ms@[0]));
                    } else {
                        assert(sorted@[0] == pre_sorted[0]);
                    }
                    // one unfolding of the walk matches this iteration
                    assert(visited@ == pre_vis.update(i as int, true)) by {
                        assert(visited@ =~= pre_vis.update(i as int, true));
                    }
                    assert(sorted@ =~= pre_sorted + seq![emitted]);
                    if has_next {
                        assert(emitted == (Member {
                            reverse: (if tier == 3 {
                                reverse
                            } else {
                                tier == 1
                            }),
                            ..ms@[i as int]
                        }));
                        assert(walk(ms@, ways@, fuel as nat, i as int, j as int, pre_vis, reverse)
                            == seq![emitted] + walk(
                            ms@,
                            ways@,
                            (fuel - 1) as nat,
                            next_i as int,
                            j as int,
                            visited@,
                            new_rev,
                        ));
                        assert(sorted@ + walk(
                            ms@,
                            ways@,
                            (fuel - 1) as nat,
                            next_i as int,
                            j as int,
                            visited@,
                            new_rev,
                        ) =~= pre_sorted + walk(
                            ms@,
                            ways@,
                            fuel as nat,
                            i as int,
                            j as int,
                            pre_vis,
                            reverse,
                        ));
                        fuel = fuel - 1;
                    } else if j < n {
                        assert(emitted == (Member { reverse: reverse, ..ms@[i as int] }));
                        assert(walk(ms@, ways@, fuel as nat, i as int, j as int, pre_vis, reverse)
                            == seq![emitted] + walk(
                            ms@,
                            ways@,
                            (fuel - 1) as nat,
                            j as int,
                            j + 1,
                            visited@,
                            reverse,
                        ));
                        assert(sorted@ + walk(
                            ms@,
                            ways@,
                            (fuel - 1) as nat,
                            j as int,
                            j + 1,
                            visited@,
                            reverse,
                        ) =~= pre_sorted + walk(
                            ms@,
                            ways@,
                            fuel as nat,
                            i as int,
                            j as int,
                            pre_vis,
                            reverse,
                        ));
                        fuel = fuel - 1;
                    } else {
                        assert(emitted == (Member { reverse: reverse, ..ms@[i as int] }));
                        assert(walk(ms@, ways@, fuel as nat, i as int, j as int, pre_vis, reverse)
                            == seq![emitted]);
                        assert(sorted@ =~= pre_sorted + walk(
                            ms@,
                            ways@,
                            fuel as nat,
                            i as int,
                            j as int,
                            pre_vis,
                            reverse,
                        ));
                        assert(sorted@ == sort_spec(mmembers@, ways@));
                    }
                }
                if has_next {
                    i = next_i;
                    reverse = new_rev;
                } else {
                    if j < n {
                        i = j;
                        j = j + 1;
                    } else {
                        break;
                    }
                }
            }
        }
        proof {
            lemma_visited_multiset_all(ms@, visited@);
            assert(sorted@ == sort_spec(mmembers@, ways@));
            assert(unoriented_multiset(sorted@) == unoriented_multiset(mmembers@));
            unoriented_seq(sorted@).to_multiset_ensures();
            unoriented_seq(mmembers@).to_multiset_ensures();
            assert(unoriented_seq(sorted@).len() == unoriented_seq(mmembers@).len());
            assert(sorted@.len() == mmembers@.len());
            assert(unoriented(sorted@[0]) == unoriented(reordered(mmembers@, ways@)[0]));
            if mmembers@[0].role != MemberRole::Inner {
                assert(ms@[0] == mmembers@[0]);
                assert(unoriented(sorted@[0]) == unoriented(mmembers@[0]));
            }
        }
        sorted
    }
}

proof fn lemma_count_true_pos(s: Seq<bool>, t: int)
    requires
        0 <= t < s.len(),
        s[t],
    ensures
        count_true(s) >= 1,
    decreases s.len(),
{
    lemma_count_true_bound(s.drop_last());
    if t < s.len() - 1 {
        lemma_count_true_pos(s.drop_last(), t);
    }
}

proof fn lemma_count_true_none(s: Seq<bool>)
    requires
        forall|t: int| 0 <= t < s.len() ==> !s[t],
    ensures
        count_true(s) == 0,
    decreases s.len(),
{
    if s.len() > 0 {
        lemma_count_true_none(s.drop_last());
    }
}

} // verus!
