use vstd::prelude::*;
use vstd::seq_lib::*;
use vstd::multiset::Multiset;

verus! {

broadcast use vstd::seq_lib::group_to_multiset_ensures;

/// A name (a file's path, or an extension) with an access time, in
/// nanoseconds since the Unix epoch.
pub struct Entry {
    pub path: String,
    pub last_accessed_time: u64,
}

/// An entry as its name and time.
pub open spec fn entry_pair(e: Entry) -> (Seq<char>, u64) {
    (e.path@, e.last_accessed_time)
}

/// True when time `a` ranks no higher than time `b`: under the most recent
/// order a newer time ranks higher, under the oldest order an older one.
pub open spec fn ranks_below(recent: bool, a: u64, b: u64) -> bool {
    if recent {
        a <= b
    } else {
        a >= b
    }
}

/// True when `j` is the index of a lowest ranked entry of `s`.
pub open spec fn is_worst(recent: bool, s: Seq<Entry>, j: int) -> bool {
    &&& 0 <= j < s.len()
    &&& forall|k: int|
        0 <= k < s.len() ==> ranks_below(
            recent,
            s[j].last_accessed_time,
            #[trigger] s[k].last_accessed_time,
        )
}

/// True when `j` is the index of a highest ranked entry of `s`.
pub open spec fn is_best(recent: bool, s: Seq<Entry>, j: int) -> bool {
    &&& 0 <= j < s.len()
    &&& forall|k: int|
        0 <= k < s.len() ==> ranks_below(
            recent,
            #[trigger] s[k].last_accessed_time,
            s[j].last_accessed_time,
        )
}

/// True when `s` runs from the highest ranked entry down.
pub open spec fn is_ranked(recent: bool, s: Seq<Entry>) -> bool {
    forall|i: int, j: int|
        0 <= i < j < s.len() ==> ranks_below(
            recent,
            #[trigger] s[j].last_accessed_time,
            #[trigger] s[i].last_accessed_time,
        )
}

/// Each entry as its name and time.
pub open spec fn pairs_of(s: Seq<Entry>) -> Seq<(Seq<char>, u64)> {
    s.map_values(|e: Entry| entry_pair(e))
}

/// The index of the leftmost highest ranked item of `s`.
pub open spec fn first_best(recent: bool, s: Seq<(Seq<char>, u64)>) -> int
    decreases s.len(),
{
    if s.len() <= 1 {
        0
    } else {
        let j = first_best(recent, s.drop_last());
        if !ranks_below(recent, s.last().1, s[j].1) {
            s.len() - 1
        } else {
            j
        }
    }
}

/// The index of the leftmost lowest ranked item of `s`.
pub open spec fn first_worst(recent: bool, s: Seq<(Seq<char>, u64)>) -> int
    decreases s.len(),
{
    if s.len() <= 1 {
        0
    } else {
        let j = first_worst(recent, s.drop_last());
        if !ranks_below(recent, s[j].1, s.last().1) {
            s.len() - 1
        } else {
            j
        }
    }
}

/// The items of `s` from the highest ranked down; of items that rank
/// alike, the one that comes first in `s` comes first.
pub open spec fn rank_pairs(recent: bool, s: Seq<(Seq<char>, u64)>) -> Seq<(Seq<char>, u64)>
    decreases s.len(),
{
    let j = first_best(recent, s);
    if 0 <= j < s.len() {
        seq![s[j]].add(rank_pairs(recent, s.remove(j)))
    } else {
        s
    }
}

/// What a bounded set of `limit` items holds after `p` is offered: `p`
/// joins, and on overflow the leftmost lowest ranked item leaves.
pub open spec fn pushed_pairs(
    recent: bool,
    limit: usize,
    before: Seq<(Seq<char>, u64)>,
    p: (Seq<char>, u64),
) -> Seq<(Seq<char>, u64)> {
    let grown = before.push(p);
    if before.len() < limit {
        grown
    } else {
        grown.remove(first_worst(recent, grown))
    }
}

/// Finds a highest ranked entry of a non-empty sequence.
fn best_index(v: &Vec<Entry>, recent: bool) -> (j: usize)
    requires
        v@.len() > 0,
    ensures
        is_best(recent, v@, j as int),
        j == first_best(recent, pairs_of(v@)),
{
    let mut j: usize = 0;
    let mut i: usize = 1;
    assert(pairs_of(v@).take(1).len() == 1);
    while i < v.len()
        invariant
            0 <= j < i <= v@.len(),
            j == first_best(recent, pairs_of(v@).take(i as int)),
            forall|k: int|
                0 <= k < i ==> ranks_below(
                    recent,
                    #[trigger] v@[k].last_accessed_time,
                    v@[j as int].last_accessed_time,
                ),
        decreases v@.len() - i,
    {
        let t = v[i].last_accessed_time;
        let b = v[j].last_accessed_time;
        proof {
            let q = pairs_of(v@).take(i + 1);
            assert(q.drop_last() =~= pairs_of(v@).take(i as int));
            assert(q.last().1 == t && q[j as int].1 == b);
        }
        if (recent && t > b) || (!recent && t < b) {
            j = i;
        }
        i = i + 1;
    }
    assert(pairs_of(v@).take(i as int) =~= pairs_of(v@));
    j
}

/// Finds a lowest ranked entry of a non-empty sequence.
fn worst_index(v: &Vec<Entry>, recent: bool) -> (j: usize)
    requires
        v@.len() > 0,
    ensures
        is_worst(recent, v@, j as int),
        j == first_worst(recent, pairs_of(v@)),
{
    let mut j: usize = 0;
    let mut i: usize = 1;
    assert(pairs_of(v@).take(1).len() == 1);
    while i < v.len()
        invariant
            0 <= j < i <= v@.len(),
            j == first_worst(recent, pairs_of(v@).take(i as int)),
            forall|k: int|
                0 <= k < i ==> ranks_below(
                    recent,
                    v@[j as int].last_accessed_time,
                    #[trigger] v@[k].last_accessed_time,
                ),
        decreases v@.len() - i,
    {
        let t = v[i].last_accessed_time;
        let b = v[j].last_accessed_time;
        proof {
            let q = pairs_of(v@).take(i + 1);
            assert(q.drop_last() =~= pairs_of(v@).take(i as int));
            assert(q.last().1 == t && q[j as int].1 == b);
        }
        if (recent && t < b) || (!recent && t > b) {
            j = i;
        }
        i = i + 1;
    }
    assert(pairs_of(v@).take(i as int) =~= pairs_of(v@));
    j
}

/// Orders entries from the highest ranked down; of entries with equal
/// times, the one that comes first in `entries` comes first.
pub fn rank(entries: Vec<Entry>, recent: bool) -> (r: Vec<Entry>)
    ensures
        r@.to_multiset() == entries@.to_multiset(),
        is_ranked(recent, r@),
        pairs_of(r@) == rank_pairs(recent, pairs_of(entries@)),
{
    let mut rest = entries;
    let mut out: Vec<Entry> = Vec::new();
    assert(pairs_of(out@) + rank_pairs(recent, pairs_of(rest@)) =~= rank_pairs(recent, pairs_of(entries@)));
    while rest.len() > 0
        invariant
            pairs_of(out@) + rank_pairs(recent, pairs_of(rest@)) == rank_pairs(recent, pairs_of(entries@)),
            out@.to_multiset().add(rest@.to_multiset()) == entries@.to_multiset(),
            is_ranked(recent, out@),
            forall|a: int, b: int|
                0 <= a < out@.len() && 0 <= b < rest@.len() ==> ranks_below(
                    recent,
                    #[trigger] rest@[b].last_accessed_time,
                    #[trigger] out@[a].last_accessed_time,
                ),
        decreases rest@.len(),
    {
        let j = best_index(&rest, recent);
        let ghost old_rest = rest@;
        let ghost old_out = out@;
        let e = rest.remove(j);
        proof {
            let pr = pairs_of(old_rest);
            assert(pairs_of(rest@) =~= pr.remove(j as int));
            assert(pr[j as int] == entry_pair(e));
            assert(rank_pairs(recent, pr) == seq![pr[j as int]].add(rank_pairs(recent, pr.remove(j as int))));
            assert(pairs_of(old_out.push(e)) =~= pairs_of(old_out).push(entry_pair(e)));
            assert(pairs_of(old_out.push(e)) + rank_pairs(recent, pairs_of(rest@)) =~= pairs_of(old_out) + rank_pairs(recent, pr));
            to_multiset_remove(old_rest, j as int);
            to_multiset_contains(old_rest, e);
            assert(out@.to_multiset().insert(e).add(rest@.to_multiset()) =~= old_out.to_multiset().add(
                old_rest.to_multiset(),
            ));
            assert forall|b: int| 0 <= b < rest@.len() implies ranks_below(
                recent,
                #[trigger] rest@[b].last_accessed_time,
                e.last_accessed_time,
            ) by {
                if b < j {
                    assert(rest@[b] == old_rest[b]);
                } else {
                    assert(rest@[b] == old_rest[b + 1]);
                }
            }
        }
        out.push(e);
        proof {
            assert(out@ == old_out.push(e));
            assert forall|a: int, b: int|
                0 <= a < out@.len() && 0 <= b < rest@.len() implies ranks_below(
                recent,
                #[trigger] rest@[b].last_accessed_time,
                #[trigger] out@[a].last_accessed_time,
            ) by {
                if b < j {
                    assert(rest@[b] == old_rest[b]);
                } else {
                    assert(rest@[b] == old_rest[b + 1]);
                }
                if a < old_out.len() {
                    assert(out@[a] == old_out[a]);
                }
            }
            assert forall|a: int, b: int| 0 <= a < b < out@.len() implies ranks_below(
                recent,
                #[trigger] out@[b].last_accessed_time,
                #[trigger] out@[a].last_accessed_time,
            ) by {
                if b < old_out.len() {
                    assert(out@[a] == old_out[a]);
                    assert(out@[b] == old_out[b]);
                } else {
                    assert(out@[a] == old_out[a]);
                    assert(old_rest[j as int] == e);
                }
            }
        }
    }
    proof {
        assert(pairs_of(rest@) =~= Seq::<(Seq<char>, u64)>::empty());
        assert(pairs_of(out@) + rank_pairs(recent, pairs_of(rest@)) =~= pairs_of(out@));
        assert(rest@.to_multiset() =~= Multiset::empty());
        assert(out@.to_multiset().add(Multiset::empty()) =~= out@.to_multiset());
    }
    out
}

/// What a bounded set holds after `e` is offered to it: `e` joins; if that
/// makes more than `limit` entries, one lowest ranked entry leaves.
pub open spec fn kept_after_push(
    recent: bool,
    limit: usize,
    before: Seq<Entry>,
    e: Entry,
    after: Seq<Entry>,
) -> bool {
    if before.len() < limit {
        after == before.push(e)
    } else {
        exists|j: int| #[trigger]
            is_worst(recent, before.push(e), j) && after == before.push(e).remove(j)
    }
}

/// The `limit` highest ranked entries among those offered so far.
pub struct TopN {
    items: Vec<Entry>,
    limit: usize,
    recent: bool,
}

impl TopN {
    pub closed spec fn entries(&self) -> Seq<Entry> {
        self.items@
    }

    pub closed spec fn limit(&self) -> usize {
        self.limit
    }

    pub closed spec fn recent(&self) -> bool {
        self.recent
    }

    pub closed spec fn wf(&self) -> bool {
        self.items@.len() <= self.limit
    }

    /// An empty set that keeps at most `limit` entries, ranked by the most
    /// recent access when `recent` holds and by the oldest otherwise.
    pub fn new(limit: usize, recent: bool) -> (r: TopN)
        ensures
            r.wf(),
            r.entries() == Seq::<Entry>::empty(),
            r.limit() == limit,
            r.recent() == recent,
    {
        TopN { items: Vec::new(), limit, recent }
    }

    /// True when the set ranks by the most recent access.
    pub fn is_recent(&self) -> (r: bool)
        ensures
            r == self.recent(),
    {
        self.recent
    }

    pub fn len(&self) -> (r: usize)
        ensures
            r == self.entries().len(),
    {
        self.items.len()
    }

    /// Offers an entry; a lowest ranked one leaves when the set overflows.
    pub fn push(&mut self, e: Entry)
        requires
            old(self).wf(),
        ensures
            final(self).wf(),
            final(self).entries().len() <= final(self).limit(),
            final(self).limit() == old(self).limit(),
            final(self).recent() == old(self).recent(),
            kept_after_push(
                old(self).recent(),
                old(self).limit(),
                old(self).entries(),
                e,
                final(self).entries(),
            ),
            pairs_of(final(self).entries()) == pushed_pairs(
                old(self).recent(),
                old(self).limit(),
                pairs_of(old(self).entries()),
                entry_pair(e),
            ),
    {
        let ghost before = pairs_of(self.items@);
        if self.items.len() < self.limit {
            self.items.push(e);
            assert(pairs_of(self.items@) =~= before.push(entry_pair(e)));
        } else {
            let ghost grown = self.items@.push(e);
            self.items.push(e);
            assert(pairs_of(grown) =~= before.push(entry_pair(e)));
            let j = worst_index(&self.items, self.recent);
            let _ = self.items.remove(j);
            assert(is_worst(self.recent, grown, j as int));
            assert(pairs_of(self.items@) =~= pairs_of(grown).remove(j as int));
        }
    }

    /// Drains the set, from the highest ranked entry down.
    pub fn into_ranked(self) -> (r: Vec<Entry>)
        ensures
            pairs_of(r@) == rank_pairs(self.recent(), pairs_of(self.entries())),
            r@.to_multiset() == self.entries().to_multiset(),
            is_ranked(self.recent(), r@),
            self.wf() ==> r@.len() <= self.limit(),
    {
        let r = rank(self.items, self.recent);
        proof {
            r@.to_multiset_ensures();
        }
        r
    }
}

/// The set never holds more entries than its limit.
pub proof fn lemma_top_n_bounded(t: TopN)
    requires
        t.wf(),
    ensures
        t.entries().len() <= t.limit(),
{
}

/// True when no two entries of `s` share a name.
pub open spec fn distinct_names(s: Seq<Entry>) -> bool {
    forall|i: int, j: int| 0 <= i < j < s.len() ==> (#[trigger] s[i]).path@ != (#[trigger] s[j]).path@
}

/// Reordering entries keeps their names distinct.
pub proof fn lemma_reorder_keeps_names_distinct(s: Seq<Entry>, t: Seq<Entry>)
    requires
        t.to_multiset() == s.to_multiset(),
        distinct_names(s),
    ensures
        distinct_names(t),
{
    assert(s.no_duplicates()) by {
        assert forall|i: int, j: int| 0 <= i < s.len() && 0 <= j < s.len() && i != j implies s[i] != s[j] by {
            if i < j {
                assert(s[i].path@ != s[j].path@);
            } else {
                assert(s[j].path@ != s[i].path@);
            }
        }
    }
    s.lemma_multiset_has_no_duplicates();
    t.lemma_multiset_has_no_duplicates_conv();
    assert forall|i: int, j: int| 0 <= i < j < t.len() implies (#[trigger] t[i]).path@ != (#[trigger] t[j]).path@ by {
        assert(t.to_multiset().count(t[i]) > 0);
        assert(t.to_multiset().count(t[j]) > 0);
        assert(s.contains(t[i]));
        assert(s.contains(t[j]));
        let a = choose|a: int| 0 <= a < s.len() && s[a] == t[i];
        let b = choose|b: int| 0 <= b < s.len() && s[b] == t[j];
        assert(t[i] != t[j]);
        if a < b {
            assert(s[a].path@ != s[b].path@);
        } else {
            assert(s[b].path@ != s[a].path@);
        }
    }
}

} // verus!
