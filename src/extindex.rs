use vstd::prelude::*;

verus! {

/// The index after an access at time `t` to a file with extension `ext`:
/// the extension keeps the later of its time and `t`.
pub open spec fn note_access(m: Map<Seq<char>, u64>, ext: Seq<char>, t: u64) -> Map<
    Seq<char>,
    u64,
> {
    if m.contains_key(ext) && m[ext] >= t {
        m
    } else {
        m.insert(ext, t)
    }
}

/// The index built from a sequence of accesses, each an extension and a time.
pub open spec fn index_of(accesses: Seq<(Seq<char>, u64)>) -> Map<Seq<char>, u64>
    decreases accesses.len(),
{
    if accesses.len() == 0 {
        Map::empty()
    } else {
        let last = accesses.last();
        note_access(index_of(accesses.drop_last()), last.0, last.1)
    }
}

/// For each extension, the most recent access time seen among files with
/// that extension.
pub struct ExtIndex {
    exts: Vec<String>,
    times: Vec<u64>,
    model: Ghost<Map<Seq<char>, u64>>,
}

impl View for ExtIndex {
    type V = Map<Seq<char>, u64>;

    closed spec fn view(&self) -> Map<Seq<char>, u64> {
        self.model@
    }
}

/// The extensions in the order they were first seen, after `ext` is seen.
pub open spec fn note_name(names: Seq<Seq<char>>, ext: Seq<char>) -> Seq<Seq<char>> {
    if names.contains(ext) {
        names
    } else {
        names.push(ext)
    }
}

impl ExtIndex {
    /// The extensions in the order they were first seen.
    pub closed spec fn names(&self) -> Seq<Seq<char>> {
        self.exts@.map_values(|s: String| s@)
    }

    pub closed spec fn wf(&self) -> bool {
        &&& self.exts@.len() == self.times@.len()
        &&& forall|i: int, j: int|
            0 <= i < j < self.exts@.len() ==> (#[trigger] self.exts@[i])@ != (
            #[trigger] self.exts@[j])@
        &&& forall|i: int|
            0 <= i < self.exts@.len() ==> self.model@.contains_key((#[trigger] self.exts@[i])@)
                && self.model@[self.exts@[i]@] == self.times@[i]
        &&& forall|k: Seq<char>|
            #[trigger] self.model@.contains_key(k) ==> exists|i: int|
                0 <= i < self.exts@.len() && (#[trigger] self.exts@[i])@ == k
    }

    pub fn new() -> (r: ExtIndex)
        ensures
            r.wf(),
            r.names() == Seq::<Seq<char>>::empty(),
            r@ == Map::<Seq<char>, u64>::empty(),
    {
        ExtIndex { exts: Vec::new(), times: Vec::new(), model: Ghost(Map::empty()) }
    }

    pub fn len(&self) -> (r: usize)
        requires
            self.wf(),
        ensures
            r == self@.len(),
    {
        proof {
            self.lemma_dom_len();
        }
        self.exts.len()
    }

    pub proof fn lemma_len(&self)
        requires
            self.wf(),
        ensures
            self@.dom().finite(),
    {
        self.lemma_dom_len();
    }

    proof fn lemma_dom_len(&self)
        requires
            self.wf(),
        ensures
            self@.len() == self.exts@.len(),
            self@.dom().finite(),
    {
        let keys = self.exts@.map_values(|s: String| s@);
        assert(keys.no_duplicates()) by {
            assert forall|i: int, j: int|
                0 <= i < keys.len() && 0 <= j < keys.len() && i != j implies keys[i] != keys[j] by {
                if i < j {
                    assert(self.exts@[i]@ != self.exts@[j]@);
                } else {
                    assert(self.exts@[j]@ != self.exts@[i]@);
                }
            }
        }
        assert(self@.dom() =~= keys.to_set()) by {
            assert forall|k: Seq<char>| self@.dom().contains(k) implies keys.to_set().contains(k) by {
                let i = choose|i: int| 0 <= i < self.exts@.len() && (#[trigger] self.exts@[i])@ == k;
                assert(keys[i] == k);
            }
            assert forall|k: Seq<char>| keys.to_set().contains(k) implies self@.dom().contains(k) by {
                let i = choose|i: int| 0 <= i < keys.len() && keys[i] == k;
                assert(self.model@.contains_key(self.exts@[i]@));
            }
        }
        keys.unique_seq_to_set();
    }

    /// Records an access at time `t` to a file with extension `ext`.
    pub fn note(&mut self, ext: &str, t: u64)
        requires
            old(self).wf(),
        ensures
            final(self).wf(),
            final(self)@ == note_access(old(self)@, ext@, t),
            final(self).names() == note_name(old(self).names(), ext@),
    {
        let key = String::from_str(ext);
        let mut i: usize = 0;
        while i < self.exts.len()
            invariant
                self.wf(),
                self == old(self),
                key@ == ext@,
                0 <= i <= self.exts@.len(),
                forall|k: int| 0 <= k < i ==> (#[trigger] self.exts@[k])@ != ext@,
            decreases self.exts@.len() - i,
        {
            if self.exts[i] == key {
                assert(self.names()[i as int] == ext@);
                if self.times[i] < t {
                    self.times.set(i, t);
                    self.model = Ghost(self.model@.insert(ext@, t));
                    assert(self.model@ =~= note_access(old(self)@, ext@, t));
                }
                return;
            }
            i = i + 1;
        }
        proof {
            assert(!old(self).names().contains(ext@)) by {
                if old(self).names().contains(ext@) {
                    let k = choose|k: int| 0 <= k < old(self).names().len() && old(self).names()[k] == ext@;
                    assert(old(self).exts@[k]@ == ext@);
                }
            }
        }
        self.exts.push(key);
        self.times.push(t);
        assert(self.names() =~= old(self).names().push(ext@));
        self.model = Ghost(self.model@.insert(ext@, t));
        proof {
            let n = self.exts@.len() - 1;
            assert(self.exts@[n]@ == ext@);
            assert forall|k: Seq<char>| #[trigger] self.model@.contains_key(k) implies exists|j: int|
                0 <= j < self.exts@.len() && (#[trigger] self.exts@[j])@ == k by {
                if k == ext@ {
                    assert(self.exts@[n]@ == k);
                } else {
                    assert(old(self).model@.contains_key(k));
                    let j = choose|j: int|
                        0 <= j < old(self).exts@.len() && (#[trigger] old(self).exts@[j])@ == k;
                    assert(self.exts@[j] == old(self).exts@[j]);
                }
            }
        }
    }

    /// The extensions and their times, in no particular order.
    pub fn into_entries(self) -> (r: Vec<crate::select::Entry>)
        requires
            self.wf(),
        ensures
            r@.len() == self@.len(),
            crate::select::distinct_names(r@),
            crate::select::pairs_of(r@) == self.names().map_values(|k: Seq<char>| (k, self@[k])),
            forall|i: int|
                0 <= i < r@.len() ==> #[trigger] self@.contains_key(r@[i].path@) && self@[r@[i].path@]
                    == r@[i].last_accessed_time,
            forall|k: Seq<char>| #[trigger]
                self@.contains_key(k) ==> exists|i: int|
                    0 <= i < r@.len() && (#[trigger] r@[i].path)@ == k,
    {
        proof {
            self.lemma_dom_len();
        }
        let mut out: Vec<crate::select::Entry> = Vec::new();
        let mut i: usize = 0;
        while i < self.exts.len()
            invariant
                self.wf(),
                0 <= i <= self.exts@.len(),
                out@.len() == i,
                forall|j: int|
                    0 <= j < i ==> (#[trigger] out@[j]).path@ == self.exts@[j]@
                        && out@[j].last_accessed_time == self.times@[j],
            decreases self.exts@.len() - i,
        {
            out.push(
                crate::select::Entry {
                    path: self.exts[i].clone(),
                    last_accessed_time: self.times[i],
                },
            );
            i = i + 1;
        }
        proof {
            assert forall|k: Seq<char>| #[trigger] self@.contains_key(k) implies exists|i: int|
                0 <= i < out@.len() && (#[trigger] out@[i].path)@ == k by {
                let j = choose|j: int| 0 <= j < self.exts@.len() && (#[trigger] self.exts@[j])@ == k;
                assert(out@[j].path@ == k);
            }
            assert(crate::select::pairs_of(out@) =~= self.names().map_values(|k: Seq<char>| (k, self@[k])));
        }
        out
    }
}

/// For every extension in the index built from a sequence of accesses, the
/// stored time is the latest time among the accesses with that extension,
/// and the index holds exactly the extensions that occur.
pub proof fn lemma_index_holds_latest(accesses: Seq<(Seq<char>, u64)>, ext: Seq<char>)
    ensures
        index_of(accesses).contains_key(ext) <==> exists|i: int|
            0 <= i < accesses.len() && (#[trigger] accesses[i]).0 == ext,
        index_of(accesses).contains_key(ext) ==> {
            &&& exists|i: int|
                0 <= i < accesses.len() && (#[trigger] accesses[i]).0 == ext && accesses[i].1
                    == index_of(accesses)[ext]
            &&& forall|i: int|
                0 <= i < accesses.len() && (#[trigger] accesses[i]).0 == ext ==> accesses[i].1
                    <= index_of(accesses)[ext]
        },
    decreases accesses.len(),
{
    if accesses.len() > 0 {
        let prev = accesses.drop_last();
        let n = accesses.len() - 1;
        lemma_index_holds_latest(prev, ext);
        assert forall|i: int| 0 <= i < n implies #[trigger] accesses[i] == prev[i] by {}
        if index_of(accesses).contains_key(ext) {
            if accesses[n].0 == ext && index_of(accesses)[ext] == accesses[n].1 {
                assert(accesses[n].0 == ext);
            } else {
                let i = choose|i: int|
                    0 <= i < prev.len() && (#[trigger] prev[i]).0 == ext && prev[i].1 == index_of(
                        prev,
                    )[ext];
                assert(accesses[i] == prev[i]);
            }
        }
        if exists|i: int| 0 <= i < accesses.len() && (#[trigger] accesses[i]).0 == ext {
            let i = choose|i: int| 0 <= i < accesses.len() && (#[trigger] accesses[i]).0 == ext;
            if i < n {
                assert(prev[i].0 == ext);
            }
        }
    }
}

} // verus!
