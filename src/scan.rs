use vstd::prelude::*;
use crate::error::ConfigError;
use crate::extindex::{ExtIndex, index_of, lemma_index_holds_latest, note_access};
use crate::filter::{PathFilter, admits_path};
use crate::options::Options;
use crate::paths::{extension, extension_of};
use crate::select::{
    Entry, entry_pair, TopN, is_ranked, kept_after_push, pairs_of, pushed_pairs, rank_pairs,
    ranks_below,
};
use crate::extindex::note_name;

verus! {

/// The extensions of the files in `seen` that have one, each with the
/// file's access time, in the order the files were seen.
pub open spec fn ext_accesses(seen: Seq<(Seq<char>, u64)>) -> Seq<(Seq<char>, u64)>
    decreases seen.len(),
{
    if seen.len() == 0 {
        Seq::empty()
    } else {
        let prev = ext_accesses(seen.drop_last());
        match extension_of(seen.last().0) {
            Some(e) => prev.push((e, seen.last().1)),
            None => prev,
        }
    }
}

/// One entry of the walk: its path, whether it is a regular file, whether
/// it is a symbolic link, and its access time if that could be read.
pub type Visit = (Seq<char>, bool, bool, Option<u64>);

/// Whether an entry is counted: a regular file, no link, that passes.
pub open spec fn counts(patterns: Option<Seq<Seq<char>>>, v: Visit) -> bool {
    admits_path(patterns, v.0) && v.1 && !v.2
}

/// Whether an entry is counted and has an access time.
pub open spec fn takes(patterns: Option<Seq<Seq<char>>>, v: Visit) -> bool {
    counts(patterns, v) && v.3 is Some
}

/// The file count after the entries `vs`.
pub open spec fn total_after(patterns: Option<Seq<Seq<char>>>, vs: Seq<Visit>) -> u64
    decreases vs.len(),
{
    if vs.len() == 0 {
        0
    } else {
        let prev = total_after(patterns, vs.drop_last());
        if counts(patterns, vs.last()) && prev < u64::MAX {
            (prev + 1) as u64
        } else {
            prev
        }
    }
}

/// The files taken in, with their access times, after the entries `vs`.
pub open spec fn seen_after(patterns: Option<Seq<Seq<char>>>, vs: Seq<Visit>) -> Seq<(Seq<char>, u64)>
    decreases vs.len(),
{
    if vs.len() == 0 {
        Seq::empty()
    } else {
        let prev = seen_after(patterns, vs.drop_last());
        let v = vs.last();
        if takes(patterns, v) {
            prev.push((v.0, v.3.unwrap()))
        } else {
            prev
        }
    }
}

/// The kept files, as names and times, after the entries `vs`.
pub open spec fn kept_after(
    recent: bool,
    nums: usize,
    patterns: Option<Seq<Seq<char>>>,
    vs: Seq<Visit>,
) -> Seq<(Seq<char>, u64)>
    decreases vs.len(),
{
    if vs.len() == 0 {
        Seq::empty()
    } else {
        let prev = kept_after(recent, nums, patterns, vs.drop_last());
        let v = vs.last();
        if takes(patterns, v) {
            pushed_pairs(recent, nums, prev, (v.0, v.3.unwrap()))
        } else {
            prev
        }
    }
}

/// The extensions in the order first seen after the entries `vs`.
pub open spec fn names_after(patterns: Option<Seq<Seq<char>>>, vs: Seq<Visit>) -> Seq<Seq<char>>
    decreases vs.len(),
{
    if vs.len() == 0 {
        Seq::empty()
    } else {
        let prev = names_after(patterns, vs.drop_last());
        let v = vs.last();
        if takes(patterns, v) && extension_of(v.0) is Some {
            note_name(prev, extension_of(v.0).unwrap())
        } else {
            prev
        }
    }
}

/// True when some kept entry has the name and time `p`.
pub open spec fn is_kept(kept: Seq<Entry>, p: (Seq<char>, u64)) -> bool {
    exists|k: int| 0 <= k < kept.len() && entry_pair(#[trigger] kept[k]) == p
}

/// True when `kept` holds the best ranked of the `seen` files: while fewer
/// than `nums` are kept every seen file is kept, and a seen file that is not
/// kept ranks below every kept one.
pub open spec fn keeps_best(
    recent: bool,
    nums: usize,
    seen: Seq<(Seq<char>, u64)>,
    kept: Seq<Entry>,
) -> bool {
    &&& kept.len() < nums ==> forall|i: int|
        0 <= i < seen.len() ==> is_kept(kept, #[trigger] seen[i])
    &&& forall|i: int, k: int|
        0 <= i < seen.len() && 0 <= k < kept.len() && !is_kept(kept, #[trigger] seen[i])
            ==> ranks_below(recent, seen[i].1, (#[trigger] kept[k]).last_accessed_time)
}

/// The state of one run while the directory tree is walked.
pub struct Scan {
    filter: PathFilter,
    top: TopN,
    by_ext: Option<ExtIndex>,
    total_files: u64,
    nums: usize,
    seen: Ghost<Seq<(Seq<char>, u64)>>,
    visits: Ghost<Seq<Visit>>,
}

/// What a run reports once the walk is over.
pub struct Report {
    /// The number of regular files that passed the filter.
    pub total_files: u64,
    /// How many files (and extensions) were asked for.
    pub nums: usize,
    /// True when ranked by the most recent access, false for the oldest.
    pub recent: bool,
    /// The best ranked extensions with their latest access time, from the
    /// highest ranked down; `None` when grouping by extension is off.
    pub by_ext: Option<Vec<Entry>>,
    /// The kept files, from the highest ranked down.
    pub top: Vec<Entry>,
}

impl Scan {
    pub closed spec fn wf(&self) -> bool {
        &&& self.top.wf()
        &&& self.filter.wf()
        &&& self.top.limit() == self.nums
        &&& (self.by_ext matches Some(ix) ==> ix.wf() && ix@ == index_of(
            ext_accesses(self.seen@),
        ))
        &&& forall|i: int|
            0 <= i < self.seen@.len() ==> self.filter.admits((#[trigger] self.seen@[i]).0)
        &&& forall|k: int|
            0 <= k < self.top.entries().len() ==> self.seen@.contains(
                entry_pair(#[trigger] self.top.entries()[k]),
            )
        &&& keeps_best(self.top.recent(), self.nums, self.seen@, self.top.entries())
        &&& self.seen@ == seen_after(self.filter.patterns(), self.visits@)
        &&& self.total_files == total_after(self.filter.patterns(), self.visits@)
        &&& pairs_of(self.top.entries()) == kept_after(
            self.top.recent(),
            self.nums,
            self.filter.patterns(),
            self.visits@,
        )
        &&& (self.by_ext matches Some(ix) ==> ix.names() == names_after(
            self.filter.patterns(),
            self.visits@,
        ))
    }

    /// Every entry taken in so far, in order.
    pub closed spec fn visits(&self) -> Seq<Visit> {
        self.visits@
    }

    /// The files that passed the filter and had an access time, each as its
    /// path and that time, in the order they were visited.
    pub closed spec fn seen(&self) -> Seq<(Seq<char>, u64)> {
        self.seen@
    }

    /// The files kept for the report.
    pub closed spec fn kept(&self) -> Seq<Entry> {
        self.top.entries()
    }

    pub closed spec fn nums(&self) -> usize {
        self.nums
    }

    pub closed spec fn recent(&self) -> bool {
        self.top.recent()
    }

    pub closed spec fn total(&self) -> u64 {
        self.total_files
    }

    pub closed spec fn filter(&self) -> PathFilter {
        self.filter
    }

    /// The extensions in the order first seen, when grouping is on.
    pub closed spec fn ext_names(&self) -> Option<Seq<Seq<char>>> {
        match self.by_ext {
            Some(ix) => Some(ix.names()),
            None => None,
        }
    }

    /// The latest access time of each extension, when grouping is on.
    pub closed spec fn ext_index(&self) -> Option<Map<Seq<char>, u64>> {
        match self.by_ext {
            Some(ix) => Some(ix@),
            None => None,
        }
    }
}

/// True when `rows` are the `nums` best ranked extensions of `m` with their
/// times, from the highest ranked down (all of them when there are fewer).
pub open spec fn top_extensions(
    recent: bool,
    nums: usize,
    m: Map<Seq<char>, u64>,
    rows: Seq<Entry>,
) -> bool {
    &&& is_ranked(recent, rows)
    &&& crate::select::distinct_names(rows)
    &&& rows.len() == if m.len() < nums {
        m.len()
    } else {
        nums as nat
    }
    &&& forall|i: int|
        0 <= i < rows.len() ==> m.contains_key((#[trigger] rows[i]).path@) && m[rows[i].path@]
            == rows[i].last_accessed_time
    &&& forall|k: Seq<char>|
        #[trigger] m.contains_key(k) ==> (exists|i: int|
            0 <= i < rows.len() && (#[trigger] rows[i]).path@ == k) || (forall|i: int|
            0 <= i < rows.len() ==> ranks_below(
                recent,
                m[k],
                (#[trigger] rows[i]).last_accessed_time,
            ))
}

impl Scan {
    /// Starts a run with the given options. An invalid glob pattern is an
    /// error.
    pub fn new(options: &Options) -> (r: Result<Scan, ConfigError>)
        ensures
            options.glob is None ==> r is Ok,
            options.glob matches Some(p) ==> (r is Ok <==> (forall|i: int|
                0 <= i < p@.len() ==> crate::filter::glob_valid(#[trigger] p@[i]@))
                && crate::filter::set_builds(crate::options::strings_view(p@))),
            r matches Err(e) ==> e is InvalidGlobPattern,
            r matches Ok(s) ==> {
                &&& s.wf()
                &&& s.seen() == Seq::<(Seq<char>, u64)>::empty()
                &&& s.kept() == Seq::<Entry>::empty()
                &&& s.total() == 0
                &&& s.visits() == Seq::<Visit>::empty()
                &&& s.nums() == options.nums
                &&& s.recent() == options.recent
                &&& s.ext_index() == if options.no_ext {
                    None
                } else {
                    Some(Map::<Seq<char>, u64>::empty())
                }
                &&& s.ext_names() == if options.no_ext {
                    None
                } else {
                    Some(Seq::<Seq<char>>::empty())
                }
                &&& s.filter().patterns() == match options.glob {
                    None => None,
                    Some(p) => Some(crate::options::strings_view(p@)),
                }
            },
    {
        let filter = match PathFilter::new(&options.glob) {
            Ok(f) => f,
            Err(e) => {
                return Err(e);
            },
        };
        let by_ext = if options.no_ext {
            None
        } else {
            Some(ExtIndex::new())
        };
        let s = Scan {
            filter,
            top: TopN::new(options.nums, options.recent),
            by_ext,
            total_files: 0,
            nums: options.nums,
            seen: Ghost(Seq::empty()),
            visits: Ghost(Seq::empty()),
        };
        assert(ext_accesses(Seq::<(Seq<char>, u64)>::empty()) =~= Seq::<(Seq<char>, u64)>::empty());
        assert(pairs_of(s.top.entries()) =~= Seq::<(Seq<char>, u64)>::empty());
        assert(seen_after(s.filter.patterns(), s.visits@) =~= Seq::<(Seq<char>, u64)>::empty());
        assert(kept_after(options.recent, options.nums, s.filter.patterns(), s.visits@)
            =~= Seq::<(Seq<char>, u64)>::empty());
        assert(names_after(s.filter.patterns(), s.visits@) =~= Seq::<Seq<char>>::empty());
        assert(total_after(s.filter.patterns(), s.visits@) == 0);
        Ok(s)
    }

    /// Takes in one entry of the walk: its path, whether it is a regular
    /// file, whether it is a symbolic link, and its access time if that
    /// could be read. A regular file that is no link and passes the filter
    /// is counted; with an access time it is offered to the kept files and
    /// its extension, if any, to the index.
    pub fn visit(&mut self, path: &str, is_file: bool, is_symlink: bool, accessed: Option<u64>)
        requires
            old(self).wf(),
        ensures
            final(self).wf(),
            final(self).nums() == old(self).nums(),
            final(self).recent() == old(self).recent(),
            final(self).filter() == old(self).filter(),
            final(self).visits() == old(self).visits().push((path@, is_file, is_symlink, accessed)),
            final(self).ext_index() is Some == old(self).ext_index() is Some,
            final(self).ext_index() matches Some(m) ==> m == index_of(
                ext_accesses(final(self).seen()),
            ),
            ({
                let taken = old(self).filter().admits(path@) && is_file && !is_symlink
                    && accessed is Some;
                &&& pairs_of(final(self).kept()) == if taken {
                    pushed_pairs(
                        old(self).recent(),
                        old(self).nums(),
                        pairs_of(old(self).kept()),
                        (path@, accessed.unwrap()),
                    )
                } else {
                    pairs_of(old(self).kept())
                }
                &&& final(self).ext_names() == match old(self).ext_names() {
                    None => None,
                    Some(ns) => Some(
                        if taken && extension_of(path@) is Some {
                            note_name(ns, extension_of(path@).unwrap())
                        } else {
                            ns
                        },
                    ),
                }
            }),
            ({
                let counted = old(self).filter().admits(path@) && is_file && !is_symlink;
                &&& final(self).total() == if counted && old(self).total() < u64::MAX {
                    (old(self).total() + 1) as u64
                } else {
                    old(self).total()
                }
                &&& if counted && accessed is Some {
                    let t = accessed.unwrap();
                    &&& final(self).seen() == old(self).seen().push((path@, t))
                    &&& exists|e: Entry|
                        entry_pair(e) == (path@, t) && #[trigger] kept_after_push(
                            old(self).recent(),
                            old(self).nums(),
                            old(self).kept(),
                            e,
                            final(self).kept(),
                        )
                } else {
                    &&& final(self).seen() == old(self).seen()
                    &&& final(self).kept() == old(self).kept()
                    &&& final(self).ext_index() == old(self).ext_index()
                }
            }),
    {
        let ghost v: Visit = (path@, is_file, is_symlink, accessed);
        self.visits = Ghost(self.visits@.push(v));
        assert(self.visits@.drop_last() =~= old(self).visits@);
        assert(self.visits@.last() == v);
        if !(is_file && !is_symlink) || !self.filter.is_match(path) {
            return;
        }
        if self.total_files < u64::MAX {
            self.total_files = self.total_files + 1;
        }
        let t = match accessed {
            None => {
                return;
            },
            Some(t) => t,
        };
        let ghost old_seen = self.seen@;
        let ghost old_kept = self.top.entries();
        self.seen = Ghost(self.seen@.push((path@, t)));
        let ext = extension(path);
        let ghost seen_now = self.seen@;
        assert(seen_now.drop_last() =~= old_seen);
        match &mut self.by_ext {
            None => {},
            Some(ix) => {
                match &ext {
                    None => {},
                    Some(e) => {
                        ix.note(e.as_str(), t);
                    },
                }
            },
        }
        proof {
            let acc = ext_accesses(seen_now);
            match extension_of(path@) {
                Some(e) => {
                    assert(acc == ext_accesses(old_seen).push((e, t)));
                    assert(acc.drop_last() =~= ext_accesses(old_seen));
                    assert(index_of(acc) == note_access(index_of(ext_accesses(old_seen)), e, t));
                },
                None => {
                    assert(acc == ext_accesses(old_seen));
                },
            }
        }
        let entry = Entry { path: String::from_str(path), last_accessed_time: t };
        self.top.push(entry);
        proof {
            assert(entry_pair(entry) == (path@, t));
            assert(kept_after_push(self.top.recent(), self.nums, old_kept, entry, self.top.entries()));
            assert(self.seen() == old(self).seen().push((path@, t)));
            assert(kept_after_push(old(self).recent(), old(self).nums(), old(self).kept(), entry, self.kept()));
            assert(self.total() == if old(self).total() < u64::MAX { (old(self).total() + 1) as u64 } else { old(self).total() });
            assert forall|i: int| 0 <= i < self.seen@.len() implies self.filter.admits(
                (#[trigger] self.seen@[i]).0,
            ) by {
                if i < old_seen.len() {
                    assert(self.seen@[i] == old_seen[i]);
                }
            }
            assert forall|k: int| 0 <= k < self.top.entries().len() implies self.seen@.contains(
                entry_pair(#[trigger] self.top.entries()[k]),
            ) by {
                let grown = old_kept.push(entry);
                if old_kept.len() < self.nums {
                    assert(self.top.entries() == grown);
                } else {
                    let j = choose|j: int| #[trigger]
                        crate::select::is_worst(self.top.recent(), grown, j) && self.top.entries()
                            == grown.remove(j);
                    assert(self.top.entries()[k] == if k < j { grown[k] } else { grown[k + 1] });
                }
                let x = self.top.entries()[k];
                if x == entry {
                    assert(self.seen@[old_seen.len() as int] == entry_pair(entry));
                } else {
                    let m = choose|m: int| 0 <= m < grown.len() && grown[m] == x;
                    assert(old_kept[m] == x);
                    assert(old_seen.contains(entry_pair(x)));
                    let i = choose|i: int| 0 <= i < old_seen.len() && old_seen[i] == entry_pair(x);
                    assert(self.seen@[i] == entry_pair(x));
                }
            }
            self.lemma_keeps_best_after_push(old_seen, old_kept, entry);
        }
    }
}

impl Scan {
    proof fn lemma_keeps_best_after_push(&self, old_seen: Seq<(Seq<char>, u64)>, old_kept: Seq<Entry>, e: Entry)
        requires
            keeps_best(self.top.recent(), self.nums, old_seen, old_kept),
            old_kept.len() <= self.nums,
            self.seen@ == old_seen.push(entry_pair(e)),
            kept_after_push(self.top.recent(), self.nums, old_kept, e, self.top.entries()),
        ensures
            keeps_best(self.top.recent(), self.nums, self.seen@, self.top.entries()),
    {
        let recent = self.top.recent();
        let seen = self.seen@;
        let kept = self.top.entries();
        let grown = old_kept.push(e);
        let n = old_seen.len();
        assert forall|i: int| 0 <= i < n implies #[trigger] seen[i] == old_seen[i] by {}
        if old_kept.len() < self.nums {
            assert(kept == grown);
            assert forall|i: int| 0 <= i < seen.len() implies is_kept(kept, #[trigger] seen[i]) by {
                if i < n {
                    assert(is_kept(old_kept, old_seen[i]));
                    let k = choose|k: int| 0 <= k < old_kept.len() && entry_pair(#[trigger] old_kept[k]) == old_seen[i];
                    assert(kept[k] == old_kept[k]);
                } else {
                    assert(kept[old_kept.len() as int] == e);
                }
            }
        } else {
            let j = choose|j: int| #[trigger]
                crate::select::is_worst(recent, grown, j) && kept == grown.remove(j);
            assert forall|k: int| 0 <= k < kept.len() implies #[trigger] kept[k] == if k < j { grown[k] } else { grown[k + 1] } by {}
            assert forall|i: int, k: int|
                0 <= i < seen.len() && 0 <= k < kept.len() && !is_kept(kept, #[trigger] seen[i])
                implies ranks_below(recent, seen[i].1, (#[trigger] kept[k]).last_accessed_time) by {
                let g = if k < j { k } else { k + 1 };
                assert(kept[k] == grown[g]);
                let x = seen[i];
                if exists|m: int| 0 <= m < grown.len() && entry_pair(#[trigger] grown[m]) == x {
                    let m = choose|m: int| 0 <= m < grown.len() && entry_pair(#[trigger] grown[m]) == x;
                    if m != j {
                        let km = if m < j { m } else { m - 1 };
                        assert(kept[km] == grown[m]);
                        assert(is_kept(kept, x));
                    }
                    assert(ranks_below(recent, grown[j].last_accessed_time, grown[g].last_accessed_time));
                } else {
                    if i == n {
                        assert(grown[old_kept.len() as int] == e);
                        assert(entry_pair(grown[old_kept.len() as int]) == x);
                    }
                    assert(!is_kept(old_kept, old_seen[i])) by {
                        if is_kept(old_kept, old_seen[i]) {
                            let m = choose|m: int| 0 <= m < old_kept.len() && entry_pair(#[trigger] old_kept[m]) == old_seen[i];
                            assert(grown[m] == old_kept[m]);
                        }
                    }
                    if g < old_kept.len() {
                        assert(grown[g] == old_kept[g]);
                    } else {
                        if old_kept.len() > 0 {
                            assert(grown[j] == old_kept[j]);
                            assert(ranks_below(recent, old_seen[i].1, old_kept[j].last_accessed_time));
                        }
                    }
                }
            }
        }
    }

    /// The number of files counted so far.
    pub fn total_files(&self) -> (r: u64)
        ensures
            r == self.total(),
    {
        self.total_files
    }

    /// Ends the run: the kept files and, when grouping is on, the best
    /// ranked extensions, each from the highest ranked down.
    pub fn finish(self) -> (r: Report)
        requires
            self.wf(),
        ensures
            r.total_files == self.total(),
            r.nums == self.nums(),
            r.recent == self.recent(),
            r.top@.to_multiset() == self.kept().to_multiset(),
            pairs_of(r.top@) == rank_pairs(self.recent(), pairs_of(self.kept())),
            r.by_ext matches Some(rows) ==> pairs_of(rows@) == rank_pairs(
                self.recent(),
                self.ext_names().unwrap().map_values(
                    |k: Seq<char>| (k, self.ext_index().unwrap()[k]),
                ),
            ).take(rows@.len() as int),
            is_ranked(self.recent(), r.top@),
            r.top@.len() <= self.nums(),
            r.by_ext is Some == self.ext_index() is Some,
            r.by_ext matches Some(rows) ==> top_extensions(
                self.recent(),
                self.nums(),
                self.ext_index().unwrap(),
                rows@,
            ),
    {
        let recent = self.top.is_recent();
        let nums = self.nums;
        proof {
            self.top.entries().to_multiset_ensures();
        }
        let top = self.top.into_ranked();
        proof {
            top@.to_multiset_ensures();
        }
        let by_ext = match self.by_ext {
            None => None,
            Some(ix) => {
                let ghost m = ix@;
                proof {
                    ix.lemma_len();
                }
                let all = ix.into_entries();
                let mut rows = crate::select::rank(all, recent);
                proof {
                    rows@.to_multiset_ensures();
                    all@.to_multiset_ensures();
                }
                let ghost full = rows@;
                proof {
                    crate::select::lemma_reorder_keeps_names_distinct(all@, full);
                }
                rows.truncate(nums);
                proof {
                    assert(pairs_of(rows@) =~= pairs_of(full).take(rows@.len() as int));
                    assert forall|i: int, j: int| 0 <= i < j < rows@.len() implies (#[trigger] rows@[i]).path@
                        != (#[trigger] rows@[j]).path@ by {
                        assert(rows@[i] == full[i]);
                        assert(rows@[j] == full[j]);
                    }
                    assert forall|i: int| 0 <= i < rows@.len() implies m.contains_key(
                        (#[trigger] rows@[i]).path@,
                    ) && m[rows@[i].path@] == rows@[i].last_accessed_time by {
                        assert(rows@[i] == full[i]);
                        assert(all@.to_multiset().count(full[i]) > 0);
                        let a = choose|a: int| 0 <= a < all@.len() && all@[a] == full[i];
                        assert(m.contains_key(all@[a].path@));
                    }
                    assert forall|k: Seq<char>| #[trigger] m.contains_key(k) implies (exists|i: int|
                        0 <= i < rows@.len() && (#[trigger] rows@[i]).path@ == k) || (forall|i: int|
                        0 <= i < rows@.len() ==> ranks_below(
                            recent,
                            m[k],
                            (#[trigger] rows@[i]).last_accessed_time,
                        )) by {
                        let a = choose|a: int| 0 <= a < all@.len() && (#[trigger] all@[a].path)@ == k;
                        assert(all@.contains(all@[a]));
                        assert(all@.to_multiset().count(all@[a]) > 0);
                        assert(full.to_multiset().count(all@[a]) > 0);
                        assert(full.contains(all@[a]));
                        let p = choose|p: int| 0 <= p < full.len() && full[p] == all@[a];
                        if p < rows@.len() {
                            assert(rows@[p] == full[p]);
                        } else {
                            assert forall|i: int| 0 <= i < rows@.len() implies ranks_below(
                                recent,
                                m[k],
                                (#[trigger] rows@[i]).last_accessed_time,
                            ) by {
                                assert(rows@[i] == full[i]);
                            }
                        }
                    }
                    assert forall|i: int, j: int| 0 <= i < j < rows@.len() implies ranks_below(
                        recent,
                        #[trigger] rows@[j].last_accessed_time,
                        #[trigger] rows@[i].last_accessed_time,
                    ) by {
                        assert(rows@[i] == full[i]);
                        assert(rows@[j] == full[j]);
                    }
                }
                Some(rows)
            },
        };
        Report { total_files: self.total_files, nums, recent, by_ext, top }
    }
}

/// The kept files are the best ranked of the files seen: every kept file
/// was seen, while fewer than the limit are kept every seen file is kept,
/// and a seen file that is not kept ranks below every kept one.
pub proof fn lemma_kept_are_best(s: &Scan)
    requires
        s.wf(),
    ensures
        forall|k: int| 0 <= k < s.kept().len() ==> s.seen().contains(entry_pair(#[trigger] s.kept()[k])),
        keeps_best(s.recent(), s.nums(), s.seen(), s.kept()),
{
}

/// Every file a run keeps, and every access that reaches the index by
/// extension, comes from a file that passed the filter.
pub proof fn lemma_only_admitted_files(s: &Scan)
    requires
        s.wf(),
    ensures
        forall|i: int| 0 <= i < s.seen().len() ==> s.filter().admits((#[trigger] s.seen()[i]).0),
        forall|k: int|
            0 <= k < s.kept().len() ==> s.filter().admits((#[trigger] s.kept()[k]).path@),
        s.ext_index() matches Some(m) ==> m == index_of(ext_accesses(s.seen())),
{
    assert forall|k: int| 0 <= k < s.kept().len() implies s.filter().admits(
        (#[trigger] s.kept()[k]).path@,
    ) by {
        assert(s.seen().contains(entry_pair(s.kept()[k])));
    }
}

/// An extension access comes from a seen file with that extension and
/// time, and every such file gives one.
proof fn lemma_ext_accesses(seen: Seq<(Seq<char>, u64)>, ext: Seq<char>, t: u64)
    ensures
        ext_accesses(seen).contains((ext, t)) <==> exists|i: int|
            0 <= i < seen.len() && extension_of((#[trigger] seen[i]).0) == Some(ext) && seen[i].1
                == t,
    decreases seen.len(),
{
    if seen.len() > 0 {
        let prev = seen.drop_last();
        let n = seen.len() - 1;
        lemma_ext_accesses(prev, ext, t);
        let acc = ext_accesses(seen);
        let pacc = ext_accesses(prev);
        if acc.contains((ext, t)) {
            let k = choose|k: int| 0 <= k < acc.len() && acc[k] == (ext, t);
            if k < pacc.len() && (extension_of(seen[n].0) is None || k < acc.len() - 1) {
                assert(pacc.contains((ext, t)));
                let i = choose|i: int|
                    0 <= i < prev.len() && extension_of((#[trigger] prev[i]).0) == Some(ext)
                        && prev[i].1 == t;
                assert(seen[i] == prev[i]);
            } else {
                assert(extension_of(seen[n].0) == Some(ext) && seen[n].1 == t);
            }
        }
        if exists|i: int|
            0 <= i < seen.len() && extension_of((#[trigger] seen[i]).0) == Some(ext) && seen[i].1
                == t {
            let i = choose|i: int|
                0 <= i < seen.len() && extension_of((#[trigger] seen[i]).0) == Some(ext)
                    && seen[i].1 == t;
            if i < n {
                assert(prev[i] == seen[i]);
                let k = choose|k: int| 0 <= k < pacc.len() && pacc[k] == (ext, t);
                assert(acc[k] == pacc[k]);
            } else {
                assert(acc[acc.len() - 1] == (ext, t));
            }
        }
    }
}

/// The summary by extension holds exactly the extensions of the files
/// seen, each with the latest access time among the seen files that have
/// that extension.
pub proof fn lemma_extension_times_are_latest(s: &Scan, ext: Seq<char>)
    requires
        s.wf(),
        s.ext_index() is Some,
    ensures
        ({
            let m = s.ext_index().unwrap();
            &&& m.contains_key(ext) <==> exists|i: int|
                0 <= i < s.seen().len() && extension_of((#[trigger] s.seen()[i]).0) == Some(ext)
            &&& m.contains_key(ext) ==> {
                &&& exists|i: int|
                    0 <= i < s.seen().len() && extension_of((#[trigger] s.seen()[i]).0) == Some(
                        ext,
                    ) && s.seen()[i].1 == m[ext]
                &&& forall|i: int|
                    0 <= i < s.seen().len() && extension_of((#[trigger] s.seen()[i]).0) == Some(
                        ext,
                    ) ==> s.seen()[i].1 <= m[ext]
            }
        }),
{
    let seen = s.seen();
    let acc = ext_accesses(seen);
    let m = s.ext_index().unwrap();
    lemma_index_holds_latest(acc, ext);
    if m.contains_key(ext) {
        let k = choose|k: int| 0 <= k < acc.len() && (#[trigger] acc[k]).0 == ext && acc[k].1 == m[ext];
        assert(acc.contains((ext, m[ext])) && acc[k] == (ext, m[ext]));
        lemma_ext_accesses(seen, ext, m[ext]);
        assert forall|i: int|
            0 <= i < seen.len() && extension_of((#[trigger] seen[i]).0) == Some(ext) implies seen[i].1
            <= m[ext] by {
            lemma_ext_accesses(seen, ext, seen[i].1);
            let j = choose|j: int| 0 <= j < acc.len() && acc[j] == (ext, seen[i].1);
            assert(acc[j].0 == ext);
        }
    }
    if exists|i: int| 0 <= i < seen.len() && extension_of((#[trigger] seen[i]).0) == Some(ext) {
        let i = choose|i: int| 0 <= i < seen.len() && extension_of((#[trigger] seen[i]).0) == Some(ext);
        lemma_ext_accesses(seen, ext, seen[i].1);
        let j = choose|j: int| 0 <= j < acc.len() && acc[j] == (ext, seen[i].1);
        assert(acc[j].0 == ext);
    }
}

/// Two runs that take in the same entries with the same limit, order and
/// patterns agree on the file count, the files taken in and the kept files,
/// whether or not either groups by extension; where both group, they agree
/// on the extensions, their order and their times. Since `finish` ranks by
/// these alone, the two reports then agree as well.
pub proof fn lemma_runs_agree(a: &Scan, b: &Scan)
    requires
        a.wf(),
        b.wf(),
        a.visits() == b.visits(),
        a.nums() == b.nums(),
        a.recent() == b.recent(),
        a.filter().patterns() == b.filter().patterns(),
    ensures
        a.total() == b.total(),
        a.seen() == b.seen(),
        pairs_of(a.kept()) == pairs_of(b.kept()),
        a.ext_index() is Some && b.ext_index() is Some ==> a.ext_index() == b.ext_index()
            && a.ext_names() == b.ext_names(),
{
}

} // verus!
