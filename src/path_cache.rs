use vstd::prelude::*;
use crate::grid::Pos;

verus! {

/// A cache key: start and goal cells.
pub type PathKey = (Pos, Pos);

/// What a store holds after a query on `key` whose computation gave `computed`:
/// positive results are kept, negative ones are not.
pub open spec fn store_result(
    cache: Map<PathKey, Seq<Pos>>,
    key: PathKey,
    computed: Option<Seq<Pos>>,
) -> Map<PathKey, Seq<Pos>> {
    match computed {
        Some(p) => cache.insert(key, p),
        None => cache,
    }
}

/// The answer to a query on `key`: the stored path if any, else `computed`.
pub open spec fn query_answer(
    cache: Map<PathKey, Seq<Pos>>,
    key: PathKey,
    computed: Option<Seq<Pos>>,
) -> Option<Seq<Pos>> {
    if cache.contains_key(key) {
        Some(cache[key])
    } else {
        computed
    }
}

/// Every stored path is what `plan` gives for its key.
pub open spec fn agrees_with(
    cache: Map<PathKey, Seq<Pos>>,
    plan: spec_fn(PathKey) -> Option<Seq<Pos>>,
) -> bool {
    forall|k: PathKey| #[trigger] cache.contains_key(k) ==> plan(k) == Some(cache[k])
}

/// The view of an optional path.
pub open spec fn opt_view(r: Option<Vec<Pos>>) -> Option<Seq<Pos>> {
    match r {
        Some(p) => Some(p@),
        None => None,
    }
}

/// Usage counters of a path cache.
#[derive(Clone, Copy, Debug, Default)]
pub struct PathStats {
    pub cache_hits: usize,
    pub cache_misses: usize,
    pub total_paths: usize,
}

/// A store of planned paths keyed by (start, goal), with usage counters.
pub struct PathManager {
    entries: Vec<(PathKey, Vec<Pos>)>,
    stats: PathStats,
}

spec fn entries_map(s: Seq<(PathKey, Vec<Pos>)>) -> Map<PathKey, Seq<Pos>>
    decreases s.len(),
{
    if s.len() == 0 {
        Map::empty()
    } else {
        entries_map(s.drop_last()).insert(s.last().0, s.last().1@)
    }
}

/// `n + 1`, or `n` when that would not fit.
pub open spec fn bump(n: usize) -> usize {
    if n < usize::MAX {
        (n + 1) as usize
    } else {
        n
    }
}

fn bumped(n: usize) -> (r: usize)
    ensures
        r == bump(n),
{
    if n < usize::MAX {
        n + 1
    } else {
        n
    }
}

fn copy_path(p: &Vec<Pos>) -> (r: Vec<Pos>)
    ensures
        r@ == p@,
{
    let mut r: Vec<Pos> = Vec::new();
    let mut i: usize = 0;
    while i < p.len()
        invariant
            i <= p@.len(),
            r@ == p@.take(i as int),
        decreases p@.len() - i,
    {
        r.push(p[i]);
        i += 1;
        assert(r@ =~= p@.take(i as int));
    }
    assert(p@.take(p@.len() as int) =~= p@);
    r
}

impl PathManager {
    /// The stored paths.
    pub closed spec fn view(&self) -> Map<PathKey, Seq<Pos>> {
        entries_map(self.entries@)
    }

    /// The usage counters.
    pub closed spec fn stats_spec(&self) -> PathStats {
        self.stats
    }

    /// An empty cache with zeroed counters. Each world owns its own.
    pub fn instance() -> (r: PathManager)
        ensures
            r@ == Map::<PathKey, Seq<Pos>>::empty(),
            r.stats_spec() == (PathStats { cache_hits: 0, cache_misses: 0, total_paths: 0 }),
    {
        PathManager {
            entries: Vec::new(),
            stats: PathStats { cache_hits: 0, cache_misses: 0, total_paths: 0 },
        }
    }

    /// The stored path for `(start, end)`, if any.
    pub fn lookup(&self, start: Pos, end: Pos) -> (r: Option<Vec<Pos>>)
        ensures
            opt_view(r) == if self@.contains_key((start, end)) {
                Some(self@[(start, end)])
            } else {
                None::<Seq<Pos>>
            },
    {
        let mut i = self.entries.len();
        assert(self.entries@.take(i as int) =~= self.entries@);
        while i > 0
            invariant
                i <= self.entries@.len(),
                entries_map(self.entries@).contains_key((start, end)) == entries_map(
                    self.entries@.take(i as int),
                ).contains_key((start, end)),
                entries_map(self.entries@).contains_key((start, end)) ==> entries_map(
                    self.entries@,
                )[(start, end)] == entries_map(self.entries@.take(i as int))[(start, end)],
            decreases i,
        {
            let ghost pre = self.entries@.take(i as int);
            assert(pre.drop_last() =~= self.entries@.take(i - 1));
            let k = self.entries[i - 1].0;
            if k.0.0 == start.0 && k.0.1 == start.1 && k.1.0 == end.0 && k.1.1 == end.1 {
                assert(k == (start, end));
                return Some(copy_path(&self.entries[i - 1].1));
            }
            i -= 1;
        }
        assert(entries_map(self.entries@.take(0)) == Map::<PathKey, Seq<Pos>>::empty());
        None
    }

    /// Returns the stored path for `(start, end)`; otherwise runs `calculator`,
    /// stores a path it returns, and returns its result. Failures are not stored.
    pub fn get_or_calculate<F>(&mut self, start: Pos, end: Pos, calculator: F) -> (r: Option<
        Vec<Pos>,
    >) where F: FnOnce() -> Option<Vec<Pos>>
        requires
            calculator.requires(()),
        ensures
            old(self)@.contains_key((start, end)) ==> {
                &&& opt_view(r) == Some(old(self)@[(start, end)])
                &&& final(self)@ == old(self)@
                &&& final(self).stats_spec() == (PathStats {
                    cache_hits: bump(old(self).stats_spec().cache_hits),
                    ..old(self).stats_spec()
                })
            },
            !old(self)@.contains_key((start, end)) ==> {
                &&& calculator.ensures((), r)
                &&& final(self)@ == store_result(old(self)@, (start, end), opt_view(r))
                &&& final(self).stats_spec() == (PathStats {
                    cache_misses: bump(old(self).stats_spec().cache_misses),
                    total_paths: if r is Some {
                        bump(old(self).stats_spec().total_paths)
                    } else {
                        old(self).stats_spec().total_paths
                    },
                    ..old(self).stats_spec()
                })
            },
    {
        let found = self.lookup(start, end);
        if found.is_some() {
            self.stats.cache_hits = bumped(self.stats.cache_hits);
            return found;
        }
        self.stats.cache_misses = bumped(self.stats.cache_misses);
        let computed = calculator();
        match computed {
            Some(path) => {
                let stored = copy_path(&path);
                self.entries.push(((start, end), stored));
                proof {
                    assert(self.entries@.drop_last() =~= old(self).entries@);
                }
                self.stats.total_paths = bumped(self.stats.total_paths);
                Some(path)
            },
            None => None,
        }
    }

    /// Drops every stored path; the counters are kept.
    pub fn clear_cache(&mut self)
        ensures
            final(self)@ == Map::<PathKey, Seq<Pos>>::empty(),
            final(self).stats_spec() == old(self).stats_spec(),
    {
        self.entries.clear();
    }

    /// A copy of the counters.
    pub fn get_stats(&self) -> (r: PathStats)
        ensures
            r == self.stats_spec(),
    {
        self.stats
    }

    /// Zeroes the counters; the stored paths are kept.
    pub fn reset_stats(&mut self)
        ensures
            final(self)@ == old(self)@,
            final(self).stats_spec() == (PathStats { cache_hits: 0, cache_misses: 0, total_paths: 0 }),
    {
        self.stats = PathStats { cache_hits: 0, cache_misses: 0, total_paths: 0 };
    }
}

/// Clearing the cache does not change what a query returns, as long as the
/// stored paths are those that the planner would compute again: the answer on
/// the cleared cache equals the answer on the full one.
pub proof fn lemma_clear_then_query(
    cache: Map<PathKey, Seq<Pos>>,
    plan: spec_fn(PathKey) -> Option<Seq<Pos>>,
    key: PathKey,
)
    requires
        agrees_with(cache, plan),
    ensures
        query_answer(Map::empty(), key, plan(key)) == query_answer(cache, key, plan(key)),
        query_answer(Map::empty(), key, plan(key)) == plan(key),
        agrees_with(store_result(Map::empty(), key, plan(key)), plan),
{
}

/// A query whose computation follows `plan` keeps the cache in agreement with it.
pub proof fn lemma_query_keeps_agreement(
    cache: Map<PathKey, Seq<Pos>>,
    plan: spec_fn(PathKey) -> Option<Seq<Pos>>,
    key: PathKey,
)
    requires
        agrees_with(cache, plan),
    ensures
        agrees_with(
            if cache.contains_key(key) {
                cache
            } else {
                store_result(cache, key, plan(key))
            },
            plan,
        ),
{
}

} // verus!
