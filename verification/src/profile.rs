use vstd::prelude::*;

verus! {

/// One execution-time sample: a function index and a duration in
/// microseconds.
#[derive(Debug)]
pub struct ProfileEntry {
    pub func_index: u32,
    pub duration: u64,
}

pub type ProfileEntries = Vec<ProfileEntry>;

/// Why an import or a module registration failed.
#[derive(Debug, PartialEq, Eq, Structural, Clone, Copy)]
pub enum ProfileError {
    /// A CSV record does not fit the expected schema, or the CSV input
    /// itself is malformed.
    CsvFormat,
    /// The accumulated durations exceed the 64-bit microsecond budget.
    DurationOverflow,
    /// The bytes are not a valid WebAssembly module.
    ModuleDecode,
    /// The module's debug name section exists but is malformed.
    NameSection,
}

impl ProfileError {
    /// A short description, for reporting the failure to a user.
    pub fn message(&self) -> (r: &'static str)
        ensures
            r@ == match *self {
                ProfileError::CsvFormat => "malformed CSV profile record"@,
                ProfileError::DurationOverflow => "durations exceed the accumulator range"@,
                ProfileError::ModuleDecode => "invalid WebAssembly module"@,
                ProfileError::NameSection => "malformed name section"@,
            },
    {
        match self {
            ProfileError::CsvFormat => "malformed CSV profile record",
            ProfileError::DurationOverflow => "durations exceed the accumulator range",
            ProfileError::ModuleDecode => "invalid WebAssembly module",
            ProfileError::NameSection => "malformed name section",
        }
    }
}

/// Sum of the durations of a sequence of samples.
pub open spec fn sum_of(entries: Seq<ProfileEntry>) -> int
    decreases entries.len(),
{
    if entries.len() == 0 {
        0
    } else {
        sum_of(entries.drop_last()) + entries.last().duration
    }
}

/// Sum of the duration values of an association list.
pub open spec fn sum_values(s: Seq<(u32, u64)>) -> int
    decreases s.len(),
{
    if s.len() == 0 {
        0
    } else {
        sum_values(s.drop_last()) + s.last().1
    }
}

/// Each key appears at most once.
pub open spec fn unique_keys<V>(s: Seq<(u32, V)>) -> bool {
    forall|i: int, j: int| 0 <= i < j < s.len() ==> (#[trigger] s[i]).0 != (#[trigger] s[j]).0
}

/// The mapping that an association list denotes; a later pair for the
/// same key supersedes an earlier one.
pub open spec fn assoc_map<V>(s: Seq<(u32, V)>) -> Map<u32, V>
    decreases s.len(),
{
    if s.len() == 0 {
        Map::empty()
    } else {
        assoc_map(s.drop_last()).insert(s.last().0, s.last().1)
    }
}

/// Add a duration into the bucket for `k`, starting the bucket at zero
/// if `k` is new.
pub open spec fn bucket_add(m: Map<u32, int>, k: u32, d: int) -> Map<u32, int> {
    m.insert(k, (if m.dom().contains(k) { m[k] } else { 0 }) + d)
}

/// The profile that a sequence of samples aggregates to: durations of
/// samples with the same function index are summed.
pub open spec fn aggregate(entries: Seq<ProfileEntry>) -> Map<u32, int>
    decreases entries.len(),
{
    if entries.len() == 0 {
        Map::empty()
    } else {
        bucket_add(
            aggregate(entries.drop_last()),
            entries.last().func_index,
            entries.last().duration as int,
        )
    }
}

/// Register a list of (function index, name) pairs, each pair
/// overwriting any earlier name for its key.
pub open spec fn insert_all(
    m: Map<u32, Seq<char>>,
    pairs: Seq<(u32, Seq<char>)>,
) -> Map<u32, Seq<char>>
    decreases pairs.len(),
{
    if pairs.len() == 0 {
        m
    } else {
        insert_all(m, pairs.drop_last()).insert(pairs.last().0, pairs.last().1)
    }
}

/// The view of a list of owned name pairs.
pub open spec fn viewed_pairs(pairs: Seq<(u32, String)>) -> Seq<(u32, Seq<char>)> {
    pairs.map_values(|p: (u32, String)| (p.0, p.1@))
}

/// Accumulated profile state: per-function total durations and
/// per-function display names.
#[derive(Debug)]
pub struct Profiler {
    /// Cumulative duration per function index, in microseconds; keys unique.
    pub profile: Vec<(u32, u64)>,
    /// Declared function names from loaded modules; keys unique.
    pub names: Vec<(u32, String)>,
}

impl Profiler {
    /// Well-formedness: both association lists have unique keys, and the
    /// total duration fits in 64 bits.
    pub open spec fn wf(self) -> bool {
        &&& unique_keys(self.profile@)
        &&& unique_keys(self.names@)
        &&& sum_values(self.profile@) <= u64::MAX
    }

    /// The aggregated duration map.
    pub open spec fn profile_map(self) -> Map<u32, int> {
        assoc_map(self.profile@).map_values(|d: u64| d as int)
    }

    /// The function-name map.
    pub open spec fn name_map(self) -> Map<u32, Seq<char>> {
        assoc_map(self.names@.map_values(|p: (u32, String)| (p.0, p.1@)))
    }
}

proof fn lemma_assoc_dom<V>(s: Seq<(u32, V)>, k: u32)
    ensures
        assoc_map(s).dom().contains(k) <==> exists|i: int| 0 <= i < s.len() && (#[trigger] s[i]).0 == k,
    decreases s.len(),
{
    if s.len() > 0 {
        lemma_assoc_dom(s.drop_last(), k);
        if assoc_map(s).dom().contains(k) {
            if s.last().0 == k {
                assert(s[s.len() - 1].0 == k);
            } else {
                let i = choose|i: int| 0 <= i < s.drop_last().len() && (#[trigger] s.drop_last()[i]).0 == k;
                assert(s[i].0 == k);
            }
        }
        if exists|i: int| 0 <= i < s.len() && (#[trigger] s[i]).0 == k {
            let i = choose|i: int| 0 <= i < s.len() && (#[trigger] s[i]).0 == k;
            if i < s.len() - 1 {
                assert(s.drop_last()[i].0 == k);
            }
        }
    }
}

proof fn lemma_assoc_lookup<V>(s: Seq<(u32, V)>, j: int)
    requires
        unique_keys(s),
        0 <= j < s.len(),
    ensures
        assoc_map(s).dom().contains(s[j].0),
        assoc_map(s)[s[j].0] == s[j].1,
    decreases s.len(),
{
    if j == s.len() - 1 {
    } else {
        assert(unique_keys(s.drop_last()));
        assert(s.drop_last()[j] == s[j]);
        lemma_assoc_lookup(s.drop_last(), j);
        assert(s.last().0 != s[j].0);
    }
}

proof fn lemma_assoc_update<V>(s: Seq<(u32, V)>, j: int, v: V)
    requires
        unique_keys(s),
        0 <= j < s.len(),
    ensures
        unique_keys(s.update(j, (s[j].0, v))),
        assoc_map(s.update(j, (s[j].0, v))) == assoc_map(s).insert(s[j].0, v),
    decreases s.len(),
{
    let s2 = s.update(j, (s[j].0, v));
    assert(unique_keys(s2)) by {
        assert(forall|i: int| 0 <= i < s.len() ==> (#[trigger] s2[i]).0 == s[i].0);
    }
    if j == s.len() - 1 {
        assert(s2.drop_last() =~= s.drop_last());
        assert(s2.last() == (s[j].0, v));
        assert(assoc_map(s2) =~= assoc_map(s).insert(s[j].0, v));
    } else {
        assert(unique_keys(s.drop_last()));
        assert(s.drop_last()[j] == s[j]);
        lemma_assoc_update(s.drop_last(), j, v);
        assert(s2.drop_last() =~= s.drop_last().update(j, (s[j].0, v)));
        assert(s2.last() == s.last());
        assert(s.last().0 != s[j].0);
        assert(assoc_map(s2) =~= assoc_map(s).insert(s[j].0, v));
    }
}

proof fn lemma_sum_values_update(s: Seq<(u32, u64)>, j: int, v: u64)
    requires
        0 <= j < s.len(),
    ensures
        sum_values(s.update(j, (s[j].0, v))) == sum_values(s) - s[j].1 + v,
    decreases s.len(),
{
    let s2 = s.update(j, (s[j].0, v));
    if j == s.len() - 1 {
        assert(s2.drop_last() =~= s.drop_last());
    } else {
        assert(s2.drop_last() =~= s.drop_last().update(j, (s[j].0, v)));
        assert(s.drop_last()[j] == s[j]);
        lemma_sum_values_update(s.drop_last(), j, v);
        assert(s2.last() == s.last());
    }
}

pub proof fn lemma_value_le_sum(s: Seq<(u32, u64)>, j: int)
    requires
        0 <= j < s.len(),
    ensures
        s[j].1 <= sum_values(s),
    decreases s.len(),
{
    lemma_sum_values_nonneg(s.drop_last());
    if j < s.len() - 1 {
        assert(s.drop_last()[j] == s[j]);
        lemma_value_le_sum(s.drop_last(), j);
    }
}

pub proof fn lemma_sum_values_nonneg(s: Seq<(u32, u64)>)
    ensures
        sum_values(s) >= 0,
    decreases s.len(),
{
    if s.len() > 0 {
        lemma_sum_values_nonneg(s.drop_last());
    }
}

pub proof fn lemma_sum_values_prefix(s: Seq<(u32, u64)>, i: int)
    requires
        0 <= i <= s.len(),
    ensures
        sum_values(s.take(i)) <= sum_values(s),
    decreases s.len(),
{
    if i == s.len() {
        assert(s.take(i) =~= s);
    } else {
        assert(s.take(i) =~= s.drop_last().take(i));
        lemma_sum_values_prefix(s.drop_last(), i);
    }
}

pub proof fn lemma_sum_of_prefix(entries: Seq<ProfileEntry>, i: int)
    requires
        0 <= i <= entries.len(),
    ensures
        sum_of(entries.take(i)) <= sum_of(entries),
    decreases entries.len(),
{
    if i == entries.len() {
        assert(entries.take(i) =~= entries);
    } else {
        assert(entries.take(i) =~= entries.drop_last().take(i));
        lemma_sum_of_prefix(entries.drop_last(), i);
    }
}

impl Profiler {
    /// Fresh, empty state.
    pub fn new() -> (p: Profiler)
        ensures
            p.wf(),
            p.profile_map() == Map::<u32, int>::empty(),
            p.name_map() == Map::<u32, Seq<char>>::empty(),
            p.profile@ =~= Seq::<(u32, u64)>::empty(),
            p.names@ =~= Seq::<(u32, String)>::empty(),
    {
        let p = Profiler { profile: Vec::new(), names: Vec::new() };
        proof {
            assert(p.profile_map() =~= Map::<u32, int>::empty());
            assert(p.names@.map_values(|q: (u32, String)| (q.0, q.1@))
                =~= Seq::<(u32, Seq<char>)>::empty());
            assert(p.name_map() =~= Map::<u32, Seq<char>>::empty());
        }
        p
    }

    /// Fold a sequence of samples into an aggregated profile; durations
    /// of samples with the same function index are summed, not
    /// overwritten. No names are known yet.
    pub fn import_profile(entries: ProfileEntries) -> (p: Profiler)
        requires
            sum_of(entries@) <= u64::MAX,
        ensures
            p.wf(),
            p.profile_map() == aggregate(entries@),
            p.name_map() == Map::<u32, Seq<char>>::empty(),
            sum_values(p.profile@) == sum_of(entries@),
    {
        let mut p = Profiler::new();
        let mut i: usize = 0;
        proof {
            assert(entries@.take(0) =~= Seq::<ProfileEntry>::empty());
        }
        while i < entries.len()
            invariant
                0 <= i <= entries@.len(),
                sum_of(entries@) <= u64::MAX,
                unique_keys(p.profile@),
                p.names@ =~= Seq::<(u32, String)>::empty(),
                sum_values(p.profile@) == sum_of(entries@.take(i as int)),
                p.profile_map() == aggregate(entries@.take(i as int)),
            decreases entries@.len() - i,
        {
            let k = entries[i].func_index;
            let d = entries[i].duration;
            let ghost pre = entries@.take(i as int);
            let ghost post = entries@.take(i + 1);
            proof {
                assert(post.drop_last() =~= pre);
                assert(post.last() == entries@[i as int]);
                lemma_sum_of_prefix(entries@, i + 1);
                lemma_sum_values_nonneg(p.profile@);
            }
            match find_key_u64(&p.profile, k) {
                Some(j) => {
                    proof {
                        lemma_value_le_sum(p.profile@, j as int);
                        lemma_assoc_lookup(p.profile@, j as int);
                        lemma_assoc_update(p.profile@, j as int, (p.profile@[j as int].1 + d) as u64);
                        lemma_sum_values_update(
                            p.profile@,
                            j as int,
                            (p.profile@[j as int].1 + d) as u64,
                        );
                    }
                    let prev = p.profile[j].1;
                    p.profile.set(j, (k, prev + d));
                    proof {
                        assert(p.profile_map() =~= aggregate(post));
                    }
                },
                None => {
                    proof {
                        lemma_assoc_dom(p.profile@, k);
                        assert(p.profile@.push((k, d)).drop_last() =~= p.profile@);
                        assert(unique_keys(p.profile@.push((k, d)))) by {
                            assert(forall|t: int|
                                0 <= t < p.profile@.len() ==> (#[trigger] p.profile@.push(
                                    (k, d),
                                )[t]) == p.profile@[t]);
                        }
                    }
                    p.profile.push((k, d));
                    proof {
                        assert(p.profile_map() =~= aggregate(post));
                    }
                },
            }
            i = i + 1;
        }
        proof {
            assert(entries@.take(i as int) =~= entries@);
            assert(p.name_map() =~= Map::<u32, Seq<char>>::empty());
        }
        p
    }

    /// Record a list of declared function names, each pair overwriting
    /// any earlier name for the same function index. The aggregated
    /// profile is never touched by name registration.
    pub fn register_function_names(&mut self, pairs: Vec<(u32, String)>)
        requires
            old(self).wf(),
        ensures
            final(self).wf(),
            final(self).profile@ == old(self).profile@,
            final(self).name_map() == insert_all(old(self).name_map(), viewed_pairs(pairs@)),
    {
        let ghost vp = viewed_pairs(pairs@);
        let mut i: usize = 0;
        proof {
            assert(viewed_pairs(pairs@.take(0)) =~= vp.take(0));
            assert(vp.take(0) =~= Seq::<(u32, Seq<char>)>::empty());
        }
        while i < pairs.len()
            invariant
                0 <= i <= pairs@.len(),
                vp == viewed_pairs(pairs@),
                vp.len() == pairs@.len(),
                self.wf(),
                self.profile@ == old(self).profile@,
                self.name_map() == insert_all(old(self).name_map(), vp.take(i as int)),
            decreases pairs@.len() - i,
        {
            let k = pairs[i].0;
            let nm = pairs[i].1.clone();
            let ghost pre = vp.take(i as int);
            let ghost post = vp.take(i + 1);
            proof {
                assert(post.drop_last() =~= pre);
                assert(post.last() == vp[i as int]);
                assert(vp[i as int] == (pairs@[i as int].0, pairs@[i as int].1@));
            }
            self.insert_name(k, nm);
            proof {
                assert(self.name_map() =~= insert_all(old(self).name_map(), post));
            }
            i = i + 1;
        }
        proof {
            assert(vp.take(i as int) =~= vp);
        }
    }

    /// Insert one (function index, name) pair, overwriting any earlier
    /// name for that index.
    fn insert_name(&mut self, k: u32, nm: String)
        requires
            old(self).wf(),
        ensures
            final(self).wf(),
            final(self).profile@ == old(self).profile@,
            final(self).name_map() == old(self).name_map().insert(k, nm@),
    {
        let ghost vs = self.names@.map_values(|p: (u32, String)| (p.0, p.1@));
        proof {
            assert(unique_keys(vs)) by {
                assert(forall|t: int|
                    0 <= t < self.names@.len() ==> (#[trigger] vs[t]).0 == self.names@[t].0);
            }
        }
        match find_key_str(&self.names, k) {
            Some(j) => {
                proof {
                    assert(vs[j as int].0 == k);
                    lemma_assoc_update(vs, j as int, nm@);
                }
                self.names.set(j, (k, nm));
                proof {
                    let vs2 = self.names@.map_values(|p: (u32, String)| (p.0, p.1@));
                    assert(vs2 =~= vs.update(j as int, (k, nm@)));
                    assert(unique_keys(self.names@)) by {
                        assert(forall|t: int|
                            0 <= t < self.names@.len() ==> (#[trigger] self.names@[t]).0 == (
                            if t == j as int {
                                k
                            } else {
                                old(self).names@[t].0
                            }));
                    }
                }
            },
            None => {
                proof {
                    lemma_assoc_dom(vs, k);
                    assert(forall|t: int|
                        0 <= t < vs.len() ==> (#[trigger] vs[t]).0 == self.names@[t].0);
                }
                self.names.push((k, nm));
                proof {
                    let vs2 = self.names@.map_values(|p: (u32, String)| (p.0, p.1@));
                    assert(vs2 =~= vs.push((k, nm@)));
                    assert(vs2.drop_last() =~= vs);
                    assert(unique_keys(self.names@)) by {
                        assert(forall|t: int|
                            0 <= t < old(self).names@.len() ==> #[trigger] self.names@[t]
                                == old(self).names@[t]);
                    }
                }
            },
        }
    }

    /// The declared name for a function index, if one was registered.
    pub fn lookup_name(&self, k: u32) -> (r: Option<String>)
        requires
            self.wf(),
        ensures
            match r {
                Some(nm) => self.name_map().dom().contains(k) && nm@ == self.name_map()[k],
                None => !self.name_map().dom().contains(k),
            },
    {
        let ghost vs = self.names@.map_values(|p: (u32, String)| (p.0, p.1@));
        proof {
            assert(forall|t: int|
                0 <= t < self.names@.len() ==> (#[trigger] vs[t]) == (
                self.names@[t].0,
                self.names@[t].1@,
            ));
            assert(unique_keys(vs));
        }
        match find_key_str(&self.names, k) {
            Some(j) => {
                proof {
                    lemma_assoc_lookup(vs, j as int);
                }
                Some(self.names[j].1.clone())
            },
            None => {
                proof {
                    lemma_assoc_dom(vs, k);
                }
                None
            },
        }
    }
}

proof fn lemma_aggregate_swap_last(s: Seq<ProfileEntry>, a: ProfileEntry, b: ProfileEntry)
    ensures
        aggregate(s.push(a).push(b)) == aggregate(s.push(b).push(a)),
{
    let m = aggregate(s);
    assert(s.push(a).drop_last() =~= s);
    assert(s.push(b).drop_last() =~= s);
    assert(s.push(a).push(b).drop_last() =~= s.push(a));
    assert(s.push(b).push(a).drop_last() =~= s.push(b));
    assert(aggregate(s.push(a)) == bucket_add(m, a.func_index, a.duration as int));
    assert(aggregate(s.push(b)) == bucket_add(m, b.func_index, b.duration as int));
    assert(aggregate(s.push(a).push(b)) == bucket_add(
        bucket_add(m, a.func_index, a.duration as int),
        b.func_index,
        b.duration as int,
    ));
    assert(aggregate(s.push(b).push(a)) == bucket_add(
        bucket_add(m, b.func_index, b.duration as int),
        a.func_index,
        a.duration as int,
    ));
    assert(bucket_add(bucket_add(m, a.func_index, a.duration as int), b.func_index, b.duration as int)
        =~= bucket_add(bucket_add(m, b.func_index, b.duration as int), a.func_index, a.duration as int));
}

proof fn lemma_aggregate_move_to_end(s: Seq<ProfileEntry>, i: int)
    requires
        0 <= i < s.len(),
    ensures
        aggregate(s) == aggregate(s.remove(i).push(s[i])),
    decreases s.len(),
{
    if i == s.len() - 1 {
        assert(s.remove(i).push(s[i]) =~= s);
    } else {
        let t = s.drop_last();
        let last = s.last();
        lemma_aggregate_move_to_end(t, i);
        assert(t.remove(i).push(t[i]).push(last).drop_last() =~= t.remove(i).push(t[i]));
        lemma_aggregate_swap_last(t.remove(i), t[i], last);
        assert(s.remove(i) =~= t.remove(i).push(last));
        assert(s.remove(i).push(s[i]) =~= t.remove(i).push(last).push(t[i]));
        assert(t.remove(i).push(last).push(t[i]).drop_last() =~= t.remove(i).push(last));
        assert(t.remove(i).push(last).drop_last() =~= t.remove(i));
        assert(aggregate(s) == aggregate(t.remove(i).push(t[i]).push(last)));
    }
}

/// Law: aggregation is order-independent. Any two sample sequences that
/// are permutations of each other (equal as multisets) aggregate to the
/// same profile.
pub proof fn lemma_aggregate_permutation(s1: Seq<ProfileEntry>, s2: Seq<ProfileEntry>)
    requires
        s1.to_multiset() == s2.to_multiset(),
    ensures
        aggregate(s1) == aggregate(s2),
    decreases s1.len(),
{
    broadcast use vstd::seq_lib::group_to_multiset_ensures;

    s1.to_multiset_ensures();
    s2.to_multiset_ensures();
    assert(s1.len() == s2.len());
    if s1.len() == 0 {
    } else {
        let a = s1.last();
        assert(s1.contains(a));
        assert(s1.to_multiset().count(a) > 0);
        assert(s2.contains(a));
        let j = choose|j: int| 0 <= j < s2.len() && s2[j] == a;
        lemma_aggregate_move_to_end(s2, j);
        let t2 = s2.remove(j);
        assert(s1.drop_last() =~= s1.remove(s1.len() - 1));
        assert(s1.drop_last().to_multiset() == s1.to_multiset().remove(a));
        assert(t2.to_multiset() == s2.to_multiset().remove(a));
        lemma_aggregate_permutation(s1.drop_last(), t2);
        assert(t2.push(a).drop_last() =~= t2);
        assert(aggregate(s1) == bucket_add(
            aggregate(s1.drop_last()),
            a.func_index,
            a.duration as int,
        ));
    }
}

/// Law: a second registration of names for the same keys supersedes the
/// first; for every key that `pairs` covers, the resulting name depends
/// only on `pairs`, not on what was registered before.
pub proof fn lemma_register_overwrites(
    m1: Map<u32, Seq<char>>,
    m2: Map<u32, Seq<char>>,
    pairs: Seq<(u32, Seq<char>)>,
    k: u32,
)
    requires
        exists|i: int| 0 <= i < pairs.len() && (#[trigger] pairs[i]).0 == k,
    ensures
        insert_all(m1, pairs).dom().contains(k),
        insert_all(m2, pairs).dom().contains(k),
        insert_all(m1, pairs)[k] == insert_all(m2, pairs)[k],
    decreases pairs.len(),
{
    let i = choose|i: int| 0 <= i < pairs.len() && (#[trigger] pairs[i]).0 == k;
    if pairs.last().0 == k {
    } else {
        assert(pairs.drop_last()[i] == pairs[i]);
        lemma_register_overwrites(m1, m2, pairs.drop_last(), k);
    }
}

/// Whether some pair in `pairs` has key `k`.
pub open spec fn key_listed(pairs: Seq<(u32, Seq<char>)>, k: u32) -> bool {
    exists|i: int| 0 <= i < pairs.len() && (#[trigger] pairs[i]).0 == k
}

proof fn lemma_insert_all_unlisted(m: Map<u32, Seq<char>>, pairs: Seq<(u32, Seq<char>)>, k: u32)
    ensures
        insert_all(m, pairs).dom().contains(k) <==> m.dom().contains(k) || key_listed(pairs, k),
        !key_listed(pairs, k) && m.dom().contains(k) ==> insert_all(m, pairs)[k] == m[k],
    decreases pairs.len(),
{
    if pairs.len() > 0 {
        let dl = pairs.drop_last();
        lemma_insert_all_unlisted(m, dl, k);
        assert(forall|i: int| 0 <= i < dl.len() ==> (#[trigger] dl[i]) == pairs[i]);
        if key_listed(dl, k) {
            let i = choose|i: int| 0 <= i < dl.len() && (#[trigger] dl[i]).0 == k;
            assert(pairs[i].0 == k);
            assert(key_listed(pairs, k));
        }
        if pairs.last().0 == k {
            assert(pairs[pairs.len() - 1].0 == k);
            assert(key_listed(pairs, k));
        }
        if key_listed(pairs, k) && pairs.last().0 != k {
            let i = choose|i: int| 0 <= i < pairs.len() && (#[trigger] pairs[i]).0 == k;
            assert(i < dl.len());
            assert(dl[i].0 == k);
            assert(key_listed(dl, k));
        }
    }
}

/// Law: registering the same name data twice gives exactly what one
/// registration gives.
pub proof fn lemma_register_idempotent(m: Map<u32, Seq<char>>, pairs: Seq<(u32, Seq<char>)>)
    ensures
        insert_all(insert_all(m, pairs), pairs) == insert_all(m, pairs),
{
    let r1 = insert_all(m, pairs);
    let r2 = insert_all(r1, pairs);
    assert forall|k: u32|
        (#[trigger] r2.dom().contains(k) <==> #[trigger] r1.dom().contains(k)) && (
        r1.dom().contains(k) ==> r2[k] == r1[k]) by {
        lemma_insert_all_unlisted(m, pairs, k);
        lemma_insert_all_unlisted(r1, pairs, k);
        if key_listed(pairs, k) {
            lemma_register_overwrites(r1, m, pairs, k);
        }
    }
    assert(r2.dom() =~= r1.dom());
    assert(r2 =~= r1);
}

/// Whether the total of all sample durations fits the 64-bit
/// microsecond accumulator, so that `import_profile` may be called.
pub fn durations_fit(entries: &ProfileEntries) -> (b: bool)
    ensures
        b <==> sum_of(entries@) <= u64::MAX,
{
    let mut acc: u128 = 0;
    let mut j: usize = 0;
    proof {
        assert(entries@.take(0) =~= Seq::<ProfileEntry>::empty());
    }
    while j < entries.len()
        invariant
            0 <= j <= entries@.len(),
            acc as int == sum_of(entries@.take(j as int)),
            acc <= u64::MAX,
        decreases entries@.len() - j,
    {
        proof {
            assert(entries@.take(j + 1).drop_last() =~= entries@.take(j as int));
            assert(entries@.take(j + 1).last() == entries@[j as int]);
        }
        acc = acc + entries[j].duration as u128;
        j = j + 1;
        if acc > u64::MAX as u128 {
            proof {
                lemma_sum_of_prefix(entries@, j as int);
            }
            return false;
        }
    }
    proof {
        assert(entries@.take(j as int) =~= entries@);
    }
    true
}

/// First position holding key `k`, if any.
fn find_key_u64(v: &Vec<(u32, u64)>, k: u32) -> (r: Option<usize>)
    ensures
        match r {
            Some(j) => j < v@.len() && v@[j as int].0 == k,
            None => forall|i: int| 0 <= i < v@.len() ==> (#[trigger] v@[i]).0 != k,
        },
{
    let mut j: usize = 0;
    while j < v.len()
        invariant
            0 <= j <= v@.len(),
            forall|i: int| 0 <= i < j ==> (#[trigger] v@[i]).0 != k,
        decreases v@.len() - j,
    {
        if v[j].0 == k {
            return Some(j);
        }
        j = j + 1;
    }
    None
}

/// First position holding key `k`, if any.
fn find_key_str(v: &Vec<(u32, String)>, k: u32) -> (r: Option<usize>)
    ensures
        match r {
            Some(j) => j < v@.len() && v@[j as int].0 == k,
            None => forall|i: int| 0 <= i < v@.len() ==> (#[trigger] v@[i]).0 != k,
        },
{
    let mut j: usize = 0;
    while j < v.len()
        invariant
            0 <= j <= v@.len(),
            forall|i: int| 0 <= i < j ==> (#[trigger] v@[i]).0 != k,
        decreases v@.len() - j,
    {
        if v[j].0 == k {
            return Some(j);
        }
        j = j + 1;
    }
    None
}

} // verus!
