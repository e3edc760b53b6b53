//! The anonymous view tracker: for each document key, the set of distinct
//! anonymized visitor identifiers seen since boot. The tracker is modeled as
//! a map from key to visitor set; recording is idempotent per visitor.
use vstd::prelude::*;
use crate::text::str_eq;

verus! {

/// The offset basis of the visitor hash.
pub const VISITOR_HASH_OFFSET: u64 = 0xcbf29ce484222325;

/// The multiplier of the visitor hash.
pub const VISITOR_HASH_PRIME: u64 = 0x100000001b3;

/// One step of the visitor hash: fold one character into the state.
pub open spec fn hash_step(h: u64, c: char) -> u64 {
    (h ^ ((c as u32) as u64)).wrapping_mul(VISITOR_HASH_PRIME)
}

/// The visitor hash folded over the characters of `s`.
pub open spec fn hash_fold(h: u64, s: Seq<char>) -> u64
    decreases s.len(),
{
    if s.len() == 0 {
        h
    } else {
        hash_fold(hash_step(h, s[0]), s.drop_first())
    }
}

/// The anonymized visitor identifier for an address: a deterministic salted
/// hash, non-reversible by intent; the salt is drawn anew each boot.
pub open spec fn spec_visitor_id(salt: u64, addr: Seq<char>) -> u64 {
    hash_fold((VISITOR_HASH_OFFSET ^ salt).wrapping_mul(VISITOR_HASH_PRIME), addr)
}

/// Derives the anonymized visitor identifier from the boot salt and the
/// requester's address.
pub fn visitor_id(salt: u64, addr: &str) -> (r: u64)
    ensures
        r == spec_visitor_id(salt, addr@),
{
    let n = addr.unicode_len();
    let mut h: u64 = (VISITOR_HASH_OFFSET ^ salt).wrapping_mul(VISITOR_HASH_PRIME);
    let mut i: usize = 0;
    proof {
        assert(addr@.skip(0) =~= addr@);
    }
    while i < n
        invariant
            0 <= i <= n,
            n == addr@.len(),
            hash_fold(h, addr@.skip(i as int)) == spec_visitor_id(salt, addr@),
        decreases n - i,
    {
        let c = addr.get_char(i);
        proof {
            assert(addr@.skip(i as int)[0] == addr@[i as int]);
            assert(addr@.skip(i as int).drop_first() =~= addr@.skip(i + 1));
        }
        h = (h ^ ((c as u32) as u64)).wrapping_mul(VISITOR_HASH_PRIME);
        i += 1;
    }
    proof {
        assert(addr@.skip(n as int) =~= Seq::<char>::empty());
    }
    h
}

/// One tracked document and the distinct visitors that have requested it.
pub struct ViewEntry {
    pub key: String,
    pub visitors: Vec<u64>,
}

/// The view tracker.
pub struct ViewTracker {
    pub entries: Vec<ViewEntry>,
}

/// The position of the entry for key `k`, or -1 if there is none.
pub open spec fn idx_of(entries: Seq<ViewEntry>, k: Seq<char>) -> int
    decreases entries.len(),
{
    if entries.len() == 0 {
        -1
    } else if entries[0].key@ == k {
        0
    } else {
        let r = idx_of(entries.drop_first(), k);
        if r < 0 {
            -1
        } else {
            r + 1
        }
    }
}

pub proof fn lemma_idx_of(entries: Seq<ViewEntry>, k: Seq<char>)
    ensures
        ({
            let r = idx_of(entries, k);
            &&& -1 <= r < entries.len()
            &&& r >= 0 ==> entries[r].key@ == k
            &&& r >= 0 ==> forall|i: int| 0 <= i < r ==> (#[trigger] entries[i].key@) != k
            &&& r == -1 ==> forall|i: int|
                0 <= i < entries.len() ==> (#[trigger] entries[i].key@) != k
        }),
    decreases entries.len(),
{
    if entries.len() > 0 && entries[0].key@ != k {
        lemma_idx_of(entries.drop_first(), k);
        let rest = entries.drop_first();
        assert forall|i: int| 1 <= i < entries.len() implies entries[i] == rest[i - 1] by {}
    }
}

/// How one key's entry position changes when an entry is appended.
proof fn lemma_idx_of_push(entries: Seq<ViewEntry>, e: ViewEntry, k: Seq<char>)
    ensures
        idx_of(entries.push(e), k) == if idx_of(entries, k) >= 0 {
            idx_of(entries, k)
        } else if e.key@ == k {
            entries.len() as int
        } else {
            -1
        },
    decreases entries.len(),
{
    let p = entries.push(e);
    assert(p.len() == entries.len() + 1);
    if entries.len() == 0 {
        assert(p[0] == e);
        assert(idx_of(entries, k) == -1);
        if e.key@ == k {
            assert(idx_of(p, k) == 0);
        } else {
            assert(p.drop_first() =~= Seq::<ViewEntry>::empty());
            assert(idx_of(p.drop_first(), k) == -1);
            assert(idx_of(p, k) == -1);
        }
    } else {
        lemma_idx_of_push(entries.drop_first(), e, k);
        lemma_idx_of(entries.drop_first(), k);
        assert(p[0] == entries[0]);
        assert(p.drop_first() =~= entries.drop_first().push(e));
        if entries[0].key@ == k {
            assert(idx_of(p, k) == 0);
            assert(idx_of(entries, k) == 0);
        } else {
            let r = idx_of(entries.drop_first(), k);
            let rp = idx_of(p.drop_first(), k);
            assert(rp == if r >= 0 {
                r
            } else if e.key@ == k {
                entries.drop_first().len() as int
            } else {
                -1
            });
            assert(idx_of(p, k) == if rp < 0 {
                -1
            } else {
                rp + 1
            });
            assert(idx_of(entries, k) == if r < 0 {
                -1
            } else {
                r + 1
            });
        }
    }
}

/// Entry positions depend on the keys alone.
proof fn lemma_idx_of_same_keys(a: Seq<ViewEntry>, b: Seq<ViewEntry>, k: Seq<char>)
    requires
        a.len() == b.len(),
        forall|i: int| 0 <= i < a.len() ==> (#[trigger] a[i].key@) == b[i].key@,
    ensures
        idx_of(a, k) == idx_of(b, k),
    decreases a.len(),
{
    if a.len() > 0 {
        assert(a[0].key@ == b[0].key@);
        lemma_idx_of_same_keys(a.drop_first(), b.drop_first(), k);
        assert forall|i: int|
            0 <= i < a.drop_first().len() implies (#[trigger] a.drop_first()[i].key@)
            == b.drop_first()[i].key@ by {
            assert(a.drop_first()[i] == a[i + 1]);
            assert(b.drop_first()[i] == b[i + 1]);
        }
    }
}

/// Whether the vector holds this identifier.
fn vec_contains_u64(v: &Vec<u64>, x: u64) -> (r: bool)
    ensures
        r == v@.contains(x),
{
    let mut i: usize = 0;
    while i < v.len()
        invariant
            0 <= i <= v@.len(),
            forall|k: int| 0 <= k < i ==> v@[k] != x,
        decreases v@.len() - i,
    {
        if v[i] == x {
            assert(v@[i as int] == x);
            return true;
        }
        i += 1;
    }
    false
}

impl ViewTracker {
    /// Well-formed: one entry per key, one occurrence per visitor.
    pub open spec fn wf(&self) -> bool {
        &&& forall|i: int, j: int|
            0 <= i < j < self.entries@.len() ==> (#[trigger] self.entries@[i].key@)
                != (#[trigger] self.entries@[j].key@)
        &&& forall|i: int|
            0 <= i < self.entries@.len() ==> (#[trigger] self.entries@[i].visitors@).no_duplicates()
    }

    /// The tracker as a map from key to the set of visitors recorded for it.
    pub open spec fn as_map(&self) -> Map<Seq<char>, Set<u64>> {
        Map::new(
            |k: Seq<char>| idx_of(self.entries@, k) >= 0,
            |k: Seq<char>| self.entries@[idx_of(self.entries@, k)].visitors@.to_set(),
        )
    }

    /// The number of distinct visitors recorded for a key; zero if unseen.
    pub open spec fn spec_count(&self, k: Seq<char>) -> nat {
        if self.as_map().contains_key(k) {
            self.as_map()[k].len()
        } else {
            0
        }
    }

    /// A fresh tracker: nothing recorded.
    pub fn new() -> (r: ViewTracker)
        ensures
            r.wf(),
            r.as_map() == Map::<Seq<char>, Set<u64>>::empty(),
    {
        let r = ViewTracker { entries: Vec::new() };
        proof {
            assert(r.as_map() =~= Map::<Seq<char>, Set<u64>>::empty());
        }
        r
    }

    /// Records a visit: inserts the visitor into the set for the key,
    /// creating the set if the key is unseen. Idempotent per visitor.
    #[verifier::loop_isolation(false)]
    pub fn record(&mut self, key: &str, visitor: u64)
        requires
            old(self).wf(),
        ensures
            final(self).wf(),
            final(self).as_map() == spec_recorded(old(self).as_map(), key@, visitor),
    {
        let ghost m0 = old(self).as_map();
        let ghost es0 = self.entries@;
        let n = self.entries.len();
        let mut i: usize = 0;
        while i < n
            invariant
                0 <= i <= n,
                n == self.entries@.len(),
                self.entries@ == es0,
                forall|j: int| 0 <= j < i ==> (#[trigger] es0[j].key@) != key@,
            decreases n - i,
        {
            if str_eq(self.entries[i].key.as_str(), key) {
                proof {
                    lemma_idx_of(es0, key@);
                    let r = idx_of(es0, key@);
                    assert(es0[i as int].key@ == key@);
                    if r == -1 {
                        assert(es0[i as int].key@ != key@);
                    } else if r < i {
                        assert(es0[r].key@ != key@);
                    } else if r > i {
                        assert(es0[i as int].key@ != key@);
                    }
                    assert(r == i);
                }
                let e = self.entries.remove(i);
                let ViewEntry { key: ekey, visitors: kept } = e;
                let mut visitors = kept;
                let ghost vs0 = visitors@;
                let present = vec_contains_u64(&visitors, visitor);
                if !present {
                    visitors.push(visitor);
                }
                let e2 = ViewEntry { key: ekey, visitors };
                self.entries.insert(i, e2);
                proof {
                    let es1 = self.entries@;
                    assert(es1 =~= es0.update(i as int, e2));
                    assert(e2.key@ == key@);
                    assert forall|w: int| 0 <= w < es1.len() implies (#[trigger] es1[w].key@)
                        == es0[w].key@ by {
                        if w != i {
                            assert(es1[w] == es0[w]);
                        }
                    }
                    assert forall|k2: Seq<char>| #[trigger] idx_of(es1, k2) == idx_of(es0, k2) by {
                        lemma_idx_of_same_keys(es1, es0, k2);
                    }
                    assert(m0[key@] == vs0.to_set());
                    if present {
                        assert(vs0.contains(visitor));
                        assert(e2.visitors@ == vs0);
                        assert(e2.visitors@.to_set() =~= vs0.to_set().insert(visitor));
                    } else {
                        assert(e2.visitors@ =~= vs0.push(visitor));
                        assert(e2.visitors@.to_set() =~= vs0.to_set().insert(visitor)) by {
                            assert forall|x: u64| e2.visitors@.to_set().contains(x) implies
                                vs0.to_set().insert(visitor).contains(x) by {
                                let w = choose|w: int|
                                    0 <= w < e2.visitors@.len() && e2.visitors@[w] == x;
                                if w < vs0.len() {
                                    assert(vs0[w] == x);
                                }
                            }
                            assert forall|x: u64| vs0.to_set().insert(visitor).contains(x) implies
                                e2.visitors@.to_set().contains(x) by {
                                if x == visitor {
                                    assert(e2.visitors@[vs0.len() as int] == visitor);
                                } else {
                                    let w = choose|w: int| 0 <= w < vs0.len() && vs0[w] == x;
                                    assert(e2.visitors@[w] == x);
                                }
                            }
                        }
                        assert(e2.visitors@.no_duplicates()) by {
                            assert forall|p: int, q: int|
                                0 <= p < q < e2.visitors@.len() implies e2.visitors@[p]
                                != e2.visitors@[q] by {
                                if q == e2.visitors@.len() - 1 {
                                    assert(e2.visitors@[p] == vs0[p]);
                                    if vs0[p] == visitor {
                                        assert(vs0.contains(visitor));
                                    }
                                } else {
                                    assert(e2.visitors@[p] == vs0[p]);
                                    assert(e2.visitors@[q] == vs0[q]);
                                }
                            }
                        }
                    }
                    assert(self.wf()) by {
                        assert forall|a: int|
                            0 <= a < es1.len() implies (#[trigger] es1[a].visitors@).no_duplicates() by {
                            if a != i {
                                assert(es1[a] == es0[a]);
                            }
                        }
                    }
                    assert(self.as_map() =~= spec_recorded(m0, key@, visitor)) by {
                        assert forall|k2: Seq<char>| #[trigger] self.as_map().contains_key(k2) implies
                            self.as_map()[k2] == spec_recorded(m0, key@, visitor)[k2] by {
                            if k2 == key@ {
                                assert(self.as_map()[k2] == e2.visitors@.to_set());
                            } else {
                                let w = idx_of(es0, k2);
                                lemma_idx_of(es0, k2);
                                assert(es0[w].key@ == k2);
                                assert(w != i);
                                assert(es1[w] == es0[w]);
                            }
                        }
                    }
                }
                return ;
            }
            i += 1;
        }
        proof {
            lemma_idx_of(es0, key@);
            if idx_of(es0, key@) >= 0 {
                assert(es0[idx_of(es0, key@)].key@ == key@);
            }
            assert(idx_of(es0, key@) == -1);
            assert(!m0.contains_key(key@));
        }
        let mut visitors: Vec<u64> = Vec::new();
        visitors.push(visitor);
        let e = ViewEntry { key: key.to_owned(), visitors };
        self.entries.push(e);
        proof {
            let es1 = self.entries@;
            assert(es1 =~= es0.push(e));
            assert(e.key@ == key@);
            assert forall|k2: Seq<char>| #[trigger] idx_of(es1, k2) == (if idx_of(es0, k2) >= 0 {
                idx_of(es0, k2)
            } else if k2 == key@ {
                es0.len() as int
            } else {
                -1
            }) by {
                lemma_idx_of_push(es0, e, k2);
            }
            assert(self.wf()) by {
                assert forall|a: int, b: int| 0 <= a < b < es1.len() implies (
                #[trigger] es1[a].key@) != (#[trigger] es1[b].key@) by {
                    assert(es1[a] == es0[a]);
                    if b == es1.len() - 1 {
                        assert(es1[b].key@ == key@);
                        assert(es0[a].key@ != key@);
                    } else {
                        assert(es1[b] == es0[b]);
                    }
                }
                assert forall|a: int|
                    0 <= a < es1.len() implies (#[trigger] es1[a].visitors@).no_duplicates() by {
                    if a < es0.len() {
                        assert(es1[a] == es0[a]);
                    } else {
                        assert(es1[a] == e);
                        assert(e.visitors@ =~= seq![visitor]);
                    }
                }
            }
            assert(self.as_map() =~= spec_recorded(m0, key@, visitor)) by {
                assert(e.visitors@ =~= seq![visitor]);
                assert(seq![visitor].to_set() =~= Set::<u64>::empty().insert(visitor)) by {
                    assert(seq![visitor][0] == visitor);
                    assert forall|x: u64| seq![visitor].to_set().contains(x) implies x
                        == visitor by {
                        let w = choose|w: int| 0 <= w < 1 && seq![visitor][w] == x;
                    }
                }
                assert forall|k2: Seq<char>| #[trigger] self.as_map().contains_key(k2) implies
                    self.as_map()[k2] == spec_recorded(m0, key@, visitor)[k2] by {
                    if k2 == key@ {
                        assert(self.as_map()[k2] == e.visitors@.to_set());
                    } else {
                        let w = idx_of(es0, k2);
                        lemma_idx_of(es0, k2);
                        assert(es1[w] == es0[w]);
                    }
                }
            }
        }
    }

    /// The number of distinct visitors recorded for this key; zero if the
    /// key has never been recorded.
    #[verifier::loop_isolation(false)]
    pub fn count_for(&self, key: &str) -> (r: usize)
        requires
            self.wf(),
        ensures
            r == self.spec_count(key@),
    {
        let ghost es0 = self.entries@;
        proof {
            lemma_idx_of(es0, key@);
        }
        let n = self.entries.len();
        let mut i: usize = 0;
        while i < n
            invariant
                0 <= i <= n,
                n == self.entries@.len(),
                self.wf(),
                es0 == self.entries@,
                forall|j: int| 0 <= j < i ==> (#[trigger] self.entries@[j].key@) != key@,
            decreases n - i,
        {
            if str_eq(self.entries[i].key.as_str(), key) {
                proof {
                    assert(idx_of(es0, key@) == i) by {
                        lemma_idx_of(es0, key@);
                    }
                    assert(self.entries@[i as int].visitors@.no_duplicates());
                    self.entries@[i as int].visitors@.unique_seq_to_set();
                }
                return self.entries[i].visitors.len();
            }
            i += 1;
        }
        proof {
            assert(idx_of(es0, key@) == -1) by {
                lemma_idx_of(es0, key@);
                if idx_of(es0, key@) >= 0 {
                }
            }
        }
        0
    }

    /// One pair per tracked document, in insertion order: its key and its
    /// distinct-visitor count.
    #[verifier::loop_isolation(false)]
    pub fn snapshot(&self) -> (r: Vec<(String, usize)>)
        requires
            self.wf(),
        ensures
            r@.len() == self.entries@.len(),
            forall|i: int|
                0 <= i < r@.len() ==> (#[trigger] r@[i]).0@ == self.entries@[i].key@ && r@[i].1
                    == self.spec_count(self.entries@[i].key@),
    {
        let mut r: Vec<(String, usize)> = Vec::new();
        let n = self.entries.len();
        let mut i: usize = 0;
        while i < n
            invariant
                0 <= i <= n,
                n == self.entries@.len(),
                self.wf(),
                r@.len() == i,
                forall|j: int|
                    0 <= j < i ==> (#[trigger] r@[j]).0@ == self.entries@[j].key@ && r@[j].1
                        == self.spec_count(self.entries@[j].key@),
            decreases n - i,
        {
            let c = self.count_for(self.entries[i].key.as_str());
            r.push((self.entries[i].key.clone(), c));
            i += 1;
        }
        r
    }

    /// The total distinct-visitor count over all tracked documents.
    pub fn total_views(&self) -> (r: u128)
        requires
            self.wf(),
        ensures
            r == spec_total(self.entries@),
    {
        let n = self.entries.len();
        let mut sum: u128 = 0;
        let mut i: usize = 0;
        proof {
            assert(self.entries@.skip(0) =~= self.entries@);
        }
        while i < n
            invariant
                0 <= i <= n,
                n == self.entries@.len(),
                sum <= i * (usize::MAX as u128),
                sum + spec_total(self.entries@.skip(i as int)) == spec_total(self.entries@),
            decreases n - i,
        {
            proof {
                assert(self.entries@.skip(i as int)[0] == self.entries@[i as int]);
                assert(self.entries@.skip(i as int).drop_first() =~= self.entries@.skip(i + 1));
            }
            let c = self.entries[i].visitors.len();
            proof {
                assert(sum + c <= (i + 1) * (usize::MAX as u128)) by (nonlinear_arith)
                    requires
                        sum <= i * (usize::MAX as u128),
                        c <= usize::MAX,
                ;
                assert((i + 1) * (usize::MAX as u128) <= (usize::MAX as u128) * (usize::MAX
                    as u128)) by (nonlinear_arith)
                    requires
                        0 <= i,
                        i + 1 <= usize::MAX,
                ;
                assert((usize::MAX as u128) * (usize::MAX as u128) < u128::MAX)
                    by (nonlinear_arith)
                    requires
                        usize::MAX as u128 <= 0xFFFFFFFFFFFFFFFFu128,
                ;
            }
            sum = sum + c as u128;
            i += 1;
        }
        proof {
            assert(self.entries@.skip(n as int) =~= Seq::<ViewEntry>::empty());
        }
        sum
    }
}

/// The number of visitors recorded per entry, summed in order.
pub open spec fn spec_total(entries: Seq<ViewEntry>) -> int
    decreases entries.len(),
{
    if entries.len() == 0 {
        0
    } else {
        entries[0].visitors@.len() + spec_total(entries.drop_first())
    }
}

/// `p` placed into `s` after every pair counting the same or more: the
/// stable insertion step of a descending sort by count.
pub open spec fn spec_insert_stat(p: (String, usize), s: Seq<(String, usize)>) -> Seq<
    (String, usize),
>
    decreases s.len(),
{
    if s.len() > 0 && s[0].1 >= p.1 {
        seq![s[0]] + spec_insert_stat(p, s.drop_first())
    } else {
        seq![p] + s
    }
}

/// Each pair of `s`, in order, inserted into the accumulator.
pub open spec fn spec_sort_stats_acc(s: Seq<(String, usize)>, acc: Seq<(String, usize)>) -> Seq<
    (String, usize),
>
    decreases s.len(),
{
    if s.len() == 0 {
        acc
    } else {
        spec_sort_stats_acc(s.drop_first(), spec_insert_stat(s[0], acc))
    }
}

/// The pairs sorted by count descending, stably.
pub open spec fn spec_sort_stats(s: Seq<(String, usize)>) -> Seq<(String, usize)> {
    spec_sort_stats_acc(s, Seq::empty())
}

/// Counts never increase along the sequence.
pub open spec fn stats_sorted_desc(s: Seq<(String, usize)>) -> bool {
    forall|i: int, j: int| 0 <= i < j < s.len() ==> (#[trigger] s[i]).1 >= (#[trigger] s[j]).1
}

proof fn lemma_insert_stat_len(p: (String, usize), s: Seq<(String, usize)>)
    ensures
        spec_insert_stat(p, s).len() == s.len() + 1,
    decreases s.len(),
{
    if s.len() > 0 && s[0].1 >= p.1 {
        lemma_insert_stat_len(p, s.drop_first());
    }
}

proof fn lemma_insert_stat_membership(p: (String, usize), s: Seq<(String, usize)>)
    ensures
        forall|k: int|
            0 <= k < spec_insert_stat(p, s).len() ==> (#[trigger] spec_insert_stat(p, s)[k] == p
                || s.contains(spec_insert_stat(p, s)[k])),
    decreases s.len(),
{
    let out = spec_insert_stat(p, s);
    if s.len() > 0 && s[0].1 >= p.1 {
        lemma_insert_stat_membership(p, s.drop_first());
        assert forall|k: int| 0 <= k < out.len() implies (#[trigger] out[k] == p || s.contains(
            out[k],
        )) by {
            if k == 0 {
                assert(s[0] == out[0]);
                assert(s.contains(out[0]));
            } else {
                let inner = spec_insert_stat(p, s.drop_first());
                assert(out[k] == inner[k - 1]);
                if inner[k - 1] == p {
                } else {
                    let j = choose|j: int|
                        0 <= j < s.drop_first().len() && s.drop_first()[j] == inner[k - 1];
                    assert(s[j + 1] == inner[k - 1]);
                }
            }
        }
    } else {
        assert forall|k: int| 0 <= k < out.len() implies (#[trigger] out[k] == p || s.contains(
            out[k],
        )) by {
            if k > 0 {
                assert(out[k] == s[k - 1]);
            }
        }
    }
}

proof fn lemma_insert_stat_sorted(p: (String, usize), s: Seq<(String, usize)>)
    requires
        stats_sorted_desc(s),
    ensures
        stats_sorted_desc(spec_insert_stat(p, s)),
    decreases s.len(),
{
    let out = spec_insert_stat(p, s);
    lemma_insert_stat_len(p, s);
    if s.len() > 0 && s[0].1 >= p.1 {
        let rest = s.drop_first();
        assert(stats_sorted_desc(rest));
        lemma_insert_stat_sorted(p, rest);
        lemma_insert_stat_membership(p, rest);
        let inner = spec_insert_stat(p, rest);
        lemma_insert_stat_len(p, rest);
        assert forall|i: int, j: int| 0 <= i < j < out.len() implies (#[trigger] out[i]).1
            >= (#[trigger] out[j]).1 by {
            if i == 0 {
                assert(out[j] == inner[j - 1]);
                if inner[j - 1] == p {
                } else {
                    let w = choose|w: int| 0 <= w < rest.len() && rest[w] == inner[j - 1];
                    assert(s[w + 1] == inner[j - 1]);
                    assert(s[0].1 >= s[w + 1].1);
                }
            } else {
                assert(out[i] == inner[i - 1]);
                assert(out[j] == inner[j - 1]);
            }
        }
    } else {
        assert forall|i: int, j: int| 0 <= i < j < out.len() implies (#[trigger] out[i]).1
            >= (#[trigger] out[j]).1 by {
            if i == 0 {
                assert(out[j] == s[j - 1]);
                if s.len() > 0 {
                    assert(s[0].1 < p.1);
                    assert(s[0].1 >= s[j - 1].1);
                }
            } else {
                assert(out[i] == s[i - 1]);
                assert(out[j] == s[j - 1]);
            }
        }
    }
}

proof fn lemma_sort_stats_acc_sorted(s: Seq<(String, usize)>, acc: Seq<(String, usize)>)
    requires
        stats_sorted_desc(acc),
    ensures
        stats_sorted_desc(spec_sort_stats_acc(s, acc)),
    decreases s.len(),
{
    if s.len() > 0 {
        lemma_insert_stat_sorted(s[0], acc);
        lemma_sort_stats_acc_sorted(s.drop_first(), spec_insert_stat(s[0], acc));
    }
}

/// The sorted pairs are sorted by count descending.
pub proof fn lemma_sort_stats_sorted(s: Seq<(String, usize)>)
    ensures
        stats_sorted_desc(spec_sort_stats(s)),
{
    lemma_sort_stats_acc_sorted(s, Seq::empty());
}

proof fn lemma_insert_stat_at(p: (String, usize), s: Seq<(String, usize)>, j: int)
    requires
        0 <= j <= s.len(),
        forall|k: int| 0 <= k < j ==> (#[trigger] s[k]).1 >= p.1,
        j < s.len() ==> s[j].1 < p.1,
    ensures
        spec_insert_stat(p, s) == s.insert(j, p),
    decreases j,
{
    if j == 0 {
        assert(seq![p] + s =~= s.insert(0, p));
    } else {
        assert(s[0].1 >= p.1);
        let rest = s.drop_first();
        lemma_insert_stat_at(p, rest, j - 1);
        assert(seq![s[0]] + rest.insert(j - 1, p) =~= s.insert(j, p));
    }
}

/// Sorts key/count pairs by count descending, stably: pairs sharing a count
/// keep their relative order.
pub fn sort_stats(stats: Vec<(String, usize)>) -> (r: Vec<(String, usize)>)
    ensures
        r@ == spec_sort_stats(stats@),
        stats_sorted_desc(r@),
{
    let ghost orig = stats@;
    let mut rem = stats;
    let mut out: Vec<(String, usize)> = Vec::new();
    while rem.len() > 0
        invariant
            spec_sort_stats_acc(rem@, out@) == spec_sort_stats(orig),
        decreases rem@.len(),
    {
        let ghost rem0 = rem@;
        let ghost acc0 = out@;
        let p = rem.remove(0);
        proof {
            assert(rem@ =~= rem0.drop_first());
        }
        let count = p.1;
        let mut j: usize = 0;
        while j < out.len() && out[j].1 >= count
            invariant
                0 <= j <= out@.len(),
                count == p.1,
                forall|k: int| 0 <= k < j ==> (#[trigger] out@[k]).1 >= p.1,
                out@ == acc0,
            decreases out@.len() - j,
        {
            j += 1;
        }
        proof {
            lemma_insert_stat_at(p, acc0, j as int);
        }
        out.insert(j, p);
    }
    proof {
        assert(rem@ =~= Seq::<(String, usize)>::empty());
        lemma_sort_stats_sorted(orig);
    }
    out
}

/// The tracker map after recording one visit: the visitor joins the set for
/// the key, which starts empty if the key is unseen.
pub open spec fn spec_recorded(m: Map<Seq<char>, Set<u64>>, k: Seq<char>, v: u64) -> Map<
    Seq<char>,
    Set<u64>,
> {
    m.insert(
        k,
        (if m.contains_key(k) {
            m[k]
        } else {
            Set::empty()
        }).insert(v),
    )
}

/// Recording is idempotent: recording the same visitor for the same
/// document a second time leaves the tracker map unchanged, so the count
/// for that document does not move.
pub proof fn lemma_record_idempotent(m: Map<Seq<char>, Set<u64>>, k: Seq<char>, v: u64)
    ensures
        spec_recorded(spec_recorded(m, k, v), k, v) == spec_recorded(m, k, v),
{
    let m1 = spec_recorded(m, k, v);
    assert(m1.contains_key(k));
    assert(m1[k].insert(v) =~= m1[k]);
    assert(spec_recorded(m1, k, v) =~= m1);
}

/// Recording a fresh visitor raises the key's count by exactly one;
/// recording a visitor already seen leaves it unchanged.
pub proof fn lemma_record_count(m: Map<Seq<char>, Set<u64>>, k: Seq<char>, v: u64)
    requires
        m.contains_key(k) ==> m[k].finite(),
    ensures
        spec_recorded(m, k, v)[k].len() == if m.contains_key(k) {
            if m[k].contains(v) {
                m[k].len()
            } else {
                m[k].len() + 1
            }
        } else {
            1nat
        },
{
    if m.contains_key(k) {
        if m[k].contains(v) {
            assert(m[k].insert(v) =~= m[k]);
        }
    } else {
        assert(Set::<u64>::empty().insert(v).len() == 1) by {
            assert(Set::<u64>::empty().insert(v) =~= Set::<u64>::empty().insert(v));
        }
    }
}

} // verus!
