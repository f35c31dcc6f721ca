//! Knowledge base: shared per-type retrieval storage.
//!
//! The knowledge base keeps a separate index per pod type, so a planner pod
//! and a code generator pod do not share one space. Pods contribute outputs
//! to the index of their type; queries are routed to the index of the type
//! they name. Every entry gets an identifier that no other entry has, and
//! feedback on an entry counts how often it was useful.
use crate::text::same_text;
use vstd::prelude::*;

verus! {

/// Configuration for a per-type knowledge index.
#[derive(Clone, Copy, Debug)]
pub struct IndexConfig;

/// Metadata attached to a knowledge base entry.
#[derive(Clone, Copy, Debug)]
pub struct EntryMetadata;

/// Unique identifier for a knowledge base entry.
#[derive(Clone, Copy, Debug, PartialEq, Eq, Structural)]
pub struct EntryId(u64);

impl View for EntryId {
    type V = u64;

    closed spec fn view(&self) -> u64 {
        self.0
    }
}

/// A single knowledge base entry: its identifier, content, metadata and
/// the feedback it received.
#[derive(Debug)]
pub struct KnowledgeEntry {
    pub id: EntryId,
    pub content: String,
    pub metadata: EntryMetadata,
    /// Times the entry was reported useful.
    pub useful: u64,
    /// Times the entry was reported not useful.
    pub not_useful: u64,
}

/// The mathematical content of a [`KnowledgeEntry`].
pub struct EntryView {
    pub id: u64,
    pub content: Seq<char>,
    pub useful: u64,
    pub not_useful: u64,
}

impl View for KnowledgeEntry {
    type V = EntryView;

    open spec fn view(&self) -> EntryView {
        EntryView {
            id: self.id@,
            content: self.content@,
            useful: self.useful,
            not_useful: self.not_useful,
        }
    }
}

impl KnowledgeEntry {
    /// An entry with the same identifier, content, metadata and feedback.
    pub fn duplicate(&self) -> (r: KnowledgeEntry)
        ensures
            r@ == self@,
    {
        KnowledgeEntry {
            id: self.id,
            content: self.content.clone(),
            metadata: self.metadata,
            useful: self.useful,
            not_useful: self.not_useful,
        }
    }
}

/// What can go wrong in the knowledge base.
#[derive(Clone, Copy, Debug, PartialEq, Eq, Structural)]
pub enum KnowledgeError {
    /// The pod type already has an index.
    TypeAlreadyRegistered,
    /// No index has been registered for the pod type.
    UnknownType,
    /// No entry carries the identifier.
    UnknownEntry,
    /// Every entry identifier has been given out.
    IdsExhausted,
    /// The relevance list does not give one score per entry of the index.
    RelevanceMismatch,
    /// Stored indices name a type twice, give two entries one identifier,
    /// or use the identifier `u64::MAX`: no knowledge base saved them.
    CorruptSnapshot,
}

/// Stored indices as views: each type name with its entries, in order.
pub open spec fn stored_view(s: Seq<(String, Vec<KnowledgeEntry>)>) -> Seq<(Seq<char>, Seq<EntryView>)> {
    s.map_values(|p: (String, Vec<KnowledgeEntry>)| (p.0@, entry_views(p.1@)))
}

/// The entries of each type named in the stored indices `s`.
pub open spec fn snapshot_map(s: Seq<(Seq<char>, Seq<EntryView>)>) -> Map<Seq<char>, Seq<EntryView>> {
    Map::new(
        |t: Seq<char>| exists|i: int| 0 <= i < s.len() && #[trigger] s[i].0 == t,
        |t: Seq<char>| s[choose|i: int| 0 <= i < s.len() && #[trigger] s[i].0 == t].1,
    )
}

/// No type is stored twice.
pub open spec fn names_distinct(s: Seq<(Seq<char>, Seq<EntryView>)>) -> bool {
    forall|a: int, b: int| 0 <= a < s.len() && 0 <= b < s.len() && a != b ==> #[trigger] s[a].0 != #[trigger] s[b].0
}

/// Stored indices that a knowledge base can have saved: every type once,
/// every identifier once and below `u64::MAX`.
pub open spec fn snapshot_valid(s: Seq<(Seq<char>, Seq<EntryView>)>) -> bool {
    &&& names_distinct(s)
    &&& ids_fresh(snapshot_map(s), u64::MAX)
}

/// One more than the largest identifier in `es`, or 0 when it is empty.
pub open spec fn bound_of(es: Seq<EntryView>) -> nat
    decreases es.len(),
{
    if es.len() == 0 {
        0
    } else {
        let b = bound_of(es.drop_last());
        if es.last().id + 1 > b {
            (es.last().id + 1) as nat
        } else {
            b
        }
    }
}

/// One more than the largest identifier in the stored indices, or 0 when
/// they hold no entry: the identifier a restored knowledge base gives next.
pub open spec fn next_after(s: Seq<(Seq<char>, Seq<EntryView>)>) -> nat
    decreases s.len(),
{
    if s.len() == 0 {
        0
    } else {
        let b = next_after(s.drop_last());
        let c = bound_of(s.last().1);
        if c > b {
            c
        } else {
            b
        }
    }
}

/// Trait for pluggable storage backends.
pub trait StorageBackend {
    /// The indices the backend holds.
    spec fn contents(&self) -> Seq<(Seq<char>, Seq<EntryView>)>;

    /// The backend's saves and loads always succeed (as in memory); a
    /// backend that can fail (a disk, a service) says `false`.
    spec fn never_fails() -> bool;

    /// Persist the given indices to storage: once saved, they are what the
    /// backend holds.
    fn save(&mut self, indices: &[(String, Vec<KnowledgeEntry>)]) -> (r: Result<(), KnowledgeError>)
        requires
            snapshot_valid(stored_view(indices@)),
        ensures
            r is Ok ==> final(self).contents() == stored_view(indices@),
            Self::never_fails() ==> r is Ok,
    ;

    /// Load indices from storage: what the backend holds.
    fn load(&self) -> (r: Result<Vec<(String, Vec<KnowledgeEntry>)>, KnowledgeError>)
        ensures
            r matches Ok(v) ==> stored_view(v@) == self.contents(),
            Self::never_fails() ==> r is Ok,
    ;
}

/// Copy stored indices.
fn copy_indices(indices: &[(String, Vec<KnowledgeEntry>)]) -> (r: Vec<(String, Vec<KnowledgeEntry>)>)
    ensures
        stored_view(r@) == stored_view(indices@),
{
    let mut r: Vec<(String, Vec<KnowledgeEntry>)> = Vec::new();
    let mut i: usize = 0;
    while i < indices.len()
        invariant
            i <= indices.len(),
            r.len() == i,
            forall|q: int| 0 <= q < i ==> #[trigger] stored_view(r@)[q] == stored_view(indices@)[q],
        decreases indices.len() - i,
    {
        let entries = &indices[i].1;
        let mut copy: Vec<KnowledgeEntry> = Vec::new();
        let mut k: usize = 0;
        while k < entries.len()
            invariant
                k <= entries.len(),
                copy.len() == k,
                forall|q: int| 0 <= q < k ==> #[trigger] copy@[q]@ == entries@[q]@,
            decreases entries.len() - k,
        {
            copy.push(entries[k].duplicate());
            k = k + 1;
        }
        assert(entry_views(copy@) =~= entry_views(entries@));
        let ghost before = r@;
        let name = indices[i].0.clone();
        r.push((name, copy));
        proof {
            assert forall|q: int| 0 <= q < i + 1 implies #[trigger] stored_view(r@)[q] == stored_view(indices@)[q] by {
                if q < i {
                    assert(r@[q] == before[q]);
                    assert(stored_view(before)[q] == stored_view(indices@)[q]);
                }
            }
        }
        i = i + 1;
    }
    assert(stored_view(r@) =~= stored_view(indices@));
    r
}

/// In-memory storage backend for development and testing: it holds the
/// indices last saved, until it is dropped.
#[derive(Debug)]
pub struct InMemoryStorage {
    indices: Vec<(String, Vec<KnowledgeEntry>)>,
}

impl InMemoryStorage {
    #[verifier::type_invariant]
    closed spec fn valid(&self) -> bool {
        snapshot_valid(stored_view(self.indices@))
    }

    /// A backend that holds no index.
    pub fn new() -> (s: InMemoryStorage)
        ensures
            s.contents() == Seq::<(Seq<char>, Seq<EntryView>)>::empty(),
    {
        let s = InMemoryStorage { indices: Vec::new() };
        assert(stored_view(s.indices@) =~= Seq::<(Seq<char>, Seq<EntryView>)>::empty());
        assert(snapshot_map(stored_view(s.indices@)) =~= Map::<Seq<char>, Seq<EntryView>>::empty());
        s
    }
}

impl StorageBackend for InMemoryStorage {
    closed spec fn contents(&self) -> Seq<(Seq<char>, Seq<EntryView>)> {
        stored_view(self.indices@)
    }

    open spec fn never_fails() -> bool {
        true
    }

    fn save(&mut self, indices: &[(String, Vec<KnowledgeEntry>)]) -> (r: Result<(), KnowledgeError>)
        ensures
            r is Ok,
            snapshot_valid(final(self).contents()),
    {
        let copy = copy_indices(indices);
        *self = InMemoryStorage { indices: copy };
        Ok(())
    }

    fn load(&self) -> (r: Result<Vec<(String, Vec<KnowledgeEntry>)>, KnowledgeError>)
        ensures
            r is Ok,
            snapshot_valid(self.contents()),
    {
        proof {
            use_type_invariant(self);
        }
        Ok(copy_indices(self.indices.as_slice()))
    }
}

/// The index of one pod type.
#[derive(Debug)]
struct TypeIndex {
    pod_type: String,
    config: IndexConfig,
    entries: Vec<KnowledgeEntry>,
}

/// The entries of an index, as views.
pub open spec fn entry_views(entries: Seq<KnowledgeEntry>) -> Seq<EntryView> {
    entries.map_values(|e: KnowledgeEntry| e@)
}

/// `e` with one more vote of the given kind; a count that reached
/// `u64::MAX` stays there.
pub open spec fn rated(e: EntryView, was_useful: bool) -> EntryView {
    if was_useful {
        EntryView {
            useful: if e.useful < u64::MAX {
                (e.useful + 1) as u64
            } else {
                e.useful
            },
            ..e
        }
    } else {
        EntryView {
            not_useful: if e.not_useful < u64::MAX {
                (e.not_useful + 1) as u64
            } else {
                e.not_useful
            },
            ..e
        }
    }
}

/// `m` after feedback on the entries identified by `id`.
pub open spec fn after_feedback(m: Map<Seq<char>, Seq<EntryView>>, id: u64, was_useful: bool) -> Map<
    Seq<char>,
    Seq<EntryView>,
> {
    m.map_values(
        |es: Seq<EntryView>|
            es.map_values(|e: EntryView| if e.id == id { rated(e, was_useful) } else { e }),
    )
}

/// Some entry of `m` carries identifier `id`.
pub open spec fn has_entry(m: Map<Seq<char>, Seq<EntryView>>, id: u64) -> bool {
    exists|t: Seq<char>, k: int|
        m.contains_key(t) && 0 <= k < m[t].len() && #[trigger] m[t][k].id == id
}

/// Every identifier in `m` is below `issued`, and no two entries share one.
pub open spec fn ids_fresh(m: Map<Seq<char>, Seq<EntryView>>, issued: u64) -> bool {
    &&& forall|t: Seq<char>, k: int|
        m.contains_key(t) && 0 <= k < m[t].len() ==> #[trigger] m[t][k].id < issued
    &&& forall|t1: Seq<char>, k1: int, t2: Seq<char>, k2: int|
        m.contains_key(t1) && m.contains_key(t2) && 0 <= k1 < m[t1].len() && 0 <= k2 < m[t2].len()
            && #[trigger] m[t1][k1].id == #[trigger] m[t2][k2].id ==> t1 == t2 && k1 == k2
}

/// Under relevance `rel`, entry `a` ranks before entry `b`: it is more
/// relevant, or as relevant and indexed earlier.
pub open spec fn ranks_before(rel: Seq<u64>, a: int, b: int) -> bool {
    rel[a] > rel[b] || (rel[a] == rel[b] && a < b)
}

/// How many entries a query for `top_k` of `len` entries returns.
pub open spec fn top_count(top_k: nat, len: nat) -> nat {
    if top_k < len {
        top_k
    } else {
        len
    }
}

/// `picks` are the positions of the `count` best-ranked entries under
/// `rel`, best first: distinct positions, each ranked before the next and
/// before every position left out.
pub open spec fn is_top(rel: Seq<u64>, picks: Seq<int>, count: nat) -> bool {
    &&& picks.len() == count
    &&& forall|k: int| 0 <= k < picks.len() ==> 0 <= #[trigger] picks[k] < rel.len()
    &&& forall|a: int, b: int| 0 <= a < b < picks.len() ==> ranks_before(rel, #[trigger] picks[a], #[trigger] picks[b])
    &&& forall|k: int, j: int|
        0 <= k < picks.len() && 0 <= j < rel.len() && !picks.contains(j) ==> #[trigger] ranks_before(rel, picks[k], j)
}

/// Fewer than `n` distinct positions below `n` leave a position out.
proof fn lemma_unchosen_exists(picks: Seq<int>, n: int)
    requires
        picks.len() < n,
        forall|k: int| 0 <= k < picks.len() ==> 0 <= #[trigger] picks[k] < n,
        forall|a: int, b: int| 0 <= a < b < picks.len() ==> #[trigger] picks[a] != #[trigger] picks[b],
    ensures
        exists|w: int| 0 <= w < n && !picks.contains(w),
{
    assert(picks.no_duplicates()) by {
        assert forall|a: int, b: int| 0 <= a < picks.len() && 0 <= b < picks.len() && a != b implies picks[a] != picks[b] by {
            if a < b {
                assert(picks[a] != picks[b]);
            } else {
                assert(picks[b] != picks[a]);
            }
        }
    }
    picks.unique_seq_to_set();
    let range = vstd::set_lib::set_int_range(0, n);
    vstd::set_lib::lemma_int_range(0, n);
    if forall|w: int| 0 <= w < n ==> picks.contains(w) {
        assert(range.subset_of(picks.to_set()));
        vstd::set_lib::lemma_len_subset(range, picks.to_set());
    }
}

/// No other stored entry carries the identifier of entry `k` of type `a`.
pub open spec fn id_unique_at(s: Seq<(Seq<char>, Seq<EntryView>)>, a: int, k: int) -> bool {
    forall|b: int, l: int|
        0 <= b < s.len() && 0 <= l < s[b].1.len() && (b != a || l != k) ==> #[trigger] s[b].1[l].id
            != s[a].1[k].id
}

/// Every stored identifier is below `u64::MAX` and carried once.
pub open spec fn ids_valid(s: Seq<(Seq<char>, Seq<EntryView>)>) -> bool {
    forall|a: int, k: int|
        0 <= a < s.len() && 0 <= k < s[a].1.len() ==> #[trigger] s[a].1[k].id < u64::MAX
            && id_unique_at(s, a, k)
}

/// With distinct names, valid stored indices are those whose identifiers
/// are below `u64::MAX` and carried once.
proof fn lemma_snapshot_valid_by_position(s: Seq<(Seq<char>, Seq<EntryView>)>)
    requires
        names_distinct(s),
    ensures
        snapshot_valid(s) == ids_valid(s),
{
    let m = snapshot_map(s);
    if ids_valid(s) {
        assert forall|t: Seq<char>, k: int| m.contains_key(t) && 0 <= k < m[t].len() implies #[trigger] m[t][k].id
            < u64::MAX by {
            let a = choose|a: int| 0 <= a < s.len() && #[trigger] s[a].0 == t;
            lemma_snapshot_lookup(s, a);
            assert(s[a].1[k].id < u64::MAX);
        }
        assert forall|t1: Seq<char>, k1: int, t2: Seq<char>, k2: int|
            m.contains_key(t1) && m.contains_key(t2) && 0 <= k1 < m[t1].len() && 0 <= k2 < m[t2].len()
                && #[trigger] m[t1][k1].id == #[trigger] m[t2][k2].id implies t1 == t2 && k1 == k2 by {
            let a = choose|a: int| 0 <= a < s.len() && #[trigger] s[a].0 == t1;
            let b = choose|b: int| 0 <= b < s.len() && #[trigger] s[b].0 == t2;
            lemma_snapshot_lookup(s, a);
            lemma_snapshot_lookup(s, b);
            assert(s[a].1[k1].id < u64::MAX && id_unique_at(s, a, k1));
            assert(s[b].1[k2].id == s[a].1[k1].id);
        }
    }
    if snapshot_valid(s) {
        assert forall|a: int, k: int| 0 <= a < s.len() && 0 <= k < s[a].1.len() implies #[trigger] s[a].1[k].id
            < u64::MAX && id_unique_at(s, a, k) by {
            lemma_snapshot_lookup(s, a);
            assert(m[s[a].0][k].id < u64::MAX);
            assert forall|b: int, l: int|
                0 <= b < s.len() && 0 <= l < s[b].1.len() && (b != a || l != k) implies #[trigger] s[b].1[l].id
                != s[a].1[k].id by {
                lemma_snapshot_lookup(s, b);
                if s[b].1[l].id == s[a].1[k].id {
                    assert(m[s[b].0][l].id == m[s[a].0][k].id);
                    assert(s[b].0 == s[a].0 && l == k);
                }
            }
        }
    }
}

/// Whether no other stored entry carries the identifier of entry `k` of
/// type `a`.
fn stored_id_unique(stored: &Vec<(String, Vec<KnowledgeEntry>)>, a: usize, k: usize) -> (r: bool)
    requires
        a < stored.len(),
        k < stored@[a as int].1.len(),
    ensures
        r == id_unique_at(stored_view(stored@), a as int, k as int),
{
    let ghost s = stored_view(stored@);
    assert(s[a as int].1[k as int] == stored@[a as int].1@[k as int]@);
    let id = stored[a].1[k].id.0;
    let mut b: usize = 0;
    while b < stored.len()
        invariant
            s == stored_view(stored@),
            a < stored.len(),
            k < stored@[a as int].1.len(),
            id == s[a as int].1[k as int].id,
            b <= stored.len(),
            forall|b2: int, l: int|
                0 <= b2 < b && 0 <= l < s[b2].1.len() && (b2 != a || l != k) ==> #[trigger] s[b2].1[l].id != id,
        decreases stored.len() - b,
    {
        let entries = &stored[b].1;
        assert(s[b as int].1 == entry_views(entries@));
        let mut l: usize = 0;
        while l < entries.len()
            invariant
                s == stored_view(stored@),
                b < stored.len(),
                a < stored.len(),
                k < stored@[a as int].1.len(),
                id == s[a as int].1[k as int].id,
                entries == &stored@[b as int].1,
                s[b as int].1 == entry_views(entries@),
                l <= entries.len(),
                forall|b2: int, l2: int|
                    0 <= b2 < b && 0 <= l2 < s[b2].1.len() && (b2 != a || l2 != k) ==> #[trigger] s[b2].1[l2].id != id,
                forall|l2: int| 0 <= l2 < l && (b != a || l2 != k) ==> #[trigger] s[b as int].1[l2].id != id,
            decreases entries.len() - l,
        {
            assert(s[b as int].1[l as int] == entries@[l as int]@);
            if (b != a || l != k) && entries[l].id.0 == id {
                assert(s[b as int].1[l as int].id == id);
                return false;
            }
            l = l + 1;
        }
        b = b + 1;
    }
    true
}

/// Whether the stored indices are ones a knowledge base can have saved.
fn stored_valid(stored: &Vec<(String, Vec<KnowledgeEntry>)>) -> (r: bool)
    ensures
        r == snapshot_valid(stored_view(stored@)),
{
    let ghost s = stored_view(stored@);
    let mut a: usize = 0;
    while a < stored.len()
        invariant
            s == stored_view(stored@),
            a <= stored.len(),
            forall|x: int, y: int| 0 <= x < a && 0 <= y < s.len() && x != y ==> #[trigger] s[x].0 != #[trigger] s[y].0,
        decreases stored.len() - a,
    {
        let mut b: usize = 0;
        while b < stored.len()
            invariant
                s == stored_view(stored@),
                a < stored.len(),
                b <= stored.len(),
                forall|x: int, y: int| 0 <= x < a && 0 <= y < s.len() && x != y ==> #[trigger] s[x].0 != #[trigger] s[y].0,
                forall|y: int| 0 <= y < b && y != a ==> #[trigger] s[y].0 != s[a as int].0,
            decreases stored.len() - b,
        {
            if b != a && same_text(stored[a].0.as_str(), stored[b].0.as_str()) {
                assert(s[a as int].0 == s[b as int].0);
                return false;
            }
            b = b + 1;
        }
        a = a + 1;
    }
    assert(names_distinct(s));
    let mut a: usize = 0;
    while a < stored.len()
        invariant
            s == stored_view(stored@),
            names_distinct(s),
            a <= stored.len(),
            forall|x: int, k: int| 0 <= x < a && 0 <= k < s[x].1.len() ==> #[trigger] s[x].1[k].id < u64::MAX
                && id_unique_at(s, x, k),
        decreases stored.len() - a,
    {
        let n = stored[a].1.len();
        assert(s[a as int].1.len() == n);
        let mut k: usize = 0;
        while k < n
            invariant
                s == stored_view(stored@),
                names_distinct(s),
                a < stored.len(),
                n == stored@[a as int].1.len(),
                n == s[a as int].1.len(),
                k <= n,
                forall|x: int, k2: int| 0 <= x < a && 0 <= k2 < s[x].1.len() ==> #[trigger] s[x].1[k2].id < u64::MAX
                    && id_unique_at(s, x, k2),
                forall|k2: int| 0 <= k2 < k ==> #[trigger] s[a as int].1[k2].id < u64::MAX
                    && id_unique_at(s, a as int, k2),
            decreases n - k,
        {
            assert(s[a as int].1[k as int] == stored@[a as int].1@[k as int]@);
            if stored[a].1[k].id.0 == u64::MAX || !stored_id_unique(stored, a, k) {
                proof {
                    lemma_snapshot_valid_by_position(s);
                    assert(!(s[a as int].1[k as int].id < u64::MAX && id_unique_at(s, a as int, k as int)));
                }
                return false;
            }
            k = k + 1;
        }
        a = a + 1;
    }
    proof {
        lemma_snapshot_valid_by_position(s);
    }
    true
}

/// Central knowledge repository owned by the hive.
#[derive(Debug)]
pub struct KnowledgeBase {
    indices: Vec<TypeIndex>,
    next_id: u64,
}

impl View for KnowledgeBase {
    type V = Map<Seq<char>, Seq<EntryView>>;

    /// The entries of each registered pod type, in the order they were
    /// indexed.
    closed spec fn view(&self) -> Map<Seq<char>, Seq<EntryView>> {
        map_of(self.indices@)
    }
}

/// Position of the index of type `t` in `ixs`.
spec fn pos_of(ixs: Seq<TypeIndex>, t: Seq<char>) -> int {
    choose|i: int| 0 <= i < ixs.len() && #[trigger] ixs[i].pod_type@ == t
}

/// The entries of each pod type that has an index in `ixs`.
spec fn map_of(ixs: Seq<TypeIndex>) -> Map<Seq<char>, Seq<EntryView>> {
    Map::new(
        |t: Seq<char>| exists|i: int| 0 <= i < ixs.len() && #[trigger] ixs[i].pod_type@ == t,
        |t: Seq<char>| entry_views(ixs[pos_of(ixs, t)].entries@),
    )
}

/// No two indices of `ixs` belong to the same type.
spec fn distinct_types(ixs: Seq<TypeIndex>) -> bool {
    forall|a: int, b: int|
        0 <= a < ixs.len() && 0 <= b < ixs.len() && a != b ==> #[trigger] ixs[a].pod_type@
            != #[trigger] ixs[b].pod_type@
}

proof fn lemma_lookup(ixs: Seq<TypeIndex>, i: int)
    requires
        distinct_types(ixs),
        0 <= i < ixs.len(),
    ensures
        map_of(ixs).contains_key(ixs[i].pod_type@),
        map_of(ixs)[ixs[i].pod_type@] == entry_views(ixs[i].entries@),
        pos_of(ixs, ixs[i].pod_type@) == i,
{
    let t = ixs[i].pod_type@;
    assert(map_of(ixs).dom().contains(t));
    let j = pos_of(ixs, t);
    assert(ixs[j].pod_type@ == t);
}

impl KnowledgeBase {
    /// The identifier the next indexed entry gets.
    pub closed spec fn issued(&self) -> u64 {
        self.next_id
    }

    #[verifier::type_invariant]
    closed spec fn inv(&self) -> bool {
        &&& distinct_types(self.indices@)
        &&& ids_fresh(map_of(self.indices@), self.next_id)
    }

    /// Find the position of the index of `pod_type`.
    fn find(&self, pod_type: &str) -> (r: Option<usize>)
        requires
            distinct_types(self.indices@),
        ensures
            r is None <==> !self@.contains_key(pod_type@),
            r matches Some(i) ==> i < self.indices@.len() && self.indices@[i as int].pod_type@
                == pod_type@,
    {
        let mut i: usize = 0;
        while i < self.indices.len()
            invariant
                i <= self.indices.len(),
                forall|q: int| 0 <= q < i ==> self.indices@[q].pod_type@ != pod_type@,
            decreases self.indices.len() - i,
        {
            if same_text(self.indices[i].pod_type.as_str(), pod_type) {
                return Some(i);
            }
            i = i + 1;
        }
        proof {
            if self@.contains_key(pod_type@) {
                let j = pos_of(self.indices@, pod_type@);
                assert(self.indices@[j].pod_type@ == pod_type@);
            }
        }
        None
    }

    /// Create a new empty knowledge base.
    pub fn new() -> (kb: KnowledgeBase)
        ensures
            kb@ == Map::<Seq<char>, Seq<EntryView>>::empty(),
            kb.issued() == 0,
            ids_fresh(kb@, kb.issued()),
    {
        let kb = KnowledgeBase { indices: Vec::new(), next_id: 0 };
        assert(kb@ =~= Map::<Seq<char>, Seq<EntryView>>::empty());
        kb
    }

    /// Register a new pod type's retrieval index, empty at first.
    ///
    /// A type that already has an index is refused and keeps its index.
    pub fn register_type(&mut self, pod_type: &str, config: IndexConfig) -> (r: Result<
        (),
        KnowledgeError,
    >)
        ensures
            old(self)@.contains_key(pod_type@) ==> r == Err::<(), KnowledgeError>(
                KnowledgeError::TypeAlreadyRegistered,
            ) && final(self)@ == old(self)@,
            !old(self)@.contains_key(pod_type@) ==> r is Ok && final(self)@ == old(self)@.insert(
                pod_type@,
                Seq::empty(),
            ),
            final(self).issued() == old(self).issued(),
            ids_fresh(final(self)@, final(self).issued()),
    {
        proof {
            use_type_invariant(&*self);
        }
        if self.find(pod_type).is_some() {
            return Err(KnowledgeError::TypeAlreadyRegistered);
        }
        let ghost old_view = self@;
        let mut indices: Vec<TypeIndex> = Vec::new();
        std::mem::swap(&mut indices, &mut self.indices);
        let ghost before = indices@;
        indices.push(
            TypeIndex { pod_type: String::from_str(pod_type), config, entries: Vec::new() },
        );
        let ghost ixs = indices@;
        proof {
            assert forall|a: int, b: int|
                0 <= a < ixs.len() && 0 <= b < ixs.len() && a != b
                    implies #[trigger] ixs[a].pod_type@ != #[trigger] ixs[b].pod_type@ by {
                if a < before.len() && b < before.len() {
                    assert(ixs[a] == before[a]);
                    assert(ixs[b] == before[b]);
                } else if a < before.len() {
                    assert(ixs[a] == before[a]);
                    assert(old_view.contains_key(before[a].pod_type@));
                } else {
                    assert(ixs[b] == before[b]);
                    assert(old_view.contains_key(before[b].pod_type@));
                }
            }
            assert forall|t: Seq<char>| #[trigger] map_of(ixs).contains_key(t) == old_view.insert(
                pod_type@,
                Seq::empty(),
            ).contains_key(t) by {
                if map_of(ixs).contains_key(t) {
                    let i = pos_of(ixs, t);
                    if i < before.len() {
                        assert(ixs[i] == before[i]);
                        assert(old_view.contains_key(t));
                    }
                }
                if old_view.contains_key(t) {
                    let i = choose|i: int| 0 <= i < before.len() && #[trigger] before[i].pod_type@ == t;
                    assert(ixs[i] == before[i]);
                }
                if t == pod_type@ {
                    assert(ixs[before.len() as int].pod_type@ == t);
                }
            }
            assert forall|t: Seq<char>| #[trigger] map_of(ixs).contains_key(t) implies map_of(ixs)[t] == old_view.insert(
                pod_type@,
                Seq::empty(),
            )[t] by {
                let i = pos_of(ixs, t);
                lemma_lookup(ixs, i);
                if i < before.len() {
                    assert(ixs[i] == before[i]);
                    let j = choose|j: int| 0 <= j < before.len() && #[trigger] before[j].pod_type@ == t;
                    assert(ixs[j] == before[j]);
                    lemma_lookup(ixs, j);
                } else {
                    assert(entry_views(ixs[i].entries@) =~= Seq::<EntryView>::empty());
                }
            }
            assert(map_of(ixs) =~= old_view.insert(pod_type@, Seq::empty()));
        }
        let kb = KnowledgeBase { indices, next_id: self.next_id };
        *self = kb;
        Ok(())
    }

    /// Index a pod output into the knowledge base: the content is stored
    /// at the end of its type's index under the next fresh identifier.
    pub fn index(&mut self, pod_type: &str, content: &str, metadata: EntryMetadata) -> (r: Result<
        (),
        KnowledgeError,
    >)
        ensures
            !old(self)@.contains_key(pod_type@) ==> r == Err::<(), KnowledgeError>(
                KnowledgeError::UnknownType,
            ) && final(self)@ == old(self)@ && final(self).issued() == old(self).issued(),
            old(self)@.contains_key(pod_type@) && old(self).issued() == u64::MAX ==> r == Err::<
                (),
                KnowledgeError,
            >(KnowledgeError::IdsExhausted) && final(self)@ == old(self)@ && final(self).issued()
                == old(self).issued(),
            old(self)@.contains_key(pod_type@) && old(self).issued() < u64::MAX ==> r is Ok
                && final(self)@ == old(self)@.insert(
                pod_type@,
                old(self)@[pod_type@].push(
                    EntryView {
                        id: old(self).issued() as u64,
                        content: content@,
                        useful: 0,
                        not_useful: 0,
                    },
                ),
            ) && final(self).issued() == old(self).issued() + 1,
            ids_fresh(final(self)@, final(self).issued()),
    {
        proof {
            use_type_invariant(&*self);
        }
        let pos = match self.find(pod_type) {
            None => {
                return Err(KnowledgeError::UnknownType);
            },
            Some(p) => p,
        };
        if self.next_id == u64::MAX {
            return Err(KnowledgeError::IdsExhausted);
        }
        proof {
            lemma_lookup(self.indices@, pos as int);
        }
        let ghost old_view = self@;
        let id = self.next_id;
        let mut entries: Vec<KnowledgeEntry> = Vec::new();
        let old_entries = &self.indices[pos].entries;
        let mut k: usize = 0;
        while k < old_entries.len()
            invariant
                k <= old_entries.len(),
                entries.len() == k,
                forall|q: int| 0 <= q < k ==> #[trigger] entries@[q]@ == old_entries@[q]@,
            decreases old_entries.len() - k,
        {
            entries.push(old_entries[k].duplicate());
            k = k + 1;
        }
        let ghost new_entry = EntryView { id, content: content@, useful: 0, not_useful: 0 };
        entries.push(
            KnowledgeEntry {
                id: EntryId(id),
                content: String::from_str(content),
                metadata,
                useful: 0,
                not_useful: 0,
            },
        );
        assert(entry_views(entries@) =~= old_view[pod_type@].push(new_entry));
        let mut indices: Vec<TypeIndex> = Vec::new();
        std::mem::swap(&mut indices, &mut self.indices);
        let ghost before = indices@;
        let name = String::from_str(pod_type);
        let config = indices[pos].config;
        indices.set(pos, TypeIndex { pod_type: name, config, entries });
        let ghost ixs = indices@;
        proof {
            let new_map = old_view.insert(pod_type@, old_view[pod_type@].push(new_entry));
            assert forall|a: int, b: int|
                0 <= a < ixs.len() && 0 <= b < ixs.len() && a != b
                    implies #[trigger] ixs[a].pod_type@ != #[trigger] ixs[b].pod_type@ by {
                assert(before[a].pod_type@ != before[b].pod_type@);
                assert(ixs[a].pod_type@ == before[a].pod_type@);
                assert(ixs[b].pod_type@ == before[b].pod_type@);
            }
            assert forall|t: Seq<char>| #[trigger] map_of(ixs).contains_key(t) == new_map.contains_key(t) by {
                if map_of(ixs).contains_key(t) {
                    let i = pos_of(ixs, t);
                    assert(ixs[i].pod_type@ == before[i].pod_type@);
                    assert(old_view.contains_key(t));
                }
                if old_view.contains_key(t) {
                    let i = choose|i: int| 0 <= i < before.len() && #[trigger] before[i].pod_type@ == t;
                    assert(ixs[i].pod_type@ == before[i].pod_type@);
                }
            }
            assert forall|t: Seq<char>| #[trigger] map_of(ixs).contains_key(t) implies map_of(ixs)[t] == new_map[t] by {
                let i = pos_of(ixs, t);
                lemma_lookup(ixs, i);
                if i != pos {
                    assert(ixs[i] == before[i]);
                    assert(old_view.contains_key(t));
                } else {
                    assert(t == pod_type@);
                }
            }
            assert(map_of(ixs) =~= new_map);
            assert forall|t: Seq<char>, q: int| map_of(ixs).contains_key(t) && 0 <= q < map_of(ixs)[t].len() implies #[trigger] map_of(ixs)[t][q].id < id + 1 by {
                if t != pod_type@ || q < old_view[pod_type@].len() {
                    assert(map_of(ixs)[t][q] == old_view[t][q]);
                    assert(old_view[t][q].id < id);
                }
            }
            assert forall|t1: Seq<char>, k1: int, t2: Seq<char>, k2: int|
                map_of(ixs).contains_key(t1) && map_of(ixs).contains_key(t2) && 0 <= k1 < map_of(ixs)[t1].len() && 0 <= k2 < map_of(ixs)[t2].len()
                    && #[trigger] map_of(ixs)[t1][k1].id == #[trigger] map_of(ixs)[t2][k2].id implies t1 == t2 && k1 == k2 by {
                let new1 = t1 == pod_type@ && k1 == old_view[pod_type@].len();
                let new2 = t2 == pod_type@ && k2 == old_view[pod_type@].len();
                if !new1 {
                    assert(map_of(ixs)[t1][k1] == old_view[t1][k1]);
                    assert(old_view[t1][k1].id < id);
                }
                if !new2 {
                    assert(map_of(ixs)[t2][k2] == old_view[t2][k2]);
                    assert(old_view[t2][k2].id < id);
                }
                if !new1 && !new2 {
                    assert(old_view[t1][k1].id == old_view[t2][k2].id);
                }
            }
        }
        let kb = KnowledgeBase { indices, next_id: id + 1 };
        *self = kb;
        Ok(())
    }

    /// All entries of a pod type's index, in the order they were indexed.
    pub fn entries(&self, pod_type: &str) -> (r: Result<Vec<KnowledgeEntry>, KnowledgeError>)
        ensures
            !self@.contains_key(pod_type@) ==> r == Err::<Vec<KnowledgeEntry>, KnowledgeError>(
                KnowledgeError::UnknownType,
            ),
            self@.contains_key(pod_type@) ==> (r matches Ok(v) && entry_views(v@) == self@[pod_type@]),
    {
        proof {
            use_type_invariant(self);
        }
        let pos = match self.find(pod_type) {
            None => {
                return Err(KnowledgeError::UnknownType);
            },
            Some(p) => p,
        };
        proof {
            lemma_lookup(self.indices@, pos as int);
        }
        let entries = &self.indices[pos].entries;
        let mut out: Vec<KnowledgeEntry> = Vec::new();
        let mut k: usize = 0;
        while k < entries.len()
            invariant
                k <= entries.len(),
                out.len() == k,
                forall|q: int| 0 <= q < k ==> #[trigger] out@[q]@ == entries@[q]@,
            decreases entries.len() - k,
        {
            out.push(entries[k].duplicate());
            k = k + 1;
        }
        assert(entry_views(out@) =~= entry_views(entries@));
        Ok(out)
    }

    /// Query the knowledge base for a given pod type: route to the type's
    /// index and return its `top_k` most relevant entries, most relevant
    /// first (all of them when it holds fewer). `relevance[j]` is how
    /// relevant entry `j` of the index is to the query; of two equally
    /// relevant entries the earlier indexed one comes first. A relevance
    /// list whose length is not the index's is refused.
    pub fn query(&self, pod_type: &str, relevance: &Vec<u64>, top_k: usize) -> (r: Result<
        Vec<KnowledgeEntry>,
        KnowledgeError,
    >)
        ensures
            !self@.contains_key(pod_type@) ==> r == Err::<Vec<KnowledgeEntry>, KnowledgeError>(
                KnowledgeError::UnknownType,
            ),
            self@.contains_key(pod_type@) && relevance.len() != self@[pod_type@].len() ==> r == Err::<
                Vec<KnowledgeEntry>,
                KnowledgeError,
            >(KnowledgeError::RelevanceMismatch),
            self@.contains_key(pod_type@) && relevance.len() == self@[pod_type@].len() ==> (r matches Ok(v)
                && exists|picks: Seq<int>|
                #[trigger] is_top(relevance@, picks, top_count(top_k as nat, relevance.len() as nat))
                    && entry_views(v@) == picks.map_values(|j: int| self@[pod_type@][j])),
    {
        proof {
            use_type_invariant(self);
        }
        let pos = match self.find(pod_type) {
            None => {
                return Err(KnowledgeError::UnknownType);
            },
            Some(p) => p,
        };
        proof {
            lemma_lookup(self.indices@, pos as int);
        }
        let entries = &self.indices[pos].entries;
        let n = entries.len();
        if relevance.len() != n {
            return Err(KnowledgeError::RelevanceMismatch);
        }
        let ghost es = entry_views(entries@);
        let ghost rel = relevance@;
        let m = if top_k < n {
            top_k
        } else {
            n
        };
        let mut chosen: Vec<bool> = Vec::new();
        let mut a: usize = 0;
        while a < n
            invariant
                a <= n,
                chosen.len() == a,
                forall|q: int| 0 <= q < a ==> !chosen@[q],
            decreases n - a,
        {
            chosen.push(false);
            a = a + 1;
        }
        let mut out: Vec<KnowledgeEntry> = Vec::new();
        let ghost mut picks: Seq<int> = Seq::empty();
        while out.len() < m
            invariant
                m <= n,
                n == entries.len(),
                n == rel.len(),
                rel == relevance@,
                es == entry_views(entries@),
                chosen.len() == n,
                out.len() == picks.len(),
                picks.len() <= m,
                forall|k: int| 0 <= k < picks.len() ==> 0 <= #[trigger] picks[k] < n,
                forall|a: int, b: int| 0 <= a < b < picks.len() ==> #[trigger] picks[a] != #[trigger] picks[b],
                forall|j: int| 0 <= j < n ==> (chosen@[j] <==> picks.contains(j)),
                forall|a: int, b: int| 0 <= a < b < picks.len() ==> ranks_before(rel, #[trigger] picks[a], #[trigger] picks[b]),
                forall|k: int, j: int|
                    0 <= k < picks.len() && 0 <= j < n && !chosen@[j] ==> #[trigger] ranks_before(rel, picks[k], j),
                forall|k: int| 0 <= k < picks.len() ==> #[trigger] out@[k]@ == es[picks[k]],
            decreases m - out.len(),
        {
            proof {
                lemma_unchosen_exists(picks, n as int);
            }
            let mut best: usize = n;
            let mut j: usize = 0;
            while j < n
                invariant
                    j <= n,
                    n == chosen.len(),
                    n == rel.len(),
                    rel == relevance@,
                    best == n || (best < j && !chosen@[best as int]),
                    best == n ==> forall|u: int| 0 <= u < j ==> chosen@[u],
                    best < n ==> forall|u: int| 0 <= u < j && !chosen@[u] && u != best ==> ranks_before(rel, best as int, u),
                decreases n - j,
            {
                if !chosen[j] && (best == n || relevance[j] > relevance[best]) {
                    best = j;
                }
                j = j + 1;
            }
            proof {
                let w = choose|w: int| 0 <= w < n && !picks.contains(w);
                assert(!chosen@[w]);
            }
            let ghost old_chosen = chosen@;
            let ghost old_picks = picks;
            chosen.set(best, true);
            let ghost old_out = out@;
            out.push(entries[best].duplicate());
            proof {
                picks = picks.push(best as int);
                assert forall|q: int| 0 <= q < n implies (chosen@[q] <==> picks.contains(q)) by {
                    if q == best {
                        assert(picks[picks.len() - 1] == q);
                    } else {
                        if old_picks.contains(q) {
                            let w = choose|w: int| 0 <= w < old_picks.len() && old_picks[w] == q;
                            assert(picks[w] == q);
                        }
                        if picks.contains(q) {
                            let w = choose|w: int| 0 <= w < picks.len() && picks[w] == q;
                            assert(w < old_picks.len());
                            assert(old_picks[w] == q);
                        }
                    }
                }
                assert forall|a: int, b: int| 0 <= a < b < picks.len() implies #[trigger] picks[a] != #[trigger] picks[b] by {
                    if b == picks.len() - 1 {
                        assert(old_picks.contains(old_picks[a]));
                        assert(old_chosen[old_picks[a]]);
                    } else {
                        assert(old_picks[a] != old_picks[b]);
                    }
                }
                assert forall|a: int, b: int| 0 <= a < b < picks.len() implies ranks_before(rel, #[trigger] picks[a], #[trigger] picks[b]) by {
                    if b == picks.len() - 1 {
                        assert(old_picks[a] == picks[a]);
                    } else {
                        assert(ranks_before(rel, old_picks[a], old_picks[b]));
                    }
                }
                assert forall|k: int, q: int|
                    0 <= k < picks.len() && 0 <= q < n && !chosen@[q] implies #[trigger] ranks_before(rel, picks[k], q) by {
                    assert(!old_chosen[q]);
                    if k < picks.len() - 1 {
                        assert(picks[k] == old_picks[k]);
                    }
                }
                assert forall|k: int| 0 <= k < picks.len() implies #[trigger] out@[k]@ == es[picks[k]] by {
                    if k < picks.len() - 1 {
                        assert(out@[k] == old_out[k]);
                    }
                }
            }
        }
        proof {
            let sel = picks.map_values(|j: int| self@[pod_type@][j]);
            assert(entry_views(out@) =~= sel);
            assert forall|k: int, j: int| 0 <= k < picks.len() && 0 <= j < n && !picks.contains(j) implies #[trigger] ranks_before(rel, picks[k], j) by {
                assert(!chosen@[j]);
            }
            assert(is_top(rel, picks, top_count(top_k as nat, relevance.len() as nat)));
        }
        Ok(out)
    }

    /// Record feedback on whether a retrieved entry was useful: the entry
    /// with identifier `entry_id` counts one more useful or not useful
    /// vote. An identifier that no entry carries is refused.
    pub fn feedback(&mut self, entry_id: EntryId, was_useful: bool) -> (r: Result<
        (),
        KnowledgeError,
    >)
        ensures
            has_entry(old(self)@, entry_id@) ==> r is Ok && final(self)@ == after_feedback(
                old(self)@,
                entry_id@,
                was_useful,
            ),
            !has_entry(old(self)@, entry_id@) ==> r == Err::<(), KnowledgeError>(
                KnowledgeError::UnknownEntry,
            ) && final(self)@ == old(self)@,
            final(self).issued() == old(self).issued(),
            ids_fresh(final(self)@, final(self).issued()),
    {
        proof {
            use_type_invariant(&*self);
        }
        let ghost old_view = self@;
        let ghost id = entry_id@;
        let ghost f = |e: EntryView| if e.id == id { rated(e, was_useful) } else { e };
        let mut out: Vec<TypeIndex> = Vec::new();
        let mut found = false;
        let mut i: usize = 0;
        while i < self.indices.len()
            invariant
                i <= self.indices.len(),
                out.len() == i,
                id == entry_id@,
                f == (|e: EntryView| if e.id == id { rated(e, was_useful) } else { e }),
                forall|q: int| 0 <= q < i ==> #[trigger] out@[q].pod_type@ == self.indices@[q].pod_type@,
                forall|q: int|
                    0 <= q < i ==> #[trigger] entry_views(out@[q].entries@) == entry_views(
                        self.indices@[q].entries@,
                    ).map_values(f),
                found <==> exists|q: int, k: int|
                    0 <= q < i && 0 <= k < self.indices@[q].entries@.len()
                        && #[trigger] self.indices@[q].entries@[k]@.id == id,
            decreases self.indices.len() - i,
        {
            let old_entries = &self.indices[i].entries;
            let mut entries: Vec<KnowledgeEntry> = Vec::new();
            let ghost found_before = found;
            let mut k: usize = 0;
            while k < old_entries.len()
                invariant
                    k <= old_entries.len(),
                    entries.len() == k,
                    id == entry_id@,
                    f == (|e: EntryView| if e.id == id { rated(e, was_useful) } else { e }),
                    forall|q: int| 0 <= q < k ==> #[trigger] entries@[q]@ == f(old_entries@[q]@),
                    found <==> found_before || exists|q: int|
                        0 <= q < k && #[trigger] old_entries@[q]@.id == id,
                decreases old_entries.len() - k,
            {
                let mut e = old_entries[k].duplicate();
                let hit = e.id == entry_id;
                if hit {
                    found = true;
                    if was_useful {
                        if e.useful < u64::MAX {
                            e.useful = e.useful + 1;
                        }
                    } else {
                        if e.not_useful < u64::MAX {
                            e.not_useful = e.not_useful + 1;
                        }
                    }
                }
                proof {
                    if hit {
                        assert(old_entries@[k as int]@.id == id);
                    } else {
                        assert(old_entries@[k as int]@.id != id);
                    }
                }
                let ghost entries_before = entries@;
                entries.push(e);
                proof {
                    assert forall|q: int| 0 <= q < k + 1 implies #[trigger] entries@[q]@ == f(old_entries@[q]@) by {
                        if q < k {
                            assert(entries@[q] == entries_before[q]);
                        }
                    }
                }
                k = k + 1;
            }
            assert(entry_views(entries@) =~= entry_views(old_entries@).map_values(f));
            let ghost out_before = out@;
            out.push(
                TypeIndex {
                    pod_type: self.indices[i].pod_type.clone(),
                    config: self.indices[i].config,
                    entries,
                },
            );
            proof {
                assert forall|q: int| 0 <= q < i + 1 implies #[trigger] out@[q].pod_type@ == self.indices@[q].pod_type@ by {
                    if q < i {
                        assert(out@[q] == out_before[q]);
                    }
                }
                assert forall|q: int| 0 <= q < i + 1 implies #[trigger] entry_views(out@[q].entries@) == entry_views(
                    self.indices@[q].entries@,
                ).map_values(f) by {
                    if q < i {
                        assert(out@[q] == out_before[q]);
                    }
                }
                if found {
                    if !found_before {
                        let q = choose|q: int| 0 <= q < k && #[trigger] old_entries@[q]@.id == id;
                        assert(self.indices@[i as int].entries@[q]@.id == id);
                    }
                }
                if exists|q: int, k2: int|
                    0 <= q < i + 1 && 0 <= k2 < self.indices@[q].entries@.len()
                        && #[trigger] self.indices@[q].entries@[k2]@.id == id {
                    let (q, k2) = choose|q: int, k2: int|
                        0 <= q < i + 1 && 0 <= k2 < self.indices@[q].entries@.len()
                            && #[trigger] self.indices@[q].entries@[k2]@.id == id;
                    if q == i {
                        assert(old_entries@[k2]@.id == id);
                    }
                }
            }
            i = i + 1;
        }
        let ghost ixs = out@;
        let ghost old_ixs = self.indices@;
        proof {
            assert forall|a: int, b: int|
                0 <= a < ixs.len() && 0 <= b < ixs.len() && a != b implies #[trigger] ixs[a].pod_type@
                != #[trigger] ixs[b].pod_type@ by {
                assert(old_ixs[a].pod_type@ != old_ixs[b].pod_type@);
            }
            let new_map = after_feedback(old_view, id, was_useful);
            assert forall|t: Seq<char>| #[trigger] map_of(ixs).contains_key(t) == old_view.contains_key(t) by {
                if map_of(ixs).contains_key(t) {
                    let q = pos_of(ixs, t);
                    assert(old_ixs[q].pod_type@ == t);
                }
                if old_view.contains_key(t) {
                    let q = pos_of(old_ixs, t);
                    assert(ixs[q].pod_type@ == t);
                }
            }
            assert forall|t: Seq<char>| #[trigger] map_of(ixs).contains_key(t) implies map_of(ixs)[t] == new_map[t] by {
                let q = pos_of(ixs, t);
                lemma_lookup(ixs, q);
                assert(old_ixs[q].pod_type@ == t);
                lemma_lookup(old_ixs, q);
            }
            assert(map_of(ixs) =~= new_map);
            assert forall|t: Seq<char>, k: int|
                new_map.contains_key(t) && 0 <= k < new_map[t].len() implies #[trigger] new_map[t][k].id == old_view[t][k].id by {}
            assert forall|t: Seq<char>, k: int|
                new_map.contains_key(t) && 0 <= k < new_map[t].len() implies #[trigger] new_map[t][k].id < self.next_id as nat by {
                assert(new_map[t][k].id == old_view[t][k].id);
            }
            assert forall|t1: Seq<char>, k1: int, t2: Seq<char>, k2: int|
                new_map.contains_key(t1) && new_map.contains_key(t2) && 0 <= k1 < new_map[t1].len() && 0 <= k2 < new_map[t2].len()
                    && #[trigger] new_map[t1][k1].id == #[trigger] new_map[t2][k2].id implies t1 == t2 && k1 == k2 by {
                assert(new_map[t1][k1].id == old_view[t1][k1].id);
                assert(new_map[t2][k2].id == old_view[t2][k2].id);
            }
            if found {
                let (q, k) = choose|q: int, k: int|
                    0 <= q < old_ixs.len() && 0 <= k < old_ixs[q].entries@.len()
                        && #[trigger] old_ixs[q].entries@[k]@.id == id;
                lemma_lookup(old_ixs, q);
                assert(old_view[old_ixs[q].pod_type@][k].id == id);
            }
            if has_entry(old_view, id) {
                let (t, k) = choose|t: Seq<char>, k: int|
                    old_view.contains_key(t) && 0 <= k < old_view[t].len() && #[trigger] old_view[t][k].id == id;
                let q = pos_of(old_ixs, t);
                lemma_lookup(old_ixs, q);
                assert(old_ixs[q].entries@[k]@.id == id);
            }
        }
        if !found {
            return Err(KnowledgeError::UnknownEntry);
        }
        let kb = KnowledgeBase { indices: out, next_id: self.next_id };
        *self = kb;
        Ok(())
    }

    /// The indices of the knowledge base, in the order their types were
    /// registered, each with its entries in the order they were indexed.
    pub closed spec fn snapshot_view(&self) -> Seq<(Seq<char>, Seq<EntryView>)> {
        index_views(self.indices@)
    }

    /// Persist the knowledge base: hand every index, with its type name
    /// and entries (identifiers and votes included), to the storage
    /// backend. When the backend stores them, it then holds exactly this
    /// knowledge base; an error of the backend is passed on.
    pub fn save<S: StorageBackend>(&self, storage: &mut S) -> (r: Result<(), KnowledgeError>)
        ensures
            r is Ok ==> final(storage).contents() == self.snapshot_view() && snapshot_map(
                final(storage).contents(),
            ) == self@ && snapshot_valid(final(storage).contents()),
            S::never_fails() ==> r is Ok,
    {
        proof {
            use_type_invariant(self);
            lemma_map_of_snapshot(self.indices@);
            lemma_fresh_below_max(self@, self.next_id);
        }
        let mut snapshot: Vec<(String, Vec<KnowledgeEntry>)> = Vec::new();
        let mut i: usize = 0;
        while i < self.indices.len()
            invariant
                i <= self.indices.len(),
                snapshot.len() == i,
                forall|q: int| 0 <= q < i ==> #[trigger] stored_view(snapshot@)[q] == index_views(self.indices@)[q],
            decreases self.indices.len() - i,
        {
            let entries = &self.indices[i].entries;
            let mut copy: Vec<KnowledgeEntry> = Vec::new();
            let mut k: usize = 0;
            while k < entries.len()
                invariant
                    k <= entries.len(),
                    copy.len() == k,
                    forall|q: int| 0 <= q < k ==> #[trigger] copy@[q]@ == entries@[q]@,
                decreases entries.len() - k,
            {
                copy.push(entries[k].duplicate());
                k = k + 1;
            }
            assert(entry_views(copy@) =~= entry_views(entries@));
            let ghost before = snapshot@;
            let name = self.indices[i].pod_type.clone();
            snapshot.push((name, copy));
            proof {
                assert forall|q: int| 0 <= q < i + 1 implies #[trigger] stored_view(snapshot@)[q] == index_views(self.indices@)[q] by {
                    if q < i {
                        assert(snapshot@[q] == before[q]);
                        assert(stored_view(before)[q] == index_views(self.indices@)[q]);
                    }
                }
            }
            i = i + 1;
        }
        assert(stored_view(snapshot@) =~= index_views(self.indices@));
        storage.save(snapshot.as_slice())
    }

    /// Load the knowledge base that the storage backend holds: the same
    /// types with the same entries, identifiers and votes; the next
    /// identifier is one past the largest stored one. Stored indices that
    /// no knowledge base can have saved are refused, and an error of the
    /// backend is passed on.
    pub fn load<S: StorageBackend>(storage: &S) -> (r: Result<KnowledgeBase, KnowledgeError>)
        ensures
            r matches Ok(kb) ==> kb@ == snapshot_map(storage.contents()) && kb.issued() == next_after(
                storage.contents(),
            ) && ids_fresh(kb@, kb.issued()),
            !snapshot_valid(storage.contents()) ==> r is Err,
            S::never_fails() && snapshot_valid(storage.contents()) ==> r is Ok,
    {
        match storage.load() {
            Ok(stored) => Self::from_stored(&stored),
            Err(e) => Err(e),
        }
    }

    /// Build the knowledge base that stored indices describe: the same
    /// types with the same entries, identifiers and votes, the next
    /// identifier one past the largest stored one. Indices that name a
    /// type twice, give two entries one identifier or use `u64::MAX` are
    /// refused.
    pub fn from_stored(stored: &Vec<(String, Vec<KnowledgeEntry>)>) -> (r: Result<KnowledgeBase, KnowledgeError>)
        ensures
            snapshot_valid(stored_view(stored@)) ==> (r matches Ok(kb) && kb@ == snapshot_map(
                stored_view(stored@),
            ) && kb.issued() == next_after(stored_view(stored@)) && ids_fresh(kb@, kb.issued())),
            !snapshot_valid(stored_view(stored@)) ==> r == Err::<KnowledgeBase, KnowledgeError>(
                KnowledgeError::CorruptSnapshot,
            ),
    {
        if !stored_valid(stored) {
            return Err(KnowledgeError::CorruptSnapshot);
        }
        let kb = Self::restore(stored);
        proof {
            use_type_invariant(&kb);
        }
        Ok(kb)
    }

    /// Rebuild a knowledge base from valid stored indices, keeping every
    /// type, entry, identifier and vote; the next identifier is one past
    /// the largest stored one.
    fn restore(stored: &Vec<(String, Vec<KnowledgeEntry>)>) -> (kb: KnowledgeBase)
        requires
            snapshot_valid(stored_view(stored@)),
        ensures
            kb@ == snapshot_map(stored_view(stored@)),
            kb.issued() == next_after(stored_view(stored@)),
    {
        let ghost sv = stored_view(stored@);
        proof {
            lemma_snapshot_ids_below_max(sv);
        }
        let mut indices: Vec<TypeIndex> = Vec::new();
        let mut next: u64 = 0;
        let mut i: usize = 0;
        assert(sv.take(0) =~= Seq::<(Seq<char>, Seq<EntryView>)>::empty());
        while i < stored.len()
            invariant
                i <= stored.len(),
                sv == stored_view(stored@),
                forall|a: int, k: int| 0 <= a < sv.len() && 0 <= k < sv[a].1.len() ==> #[trigger] sv[a].1[k].id < u64::MAX,
                indices.len() == i,
                forall|q: int| 0 <= q < i ==> #[trigger] index_views(indices@)[q] == sv[q],
                next == next_after(sv.take(i as int)),
            decreases stored.len() - i,
        {
            let entries = &stored[i].1;
            let ghost es = sv[i as int].1;
            assert(entry_views(entries@) == es);
            let mut copy: Vec<KnowledgeEntry> = Vec::new();
            let mut b: u64 = 0;
            let mut k: usize = 0;
            assert(es.take(0) =~= Seq::<EntryView>::empty());
            while k < entries.len()
                invariant
                    k <= entries.len(),
                    es == entry_views(entries@),
                    forall|q: int| 0 <= q < es.len() ==> #[trigger] es[q].id < u64::MAX,
                    copy.len() == k,
                    forall|q: int| 0 <= q < k ==> #[trigger] copy@[q]@ == entries@[q]@,
                    b == bound_of(es.take(k as int)),
                decreases entries.len() - k,
            {
                assert(es.take(k + 1).drop_last() =~= es.take(k as int));
                assert(es[k as int].id == entries@[k as int].id@);
                let c = entries[k].id.0 + 1;
                if c > b {
                    b = c;
                }
                copy.push(entries[k].duplicate());
                k = k + 1;
            }
            assert(es.take(k as int) =~= es);
            assert(entry_views(copy@) =~= es);
            assert(sv.take(i + 1).drop_last() =~= sv.take(i as int));
            if b > next {
                next = b;
            }
            let ghost before = indices@;
            let name = stored[i].0.clone();
            indices.push(TypeIndex { pod_type: name, config: IndexConfig, entries: copy });
            proof {
                assert forall|q: int| 0 <= q < i + 1 implies #[trigger] index_views(indices@)[q] == sv[q] by {
                    if q < i {
                        assert(indices@[q] == before[q]);
                        assert(index_views(before)[q] == sv[q]);
                    }
                }
            }
            i = i + 1;
        }
        assert(sv.take(i as int) =~= sv);
        assert(index_views(indices@) =~= sv);
        let ghost ixs = indices@;
        proof {
            assert forall|a: int, b: int|
                0 <= a < ixs.len() && 0 <= b < ixs.len() && a != b implies #[trigger] ixs[a].pod_type@
                != #[trigger] ixs[b].pod_type@ by {
                assert(index_views(ixs)[a].0 == ixs[a].pod_type@);
                assert(index_views(ixs)[b].0 == ixs[b].pod_type@);
                assert(sv[a].0 != sv[b].0);
            }
            lemma_map_of_snapshot(ixs);
            lemma_ids_below_next(sv);
            let m = snapshot_map(sv);
            assert forall|t: Seq<char>, k: int| m.contains_key(t) && 0 <= k < m[t].len() implies #[trigger] m[t][k].id < next by {
                let a = choose|a: int| 0 <= a < sv.len() && #[trigger] sv[a].0 == t;
                lemma_snapshot_lookup(sv, a);
            }
        }
        KnowledgeBase { indices, next_id: next }
    }
}

/// The indices as views: each type name with its entries.
spec fn index_views(ixs: Seq<TypeIndex>) -> Seq<(Seq<char>, Seq<EntryView>)> {
    ixs.map_values(|t: TypeIndex| (t.pod_type@, entry_views(t.entries@)))
}

/// With distinct names, the entries that `snapshot_map` gives a stored
/// type are the ones stored with it.
proof fn lemma_snapshot_lookup(s: Seq<(Seq<char>, Seq<EntryView>)>, i: int)
    requires
        names_distinct(s),
        0 <= i < s.len(),
    ensures
        snapshot_map(s).contains_key(s[i].0),
        snapshot_map(s)[s[i].0] == s[i].1,
{
    let t = s[i].0;
    assert(snapshot_map(s).dom().contains(t));
    let j = choose|j: int| 0 <= j < s.len() && #[trigger] s[j].0 == t;
    assert(s[j].0 == t);
}

/// The map of a knowledge base's indices is the map of their views.
proof fn lemma_map_of_snapshot(ixs: Seq<TypeIndex>)
    requires
        distinct_types(ixs),
    ensures
        names_distinct(index_views(ixs)),
        map_of(ixs) == snapshot_map(index_views(ixs)),
{
    let v = index_views(ixs);
    assert forall|a: int, b: int| 0 <= a < v.len() && 0 <= b < v.len() && a != b implies #[trigger] v[a].0 != #[trigger] v[b].0 by {
        assert(ixs[a].pod_type@ != ixs[b].pod_type@);
    }
    assert forall|t: Seq<char>| #[trigger] map_of(ixs).contains_key(t) == snapshot_map(v).contains_key(t) by {
        if map_of(ixs).contains_key(t) {
            let i = pos_of(ixs, t);
            assert(v[i].0 == t);
        }
        if snapshot_map(v).contains_key(t) {
            let i = choose|i: int| 0 <= i < v.len() && #[trigger] v[i].0 == t;
            assert(ixs[i].pod_type@ == t);
        }
    }
    assert forall|t: Seq<char>| #[trigger] map_of(ixs).contains_key(t) implies map_of(ixs)[t] == snapshot_map(v)[t] by {
        let i = pos_of(ixs, t);
        lemma_lookup(ixs, i);
        lemma_snapshot_lookup(v, i);
    }
    assert(map_of(ixs) =~= snapshot_map(v));
}

/// Identifiers below a `u64` bound are below `u64::MAX`.
proof fn lemma_fresh_below_max(m: Map<Seq<char>, Seq<EntryView>>, issued: u64)
    requires
        ids_fresh(m, issued),
    ensures
        ids_fresh(m, u64::MAX),
{
}

/// Every stored identifier of valid stored indices is below `u64::MAX`.
proof fn lemma_snapshot_ids_below_max(s: Seq<(Seq<char>, Seq<EntryView>)>)
    requires
        snapshot_valid(s),
    ensures
        forall|a: int, k: int| 0 <= a < s.len() && 0 <= k < s[a].1.len() ==> #[trigger] s[a].1[k].id < u64::MAX,
{
    assert forall|a: int, k: int| 0 <= a < s.len() && 0 <= k < s[a].1.len() implies #[trigger] s[a].1[k].id < u64::MAX by {
        lemma_snapshot_lookup(s, a);
        assert(snapshot_map(s)[s[a].0][k].id < u64::MAX);
    }
}

/// Every identifier in `es` is below `bound_of(es)`.
proof fn lemma_bound_of(es: Seq<EntryView>)
    ensures
        forall|k: int| 0 <= k < es.len() ==> #[trigger] es[k].id < bound_of(es),
    decreases es.len(),
{
    if es.len() > 0 {
        lemma_bound_of(es.drop_last());
        assert forall|k: int| 0 <= k < es.len() implies #[trigger] es[k].id < bound_of(es) by {
            if k < es.len() - 1 {
                assert(es[k] == es.drop_last()[k]);
            }
        }
    }
}

/// Every stored identifier is below `next_after` of the stored indices.
proof fn lemma_ids_below_next(s: Seq<(Seq<char>, Seq<EntryView>)>)
    ensures
        forall|a: int, k: int| 0 <= a < s.len() && 0 <= k < s[a].1.len() ==> #[trigger] s[a].1[k].id < next_after(s),
    decreases s.len(),
{
    if s.len() > 0 {
        lemma_ids_below_next(s.drop_last());
        lemma_bound_of(s.last().1);
        assert forall|a: int, k: int| 0 <= a < s.len() && 0 <= k < s[a].1.len() implies #[trigger] s[a].1[k].id < next_after(s) by {
            if a < s.len() - 1 {
                assert(s[a] == s.drop_last()[a]);
            }
        }
    }
}

/// With every identifier in `es` below `bound`, `bound_of(es)` is at most
/// `bound`.
proof fn lemma_bound_of_at_most(es: Seq<EntryView>, bound: nat)
    requires
        forall|k: int| 0 <= k < es.len() ==> #[trigger] es[k].id < bound,
    ensures
        bound_of(es) <= bound,
    decreases es.len(),
{
    if es.len() > 0 {
        assert forall|k: int| 0 <= k < es.drop_last().len() implies #[trigger] es.drop_last()[k].id < bound by {
            assert(es.drop_last()[k] == es[k]);
        }
        lemma_bound_of_at_most(es.drop_last(), bound);
    }
}

/// With every stored identifier below `bound`, `next_after` is at most
/// `bound`.
proof fn lemma_next_after_at_most(s: Seq<(Seq<char>, Seq<EntryView>)>, bound: nat)
    requires
        forall|a: int, k: int| 0 <= a < s.len() && 0 <= k < s[a].1.len() ==> #[trigger] s[a].1[k].id < bound,
    ensures
        next_after(s) <= bound,
    decreases s.len(),
{
    if s.len() > 0 {
        assert forall|a: int, k: int| 0 <= a < s.drop_last().len() && 0 <= k < s.drop_last()[a].1.len() implies #[trigger] s.drop_last()[a].1[k].id < bound by {
            assert(s.drop_last()[a] == s[a]);
        }
        lemma_next_after_at_most(s.drop_last(), bound);
        let last = s.last().1;
        assert forall|k: int| 0 <= k < last.len() implies #[trigger] last[k].id < bound by {
            assert(s[s.len() - 1].1[k].id < bound);
        }
        lemma_bound_of_at_most(last, bound);
    }
}

// ---------------------------------------------------------------------------
// Laws
// ---------------------------------------------------------------------------

/// `ranks_before` never holds both ways.
proof fn lemma_ranks_asymmetric(rel: Seq<u64>, a: int, b: int)
    ensures
        !(ranks_before(rel, a, b) && ranks_before(rel, b, a)),
{
}

/// The first `k` picks of two top selections agree.
proof fn lemma_top_prefix(rel: Seq<u64>, p1: Seq<int>, p2: Seq<int>, count: nat, k: int)
    requires
        is_top(rel, p1, count),
        is_top(rel, p2, count),
        0 <= k <= count,
    ensures
        forall|i: int| 0 <= i < k ==> p1[i] == p2[i],
    decreases k,
{
    if k > 0 {
        lemma_top_prefix(rel, p1, p2, count, k - 1);
        let x = p1[k - 1];
        let y = p2[k - 1];
        if x != y {
            // `y` ranks after `x` in `p1`, and `x` after `y` in `p2`.
            assert(ranks_before(rel, x, y)) by {
                if p1.contains(y) {
                    let w = choose|w: int| 0 <= w < p1.len() && p1[w] == y;
                    if w < k - 1 {
                        assert(p2[w] == y);
                        assert(ranks_before(rel, p2[w], p2[k - 1]));
                        lemma_ranks_asymmetric(rel, y, y);
                    }
                    assert(w != k - 1);
                    assert(ranks_before(rel, p1[k - 1], p1[w]));
                }
            }
            assert(ranks_before(rel, y, x)) by {
                if p2.contains(x) {
                    let w = choose|w: int| 0 <= w < p2.len() && p2[w] == x;
                    if w < k - 1 {
                        assert(p1[w] == x);
                        assert(ranks_before(rel, p1[w], p1[k - 1]));
                        lemma_ranks_asymmetric(rel, x, x);
                    }
                    assert(w != k - 1);
                    assert(ranks_before(rel, p2[k - 1], p2[w]));
                }
            }
            lemma_ranks_asymmetric(rel, x, y);
        }
    }
}

/// A query's answer is determined: for given relevance scores and count
/// there is one top selection, so two queries of the same index with the
/// same scores and `top_k` return the same entries in the same order.
pub proof fn lemma_top_selection_unique(rel: Seq<u64>, p1: Seq<int>, p2: Seq<int>, count: nat)
    requires
        is_top(rel, p1, count),
        is_top(rel, p2, count),
    ensures
        p1 == p2,
{
    lemma_top_prefix(rel, p1, p2, count, count as int);
    assert(p1 =~= p2);
}

/// With equal relevance everywhere, asking for all entries gives them in
/// the order they were indexed.
pub proof fn lemma_equal_relevance_keeps_order(rel: Seq<u64>, picks: Seq<int>)
    requires
        forall|a: int, b: int| 0 <= a < rel.len() && 0 <= b < rel.len() ==> rel[a] == rel[b],
        is_top(rel, picks, rel.len()),
    ensures
        picks == Seq::new(rel.len(), |i: int| i),
{
    let ident = Seq::new(rel.len(), |i: int| i);
    assert forall|j: int| 0 <= j < rel.len() implies ident.contains(j) by {
        assert(ident[j] == j);
    }
    assert(is_top(rel, ident, rel.len()));
    lemma_top_selection_unique(rel, picks, ident, rel.len());
}

/// A read gives back a write: after `index` appends `e` to the index of
/// `t`, a query with equal relevance for every entry and a `top_k` above
/// the old size returns the old entries followed by `e`.
pub proof fn lemma_query_sees_indexed_entry(
    m: Map<Seq<char>, Seq<EntryView>>,
    t: Seq<char>,
    e: EntryView,
    rel: Seq<u64>,
    top_k: nat,
    picks: Seq<int>,
)
    requires
        m.contains_key(t),
        top_k > m[t].len(),
        rel.len() == m[t].len() + 1,
        forall|a: int, b: int| 0 <= a < rel.len() && 0 <= b < rel.len() ==> rel[a] == rel[b],
        is_top(rel, picks, top_count(top_k, rel.len())),
    ensures
        picks.map_values(|j: int| m.insert(t, m[t].push(e))[t][j]) == m[t].push(e),
{
    assert(top_count(top_k, rel.len()) == rel.len());
    lemma_equal_relevance_keeps_order(rel, picks);
    assert(picks.map_values(|j: int| m.insert(t, m[t].push(e))[t][j]) =~= m[t].push(e));
}

/// Saving and loading a knowledge base gives back the same one: the
/// stored indices `s` that `save` leaves describe the types and entries
/// `m` (identifiers and votes included), and the knowledge base that
/// `load` builds from them, which has view `snapshot_map(s)`, gives its
/// next entry an identifier no greater than the saved knowledge base would
/// have and above every stored one, so no identifier is ever given twice.
pub proof fn lemma_save_load_round_trip(
    m: Map<Seq<char>, Seq<EntryView>>,
    issued: u64,
    s: Seq<(Seq<char>, Seq<EntryView>)>,
)
    requires
        ids_fresh(m, issued),
        names_distinct(s),
        snapshot_map(s) == m,
    ensures
        snapshot_valid(s),
        next_after(s) <= issued,
        ids_fresh(snapshot_map(s), next_after(s) as u64),
{
    assert forall|a: int, k: int| 0 <= a < s.len() && 0 <= k < s[a].1.len() implies #[trigger] s[a].1[k].id < issued by {
        lemma_snapshot_lookup(s, a);
        assert(m[s[a].0][k].id < issued);
    }
    lemma_next_after_at_most(s, issued as nat);
    lemma_ids_below_next(s);
    assert forall|t: Seq<char>, k: int| m.contains_key(t) && 0 <= k < m[t].len() implies #[trigger] m[t][k].id < next_after(s) as u64 by {
        let a = choose|a: int| 0 <= a < s.len() && #[trigger] s[a].0 == t;
        lemma_snapshot_lookup(s, a);
        assert(s[a].1[k].id < next_after(s));
    }
}

/// Feedback changes only the vote counts: every index keeps its entries,
/// in order, with their identifiers and contents.
pub proof fn lemma_feedback_keeps_entries(
    m: Map<Seq<char>, Seq<EntryView>>,
    id: u64,
    was_useful: bool,
    t: Seq<char>,
    k: int,
)
    requires
        m.contains_key(t),
        0 <= k < m[t].len(),
    ensures
        after_feedback(m, id, was_useful).dom() == m.dom(),
        after_feedback(m, id, was_useful)[t].len() == m[t].len(),
        after_feedback(m, id, was_useful)[t][k].id == m[t][k].id,
        after_feedback(m, id, was_useful)[t][k].content == m[t][k].content,
        m[t][k].id != id ==> after_feedback(m, id, was_useful)[t][k] == m[t][k],
{
    assert(after_feedback(m, id, was_useful).dom() =~= m.dom());
}

/// A second registration of the same type is refused: once `register_type`
/// has added `t`, the type is known, which makes `register_type` answer
/// `TypeAlreadyRegistered`.
pub proof fn lemma_registered_type_is_known(m: Map<Seq<char>, Seq<EntryView>>, t: Seq<char>)
    ensures
        m.insert(t, Seq::empty()).contains_key(t),
        m.insert(t, Seq::empty())[t] == Seq::<EntryView>::empty(),
{
}

} // verus!
