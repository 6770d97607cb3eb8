//! Size records of slices, keyed by value id.

use fxhash::FxHashMap;
use vstd::prelude::*;

verus! {

#[verifier::external_type_specification]
#[verifier::external_body]
pub struct ExFxHasher(fxhash::FxHasher);

#[verifier::external_type_specification]
#[verifier::external_body]
#[verifier::reject_recursive_types(H)]
pub struct ExBuildHasherDefault<H>(core::hash::BuildHasherDefault<H>);

/// What is known of one slice: the largest length it may have had, and the
/// slices directly inside it.
#[derive(Debug)]
pub struct SizeRecord {
    pub max_length: usize,
    pub inner: Vec<usize>,
}

/// The size records of one block, by the id of the slice they describe.
pub type SizeTable = FxHashMap<usize, SizeRecord>;

/// `Default` of `FxHashMap`, a `HashMap` with `fxhash::FxHasher` for its
/// hasher: a map without entries.
#[verifier::external_body]
pub(crate) fn table_new() -> (table: SizeTable)
    ensures
        table@.dom() == Set::<usize>::empty(),
{
    FxHashMap::default()
}

/// `HashMap::get` with `fxhash::FxHasher` for the hasher: the record stored
/// under `key`, or nothing where the map has no such key.
#[verifier::external_body]
pub(crate) fn table_get(table: &SizeTable, key: usize) -> (entry: Option<&SizeRecord>)
    ensures
        match entry {
            Some(record) => table@.contains_key(key) && *record == table@[key],
            None => !table@.contains_key(key),
        },
{
    table.get(&key)
}

/// `HashMap::insert` with `fxhash::FxHasher` for the hasher: `key` maps to
/// `record` afterwards, and every other key to what it mapped to before.
#[verifier::external_body]
pub(crate) fn table_insert(
    table: &mut SizeTable,
    key: usize,
    record: SizeRecord,
)
    ensures
        final(table)@ == old(table)@.insert(key, record),
{
    table.insert(key, record);
}

/// `HashMap::len` with `fxhash::FxHasher` for the hasher: the number of
/// keys.
#[verifier::external_body]
pub(crate) fn table_len(table: &SizeTable) -> (entries: usize)
    ensures
        entries == table@.dom().len(),
{
    table.len()
}

/// The mathematical value of a [`SizeRecord`].
pub ghost struct RecordView {
    pub max_length: nat,
    pub inner: Seq<usize>,
}

impl View for SizeRecord {
    type V = RecordView;

    open spec fn view(&self) -> RecordView {
        RecordView { max_length: self.max_length as nat, inner: self.inner@ }
    }
}

/// The records that a table holds, each by its mathematical value.
pub open spec fn records(table: SizeTable) -> Map<usize, RecordView> {
    Map::new(|id: usize| table@.contains_key(id), |id: usize| table@[id]@)
}

/// Whether `to` lies `hops` levels of nesting below `from`: a slice directly
/// inside a slice lies one level below it.
pub open spec fn reaches(sizes: Map<usize, RecordView>, from: usize, to: usize, hops: nat) -> bool
    decreases hops,
{
    if hops == 0 {
        from == to && sizes.contains_key(from)
    } else {
        sizes.contains_key(from) && exists|k: int|
            0 <= k < sizes[from].inner.len() && reaches(
                sizes,
                #[trigger] sizes[from].inner[k],
                to,
                (hops - 1) as nat,
            )
    }
}

/// Whether everything nested in `id` has a record and lies at most `depth`
/// levels below it.
pub open spec fn nests_within(sizes: Map<usize, RecordView>, id: usize, depth: nat) -> bool
    decreases depth,
{
    &&& sizes.contains_key(id)
    &&& forall|k: int|
        0 <= k < sizes[id].inner.len() ==> depth > 0 && nests_within(
            sizes,
            #[trigger] sizes[id].inner[k],
            (depth - 1) as nat,
        )
}

/// Whether the nesting below `id` is recorded in full and comes to an end.
pub open spec fn nesting_ends(sizes: Map<usize, RecordView>, id: usize) -> bool {
    exists|depth: nat| nests_within(sizes, id, depth)
}

/// Whether `bound` is the largest length recorded for `id` or for anything
/// nested in it, at any depth.
pub open spec fn is_nested_max(sizes: Map<usize, RecordView>, id: usize, bound: nat) -> bool {
    &&& exists|v: usize, hops: nat| #[trigger] reaches(sizes, id, v, hops) && sizes[v].max_length == bound
    &&& forall|v: usize, hops: nat| #[trigger] reaches(sizes, id, v, hops) ==> sizes[v].max_length <= bound
}

/// The largest length recorded for `id` or for anything nested in it.
pub open spec fn max_depth(sizes: Map<usize, RecordView>, id: usize) -> nat {
    choose|bound: nat| is_nested_max(sizes, id, bound)
}

/// Whether `bound` is the largest length recorded among the slices directly
/// inside `id`; `None` where there is no slice inside it.
pub open spec fn is_sibling_max(sizes: Map<usize, RecordView>, id: usize, bound: Option<nat>) -> bool {
    let inner = sizes[id].inner;
    match bound {
        None => inner.len() == 0,
        Some(max) => {
            &&& exists|k: int| 0 <= k < inner.len() && sizes[#[trigger] inner[k]].max_length == max
            &&& forall|k: int| 0 <= k < inner.len() ==> sizes[#[trigger] inner[k]].max_length <= max
        },
    }
}

/// There is one nested maximum at most.
pub proof fn lemma_nested_max_unique(sizes: Map<usize, RecordView>, id: usize, bound: nat)
    requires
        is_nested_max(sizes, id, bound),
    ensures
        max_depth(sizes, id) == bound,
{
    let chosen = max_depth(sizes, id);
    assert(is_nested_max(sizes, id, chosen));
}

/// What nests within some depth nests within any greater depth.
pub proof fn lemma_nests_deeper(sizes: Map<usize, RecordView>, id: usize, depth: nat, deeper: nat)
    requires
        nests_within(sizes, id, depth),
        depth <= deeper,
    ensures
        nests_within(sizes, id, deeper),
    decreases depth,
{
    assert forall|k: int| 0 <= k < sizes[id].inner.len() implies deeper > 0 && nests_within(
        sizes,
        #[trigger] sizes[id].inner[k],
        (deeper - 1) as nat,
    ) by {
        lemma_nests_deeper(sizes, sizes[id].inner[k], (depth - 1) as nat, (deeper - 1) as nat);
    }
}

/// What lies some levels below a nest of a given depth is a nest that is
/// shallower by as much.
pub proof fn lemma_nest_below(sizes: Map<usize, RecordView>, id: usize, depth: nat, to: usize, hops: nat)
    requires
        nests_within(sizes, id, depth),
        reaches(sizes, id, to, hops),
    ensures
        hops <= depth,
        nests_within(sizes, to, (depth - hops) as nat),
    decreases hops,
{
    if hops > 0 {
        let k = choose|k: int|
            0 <= k < sizes[id].inner.len() && reaches(
                sizes,
                #[trigger] sizes[id].inner[k],
                to,
                (hops - 1) as nat,
            );
        lemma_nest_below(sizes, sizes[id].inner[k], (depth - 1) as nat, to, (hops - 1) as nat);
    }
}

/// Nothing in a nest that comes to an end lies below itself.
proof fn lemma_nest_has_no_circle(sizes: Map<usize, RecordView>, id: usize, depth: nat, hops: nat)
    requires
        nests_within(sizes, id, depth),
        reaches(sizes, id, id, hops),
    ensures
        hops == 0,
    decreases depth,
{
    if hops >= 1 {
        lemma_nest_below(sizes, id, depth, id, hops);
        lemma_nest_has_no_circle(sizes, id, (depth - hops) as nat, hops);
    }
}

/// Whether each id of `path` but the last has a record that lists the next
/// one.
spec fn descends(sizes: Map<usize, RecordView>, path: Seq<usize>) -> bool {
    forall|k: int|
        0 <= k < path.len() - 1 ==> sizes.contains_key(#[trigger] path[k]) && sizes[path[k]].inner.contains(
            path[k + 1],
        )
}

/// The least depth within which a nest lies.
proof fn lemma_least_depth(sizes: Map<usize, RecordView>, id: usize, depth: nat) -> (least: nat)
    requires
        nests_within(sizes, id, depth),
    ensures
        least <= depth,
        nests_within(sizes, id, least),
        least == 0 || !nests_within(sizes, id, (least - 1) as nat),
    decreases depth,
{
    if depth > 0 && nests_within(sizes, id, (depth - 1) as nat) {
        lemma_least_depth(sizes, id, (depth - 1) as nat)
    } else {
        depth
    }
}

/// In a nest that lies within no less than `depth` levels, one of the slices
/// directly inside lies within no less than one level fewer.
proof fn lemma_deepest_inner(sizes: Map<usize, RecordView>, id: usize, depth: nat, from: nat) -> (k: int)
    requires
        depth > 0,
        sizes.contains_key(id),
        !nests_within(sizes, id, (depth - 1) as nat),
        from <= sizes[id].inner.len(),
        forall|j: int|
            0 <= j < from ==> depth - 1 > 0 && nests_within(
                sizes,
                #[trigger] sizes[id].inner[j],
                (depth - 2) as nat,
            ),
    ensures
        0 <= k < sizes[id].inner.len(),
        !(depth - 1 > 0 && nests_within(sizes, sizes[id].inner[k], (depth - 2) as nat)),
    decreases sizes[id].inner.len() - from,
{
    if from == sizes[id].inner.len() {
        if sizes[id].inner.len() > 0 {
            let first = sizes[id].inner[0];
            assert(depth - 1 > 0 && nests_within(sizes, first, (depth - 2) as nat));
        }
        assert(nests_within(sizes, id, (depth - 1) as nat));
        0
    } else if depth - 1 > 0 && nests_within(sizes, sizes[id].inner[from as int], (depth - 2) as nat) {
        lemma_deepest_inner(sizes, id, depth, from + 1)
    } else {
        from as int
    }
}

/// A nest that lies within no less than `depth` levels has a path that goes
/// down that many levels.
proof fn lemma_longest_path(sizes: Map<usize, RecordView>, id: usize, depth: nat) -> (path: Seq<usize>)
    requires
        nests_within(sizes, id, depth),
        depth == 0 || !nests_within(sizes, id, (depth - 1) as nat),
    ensures
        path.len() == depth + 1,
        path[0] == id,
        descends(sizes, path),
        sizes.contains_key(path.last()),
    decreases depth,
{
    if depth == 0 {
        seq![id]
    } else {
        let k = lemma_deepest_inner(sizes, id, depth, 0);
        let inner = sizes[id].inner[k];
        assert(nests_within(sizes, inner, (depth - 1) as nat));
        let rest = lemma_longest_path(sizes, inner, (depth - 1) as nat);
        let path = seq![id] + rest;
        assert forall|j: int| 0 <= j < path.len() - 1 implies sizes.contains_key(#[trigger] path[j])
            && sizes[path[j]].inner.contains(path[j + 1]) by {
            if j == 0 {
                assert(path[0] == id);
                assert(path[1] == rest[0]);
                assert(sizes[id].inner[k] == path[1]);
            } else {
                assert(path[j] == rest[j - 1]);
                assert(path[j + 1] == rest[j]);
            }
        }
        assert(path.last() == rest.last());
        path
    }
}

/// Along a path that goes down level by level, each id lies below the ids
/// before it, by as many levels as the path has steps between them.
proof fn lemma_path_reaches(sizes: Map<usize, RecordView>, path: Seq<usize>, i: int, j: int)
    requires
        descends(sizes, path),
        sizes.contains_key(path.last()),
        0 <= i <= j < path.len(),
    ensures
        reaches(sizes, path[i], path[j], (j - i) as nat),
    decreases j - i,
{
    if i < j {
        lemma_path_reaches(sizes, path, i + 1, j);
        assert(sizes.contains_key(path[i]) && sizes[path[i]].inner.contains(path[i + 1]));
        let k = choose|k: int| 0 <= k < sizes[path[i]].inner.len() && sizes[path[i]].inner[k] == path[i + 1];
        assert(reaches(sizes, sizes[path[i]].inner[k], path[j], (j - i - 1) as nat));
    } else {
        if i < path.len() - 1 {
            assert(sizes.contains_key(path[i]));
        }
    }
}

/// A nest that comes to an end is no deeper than there are records: no path
/// down it passes an id twice.
pub proof fn lemma_nest_is_shallow(sizes: Map<usize, RecordView>, id: usize)
    requires
        sizes.dom().finite(),
        nesting_ends(sizes, id),
    ensures
        nests_within(sizes, id, sizes.dom().len()),
{
    let depth = choose|depth: nat| nests_within(sizes, id, depth);
    let least = lemma_least_depth(sizes, id, depth);
    let path = lemma_longest_path(sizes, id, least);
    assert forall|i: int, j: int| 0 <= i < path.len() && 0 <= j < path.len() && i != j implies path[i]
        != path[j] by {
        if path[i] == path[j] {
            let (a, b) = if i < j {
                (i, j)
            } else {
                (j, i)
            };
            lemma_path_reaches(sizes, path, 0, a);
            lemma_nest_below(sizes, id, least, path[a], a as nat);
            lemma_path_reaches(sizes, path, a, b);
            lemma_nest_has_no_circle(sizes, path[a], (least - a) as nat, (b - a) as nat);
        }
    }
    assert(path.no_duplicates());
    path.unique_seq_to_set();
    assert(path.to_set().subset_of(sizes.dom())) by {
        assert forall|v: usize| path.to_set().contains(v) implies sizes.dom().contains(v) by {
            let k = choose|k: int| 0 <= k < path.len() && path[k] == v;
            if k < path.len() - 1 {
                assert(sizes.contains_key(path[k]));
            }
        }
    }
    vstd::set_lib::lemma_len_subset(path.to_set(), sizes.dom());
    lemma_nests_deeper(sizes, id, least, sizes.dom().len());
}

} // verus!
