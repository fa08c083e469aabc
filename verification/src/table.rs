//! The mapping table: which output universe, at which controller, each
//! input universe is relayed to.

use crate::config::{
    all_paired, bindings_view, paired, validated, Address, ConfigError, Mapping, MappingView,
};
use std::collections::HashMap;
use vstd::prelude::*;

verus! {

/// Where the frames of one input universe go.
#[derive(Debug, Clone, Copy, PartialEq, Eq)]
pub struct Target {
    pub universe: u16,
    pub address: Address,
}

/// One insertion into the table: an input universe and its target.
pub type Entry = (u16, Target);

/// The insertions that one binding stands for, in the order of its input
/// universes.
pub open spec fn pairs_of(m: MappingView) -> Seq<Entry> {
    Seq::new(
        m.inputs.len(),
        |j: int| (m.inputs[j], Target { universe: m.outputs[j], address: m.address }),
    )
}

/// The insertions that a list of bindings stands for: those of the first
/// binding, then those of the second, and so on.
pub open spec fn entries_of(bindings: Seq<MappingView>) -> Seq<Entry>
    decreases bindings.len(),
{
    if bindings.len() == 0 {
        Seq::empty()
    } else {
        entries_of(bindings.drop_last()) + pairs_of(bindings.last())
    }
}

/// The number of input universes that a list of bindings names, repeats
/// counted.
pub open spec fn total_inputs(bindings: Seq<MappingView>) -> nat
    decreases bindings.len(),
{
    if bindings.len() == 0 {
        0
    } else {
        total_inputs(bindings.drop_last()) + bindings.last().inputs.len()
    }
}

/// Entry `i` is the last one that is keyed by `universe`.
pub open spec fn is_last_write(entries: Seq<Entry>, i: int, universe: u16) -> bool {
    &&& 0 <= i < entries.len()
    &&& entries[i].0 == universe
    &&& forall|j: int| i < j < entries.len() ==> (#[trigger] entries[j]).0 != universe
}

/// Some entry is keyed by `universe`.
pub open spec fn occurs(entries: Seq<Entry>, universe: u16) -> bool {
    exists|i: int| 0 <= i < entries.len() && (#[trigger] entries[i]).0 == universe
}

/// The table that a sequence of insertions leaves behind: each universe
/// that was written maps to the target of its last write.
pub open spec fn table_of(entries: Seq<Entry>) -> Map<u16, Target> {
    Map::new(
        |u: u16| exists|i: int| is_last_write(entries, i, u),
        |u: u16| entries[choose|i: int| is_last_write(entries, i, u)].1,
    )
}

/// The number of insertions that replace an earlier one.
pub open spec fn overwrites(entries: Seq<Entry>) -> nat
    decreases entries.len(),
{
    if entries.len() == 0 {
        0
    } else {
        let earlier = entries.drop_last();
        overwrites(earlier) + if occurs(earlier, entries.last().0) {
            1nat
        } else {
            0nat
        }
    }
}

/// One more insertion changes the table as `Map::insert` does.
pub proof fn lemma_table_push(entries: Seq<Entry>, e: Entry)
    ensures
        table_of(entries.push(e)) == table_of(entries).insert(e.0, e.1),
{
    let longer = entries.push(e);
    let n = entries.len() as int;
    assert forall|u: u16, i: int| u != e.0 implies (is_last_write(longer, i, u) <==> is_last_write(
        entries,
        i,
        u,
    )) by {
        if is_last_write(longer, i, u) {
            assert(i != n);
            assert forall|j: int| i < j < entries.len() implies (#[trigger] entries[j]).0 != u by {
                assert(longer[j] == entries[j]);
            }
        }
        if is_last_write(entries, i, u) {
            assert forall|j: int| i < j < longer.len() implies (#[trigger] longer[j]).0 != u by {
                if j < n {
                    assert(longer[j] == entries[j]);
                }
            }
        }
    }
    assert(is_last_write(longer, n, e.0));
    assert forall|i: int| is_last_write(longer, i, e.0) implies i == n by {
        if i < n {
            assert(longer[n].0 == e.0);
        }
    }
    let a = table_of(longer);
    let b = table_of(entries).insert(e.0, e.1);
    assert forall|u: u16| a.contains_key(u) <==> b.contains_key(u) by {
        if u != e.0 {
            if a.contains_key(u) {
                let i = choose|i: int| is_last_write(longer, i, u);
                assert(is_last_write(entries, i, u));
            }
            if b.contains_key(u) {
                let i = choose|i: int| is_last_write(entries, i, u);
                assert(is_last_write(longer, i, u));
            }
        }
    }
    assert forall|u: u16| a.contains_key(u) implies a[u] == b[u] by {
        if u != e.0 {
            let i = choose|i: int| is_last_write(longer, i, u);
            let k = choose|k: int| is_last_write(entries, k, u);
            assert(is_last_write(entries, i, u));
            assert(is_last_write(entries, k, u));
            if i < k {
                assert(entries[k].0 == u);
            }
            if k < i {
                assert(entries[i].0 == u);
            }
            assert(longer[i] == entries[i]);
        }
    }
    assert(a =~= b);
}

/// A universe is in the table exactly when some insertion is keyed by it.
pub proof fn lemma_table_keys(entries: Seq<Entry>, universe: u16)
    ensures
        table_of(entries).contains_key(universe) <==> occurs(entries, universe),
    decreases entries.len(),
{
    if entries.len() > 0 {
        let earlier = entries.drop_last();
        let e = entries.last();
        assert(entries =~= earlier.push(e));
        lemma_table_push(earlier, e);
        lemma_table_keys(earlier, universe);
        if occurs(entries, universe) {
            let i = choose|i: int| 0 <= i < entries.len() && (#[trigger] entries[i]).0 == universe;
            if i < earlier.len() {
                assert(earlier[i].0 == universe);
            }
        }
        if occurs(earlier, universe) {
            let i = choose|i: int| 0 <= i < earlier.len() && (#[trigger] earlier[i]).0 == universe;
            assert(entries[i].0 == universe);
        }
        if universe == e.0 {
            assert(entries[entries.len() - 1].0 == universe);
        }
    } else {
        if table_of(entries).contains_key(universe) {
            let i = choose|i: int| is_last_write(entries, i, universe);
            assert(false);
        }
    }
}

/// Last write wins: the table resolves a universe to the target of the
/// last insertion that is keyed by it.
pub proof fn lemma_last_write_wins(entries: Seq<Entry>, i: int)
    requires
        0 <= i < entries.len(),
        is_last_write(entries, i, entries[i].0),
    ensures
        table_of(entries).contains_key(entries[i].0),
        table_of(entries)[entries[i].0] == entries[i].1,
{
    let u = entries[i].0;
    let k = choose|k: int| is_last_write(entries, k, u);
    if i < k {
        assert(entries[k].0 == u);
    }
    if k < i {
        assert(entries[i].0 == u);
    }
}

/// Insertions that are keyed by other universes leave the entry of
/// `universe` as it was.
pub proof fn lemma_table_append_other(entries: Seq<Entry>, more: Seq<Entry>, universe: u16)
    requires
        !occurs(more, universe),
    ensures
        table_of(entries + more).contains_key(universe) == table_of(entries).contains_key(universe),
        table_of(entries + more)[universe] == table_of(entries)[universe],
    decreases more.len(),
{
    if more.len() == 0 {
        assert(entries + more =~= entries);
    } else {
        let init = more.drop_last();
        let e = more.last();
        assert(more[more.len() - 1].0 != universe);
        assert(!occurs(init, universe)) by {
            if occurs(init, universe) {
                let i = choose|i: int| 0 <= i < init.len() && (#[trigger] init[i]).0 == universe;
                assert(more[i].0 == universe);
            }
        }
        lemma_table_append_other(entries, init, universe);
        assert(entries + more =~= (entries + init).push(e));
        lemma_table_push(entries + init, e);
    }
}

/// The table is finite, and its size is the number of insertions less
/// those that replaced an earlier one.
pub proof fn lemma_table_size(entries: Seq<Entry>)
    ensures
        table_of(entries).dom().finite(),
        table_of(entries).len() + overwrites(entries) == entries.len(),
    decreases entries.len(),
{
    if entries.len() == 0 {
        assert(table_of(entries) =~= Map::<u16, Target>::empty()) by {
            assert forall|u: u16| !table_of(entries).contains_key(u) by {
                lemma_table_keys(entries, u);
            }
        }
    } else {
        let earlier = entries.drop_last();
        let e = entries.last();
        assert(entries =~= earlier.push(e));
        lemma_table_push(earlier, e);
        lemma_table_size(earlier);
        lemma_table_keys(earlier, e.0);
        assert(table_of(entries).dom() =~= table_of(earlier).dom().insert(e.0));
    }
}

/// A list of bindings stands for as many insertions as it names input
/// universes.
pub proof fn lemma_entries_len(bindings: Seq<MappingView>)
    ensures
        entries_of(bindings).len() == total_inputs(bindings),
    decreases bindings.len(),
{
    if bindings.len() > 0 {
        lemma_entries_len(bindings.drop_last());
    }
}

/// The table built from a list of bindings holds one entry for each input
/// universe that the bindings name, less the writes that replaced an
/// earlier one.
pub proof fn lemma_table_entry_count(bindings: Seq<MappingView>)
    ensures
        table_of(entries_of(bindings)).dom().finite(),
        table_of(entries_of(bindings)).len() + overwrites(entries_of(bindings)) == total_inputs(
            bindings,
        ),
{
    lemma_entries_len(bindings);
    lemma_table_size(entries_of(bindings));
}

/// No input universe is named after position `j` of binding `b`: neither
/// later in that binding nor in a later binding.
pub open spec fn named_last_at(bindings: Seq<MappingView>, b: int, j: int) -> bool {
    &&& 0 <= b < bindings.len()
    &&& 0 <= j < bindings[b].inputs.len()
    &&& forall|j2: int|
        j < j2 < bindings[b].inputs.len() ==> #[trigger] bindings[b].inputs[j2]
            != bindings[b].inputs[j]
    &&& forall|b2: int, j2: int|
        b < b2 < bindings.len() && 0 <= j2 < bindings[b2].inputs.len()
            ==> #[trigger] bindings[b2].inputs[j2] != bindings[b].inputs[j]
}

/// Last write wins, over bindings: where several bindings (or several
/// positions of one binding) name the same input universe, the table
/// resolves it to the output universe and the address of the one that
/// comes last.
pub proof fn lemma_later_binding_wins(bindings: Seq<MappingView>, b: int, j: int)
    requires
        named_last_at(bindings, b, j),
    ensures
        table_of(entries_of(bindings)).contains_key(bindings[b].inputs[j]),
        table_of(entries_of(bindings))[bindings[b].inputs[j]] == (Target {
            universe: bindings[b].outputs[j],
            address: bindings[b].address,
        }),
    decreases bindings.len(),
{
    let u = bindings[b].inputs[j];
    let init = bindings.drop_last();
    let last = bindings.last();
    let head = entries_of(init);
    let tail = pairs_of(last);
    if b == bindings.len() - 1 {
        let es = head + tail;
        let i = head.len() + j;
        assert(es[i] == tail[j]);
        assert forall|k: int| i < k < es.len() implies (#[trigger] es[k]).0 != u by {
            assert(es[k] == tail[k - head.len()]);
            assert(last.inputs[k - head.len()] != u);
        }
        assert(is_last_write(es, i, u));
        lemma_last_write_wins(es, i);
    } else {
        assert(named_last_at(init, b, j)) by {
            assert(init[b] == bindings[b]);
            assert forall|b2: int, j2: int|
                b < b2 < init.len() && 0 <= j2 < init[b2].inputs.len() implies #[trigger] init[b2].inputs[j2]
                != u by {
                assert(init[b2] == bindings[b2]);
            }
        }
        lemma_later_binding_wins(init, b, j);
        assert(init[b] == bindings[b]);
        assert(!occurs(tail, u)) by {
            if occurs(tail, u) {
                let k = choose|k: int| 0 <= k < tail.len() && (#[trigger] tail[k]).0 == u;
                assert(bindings[bindings.len() - 1].inputs[k] != u);
            }
        }
        lemma_table_append_other(head, tail, u);
    }
}

/// The routing table, fixed once it is built.
pub struct MappingTable {
    entries: HashMap<u16, Target>,
}

impl View for MappingTable {
    type V = Map<u16, Target>;

    closed spec fn view(&self) -> Map<u16, Target> {
        self.entries@
    }
}

impl MappingTable {
    /// Builds the table from the bindings, inserting their pairs in order,
    /// so that a universe named more than once keeps its last target.
    /// Fails, naming the first offender, when a binding does not have as
    /// many output as input universes.
    pub fn build(bindings: &Vec<Mapping>) -> (r: Result<MappingTable, ConfigError>)
        ensures
            r is Ok <==> all_paired(bindings_view(bindings@)),
            match r {
                Ok(table) => {
                    &&& table@ == table_of(entries_of(bindings_view(bindings@)))
                    &&& table@.dom().finite()
                    &&& table@.len() + overwrites(entries_of(bindings_view(bindings@)))
                        == total_inputs(bindings_view(bindings@))
                },
                Err(e) => validated(bindings_view(bindings@), Err(e)),
            },
    {
        broadcast use vstd::std_specs::hash::group_hash_axioms;

        let ghost views = bindings_view(bindings@);
        let mut entries: HashMap<u16, Target> = HashMap::new();
        let mut i: usize = 0;
        assert(entries@ =~= table_of(entries_of(views.take(0)))) by {
            assert forall|u: u16| !table_of(Seq::<Entry>::empty()).contains_key(u) by {
                lemma_table_keys(Seq::<Entry>::empty(), u);
            }
        }
        while i < bindings.len()
            invariant
                i <= bindings.len(),
                views == bindings_view(bindings@),
                all_paired(views.take(i as int)),
                entries@ == table_of(entries_of(views.take(i as int))),
            decreases bindings.len() - i,
        {
            let binding = &bindings[i];
            let inputs: usize = binding.input_universes.len();
            let outputs: usize = binding.output_universes.len();
            if inputs != outputs {
                assert(!paired(views[i as int]));
                return Err(ConfigError::LengthMismatch { mapping: i, inputs, outputs });
            }
            let ghost head = entries_of(views.take(i as int));
            let ghost tail = pairs_of(views[i as int]);
            let mut j: usize = 0;
            assert(head + tail.take(0) =~= head);
            while j < inputs
                invariant
                    j <= inputs,
                    i < bindings.len(),
                    binding == &bindings[i as int],
                    inputs == binding.input_universes.len(),
                    inputs == binding.output_universes.len(),
                    views == bindings_view(bindings@),
                    tail == pairs_of(views[i as int]),
                    entries@ == table_of(head + tail.take(j as int)),
                decreases inputs - j,
            {
                let target = Target { universe: binding.output_universes[j], address: binding.address };
                entries.insert(binding.input_universes[j], target);
                proof {
                    let e = (binding.input_universes[j as int], target);
                    assert(tail[j as int] == e);
                    assert(head + tail.take(j + 1) =~= (head + tail.take(j as int)).push(e));
                    lemma_table_push(head + tail.take(j as int), e);
                }
                j += 1;
            }
            proof {
                assert(tail.take(j as int) =~= tail);
                assert(views.take(i + 1).drop_last() =~= views.take(i as int));
                assert(views.take(i + 1).last() == views[i as int]);
                assert(entries_of(views.take(i + 1)) == head + tail);
                assert forall|k: int| 0 <= k < i + 1 implies paired(
                    #[trigger] views.take(i + 1)[k],
                ) by {
                    if k < i {
                        assert(views.take(i as int)[k] == views[k]);
                    }
                }
            }
            i += 1;
        }
        assert(views.take(i as int) =~= views);
        proof {
            lemma_table_entry_count(views);
        }
        Ok(MappingTable { entries })
    }

    /// The target of an input universe, or `None` for a universe that is
    /// not relayed.
    pub fn lookup(&self, universe: u16) -> (r: Option<Target>)
        ensures
            r == (if self@.contains_key(universe) {
                Some(self@[universe])
            } else {
                None
            }),
    {
        broadcast use vstd::std_specs::hash::group_hash_axioms;

        match self.entries.get(&universe) {
            Some(target) => Some(*target),
            None => None,
        }
    }

    /// The number of input universes that the table relays.
    pub fn len(&self) -> (n: usize)
        ensures
            self@.dom().finite(),
            n == self@.len(),
    {
        broadcast use vstd::std_specs::hash::group_hash_axioms;

        self.entries.len()
    }
}

} // verus!
