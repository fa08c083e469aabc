//! The input universes that a relay has to listen to.

use crate::config::{bindings_view, Mapping, MappingView};
use crate::table::{
    entries_of, lemma_table_entry_count, lemma_table_keys, occurs, overwrites, pairs_of,
    table_of, total_inputs, Entry,
};
use vstd::prelude::*;

verus! {

/// The input universes that a list of bindings names, in the order they
/// are written, repeats included.
pub open spec fn inputs_of(bindings: Seq<MappingView>) -> Seq<u16>
    decreases bindings.len(),
{
    if bindings.len() == 0 {
        Seq::empty()
    } else {
        inputs_of(bindings.drop_last()) + bindings.last().inputs
    }
}

/// A sequence without its repeats: each value stays where it first stood.
pub open spec fn distinct(s: Seq<u16>) -> Seq<u16>
    decreases s.len(),
{
    if s.len() == 0 {
        Seq::empty()
    } else {
        let earlier = distinct(s.drop_last());
        if earlier.contains(s.last()) {
            earlier
        } else {
            earlier.push(s.last())
        }
    }
}

/// `distinct` keeps every value once.
pub proof fn lemma_distinct(s: Seq<u16>)
    ensures
        distinct(s).no_duplicates(),
        forall|u: u16| distinct(s).contains(u) <==> s.contains(u),
    decreases s.len(),
{
    if s.len() > 0 {
        let init = s.drop_last();
        let x = s.last();
        let earlier = distinct(init);
        lemma_distinct(init);
        assert forall|u: u16| distinct(s).contains(u) <==> s.contains(u) by {
            if distinct(s).contains(u) {
                if earlier.contains(u) {
                    assert(init.contains(u));
                    let i = choose|i: int| 0 <= i < init.len() && init[i] == u;
                    assert(s[i] == u);
                } else {
                    let i = choose|i: int| 0 <= i < distinct(s).len() && distinct(s)[i] == u;
                    if i < earlier.len() {
                        assert(earlier[i] == u);
                    }
                    assert(u == x);
                    assert(s[s.len() - 1] == u);
                }
            }
            if s.contains(u) {
                let i = choose|i: int| 0 <= i < s.len() && s[i] == u;
                if i < init.len() {
                    assert(init[i] == u);
                    assert(init.contains(u));
                    assert(earlier.contains(u));
                    let k = choose|k: int| 0 <= k < earlier.len() && earlier[k] == u;
                    assert(distinct(s)[k] == u);
                } else {
                    assert(u == x);
                    if !earlier.contains(x) {
                        assert(distinct(s)[earlier.len() as int] == x);
                    }
                }
            }
        }
    }
}

/// The insertions of a list of bindings are keyed by its input universes,
/// one for one.
pub proof fn lemma_inputs_are_keys(bindings: Seq<MappingView>)
    ensures
        inputs_of(bindings).len() == entries_of(bindings).len(),
        forall|k: int|
            0 <= k < inputs_of(bindings).len() ==> (#[trigger] entries_of(bindings)[k]).0
                == inputs_of(bindings)[k],
    decreases bindings.len(),
{
    if bindings.len() > 0 {
        lemma_inputs_are_keys(bindings.drop_last());
        let head = entries_of(bindings.drop_last());
        let tail = pairs_of(bindings.last());
        assert forall|k: int| 0 <= k < inputs_of(bindings).len() implies (#[trigger] entries_of(
            bindings,
        )[k]).0 == inputs_of(bindings)[k] by {
            if k >= head.len() {
                assert(entries_of(bindings)[k] == tail[k - head.len()]);
            }
        }
    }
}

/// The universes to listen to are exactly those that the table relays.
pub proof fn lemma_subscription_matches_table(bindings: Seq<MappingView>, universe: u16)
    ensures
        distinct(inputs_of(bindings)).contains(universe) <==> table_of(
            entries_of(bindings),
        ).contains_key(universe),
{
    let inputs = inputs_of(bindings);
    let entries = entries_of(bindings);
    lemma_distinct(inputs);
    lemma_inputs_are_keys(bindings);
    lemma_table_keys(entries, universe);
    if inputs.contains(universe) {
        let i = choose|i: int| 0 <= i < inputs.len() && inputs[i] == universe;
        assert(entries[i].0 == universe);
    }
    if occurs(entries, universe) {
        let i = choose|i: int| 0 <= i < entries.len() && (#[trigger] entries[i]).0 == universe;
        assert(inputs[i] == universe);
    }
}

/// Insertions under keys that are all different replace nothing.
proof fn lemma_different_keys_replace_nothing(entries: Seq<Entry>)
    requires
        forall|i: int, j: int|
            0 <= i < entries.len() && 0 <= j < entries.len() && i != j ==> (#[trigger] entries[i]).0
                != (#[trigger] entries[j]).0,
    ensures
        overwrites(entries) == 0,
    decreases entries.len(),
{
    if entries.len() > 0 {
        let earlier = entries.drop_last();
        assert forall|i: int, j: int|
            0 <= i < earlier.len() && 0 <= j < earlier.len() && i != j implies (#[trigger] earlier[i]).0
            != (#[trigger] earlier[j]).0 by {
            assert(earlier[i] == entries[i]);
            assert(earlier[j] == entries[j]);
        }
        lemma_different_keys_replace_nothing(earlier);
        if occurs(earlier, entries.last().0) {
            let i = choose|i: int|
                0 <= i < earlier.len() && (#[trigger] earlier[i]).0 == entries.last().0;
            assert(earlier[i] == entries[i]);
            assert(entries[i].0 != entries[entries.len() - 1].0);
        }
    }
}

/// Where no input universe is named twice, the table holds exactly as many
/// entries as the bindings name input universes.
pub proof fn lemma_no_repeat_full_table(bindings: Seq<MappingView>)
    requires
        inputs_of(bindings).no_duplicates(),
    ensures
        overwrites(entries_of(bindings)) == 0,
        table_of(entries_of(bindings)).len() == total_inputs(bindings),
{
    let entries = entries_of(bindings);
    let inputs = inputs_of(bindings);
    lemma_inputs_are_keys(bindings);
    assert forall|i: int, j: int|
        0 <= i < entries.len() && 0 <= j < entries.len() && i != j implies (#[trigger] entries[i]).0
        != (#[trigger] entries[j]).0 by {
        assert(inputs[i] != inputs[j]);
    }
    lemma_different_keys_replace_nothing(entries);
    lemma_table_entry_count(bindings);
}

/// Whether one of the first `end` values of a list is the given universe.
fn occurs_before(list: &Vec<u16>, end: usize, universe: u16) -> (r: bool)
    requires
        end <= list.len(),
    ensures
        r == list@.take(end as int).contains(universe),
{
    let mut i: usize = 0;
    while i < end
        invariant
            i <= end,
            end <= list.len(),
            forall|k: int| 0 <= k < i ==> list@[k] != universe,
        decreases end - i,
    {
        if list[i] == universe {
            assert(list@.take(end as int)[i as int] == universe);
            return true;
        }
        i += 1;
    }
    false
}

/// Whether a list holds a universe.
fn holds(list: &Vec<u16>, universe: u16) -> (r: bool)
    ensures
        r == list@.contains(universe),
{
    assert(list@.take(list.len() as int) =~= list@);
    occurs_before(list, list.len(), universe)
}

/// Position `j` holds the first value that stood in the sequence before.
pub open spec fn repeats_first_at(s: Seq<u16>, j: int) -> bool {
    &&& 0 <= j < s.len()
    &&& s.take(j).no_duplicates()
    &&& s.take(j).contains(s[j])
}

/// The input universes of all bindings, in the order they are written,
/// repeats included.
pub fn input_universes(bindings: &Vec<Mapping>) -> (r: Vec<u16>)
    ensures
        r@ == inputs_of(bindings_view(bindings@)),
{
    let ghost views = bindings_view(bindings@);
    let mut out: Vec<u16> = Vec::new();
    let mut i: usize = 0;
    while i < bindings.len()
        invariant
            i <= bindings.len(),
            views == bindings_view(bindings@),
            out@ == inputs_of(views.take(i as int)),
        decreases bindings.len() - i,
    {
        let inputs = &bindings[i].input_universes;
        let ghost head = inputs_of(views.take(i as int));
        let mut j: usize = 0;
        assert(head + inputs@.take(0) =~= head);
        while j < inputs.len()
            invariant
                j <= inputs.len(),
                out@ == head + inputs@.take(j as int),
            decreases inputs.len() - j,
        {
            out.push(inputs[j]);
            assert(head + inputs@.take(j + 1) =~= (head + inputs@.take(j as int)).push(
                inputs@[j as int],
            ));
            j += 1;
        }
        proof {
            assert(inputs@.take(j as int) =~= inputs@);
            assert(views.take(i + 1).drop_last() =~= views.take(i as int));
            assert(views.take(i + 1).last().inputs == inputs@);
        }
        i += 1;
    }
    assert(views.take(i as int) =~= views);
    out
}

/// The first universe of a list that stood in it before, or `None` where
/// no universe is named twice. Naming a universe twice is no error: the
/// table keeps the last target, and a caller may want to warn.
pub fn first_repeat(universes: &Vec<u16>) -> (r: Option<u16>)
    ensures
        match r {
            Some(universe) => exists|j: int|
                repeats_first_at(universes@, j) && universes@[j] == universe,
            None => universes@.no_duplicates(),
        },
{
    let mut j: usize = 0;
    while j < universes.len()
        invariant
            j <= universes.len(),
            universes@.take(j as int).no_duplicates(),
        decreases universes.len() - j,
    {
        if occurs_before(universes, j, universes[j]) {
            assert(repeats_first_at(universes@, j as int));
            return Some(universes[j]);
        }
        proof {
            let shorter = universes@.take(j as int);
            let longer = universes@.take(j + 1);
            assert forall|a: int, b: int|
                0 <= a < longer.len() && 0 <= b < longer.len() && a != b implies longer[a]
                != longer[b] by {
                if a < j && b < j {
                    assert(shorter[a] != shorter[b]);
                } else if a < j {
                    assert(shorter[a] == longer[a]);
                } else {
                    assert(shorter[b] == longer[b]);
                }
            }
        }
        j += 1;
    }
    assert(universes@.take(j as int) =~= universes@);
    None
}

/// The input universes of all bindings, each once, in the order in which
/// they are first named.
pub fn subscription(bindings: &Vec<Mapping>) -> (r: Vec<u16>)
    ensures
        r@ == distinct(inputs_of(bindings_view(bindings@))),
{
    let ghost views = bindings_view(bindings@);
    let mut out: Vec<u16> = Vec::new();
    let mut i: usize = 0;
    while i < bindings.len()
        invariant
            i <= bindings.len(),
            views == bindings_view(bindings@),
            out@ == distinct(inputs_of(views.take(i as int))),
        decreases bindings.len() - i,
    {
        let inputs = &bindings[i].input_universes;
        let ghost head = inputs_of(views.take(i as int));
        let mut j: usize = 0;
        assert(head + inputs@.take(0) =~= head);
        while j < inputs.len()
            invariant
                j <= inputs.len(),
                out@ == distinct(head + inputs@.take(j as int)),
            decreases inputs.len() - j,
        {
            let universe: u16 = inputs[j];
            proof {
                let before = head + inputs@.take(j as int);
                let after = head + inputs@.take(j + 1);
                assert(after.drop_last() =~= before);
                assert(after.last() == universe);
            }
            if !holds(&out, universe) {
                out.push(universe);
            }
            j += 1;
        }
        proof {
            assert(inputs@.take(j as int) =~= inputs@);
            assert(views.take(i + 1).drop_last() =~= views.take(i as int));
            assert(views.take(i + 1).last().inputs == inputs@);
        }
        i += 1;
    }
    assert(views.take(i as int) =~= views);
    out
}

} // verus!
