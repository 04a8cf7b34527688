//! Cutting a table down to its highest-scored entries.
use vstd::prelude::*;

use crate::selector::{CappedTopMap, keeps_top};
use crate::table::{KeyTable, Scored, counts_view};

verus! {

/// The score of every value of a table.
pub open spec fn scores_of<V: Scored>(m: Map<Seq<char>, V::V>) -> Map<Seq<char>, nat> {
    m.map_values(|v: V::V| V::score_of(v))
}

/// The names of the first `i` entries.
pub open spec fn prefix_names<V>(es: Seq<(String, V)>, i: int) -> Set<Seq<char>> {
    Set::new(|k: Seq<char>| exists|j: int| 0 <= j < i && es[j].0@ == k)
}

/// Retains the top `top_count` elements in the given table, by score.
/// If the table has fewer elements than `top_count`, all of them are kept.
/// Between equal scores, the name that comes first in the tie-break order is kept.
pub fn retain_top_elements<V: Scored>(elements: &mut KeyTable<V>, top_count: usize)
    requires
        old(elements).wf(),
    ensures
        final(elements).wf(),
        keeps_top(final(elements)@, old(elements)@, scores_of::<V>(old(elements)@), top_count as nat),
{
    let ghost m = elements@;
    let ghost scores = scores_of::<V>(m);
    let mut selector = CappedTopMap::new(top_count);
    let es = elements.entries();
    let mut i: usize = 0;
    while i < es.len()
        invariant
            elements.wf(),
            elements@ == m,
            es@.len() == m.len(),
            forall|j: int|
                #![trigger es@[j]]
                0 <= j < es@.len() ==> m.contains_key(es@[j].0@) && m[es@[j].0@] == es@[j].1@
                    && es@[j].1.inv(),
            forall|k: Seq<char>|
                #[trigger] m.contains_key(k) ==> exists|j: int| 0 <= j < es@.len() && es@[j].0@ == k,
            forall|j: int, l: int|
                0 <= j < es@.len() && 0 <= l < es@.len() && j != l ==> #[trigger] es@[j].0@
                    != #[trigger] es@[l].0@,
            i <= es@.len(),
            scores == scores_of::<V>(m),
            selector.wf(),
            selector.capacity() == top_count,
            selector.seen() == scores.restrict(prefix_names(es@, i as int)),
            keeps_top(selector.kept(), selector.seen(), selector.seen(), top_count as nat),
        decreases es@.len() - i,
    {
        proof {
            assert(!prefix_names(es@, i as int).contains(es@[i as int].0@));
            assert(!selector.seen().contains_key(es@[i as int].0@));
            assert(!selector.kept().contains_key(es@[i as int].0@));
        }
        let score = es[i].1.score();
        selector.push(es[i].0.clone(), score);
        proof {
            let k = es@[i as int].0@;
            assert(prefix_names(es@, i + 1) =~= prefix_names(es@, i as int).insert(k));
            assert(m.contains_key(k));
            assert(scores.contains_key(k));
            assert(scores[k] == V::score_of(m[k]));
            assert(scores[k] == score as nat);
            assert(selector.seen() =~= scores.restrict(prefix_names(es@, i + 1)));
        }
        i = i + 1;
    }
    proof {
        assert(prefix_names(es@, i as int) =~= m.dom());
        assert(scores.restrict(m.dom()) =~= scores);
    }
    let ghost seen = selector.seen();
    let ghost kept = selector.kept();
    let chosen = selector.drain();
    let ks = chosen.entries();
    let mut result: KeyTable<V> = KeyTable::new();
    let mut j: usize = 0;
    while j < ks.len()
        invariant
            chosen.wf(),
            counts_view(chosen@) == kept,
            keeps_top(kept, scores, scores, top_count as nat),
            ks@.len() == chosen@.len(),
            forall|q: int|
                #![trigger ks@[q]]
                0 <= q < ks@.len() ==> chosen@.contains_key(ks@[q].0@),
            forall|k: Seq<char>|
                #[trigger] chosen@.contains_key(k) ==> exists|q: int| 0 <= q < ks@.len() && ks@[q].0@ == k,
            forall|a: int, b: int|
                0 <= a < ks@.len() && 0 <= b < ks@.len() && a != b ==> #[trigger] ks@[a].0@
                    != #[trigger] ks@[b].0@,
            j <= ks@.len(),
            scores.dom() == m.dom(),
            elements.wf(),
            result.wf(),
            result@ == m.restrict(prefix_names(ks@, j as int)),
            elements@ == m.remove_keys(prefix_names(ks@, j as int)),
        decreases ks@.len() - j,
    {
        let ghost k = ks@[j as int].0@;
        proof {
            assert(counts_view(chosen@).contains_key(k));
            assert(kept.dom().subset_of(scores.dom()));
            assert(m.contains_key(k));
            assert(!prefix_names(ks@, j as int).contains(k));
        }
        match elements.take(ks[j].0.as_str()) {
            Some((key, value)) => {
                result.insert_new(key, value);
            },
            None => {},
        }
        proof {
            assert(prefix_names(ks@, j + 1) =~= prefix_names(ks@, j as int).insert(k));
            assert(result@ =~= m.restrict(prefix_names(ks@, j + 1)));
            assert(elements@ =~= m.remove_keys(prefix_names(ks@, j + 1)));
        }
        j = j + 1;
    }
    proof {
        assert(prefix_names(ks@, j as int) =~= chosen@.dom());
        assert(kept.dom() =~= chosen@.dom());
        assert(result@.dom() =~= kept.dom());
    }
    *elements = result;
}

} // verus!
