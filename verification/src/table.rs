//! Finite tables given as sequences of entries with distinct keys.
use vstd::prelude::*;

verus! {

/// The table of a sequence of entries with distinct keys.
pub open spec fn table_of<V>(es: Seq<(Seq<char>, V)>) -> Map<Seq<char>, V>
    decreases es.len(),
{
    if es.len() == 0 {
        Map::empty()
    } else {
        table_of(es.drop_last()).insert(es.last().0, es.last().1)
    }
}

/// No key occurs twice among the entries.
pub open spec fn distinct_keys<V>(es: Seq<(Seq<char>, V)>) -> bool {
    forall|i: int, j: int| 0 <= i < j < es.len() ==> es[i].0 != es[j].0
}

pub proof fn lemma_distinct_init<V>(es: Seq<(Seq<char>, V)>)
    requires
        distinct_keys(es),
        es.len() > 0,
    ensures
        distinct_keys(es.drop_last()),
{
    let init = es.drop_last();
    assert forall|a: int, b: int| 0 <= a < b < init.len() implies init[a].0 != init[b].0 by {
        assert(init[a] == es[a]);
        assert(init[b] == es[b]);
    }
}

pub proof fn lemma_table_lookup<V>(es: Seq<(Seq<char>, V)>, k: Seq<char>)
    requires
        distinct_keys(es),
    ensures
        table_of(es).contains_key(k) == (exists|i: int| 0 <= i < es.len() && es[i].0 == k),
        forall|i: int| 0 <= i < es.len() && es[i].0 == k ==> table_of(es)[k] == es[i].1,
    decreases es.len(),
{
    if es.len() > 0 {
        let init = es.drop_last();
        let last = es.len() - 1;
        lemma_distinct_init(es);
        lemma_table_lookup(init, k);
        if es[last].0 == k {
            assert(table_of(es).contains_key(k));
            assert forall|i: int| 0 <= i < es.len() && es[i].0 == k implies table_of(es)[k]
                == es[i].1 by {
                if i != last {
                    assert(es[i].0 != es[last].0);
                }
            }
        } else {
            if table_of(init).contains_key(k) {
                let i = choose|i: int| 0 <= i < init.len() && init[i].0 == k;
                assert(es[i].0 == k);
            }
            if exists|i: int| 0 <= i < es.len() && es[i].0 == k {
                let i = choose|i: int| 0 <= i < es.len() && es[i].0 == k;
                assert(init[i].0 == k);
            }
            assert forall|i: int| 0 <= i < es.len() && es[i].0 == k implies table_of(es)[k]
                == es[i].1 by {
                assert(init[i] == es[i]);
            }
        }
    }
}

pub proof fn lemma_table_update<V>(es: Seq<(Seq<char>, V)>, j: int, v: V)
    requires
        distinct_keys(es),
        0 <= j < es.len(),
    ensures
        distinct_keys(es.update(j, (es[j].0, v))),
        table_of(es.update(j, (es[j].0, v))) == table_of(es).insert(es[j].0, v),
{
    let es2 = es.update(j, (es[j].0, v));
    assert forall|a: int, b: int| 0 <= a < b < es2.len() implies es2[a].0 != es2[b].0 by {
        assert(es2[a].0 == es[a].0);
        assert(es2[b].0 == es[b].0);
    }
    let m = table_of(es).insert(es[j].0, v);
    assert forall|k: Seq<char>| #[trigger] table_of(es2).contains_key(k) == m.contains_key(k) by {
        lemma_table_lookup(es2, k);
        lemma_table_lookup(es, k);
        if exists|i: int| 0 <= i < es2.len() && es2[i].0 == k {
            let i = choose|i: int| 0 <= i < es2.len() && es2[i].0 == k;
            assert(es[i].0 == k);
        }
        if exists|i: int| 0 <= i < es.len() && es[i].0 == k {
            let i = choose|i: int| 0 <= i < es.len() && es[i].0 == k;
            assert(es2[i].0 == k);
        }
        assert(es2[j].0 == es[j].0);
    }
    assert forall|k: Seq<char>| #[trigger] table_of(es2).contains_key(k) implies table_of(es2)[k]
        == m[k] by {
        lemma_table_lookup(es2, k);
        lemma_table_lookup(es, k);
        let i = choose|i: int| 0 <= i < es2.len() && es2[i].0 == k;
        if i != j {
            assert(es2[i] == es[i]);
            assert(es[i].0 != es[j].0);
        }
    }
    assert(table_of(es2) =~= m);
}

/// Pushing an entry with a new key keeps the keys distinct and adds the
/// entry to the table.
pub proof fn lemma_table_push<V>(es: Seq<(Seq<char>, V)>, k: Seq<char>, v: V)
    requires
        distinct_keys(es),
        forall|j: int| 0 <= j < es.len() ==> es[j].0 != k,
    ensures
        distinct_keys(es.push((k, v))),
        table_of(es.push((k, v))) == table_of(es).insert(k, v),
{
    let es2 = es.push((k, v));
    assert(es2.drop_last() =~= es);
    assert forall|a: int, b: int| 0 <= a < b < es2.len() implies es2[a].0 != es2[b].0 by {
        assert(es2[a] == es[a]);
        if b < es.len() {
            assert(es2[b] == es[b]);
        }
    }
}

/// The number of keys of a table is its number of entries.
pub proof fn lemma_table_len<V>(es: Seq<(Seq<char>, V)>)
    requires
        distinct_keys(es),
    ensures
        table_of(es).dom().finite(),
        table_of(es).len() == es.len(),
    decreases es.len(),
{
    if es.len() > 0 {
        let init = es.drop_last();
        lemma_distinct_init(es);
        lemma_table_len(init);
        lemma_table_lookup(init, es.last().0);
        if table_of(init).contains_key(es.last().0) {
            let i = choose|i: int| 0 <= i < init.len() && init[i].0 == es.last().0;
            assert(es[i].0 == es[es.len() - 1].0);
        }
    }
}

} // verus!
