//! Grouping a batch of queued requests by a key: the server sends one batch per game and,
//! within it, asks once for each distinct piece of patch data.
use vstd::prelude::*;

use crate::names::str_views;

verus! {

/// Groups as plain values: each key with the positions that carry it.
pub open spec fn group_views(v: Seq<(String, Vec<usize>)>) -> Seq<(Seq<char>, Seq<usize>)> {
    Seq::new(v.len(), |i: int| (v[i].0@, v[i].1@))
}

/// The last group whose key is `key`, or -1 where none is.
pub open spec fn find_group(gs: Seq<(Seq<char>, Seq<usize>)>, key: Seq<char>) -> int
    decreases gs.len(),
{
    if gs.len() == 0 {
        -1
    } else if gs.last().0 == key {
        gs.len() - 1
    } else {
        find_group(gs.drop_last(), key)
    }
}

/// Position `i`, whose key is `key`, added: to the group of that key, or to a new group at
/// the end.
pub open spec fn add_to_groups(gs: Seq<(Seq<char>, Seq<usize>)>, key: Seq<char>, i: usize) -> Seq<(Seq<char>, Seq<usize>)> {
    let j = find_group(gs, key);
    if j < 0 {
        gs.push((key, seq![i]))
    } else {
        gs.update(j, (key, gs[j].1.push(i)))
    }
}

/// The positions of `keys` grouped by key: groups in the order their keys first occur,
/// positions in each group ascending.
pub open spec fn grouped_by_key(keys: Seq<Seq<char>>) -> Seq<(Seq<char>, Seq<usize>)>
    decreases keys.len(),
{
    if keys.len() == 0 {
        Seq::empty()
    } else {
        add_to_groups(grouped_by_key(keys.drop_last()), keys.last(), (keys.len() - 1) as usize)
    }
}

/// What a grouping of `keys` promises: distinct keys, each position once, in the group of
/// its own key, positions ascending within a group, groups in order of first occurrence.
pub open spec fn groups_exact(keys: Seq<Seq<char>>, gs: Seq<(Seq<char>, Seq<usize>)>) -> bool {
    &&& forall|a: int, b: int| 0 <= a < b < gs.len() ==> (#[trigger] gs[a]).0 != (#[trigger] gs[b]).0
    &&& forall|a: int| 0 <= a < gs.len() ==> (#[trigger] gs[a]).1.len() > 0
    &&& forall|a: int, t: int|
        0 <= a < gs.len() && 0 <= t < gs[a].1.len() ==> #[trigger] gs[a].1[t] < keys.len() && keys[gs[a].1[t] as int]
            == gs[a].0
    &&& forall|a: int, t: int, u: int| 0 <= a < gs.len() && 0 <= t < u < gs[a].1.len() ==> #[trigger] gs[a].1[t] < #[trigger] gs[a].1[u]
    &&& forall|a: int, b: int| 0 <= a < b < gs.len() ==> (#[trigger] gs[a]).1[0] < (#[trigger] gs[b]).1[0]
    &&& forall|i: int| 0 <= i < keys.len() ==> #[trigger] find_group(gs, keys[i]) >= 0 && gs[find_group(gs, keys[i])].1.contains(
        i as usize,
    )
}

proof fn lemma_find_group(gs: Seq<(Seq<char>, Seq<usize>)>, key: Seq<char>)
    ensures
        -1 <= find_group(gs, key) < gs.len(),
        find_group(gs, key) >= 0 ==> gs[find_group(gs, key)].0 == key,
        find_group(gs, key) < 0 ==> forall|a: int| 0 <= a < gs.len() ==> (#[trigger] gs[a]).0 != key,
    decreases gs.len(),
{
    if gs.len() > 0 && gs.last().0 != key {
        lemma_find_group(gs.drop_last(), key);
        assert forall|a: int| 0 <= a < gs.len() - 1 implies (#[trigger] gs[a]).0 == gs.drop_last()[a].0 by {}
    }
}

/// Grouping in order keeps its promise at every step.
pub proof fn lemma_grouped_by_key_exact(keys: Seq<Seq<char>>)
    requires
        keys.len() <= usize::MAX,
    ensures
        groups_exact(keys, grouped_by_key(keys)),
    decreases keys.len(),
{
    if keys.len() > 0 {
        let init = keys.drop_last();
        lemma_grouped_by_key_exact(init);
        let gs = grouped_by_key(init);
        let key = keys.last();
        let n = init.len();
        lemma_find_group(gs, key);
        let j = find_group(gs, key);
        let g2 = grouped_by_key(keys);
        assert(g2 == add_to_groups(gs, key, n as usize));
        assert forall|i: int| 0 <= i < n implies #[trigger] keys[i] == init[i] by {}
        assert(keys[n as int] == key);
        if j < 0 {
            assert(g2 == gs.push((key, seq![n as usize])));
            assert forall|i: int| 0 <= i < keys.len() implies #[trigger] find_group(g2, keys[i]) >= 0 && g2[find_group(
                g2,
                keys[i],
            )].1.contains(i as usize) by {
                if i < n {
                    assert(g2.drop_last() =~= gs);
                    lemma_find_group(gs, init[i]);
                    assert(g2.last().0 != keys[i]);
                    assert(g2[find_group(gs, keys[i])] == gs[find_group(gs, keys[i])]);
                } else {
                    assert(g2.last().0 == keys[i]);
                    assert(g2[find_group(g2, keys[i])].1[0] == n as usize);
                }
            }
            assert forall|a: int, t: int| 0 <= a < g2.len() && 0 <= t < g2[a].1.len() implies #[trigger] g2[a].1[t]
                < keys.len() && keys[g2[a].1[t] as int] == g2[a].0 by {
                if a < gs.len() {
                    assert(g2[a] == gs[a]);
                    assert(gs[a].1[t] < init.len() && init[gs[a].1[t] as int] == gs[a].0);
                    assert(keys[gs[a].1[t] as int] == init[gs[a].1[t] as int]);
                    assert(keys[g2[a].1[t] as int] == g2[a].0);
                } else {
                    assert(g2[a] == (key, seq![n as usize]));
                    assert(g2[a].1[t] == n as usize);
                    assert(keys[g2[a].1[t] as int] == g2[a].0);
                }
            }
            assert forall|a: int, b: int| 0 <= a < b < g2.len() implies (#[trigger] g2[a]).0 != (#[trigger] g2[b]).0 by {
                if b < gs.len() {
                    assert(g2[a] == gs[a] && g2[b] == gs[b]);
                } else {
                    assert(g2[a] == gs[a]);
                }
            }
            assert forall|a: int, b: int| 0 <= a < b < g2.len() implies (#[trigger] g2[a]).1[0] < (#[trigger] g2[b]).1[0] by {
                if b < gs.len() {
                    assert(g2[a] == gs[a] && g2[b] == gs[b]);
                } else {
                    assert(g2[a] == gs[a]);
                    assert(gs[a].1[0] < init.len());
                }
            }
            assert forall|a: int, t: int, u: int| 0 <= a < g2.len() && 0 <= t < u < g2[a].1.len() implies #[trigger] g2[a].1[t]
                < #[trigger] g2[a].1[u] by {
                if a < gs.len() {
                    assert(g2[a] == gs[a]);
                }
            }
            assert forall|a: int| 0 <= a < g2.len() implies (#[trigger] g2[a]).1.len() > 0 by {
                if a < gs.len() {
                    assert(g2[a] == gs[a]);
                }
            }
        } else {
            let grp = gs[j].1.push(n as usize);
            assert(g2 == gs.update(j, (key, grp)));
            assert forall|a: int| 0 <= a < g2.len() implies #[trigger] g2[a].0 == gs[a].0 by {}
            assert forall|i: int| 0 <= i < keys.len() implies #[trigger] find_group(g2, keys[i]) >= 0 && g2[find_group(
                g2,
                keys[i],
            )].1.contains(i as usize) by {
                lemma_find_group_same(gs, g2, keys[i]);
                if i < n {
                    lemma_find_group(gs, init[i]);
                    let f = find_group(gs, init[i]);
                    assert(gs[f].1.contains(i as usize));
                    let w = choose|w: int| 0 <= w < gs[f].1.len() && gs[f].1[w] == i as usize;
                    if f == j {
                        assert(g2[f].1[w] == i as usize);
                    } else {
                        assert(g2[f] == gs[f]);
                    }
                } else {
                    assert(find_group(g2, keys[i]) == j);
                    assert(g2[j].1[grp.len() - 1] == n as usize);
                }
            }
            assert forall|a: int, t: int| 0 <= a < g2.len() && 0 <= t < g2[a].1.len() implies #[trigger] g2[a].1[t]
                < keys.len() && keys[g2[a].1[t] as int] == g2[a].0 by {
                if a != j {
                    assert(g2[a] == gs[a]);
                    assert(gs[a].1[t] < init.len() && init[gs[a].1[t] as int] == gs[a].0);
                    assert(keys[gs[a].1[t] as int] == init[gs[a].1[t] as int]);
                } else if t < gs[j].1.len() {
                    assert(g2[a].1[t] == gs[j].1[t]);
                    assert(gs[j].1[t] < init.len() && init[gs[j].1[t] as int] == gs[j].0);
                    assert(keys[gs[j].1[t] as int] == init[gs[j].1[t] as int]);
                } else {
                    assert(g2[a].1[t] == n as usize);
                }
                assert(keys[g2[a].1[t] as int] == g2[a].0);
            }
            assert forall|a: int, b: int| 0 <= a < b < g2.len() implies (#[trigger] g2[a]).0 != (#[trigger] g2[b]).0 by {
                assert(g2[a].0 == gs[a].0 && g2[b].0 == gs[b].0);
            }
            assert forall|a: int, b: int| 0 <= a < b < g2.len() implies (#[trigger] g2[a]).1[0] < (#[trigger] g2[b]).1[0] by {
                assert(g2[a].1[0] == gs[a].1[0] && g2[b].1[0] == gs[b].1[0]);
            }
            assert forall|a: int, t: int, u: int| 0 <= a < g2.len() && 0 <= t < u < g2[a].1.len() implies #[trigger] g2[a].1[t]
                < #[trigger] g2[a].1[u] by {
                if a != j {
                    assert(g2[a] == gs[a]);
                } else {
                    assert(g2[a].1[t] == grp[t]);
                    if u < gs[j].1.len() {
                        assert(grp[u] == gs[j].1[u]);
                    } else {
                        assert(gs[j].1[t] < init.len());
                    }
                }
            }
            assert forall|a: int| 0 <= a < g2.len() implies (#[trigger] g2[a]).1.len() > 0 by {
                if a != j {
                    assert(g2[a] == gs[a]);
                }
            }
        }
    }
}

/// Where two group lists have the same keys, a key is found at the same place in both.
proof fn lemma_find_group_same(a: Seq<(Seq<char>, Seq<usize>)>, b: Seq<(Seq<char>, Seq<usize>)>, key: Seq<char>)
    requires
        a.len() == b.len(),
        forall|i: int| 0 <= i < a.len() ==> #[trigger] a[i].0 == b[i].0,
    ensures
        find_group(a, key) == find_group(b, key),
    decreases a.len(),
{
    if a.len() > 0 {
        assert(a.last().0 == b.last().0) by {
            assert(a[a.len() - 1].0 == b[b.len() - 1].0);
        }
        assert forall|i: int| 0 <= i < a.drop_last().len() implies #[trigger] a.drop_last()[i].0 == b.drop_last()[i].0 by {
            assert(a[i].0 == b[i].0);
        }
        lemma_find_group_same(a.drop_last(), b.drop_last(), key);
    }
}

/// The positions of `keys` grouped by key, groups in the order their keys first occur: the
/// server groups a batch of queued requests by game this way, and a game's requests by the
/// piece of patch data they ask for, so that each is fetched once.
pub fn group_by_key(keys: &Vec<String>) -> (r: Vec<(String, Vec<usize>)>)
    ensures
        group_views(r@) == grouped_by_key(str_views(keys@)),
        groups_exact(str_views(keys@), group_views(r@)),
{
    let mut groups: Vec<(String, Vec<usize>)> = Vec::new();
    let mut i: usize = 0;
    assert(str_views(keys@).take(0) =~= Seq::<Seq<char>>::empty());
    while i < keys.len()
        invariant
            i <= keys@.len(),
            group_views(groups@) == grouped_by_key(str_views(keys@).take(i as int)),
        decreases keys@.len() - i,
    {
        let ghost gs = group_views(groups@);
        let ghost key = keys@[i as int]@;
        proof {
            lemma_find_group(gs, key);
        }
        let mut j: usize = groups.len();
        assert(gs.take(j as int) =~= gs);
        while j > 0
            invariant
                j <= groups@.len(),
                gs == group_views(groups@),
                key == keys@[i as int]@,
                i < keys@.len(),
                find_group(gs, key) == find_group(gs.take(j as int), key),
            ensures
                j > 0 ==> gs[j - 1].0 == key,
                find_group(gs, key) == find_group(gs.take(j as int), key),
            decreases j,
        {
            assert(gs.take(j as int).last() == gs[j - 1]);
            if groups[j - 1].0 == keys[i] {
                break;
            }
            assert(gs.take(j as int).drop_last() =~= gs.take(j - 1));
            j = j - 1;
        }
        let ghost ks = str_views(keys@).take(i + 1);
        assert(ks.drop_last() =~= str_views(keys@).take(i as int));
        assert(ks.last() == key);
        if j == 0 {
            assert(gs.take(0) =~= Seq::<(Seq<char>, Seq<usize>)>::empty());
            let mut first: Vec<usize> = Vec::new();
            first.push(i);
            assert(first@ =~= seq![i]);
            groups.push((keys[i].clone(), first));
            assert(group_views(groups@) =~= gs.push((key, seq![i])));
        } else {
            assert(gs.take(j as int).last() == gs[j - 1]);
            assert(find_group(gs, key) == j - 1);
            let mut members: Vec<usize> = Vec::new();
            let mut t: usize = 0;
            while t < groups[j - 1].1.len()
                invariant
                    j <= groups@.len(),
                    j > 0,
                    t <= groups@[j - 1].1@.len(),
                    members@ == groups@[j - 1].1@.take(t as int),
                decreases groups@[j - 1].1@.len() - t,
            {
                members.push(groups[j - 1].1[t]);
                assert(members@ =~= groups@[j - 1].1@.take(t + 1));
                t = t + 1;
            }
            assert(members@ =~= gs[j - 1].1);
            members.push(i);
            groups.set(j - 1, (keys[i].clone(), members));
            assert(group_views(groups@) =~= gs.update(j - 1, (key, gs[j - 1].1.push(i))));
        }
        i = i + 1;
    }
    assert(str_views(keys@).take(keys@.len() as int) =~= str_views(keys@));
    proof {
        lemma_grouped_by_key_exact(str_views(keys@));
    }
    groups
}

} // verus!
