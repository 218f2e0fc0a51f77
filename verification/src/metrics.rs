//! Name-keyed metric lists: lookup by name, the override merge of cooled
//! and fired metrics, the distinct names across many lists, and the
//! per-name series that the detectors and the information measures read.
//!
//! A metric list is a sequence of `(name, value)` pairs; a name may occur
//! more than once, and its first occurrence is the one that counts. The
//! values are of any `Copy` type: nothing here looks at them.
use vstd::prelude::*;

verus! {

/// The value of the first pair named `name`, if any.
pub open spec fn lookup<V>(ms: Seq<(String, V)>, name: Seq<char>) -> Option<V>
    decreases ms.len(),
{
    if ms.len() == 0 {
        None
    } else {
        let prev = lookup(ms.drop_last(), name);
        if prev is Some {
            prev
        } else if ms.last().0@ == name {
            Some(ms.last().1)
        } else {
            None
        }
    }
}

/// No name occurs twice.
pub open spec fn distinct_names<V>(ms: Seq<(String, V)>) -> bool {
    forall|i: int, j: int| 0 <= i < j < ms.len() ==> ms[i].0@ != ms[j].0@
}

/// `cooled`, followed by each fired pair whose name is not yet present, in
/// order.
pub open spec fn merged<V>(cooled: Seq<(String, V)>, fired: Seq<(String, V)>) -> Seq<(String, V)>
    decreases fired.len(),
{
    if fired.len() == 0 {
        cooled
    } else {
        let prev = merged(cooled, fired.drop_last());
        if lookup(prev, fired.last().0@) is Some {
            prev
        } else {
            prev.push(fired.last())
        }
    }
}

/// The contents of each list.
pub open spec fn views<V>(lists: Seq<Vec<(String, V)>>) -> Seq<Seq<(String, V)>> {
    lists.map_values(|l: Vec<(String, V)>| l@)
}

/// Some list holds a pair named `name`.
pub open spec fn mentions<V>(lists: Seq<Seq<(String, V)>>, name: Seq<char>) -> bool {
    exists|a: int, b: int|
        0 <= a < lists.len() && 0 <= b < lists[a].len() && #[trigger] lists[a][b].0@ == name
}

/// For each list that holds `name`, in order: the list's index and the
/// value that `lookup` finds there.
pub open spec fn series<V>(lists: Seq<Seq<(String, V)>>, name: Seq<char>) -> Seq<(usize, V)>
    decreases lists.len(),
{
    if lists.len() == 0 {
        Seq::empty()
    } else {
        let prev = series(lists.drop_last(), name);
        match lookup(lists.last(), name) {
            Some(v) => prev.push(((lists.len() - 1) as usize, v)),
            None => prev,
        }
    }
}

/// The values of `series`, without the indices.
pub open spec fn series_values<V>(lists: Seq<Seq<(String, V)>>, name: Seq<char>) -> Seq<V> {
    series(lists, name).map_values(|p: (usize, V)| p.1)
}

/// For each list that holds both names, in order: the two values that
/// `lookup` finds.
pub open spec fn paired<V>(lists: Seq<Seq<(String, V)>>, a: Seq<char>, b: Seq<char>) -> Seq<(V, V)>
    decreases lists.len(),
{
    if lists.len() == 0 {
        Seq::empty()
    } else {
        let prev = paired(lists.drop_last(), a, b);
        match (lookup(lists.last(), a), lookup(lists.last(), b)) {
            (Some(x), Some(y)) => prev.push((x, y)),
            _ => prev,
        }
    }
}

/// For each list that holds both names, in order: the list's index. These
/// are the lists whose values `paired` gives, one for one.
pub open spec fn paired_lists<V>(lists: Seq<Seq<(String, V)>>, a: Seq<char>, b: Seq<char>) -> Seq<usize>
    decreases lists.len(),
{
    if lists.len() == 0 {
        Seq::empty()
    } else {
        let prev = paired_lists(lists.drop_last(), a, b);
        match (lookup(lists.last(), a), lookup(lists.last(), b)) {
            (Some(_), Some(_)) => prev.push((lists.len() - 1) as usize),
            _ => prev,
        }
    }
}

/// The `k`-th pair of values comes from the `k`-th list that holds both
/// names: the indices rise, each list they name holds both names, and the
/// values found there are the pair.
pub proof fn lemma_paired_lists_match<V>(lists: Seq<Seq<(String, V)>>, a: Seq<char>, b: Seq<char>)
    requires
        lists.len() <= usize::MAX,
    ensures
        paired_lists(lists, a, b).len() == paired(lists, a, b).len(),
        forall|k: int|
            0 <= k < paired_lists(lists, a, b).len() ==> {
                let t = #[trigger] paired_lists(lists, a, b)[k] as int;
                &&& 0 <= t < lists.len()
                &&& lookup(lists[t], a) == Some(paired(lists, a, b)[k].0)
                &&& lookup(lists[t], b) == Some(paired(lists, a, b)[k].1)
            },
        forall|k1: int, k2: int|
            0 <= k1 < k2 < paired_lists(lists, a, b).len() ==> #[trigger] paired_lists(lists, a, b)[k1]
                < #[trigger] paired_lists(lists, a, b)[k2],
    decreases lists.len(),
{
    if lists.len() > 0 {
        let init = lists.drop_last();
        lemma_paired_lists_match(init, a, b);
        let pl = paired_lists(lists, a, b);
        let pp = paired(lists, a, b);
        let pli = paired_lists(init, a, b);
        let ppi = paired(init, a, b);
        let last = lists.len() - 1;
        let both = lookup(lists.last(), a) is Some && lookup(lists.last(), b) is Some;
        if both {
            assert(pl == pli.push(last as usize));
        } else {
            assert(pl == pli);
        }
        assert forall|k: int| 0 <= k < pl.len() implies {
            let t = #[trigger] pl[k] as int;
            &&& 0 <= t < lists.len()
            &&& lookup(lists[t], a) == Some(pp[k].0)
            &&& lookup(lists[t], b) == Some(pp[k].1)
        } by {
            if k < pli.len() {
                let t = pli[k] as int;
                assert(pl[k] == pli[k]);
                assert(pp[k] == ppi[k]);
                assert(lists[t] == init[t]);
            } else {
                assert(both);
                assert(pl[k] == last);
                assert(lists[last] == lists.last());
            }
        }
        assert forall|k1: int, k2: int| 0 <= k1 < k2 < pl.len() implies #[trigger] pl[k1] < #[trigger] pl[k2] by {
            assert(pl[k1] == pli[k1]);
            if k2 < pli.len() {
                assert(pl[k2] == pli[k2]);
            } else {
                assert(both);
                assert(pl[k2] == last);
            }
        }
    }
}

/// No list that holds both names is left out: every such list is named by
/// some pair, so there are as many pairs as lists holding both names.
pub proof fn lemma_paired_lists_complete<V>(lists: Seq<Seq<(String, V)>>, a: Seq<char>, b: Seq<char>)
    requires
        lists.len() <= usize::MAX,
    ensures
        forall|t: int|
            0 <= t < lists.len() && #[trigger] lookup(lists[t], a) is Some && lookup(lists[t], b) is Some
                ==> exists|k: int|
                0 <= k < paired_lists(lists, a, b).len() && paired_lists(lists, a, b)[k] == t,
    decreases lists.len(),
{
    if lists.len() > 0 {
        let init = lists.drop_last();
        lemma_paired_lists_complete(init, a, b);
        let pl = paired_lists(lists, a, b);
        let pli = paired_lists(init, a, b);
        let last = lists.len() - 1;
        let both = lookup(lists.last(), a) is Some && lookup(lists.last(), b) is Some;
        if both {
            assert(pl == pli.push(last as usize));
        } else {
            assert(pl == pli);
        }
        assert forall|t: int|
            0 <= t < lists.len() && #[trigger] lookup(lists[t], a) is Some && lookup(lists[t], b) is Some
            implies exists|k: int| 0 <= k < pl.len() && pl[k] == t by {
            if t < last {
                assert(lists[t] == init[t]);
                assert(lookup(init[t], a) is Some);
                let k = choose|k: int| 0 <= k < pli.len() && pli[k] == t;
                assert(pl[k] == pli[k]);
            } else {
                assert(lists[t] == lists.last());
                assert(both);
                assert(pl[pli.len() as int] == t);
            }
        }
    }
}

/// The series of a name is exactly the lists that hold it, in order: each
/// entry names a list and the value that list gives the name, the list
/// indices rise, and every list holding the name has an entry.
pub proof fn lemma_series_exact<V>(lists: Seq<Seq<(String, V)>>, name: Seq<char>)
    requires
        lists.len() <= usize::MAX,
    ensures
        forall|k: int|
            0 <= k < series(lists, name).len() ==> {
                let e = #[trigger] series(lists, name)[k];
                &&& e.0 < lists.len()
                &&& lookup(lists[e.0 as int], name) == Some(e.1)
            },
        forall|k1: int, k2: int|
            0 <= k1 < k2 < series(lists, name).len() ==> (#[trigger] series(lists, name)[k1]).0
                < (#[trigger] series(lists, name)[k2]).0,
        forall|t: int|
            0 <= t < lists.len() && (#[trigger] lookup(lists[t], name)) is Some ==> exists|k: int|
                0 <= k < series(lists, name).len() && series(lists, name)[k].0 == t,
    decreases lists.len(),
{
    if lists.len() > 0 {
        let init = lists.drop_last();
        lemma_series_exact(init, name);
        let s = series(lists, name);
        let si = series(init, name);
        let last = lists.len() - 1;
        let found = lookup(lists.last(), name);
        match found {
            Some(v) => {
                assert(s == si.push((last as usize, v)));
            },
            None => {
                assert(s == si);
            },
        }
        assert forall|k: int| 0 <= k < s.len() implies {
            let e = #[trigger] s[k];
            &&& e.0 < lists.len()
            &&& lookup(lists[e.0 as int], name) == Some(e.1)
        } by {
            if k < si.len() {
                assert(s[k] == si[k]);
                assert(lists[si[k].0 as int] == init[si[k].0 as int]);
            } else {
                assert(found is Some);
                assert(lists[last] == lists.last());
            }
        }
        assert forall|k1: int, k2: int| 0 <= k1 < k2 < s.len() implies (#[trigger] s[k1]).0
            < (#[trigger] s[k2]).0 by {
            assert(s[k1] == si[k1]);
            if k2 < si.len() {
                assert(s[k2] == si[k2]);
            } else {
                assert(found is Some);
            }
        }
        assert forall|t: int| 0 <= t < lists.len() && (#[trigger] lookup(lists[t], name)) is Some implies exists|
            k: int,
        | 0 <= k < s.len() && s[k].0 == t by {
            if t < last {
                assert(lists[t] == init[t]);
                assert(lookup(init[t], name) is Some);
                let k = choose|k: int| 0 <= k < si.len() && si[k].0 == t;
                assert(s[k] == si[k]);
            } else {
                assert(lists[t] == lists.last());
                assert(found is Some);
                assert(s[si.len() as int].0 == t);
            }
        }
    }
}

/// Splitting the lists splits the values: the values of a name in two
/// runs of lists, one after the other, are the values in the first run
/// followed by those in the second.
pub proof fn lemma_series_values_concat<V>(
    first: Seq<Seq<(String, V)>>,
    second: Seq<Seq<(String, V)>>,
    name: Seq<char>,
)
    ensures
        series_values(first + second, name) == series_values(first, name) + series_values(second, name),
    decreases second.len(),
{
    if second.len() == 0 {
        assert(first + second =~= first);
        assert(series_values(second, name) =~= Seq::<V>::empty());
        assert(series_values(first, name) + series_values(second, name) =~= series_values(first, name));
    } else {
        let all = first + second;
        assert(all.drop_last() =~= first + second.drop_last());
        assert(all.last() == second.last());
        lemma_series_values_concat(first, second.drop_last(), name);
        let f = |p: (usize, V)| p.1;
        match lookup(second.last(), name) {
            Some(v) => {
                assert(series(all, name) == series(all.drop_last(), name).push(((all.len() - 1) as usize, v)));
                assert(series(second, name) == series(second.drop_last(), name).push(((second.len() - 1) as usize, v)));
                assert(series_values(all, name) =~= series_values(all.drop_last(), name).push(v));
                assert(series_values(second, name) =~= series_values(second.drop_last(), name).push(v));
                assert(series_values(first, name) + series_values(second, name) =~= (series_values(first, name) + series_values(second.drop_last(), name)).push(v));
            },
            None => {
                assert(series(all, name) == series(all.drop_last(), name));
                assert(series(second, name) == series(second.drop_last(), name));
            },
        }
    }
}

/// Once a prefix finds a name, every longer prefix finds the same value.
pub proof fn lemma_lookup_prefix<V>(ms: Seq<(String, V)>, k: int, name: Seq<char>)
    requires
        0 <= k <= ms.len(),
        lookup(ms.take(k), name) is Some,
    ensures
        lookup(ms, name) == lookup(ms.take(k), name),
    decreases ms.len(),
{
    if k < ms.len() {
        assert(ms.drop_last().take(k) =~= ms.take(k));
        lemma_lookup_prefix(ms.drop_last(), k, name);
    } else {
        assert(ms.take(k) =~= ms);
    }
}

/// A lookup fails exactly when no pair carries the name.
pub proof fn lemma_lookup_none<V>(ms: Seq<(String, V)>, name: Seq<char>)
    ensures
        lookup(ms, name) is None <==> forall|i: int| 0 <= i < ms.len() ==> ms[i].0@ != name,
    decreases ms.len(),
{
    if ms.len() > 0 {
        lemma_lookup_none(ms.drop_last(), name);
        if lookup(ms, name) is None {
            assert forall|i: int| 0 <= i < ms.len() implies ms[i].0@ != name by {
                if i < ms.len() - 1 {
                    assert(ms.drop_last()[i] == ms[i]);
                }
            }
        } else {
            if lookup(ms.drop_last(), name) is Some {
                let i = choose|i: int| 0 <= i < ms.len() - 1 && ms.drop_last()[i].0@ == name;
                assert(ms[i] == ms.drop_last()[i]);
            }
        }
    }
}

/// A successful lookup returns the value of the first pair with the name.
pub proof fn lemma_lookup_first<V>(ms: Seq<(String, V)>, name: Seq<char>, i: int)
    requires
        0 <= i < ms.len(),
        ms[i].0@ == name,
        forall|j: int| 0 <= j < i ==> ms[j].0@ != name,
    ensures
        lookup(ms, name) == Some(ms[i].1),
{
    lemma_lookup_none(ms.take(i), name);
    assert(ms.take(i + 1).drop_last() =~= ms.take(i));
    assert(ms.take(i + 1).last() == ms[i]);
    lemma_lookup_prefix(ms, i + 1, name);
}

/// The value of the first pair named `name`, if any.
pub fn find_metric<V: Copy>(ms: &[(String, V)], name: &String) -> (r: Option<V>)
    ensures
        r == lookup(ms@, name@),
{
    let mut i: usize = 0;
    while i < ms.len()
        invariant
            0 <= i <= ms@.len(),
            lookup(ms@.take(i as int), name@) is None,
        decreases ms@.len() - i,
    {
        assert(ms@.take(i + 1).drop_last() =~= ms@.take(i as int));
        if ms[i].0 == *name {
            proof {
                lemma_lookup_prefix(ms@, i + 1, name@);
            }
            return Some(ms[i].1);
        }
        i = i + 1;
    }
    assert(ms@.take(ms@.len() as int) =~= ms@);
    None
}

/// A pair-for-pair copy of a metric list.
fn copy_metrics<V: Copy>(ms: &[(String, V)]) -> (r: Vec<(String, V)>)
    ensures
        r@ == ms@,
{
    let mut r: Vec<(String, V)> = Vec::new();
    let mut i: usize = 0;
    while i < ms.len()
        invariant
            0 <= i <= ms@.len(),
            r@ == ms@.take(i as int),
        decreases ms@.len() - i,
    {
        let name = ms[i].0.clone();
        r.push((name, ms[i].1));
        assert(r@ =~= ms@.take(i + 1));
        i = i + 1;
    }
    assert(ms@.take(ms@.len() as int) =~= ms@);
    r
}

/// `cooled` followed by each fired pair whose name is not yet present:
/// cooled values override fired values of the same name.
pub fn merge_metrics<V: Copy>(cooled: &[(String, V)], fired: &[(String, V)]) -> (r: Vec<(String, V)>)
    ensures
        r@ == merged(cooled@, fired@),
{
    let mut r = copy_metrics(cooled);
    let mut i: usize = 0;
    while i < fired.len()
        invariant
            0 <= i <= fired@.len(),
            r@ == merged(cooled@, fired@.take(i as int)),
        decreases fired@.len() - i,
    {
        assert(fired@.take(i + 1).drop_last() =~= fired@.take(i as int));
        if find_metric(r.as_slice(), &fired[i].0).is_none() {
            let name = fired[i].0.clone();
            r.push((name, fired[i].1));
        }
        assert(r@ =~= merged(cooled@, fired@.take(i + 1)));
        i = i + 1;
    }
    assert(fired@.take(fired@.len() as int) =~= fired@);
    r
}

/// Cooled metrics override fired metrics of the same name: the merge finds
/// the cooled value of a name where there is one, and the fired value
/// otherwise.
pub proof fn lemma_merge_overrides<V>(
    cooled: Seq<(String, V)>,
    fired: Seq<(String, V)>,
    name: Seq<char>,
)
    ensures
        lookup(merged(cooled, fired), name) == (match lookup(cooled, name) {
            Some(v) => Some(v),
            None => lookup(fired, name),
        }),
    decreases fired.len(),
{
    if fired.len() > 0 {
        let prev = merged(cooled, fired.drop_last());
        lemma_merge_overrides(cooled, fired.drop_last(), name);
        if lookup(prev, fired.last().0@) is None {
            assert(prev.push(fired.last()).drop_last() =~= prev);
        }
    }
}

/// Merging keeps names distinct: when the cooled list names each metric
/// once, so does the merge.
pub proof fn lemma_merge_distinct<V>(cooled: Seq<(String, V)>, fired: Seq<(String, V)>)
    requires
        distinct_names(cooled),
    ensures
        distinct_names(merged(cooled, fired)),
    decreases fired.len(),
{
    if fired.len() > 0 {
        let prev = merged(cooled, fired.drop_last());
        lemma_merge_distinct(cooled, fired.drop_last());
        if lookup(prev, fired.last().0@) is None {
            lemma_lookup_none(prev, fired.last().0@);
            let next = prev.push(fired.last());
            assert forall|i: int, j: int| 0 <= i < j < next.len() implies next[i].0@
                != next[j].0@ by {
                if j == next.len() - 1 {
                    assert(next[i] == prev[i]);
                } else {
                    assert(next[i] == prev[i] && next[j] == prev[j]);
                }
            }
        }
    }
}

/// Some name in `names` has the characters `name`.
pub open spec fn listed(names: Seq<String>, name: Seq<char>) -> bool {
    exists|k: int| 0 <= k < names.len() && names[k]@ == name
}

/// Whether some name in `names` equals `name`.
fn contains_name(names: &[String], name: &String) -> (b: bool)
    ensures
        b == listed(names@, name@),
{
    let mut k: usize = 0;
    while k < names.len()
        invariant
            0 <= k <= names@.len(),
            forall|j: int| 0 <= j < k ==> names@[j]@ != name@,
        decreases names@.len() - k,
    {
        if names[k] == *name {
            return true;
        }
        k = k + 1;
    }
    false
}

/// Pushing a name keeps every name that was listed before.
proof fn lemma_listed_push(names: Seq<String>, extra: String, name: Seq<char>)
    requires
        listed(names, name),
    ensures
        listed(names.push(extra), name),
{
    let k = choose|k: int| 0 <= k < names.len() && names[k]@ == name;
    assert(names.push(extra)[k] == names[k]);
}

/// Every name that occurs in some list, each once.
pub fn distinct_metric_names<V>(lists: &[Vec<(String, V)>]) -> (names: Vec<String>)
    ensures
        forall|i: int, j: int| 0 <= i < j < names@.len() ==> names@[i]@ != names@[j]@,
        forall|k: int| 0 <= k < names@.len() ==> mentions(views(lists@), #[trigger] names@[k]@),
        forall|a: int, b: int|
            0 <= a < lists@.len() && 0 <= b < views(lists@)[a].len() ==> listed(
                names@,
                #[trigger] views(lists@)[a][b].0@,
            ),
{
    let mut names: Vec<String> = Vec::new();
    let mut a: usize = 0;
    while a < lists.len()
        invariant
            0 <= a <= lists@.len(),
            forall|i: int, j: int| 0 <= i < j < names@.len() ==> names@[i]@ != names@[j]@,
            forall|k: int| 0 <= k < names@.len() ==> mentions(views(lists@), #[trigger] names@[k]@),
            forall|a2: int, b: int|
                0 <= a2 < a && 0 <= b < lists@[a2]@.len() ==> listed(
                    names@,
                    #[trigger] lists@[a2]@[b].0@,
                ),
        decreases lists@.len() - a,
    {
        let list = &lists[a];
        let mut b: usize = 0;
        while b < list.len()
            invariant
                0 <= a < lists@.len(),
                *list == lists@[a as int],
                0 <= b <= list@.len(),
                forall|i: int, j: int| 0 <= i < j < names@.len() ==> names@[i]@ != names@[j]@,
                forall|k: int| 0 <= k < names@.len() ==> mentions(views(lists@), #[trigger] names@[k]@),
                forall|a2: int, b2: int|
                    0 <= a2 < a && 0 <= b2 < lists@[a2]@.len() ==> listed(
                        names@,
                        #[trigger] lists@[a2]@[b2].0@,
                    ),
                forall|b2: int| 0 <= b2 < b ==> listed(names@, #[trigger] list@[b2].0@),
            decreases list@.len() - b,
        {
            if !contains_name(names.as_slice(), &list[b].0) {
                let ghost old_names = names@;
                let name = list[b].0.clone();
                names.push(name);
                assert(mentions(views(lists@), list@[b as int].0@)) by {
                    assert(views(lists@)[a as int][b as int].0@ == list@[b as int].0@);
                }
                assert forall|k: int| 0 <= k < names@.len() implies mentions(
                    views(lists@),
                    #[trigger] names@[k]@,
                ) by {
                    if k < old_names.len() {
                        assert(names@[k] == old_names[k]);
                    }
                }
                assert forall|a2: int, b2: int|
                    0 <= a2 < a && 0 <= b2 < lists@[a2]@.len() implies listed(
                        names@,
                        #[trigger] lists@[a2]@[b2].0@,
                    ) by {
                    lemma_listed_push(old_names, name, lists@[a2]@[b2].0@);
                }
                assert forall|b2: int| 0 <= b2 < b + 1 implies listed(
                    names@,
                    #[trigger] list@[b2].0@,
                ) by {
                    if b2 < b {
                        lemma_listed_push(old_names, name, list@[b2].0@);
                    } else {
                        assert(names@[old_names.len() as int] == list@[b2].0);
                    }
                }
            }
            b = b + 1;
        }
        a = a + 1;
    }
    assert forall|a: int, b: int|
        0 <= a < lists@.len() && 0 <= b < views(lists@)[a].len() implies listed(
        names@,
        #[trigger] views(lists@)[a][b].0@,
    ) by {
        assert(views(lists@)[a] == lists@[a]@);
    }
    names
}

/// For each list that holds `name`: the list's index and the value found.
pub fn metric_series<V: Copy>(lists: &[Vec<(String, V)>], name: &String) -> (r: Vec<(usize, V)>)
    ensures
        r@ == series(views(lists@), name@),
        forall|k: int|
            0 <= k < r@.len() ==> (#[trigger] r@[k]).0 < lists@.len() && lookup(lists@[r@[k].0 as int]@, name@)
                == Some(r@[k].1),
        forall|k1: int, k2: int| 0 <= k1 < k2 < r@.len() ==> (#[trigger] r@[k1]).0 < (#[trigger] r@[k2]).0,
        forall|t: int|
            0 <= t < lists@.len() && (#[trigger] lookup(lists@[t]@, name@)) is Some ==> exists|k: int|
                0 <= k < r@.len() && r@[k].0 == t,
{
    let ghost ls = views(lists@);
    let mut r: Vec<(usize, V)> = Vec::new();
    let mut a: usize = 0;
    while a < lists.len()
        invariant
            ls == views(lists@),
            0 <= a <= lists@.len(),
            r@ == series(ls.take(a as int), name@),
        decreases lists@.len() - a,
    {
        let ghost pre = ls.take(a + 1);
        assert(pre.drop_last() =~= ls.take(a as int));
        assert(pre.last() == lists@[a as int]@);
        match find_metric(lists[a].as_slice(), name) {
            Some(v) => r.push((a, v)),
            None => {},
        }
        a = a + 1;
    }
    assert(ls.take(lists@.len() as int) =~= ls);
    proof {
        lemma_series_exact(ls, name@);
        assert forall|t: int|
            0 <= t < lists@.len() && (#[trigger] lookup(lists@[t]@, name@)) is Some implies exists|k: int|
                0 <= k < r@.len() && r@[k].0 == t by {
            assert(ls[t] == lists@[t]@);
            assert(lookup(ls[t], name@) is Some);
        }
    }
    r
}

/// The values of `metric_series`, without the indices.
pub fn metric_values<V: Copy>(lists: &[Vec<(String, V)>], name: &String) -> (r: Vec<V>)
    ensures
        r@ == series_values(views(lists@), name@),
{
    let s = metric_series(lists, name);
    let mut r: Vec<V> = Vec::new();
    let mut k: usize = 0;
    while k < s.len()
        invariant
            0 <= k <= s@.len(),
            s@ == series(views(lists@), name@),
            r@ == s@.take(k as int).map_values(|p: (usize, V)| p.1),
        decreases s@.len() - k,
    {
        r.push(s[k].1);
        assert(r@ =~= s@.take(k + 1).map_values(|p: (usize, V)| p.1));
        k = k + 1;
    }
    assert(s@.take(s@.len() as int) =~= s@);
    r
}

/// For each list that holds both names: the two values found.
pub fn metric_pairs<V: Copy>(lists: &[Vec<(String, V)>], a: &String, b: &String) -> (r: Vec<(V, V)>)
    ensures
        r@ == paired(views(lists@), a@, b@),
{
    let ghost ls = views(lists@);
    let mut r: Vec<(V, V)> = Vec::new();
    let mut i: usize = 0;
    while i < lists.len()
        invariant
            ls == views(lists@),
            0 <= i <= lists@.len(),
            r@ == paired(ls.take(i as int), a@, b@),
        decreases lists@.len() - i,
    {
        let ghost pre = ls.take(i + 1);
        assert(pre.drop_last() =~= ls.take(i as int));
        assert(pre.last() == lists@[i as int]@);
        let x = find_metric(lists[i].as_slice(), a);
        let y = find_metric(lists[i].as_slice(), b);
        match (x, y) {
            (Some(vx), Some(vy)) => r.push((vx, vy)),
            _ => {},
        }
        i = i + 1;
    }
    assert(ls.take(lists@.len() as int) =~= ls);
    r
}

/// For each list that holds both names: its index, in order. The `k`-th
/// index names the list that the `k`-th pair of `metric_pairs` comes from.
pub fn metric_pair_lists<V: Copy>(lists: &[Vec<(String, V)>], a: &String, b: &String) -> (r: Vec<usize>)
    ensures
        r@ == paired_lists(views(lists@), a@, b@),
        r@.len() == paired(views(lists@), a@, b@).len(),
        forall|k: int| 0 <= k < r@.len() ==> #[trigger] r@[k] < lists@.len(),
        forall|k1: int, k2: int| 0 <= k1 < k2 < r@.len() ==> #[trigger] r@[k1] < #[trigger] r@[k2],
        forall|t: int|
            0 <= t < lists@.len() && #[trigger] lookup(lists@[t]@, a@) is Some && lookup(lists@[t]@, b@) is Some
                ==> exists|k: int| 0 <= k < r@.len() && r@[k] == t,
{
    let ghost ls = views(lists@);
    let mut r: Vec<usize> = Vec::new();
    let mut i: usize = 0;
    while i < lists.len()
        invariant
            ls == views(lists@),
            0 <= i <= lists@.len(),
            r@ == paired_lists(ls.take(i as int), a@, b@),
        decreases lists@.len() - i,
    {
        let ghost pre = ls.take(i + 1);
        assert(pre.drop_last() =~= ls.take(i as int));
        assert(pre.last() == lists@[i as int]@);
        let x = find_metric(lists[i].as_slice(), a);
        let y = find_metric(lists[i].as_slice(), b);
        match (x, y) {
            (Some(_), Some(_)) => r.push(i),
            _ => {},
        }
        i = i + 1;
    }
    assert(ls.take(lists@.len() as int) =~= ls);
    proof {
        lemma_paired_lists_match(ls, a@, b@);
        lemma_paired_lists_complete(ls, a@, b@);
        assert forall|t: int|
            0 <= t < lists@.len() && #[trigger] lookup(lists@[t]@, a@) is Some && lookup(lists@[t]@, b@) is Some
                implies exists|k: int| 0 <= k < r@.len() && r@[k] == t by {
            assert(ls[t] == lists@[t]@);
            assert(lookup(ls[t], a@) is Some);
        }
    }
    r
}

} // verus!
