//! A string-keyed map with verified insertion semantics, plus the
//! slice-zipping constructor and the sorted-pairs conversion.

use vstd::prelude::*;

use crate::text::lemma_lex_lt_connected;
use crate::text::lemma_lex_lt_trans;
use crate::text::lex_lt;
use crate::text::str_lt;

verus! {

/// The pairs of a vector of owned strings, viewed as character sequences.
spec fn pair_models(s: Seq<(String, String)>) -> Seq<(Seq<char>, Seq<char>)> {
    s.map_values(|p: (String, String)| (p.0@, p.1@))
}

/// The views of a sequence of owned strings.
pub open spec fn str_views(s: Seq<String>) -> Seq<Seq<char>> {
    s.map_values(|x: String| x@)
}

/// No two pairs share a key.
spec fn unique_keys(s: Seq<(Seq<char>, Seq<char>)>) -> bool {
    forall|i: int, j: int| 0 <= i < j < s.len() ==> (#[trigger] s[i]).0 != (#[trigger] s[j]).0
}

/// The finite map described by an association list, later pairs winning
/// over earlier ones.
spec fn assoc_map(s: Seq<(Seq<char>, Seq<char>)>) -> Map<Seq<char>, Seq<char>>
    decreases s.len(),
{
    if s.len() == 0 {
        Map::empty()
    } else {
        assoc_map(s.drop_last()).insert(s.last().0, s.last().1)
    }
}

/// The domain of an association list's map is the set of its keys, and
/// under unique keys each pair is mapped exactly.
proof fn lemma_assoc_map_props(s: Seq<(Seq<char>, Seq<char>)>)
    ensures
        forall|k: Seq<char>|
            #[trigger] assoc_map(s).dom().contains(k) <==> exists|i: int|
                0 <= i < s.len() && (#[trigger] s[i]).0 == k,
        unique_keys(s) ==> forall|i: int|
            0 <= i < s.len() ==> assoc_map(s)[(#[trigger] s[i]).0] == s[i].1,
    decreases s.len(),
{
    if s.len() == 0 {
    } else {
        let d = s.drop_last();
        lemma_assoc_map_props(d);
        assert forall|k: Seq<char>| #[trigger] assoc_map(s).dom().contains(k) implies exists|i: int|
            0 <= i < s.len() && (#[trigger] s[i]).0 == k by {
            if k == s.last().0 {
                assert(s[s.len() - 1].0 == k);
            } else {
                assert(assoc_map(d).dom().contains(k));
                let i = choose|i: int| 0 <= i < d.len() && (#[trigger] d[i]).0 == k;
                assert(s[i].0 == k);
            }
        }
        assert forall|k: Seq<char>|
            (exists|i: int| 0 <= i < s.len() && (#[trigger] s[i]).0 == k) implies #[trigger] assoc_map(
            s,
        ).dom().contains(k) by {
            let i = choose|i: int| 0 <= i < s.len() && (#[trigger] s[i]).0 == k;
            if i == s.len() - 1 {
            } else {
                assert(d[i].0 == k);
                assert(assoc_map(d).dom().contains(k));
            }
        }
        if unique_keys(s) {
            assert(unique_keys(d));
            assert forall|i: int| 0 <= i < s.len() implies assoc_map(s)[(#[trigger] s[i]).0]
                == s[i].1 by {
                if i == s.len() - 1 {
                } else {
                    assert(s[i].0 != s.last().0);
                    assert(d[i].0 == s[i].0 && d[i].1 == s[i].1);
                    assert(assoc_map(d)[d[i].0] == d[i].1);
                }
            }
        }
    }
}

/// Removing a pair from an association list with unique keys removes
/// exactly its key from the map.
proof fn lemma_assoc_map_remove(s: Seq<(Seq<char>, Seq<char>)>, j: int)
    requires
        unique_keys(s),
        0 <= j < s.len(),
    ensures
        assoc_map(s.remove(j)) == assoc_map(s).remove(s[j].0),
    decreases s.len(),
{
    let d = s.drop_last();
    if j == s.len() - 1 {
        assert(s.remove(j) =~= d);
        lemma_assoc_map_props(d);
        assert(!assoc_map(d).dom().contains(s[j].0)) by {
            if assoc_map(d).dom().contains(s[j].0) {
                let i = choose|i: int| 0 <= i < d.len() && (#[trigger] d[i]).0 == s[j].0;
                assert(s[i].0 == s[j].0);
            }
        }
        assert(assoc_map(d).insert(s.last().0, s.last().1).remove(s[j].0) =~= assoc_map(d));
    } else {
        assert(unique_keys(d));
        assert(s.remove(j).drop_last() =~= d.remove(j));
        assert(s.remove(j).last() == s.last());
        lemma_assoc_map_remove(d, j);
        assert(d[j] == s[j]);
        assert(s[j].0 != s.last().0);
        assert(assoc_map(s.remove(j)) == assoc_map(d.remove(j)).insert(s.last().0, s.last().1));
        assert(assoc_map(d).remove(s[j].0).insert(s.last().0, s.last().1) =~= assoc_map(d).insert(
            s.last().0,
            s.last().1,
        ).remove(s[j].0));
    }
}

/// A map from `String` keys to `String` values, stored as a vector of
/// pairs with unique keys.
#[derive(Debug)]
pub struct StringMap {
    pairs: Vec<(String, String)>,
}

impl View for StringMap {
    type V = Map<Seq<char>, Seq<char>>;

    closed spec fn view(&self) -> Map<Seq<char>, Seq<char>> {
        assoc_map(pair_models(self.pairs@))
    }
}

/// Finds the index of the pair holding `k`, if any.
fn position_of_key(pairs: &Vec<(String, String)>, k: &String) -> (r: Option<usize>)
    ensures
        match r {
            Some(i) => i < pairs@.len() && pair_models(pairs@)[i as int].0 == k@,
            None => forall|j: int|
                0 <= j < pairs@.len() ==> (#[trigger] pair_models(pairs@)[j]).0 != k@,
        },
{
    let n: usize = pairs.len();
    let mut i: usize = 0;
    while i < n
        invariant
            0 <= i <= n,
            n == pairs@.len(),
            forall|j: int| 0 <= j < i ==> (#[trigger] pair_models(pairs@)[j]).0 != k@,
        decreases n - i,
    {
        if pairs[i].0 == *k {
            proof {
                assert(pair_models(pairs@)[i as int].0 == k@);
            }
            return Some(i);
        }
        proof {
            assert(pair_models(pairs@)[i as int].0 == pairs@[i as int].0@);
        }
        i = i + 1;
    }
    None
}

impl StringMap {
    #[verifier::type_invariant]
    spec fn wf(&self) -> bool {
        unique_keys(pair_models(self.pairs@))
    }

    /// Creates an empty map.
    pub fn new() -> (r: StringMap)
        ensures
            r@ == Map::<Seq<char>, Seq<char>>::empty(),
    {
        let r = StringMap { pairs: Vec::new() };
        proof {
            assert(pair_models(r.pairs@) =~= Seq::<(Seq<char>, Seq<char>)>::empty());
        }
        r
    }

    /// Binds `k` to `v`, replacing any earlier binding of `k`.
    pub fn insert(&mut self, k: String, v: String)
        ensures
            final(self)@ == old(self)@.insert(k@, v@),
    {
        proof {
            use_type_invariant(&*self);
        }
        let ghost s0 = pair_models(self.pairs@);
        let mut pairs: Vec<(String, String)> = Vec::new();
        core::mem::swap(&mut pairs, &mut self.pairs);
        proof {
            assert(pair_models(self.pairs@) =~= Seq::<(Seq<char>, Seq<char>)>::empty());
        }
        let pos: Option<usize> = position_of_key(&pairs, &k);
        match pos {
            Some(i) => {
                let _removed: (String, String) = pairs.remove(i);
                pairs.push((k, v));
                proof {
                    let s1 = s0.remove(i as int);
                    assert(pair_models(pairs@) =~= s1.push((k@, v@)));
                    lemma_assoc_map_remove(s0, i as int);
                    assert forall|p: int, q: int|
                        0 <= p < q < s1.push((k@, v@)).len() implies (#[trigger] s1.push(
                        (k@, v@),
                    )[p]).0 != (#[trigger] s1.push((k@, v@))[q]).0 by {
                        if q == s1.len() {
                            lemma_assoc_map_props(s1);
                            if s1[p].0 == k@ {
                                if p < i {
                                    assert(s0[p].0 == k@);
                                } else {
                                    assert(s0[p + 1].0 == k@);
                                }
                            }
                        } else {
                            if p < i && q < i {
                                assert(s0[p].0 != s0[q].0);
                            } else if p < i {
                                assert(s0[p].0 != s0[q + 1].0);
                            } else {
                                assert(s0[p + 1].0 != s0[q + 1].0);
                            }
                        }
                    }
                    assert(assoc_map(s1.push((k@, v@))) == assoc_map(s1).insert(k@, v@)) by {
                        assert(s1.push((k@, v@)).drop_last() =~= s1);
                    }
                    assert(assoc_map(s0).remove(s0[i as int].0).insert(k@, v@) =~= assoc_map(
                        s0,
                    ).insert(k@, v@));
                }
                self.pairs = pairs;
            },
            None => {
                pairs.push((k, v));
                proof {
                    assert(pair_models(pairs@) =~= s0.push((k@, v@)));
                    assert forall|p: int, q: int|
                        0 <= p < q < s0.push((k@, v@)).len() implies (#[trigger] s0.push(
                        (k@, v@),
                    )[p]).0 != (#[trigger] s0.push((k@, v@))[q]).0 by {
                        if q == s0.len() {
                            assert(s0[p].0 != k@);
                        }
                    }
                    assert(assoc_map(s0.push((k@, v@))) == assoc_map(s0).insert(k@, v@)) by {
                        assert(s0.push((k@, v@)).drop_last() =~= s0);
                    }
                }
                self.pairs = pairs;
            },
        }
    }

    /// Returns the value bound to `k`, if any.
    pub fn get(&self, k: &str) -> (r: Option<String>)
        ensures
            r matches Some(v) ==> self@.dom().contains(k@) && self@[k@] == v@,
            r is None ==> !self@.dom().contains(k@),
    {
        proof {
            use_type_invariant(&*self);
            lemma_assoc_map_props(pair_models(self.pairs@));
        }
        let wanted: String = k.to_owned();
        let pos: Option<usize> = position_of_key(&self.pairs, &wanted);
        match pos {
            Some(i) => {
                proof {
                    assert(pair_models(self.pairs@)[i as int].0 == k@);
                }
                Some(self.pairs[i].1.clone())
            },
            None => {
                proof {
                    if self@.dom().contains(k@) {
                        let j = choose|j: int|
                            0 <= j < pair_models(self.pairs@).len() && (#[trigger] pair_models(
                                self.pairs@,
                            )[j]).0 == k@;
                        assert(pair_models(self.pairs@)[j].0 == k@);
                    }
                }
                None
            },
        }
    }
}

/// The map that binds each key to the value at its position, later
/// occurrences of a key winning.
pub open spec fn zip_model(ks: Seq<Seq<char>>, vs: Seq<Seq<char>>) -> Map<Seq<char>, Seq<char>>
    decreases ks.len(),
{
    if ks.len() == 0 || vs.len() == 0 {
        Map::empty()
    } else {
        zip_model(ks.drop_last(), vs.drop_last()).insert(ks.last(), vs.last())
    }
}

/// Zips two slices into a map, binding `arr1[i]` to `arr2[i]`, or returns
/// `None` if the lengths differ. Duplicate keys keep the last value.
pub fn zip_hash(arr1: &[String], arr2: &[String]) -> (r: Option<StringMap>)
    ensures
        arr1@.len() == arr2@.len() ==> (r matches Some(m) && m@ == zip_model(
            str_views(arr1@),
            str_views(arr2@),
        )),
        arr1@.len() != arr2@.len() ==> r is None,
{
    if arr1.len() != arr2.len() {
        return None;
    }
    let n: usize = arr1.len();
    let mut m: StringMap = StringMap::new();
    let mut i: usize = 0;
    proof {
        assert(str_views(arr1@).take(0) =~= Seq::<Seq<char>>::empty());
        assert(str_views(arr2@).take(0) =~= Seq::<Seq<char>>::empty());
    }
    while i < n
        invariant
            0 <= i <= n,
            n == arr1@.len(),
            n == arr2@.len(),
            m@ == zip_model(str_views(arr1@).take(i as int), str_views(arr2@).take(i as int)),
        decreases n - i,
    {
        let kk: String = arr1[i].clone();
        let vv: String = arr2[i].clone();
        m.insert(kk, vv);
        proof {
            let ks = str_views(arr1@);
            let vs = str_views(arr2@);
            assert(ks.take(i as int + 1).drop_last() =~= ks.take(i as int));
            assert(vs.take(i as int + 1).drop_last() =~= vs.take(i as int));
            assert(ks.take(i as int + 1).last() == arr1@[i as int]@);
            assert(vs.take(i as int + 1).last() == arr2@[i as int]@);
        }
        i = i + 1;
    }
    proof {
        assert(str_views(arr1@).take(n as int) =~= str_views(arr1@));
        assert(str_views(arr2@).take(n as int) =~= str_views(arr2@));
    }
    Some(m)
}

/// Finds the number of entries of `out` whose key comes strictly before
/// `key` in lexicographic order, scanning from the front.
fn lower_bound(out: &Vec<(String, String)>, key: &String) -> (pos: usize)
    ensures
        pos <= out@.len(),
        forall|a: int| 0 <= a < pos ==> lex_lt((#[trigger] out@[a]).0@, key@),
        pos < out@.len() ==> !lex_lt(out@[pos as int].0@, key@),
{
    let n: usize = out.len();
    let mut pos: usize = 0;
    while pos < n
        invariant
            0 <= pos <= n,
            n == out@.len(),
            forall|a: int| 0 <= a < pos ==> lex_lt((#[trigger] out@[a]).0@, key@),
        decreases n - pos,
    {
        if !str_lt(out[pos].0.as_str(), key.as_str()) {
            return pos;
        }
        pos = pos + 1;
    }
    pos
}

/// Inserting a pair whose key is larger than everything before the scan
/// position and smaller than the pair at it keeps the output strictly
/// sorted.
proof fn lemma_step_sorted(
    before: Seq<(String, String)>,
    after: Seq<(String, String)>,
    kp: (String, String),
    pos: int,
)
    requires
        0 <= pos <= before.len(),
        after == before.insert(pos, kp),
        forall|a: int, b: int|
            0 <= a < b < before.len() ==> lex_lt(
                (#[trigger] before[a]).0@,
                (#[trigger] before[b]).0@,
            ),
        forall|a: int| 0 <= a < pos ==> lex_lt((#[trigger] before[a]).0@, kp.0@),
        pos < before.len() ==> lex_lt(kp.0@, before[pos].0@),
    ensures
        forall|a: int, b: int|
            0 <= a < b < after.len() ==> lex_lt((#[trigger] after[a]).0@, (#[trigger] after[b]).0@),
{
    before.insert_ensures(pos, kp);
    assert forall|a: int, b: int| 0 <= a < b < after.len() implies lex_lt(
        (#[trigger] after[a]).0@,
        (#[trigger] after[b]).0@,
    ) by {
        if b < pos {
        } else if a < pos && b == pos {
            assert(lex_lt(before[a].0@, kp.0@));
        } else if a < pos && b > pos {
            assert(lex_lt(before[a].0@, before[b - 1].0@));
        } else if a == pos && b > pos {
            assert(lex_lt(kp.0@, before[pos].0@));
            if b - 1 > pos {
                assert(lex_lt(before[pos].0@, before[b - 1].0@));
                lemma_lex_lt_trans(kp.0@, before[pos].0@, before[b - 1].0@);
            }
        } else {
            assert(lex_lt(before[a - 1].0@, before[b - 1].0@));
        }
    }
}

/// The pair at `i` of an association list with unique keys is a binding
/// of its map.
proof fn lemma_pair_is_binding(sp: Seq<(Seq<char>, Seq<char>)>, i: int)
    requires
        unique_keys(sp),
        0 <= i < sp.len(),
    ensures
        assoc_map(sp).contains_pair(sp[i].0, sp[i].1),
{
    lemma_assoc_map_props(sp);
    assert(assoc_map(sp)[sp[i].0] == sp[i].1);
    assert(assoc_map(sp).dom().contains(sp[i].0));
}

/// Converts the map into its pairs, sorted ascending by key: the result
/// is strictly sorted, every pair of it is a binding of the map, and
/// every key of the map appears.
pub fn hash_to_array(m: &StringMap) -> (r: Vec<(String, String)>)
    ensures
        forall|i: int, j: int|
            0 <= i < j < r@.len() ==> lex_lt((#[trigger] r@[i]).0@, (#[trigger] r@[j]).0@),
        forall|i: int| 0 <= i < r@.len() ==> m@.contains_pair((#[trigger] r@[i]).0@, r@[i].1@),
        forall|k: Seq<char>|
            #[trigger] m@.dom().contains(k) ==> exists|i: int|
                0 <= i < r@.len() && (#[trigger] r@[i]).0@ == k,
{
    proof {
        use_type_invariant(m);
    }
    let ghost sp = pair_models(m.pairs@);
    let n: usize = m.pairs.len();
    let mut out: Vec<(String, String)> = Vec::new();
    let mut p: usize = 0;
    proof {
        assert(pair_models(out@) =~= Seq::<(Seq<char>, Seq<char>)>::empty());
        assert(sp.take(0) =~= Seq::<(Seq<char>, Seq<char>)>::empty());
        assert(pair_models(out@).to_multiset() =~= sp.take(0).to_multiset());
    }
    while p < n
        invariant
            0 <= p <= n,
            n == sp.len(),
            sp == pair_models(m.pairs@),
            unique_keys(sp),
            forall|a: int, b: int|
                0 <= a < b < out@.len() ==> lex_lt(
                    (#[trigger] out@[a]).0@,
                    (#[trigger] out@[b]).0@,
                ),
            pair_models(out@).to_multiset() == sp.take(p as int).to_multiset(),
        decreases n - p,
    {
        let key: String = m.pairs[p].0.clone();
        let val: String = m.pairs[p].1.clone();
        proof {
            assert(sp[p as int] == (m.pairs@[p as int].0@, m.pairs@[p as int].1@));
        }
        let ghost before = out@;
        let ghost pv = pair_models(before);
        let pos: usize = lower_bound(&out, &key);
        proof {
            if (pos as int) < before.len() {
                if before[pos as int].0@ == key@ {
                    assert(pv[pos as int] == (key@, before[pos as int].1@));
                    assert(pv.contains(pv[pos as int]));
                    vstd::seq_lib::to_multiset_contains(pv, pv[pos as int]);
                    vstd::seq_lib::to_multiset_contains(sp.take(p as int), pv[pos as int]);
                    let j = choose|j: int|
                        0 <= j < sp.take(p as int).len() && sp.take(p as int)[j] == pv[pos as int];
                    assert(sp[j].0 == sp[p as int].0);
                    assert(false);
                }
                lemma_lex_lt_connected(before[pos as int].0@, key@);
            }
        }
        let ghost kpair = (key, val);
        out.insert(pos, (key, val));
        proof {
            assert(out@ == before.insert(pos as int, kpair));
            lemma_step_sorted(before, out@, kpair, pos as int);
            assert(pair_models(out@) =~= pv.insert(pos as int, (key@, val@)));
            vstd::seq_lib::to_multiset_insert(pv, pos as int, (key@, val@));
            assert(sp.take(p as int + 1) =~= sp.take(p as int).push(sp[p as int]));
            vstd::seq_lib::to_multiset_build(sp.take(p as int), sp[p as int]);
        }
        p = p + 1;
    }
    proof {
        assert(sp.take(n as int) =~= sp);
        let pm = pair_models(out@);
        assert forall|i: int| 0 <= i < out@.len() implies m@.contains_pair(
            (#[trigger] out@[i]).0@,
            out@[i].1@,
        ) by {
            assert(pm[i] == (out@[i].0@, out@[i].1@));
            assert(pm.contains(pm[i]));
            vstd::seq_lib::to_multiset_contains(pm, pm[i]);
            vstd::seq_lib::to_multiset_contains(sp, pm[i]);
            let j = choose|j: int| 0 <= j < sp.len() && sp[j] == pm[i];
            lemma_pair_is_binding(sp, j);
        }
        assert forall|k: Seq<char>| #[trigger] m@.dom().contains(k) implies exists|i: int|
            0 <= i < out@.len() && (#[trigger] out@[i]).0@ == k by {
            lemma_assoc_map_props(sp);
            let j = choose|j: int| 0 <= j < sp.len() && (#[trigger] sp[j]).0 == k;
            assert(sp.contains(sp[j]));
            vstd::seq_lib::to_multiset_contains(sp, sp[j]);
            vstd::seq_lib::to_multiset_contains(pm, sp[j]);
            let a = choose|a: int| 0 <= a < pm.len() && pm[a] == sp[j];
            assert(out@[a].0@ == k);
        }
    }
    out
}

} // verus!
