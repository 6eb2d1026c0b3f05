//! Planning of the build pipeline: grouping resolved packages into build
//! layers, deepest first; choosing which produced archives undergo review;
//! and the recovery rule for moving artifacts across devices.

use vstd::prelude::*;
use crate::error::RuaError;
use crate::tar_check;
use crate::text;
use crate::to_install::{has_depth, depth_of, unique_depth_names, DepthEntry};

verus! {

/// The splits of one resolution, as `(pkgname, depth, pkgbase)` views.
pub open spec fn tuples_of(
    pairs: Seq<(String, String)>,
    depths: Seq<DepthEntry>,
) -> Seq<(Seq<char>, Seq<char>, int)> {
    pairs.map_values(
        |p: (String, String)| (p.0@, p.1@, depth_of(depths, p.0@)),
    )
}

/// The deepest layer any split of `base` lies in.
pub open spec fn base_max_depth(tv: Seq<(Seq<char>, Seq<char>, int)>, base: Seq<char>) -> int
    decreases tv.len(),
{
    if tv.len() == 0 {
        -1
    } else {
        let r = base_max_depth(tv.drop_last(), base);
        if tv.last().1 == base && tv.last().2 > r {
            tv.last().2
        } else {
            r
        }
    }
}

/// Whether row `k` is the first split of `base` at depth `d`.
pub open spec fn is_first_at(
    tv: Seq<(Seq<char>, Seq<char>, int)>,
    base: Seq<char>,
    d: int,
    k: int,
) -> bool {
    &&& 0 <= k < tv.len()
    &&& tv[k].1 == base
    &&& tv[k].2 == d
    &&& forall|k2: int| 0 <= k2 < k ==> !((#[trigger] tv[k2]).1 == base && tv[k2].2 == d)
}

/// Whether `split` is the first split that reaches `base` at depth `d`.
pub open spec fn first_split_of(
    tv: Seq<(Seq<char>, Seq<char>, int)>,
    base: Seq<char>,
    d: int,
    split: Seq<char>,
) -> bool {
    exists|k: int| #[trigger] is_first_at(tv, base, d, k) && tv[k].0 == split
}

/// Whether the first splits reaching `a` and `b` at depth `d` stand in
/// this order.
pub open spec fn pair_ordered(
    tv: Seq<(Seq<char>, Seq<char>, int)>,
    a: Seq<char>,
    b: Seq<char>,
    d: int,
) -> bool {
    exists|k1: int, k2: int|
        #[trigger] is_first_at(tv, a, d, k1) && #[trigger] is_first_at(tv, b, d, k2) && k1 < k2
}

/// One build layer: every build unit whose deepest split lies at `depth`,
/// each with the split package that put it there.
pub struct BuildLayer {
    pub depth: usize,
    pub members: Vec<(String, String)>,
}

/// Whether some row names this base.
pub open spec fn tv_has_base(tv: Seq<(Seq<char>, Seq<char>, int)>, base: Seq<char>) -> bool {
    exists|k: int| 0 <= k < tv.len() && (#[trigger] tv[k]).1 == base
}

/// Whether some layer holds a member of this build unit.
pub open spec fn layered(r: Seq<BuildLayer>, base: Seq<char>) -> bool {
    exists|l: int, m: int|
        0 <= l < r.len() && 0 <= m < r[l].members@.len() && (#[trigger] r[l].members@[m]).1@
            == base
}

proof fn lemma_depth_nonneg(s: Seq<DepthEntry>, name: Seq<char>)
    requires
        has_depth(s, name),
    ensures
        depth_of(s, name) >= 0,
{
    let i = choose|i: int| 0 <= i < s.len() && (#[trigger] s[i]).name@ == name;
}

proof fn lemma_base_max_depth(tv: Seq<(Seq<char>, Seq<char>, int)>, base: Seq<char>)
    requires
        forall|k: int| 0 <= k < tv.len() ==> (#[trigger] tv[k]).2 >= 0,
    ensures
        tv_has_base(tv, base) ==> exists|k: int|
            0 <= k < tv.len() && (#[trigger] tv[k]).1 == base && tv[k].2 == base_max_depth(
                tv,
                base,
            ),
        forall|k: int|
            0 <= k < tv.len() && (#[trigger] tv[k]).1 == base ==> tv[k].2 <= base_max_depth(
                tv,
                base,
            ),
        !tv_has_base(tv, base) ==> base_max_depth(tv, base) == -1,
    decreases tv.len(),
{
    if tv.len() > 0 {
        let prefix = tv.drop_last();
        assert(forall|k: int| 0 <= k < prefix.len() ==> (#[trigger] prefix[k]).2 >= 0) by {
            assert(forall|k: int| 0 <= k < prefix.len() ==> prefix[k] == #[trigger] tv[k]);
        }
        lemma_base_max_depth(prefix, base);
        let last = tv.len() - 1;
        assert(base_max_depth(tv, base) >= base_max_depth(prefix, base));
        assert forall|k: int|
            0 <= k < tv.len() && (#[trigger] tv[k]).1 == base implies tv[k].2
            <= base_max_depth(tv, base) by {
            if k < last {
                assert(prefix[k] == tv[k]);
            }
        }
        if tv_has_base(tv, base) {
            if tv[last].1 == base && tv[last].2 > base_max_depth(prefix, base) {
                assert(tv[last].2 == base_max_depth(tv, base));
            } else if tv_has_base(prefix, base) {
                let w = choose|k: int|
                    0 <= k < prefix.len() && (#[trigger] prefix[k]).1 == base && prefix[k].2
                        == base_max_depth(prefix, base);
                assert(base_max_depth(tv, base) == base_max_depth(prefix, base));
                assert(tv[w].1 == base && tv[w].2 == base_max_depth(tv, base));
            } else {
                let w = choose|k: int| 0 <= k < tv.len() && (#[trigger] tv[k]).1 == base;
                assert(w == last) by {
                    if w < last {
                        assert(prefix[w].1 == base);
                    }
                }
                assert(tv[last].2 >= 0 > -1);
                assert(base_max_depth(prefix, base) == -1);
                assert(tv[last].2 == base_max_depth(tv, base));
            }
        }
    }
}

/// Groups the resolved splits into build layers, deepest first. Each
/// build unit lands in exactly one layer — the deepest any of its splits
/// reaches — represented by the first split that reaches it; within a
/// layer, units keep the order those splits were resolved in.
#[verifier::rlimit(60)]
pub fn build_layers(pairs: &Vec<(String, String)>, depths: &Vec<DepthEntry>) -> (r: Vec<
    BuildLayer,
>)
    requires
        unique_depth_names(depths@),
        forall|k: int| 0 <= k < pairs@.len() ==> has_depth(depths@, (#[trigger] pairs@[k]).0@),
    ensures
        forall|l1: int, l2: int|
            0 <= l1 < l2 < r@.len() ==> (#[trigger] r@[l1]).depth > (#[trigger] r@[l2]).depth,
        forall|l: int, m: int|
            0 <= l < r@.len() && 0 <= m < (#[trigger] r@[l]).members@.len() ==> {
                let mem = (#[trigger] r@[l].members@[m]);
                &&& base_max_depth(tuples_of(pairs@, depths@), mem.1@) == r@[l].depth as int
                &&& first_split_of(
                    tuples_of(pairs@, depths@),
                    mem.1@,
                    r@[l].depth as int,
                    mem.0@,
                )
            },
        forall|l: int, m1: int, m2: int|
            #![trigger r@[l].members@[m1], r@[l].members@[m2]]
            0 <= l < r@.len() && 0 <= m1 < m2 < r@[l].members@.len() ==> pair_ordered(
                tuples_of(pairs@, depths@),
                (r@[l].members@[m1]).1@,
                (r@[l].members@[m2]).1@,
                r@[l].depth as int,
            ),
        forall|l1: int, m1: int, l2: int, m2: int|
            0 <= l1 < r@.len() && 0 <= m1 < (#[trigger] r@[l1]).members@.len() && 0 <= l2
                < r@.len() && 0 <= m2 < (#[trigger] r@[l2]).members@.len() && (l1 != l2 || m1
                != m2) ==> (#[trigger] r@[l1].members@[m1]).1@ != (
            #[trigger] r@[l2].members@[m2]).1@,
        forall|k: int|
            0 <= k < pairs@.len() ==> layered(r@, (#[trigger] pairs@[k]).1@),
{
    let ghost tv = tuples_of(pairs@, depths@);
    let n = pairs.len();
    proof {
        assert forall|k: int| 0 <= k < tv.len() implies (#[trigger] tv[k]).2 >= 0 by {
            assert(has_depth(depths@, pairs@[k].0@));
            lemma_depth_nonneg(depths@, pairs@[k].0@);
        }
    }

    // the depth of each split
    let mut ds: Vec<usize> = Vec::new();
    let mut i: usize = 0;
    while i < n
        invariant
            i <= n,
            n == pairs@.len(),
            tv == tuples_of(pairs@, depths@),
            unique_depth_names(depths@),
            forall|k: int| 0 <= k < pairs@.len() ==> has_depth(depths@, (#[trigger] pairs@[k]).0@),
            ds@.len() == i,
            forall|k: int| 0 <= k < i ==> (#[trigger] ds@[k]) as int == tv[k].2,
        decreases n - i,
    {
        let name_chars = text::chars_of(pairs[i].0.as_str());
        let nd = depths.len();
        let mut j: usize = 0;
        let mut found = false;
        let mut at: usize = 0;
        while j < nd
            invariant
                j <= nd,
                nd == depths@.len(),
                name_chars@ == pairs@[i as int].0@,
                found ==> at < j && depths@[at as int].name@ == name_chars@,
                !found ==> forall|k: int|
                    0 <= k < j ==> (#[trigger] depths@[k]).name@ != name_chars@,
            decreases nd - j,
        {
            if !found && text::chars_eq(&text::chars_of(depths[j].name.as_str()), &name_chars) {
                found = true;
                at = j;
            }
            j = j + 1;
        }
        proof {
            assert(found);
            crate::to_install::lemma_depth_at(depths@, at as int);
        }
        ds.push(depths[at].depth);
        i = i + 1;
    }

    // layers, deepest first: scan down from the largest depth present
    let mut layers: Vec<BuildLayer> = Vec::new();
    let ghost mut layer_idxs: Seq<Seq<int>> = Seq::empty();
    let mut bound_active = false;
    let mut bound: usize = 0;
    loop
        invariant
            n == pairs@.len(),
            ds@.len() == n,
            tv == tuples_of(pairs@, depths@),
            forall|k: int| 0 <= k < n ==> (#[trigger] ds@[k]) as int == tv[k].2,
            forall|k: int| 0 <= k < tv.len() ==> (#[trigger] tv[k]).2 >= 0,
            layer_idxs.len() == layers@.len(),
            forall|l: int| 0 <= l < layers@.len() ==> (#[trigger] layer_idxs[l]).len() == (
            #[trigger] layers@[l]).members@.len(),
            forall|l1: int, l2: int|
                0 <= l1 < l2 < layers@.len() ==> (#[trigger] layers@[l1]).depth > (
                #[trigger] layers@[l2]).depth,
            forall|l: int, m: int|
                0 <= l < layers@.len() && 0 <= m < (#[trigger] layers@[l]).members@.len() ==> {
                    let mem = (#[trigger] layers@[l].members@[m]);
                    &&& base_max_depth(tv, mem.1@) == layers@[l].depth as int
                    &&& 0 <= layer_idxs[l][m] < n
                    &&& is_first_at(tv, mem.1@, layers@[l].depth as int, layer_idxs[l][m])
                    &&& tv[layer_idxs[l][m]].0 == mem.0@
                },
            forall|l: int, m1: int, m2: int|
                #![trigger layer_idxs[l][m1], layer_idxs[l][m2]]
                0 <= l < layers@.len() && 0 <= m1 < m2 < layers@[l].members@.len()
                    ==> layer_idxs[l][m1] < layer_idxs[l][m2],
            forall|l1: int, m1: int, l2: int, m2: int|
                0 <= l1 < layers@.len() && 0 <= m1 < (#[trigger] layers@[l1]).members@.len() && 0
                    <= l2 < layers@.len() && 0 <= m2 < (#[trigger] layers@[l2]).members@.len()
                    && (l1 != l2 || m1 != m2) ==> (#[trigger] layers@[l1].members@[m1]).1@ != (
                #[trigger] layers@[l2].members@[m2]).1@,
            forall|k: int|
                0 <= k < n && bound_active && base_max_depth(tv, (#[trigger] tv[k]).1)
                    >= bound as int ==> exists|l: int, m: int|
                    0 <= l < layers@.len() && 0 <= m < layers@[l].members@.len() && (
                    #[trigger] layers@[l].members@[m]).1@ == tv[k].1,
            forall|l: int|
                0 <= l < layers@.len() ==> bound_active && (#[trigger] layers@[l]).depth
                    >= bound,
            !bound_active ==> layers@.len() == 0,
        decreases (if bound_active {
            bound as int + 1
        } else {
            usize::MAX as int + 2
        }),
    {
        // find the largest depth below the bound that still has a split
        let mut next: usize = 0;
        let mut have_next = false;
        let mut i: usize = 0;
        while i < n
            invariant
                i <= n,
                n == pairs@.len(),
                ds@.len() == n,
                forall|k: int| 0 <= k < n ==> (#[trigger] ds@[k]) as int == tv[k].2,
                have_next ==> (!bound_active || (next as int) < bound as int),
                have_next ==> exists|k: int| 0 <= k < n && (#[trigger] ds@[k]) == next,
                !bound_active && i > 0 ==> have_next,
                !have_next ==> forall|k: int|
                    0 <= k < i ==> ((#[trigger] ds@[k]) as int) >= bound as int,
                forall|k: int|
                    0 <= k < i && (!bound_active || ((#[trigger] ds@[k]) as int) < bound as int)
                        ==> have_next && ds@[k] <= next,
            decreases n - i,
        {
            let d = ds[i];
            if (!bound_active || d < bound) && (!have_next || d > next) {
                next = d;
                have_next = true;
                proof {
                    assert(ds@[i as int] == next);
                }
            }
            i = i + 1;
        }
        if !have_next {
            proof {
                if !bound_active {
                    assert(n == 0);
                } else {
                    assert forall|k: int| 0 <= k < n implies layered(
                        layers@,
                        (#[trigger] pairs@[k]).1@,
                    ) by {
                        lemma_base_max_depth(tv, tv[k].1);
                        assert(((ds@[k]) as int) >= bound as int);
                        assert(tv[k].2 <= base_max_depth(tv, tv[k].1));
                        assert(base_max_depth(tv, tv[k].1) >= bound as int);
                        let (l, m) = choose|l: int, m: int|
                            0 <= l < layers@.len() && 0 <= m < layers@[l].members@.len() && (
                            #[trigger] layers@[l].members@[m]).1@ == tv[k].1;
                        assert(0 <= l < layers@.len() && 0 <= m < (
                        #[trigger] layers@[l]).members@.len() && (layers@[l].members@[m]).1@
                            == pairs@[k].1@);
                    }
                }
                assert forall|l: int, m: int|
                    0 <= l < layers@.len() && 0 <= m < (#[trigger] layers@[l]).members@.len()
                        implies {
                    let mem = (#[trigger] layers@[l].members@[m]);
                    &&& base_max_depth(tv, mem.1@) == layers@[l].depth as int
                    &&& first_split_of(tv, mem.1@, layers@[l].depth as int, mem.0@)
                } by {
                    let k0 = layer_idxs[l][m];
                    assert(is_first_at(tv, layers@[l].members@[m].1@, layers@[l].depth as int, k0)
                        && tv[k0].0 == layers@[l].members@[m].0@);
                }
                assert forall|l: int, m1: int, m2: int|
                    #![trigger layers@[l].members@[m1], layers@[l].members@[m2]]
                    0 <= l < layers@.len() && 0 <= m1 < m2 < layers@[l].members@.len()
                        implies pair_ordered(
                    tv,
                    (layers@[l].members@[m1]).1@,
                    (layers@[l].members@[m2]).1@,
                    layers@[l].depth as int,
                ) by {
                    let k1 = layer_idxs[l][m1];
                    let k2 = layer_idxs[l][m2];
                    assert(is_first_at(tv, layers@[l].members@[m1].1@, layers@[l].depth as int, k1)
                        && is_first_at(tv, layers@[l].members@[m2].1@, layers@[l].depth as int, k2)
                        && k1 < k2);
                }
            }
            return layers;
        }
        // collect the layer at depth `next`
        let mut members: Vec<(String, String)> = Vec::new();
        let ghost mut idxs: Seq<int> = Seq::empty();
        let mut i: usize = 0;
        while i < n
            invariant
                i <= n,
                n == pairs@.len(),
                ds@.len() == n,
                tv == tuples_of(pairs@, depths@),
                forall|k: int| 0 <= k < n ==> (#[trigger] ds@[k]) as int == tv[k].2,
                forall|k: int| 0 <= k < tv.len() ==> (#[trigger] tv[k]).2 >= 0,
                idxs.len() == members@.len(),
                forall|m: int| 0 <= m < idxs.len() ==> 0 <= #[trigger] idxs[m] < i,
                forall|m: int|
                    0 <= m < members@.len() ==> {
                        let mem = (#[trigger] members@[m]);
                        &&& base_max_depth(tv, mem.1@) == next as int
                        &&& is_first_at(tv, mem.1@, next as int, idxs[m])
                        &&& tv[idxs[m]].0 == mem.0@
                    },
                forall|m1: int, m2: int|
                    #![trigger idxs[m1], idxs[m2]]
                    0 <= m1 < m2 < members@.len() ==> idxs[m1] < idxs[m2],
                forall|m1: int, m2: int|
                    0 <= m1 < m2 < members@.len() ==> (#[trigger] members@[m1]).1@ != (
                    #[trigger] members@[m2]).1@,
                forall|k: int|
                    0 <= k < i && (#[trigger] ds@[k]) == next && base_max_depth(tv, tv[k].1)
                        == next as int ==> exists|m: int|
                        0 <= m < members@.len() && (#[trigger] members@[m]).1@ == tv[k].1,
            decreases n - i,
        {
            if ds[i] == next {
                // is this the unit's deepest layer, and is this its first
                // split here?
                let base_chars = text::chars_of(pairs[i].1.as_str());
                let mut deeper = false;
                let mut earlier = false;
                let mut j: usize = 0;
                while j < n
                    invariant
                        j <= n,
                        i < n,
                        n == pairs@.len(),
                        ds@.len() == n,
                        tv == tuples_of(pairs@, depths@),
                        forall|k: int| 0 <= k < n ==> (#[trigger] ds@[k]) as int == tv[k].2,
                        base_chars@ == tv[i as int].1,
                        ds@[i as int] == next,
                        deeper == exists|k: int|
                            0 <= k < j && (#[trigger] tv[k]).1 == tv[i as int].1 && tv[k].2
                                > next as int,
                        earlier == exists|k: int|
                            0 <= k < j && k < i && (#[trigger] tv[k]).1 == tv[i as int].1
                                && tv[k].2 == next as int,
                    decreases n - j,
                {
                    if text::chars_eq(&text::chars_of(pairs[j].1.as_str()), &base_chars) {
                        if ds[j] > next {
                            deeper = true;
                            proof {
                                assert((tv[j as int]).1 == tv[i as int].1 && tv[j as int].2
                                    > next as int);
                            }
                        }
                        if j < i && ds[j] == next {
                            earlier = true;
                            proof {
                                assert((tv[j as int]).1 == tv[i as int].1 && tv[j as int].2
                                    == next as int);
                            }
                        }
                    }
                    j = j + 1;
                }
                if !deeper && !earlier {
                    let ghost pre_members = members@;
                    let ghost pre_idxs = idxs;
                    members.push((pairs[i].0.clone(), pairs[i].1.clone()));
                    proof {
                        idxs = idxs.push(i as int);
                        let base = tv[i as int].1;
                        let nm = members@.len() - 1;
                        assert(forall|m: int|
                            0 <= m < pre_members.len() ==> #[trigger] members@[m]
                                == pre_members[m]);
                        assert(forall|m: int|
                            0 <= m < pre_idxs.len() ==> #[trigger] idxs[m] == pre_idxs[m]);
                        assert(idxs[nm as int] == i as int);
                        assert((members@[nm as int].0)@ == tv[i as int].0 && (
                        members@[nm as int].1)@ == base);
                        lemma_base_max_depth(tv, base);
                        assert(base_max_depth(tv, base) == next as int) by {
                            assert(tv[i as int].2 == next as int);
                            if base_max_depth(tv, base) > next as int {
                                let w = choose|k: int|
                                    0 <= k < tv.len() && (#[trigger] tv[k]).1 == base && tv[k].2
                                        == base_max_depth(tv, base);
                                assert(deeper);
                            }
                        }
                        assert(is_first_at(tv, base, next as int, i as int));
                        // every queued unit keeps a member, and this one gains one
                        assert forall|k: int|
                            0 <= k < i + 1 && (#[trigger] ds@[k]) == next && base_max_depth(
                                tv,
                                tv[k].1,
                            ) == next as int implies exists|m: int|
                            0 <= m < members@.len() && (#[trigger] members@[m]).1@ == tv[k].1
                            by {
                            if k < i {
                                let m = choose|m: int|
                                    0 <= m < pre_members.len() && (
                                    #[trigger] pre_members[m]).1@ == tv[k].1;
                                assert(0 <= m < members@.len() && members@[m].1@ == tv[k].1);
                            } else {
                                assert(0 <= nm < members@.len() && members@[nm as int].1@
                                    == tv[k].1);
                            }
                        }
                        // the new unit was not a member yet
                        assert forall|m1: int, m2: int|
                            0 <= m1 < m2 < members@.len() implies (#[trigger] members@[m1]).1@
                            != (#[trigger] members@[m2]).1@ by {
                            if m2 == nm {
                                assert(members@[m1] == pre_members[m1]);
                                if (members@[m1]).1@ == base {
                                    let k1 = idxs[m1];
                                    assert(is_first_at(tv, base, next as int, k1) && k1 < i);
                                    assert(earlier);
                                }
                            }
                        }
                    }
                } else {
                    proof {
                        if base_max_depth(tv, tv[i as int].1) == next as int {
                            lemma_base_max_depth(tv, tv[i as int].1);
                            if deeper {
                                let w = choose|k: int|
                                    0 <= k < n && (#[trigger] tv[k]).1 == tv[i as int].1
                                        && tv[k].2 > next as int;
                                assert(tv[w].2 <= base_max_depth(tv, tv[i as int].1));
                                assert(false);
                            }
                            // an earlier split of the same unit at this depth
                            // already put the member in place
                            let w = choose|k: int|
                                0 <= k < n && k < i && (#[trigger] tv[k]).1 == tv[i as int].1
                                    && tv[k].2 == next as int;
                            assert(ds@[w] == next);
                            assert(base_max_depth(tv, tv[w].1) == next as int);
                            let m = choose|m: int|
                                0 <= m < members@.len() && (#[trigger] members@[m]).1@
                                    == tv[w].1;
                            assert(members@[m].1@ == tv[i as int].1);
                        }
                    }
                }
            }
            proof {
                assert forall|m: int| 0 <= m < idxs.len() implies 0 <= #[trigger] idxs[m] < i
                    + 1 by {
                    let mem = members@[m];
                    assert(0 <= idxs[m] < i + 1);
                }
            }
            i = i + 1;
        }
        let ghost pre_layers = layers@;
        let ghost pre_layer_idxs = layer_idxs;
        let ghost old_bound = bound;
        let ghost old_active = bound_active;
        if members.len() == 0 {
            // no build unit peaks at this depth; lower the bound and go on
            bound = next;
            bound_active = true;
            proof {
                assert(forall|l: int|
                    0 <= l < layers@.len() ==> bound_active && (#[trigger] layers@[l]).depth
                        >= bound) by {
                    assert(forall|l: int|
                        0 <= l < pre_layers.len() ==> old_active && (
                        #[trigger] pre_layers[l]).depth >= old_bound);
                }
                assert forall|k: int|
                    0 <= k < n && base_max_depth(tv, (#[trigger] tv[k]).1) >= next as int
                        implies exists|l: int, m: int|
                    0 <= l < layers@.len() && 0 <= m < layers@[l].members@.len() && (
                    #[trigger] layers@[l].members@[m]).1@ == tv[k].1 by {
                    let base = tv[k].1;
                    lemma_base_max_depth(tv, base);
                    let w = choose|w: int|
                        0 <= w < tv.len() && (#[trigger] tv[w]).1 == base && tv[w].2
                            == base_max_depth(tv, base);
                    assert(ds@[w] as int == tv[w].2);
                    if old_active && base_max_depth(tv, base) >= old_bound as int {
                    } else {
                        assert(((ds@[w]) as int) < old_bound as int || !old_active);
                        assert(ds@[w] <= next);
                        assert(base_max_depth(tv, base) == next as int);
                        assert(ds@[w] == next);
                        let m = choose|m: int|
                            0 <= m < members@.len() && (#[trigger] members@[m]).1@ == tv[w].1;
                        assert(false);
                    }
                }
            }
            continue;
        }
        layers.push(BuildLayer { depth: next, members });
        bound = next;
        bound_active = true;
        proof {
            layer_idxs = layer_idxs.push(idxs);
            let nl = layers@.len() - 1;
            assert(forall|l: int|
                0 <= l < pre_layers.len() ==> #[trigger] layers@[l] == pre_layers[l]);
            assert(forall|l: int|
                0 <= l < pre_layer_idxs.len() ==> #[trigger] layer_idxs[l]
                    == pre_layer_idxs[l]);
            assert(layers@[nl as int].depth == next);
            assert(layer_idxs[nl as int] == idxs);
            assert forall|l: int, m: int|
                0 <= l < layers@.len() && 0 <= m < (#[trigger] layers@[l]).members@.len()
                    implies {
                let mem = (#[trigger] layers@[l].members@[m]);
                &&& base_max_depth(tv, mem.1@) == layers@[l].depth as int
                &&& 0 <= layer_idxs[l][m] < n
                &&& is_first_at(tv, mem.1@, layers@[l].depth as int, layer_idxs[l][m])
                &&& tv[layer_idxs[l][m]].0 == mem.0@
            } by {
                if l < nl {
                    assert(layers@[l] == pre_layers[l] && layer_idxs[l] == pre_layer_idxs[l]);
                } else {
                    assert(layers@[l].members@ == members@ && layer_idxs[l] == idxs);
                }
            }
            assert forall|l: int, m1: int, m2: int|
                #![trigger layer_idxs[l][m1], layer_idxs[l][m2]]
                0 <= l < layers@.len() && 0 <= m1 < m2 < layers@[l].members@.len()
                    implies layer_idxs[l][m1] < layer_idxs[l][m2] by {
                if l < nl {
                    assert(layers@[l] == pre_layers[l] && layer_idxs[l] == pre_layer_idxs[l]);
                } else {
                    assert(layer_idxs[l] == idxs);
                }
            }
            // strictly descending: every old layer lies above the old bound
            assert(forall|l: int|
                0 <= l < nl ==> (#[trigger] layers@[l]).depth > next) by {
                assert(forall|l: int|
                    0 <= l < pre_layers.len() ==> old_active && (
                    #[trigger] pre_layers[l]).depth >= old_bound);
            }
            // no unit appears in both an old layer and the new one
            assert forall|l1: int, m1: int, l2: int, m2: int|
                0 <= l1 < layers@.len() && 0 <= m1 < (#[trigger] layers@[l1]).members@.len()
                    && 0 <= l2 < layers@.len() && 0 <= m2 < (
                #[trigger] layers@[l2]).members@.len() && (l1 != l2 || m1 != m2) implies (
            #[trigger] layers@[l1].members@[m1]).1@ != (#[trigger] layers@[l2].members@[m2]).1@
                by {
                if l1 < nl && l2 == nl {
                    assert(base_max_depth(tv, layers@[l1].members@[m1].1@)
                        == layers@[l1].depth as int);
                    assert(base_max_depth(tv, layers@[l2].members@[m2].1@) == next as int);
                    assert(layers@[l1].depth > next);
                } else if l1 == nl && l2 < nl {
                    assert(base_max_depth(tv, layers@[l1].members@[m1].1@) == next as int);
                    assert(base_max_depth(tv, layers@[l2].members@[m2].1@)
                        == layers@[l2].depth as int);
                    assert(layers@[l2].depth > next);
                } else if l1 < nl && l2 < nl {
                    assert(layers@[l1] == pre_layers[l1] && layers@[l2] == pre_layers[l2]);
                    assert((pre_layers[l1].members@[m1]).1@ != (
                    pre_layers[l2].members@[m2]).1@);
                } else {
                    if m1 < m2 {
                        assert((members@[m1]).1@ != (members@[m2]).1@);
                    } else {
                        assert((members@[m2]).1@ != (members@[m1]).1@);
                    }
                }
            }
            // completeness at the lowered bound
            assert forall|k: int|
                0 <= k < n && base_max_depth(tv, (#[trigger] tv[k]).1) >= next as int implies
                exists|l: int, m: int|
                    0 <= l < layers@.len() && 0 <= m < layers@[l].members@.len() && (
                    #[trigger] layers@[l].members@[m]).1@ == tv[k].1 by {
                let base = tv[k].1;
                lemma_base_max_depth(tv, base);
                let w = choose|w: int|
                    0 <= w < tv.len() && (#[trigger] tv[w]).1 == base && tv[w].2
                        == base_max_depth(tv, base);
                assert(ds@[w] as int == tv[w].2);
                if old_active && base_max_depth(tv, base) >= old_bound as int {
                    let (l, m) = choose|l: int, m: int|
                        0 <= l < pre_layers.len() && 0 <= m < pre_layers[l].members@.len() && (
                        #[trigger] pre_layers[l].members@[m]).1@ == base;
                    assert(layers@[l].members@[m].1@ == base);
                } else {
                    // the unit's peak lies between the bounds, so it is `next`
                    assert(((ds@[w]) as int) < old_bound as int || !old_active);
                    assert(ds@[w] <= next);
                    assert(base_max_depth(tv, base) == next as int);
                    assert(ds@[w] == next);
                    let m = choose|m: int|
                        0 <= m < members@.len() && (#[trigger] members@[m]).1@ == tv[w].1;
                    assert(layers@[nl as int].members@[m].1@ == base);
                }
            }
        }
    }
}


/// The file names that carry the configured package suffix, in order.
pub open spec fn ext_filtered(names: Seq<Seq<char>>, ext: Seq<char>) -> Seq<Seq<char>>
    decreases names.len(),
{
    if names.len() == 0 {
        Seq::empty()
    } else {
        let rest = ext_filtered(names.drop_last(), ext);
        if text::ends_with(names.last(), ext) {
            rest.push(names.last())
        } else {
            rest
        }
    }
}

/// Whether the name with its last `k` characters stripped is whitelisted.
pub open spec fn prefix_whitelisted(wl: Seq<Seq<char>>, f: Seq<char>, k: int) -> bool {
    &&& 0 <= k <= f.len()
    &&& exists|j: int| 0 <= j < wl.len() && f.subrange(0, f.len() - k) == #[trigger] wl[j]
}

/// The names kept for review: those whose whitelist name shows after
/// stripping the common suffix.
pub open spec fn kept_archives(
    names: Seq<Seq<char>>,
    wl: Seq<Seq<char>>,
    k: int,
) -> Seq<Seq<char>>
    decreases names.len(),
{
    if names.len() == 0 {
        Seq::empty()
    } else {
        let rest = kept_archives(names.drop_last(), wl, k);
        if prefix_whitelisted(wl, names.last(), k) {
            rest.push(names.last())
        } else {
            rest
        }
    }
}

/// Chooses the produced archives that undergo review: keeps the files
/// carrying the configured package suffix, computes the common suffix
/// length over them, and retains those whose name with that suffix
/// stripped is a whitelisted package name. Returns the suffix length and
/// the retained names, in order.
pub fn select_archives(file_names: &Vec<String>, archive_whitelist: &Vec<String>, pkgext: &str)
    -> (r: (usize, Vec<String>))
    ensures
        ({
            let fl = ext_filtered(text::str_views(file_names@), pkgext@);
            let wl = text::str_views(archive_whitelist@);
            &&& forall|i: int| 0 <= i < fl.len() ==> r.0 <= (#[trigger] fl[i]).len()
            &&& forall|k: int| 0 <= k < r.0 ==> !tar_check::suffix_found(fl, wl, k)
            &&& (tar_check::suffix_found(fl, wl, r.0 as int) || (fl.len() > 0 && exists|i: int|
                0 <= i < fl.len() && (#[trigger] fl[i]).len() == r.0) || (fl.len() == 0 && r.0
                == 0))
            &&& text::str_views(r.1@) == kept_archives(fl, wl, r.0 as int)
        }),
{
    let ext = text::chars_of(pkgext);
    let mut filtered: Vec<String> = Vec::new();
    let n = file_names.len();
    let mut i: usize = 0;
    while i < n
        invariant
            i <= n,
            n == file_names@.len(),
            ext@ == pkgext@,
            text::str_views(filtered@) == ext_filtered(
                text::str_views(file_names@.subrange(0, i as int)),
                pkgext@,
            ),
        decreases n - i,
    {
        proof {
            assert(text::str_views(file_names@.subrange(0, i + 1)).drop_last()
                =~= text::str_views(file_names@.subrange(0, i as int)));
            assert(text::str_views(file_names@.subrange(0, i + 1)).last()
                == file_names@[i as int]@);
        }
        if text::ends_with_chars(&text::chars_of(file_names[i].as_str()), &ext) {
            filtered.push(file_names[i].clone());
            proof {
                assert(text::str_views(filtered@) =~= ext_filtered(
                    text::str_views(file_names@.subrange(0, i + 1)),
                    pkgext@,
                ));
            }
        } else {
            proof {
                assert(text::str_views(filtered@) =~= ext_filtered(
                    text::str_views(file_names@.subrange(0, i + 1)),
                    pkgext@,
                ));
            }
        }
        i = i + 1;
    }
    proof {
        assert(file_names@.subrange(0, n as int) =~= file_names@);
    }
    let ghost fl = ext_filtered(text::str_views(file_names@), pkgext@);
    let ghost wl = text::str_views(archive_whitelist@);

    let suffix_length = tar_check::common_suffix_length(&filtered, archive_whitelist);

    let mut kept: Vec<String> = Vec::new();
    let m = filtered.len();
    let mut i: usize = 0;
    while i < m
        invariant
            i <= m,
            m == filtered@.len(),
            fl == text::str_views(filtered@),
            wl == text::str_views(archive_whitelist@),
            forall|k: int| 0 <= k < fl.len() ==> suffix_length <= (#[trigger] fl[k]).len(),
            text::str_views(kept@) == kept_archives(
                text::str_views(filtered@.subrange(0, i as int)),
                wl,
                suffix_length as int,
            ),
        decreases m - i,
    {
        proof {
            assert(text::str_views(filtered@.subrange(0, i + 1)).drop_last()
                =~= text::str_views(filtered@.subrange(0, i as int)));
            assert(text::str_views(filtered@.subrange(0, i + 1)).last()
                == filtered@[i as int]@);
            assert(fl[i as int] == filtered@[i as int]@);
        }
        let name_chars = text::chars_of(filtered[i].as_str());
        let name_len = name_chars.len();
        let prefix = text::sub_chars(&name_chars, 0, name_len - suffix_length);
        let mut in_wl = false;
        let nw = archive_whitelist.len();
        let mut j: usize = 0;
        while j < nw
            invariant
                j <= nw,
                nw == archive_whitelist@.len(),
                wl == text::str_views(archive_whitelist@),
                in_wl == exists|k: int|
                    0 <= k < j && prefix@ == #[trigger] wl[k],
            decreases nw - j,
        {
            if text::chars_eq(&text::chars_of(archive_whitelist[j].as_str()), &prefix) {
                in_wl = true;
                proof {
                    assert(prefix@ == wl[j as int]);
                }
            }
            j = j + 1;
        }
        proof {
            assert(in_wl == prefix_whitelisted(wl, filtered@[i as int]@, suffix_length as int))
                by {
                assert(prefix@ == filtered@[i as int]@.subrange(
                    0,
                    filtered@[i as int]@.len() - suffix_length,
                ));
                if in_wl {
                    let k = choose|k: int| 0 <= k < wl.len() && prefix@ == #[trigger] wl[k];
                    assert(filtered@[i as int]@.subrange(
                        0,
                        filtered@[i as int]@.len() - suffix_length,
                    ) == wl[k]);
                }
                if prefix_whitelisted(wl, filtered@[i as int]@, suffix_length as int) {
                    let k = choose|j2: int|
                        0 <= j2 < wl.len() && filtered@[i as int]@.subrange(
                            0,
                            filtered@[i as int]@.len() - suffix_length,
                        ) == #[trigger] wl[j2];
                    assert(prefix@ == wl[k]);
                }
            }
        }
        if in_wl {
            kept.push(filtered[i].clone());
            proof {
                assert(text::str_views(kept@) =~= kept_archives(
                    text::str_views(filtered@.subrange(0, i + 1)),
                    wl,
                    suffix_length as int,
                ));
            }
        } else {
            proof {
                assert(text::str_views(kept@) =~= kept_archives(
                    text::str_views(filtered@.subrange(0, i + 1)),
                    wl,
                    suffix_length as int,
                ));
            }
        }
        i = i + 1;
    }
    proof {
        assert(filtered@.subrange(0, m as int) =~= filtered@);
    }
    (suffix_length, kept)
}

/// The error number a rename across devices fails with on Linux.
pub const CROSS_DEVICE_ERRNO: i32 = 18;

/// What the artifact mover does next, given how the rename ended.
pub enum MoveResolution {
    /// The rename succeeded; nothing is left to do.
    Done,
    /// The rename failed across devices: copy the file, then remove the
    /// source.
    CopyThenRemove,
    /// The rename failed for any other reason: surface the error.
    Fail,
}

/// The recovery rule for moving a verified artifact: only a rename that
/// failed with the cross-device-link error is retried as copy-then-remove;
/// every other failure surfaces.
pub fn move_resolution(rename_errno: Option<i32>) -> (r: MoveResolution)
    ensures
        match r {
            MoveResolution::Done => rename_errno is None,
            MoveResolution::CopyThenRemove => rename_errno == Some(CROSS_DEVICE_ERRNO),
            MoveResolution::Fail => rename_errno is Some && rename_errno
                != Some(CROSS_DEVICE_ERRNO),
        },
{
    match rename_errno {
        None => MoveResolution::Done,
        Some(e) => {
            if e == CROSS_DEVICE_ERRNO {
                MoveResolution::CopyThenRemove
            } else {
                MoveResolution::Fail
            }
        },
    }
}

} // verus!