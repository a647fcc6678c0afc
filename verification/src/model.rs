//! The mathematical model of the layered work store.
//!
//! A [`StoreView`] abstracts the store as a sequence of layers, a cursor
//! `used` marking how many layers hold pending work, and the finalized
//! result sequence.  The spec functions here describe, layer by layer, what
//! one classification pass and one finalization cascade do to that picture;
//! the executable code in the crate root is proved against them.

use vstd::prelude::*;

verus! {

use vstd::std_specs::cmp::PartialEqSpec;

/// The `==` operator on `T` decides mathematical equality of values.
///
/// Items are identified purely by equality, so the engine is specified for
/// types whose `PartialEq` is an honest value comparison (integers, or any
/// structural `derive`).
pub open spec fn eq_is_equality<T: PartialEq>() -> bool {
    &&& T::obeys_eq_spec()
    &&& forall|a: T, b: T| (#[trigger] a.eq_spec(&b)) <==> a == b
}

/// Abstract state of a dependency map: the layered pending work plus the
/// finalized output.
pub struct StoreView<T> {
    /// Every layer, the active region first, then the retained free layers.
    pub layers: Seq<Seq<T>>,
    /// How many layers, counted from the front, hold pending work.
    pub used: nat,
    /// The finalized result sequence, in finalization order.
    pub result: Seq<T>,
}

impl<T> StoreView<T> {
    /// The current exploration path: the first (active) item of each
    /// in-use layer, from the root down to the frontier.
    pub open spec fn path(self) -> Seq<T> {
        Seq::new(self.used, |i: int| self.layers[i][0])
    }

    /// The deepest active item, the one expanded by the next step.
    pub open spec fn frontier(self) -> T {
        self.layers[self.used - 1][0]
    }

    /// Structural well-formedness of the store.
    ///
    /// Active layers are non-empty, free layers are empty, the active path
    /// has no repeats, no active item is already finalized, and the result
    /// holds no duplicates.
    pub open spec fn wf(self) -> bool {
        &&& self.used <= self.layers.len()
        &&& forall|i: int| 0 <= i < self.used ==> (#[trigger] self.layers[i]).len() > 0
        &&& forall|i: int|
            self.used <= i < self.layers.len() ==> (#[trigger] self.layers[i]).len() == 0
        &&& forall|i: int, j: int, k: int|
            0 <= j < i < self.used && 0 <= k < self.layers[i].len() ==> (
            #[trigger] self.layers[i][k]) != (#[trigger] self.layers[j])[0]
        &&& forall|i: int|
            0 <= i < self.used ==> !self.result.contains(#[trigger] self.layers[i][0])
        &&& forall|i: int, j: int|
            0 <= i < j < self.result.len() ==> (#[trigger] self.result[i]) != (
            #[trigger] self.result[j])
    }

    /// Whether `x` is pending in some active layer or already finalized.
    pub open spec fn holds_item(self, x: T) -> bool {
        ||| self.result.contains(x)
        ||| exists|i: int| 0 <= i < self.used && (#[trigger] self.layers[i]).contains(x)
    }
}

/// No element of `s` occurs twice.
pub open spec fn pairwise_distinct<T>(s: Seq<T>) -> bool {
    forall|i: int, j: int| 0 <= i < j < s.len() ==> (#[trigger] s[i]) != (#[trigger] s[j])
}

/// Every element of `sub` is an element of `sup`.
pub open spec fn contains_all<T>(sub: Seq<T>, sup: Seq<T>) -> bool {
    forall|x: T| sub.contains(x) ==> #[trigger] sup.contains(x)
}

/// The index of the first occurrence of `x` in `s`.
pub open spec fn first_index_of<T>(s: Seq<T>, x: T) -> int
    decreases s.len(),
{
    if s.len() == 0 {
        0
    } else if s[0] == x {
        0
    } else {
        1 + first_index_of(s.drop_first(), x)
    }
}

pub proof fn lemma_first_index_of<T>(s: Seq<T>, x: T)
    requires
        s.contains(x),
    ensures
        0 <= first_index_of(s, x) < s.len(),
        s[first_index_of(s, x)] == x,
        forall|j: int| 0 <= j < first_index_of(s, x) ==> s[j] != x,
    decreases s.len(),
{
    if s.len() > 0 && s[0] != x {
        let t = s.drop_first();
        assert(t.contains(x)) by {
            let w = choose|w: int| 0 <= w < s.len() && s[w] == x;
            assert(t[w - 1] == x);
        }
        lemma_first_index_of(t, x);
        assert forall|j: int| 0 <= j < first_index_of(s, x) implies s[j] != x by {
            if j > 0 {
                assert(t[j - 1] != x);
            }
        }
    }
}

/// The first yielded dependency that closes a cycle: not yet finalized, but
/// equal to an item on the active path.  Dependencies are inspected in
/// producer order; finalized ones are skipped first.
pub open spec fn first_cycle_dep<T>(result: Seq<T>, path: Seq<T>, ds: Seq<T>) -> Option<T>
    decreases ds.len(),
{
    if ds.len() == 0 {
        None
    } else if result.contains(ds[0]) {
        first_cycle_dep(result, path, ds.drop_first())
    } else if path.contains(ds[0]) {
        Some(ds[0])
    } else {
        first_cycle_dep(result, path, ds.drop_first())
    }
}

/// The layer built from the yielded dependencies when no cycle occurs:
/// those neither finalized nor on the active path, in producer order.
pub open spec fn fresh_deps<T>(result: Seq<T>, path: Seq<T>, ds: Seq<T>) -> Seq<T>
    decreases ds.len(),
{
    if ds.len() == 0 {
        Seq::empty()
    } else {
        let rest = fresh_deps(result, path, ds.drop_first());
        if result.contains(ds[0]) || path.contains(ds[0]) {
            rest
        } else {
            seq![ds[0]] + rest
        }
    }
}

pub proof fn lemma_first_cycle_dep_some<T>(result: Seq<T>, path: Seq<T>, ds: Seq<T>)
    requires
        first_cycle_dep(result, path, ds) is Some,
    ensures
        ds.contains(first_cycle_dep(result, path, ds)->Some_0),
        path.contains(first_cycle_dep(result, path, ds)->Some_0),
        !result.contains(first_cycle_dep(result, path, ds)->Some_0),
    decreases ds.len(),
{
    let d = first_cycle_dep(result, path, ds)->Some_0;
    if ds.len() > 0 && !(!result.contains(ds[0]) && path.contains(ds[0])) {
        lemma_first_cycle_dep_some(result, path, ds.drop_first());
        assert(ds.drop_first().contains(d) ==> ds.contains(d)) by {
            if ds.drop_first().contains(d) {
                let w = choose|w: int|
                    0 <= w < ds.drop_first().len() && ds.drop_first()[w] == d;
                assert(ds[w + 1] == d);
            }
        }
    }
}

/// When no dependency closes a cycle, every yielded dependency is either
/// already finalized or lands in the fresh layer.
pub proof fn lemma_classify_complete<T>(result: Seq<T>, path: Seq<T>, ds: Seq<T>)
    requires
        first_cycle_dep(result, path, ds) is None,
    ensures
        forall|k: int|
            0 <= k < ds.len() ==> result.contains(#[trigger] ds[k]) || fresh_deps(
                result,
                path,
                ds,
            ).contains(ds[k]),
    decreases ds.len(),
{
    if ds.len() > 0 {
        lemma_classify_complete(result, path, ds.drop_first());
        let rest = fresh_deps(result, path, ds.drop_first());
        assert forall|k: int|
            0 <= k < ds.len() implies result.contains(#[trigger] ds[k]) || fresh_deps(
            result,
            path,
            ds,
        ).contains(ds[k]) by {
            if k == 0 {
                if !result.contains(ds[0]) {
                    assert(fresh_deps(result, path, ds)[0] == ds[0]);
                }
            } else {
                assert(ds.drop_first()[k - 1] == ds[k]);
                if !result.contains(ds[k]) {
                    let w = choose|w: int| 0 <= w < rest.len() && rest[w] == ds[k];
                    if result.contains(ds[0]) || path.contains(ds[0]) {
                        assert(fresh_deps(result, path, ds)[w] == ds[k]);
                    } else {
                        assert(fresh_deps(result, path, ds)[w + 1] == ds[k]);
                    }
                }
            }
        }
    }
}

/// Every item of the fresh layer was yielded by the producer, and is
/// neither finalized nor on the active path.
pub proof fn lemma_fresh_deps_sound<T>(result: Seq<T>, path: Seq<T>, ds: Seq<T>)
    ensures
        forall|k: int|
            0 <= k < fresh_deps(result, path, ds).len() ==> {
                let x = #[trigger] fresh_deps(result, path, ds)[k];
                &&& ds.contains(x)
                &&& !result.contains(x)
                &&& !path.contains(x)
            },
    decreases ds.len(),
{
    if ds.len() > 0 {
        lemma_fresh_deps_sound(result, path, ds.drop_first());
        let rest = fresh_deps(result, path, ds.drop_first());
        assert forall|k: int| 0 <= k < fresh_deps(result, path, ds).len() implies {
            let x = #[trigger] fresh_deps(result, path, ds)[k];
            &&& ds.contains(x)
            &&& !result.contains(x)
            &&& !path.contains(x)
        } by {
            let x = fresh_deps(result, path, ds)[k];
            if result.contains(ds[0]) || path.contains(ds[0]) {
                assert(rest[k] == x);
                assert(ds.drop_first().contains(x));
                let w = choose|w: int| 0 <= w < ds.drop_first().len() && ds.drop_first()[w] == x;
                assert(ds[w + 1] == x);
            } else {
                if k == 0 {
                    assert(x == ds[0]);
                } else {
                    assert(rest[k - 1] == x);
                    assert(ds.drop_first().contains(x));
                    let w = choose|w: int|
                        0 <= w < ds.drop_first().len() && ds.drop_first()[w] == x;
                    assert(ds[w + 1] == x);
                }
            }
        }
    }
}

/// Removal of a layer's first element as the store performs it: the last
/// element is swapped into the front slot.
pub open spec fn swap_pop_front<T>(s: Seq<T>) -> Seq<T> {
    if s.len() <= 1 {
        Seq::empty()
    } else {
        s.update(0, s.last()).drop_last()
    }
}

/// Drop finalized items from the front of a layer until an unhandled
/// sibling surfaces or the layer empties.
pub open spec fn skip_done<T>(layer: Seq<T>, result: Seq<T>) -> Seq<T>
    decreases layer.len(),
{
    if layer.len() == 0 {
        layer
    } else if result.contains(layer[0]) {
        skip_done(swap_pop_front(layer), result)
    } else {
        layer
    }
}

/// The finalization cascade: append the frontier to the result, skip
/// siblings finalized elsewhere, and ascend while layers empty out.
pub open spec fn cascade<T>(v: StoreView<T>) -> StoreView<T>
    decreases v.used,
{
    if v.used == 0 {
        v
    } else {
        let depth = v.used - 1;
        let result1 = v.result.push(v.layers[depth][0]);
        let layer1 = skip_done(swap_pop_front(v.layers[depth]), result1);
        let next = StoreView {
            layers: v.layers.update(depth, layer1),
            used: v.used,
            result: result1,
        };
        if layer1.len() > 0 {
            next
        } else {
            cascade(StoreView { used: (v.used - 1) as nat, ..next })
        }
    }
}

/// The producer may be invoked on item `t`.
pub open spec fn may_call<T, E, F: FnOnce(&T) -> Result<Vec<T>, E>>(f: F, t: T) -> bool {
    forall|x: &T| *x == t ==> #[trigger] call_requires(f, (x,))
}

/// One possible outcome of invoking the producer on `t` is the
/// dependency sequence `ds`.
pub open spec fn produced_ok<T, E, F: FnOnce(&T) -> Result<Vec<T>, E>>(
    f: F,
    t: T,
    ds: Seq<T>,
) -> bool {
    exists|x: &T, v: Vec<T>|
        *x == t && v@ == ds && #[trigger] call_ensures(f, (x,), Ok::<Vec<T>, E>(v))
}

/// One possible outcome of invoking the producer on `t` is the error `e`.
pub open spec fn produced_err<T, E, F: FnOnce(&T) -> Result<Vec<T>, E>>(f: F, t: T, e: E) -> bool {
    exists|x: &T| *x == t && #[trigger] call_ensures(f, (x,), Err::<Vec<T>, E>(e))
}

/// The producer can yield `b` among the direct dependencies of `a`.
pub open spec fn yields_dep<T, E, F: FnOnce(&T) -> Result<Vec<T>, E>>(f: F, a: T, b: T) -> bool {
    exists|ds: Seq<T>| #[trigger] produced_ok::<T, E, F>(f, a, ds) && ds.contains(b)
}

/// Every pending item sits in its layer because the producer can yield it
/// as a direct dependency of the active item one level above.
pub open spec fn edges_ok<T, E, F: FnOnce(&T) -> Result<Vec<T>, E>>(
    f: F,
    v: StoreView<T>,
) -> bool {
    forall|i: int, k: int|
        1 <= i < v.used && 0 <= k < v.layers[i].len() ==> yields_dep::<T, E, F>(
            f,
            v.layers[i - 1][0],
            #[trigger] v.layers[i][k],
        )
}

/// Some producer outcome for the active item above layer `i` lists its
/// direct dependencies, and each of them is either finalized already or
/// still pending in layer `i`.
pub open spec fn covered_at<T, E, F: FnOnce(&T) -> Result<Vec<T>, E>>(
    f: F,
    v: StoreView<T>,
    i: int,
) -> bool {
    exists|ds: Seq<T>|
        {
            &&& #[trigger] produced_ok::<T, E, F>(f, v.layers[i - 1][0], ds)
            &&& forall|k: int|
                0 <= k < ds.len() ==> v.result.contains(#[trigger] ds[k]) || v.layers[i].contains(
                    ds[k],
                )
        }
}

/// Every layer below an active item covers that item's dependencies.
pub open spec fn deps_covered<T, E, F: FnOnce(&T) -> Result<Vec<T>, E>>(
    f: F,
    v: StoreView<T>,
) -> bool {
    forall|i: int| 1 <= i < v.used ==> #[trigger] covered_at::<T, E, F>(f, v, i)
}

/// Entry `n` of the finalized sequence has a producer outcome all of
/// whose dependencies appear strictly before it.
pub open spec fn entry_ok<T, E, F: FnOnce(&T) -> Result<Vec<T>, E>>(
    f: F,
    result: Seq<T>,
    n: int,
) -> bool {
    exists|ds: Seq<T>|
        {
            &&& #[trigger] produced_ok::<T, E, F>(f, result[n], ds)
            &&& forall|k: int| 0 <= k < ds.len() ==> result.take(n).contains(#[trigger] ds[k])
        }
}

/// The finalized sequence is a topological order.
pub open spec fn topo_ok<T, E, F: FnOnce(&T) -> Result<Vec<T>, E>>(f: F, result: Seq<T>) -> bool {
    forall|n: int| 0 <= n < result.len() ==> #[trigger] entry_ok::<T, E, F>(f, result, n)
}

/// Every held item is an initial item or a producible dependency of some
/// other held item: the store never invents work.
pub open spec fn provenance_ok<T, E, F: FnOnce(&T) -> Result<Vec<T>, E>>(
    f: F,
    initial: Seq<T>,
    v: StoreView<T>,
) -> bool {
    forall|x: T|
        #[trigger] v.holds_item(x) ==> initial.contains(x) || exists|a: T|
            v.holds_item(a) && #[trigger] yields_dep::<T, E, F>(f, a, x)
}

/// Every item of the result is an initial item or a producible dependency
/// of another item of the result: nothing unreachable is returned.
pub open spec fn sourced_from<T, E, F: FnOnce(&T) -> Result<Vec<T>, E>>(
    f: F,
    initial: Seq<T>,
    result: Seq<T>,
) -> bool {
    forall|x: T|
        #[trigger] result.contains(x) ==> initial.contains(x) || exists|a: T|
            result.contains(a) && #[trigger] yields_dep::<T, E, F>(f, a, x)
}

/// The frontier is ready to be finalized: some producer outcome lists its
/// dependencies and all of them are finalized already.
pub open spec fn frontier_ready<T, E, F: FnOnce(&T) -> Result<Vec<T>, E>>(
    f: F,
    v: StoreView<T>,
) -> bool {
    exists|ds: Seq<T>|
        #[trigger] produced_ok::<T, E, F>(f, v.frontier(), ds) && forall|k: int|
            0 <= k < ds.len() ==> v.result.contains(#[trigger] ds[k])
}

/// The driver's invariants depend only on the active region and the
/// result: they transfer between stores that agree there.
pub proof fn lemma_invs_transfer<T, E, F: FnOnce(&T) -> Result<Vec<T>, E>>(
    f: F,
    a: StoreView<T>,
    b: StoreView<T>,
)
    requires
        b.used == a.used,
        b.result == a.result,
        forall|i: int| 0 <= i < a.used ==> b.layers[i] == a.layers[i],
        edges_ok::<T, E, F>(f, a),
        deps_covered::<T, E, F>(f, a),
    ensures
        edges_ok::<T, E, F>(f, b),
        deps_covered::<T, E, F>(f, b),
        forall|x: T| a.holds_item(x) ==> #[trigger] b.holds_item(x),
{
    assert forall|i: int, k: int|
        1 <= i < b.used && 0 <= k < b.layers[i].len() implies yields_dep::<T, E, F>(
        f,
        b.layers[i - 1][0],
        #[trigger] b.layers[i][k],
    ) by {
        assert(b.layers[i] == a.layers[i]);
        assert(b.layers[i - 1] == a.layers[i - 1]);
        assert(yields_dep::<T, E, F>(f, a.layers[i - 1][0], a.layers[i][k]));
    }
    assert forall|i: int| 1 <= i < b.used implies #[trigger] covered_at::<T, E, F>(f, b, i) by {
        assert(covered_at::<T, E, F>(f, a, i));
        let ds = choose|ds: Seq<T>|
            {
                &&& #[trigger] produced_ok::<T, E, F>(f, a.layers[i - 1][0], ds)
                &&& forall|k: int|
                    0 <= k < ds.len() ==> a.result.contains(#[trigger] ds[k]) || a.layers[
                        i
                    ].contains(ds[k])
            };
        assert(b.layers[i - 1] == a.layers[i - 1]);
        assert(produced_ok::<T, E, F>(f, b.layers[i - 1][0], ds));
        assert forall|k: int| 0 <= k < ds.len() implies b.result.contains(#[trigger] ds[k])
            || b.layers[i].contains(ds[k]) by {
            assert(b.layers[i] == a.layers[i]);
        }
    }
    assert forall|x: T| a.holds_item(x) implies #[trigger] b.holds_item(x) by {
        if !a.result.contains(x) {
            let i = choose|i: int| 0 <= i < a.used && (#[trigger] a.layers[i]).contains(x);
            assert(b.layers[i].contains(x));
        }
    }
}

/// A successful producer outcome observed through a reference to the
/// producer is an outcome of the producer itself.
pub proof fn lemma_unref_ok<T, E, F: Fn(&T) -> Result<Vec<T>, E>>(f: &F, t: T, ds: Seq<T>)
    requires
        produced_ok::<T, E, &F>(f, t, ds),
    ensures
        produced_ok::<T, E, F>(*f, t, ds),
{
    let (x, vv) = choose|x: &T, vv: Vec<T>|
        *x == t && vv@ == ds && #[trigger] call_ensures(f, (x,), Ok::<Vec<T>, E>(vv));
    assert(call_ensures(*f, (x,), Ok::<Vec<T>, E>(vv)));
}

/// An error outcome observed through a reference to the producer is an
/// outcome of the producer itself.
pub proof fn lemma_unref_err<T, E, F: Fn(&T) -> Result<Vec<T>, E>>(f: &F, t: T, e: E)
    requires
        produced_err::<T, E, &F>(f, t, e),
    ensures
        produced_err::<T, E, F>(*f, t, e),
{
    let x = choose|x: &T| *x == t && #[trigger] call_ensures(f, (x,), Err::<Vec<T>, E>(e));
    assert(call_ensures(*f, (x,), Err::<Vec<T>, E>(e)));
}

/// A producer that may be invoked on every item may be invoked through a
/// reference as well.
pub proof fn lemma_ref_may_call<T, E, F: Fn(&T) -> Result<Vec<T>, E>>(f: &F, t: T)
    requires
        forall|x: &T| #[trigger] call_requires(*f, (x,)),
    ensures
        may_call::<T, E, &F>(f, t),
{
    assert forall|x: &T| *x == t implies #[trigger] call_requires(f, (x,)) by {
        assert(call_requires(*f, (x,)));
    }
}

/// Removing the front of a layer loses no other element.
pub proof fn lemma_swap_pop_front_keeps<T>(s: Seq<T>, x: T)
    requires
        s.contains(x),
        s.len() > 0,
    ensures
        x == s[0] || swap_pop_front(s).contains(x),
{
    let w = choose|w: int| 0 <= w < s.len() && s[w] == x;
    if w > 0 {
        if w < s.len() - 1 {
            assert(swap_pop_front(s)[w] == x);
        } else {
            assert(swap_pop_front(s)[0] == x);
        }
    }
}

/// Skipping finalized siblings loses only finalized elements.
pub proof fn lemma_skip_done_keeps<T>(layer: Seq<T>, result: Seq<T>, x: T)
    requires
        layer.contains(x),
    ensures
        skip_done(layer, result).contains(x) || result.contains(x),
    decreases layer.len(),
{
    if layer.len() > 0 && result.contains(layer[0]) {
        lemma_swap_pop_front_keeps(layer, x);
        if x == layer[0] {
        } else {
            lemma_skip_done_keeps(swap_pop_front(layer), result, x);
        }
    }
}

/// The finalization cascade preserves the driver's invariants: the layer
/// edges, the coverage of each active item's dependencies, and the
/// topological ordering of the result; and it loses no item.
pub proof fn lemma_cascade_keeps_invs<T, E, F: FnOnce(&T) -> Result<Vec<T>, E>>(
    f: F,
    v: StoreView<T>,
)
    requires
        v.wf(),
        v.used > 0,
        edges_ok::<T, E, F>(f, v),
        deps_covered::<T, E, F>(f, v),
        topo_ok::<T, E, F>(f, v.result),
        frontier_ready::<T, E, F>(f, v),
    ensures
        ({
            let c = cascade(v);
            &&& c.wf()
            &&& edges_ok::<T, E, F>(f, c)
            &&& deps_covered::<T, E, F>(f, c)
            &&& topo_ok::<T, E, F>(f, c.result)
            &&& forall|x: T| v.holds_item(x) ==> #[trigger] c.holds_item(x)
            &&& forall|x: T| #[trigger] c.holds_item(x) ==> v.holds_item(x)
        }),
    decreases v.used,
{
    let c = cascade(v);
    let depth = v.used - 1;
    let t = v.layers[depth][0];
    let result1 = v.result.push(t);
    let layer0 = swap_pop_front(v.layers[depth]);
    let layer1 = skip_done(layer0, result1);
    let v1 = StoreView {
        layers: v.layers.update(depth, layer1),
        used: if layer1.len() > 0 {
            v.used
        } else {
            (v.used - 1) as nat
        },
        result: result1,
    };
    lemma_step_wf(v, v1, depth, layer1, result1);
    lemma_swap_pop_front_sound(v.layers[depth]);
    lemma_skip_done_sound(layer0, result1);
    assert forall|k: int| 0 <= k < layer1.len() implies v.layers[depth].contains(
        #[trigger] layer1[k],
    ) by {
        assert(layer0.contains(layer1[k]));
    }
    // the new result entry respects the topological order
    let dsr = choose|ds: Seq<T>|
        #[trigger] produced_ok::<T, E, F>(f, v.frontier(), ds) && forall|k: int|
            0 <= k < ds.len() ==> v.result.contains(#[trigger] ds[k]);
    assert(result1[v.result.len() as int] == t);
    assert(topo_ok::<T, E, F>(f, result1)) by {
        assert forall|n: int| 0 <= n < result1.len() implies #[trigger] entry_ok::<T, E, F>(
            f,
            result1,
            n,
        ) by {
            if n < v.result.len() {
                assert(entry_ok::<T, E, F>(f, v.result, n));
                assert(result1[n] == v.result[n]);
                let ds = choose|ds: Seq<T>|
                    {
                        &&& #[trigger] produced_ok::<T, E, F>(f, v.result[n], ds)
                        &&& forall|k: int|
                            0 <= k < ds.len() ==> v.result.take(n).contains(#[trigger] ds[k])
                    };
                assert(produced_ok::<T, E, F>(f, result1[n], ds));
                assert(result1.take(n) =~= v.result.take(n));
                assert(forall|k: int|
                    0 <= k < ds.len() ==> result1.take(n).contains(#[trigger] ds[k]));
            } else {
                assert(result1[n] == t);
                assert(produced_ok::<T, E, F>(f, result1[n], dsr));
                assert(result1.take(n) =~= v.result);
                assert(forall|k: int|
                    0 <= k < dsr.len() ==> result1.take(n).contains(#[trigger] dsr[k]));
            }
        }
    }
    // each layer's pending elements stay pending or are finalized
    assert forall|x: T| v.layers[depth].contains(x) implies layer1.contains(x)
        || result1.contains(x) by {
        lemma_swap_pop_front_keeps(v.layers[depth], x);
        if x == v.layers[depth][0] {
            assert(result1[v.result.len() as int] == x);
        } else {
            lemma_skip_done_keeps(layer0, result1, x);
        }
    }
    assert(edges_ok::<T, E, F>(f, v1)) by {
        assert forall|i: int, k: int|
            1 <= i < v1.used && 0 <= k < v1.layers[i].len() implies yields_dep::<T, E, F>(
            f,
            v1.layers[i - 1][0],
            #[trigger] v1.layers[i][k],
        ) by {
            if i == depth {
                assert(v.layers[depth].contains(layer1[k]));
                let c0 = choose|c0: int|
                    0 <= c0 < v.layers[depth].len() && v.layers[depth][c0] == layer1[k];
                assert(yields_dep::<T, E, F>(f, v.layers[i - 1][0], v.layers[i][c0]));
            } else {
                assert(v1.layers[i] == v.layers[i]);
                assert(v1.layers[i - 1] == v.layers[i - 1]);
                assert(yields_dep::<T, E, F>(f, v.layers[i - 1][0], v.layers[i][k]));
            }
        }
    }
    assert(deps_covered::<T, E, F>(f, v1)) by {
        assert forall|i: int| 1 <= i < v1.used implies #[trigger] covered_at::<T, E, F>(
            f,
            v1,
            i,
        ) by {
            assert(covered_at::<T, E, F>(f, v, i));
            let ds = choose|ds: Seq<T>|
                {
                    &&& #[trigger] produced_ok::<T, E, F>(f, v.layers[i - 1][0], ds)
                    &&& forall|k: int|
                        0 <= k < ds.len() ==> v.result.contains(#[trigger] ds[k]) || v.layers[
                            i
                        ].contains(ds[k])
                };
            assert(v1.layers[i - 1] == v.layers[i - 1]);
            assert(produced_ok::<T, E, F>(f, v1.layers[i - 1][0], ds));
            assert forall|k: int| 0 <= k < ds.len() implies v1.result.contains(#[trigger] ds[k])
                || v1.layers[i].contains(ds[k]) by {
                if v.result.contains(ds[k]) {
                    let m = choose|m: int| 0 <= m < v.result.len() && v.result[m] == ds[k];
                    assert(result1[m] == ds[k]);
                } else {
                    assert(v.layers[i].contains(ds[k]));
                    if i == depth {
                        assert(layer1.contains(ds[k]) || result1.contains(ds[k]));
                    }
                }
            }
        }
    }
    assert forall|x: T| v.holds_item(x) implies #[trigger] v1.holds_item(x) by {
        if v.result.contains(x) {
            let m = choose|m: int| 0 <= m < v.result.len() && v.result[m] == x;
            assert(result1[m] == x);
        } else {
            let i = choose|i: int| 0 <= i < v.used && (#[trigger] v.layers[i]).contains(x);
            if i == depth {
                assert(layer1.contains(x) || result1.contains(x));
                if layer1.contains(x) {
                    assert(v1.layers[depth].contains(x));
                }
            } else {
                assert(v1.layers[i] == v.layers[i]);
                assert(v1.layers[i].contains(x));
            }
        }
    }
    assert forall|x: T| #[trigger] v1.holds_item(x) implies v.holds_item(x) by {
        if v1.result.contains(x) {
            let m = choose|m: int| 0 <= m < result1.len() && result1[m] == x;
            if m < v.result.len() {
                assert(v.result[m] == x);
            } else {
                assert(x == t);
                assert(v.layers[depth][0] == x);
                assert(v.layers[depth].contains(x));
            }
        } else {
            let i = choose|i: int| 0 <= i < v1.used && (#[trigger] v1.layers[i]).contains(x);
            if i == depth {
                assert(layer1.contains(x));
                assert(v.layers[depth].contains(x));
            } else {
                assert(v1.layers[i] == v.layers[i]);
                assert(v.layers[i].contains(x));
            }
        }
    }
    if layer1.len() > 0 {
        assert(c == v1);
    } else {
        assert(c == cascade(v1));
        if v1.used == 0 {
            assert(c == v1);
        } else {
            // the parent's dependencies are now all finalized
            assert(frontier_ready::<T, E, F>(f, v1)) by {
                let i = depth;
                assert(covered_at::<T, E, F>(f, v, i));
                let ds = choose|ds: Seq<T>|
                    {
                        &&& #[trigger] produced_ok::<T, E, F>(f, v.layers[i - 1][0], ds)
                        &&& forall|k: int|
                            0 <= k < ds.len() ==> v.result.contains(#[trigger] ds[k]) || v.layers[
                                i
                            ].contains(ds[k])
                    };
                assert(v1.frontier() == v.layers[i - 1][0]);
                assert(produced_ok::<T, E, F>(f, v1.frontier(), ds));
                assert forall|k: int| 0 <= k < ds.len() implies v1.result.contains(
                    #[trigger] ds[k],
                ) by {
                    if v.result.contains(ds[k]) {
                        let m = choose|m: int| 0 <= m < v.result.len() && v.result[m] == ds[k];
                        assert(result1[m] == ds[k]);
                    } else {
                        assert(v.layers[i].contains(ds[k]));
                        assert(layer1.contains(ds[k]) || result1.contains(ds[k]));
                    }
                }
            }
            lemma_cascade_keeps_invs::<T, E, F>(f, v1);
        }
    }
}

/// One cycle-free step of the driver preserves its invariants, whether
/// the step descended onto a fresh layer or finalized the frontier and
/// cascaded.
pub proof fn lemma_step_invs<T, E, F: FnOnce(&T) -> Result<Vec<T>, E>>(
    f: F,
    v: StoreView<T>,
    w: StoreView<T>,
    ds0: Seq<T>,
)
    requires
        v.wf(),
        v.used > 0,
        edges_ok::<T, E, F>(f, v),
        deps_covered::<T, E, F>(f, v),
        topo_ok::<T, E, F>(f, v.result),
        produced_ok::<T, E, F>(f, v.frontier(), ds0),
        first_cycle_dep(v.result, v.path(), ds0) is None,
        ({
            let fresh = fresh_deps(v.result, v.path(), ds0);
            if fresh.len() == 0 {
                &&& w.used == cascade(v).used
                &&& w.result == cascade(v).result
                &&& forall|i: int|
                    0 <= i < w.used ==> w.layers[i] == (#[trigger] cascade(v).layers[i])
            } else {
                &&& w.used == v.used + 1
                &&& w.result == v.result
                &&& forall|i: int| 0 <= i < v.used ==> w.layers[i] == (#[trigger] v.layers[i])
                &&& w.layers[v.used as int] == fresh
            }
        }),
    ensures
        edges_ok::<T, E, F>(f, w),
        deps_covered::<T, E, F>(f, w),
        topo_ok::<T, E, F>(f, w.result),
        forall|x: T| v.holds_item(x) ==> #[trigger] w.holds_item(x),
        forall|x: T|
            #[trigger] w.holds_item(x) ==> v.holds_item(x) || yields_dep::<T, E, F>(
                f,
                v.frontier(),
                x,
            ),
        w.result.len() > v.result.len() || (w.result == v.result && w.used == v.used + 1),
{
    lemma_classify_complete(v.result, v.path(), ds0);
    let fresh = fresh_deps(v.result, v.path(), ds0);
    if fresh.len() == 0 {
        // the frontier was finalized and the cascade ran
        assert(frontier_ready::<T, E, F>(f, v)) by {
            assert forall|k: int| 0 <= k < ds0.len() implies v.result.contains(
                #[trigger] ds0[k],
            ) by {
                assert(!fresh.contains(ds0[k]));
            }
        }
        lemma_cascade_keeps_invs::<T, E, F>(f, v);
        lemma_cascade_grows(v);
        lemma_invs_transfer::<T, E, F>(f, cascade(v), w);
        assert forall|x: T| v.holds_item(x) implies #[trigger] w.holds_item(x) by {
            assert(cascade(v).holds_item(x));
        }
        assert forall|x: T| #[trigger] w.holds_item(x) implies v.holds_item(x) by {
            let c = cascade(v);
            assert(c.holds_item(x)) by {
                if !w.result.contains(x) {
                    let i = choose|i: int|
                        0 <= i < w.used && (#[trigger] w.layers[i]).contains(x);
                    assert(c.layers[i].contains(x));
                }
            }
        }
    } else {
        // descended one level onto the fresh layer
        lemma_fresh_deps_sound(v.result, v.path(), ds0);
        assert(edges_ok::<T, E, F>(f, w)) by {
            assert forall|i: int, k: int|
                1 <= i < w.used && 0 <= k < w.layers[i].len() implies yields_dep::<T, E, F>(
                f,
                w.layers[i - 1][0],
                #[trigger] w.layers[i][k],
            ) by {
                if i == v.used {
                    assert(w.layers[i][k] == fresh[k]);
                    assert(ds0.contains(fresh[k]));
                    assert(w.layers[i - 1] == v.layers[i - 1]);
                    assert(yields_dep::<T, E, F>(f, v.frontier(), fresh[k]));
                } else {
                    assert(w.layers[i] == v.layers[i]);
                    assert(w.layers[i - 1] == v.layers[i - 1]);
                    assert(yields_dep::<T, E, F>(f, v.layers[i - 1][0], v.layers[i][k]));
                }
            }
        }
        assert(deps_covered::<T, E, F>(f, w)) by {
            assert forall|i: int| 1 <= i < w.used implies #[trigger] covered_at::<T, E, F>(
                f,
                w,
                i,
            ) by {
                if i == v.used {
                    assert(w.layers[i - 1] == v.layers[i - 1]);
                    assert(produced_ok::<T, E, F>(f, w.layers[i - 1][0], ds0));
                    assert(forall|k: int|
                        0 <= k < ds0.len() ==> w.result.contains(#[trigger] ds0[k]) || w.layers[
                            i
                        ].contains(ds0[k]));
                } else {
                    assert(covered_at::<T, E, F>(f, v, i));
                    let ds = choose|ds: Seq<T>|
                        {
                            &&& #[trigger] produced_ok::<T, E, F>(f, v.layers[i - 1][0], ds)
                            &&& forall|k: int|
                                0 <= k < ds.len() ==> v.result.contains(#[trigger] ds[k])
                                    || v.layers[i].contains(ds[k])
                        };
                    assert(w.layers[i - 1] == v.layers[i - 1]);
                    assert(w.layers[i] == v.layers[i]);
                    assert(produced_ok::<T, E, F>(f, w.layers[i - 1][0], ds));
                }
            }
        }
        assert forall|x: T| v.holds_item(x) implies #[trigger] w.holds_item(x) by {
            if !v.result.contains(x) {
                let i = choose|i: int| 0 <= i < v.used && (#[trigger] v.layers[i]).contains(x);
                assert(w.layers[i].contains(x));
            }
        }
        assert forall|x: T| #[trigger] w.holds_item(x) implies v.holds_item(x) || yields_dep::<
            T,
            E,
            F,
        >(f, v.frontier(), x) by {
            if !w.result.contains(x) {
                let i = choose|i: int| 0 <= i < w.used && (#[trigger] w.layers[i]).contains(x);
                if i == v.used {
                    let k = choose|k: int| 0 <= k < fresh.len() && fresh[k] == x;
                    assert(ds0.contains(fresh[k]));
                    assert(yields_dep::<T, E, F>(f, v.frontier(), x));
                } else {
                    assert(v.layers[i].contains(x));
                }
            }
        }
    }
}

/// Each entry of `chain` can be yielded by the producer as a direct
/// dependency of the entry before it.
pub open spec fn linked_by_deps<T, E, F: FnOnce(&T) -> Result<Vec<T>, E>>(
    f: F,
    chain: Seq<T>,
) -> bool {
    forall|i: int|
        0 <= i < chain.len() - 1 ==> yields_dep::<T, E, F>(f, chain[i], #[trigger] chain[i + 1])
}

/// The producer is deterministic: equal items always receive the same
/// answer.
pub open spec fn deterministic<T, E, F: FnOnce(&T) -> Result<Vec<T>, E>>(f: F) -> bool {
    forall|x1: &T, x2: &T, y1: Result<Vec<T>, E>, y2: Result<Vec<T>, E>|
        #[trigger] call_ensures(f, (x1,), y1) && #[trigger] call_ensures(f, (x2,), y2) && *x1
            == *x2 ==> y1 == y2
}

/// In a topological order from a deterministic producer, every dependency
/// of the entry at index `n` appears strictly earlier.
pub proof fn lemma_dep_appears_earlier<T, E, F: FnOnce(&T) -> Result<Vec<T>, E>>(
    f: F,
    result: Seq<T>,
    a: T,
    b: T,
    n: int,
)
    requires
        deterministic::<T, E, F>(f),
        topo_ok::<T, E, F>(f, result),
        0 <= n < result.len(),
        result[n] == a,
        yields_dep::<T, E, F>(f, a, b),
    ensures
        exists|m: int| 0 <= m < n && result[m] == b,
{
    assert(entry_ok::<T, E, F>(f, result, n));
    let ds = choose|ds: Seq<T>|
        {
            &&& #[trigger] produced_ok::<T, E, F>(f, result[n], ds)
            &&& forall|k: int| 0 <= k < ds.len() ==> result.take(n).contains(#[trigger] ds[k])
        };
    let ds2 = choose|ds2: Seq<T>| #[trigger] produced_ok::<T, E, F>(f, a, ds2) && ds2.contains(b);
    let (x1, v1) = choose|x1: &T, v1: Vec<T>|
        *x1 == a && v1@ == ds && #[trigger] call_ensures(f, (x1,), Ok::<Vec<T>, E>(v1));
    let (x2, v2) = choose|x2: &T, v2: Vec<T>|
        *x2 == a && v2@ == ds2 && #[trigger] call_ensures(f, (x2,), Ok::<Vec<T>, E>(v2));
    assert(Ok::<Vec<T>, E>(v1) == Ok::<Vec<T>, E>(v2));
    assert(ds == ds2);
    let k = choose|k: int| 0 <= k < ds2.len() && ds2[k] == b;
    assert(result.take(n).contains(ds[k]));
    let m = choose|m: int| 0 <= m < result.take(n).len() && result.take(n)[m] == b;
    assert(result[m] == b);
}

/// Along a dependency-linked chain inside a topological order, positions
/// descend: the chain's last entry appears at least `chain.len() - 1 - i`
/// places before the position of entry `i`.
pub proof fn lemma_chain_descends<T, E, F: FnOnce(&T) -> Result<Vec<T>, E>>(
    f: F,
    result: Seq<T>,
    chain: Seq<T>,
    i: int,
    n: int,
)
    requires
        deterministic::<T, E, F>(f),
        topo_ok::<T, E, F>(f, result),
        linked_by_deps::<T, E, F>(f, chain),
        0 <= i < chain.len(),
        0 <= n < result.len(),
        result[n] == chain[i],
    ensures
        exists|m: int|
            0 <= m < result.len() && m <= n - (chain.len() - 1 - i) && result[m] == chain[
                chain.len() - 1
            ],
    decreases chain.len() - i,
{
    if i == chain.len() - 1 {
        assert(0 <= n < result.len() && n <= n - (chain.len() - 1 - i) && result[n] == chain[
            chain.len() - 1
        ]);
    } else {
        assert(yields_dep::<T, E, F>(f, chain[i], chain[i + 1]));
        lemma_dep_appears_earlier::<T, E, F>(f, result, chain[i], chain[i + 1], n);
        let m1 = choose|m1: int| 0 <= m1 < n && result[m1] == chain[i + 1];
        lemma_chain_descends::<T, E, F>(f, result, chain, i + 1, m1);
    }
}

/// Totality, as a law about results: the returned order is closed under
/// dependencies.  Any chain of producer dependencies that starts at an
/// item of a topological order from a deterministic producer stays inside
/// the order, so every item reachable from the initial items is present.
pub proof fn lemma_reachable_in_result<T, E, F: FnOnce(&T) -> Result<Vec<T>, E>>(
    f: F,
    result: Seq<T>,
    p: Seq<T>,
)
    requires
        deterministic::<T, E, F>(f),
        topo_ok::<T, E, F>(f, result),
        p.len() >= 1,
        result.contains(p[0]),
        linked_by_deps::<T, E, F>(f, p),
    ensures
        forall|i: int| 0 <= i < p.len() ==> result.contains(#[trigger] p[i]),
    decreases p.len(),
{
    if p.len() > 1 {
        let n = choose|n: int| 0 <= n < result.len() && result[n] == p[0];
        assert(yields_dep::<T, E, F>(f, p[0int], p[0int + 1]));
        lemma_dep_appears_earlier::<T, E, F>(f, result, p[0], p[1], n);
        let rest = p.drop_first();
        assert(linked_by_deps::<T, E, F>(f, rest)) by {
            assert forall|i: int| 0 <= i < rest.len() - 1 implies yields_dep::<T, E, F>(
                f,
                rest[i],
                #[trigger] rest[i + 1],
            ) by {
                assert(rest[i] == p[i + 1]);
                assert(rest[i + 1] == p[i + 2]);
                assert(yields_dep::<T, E, F>(f, p[i + 1], p[(i + 1) + 1]));
            }
        }
        lemma_reachable_in_result::<T, E, F>(f, result, rest);
        assert forall|i: int| 0 <= i < p.len() implies result.contains(#[trigger] p[i]) by {
            if i >= 1 {
                assert(result.contains(rest[i - 1]));
            }
        }
    }
}

/// Cycle-detection soundness, as a law about results: a successfully
/// returned order never contains a whole dependency cycle.  If every entry
/// of a cyclic chain sat in a duplicate-free topological order from a
/// deterministic producer, positions would have to descend around the
/// cycle and return to where they started; so some entry is missing.
pub proof fn lemma_no_cycle_in_result<T, E, F: FnOnce(&T) -> Result<Vec<T>, E>>(
    f: F,
    result: Seq<T>,
    chain: Seq<T>,
)
    requires
        deterministic::<T, E, F>(f),
        topo_ok::<T, E, F>(f, result),
        pairwise_distinct(result),
        chain.len() >= 1,
        linked_by_deps::<T, E, F>(f, chain),
        yields_dep::<T, E, F>(f, chain[chain.len() - 1], chain[0]),
    ensures
        exists|i: int| 0 <= i < chain.len() && !result.contains(#[trigger] chain[i]),
{
    if forall|i: int| 0 <= i < chain.len() ==> result.contains(#[trigger] chain[i]) {
        assert(result.contains(chain[0]));
        let n0 = choose|n0: int| 0 <= n0 < result.len() && result[n0] == chain[0];
        lemma_chain_descends::<T, E, F>(f, result, chain, 0, n0);
        let m = choose|m: int|
            0 <= m < result.len() && m <= n0 - (chain.len() - 1) && result[m] == chain[chain.len()
                - 1];
        lemma_dep_appears_earlier::<T, E, F>(f, result, chain[chain.len() - 1], chain[0], m);
        let m2 = choose|m2: int| 0 <= m2 < m && result[m2] == chain[0];
        assert(result[m2] == result[n0]);
    }
}

/// The chain reported for a cyclic dependency is a genuine cycle: its
/// entries are pairwise distinct, each is a producible dependency of the
/// one before it, and the first closes the cycle as a dependency of the
/// last.
pub proof fn lemma_cycle_chain<T, E, F: FnOnce(&T) -> Result<Vec<T>, E>>(
    f: F,
    v: StoreView<T>,
    ds0: Seq<T>,
    pos: int,
    chain: Seq<T>,
)
    requires
        v.wf(),
        v.used > 0,
        edges_ok::<T, E, F>(f, v),
        produced_ok::<T, E, F>(f, v.frontier(), ds0),
        first_cycle_dep(v.result, v.path(), ds0) is Some,
        pos == first_index_of(v.path(), first_cycle_dep(v.result, v.path(), ds0)->Some_0),
        0 <= pos < v.used,
        chain == v.path().subrange(pos, v.used as int),
    ensures
        chain.len() >= 1,
        pairwise_distinct(chain),
        linked_by_deps::<T, E, F>(f, chain),
        yields_dep::<T, E, F>(f, chain[chain.len() - 1], chain[0]),
{
    let d = first_cycle_dep(v.result, v.path(), ds0)->Some_0;
    lemma_first_cycle_dep_some(v.result, v.path(), ds0);
    lemma_first_index_of(v.path(), d);
    assert(chain[0] == d);
    assert(chain[chain.len() - 1] == v.frontier());
    assert(yields_dep::<T, E, F>(f, v.frontier(), d));
    assert forall|i: int, j: int|
        0 <= i < j < chain.len() implies (#[trigger] chain[i]) != (#[trigger] chain[j]) by {
        assert(v.layers[pos + i][0] != v.layers[pos + j][0]);
    }
    assert forall|i: int| 0 <= i < chain.len() - 1 implies yields_dep::<T, E, F>(
        f,
        chain[i],
        #[trigger] chain[i + 1],
    ) by {
        assert(chain[i] == v.layers[pos + i][0]);
        assert(chain[i + 1] == v.layers[pos + i + 1][0]);
        assert(v.layers[pos + i + 1].len() > 0);
        assert(yields_dep::<T, E, F>(f, v.layers[pos + i + 1 - 1][0], v.layers[pos + i + 1][0]));
    }
}

/// The cascade reads only the active region and the result: stores that
/// agree there cascade to states that agree there.
pub proof fn lemma_cascade_congruence<T>(a: StoreView<T>, b: StoreView<T>)
    requires
        a.used <= a.layers.len(),
        b.used <= b.layers.len(),
        a.used == b.used,
        a.result == b.result,
        forall|i: int| 0 <= i < a.used ==> a.layers[i] == b.layers[i],
    ensures
        cascade(a).used == cascade(b).used,
        cascade(a).result == cascade(b).result,
        forall|i: int|
            0 <= i < cascade(a).used ==> cascade(a).layers[i] == (#[trigger] cascade(b).layers[i]),
        cascade(a).used <= a.used,
    decreases a.used,
{
    if a.used > 0 {
        let depth = a.used - 1;
        let result1 = a.result.push(a.layers[depth][0]);
        let layer1 = skip_done(swap_pop_front(a.layers[depth]), result1);
        if layer1.len() > 0 {
        } else {
            let a1 = StoreView {
                layers: a.layers.update(depth, layer1),
                used: (a.used - 1) as nat,
                result: result1,
            };
            let b1 = StoreView {
                layers: b.layers.update(depth, layer1),
                used: (b.used - 1) as nat,
                result: result1,
            };
            assert(b.layers[depth] == a.layers[depth]);
            assert forall|i: int| 0 <= i < a1.used implies a1.layers[i] == b1.layers[i] by {
                assert(a.layers[i] == b.layers[i]);
            }
            lemma_cascade_congruence(a1, b1);
        }
    }
}

/// The cascade finalizes at least one item and never deepens the store.
pub proof fn lemma_cascade_grows<T>(v: StoreView<T>)
    requires
        v.used > 0,
    ensures
        cascade(v).result.len() > v.result.len(),
        cascade(v).used < v.used || (cascade(v).used == v.used && cascade(v).result.len()
            == v.result.len() + 1),
    decreases v.used,
{
    let depth = v.used - 1;
    let result1 = v.result.push(v.layers[depth][0]);
    let layer1 = skip_done(swap_pop_front(v.layers[depth]), result1);
    if layer1.len() == 0 {
        let v1 = StoreView {
            layers: v.layers.update(depth, layer1),
            used: (v.used - 1) as nat,
            result: result1,
        };
        if v1.used > 0 {
            lemma_cascade_grows(v1);
        }
    }
}

/// After one cascade step at depth `idx`, the store is well-formed again:
/// the new layer holds only former siblings, so distinctness and the
/// finalized-membership clauses carry over.
pub proof fn lemma_step_wf<T>(
    head: StoreView<T>,
    w: StoreView<T>,
    idx: int,
    layer1: Seq<T>,
    result1: Seq<T>,
)
    requires
        head.wf(),
        head.used > 0,
        idx == head.used - 1,
        result1 == head.result.push(head.layers[idx][0]),
        layer1 == skip_done(swap_pop_front(head.layers[idx]), result1),
        w.layers == head.layers.update(idx, layer1),
        w.result == result1,
        w.used == head.used || (w.used == idx && layer1.len() == 0),
        w.used == head.used ==> layer1.len() > 0,
    ensures
        w.wf(),
{
    let v = w;
    lemma_swap_pop_front_sound(head.layers[idx]);
    lemma_skip_done_sound(swap_pop_front(head.layers[idx]), result1);
    assert forall|k: int| 0 <= k < layer1.len() implies head.layers[idx].contains(
        #[trigger] layer1[k],
    ) by {
        assert(swap_pop_front(head.layers[idx]).contains(layer1[k]));
    }
    assert forall|i: int, j: int, k: int|
        0 <= j < i < v.used && 0 <= k < v.layers[i].len() implies (#[trigger] v.layers[i][k]) != (
    #[trigger] v.layers[j])[0] by {
        if i == idx {
            assert(head.layers[idx].contains(layer1[k]));
            let c = choose|c: int|
                0 <= c < head.layers[idx].len() && head.layers[idx][c] == layer1[k];
            assert(head.layers[idx][c] != head.layers[j][0]);
        } else {
            assert(v.layers[i] == head.layers[i]);
            assert(v.layers[j] == head.layers[j]);
        }
    }
    assert forall|i: int| 0 <= i < v.used implies !v.result.contains(
        #[trigger] v.layers[i][0],
    ) by {
        if i == idx && v.used == head.used {
            // the promoted sibling is not finalized: skip_done stopped on it
            assert(!result1.contains(layer1[0]));
        } else {
            assert(v.layers[i] == head.layers[i]);
            assert(!head.result.contains(head.layers[i][0]));
            if v.result.contains(head.layers[i][0]) {
                let c = choose|c: int| 0 <= c < result1.len() && result1[c] == head.layers[i][0];
                if c < head.result.len() {
                    assert(head.result[c] == head.layers[i][0]);
                }
            }
        }
    }
    assert forall|i: int, j: int|
        0 <= i < j < v.result.len() implies (#[trigger] v.result[i]) != (
    #[trigger] v.result[j]) by {
        let t = head.layers[idx][0];
        if j < head.result.len() {
            assert(head.result[i] != head.result[j]);
        } else {
            // v.result[j] is the freshly pushed frontier
            assert(v.result[j] == t);
            assert(!head.result.contains(t));
            if head.result[i] == t {
                assert(head.result.contains(t));
            }
        }
    }
}

pub proof fn lemma_swap_pop_front_sound<T>(s: Seq<T>)
    requires
        s.len() > 0,
    ensures
        swap_pop_front(s).len() == s.len() - 1,
        forall|k: int|
            0 <= k < swap_pop_front(s).len() ==> s.contains(#[trigger] swap_pop_front(s)[k]),
{
    assert forall|k: int|
        0 <= k < swap_pop_front(s).len() implies s.contains(#[trigger] swap_pop_front(s)[k]) by {
        if s.len() > 1 {
            if k == 0 {
                assert(swap_pop_front(s)[0] == s[s.len() - 1]);
            } else {
                assert(swap_pop_front(s)[k] == s[k]);
            }
        }
    }
}

pub proof fn lemma_skip_done_sound<T>(layer: Seq<T>, result: Seq<T>)
    ensures
        skip_done(layer, result).len() <= layer.len(),
        forall|k: int|
            0 <= k < skip_done(layer, result).len() ==> layer.contains(
                #[trigger] skip_done(layer, result)[k],
            ),
        skip_done(layer, result).len() > 0 ==> !result.contains(skip_done(layer, result)[0]),
    decreases layer.len(),
{
    if layer.len() > 0 && result.contains(layer[0]) {
        lemma_swap_pop_front_sound(layer);
        lemma_skip_done_sound(swap_pop_front(layer), result);
        assert forall|k: int|
            0 <= k < skip_done(layer, result).len() implies layer.contains(
            #[trigger] skip_done(layer, result)[k],
        ) by {
            assert(swap_pop_front(layer).contains(skip_done(layer, result)[k]));
        }
    }
}

} // verus!
