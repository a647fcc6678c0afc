//! Dependency map manipulation.
//!
//! A [`DepMap`] computes a dependency-respecting processing order for a
//! dynamically discovered dependency graph.  The caller supplies initial
//! items and a producer function that yields each item's direct
//! dependencies; the map drives an iterative depth-first exploration,
//! finalizes an item only after all its dependencies, reports cyclic
//! dependencies with the exact cyclic chain, and visits every item at most
//! once even when it is reachable along several paths.

use vstd::prelude::*;

pub mod model;

use crate::model::{
    cascade, contains_all, deps_covered, edges_ok, eq_is_equality, first_cycle_dep,
    first_index_of, fresh_deps, lemma_cascade_congruence, lemma_first_index_of,
    lemma_fresh_deps_sound, lemma_ref_may_call, lemma_skip_done_sound, lemma_step_wf,
    lemma_swap_pop_front_sound, lemma_unref_err, lemma_unref_ok, may_call, pairwise_distinct,
    produced_err, produced_ok, skip_done, swap_pop_front, topo_ok, yields_dep, StoreView,
};

verus! {

/// An error type.
pub enum Error<T, E> {
    /// A cyclic dependency error, carrying the cyclic chain of items.
    CyclicDep(Vec<T>),
    /// A user-defined error, raised by the producer function.
    UserDef(E),
}

impl<T, E> vstd::std_specs::convert::FromSpecImpl<E> for Error<T, E> {
    open spec fn obeys_from_spec() -> bool {
        true
    }

    open spec fn from_spec(err: E) -> Self {
        Error::UserDef(err)
    }
}

impl<T, E> From<E> for Error<T, E> {
    fn from(err: E) -> (r: Self)
        ensures
            r == Error::<T, E>::UserDef(err),
    {
        Error::UserDef(err)
    }
}

/// The dependency map: layered pending work plus the finalized result.
pub struct DepMap<T: PartialEq> {
    /// A list of lists of things that need to be worked on at the same
    /// level.  The first of each list is "active"; trailing lists beyond
    /// `used` are empty free lists retained for reuse.
    list: Vec<Vec<T>>,
    /// The result list, in finalization order.
    result: Vec<T>,
    /// The number of used lists.
    used: usize,
}

impl<T: PartialEq> View for DepMap<T> {
    type V = StoreView<T>;

    closed spec fn view(&self) -> StoreView<T> {
        StoreView {
            layers: self.list@.map_values(|l: Vec<T>| l@),
            used: self.used as nat,
            result: self.result@,
        }
    }
}

/// Whether `v` holds `x`, by a linear scan under `==`.
fn contains_item<T: PartialEq>(v: &Vec<T>, x: &T) -> (r: bool)
    requires
        eq_is_equality::<T>(),
    ensures
        r == v@.contains(*x),
{
    let mut i: usize = 0;
    while i < v.len()
        invariant
            eq_is_equality::<T>(),
            0 <= i <= v@.len(),
            forall|j: int| 0 <= j < i ==> v@[j] != *x,
        decreases v@.len() - i,
    {
        if v[i] == *x {
            assert(v@[i as int] == *x);
            return true;
        }
        i += 1;
    }
    false
}

/// What [`DepMap::process`] guarantees of its outcome.
///
/// On success the returned order is duplicate-free, holds every initial
/// item, and is topological for the producer.  A cyclic-dependency error
/// carries a non-empty chain of pairwise-distinct items in which each
/// entry can be yielded as a dependency of the previous one and the first
/// as a dependency of the last.  A user error is one the producer itself
/// can return for some item.
pub open spec fn process_post<T, E, F: FnOnce(&T) -> Result<Vec<T>, E>>(
    f: F,
    initial: Seq<T>,
    r: Result<Vec<T>, Error<T, E>>,
) -> bool {
    match r {
        Ok(res) => {
            &&& pairwise_distinct(res@)
            &&& contains_all(initial, res@)
            &&& topo_ok::<T, E, F>(f, res@)
            &&& crate::model::sourced_from::<T, E, F>(f, initial, res@)
        },
        Err(err) => match err {
            Error::CyclicDep(chain) => cycle_post::<T, E, F>(f, chain@),
            Error::UserDef(e) => err_post::<T, E, F>(f, e),
        },
    }
}

/// The chain reported for a cyclic dependency is a non-empty cycle of
/// pairwise-distinct items: each entry can be yielded as a dependency of
/// the one before it, and the first as a dependency of the last.
pub open spec fn cycle_post<T, E, F: FnOnce(&T) -> Result<Vec<T>, E>>(
    f: F,
    chain: Seq<T>,
) -> bool {
    &&& chain.len() >= 1
    &&& pairwise_distinct(chain)
    &&& crate::model::linked_by_deps::<T, E, F>(f, chain)
    &&& yields_dep::<T, E, F>(f, chain[chain.len() - 1], chain[0])
}

/// The propagated error is one the producer itself can return.
pub open spec fn err_post<T, E, F: FnOnce(&T) -> Result<Vec<T>, E>>(f: F, e: E) -> bool {
    exists|t: T| #[trigger] produced_err::<T, E, F>(f, t, e)
}

/// A producer error outcome establishes the driver's error contract.
proof fn lemma_post_err<T: PartialEq, E, F: FnOnce(&T) -> Result<Vec<T>, E>>(
    f: F,
    initial: Seq<T>,
    t: T,
    e: E,
)
    requires
        produced_err::<T, E, F>(f, t, e),
    ensures
        process_post::<T, E, F>(f, initial, Err(Error::UserDef(e))),
{
    assert(err_post::<T, E, F>(f, e));
}

impl<T: PartialEq> DepMap<T> {
    /// Creates a new [`DepMap`] from an initial list.
    pub fn new(list: Vec<T>) -> (r: Self)
        ensures
            r@.wf(),
            r@.used == (if list@.len() == 0 {
                0nat
            } else {
                1nat
            }),
            r@.layers.len() == 1,
            r@.layers[0] == list@,
            r@.result == Seq::<T>::empty(),
    {
        let used: usize = if list.is_empty() {
            0
        } else {
            1
        };
        let mut layers: Vec<Vec<T>> = Vec::new();
        layers.push(list);
        DepMap { used, list: layers, result: Vec::new() }
    }

    /// Whether the map is empty (i.e. nothing needs to be worked on).
    pub fn is_empty(&self) -> (r: bool)
        ensures
            r == (self@.used == 0),
    {
        self.used == 0
    }

    /// Returns the result list if the dependency map is empty.
    ///
    /// If it is not empty, then an error is returned with the whole map.
    pub fn destroy(self) -> (r: Result<Vec<T>, Self>)
        ensures
            match r {
                Ok(res) => self@.used == 0 && res@ == self@.result,
                Err(map) => self@.used != 0 && map == self,
            },
    {
        if self.is_empty() {
            Ok(self.result)
        } else {
            Err(self)
        }
    }

    /// Returns a free list: a reusable one if present, a new one otherwise.
    fn get_free(&mut self) -> (r: Vec<T>)
        requires
            old(self)@.wf(),
        ensures
            final(self)@.wf(),
            r@ == Seq::<T>::empty(),
            final(self)@.used == old(self)@.used,
            final(self)@.result == old(self)@.result,
            final(self)@.layers.len() >= final(self)@.used,
            forall|i: int|
                0 <= i < old(self)@.used ==> final(self)@.layers[i] == old(self)@.layers[i],
    {
        if self.used < self.list.len() {
            // Some free lists exist; pop one off.
            let ghost n = old(self).list@.len() as int;
            let l = self.list.pop().unwrap();
            proof {
                assert(old(self)@.layers[n - 1] == old(self).list@[n - 1]@);
                assert(self@.layers =~= old(self)@.layers.drop_last());
                assert(self@.result == old(self)@.result);
                assert forall|i: int, j: int|
                    0 <= i < j < self@.result.len() implies (#[trigger] self@.result[i]) != (
                #[trigger] self@.result[j]) by {
                    assert(old(self)@.result[i] != old(self)@.result[j]);
                }
            }
            l
        } else {
            // No free lists exist; just make a new list.
            Vec::new()
        }
    }

    /// The position of `x` on the active path, if it occurs there.
    fn path_position(&self, x: &T) -> (r: Option<usize>)
        requires
            eq_is_equality::<T>(),
            self@.used <= self@.layers.len(),
            forall|i: int| 0 <= i < self@.used ==> (#[trigger] self@.layers[i]).len() > 0,
        ensures
            match r {
                Some(p) => {
                    &&& self@.path().contains(*x)
                    &&& p == first_index_of(self@.path(), *x)
                    &&& p < self@.used
                },
                None => !self@.path().contains(*x),
            },
    {
        let mut i: usize = 0;
        while i < self.used
            invariant
                eq_is_equality::<T>(),
                self@.used <= self@.layers.len(),
                forall|k: int| 0 <= k < self@.used ==> (#[trigger] self@.layers[k]).len() > 0,
                0 <= i <= self@.used,
                forall|j: int| 0 <= j < i ==> self@.path()[j] != *x,
            decreases self@.used - i,
        {
            proof {
                assert(self@.layers[i as int] == self.list@[i as int]@);
            }
            if self.list[i][0] == *x {
                proof {
                    assert(self@.path()[i as int] == *x);
                    assert(self@.path().contains(*x));
                    lemma_first_index_of(self@.path(), *x);
                    let fi = first_index_of(self@.path(), *x);
                    if fi < i as int {
                        assert(self@.path()[fi] != *x);
                    }
                    if fi > i as int {
                        assert(self@.path()[i as int] != *x);
                    }
                }
                return Some(i);
            }
            i += 1;
        }
        proof {
            if self@.path().contains(*x) {
                let w = choose|w: int| 0 <= w < self@.path().len() && self@.path()[w] == *x;
                assert(self@.path()[w] != *x);
            }
        }
        None
    }

    /// Classifies the yielded dependencies in producer order: finalized
    /// ones are skipped, one on the active path reports the cycle position,
    /// the rest are appended to `acc` as the prospective new layer.
    fn classify(&self, ds: Vec<T>, acc: Vec<T>) -> (r: Result<Vec<T>, (usize, Vec<T>)>)
        requires
            eq_is_equality::<T>(),
            self@.used <= self@.layers.len(),
            forall|i: int| 0 <= i < self@.used ==> (#[trigger] self@.layers[i]).len() > 0,
        ensures
            match r {
                Ok(layer) => {
                    &&& first_cycle_dep(self@.result, self@.path(), ds@) is None
                    &&& layer@ == acc@ + fresh_deps(self@.result, self@.path(), ds@)
                },
                Err(pc) => {
                    &&& first_cycle_dep(self@.result, self@.path(), ds@) is Some
                    &&& pc.0 == first_index_of(
                        self@.path(),
                        first_cycle_dep(self@.result, self@.path(), ds@)->Some_0,
                    )
                    &&& pc.0 < self@.used
                },
            },
        decreases ds@.len(),
    {
        let mut ds = ds;
        let mut acc = acc;
        if ds.len() == 0 {
            proof {
                assert(acc@ + fresh_deps(self@.result, self@.path(), ds@) =~= acc@);
            }
            return Ok(acc);
        }
        let ghost ds0 = ds@;
        let tgt = ds.remove(0);
        proof {
            assert(ds@ =~= ds0.drop_first());
        }
        if contains_item(&self.result, &tgt) {
            // Found in result list; already done, skip.
            self.classify(ds, acc)
        } else {
            match self.path_position(&tgt) {
                Some(pos) => {
                    // Found in the active target list: cyclic dependency.
                    proof {
                        assert(first_cycle_dep(self@.result, self@.path(), ds0) == Some(tgt));
                    }
                    Err((pos, acc))
                },
                None => {
                    // No issues; unhandled, add to the new layer.
                    let ghost acc0 = acc@;
                    acc.push(tgt);
                    let r = self.classify(ds, acc);
                    proof {
                        if r is Ok {
                            assert(acc0 + fresh_deps(self@.result, self@.path(), ds0) =~= (
                            acc0.push(tgt)) + fresh_deps(self@.result, self@.path(), ds0.drop_first()));
                        }
                    }
                    r
                },
            }
        }
    }

    /// Adds the latest target's dependencies at the end, removing those
    /// already done and reporting cyclic dependencies (if any) by the
    /// depth at which the cycle re-enters the active path.
    ///
    /// When a cyclic dependency occurs, the target is retained but its
    /// dependencies are not.  Skips everything if the map is empty.
    pub fn add<F, E>(&mut self, f: F) -> (r: Result<Option<usize>, E>) where
        F: FnOnce(&T) -> Result<Vec<T>, E>,

        requires
            eq_is_equality::<T>(),
            old(self)@.wf(),
            old(self)@.used > 0 ==> may_call::<T, E, F>(f, old(self)@.frontier()),
        ensures
            final(self)@.wf(),
            ({
                let v = old(self)@;
                let w = final(self)@;
                match r {
                    Err(e) => {
                        &&& v.used > 0
                        &&& produced_err::<T, E, F>(f, v.frontier(), e)
                        &&& w.used == v.used
                        &&& w.result == v.result
                        &&& forall|i: int| 0 <= i < v.used ==> w.layers[i] == v.layers[i]
                    },
                    Ok(Some(pos)) => {
                        &&& v.used > 0
                        &&& pos < v.used
                        &&& exists|ds: Seq<T>|
                            {
                                &&& #[trigger] produced_ok::<T, E, F>(f, v.frontier(), ds)
                                &&& first_cycle_dep(v.result, v.path(), ds) is Some
                                &&& pos == first_index_of(
                                    v.path(),
                                    first_cycle_dep(v.result, v.path(), ds)->Some_0,
                                )
                            }
                        &&& w.used == v.used
                        &&& w.result == v.result
                        &&& forall|i: int| 0 <= i < v.used ==> w.layers[i] == v.layers[i]
                    },
                    Ok(None) => {
                        ||| (v.used == 0 && w == v)
                        ||| (v.used > 0 && exists|ds: Seq<T>|
                            {
                                &&& #[trigger] produced_ok::<T, E, F>(f, v.frontier(), ds)
                                &&& first_cycle_dep(v.result, v.path(), ds) is None
                                &&& {
                                    let fresh = fresh_deps(v.result, v.path(), ds);
                                    if fresh.len() == 0 {
                                        &&& w.used == cascade(v).used
                                        &&& w.result == cascade(v).result
                                        &&& forall|i: int|
                                            0 <= i < w.used ==> w.layers[i] == (
                                            #[trigger] cascade(v).layers[i])
                                    } else {
                                        &&& w.used == v.used + 1
                                        &&& w.result == v.result
                                        &&& forall|i: int|
                                            0 <= i < v.used ==> w.layers[i] == v.layers[i]
                                        &&& w.layers[v.used as int] == fresh
                                    }
                                }
                            })
                    },
                }
            }),
    {
        if self.is_empty() {
            return Ok(None);
        }
        let ghost v = old(self)@;
        // Get a free list.
        let free = self.get_free();
        let ghost v1 = self@;
        proof {
            assert(v1.path() =~= v.path());
            assert(self@.layers[self@.used - 1] == self.list@[self.used - 1]@);
        }
        // Invoke the producer on the current frontier item.
        let deps_res = f(&self.list[self.used - 1][0]);
        match deps_res {
            Err(e) => {
                // Restore the taken layer to the free region.
                self.list.push(free);
                proof {
                    assert(self@.layers =~= v1.layers.push(Seq::empty()));
                    assert(produced_err::<T, E, F>(f, v.frontier(), e));
                }
                Err(e)
            },
            Ok(ds) => {
                let ghost dsg = ds@;
                proof {
                    assert(produced_ok::<T, E, F>(f, v.frontier(), dsg));
                }
                match self.classify(ds, free) {
                    Err(pc) => {
                        // Cyclic dependency: clear the offending layer and
                        // push it back into the free region.
                        let (pos, mut scrap) = pc;
                        scrap.clear();
                        self.list.push(scrap);
                        proof {
                            assert(self@.layers =~= v1.layers.push(Seq::empty()));
                        }
                        Ok(Some(pos))
                    },
                    Ok(layer) => {
                        if layer.is_empty() {
                            // The target is a node; drop active targets.
                            proof {
                                assert(fresh_deps(v.result, v.path(), dsg) =~= Seq::<T>::empty());
                            }
                            self.drop_cur();
                            proof {
                                lemma_cascade_congruence(v1, v);
                            }
                            Ok(None)
                        } else {
                            // Add the new layer to the used space.
                            proof {
                                assert(layer@ =~= fresh_deps(v.result, v.path(), dsg));
                                lemma_fresh_deps_sound(v.result, v.path(), dsg);
                            }
                            self.list.insert(self.used, layer);
                            proof {
                                assert(self@.layers =~= v1.layers.insert(
                                    v1.used as int,
                                    fresh_deps(v.result, v.path(), dsg),
                                ));
                            }
                            let n = self.list.len();
                            assert(self.used < n);
                            self.used = self.used + 1;
                            proof {
                                self.lemma_wf_after_descend(v1, fresh_deps(v.result, v.path(), dsg));
                            }
                            Ok(None)
                        }
                    },
                }
            },
        }
    }

    /// Descending one level preserves well-formedness: the fresh layer's
    /// items are unseen, so they are neither finalized nor equal to any
    /// active item above them.
    proof fn lemma_wf_after_descend(&self, v1: StoreView<T>, fresh: Seq<T>)
        requires
            v1.wf(),
            v1.used > 0,
            fresh.len() > 0,
            forall|k: int|
                0 <= k < fresh.len() ==> !v1.result.contains(#[trigger] fresh[k])
                    && !v1.path().contains(fresh[k]),
            self@.used == v1.used + 1,
            self@.result == v1.result,
            self@.layers.len() > v1.used,
            forall|i: int| 0 <= i < v1.used ==> self@.layers[i] == v1.layers[i],
            self@.layers[v1.used as int] == fresh,
            forall|i: int|
                self@.used <= i < self@.layers.len() ==> (#[trigger] self@.layers[i]).len() == 0,
        ensures
            self@.wf(),
    {
        let w = self@;
        assert forall|i: int| 0 <= i < w.used implies (#[trigger] w.layers[i]).len() > 0 by {
            if i < v1.used {
                assert(w.layers[i] == v1.layers[i]);
            }
        }
        assert forall|i: int, j: int|
            0 <= i < j < w.result.len() implies (#[trigger] w.result[i]) != (
        #[trigger] w.result[j]) by {
            assert(v1.result[i] != v1.result[j]);
        }
        assert forall|i: int, j: int, k: int|
            0 <= j < i < w.used && 0 <= k < w.layers[i].len() implies (#[trigger] w.layers[i][k])
            != (#[trigger] w.layers[j])[0] by {
            if i == v1.used as int {
                assert(!v1.path().contains(fresh[k]));
                assert(v1.path()[j] == v1.layers[j][0]);
            } else {
                assert(w.layers[i] == v1.layers[i]);
                assert(w.layers[j] == v1.layers[j]);
            }
        }
        assert forall|i: int| 0 <= i < w.used implies !w.result.contains(
            #[trigger] w.layers[i][0],
        ) by {
            if i == v1.used as int {
                assert(!v1.result.contains(fresh[0]));
            } else {
                assert(w.layers[i] == v1.layers[i]);
            }
        }
    }

    /// Removes the active-path slice from depth `pos` to the frontier and
    /// returns it as an owned chain, shallow to deep.
    fn extract_cycle(&mut self, pos: usize) -> (r: Vec<T>)
        requires
            old(self)@.used <= old(self)@.layers.len(),
            forall|i: int| 0 <= i < old(self)@.used ==> (#[trigger] old(self)@.layers[i]).len() > 0,
            pos < old(self)@.used,
        ensures
            r@ == old(self)@.path().subrange(pos as int, old(self)@.used as int),
    {
        let mut chain: Vec<T> = Vec::new();
        let used = self.used;
        let mut i = pos;
        while i < used
            invariant
                pos <= i <= used,
                used == old(self)@.used,
                self@.used == used,
                self@.layers.len() == old(self)@.layers.len(),
                used <= self@.layers.len(),
                forall|j: int|
                    i <= j < used ==> (#[trigger] self@.layers[j]) == old(self)@.layers[j],
                forall|j: int| i <= j < used ==> (#[trigger] self@.layers[j]).len() > 0,
                chain@ == old(self)@.path().subrange(pos as int, i as int),
            decreases used - i,
        {
            proof {
                assert(self@.layers[i as int] == self.list@[i as int]@);
            }
            let ghost before = self@;
            let item = self.list[i].swap_remove(0);
            chain.push(item);
            proof {
                assert(self@.layers =~= before.layers.update(i as int, self.list@[i as int]@));
                assert(item == old(self)@.path()[i as int]);
                assert forall|j: int| i + 1 <= j < used implies (#[trigger] self@.layers[j])
                    == old(self)@.layers[j] by {
                    assert(self@.layers[j] == before.layers[j]);
                }
                assert(chain@ =~= old(self)@.path().subrange(pos as int, i + 1));
            }
            i += 1;
        }
        chain
    }

    /// Runs through a whole dependency map using a single producer
    /// function.
    ///
    /// This is probably what one should use.  The returned order is
    /// topological: every finalized item follows a producer outcome all of
    /// whose dependencies were finalized before it.  A cyclic dependency
    /// is reported as the concrete cyclic chain; a producer error is
    /// propagated unchanged.
    pub fn process<F, E>(initial: Vec<T>, f: F) -> (r: Result<Vec<T>, Error<T, E>>) where
        F: Fn(&T) -> Result<Vec<T>, E>,

        requires
            eq_is_equality::<T>(),
            forall|x: &T| #[trigger] call_requires(f, (x,)),
        ensures
            process_post::<T, E, F>(f, initial@, r),
    {
        let ghost init = initial@;
        // The current map.
        let mut state = Self::new(initial);
        proof {
            assert forall|x: T| init.contains(x) implies #[trigger] state@.holds_item(x) by {
                assert(state@.layers[0].contains(x));
            }
            assert forall|x: T| #[trigger] state@.holds_item(x) implies init.contains(x) by {
                if !state@.result.contains(x) {
                    let i = choose|i: int|
                        0 <= i < state@.used && (#[trigger] state@.layers[i]).contains(x);
                    assert(state@.layers[0].contains(x));
                }
            }
        }
        loop
            invariant
                init == initial@,
                eq_is_equality::<T>(),
                forall|x: &T| #[trigger] call_requires(f, (x,)),
                state@.wf(),
                state@.result.len() <= usize::MAX,
                state@.used <= usize::MAX,
                edges_ok::<T, E, F>(f, state@),
                deps_covered::<T, E, F>(f, state@),
                topo_ok::<T, E, F>(f, state@.result),
                crate::model::provenance_ok::<T, E, F>(f, init, state@),
                forall|x: T| init.contains(x) ==> #[trigger] state@.holds_item(x),
            decreases usize::MAX - state@.result.len(), usize::MAX - state@.used,
        {
            let ghost sv = state@;
            match state.destroy() {
                Ok(res) => {
                    proof {
                        assert(res@ == sv.result);
                        assert forall|x: T| init.contains(x) implies res@.contains(x) by {
                            assert(sv.holds_item(x));
                        }
                        assert forall|i: int, j: int|
                            0 <= i < j < res@.len() implies (#[trigger] res@[i]) != (
                        #[trigger] res@[j]) by {
                            assert(sv.result[i] != sv.result[j]);
                        }
                        assert(pairwise_distinct(res@));
                        assert(contains_all(init, res@));
                        assert(topo_ok::<T, E, F>(f, res@));
                        assert(crate::model::sourced_from::<T, E, F>(f, init, res@)) by {
                            assert forall|x: T| #[trigger] res@.contains(x) implies init.contains(
                                x,
                            ) || exists|a: T|
                                res@.contains(a) && #[trigger] yields_dep::<T, E, F>(
                                    f,
                                    a,
                                    x,
                                ) by {
                                assert(sv.holds_item(x));
                                if !init.contains(x) {
                                    let a = choose|a: T|
                                        sv.holds_item(a) && #[trigger] yields_dep::<T, E, F>(
                                            f,
                                            a,
                                            x,
                                        );
                                    assert(res@.contains(a));
                                }
                            }
                        }
                        assert(process_post::<T, E, F>(
                            f,
                            init,
                            Ok::<Vec<T>, Error<T, E>>(res),
                        ));
                    }
                    return Ok(res);
                },
                Err(map) => {
                    state = map;
                },
            }
            // Not empty; process one step.
            let ghost v = state@;
            proof {
                lemma_ref_may_call::<T, E, F>(&f, v.frontier());
            }
            let step = state.add(&f);
            match step {
                Err(e) => {
                    proof {
                        lemma_unref_err::<T, E, F>(&f, v.frontier(), e);
                        lemma_post_err::<T, E, F>(f, init, v.frontier(), e);
                    }
                    return Err(Error::UserDef(e));
                },
                Ok(None) => {
                    proof {
                        let w = state@;
                        let ds0 = choose|ds: Seq<T>|
                            {
                                &&& #[trigger] produced_ok::<T, E, &F>(&f, v.frontier(), ds)
                                &&& first_cycle_dep(v.result, v.path(), ds) is None
                                &&& {
                                    let fresh = fresh_deps(v.result, v.path(), ds);
                                    if fresh.len() == 0 {
                                        &&& w.used == cascade(v).used
                                        &&& w.result == cascade(v).result
                                        &&& forall|i: int|
                                            0 <= i < w.used ==> w.layers[i] == (
                                            #[trigger] cascade(v).layers[i])
                                    } else {
                                        &&& w.used == v.used + 1
                                        &&& w.result == v.result
                                        &&& forall|i: int|
                                            0 <= i < v.used ==> w.layers[i] == v.layers[i]
                                        &&& w.layers[v.used as int] == fresh
                                    }
                                }
                            };
                        lemma_unref_ok::<T, E, F>(&f, v.frontier(), ds0);
                        crate::model::lemma_step_invs::<T, E, F>(f, v, w, ds0);
                        assert forall|x: T| init.contains(x) implies #[trigger] w.holds_item(
                            x,
                        ) by {
                            assert(v.holds_item(x));
                        }
                        assert(crate::model::provenance_ok::<T, E, F>(f, init, w)) by {
                            assert forall|x: T| #[trigger] w.holds_item(x) implies init.contains(
                                x,
                            ) || exists|a: T|
                                w.holds_item(a) && #[trigger] yields_dep::<T, E, F>(
                                    f,
                                    a,
                                    x,
                                ) by {
                                if v.holds_item(x) {
                                    if !init.contains(x) {
                                        let a = choose|a: T|
                                            v.holds_item(a) && #[trigger] yields_dep::<T, E, F>(
                                                f,
                                                a,
                                                x,
                                            );
                                        assert(w.holds_item(a));
                                    }
                                } else {
                                    assert(yields_dep::<T, E, F>(f, v.frontier(), x));
                                    assert(v.layers[v.used - 1].contains(v.frontier()));
                                    assert(v.holds_item(v.frontier()));
                                    assert(w.holds_item(v.frontier()));
                                }
                            }
                        }
                        vstd::std_specs::vec::axiom_spec_len(&state.result);
                    }
                },
                Ok(Some(pos)) => {
                    proof {
                        assert(state@.path() =~= v.path());
                    }
                    let chain = state.extract_cycle(pos);
                    proof {
                        let ds0 = choose|ds: Seq<T>|
                            {
                                &&& #[trigger] produced_ok::<T, E, &F>(&f, v.frontier(), ds)
                                &&& first_cycle_dep(v.result, v.path(), ds) is Some
                                &&& pos == first_index_of(
                                    v.path(),
                                    first_cycle_dep(v.result, v.path(), ds)->Some_0,
                                )
                            };
                        lemma_unref_ok::<T, E, F>(&f, v.frontier(), ds0);
                        crate::model::lemma_cycle_chain::<T, E, F>(f, v, ds0, pos as int, chain@);
                    }
                    return Err(Error::CyclicDep(chain));
                },
            }
        }
    }

    /// Drops as many active targets as possible, beginning from the end:
    /// the finalization cascade.
    fn drop_cur(&mut self)
        requires
            eq_is_equality::<T>(),
            old(self)@.wf(),
            old(self)@.used > 0,
        ensures
            final(self)@.wf(),
            final(self)@ == cascade(old(self)@),
    {
        loop
            invariant_except_break
                eq_is_equality::<T>(),
                self@.wf(),
                self@.used > 0,
                cascade(self@) == cascade(old(self)@),
            ensures
                self@.wf(),
                self@ == cascade(old(self)@),
            decreases self@.used,
        {
            let ghost head = self@;
            let idx = self.used - 1;
            proof {
                assert(head.layers[idx as int] == self.list@[idx as int]@);
            }
            // Drop the active target into the result list.
            let item = self.list[idx].swap_remove(0);
            self.result.push(item);
            let ghost result1 = self@.result;
            proof {
                assert(result1 == head.result.push(head.layers[idx as int][0]));
                assert(self.list@[idx as int]@ =~= swap_pop_front(head.layers[idx as int]));
                assert(self@.layers =~= head.layers.update(
                    idx as int,
                    swap_pop_front(head.layers[idx as int]),
                ));
            }
            // While the list is not empty, search for a target that has
            // not been handled yet, removing those already finalized.
            loop
                invariant_except_break
                    eq_is_equality::<T>(),
                    idx == head.used - 1,
                    self@.used == head.used,
                    self@.result == result1,
                    self@.layers.len() == head.layers.len(),
                    self@.used <= self@.layers.len(),
                    forall|i: int|
                        0 <= i < self@.layers.len() && i != idx ==> self@.layers[i]
                            == head.layers[i],
                    skip_done(self@.layers[idx as int], result1) == skip_done(
                        swap_pop_front(head.layers[idx as int]),
                        result1,
                    ),
                    forall|k: int|
                        0 <= k < self@.layers[idx as int].len() ==> swap_pop_front(
                            head.layers[idx as int],
                        ).contains(#[trigger] self@.layers[idx as int][k]),
                ensures
                    idx == head.used - 1,
                    self@.used == head.used,
                    self@.result == result1,
                    self@.layers.len() == head.layers.len(),
                    forall|i: int|
                        0 <= i < self@.layers.len() && i != idx ==> self@.layers[i]
                            == head.layers[i],
                    self@.layers[idx as int] == skip_done(
                        swap_pop_front(head.layers[idx as int]),
                        result1,
                    ),
                    forall|k: int|
                        0 <= k < self@.layers[idx as int].len() ==> swap_pop_front(
                            head.layers[idx as int],
                        ).contains(#[trigger] self@.layers[idx as int][k]),
                decreases self@.layers[idx as int].len(),
            {
                proof {
                    assert(self@.layers[idx as int] == self.list@[idx as int]@);
                }
                if self.list[idx].len() == 0 {
                    break;
                }
                let done = contains_item(&self.result, &self.list[idx][0]);
                if !done {
                    break;
                }
                // Already finalized along another path: remove and go on.
                let ghost before = self@.layers[idx as int];
                let _ = self.list[idx].swap_remove(0);
                proof {
                    assert(self.list@[idx as int]@ =~= swap_pop_front(before));
                    assert(self@.layers =~= head.layers.update(idx as int, swap_pop_front(before)));
                    lemma_swap_pop_front_sound(before);
                }
            }
            proof {
                assert(self@.layers[idx as int] == self.list@[idx as int]@);
            }
            let ghost layer1 = skip_done(swap_pop_front(head.layers[idx as int]), result1);
            if self.list[idx].len() > 0 {
                // An unhandled sibling was found: it becomes the new
                // frontier, and the cascade ends.
                proof {
                    lemma_skip_done_sound(swap_pop_front(head.layers[idx as int]), result1);
                    lemma_swap_pop_front_sound(head.layers[idx as int]);
                    assert(cascade(head) == self@) by {
                        assert(self@.layers =~= head.layers.update(idx as int, layer1));
                        assert(cascade(head).layers == self@.layers);
                    }
                    assert(self@.wf()) by {
                        lemma_step_wf(head, self@, idx as int, layer1, result1);
                    }
                }
                break;
            } else {
                // Mark the emptied list as free and ascend one level.
                self.used = idx;
                proof {
                    lemma_skip_done_sound(swap_pop_front(head.layers[idx as int]), result1);
                    lemma_swap_pop_front_sound(head.layers[idx as int]);
                    assert(self@.layers =~= head.layers.update(idx as int, layer1));
                    assert(cascade(head) == cascade(self@)) by {
                        assert(cascade(head) == cascade(
                            StoreView {
                                layers: head.layers.update(idx as int, layer1),
                                used: idx as nat,
                                result: result1,
                            },
                        ));
                    }
                    assert(self@.wf()) by {
                        lemma_step_wf(head, self@, idx as int, layer1, result1);
                    }
                }
                if self.used == 0 {
                    break;
                }
            }
        }
    }

}

} // verus!
