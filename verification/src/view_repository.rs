//! An in-memory view repository: the views of a query, each kept with its
//! context under the id of its view instance.
use std::marker::PhantomData;
use vstd::prelude::*;

use crate::text::str_equal;

verus! {

/// The context of a view instance (`cqrs_es::persist::ViewContext`).
#[derive(Debug)]
pub struct ViewContextRecord {
    pub view_instance_id: String,
    pub version: i64,
}

/// A view kept with its context.
pub struct StoredView<V> {
    pub view: V,
    pub context: ViewContextRecord,
}

/// The views of `entries` by view instance id; a later entry of an id hides an
/// earlier one.
pub open spec fn views_by_id<V>(entries: Seq<StoredView<V>>) -> Map<Seq<char>, (V, i64)>
    decreases entries.len(),
{
    if entries.len() == 0 {
        Map::empty()
    } else {
        views_by_id(entries.drop_last()).insert(
            entries.last().context.view_instance_id@,
            (entries.last().view, entries.last().context.version),
        )
    }
}

/// Whether no two entries have the same view instance id.
pub open spec fn ids_unique<V>(entries: Seq<StoredView<V>>) -> bool {
    forall|i: int, j: int|
        0 <= i < j < entries.len() ==> (#[trigger] entries[i]).context.view_instance_id@ != (
        #[trigger] entries[j]).context.view_instance_id@
}

/// The views of a query over the aggregate `A`, kept in memory.
pub struct InMemoryViewRepository<V, A> {
    views: Vec<StoredView<V>>,
    aggregate: PhantomData<A>,
}

impl<V, A> View for InMemoryViewRepository<V, A> {
    type V = Map<Seq<char>, (V, i64)>;

    closed spec fn view(&self) -> Map<Seq<char>, (V, i64)> {
        views_by_id(self.views@)
    }
}

/// An entry of a unique id is the view of that id.
proof fn lemma_views_by_id_lookup<V>(entries: Seq<StoredView<V>>, i: int)
    requires
        ids_unique(entries),
        0 <= i < entries.len(),
    ensures
        views_by_id(entries).contains_key(entries[i].context.view_instance_id@),
        views_by_id(entries)[entries[i].context.view_instance_id@] == (
            entries[i].view,
            entries[i].context.version,
        ),
    decreases entries.len(),
{
    let init = entries.drop_last();
    if i < entries.len() - 1 {
        assert(init[i] == entries[i]);
        assert(ids_unique(init)) by {
            assert forall|a: int, b: int| 0 <= a < b < init.len() implies (
            #[trigger] init[a]).context.view_instance_id@ != (#[trigger] init[b]).context.view_instance_id@ by {
                assert(init[a] == entries[a]);
                assert(init[b] == entries[b]);
            }
        }
        lemma_views_by_id_lookup(init, i);
        assert(entries[i].context.view_instance_id@ != entries[entries.len() - 1].context.view_instance_id@);
    }
}

/// No entry has the id: no view of that id.
proof fn lemma_views_by_id_absent<V>(entries: Seq<StoredView<V>>, id: Seq<char>)
    requires
        forall|i: int| 0 <= i < entries.len() ==> (#[trigger] entries[i]).context.view_instance_id@ != id,
    ensures
        !views_by_id(entries).contains_key(id),
    decreases entries.len(),
{
    if entries.len() > 0 {
        let init = entries.drop_last();
        assert forall|i: int| 0 <= i < init.len() implies (#[trigger] init[i]).context.view_instance_id@ != id by {
            assert(init[i] == entries[i]);
        }
        lemma_views_by_id_absent(init, id);
        assert(entries[entries.len() - 1].context.view_instance_id@ != id);
    }
}

/// Replacing the entry of an id replaces the view of that id.
proof fn lemma_views_by_id_replace<V>(entries: Seq<StoredView<V>>, i: int, x: StoredView<V>)
    requires
        ids_unique(entries),
        0 <= i < entries.len(),
        entries[i].context.view_instance_id@ == x.context.view_instance_id@,
    ensures
        views_by_id(entries.update(i, x)) == views_by_id(entries).insert(
            x.context.view_instance_id@,
            (x.view, x.context.version),
        ),
    decreases entries.len(),
{
    let init = entries.drop_last();
    let k = x.context.view_instance_id@;
    if i == entries.len() - 1 {
        assert(entries.update(i, x).drop_last() =~= init);
        assert(views_by_id(entries.update(i, x)) =~= views_by_id(entries).insert(
            k,
            (x.view, x.context.version),
        ));
    } else {
        assert(entries.update(i, x).drop_last() =~= init.update(i, x));
        assert(init[i] == entries[i]);
        assert(ids_unique(init)) by {
            assert forall|a: int, b: int| 0 <= a < b < init.len() implies (
            #[trigger] init[a]).context.view_instance_id@ != (#[trigger] init[b]).context.view_instance_id@ by {
                assert(init[a] == entries[a]);
                assert(init[b] == entries[b]);
            }
        }
        lemma_views_by_id_replace(init, i, x);
        let last = entries.last();
        assert(entries[entries.len() - 1] == last);
        assert(last.context.view_instance_id@ != k);
        assert(entries.update(i, x).last() == last);
        assert(views_by_id(entries.update(i, x)) =~= views_by_id(entries).insert(
            k,
            (x.view, x.context.version),
        ));
    }
}

impl<V, A> InMemoryViewRepository<V, A> {
    #[verifier::type_invariant]
    spec fn unique(&self) -> bool {
        ids_unique(self.views@)
    }

    /// The position of the entry of `view_id`.
    fn position(&self, view_id: &str) -> (r: Option<usize>)
        ensures
            match r {
                Some(i) => i < self.views@.len() && self.views@[i as int].context.view_instance_id@
                    == view_id@,
                None => forall|i: int|
                    0 <= i < self.views@.len() ==> (
                    #[trigger] self.views@[i]).context.view_instance_id@ != view_id@,
            },
    {
        let mut i: usize = 0;
        while i < self.views.len()
            invariant
                i <= self.views@.len(),
                forall|j: int|
                    0 <= j < i ==> (#[trigger] self.views@[j]).context.view_instance_id@
                        != view_id@,
            decreases self.views@.len() - i,
        {
            if str_equal(self.views[i].context.view_instance_id.as_str(), view_id) {
                return Some(i);
            }
            i = i + 1;
        }
        None
    }

    /// An empty repository for the views of the query `_view_name`.
    pub fn new(_view_name: &str) -> (r: Self)
        ensures
            r@ == Map::<Seq<char>, (V, i64)>::empty(),
    {
        InMemoryViewRepository { views: Vec::new(), aggregate: PhantomData }
    }

    /// The view of `view_id`, a clone of the one kept.
    pub fn load(&self, view_id: &str) -> (r: Option<V>) where V: Clone
        ensures
            match r {
                Some(v) => self@.contains_key(view_id@) && cloned(self@[view_id@].0, v),
                None => !self@.contains_key(view_id@),
            },
    {
        proof {
            use_type_invariant(self);
        }
        match self.position(view_id) {
            Some(i) => {
                proof {
                    lemma_views_by_id_lookup(self.views@, i as int);
                }
                Some(self.views[i].view.clone())
            },
            None => {
                proof {
                    lemma_views_by_id_absent(self.views@, view_id@);
                }
                None
            },
        }
    }

    /// The view of `view_id`, a clone of the one kept, and its context.
    pub fn load_with_context(&self, view_id: &str) -> (r: Option<(V, ViewContextRecord)>) where
        V: Clone,
        ensures
            match r {
                Some((v, c)) => self@.contains_key(view_id@) && cloned(self@[view_id@].0, v)
                    && c.view_instance_id@ == view_id@ && c.version == self@[view_id@].1,
                None => !self@.contains_key(view_id@),
            },
    {
        proof {
            use_type_invariant(self);
        }
        match self.position(view_id) {
            Some(i) => {
                proof {
                    lemma_views_by_id_lookup(self.views@, i as int);
                }
                let stored = &self.views[i];
                let context = ViewContextRecord {
                    view_instance_id: stored.context.view_instance_id.clone(),
                    version: stored.context.version,
                };
                Some((stored.view.clone(), context))
            },
            None => {
                proof {
                    lemma_views_by_id_absent(self.views@, view_id@);
                }
                None
            },
        }
    }

    /// Keeps `view` with `context` under its view instance id, in place of any
    /// view kept there before.
    pub fn update_view(&mut self, view: V, context: ViewContextRecord)
        ensures
            final(self)@ == old(self)@.insert(context.view_instance_id@, (view, context.version)),
    {
        proof {
            use_type_invariant(&*self);
        }
        let ghost entries = self.views@;
        let ghost key = context.view_instance_id@;
        let ghost version = context.version;
        let entry = StoredView { view, context };
        let found = self.position(entry.context.view_instance_id.as_str());
        let mut views: Vec<StoredView<V>> = Vec::new();
        std::mem::swap(&mut views, &mut self.views);
        match found {
            Some(i) => {
                proof {
                    lemma_views_by_id_replace(entries, i as int, entry);
                }
                views.set(i, entry);
            },
            None => {
                assert(ids_unique(entries.push(entry))) by {
                    assert forall|a: int, b: int|
                        0 <= a < b < entries.len() + 1 implies (#[trigger] entries.push(
                        entry,
                    )[a]).context.view_instance_id@ != (#[trigger] entries.push(
                        entry,
                    )[b]).context.view_instance_id@ by {
                        assert(entries.push(entry)[a] == entries[a]);
                        if b < entries.len() {
                            assert(entries.push(entry)[b] == entries[b]);
                        }
                    }
                }
                assert(entries.push(entry).drop_last() =~= entries);
                views.push(entry);
            },
        }
        self.views = views;
    }
}

impl<V, A> Default for InMemoryViewRepository<V, A> {
    fn default() -> (r: Self)
        ensures
            r@ == Map::<Seq<char>, (V, i64)>::empty(),
    {
        InMemoryViewRepository { views: Vec::new(), aggregate: PhantomData }
    }
}

/// Loading a view gives what the last update under its id kept there: after
/// `update_view` the repository holds that view and version under the id of the
/// context, and every other id keeps what it held before.
pub proof fn lemma_load_after_update<V, A>(
    before: InMemoryViewRepository<V, A>,
    after: InMemoryViewRepository<V, A>,
    view: V,
    context: ViewContextRecord,
    other_id: Seq<char>,
)
    requires
        after@ == before@.insert(context.view_instance_id@, (view, context.version)),
    ensures
        after@.contains_key(context.view_instance_id@),
        after@[context.view_instance_id@] == (view, context.version),
        other_id != context.view_instance_id@ ==> after@.contains_key(other_id)
            == before@.contains_key(other_id),
        other_id != context.view_instance_id@ && before@.contains_key(other_id) ==> after@[other_id]
            == before@[other_id],
{
}

} // verus!
