//! The plugin's state: its configuration, and the set of file resources it
//! has opened and not yet closed.

use vstd::prelude::*;
use std::collections::HashSet;
use std::sync::Arc;
use vstd::std_specs::iter::IteratorSpec;

verus! {

/// The settings the plugin's commands share.
pub struct PluginConfig {
    pub require_literal_leading_dot: Option<bool>,
}

impl PluginConfig {
    /// Whether glob patterns require a literal leading dot: as configured, or
    /// else the platform's default (`true` on Unix).
    pub fn require_literal_leading_dot_or(&self, platform_default: bool) -> (r: bool)
        ensures
            r == match self.require_literal_leading_dot {
                Some(b) => b,
                None => platform_default,
            },
    {
        match self.require_literal_leading_dot {
            Some(b) => b,
            None => platform_default,
        }
    }
}

/// The shared configuration state of the plugin.
pub fn new_plugin_config_state(require_literal_leading_dot: Option<bool>) -> (state: Arc<PluginConfig>)
    ensures
        state.require_literal_leading_dot == require_literal_leading_dot,
{
    Arc::new(PluginConfig { require_literal_leading_dot })
}

/// A resource the plugin shares out: a value behind a shared pointer.
pub struct PluginResource<T> {
    resource: Arc<T>,
}

impl<T> PluginResource<T> {
    pub closed spec fn value(&self) -> T {
        *self.resource
    }

    /// Wraps `resource`.
    pub fn new(resource: T) -> (r: Self)
        ensures
            r.value() == resource,
    {
        PluginResource { resource: Arc::new(resource) }
    }

    /// The wrapped value.
    pub fn get(&self) -> (r: &T)
        ensures
            *r == self.value(),
    {
        &*self.resource
    }
}

/// The ids of the file resources the plugin has opened and not closed yet.
pub struct PluginFileResources {
    list: HashSet<u32>,
}

impl View for PluginFileResources {
    type V = Set<u32>;

    closed spec fn view(&self) -> Set<u32> {
        self.list@
    }
}

impl PluginFileResources {
    /// No resources.
    pub fn new() -> (r: Self)
        ensures
            r@ == Set::<u32>::empty(),
    {
        PluginFileResources { list: HashSet::new() }
    }

    /// Records the resource `id` as opened by the plugin.
    pub fn add(&mut self, id: u32)
        ensures
            final(self)@ == old(self)@.insert(id),
    {
        broadcast use vstd::std_specs::hash::group_hash_axioms;
        self.list.insert(id);
    }

    /// Forgets the resource `id`; the caller closes it where it is still open.
    pub fn close(&mut self, id: u32)
        ensures
            final(self)@ == old(self)@.remove(id),
    {
        broadcast use vstd::std_specs::hash::group_hash_axioms;
        self.list.remove(&id);
    }

    /// Whether the resource `id` is one the plugin opened and has not closed.
    pub fn contains(&self, id: u32) -> (r: bool)
        ensures
            r == self@.contains(id),
    {
        broadcast use vstd::std_specs::hash::group_hash_axioms;
        self.list.contains(&id)
    }

    /// The ids of the resources, each once.
    pub fn ids(&self) -> (ids: Vec<u32>)
        ensures
            ids@.to_set() == self@,
            ids@.no_duplicates(),
    {
        broadcast use vstd::std_specs::hash::group_hash_axioms;
        let mut ids: Vec<u32> = Vec::new();
        let ghost keys = vstd::std_specs::hash::spec_hash_keys_iter(&self.list).remaining();
        for id in it: self.list.iter()
            invariant
                it.seq() == keys,
                ids@ == keys.take(it.index()).map_values(|k: &u32| *k),
        {
            ids.push(*id);
            assert(ids@ =~= keys.take(it.index() + 1).map_values(|k: &u32| *k));
        }
        assert(ids@ =~= keys.unref());
        ids
    }

    /// Forgets every resource and gives their ids, each once, for the caller
    /// to close the ones still open.
    pub fn close_all(&mut self) -> (ids: Vec<u32>)
        ensures
            final(self)@ == Set::<u32>::empty(),
            ids@.to_set() == old(self)@,
            ids@.no_duplicates(),
    {
        broadcast use vstd::std_specs::hash::group_hash_axioms;
        let ids = self.ids();
        self.list.clear();
        ids
    }
}

/// Law: a resource added and then closed leaves the tracked ids as they were
/// (for an id that was not tracked before); while it is tracked there is one
/// more id than before.
pub proof fn lemma_add_then_close(ids: Set<u32>, id: u32)
    requires
        ids.finite(),
        !ids.contains(id),
    ensures
        ids.insert(id).contains(id),
        ids.insert(id).len() == ids.len() + 1,
        ids.insert(id).remove(id) == ids,
{
    assert(ids.insert(id).remove(id) =~= ids);
}

/// Law: closing a resource takes its id out and keeps every other one;
/// closing it again, or closing an id never added, changes nothing.
pub proof fn lemma_close_keeps_others(ids: Set<u32>, id: u32, other: u32)
    requires
        ids.finite(),
    ensures
        !ids.remove(id).contains(id),
        other != id ==> (ids.remove(id).contains(other) == ids.contains(other)),
        ids.remove(id).remove(id) == ids.remove(id),
        !ids.contains(id) ==> ids.remove(id) == ids,
        ids.contains(id) ==> ids.remove(id).len() == ids.len() - 1,
{
    assert(ids.remove(id).remove(id) =~= ids.remove(id));
    if !ids.contains(id) {
        assert(ids.remove(id) =~= ids);
    }
}

} // verus!
