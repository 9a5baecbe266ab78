//! Per-buffer metadata, keyed by buffer id: what kind of buffer each one is, and so
//! whether the user may edit it.
use vstd::prelude::*;
use std::collections::HashMap;

verus! {

broadcast use vstd::std_specs::hash::group_hash_axioms;

#[derive(Clone, Copy, Debug, PartialEq, Eq, Structural)]
pub enum BufferType {
    /// Normal file-backed buffer. User can edit and save.
    Normal,
    /// Virtual/scratch buffer. Programmatically updated, never saved,
    /// never shows as modified. No file backing.
    Virtual,
    /// Readonly buffer. User cannot edit or save. Never shows as modified.
    /// May or may not have file backing.
    Readonly,
    SedDiff,
}

impl Default for BufferType {
    fn default() -> (r: BufferType)
        ensures
            r == BufferType::Normal,
    {
        BufferType::Normal
    }
}

#[derive(Clone, Copy, Debug, PartialEq, Eq, Structural)]
pub struct BufferMetadata {
    pub buffer_type: BufferType,
}

impl Default for BufferMetadata {
    fn default() -> (r: BufferMetadata)
        ensures
            r.buffer_type == BufferType::Normal,
    {
        BufferMetadata { buffer_type: BufferType::Normal }
    }
}

/// Tracks per-buffer metadata keyed by buffer ID.
pub struct BufferRegistry {
    entries: HashMap<usize, BufferMetadata>,
}

/// The kind of buffer that the registry records for `id`, if any.
pub open spec fn recorded(m: Map<usize, BufferMetadata>, id: Option<usize>) -> Option<BufferType> {
    match id {
        Some(i) => if m.contains_key(i) {
            Some(m[i].buffer_type)
        } else {
            None
        },
        None => None,
    }
}

impl BufferRegistry {
    /// The metadata recorded per buffer id.
    pub closed spec fn view(&self) -> Map<usize, BufferMetadata> {
        self.entries@
    }

    pub fn new() -> (r: BufferRegistry)
        ensures
            r.view() == Map::<usize, BufferMetadata>::empty(),
    {
        BufferRegistry { entries: HashMap::new() }
    }

    /// Records `meta` for buffer `id`; nothing for a buffer without an id.
    pub fn register(&mut self, id: Option<usize>, meta: BufferMetadata)
        ensures
            final(self).view() == match id {
                Some(i) => old(self).view().insert(i, meta),
                None => old(self).view(),
            },
    {
        if let Some(id) = id {
            self.entries.insert(id, meta);
        }
    }

    /// Forgets buffer `id`.
    pub fn unregister(&mut self, id: Option<usize>)
        ensures
            final(self).view() == match id {
                Some(i) => old(self).view().remove(i),
                None => old(self).view(),
            },
    {
        if let Some(id) = id {
            self.entries.remove(&id);
        }
    }

    /// The metadata of buffer `id`, if it is registered.
    pub fn get(&self, id: Option<usize>) -> (r: Option<&BufferMetadata>)
        ensures
            match id {
                Some(i) => if self.view().contains_key(i) {
                    r == Some(&self.view()[i])
                } else {
                    r is None
                },
                None => r is None,
            },
    {
        match id {
            Some(id) => self.entries.get(&id),
            None => None,
        }
    }

    fn has_type(&self, id: Option<usize>, t: BufferType) -> (r: bool)
        ensures
            r == (recorded(self.view(), id) == Some(t)),
    {
        match self.get(id) {
            Some(m) => m.buffer_type == t,
            None => false,
        }
    }

    pub fn is_sed_diff(&self, id: Option<usize>) -> (r: bool)
        ensures
            r == (recorded(self.view(), id) == Some(BufferType::SedDiff)),
    {
        self.has_type(id, BufferType::SedDiff)
    }

    pub fn is_virtual(&self, id: Option<usize>) -> (r: bool)
        ensures
            r == (recorded(self.view(), id) == Some(BufferType::Virtual)),
    {
        self.has_type(id, BufferType::Virtual)
    }

    pub fn is_readonly(&self, id: Option<usize>) -> (r: bool)
        ensures
            r == (recorded(self.view(), id) == Some(BufferType::Readonly)),
    {
        self.has_type(id, BufferType::Readonly)
    }

    /// Returns true if the buffer can be edited by the user.
    /// Unregistered buffers default to editable (Normal).
    pub fn is_editable(&self, id: Option<usize>) -> (r: bool)
        ensures
            r == match recorded(self.view(), id) {
                Some(t) => t == BufferType::Normal,
                None => true,
            },
    {
        match self.get(id) {
            Some(m) => m.buffer_type == BufferType::Normal,
            None => true,
        }
    }
}

/// A buffer registered with a kind reports that kind until it is registered again or
/// unregistered; other buffers are unaffected.
pub proof fn law_register_then_lookup(before: Map<usize, BufferMetadata>, id: usize, meta: BufferMetadata, other: Option<usize>)
    ensures
        recorded(before.insert(id, meta), Some(id)) == Some(meta.buffer_type),
        other != Some(id) ==> recorded(before.insert(id, meta), other) == recorded(before, other),
        recorded(before.remove(id), Some(id)) is None,
        other != Some(id) ==> recorded(before.remove(id), other) == recorded(before, other),
{
}

} // verus!
