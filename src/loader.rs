use vstd::prelude::*;
use crate::tile::ImageId;

verus! {

/// Something that accepts image paths for loading and hands back an identity
/// for each.
///
/// Registration never fails and never reads anything: it records the path.
/// Every call yields a fresh identity, also for a path registered before.
pub trait TextureLoader {
    /// The paths registered so far; the identity of an image is its position.
    spec fn registered(&self) -> Seq<String>;

    fn load_texture(&mut self, path: String) -> (r: ImageId)
        requires
            old(self).registered().len() < usize::MAX,
        ensures
            final(self).registered() == old(self).registered().push(path),
            r == old(self).registered().len(),
    ;
}

/// A loader that only records the paths, so that the images can be read and
/// decoded later, all at once.
pub struct RecordingLoader {
    paths: Vec<String>,
}

impl RecordingLoader {
    pub fn new() -> (r: RecordingLoader)
        ensures
            r.registered() == Seq::<String>::empty(),
    {
        RecordingLoader { paths: Vec::new() }
    }

    /// The registration table: the path of each identity, by identity.
    pub fn paths(&self) -> (r: &Vec<String>)
        ensures
            r@ == self.registered(),
    {
        &self.paths
    }

    /// The path registered under `id`, if any.
    pub fn path(&self, id: ImageId) -> (r: Option<&String>)
        ensures
            id < self.registered().len() ==> r == Some(&self.registered()[id as int]),
            id >= self.registered().len() ==> r.is_none(),
    {
        if id < self.paths.len() {
            Some(&self.paths[id])
        } else {
            None
        }
    }

    pub fn into_paths(self) -> (r: Vec<String>)
        ensures
            r@ == self.registered(),
    {
        self.paths
    }
}

impl TextureLoader for RecordingLoader {
    closed spec fn registered(&self) -> Seq<String> {
        self.paths@
    }

    fn load_texture(&mut self, path: String) -> (r: ImageId) {
        let id = self.paths.len();
        self.paths.push(path);
        id
    }
}

/// Registering the same path twice with one loader keeps every earlier
/// entry and both new ones, and gives two distinct identities, each naming
/// that path.
pub proof fn lemma_register_twice<T: TextureLoader>(
    before: T,
    middle: T,
    after: T,
    path: String,
    first: ImageId,
    second: ImageId,
)
    requires
        middle.registered() == before.registered().push(path),
        first == before.registered().len(),
        after.registered() == middle.registered().push(path),
        second == middle.registered().len(),
    ensures
        after.registered().len() == before.registered().len() + 2,
        forall|k: int| 0 <= k < before.registered().len() ==> after.registered()[k] == before.registered()[k],
        first != second,
        after.registered()[first as int] == path,
        after.registered()[second as int] == path,
{
}

} // verus!
