//! Card images read from a folder on this machine.
use vstd::prelude::*;

use crate::error::ProxyNexusError;
use crate::paths::{join_path, joined_path};

verus! {

/// Something that hands out the bytes of a card image by its key.
pub trait ImageProvider {
    fn get_image_bytes(&self, key: &str) -> Result<Vec<u8>, ProxyNexusError>;
}

/// Images kept under one folder, each at the path of its key below it.
pub struct LocalImageProvider {
    base_path: String,
}

impl LocalImageProvider {
    pub closed spec fn base(&self) -> Seq<char> {
        self.base_path@
    }

    pub fn new(base_path: String) -> (r: Self)
        ensures
            r.base() == base_path@,
    {
        LocalImageProvider { base_path }
    }

    /// The file that holds the image with the given key.
    pub fn image_path(&self, key: &str) -> (r: String)
        ensures
            r@ == joined_path(self.base(), key@),
    {
        join_path(self.base_path.as_str(), key)
    }
}

} // verus!
