use vstd::prelude::*;

verus! {

/// A DRM device node, identified by its device number.
pub struct DrmNode {
    pub dev_id: u64,
}

/// The DRM backend state: the seat the session runs on, the primary GPU and
/// every GPU that is known.
pub struct Drm {
    pub seat: String,
    pub primary_gpu: DrmNode,
    pub all_gpus: Vec<DrmNode>,
}

impl Drm {
    /// Called when udev reports a new DRM device. Devices are not yet
    /// taken into use, so nothing happens.
    pub fn device_added(node: DrmNode, path: String) {
    }
}

} // verus!
