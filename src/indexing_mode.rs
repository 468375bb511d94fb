use vstd::prelude::*;

verus! {

/// How many groups one accelerator batch takes unless told otherwise.
pub const GPU_MAX_GROUPS_COUNT_DEFAULT: usize = 256;

/// The switches that steer graph indexing, read once at the start of each
/// batch: whether the accelerator path is taken, and how many groups one
/// accelerator batch may hold. The two are set independently.
#[derive(Clone, Copy, Debug, PartialEq, Eq)]
pub struct GpuIndexingConfig {
    pub gpu_indexing: bool,
    pub max_groups_count: usize,
}

impl GpuIndexingConfig {
    /// The accelerator off, and the default bound on groups.
    pub fn new() -> (r: GpuIndexingConfig)
        ensures
            !r.gpu_indexing,
            r.max_groups_count == GPU_MAX_GROUPS_COUNT_DEFAULT,
    {
        GpuIndexingConfig { gpu_indexing: false, max_groups_count: GPU_MAX_GROUPS_COUNT_DEFAULT }
    }
}

impl Default for GpuIndexingConfig {
    fn default() -> (r: GpuIndexingConfig)
        ensures
            !r.gpu_indexing,
            r.max_groups_count == GPU_MAX_GROUPS_COUNT_DEFAULT,
    {
        GpuIndexingConfig::new()
    }
}

/// Turns the accelerator path on or off; the bound on groups stays.
pub fn set_gpu_indexing(config: &mut GpuIndexingConfig, gpu_indexing: bool)
    ensures
        final(config).gpu_indexing == gpu_indexing,
        final(config).max_groups_count == old(config).max_groups_count,
{
    config.gpu_indexing = gpu_indexing;
}

pub fn get_gpu_indexing(config: &GpuIndexingConfig) -> (r: bool)
    ensures
        r == config.gpu_indexing,
{
    config.gpu_indexing
}

/// Sets the bound on groups per accelerator batch; the path switch stays.
pub fn set_gpu_max_groups_count(config: &mut GpuIndexingConfig, count: usize)
    ensures
        final(config).max_groups_count == count,
        final(config).gpu_indexing == old(config).gpu_indexing,
{
    config.max_groups_count = count;
}

pub fn get_gpu_max_groups_count(config: &GpuIndexingConfig) -> (r: usize)
    ensures
        r == config.max_groups_count,
{
    config.max_groups_count
}

} // verus!
