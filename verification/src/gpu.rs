//! The device interface of builds without a native device runtime.
//!
//! Every entry point reports that the device is not available, so that the
//! callers fall back to the processor.

use vstd::prelude::*;

verus! {

#[derive(Debug, Clone)]
pub enum GpuError {
    /// The device is not available; the text names the backend.
    NotAvailable(String),
}

pub type GpuResult<T> = Result<T, GpuError>;

/// The result says that the device is not available.
pub open spec fn not_available<T>(r: GpuResult<T>) -> bool {
    r matches Err(GpuError::NotAvailable(s)) && s@ == "Vulkan backend"@
}

/// A device stream, by its address.
#[derive(Debug, Clone, Copy)]
pub struct CudaStream(pub u64);

/// A device event, by its address.
#[derive(Debug, Clone, Copy)]
pub struct CudaEvent(pub u64);

fn unavailable() -> (e: GpuError)
    ensures
        e matches GpuError::NotAvailable(s) && s@ == "Vulkan backend"@,
{
    GpuError::NotAvailable("Vulkan backend".to_owned())
}

/// Whether a device can be used: whether the backend came up.
pub fn gpu_available(backend_enabled: bool) -> (b: bool)
    ensures
        b == backend_enabled,
{
    backend_enabled
}

pub fn gpu_init() -> (r: GpuResult<()>)
    ensures
        not_available(r),
{
    Err(unavailable())
}

pub fn gpu_sync() -> (r: GpuResult<()>)
    ensures
        not_available(r),
{
    Err(unavailable())
}

pub fn gpu_stream_create() -> (r: GpuResult<CudaStream>)
    ensures
        not_available(r),
{
    Err(unavailable())
}

pub fn gpu_stream_destroy(_stream: CudaStream) -> (r: GpuResult<()>)
    ensures
        not_available(r),
{
    Err(unavailable())
}

pub fn gpu_stream_synchronize(_stream: CudaStream) -> (r: GpuResult<()>)
    ensures
        not_available(r),
{
    Err(unavailable())
}

pub fn gpu_event_create() -> (r: GpuResult<CudaEvent>)
    ensures
        not_available(r),
{
    Err(unavailable())
}

pub fn gpu_event_destroy(_event: CudaEvent) -> (r: GpuResult<()>)
    ensures
        not_available(r),
{
    Err(unavailable())
}

/// Records an event on the stream at the given address.
pub fn gpu_event_record(_event: CudaEvent, _stream: u64) -> (r: GpuResult<()>)
    ensures
        not_available(r),
{
    Err(unavailable())
}

pub fn gpu_event_synchronize(_event: CudaEvent) -> (r: GpuResult<()>)
    ensures
        not_available(r),
{
    Err(unavailable())
}

/// Frees the weights at the given address.
pub fn gpu_free_weights(_address: u64) -> (r: GpuResult<()>)
    ensures
        not_available(r),
{
    Err(unavailable())
}

} // verus!
