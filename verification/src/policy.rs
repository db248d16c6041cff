//! What is made of the answers of a policy script, and of its requests.

use crate::control_plane::{Command, CommitCmd, ResourceHandle, TensorCreateCmd};
use crate::hma::DType;
use crate::text;
use vstd::prelude::*;

verus! {

/// Threads that a policy may ask for.
pub const MAX_POLICY_THREADS: i64 = 6;

pub const MIN_BATCH: i64 = 8;

pub const MAX_BATCH: i64 = 2048;

/// Batch size without a policy.
pub const DEFAULT_BATCH: usize = 512;

/// What calling a function of the script gave.
#[derive(Debug, Clone, Copy, PartialEq, Eq, Structural)]
pub enum PolicyReply<T> {
    /// The script has no such function.
    Missing,
    Failed,
    Value(T),
}

pub open spec fn clamped(n: int, low: int, high: int) -> int {
    if n < low {
        low
    } else if n > high {
        high
    } else {
        n
    }
}

/// The thread count: what the policy says, between one and six, or the
/// fallback.
pub fn adapt_threads(reply: PolicyReply<i64>, fallback: usize) -> (n: usize)
    ensures
        n == (match reply {
            PolicyReply::Value(v) => clamped(v as int, 1, MAX_POLICY_THREADS as int),
            _ => fallback as int,
        }),
{
    match reply {
        PolicyReply::Value(v) => if v < 1 {
            1
        } else if v > MAX_POLICY_THREADS {
            6
        } else {
            v as usize
        },
        _ => fallback,
    }
}

/// Whether to skip a layer: only if the policy says so.
pub fn should_skip_layer(reply: PolicyReply<bool>) -> (b: bool)
    ensures
        b == (reply == PolicyReply::Value(true)),
{
    match reply {
        PolicyReply::Value(skip) => skip,
        _ => false,
    }
}

/// The batch size: what the policy says, between the bounds, or the default.
pub fn suggested_batch_size(reply: PolicyReply<i64>) -> (n: usize)
    ensures
        n == (match reply {
            PolicyReply::Value(v) => clamped(v as int, MIN_BATCH as int, MAX_BATCH as int),
            _ => DEFAULT_BATCH as int,
        }),
{
    match reply {
        PolicyReply::Value(v) => if v < MIN_BATCH {
            8
        } else if v > MAX_BATCH {
            2048
        } else {
            v as usize
        },
        _ => DEFAULT_BATCH,
    }
}

/// Whether a script has to be loaded again: it has a path, and it changed
/// after the last load.
pub fn reload_due(has_path: bool, modified_ns: Option<i64>, last_load_ns: i64) -> (b: bool)
    ensures
        b == (has_path && (modified_ns matches Some(m) && m > last_load_ns)),
{
    match modified_ns {
        Some(m) => has_path && m > last_load_ns,
        None => false,
    }
}

/// The element type with a name; unknown names mean singles.
pub open spec fn named_dtype(name: Seq<u8>) -> DType {
    if name == seq![102u8, 49, 54] {
        DType::F16
    } else if name == seq![113u8, 52, 107] {
        DType::Q4K
    } else if name == seq![113u8, 54, 107] {
        DType::Q6K
    } else {
        DType::F32
    }
}

pub fn parse_dtype(name: &[u8]) -> (d: DType)
    ensures
        d == named_dtype(name@),
{
    let f16_name: [u8; 3] = [102, 49, 54];
    let q4k_name: [u8; 3] = [113, 52, 107];
    let q6k_name: [u8; 3] = [113, 54, 107];
    assert(f16_name@ =~= seq![102u8, 49, 54]);
    assert(q4k_name@ =~= seq![113u8, 52, 107]);
    assert(q6k_name@ =~= seq![113u8, 54, 107]);
    if text::same_bytes(name, &f16_name) {
        DType::F16
    } else if text::same_bytes(name, &q4k_name) {
        DType::Q4K
    } else if text::same_bytes(name, &q6k_name) {
        DType::Q6K
    } else {
        DType::F32
    }
}

/// The number of an element type in a command.
pub open spec fn dtype_code(d: DType) -> u32 {
    match d {
        DType::F32 => 0,
        DType::F16 => 1,
        DType::Q4K => 2,
        DType::Q6K => 3,
    }
}

/// The command by which a script makes a tensor: its first four extents,
/// with the count of all.
pub fn create_command(shape: &[usize], dtype_name: &[u8], handle: ResourceHandle) -> (c: Command)
    ensures
        c matches Command::TensorCreate(t) && {
            &&& t.tag == 1
            &&& t.id == handle.0
            &&& t.ndim == shape@.len() % 0x1_0000_0000
            &&& t.dtype == dtype_code(named_dtype(dtype_name@))
            &&& t.location == 0
            &&& t.dims@ == Seq::new(
                4,
                |i: int|
                    if i < shape@.len() {
                        shape@[i]
                    } else {
                        0usize
                    },
            )
        },
{
    let mut dims: [usize; 4] = [0, 0, 0, 0];
    let mut i: usize = 0;
    while i < 4 && i < shape.len()
        invariant
            i <= 4,
            i <= shape@.len(),
            dims@.len() == 4,
            forall|k: int|
                0 <= k < 4 ==> (#[trigger] dims@[k]) == (if k < i {
                    shape@[k]
                } else {
                    0usize
                }),
        decreases 4 - i,
    {
        dims[i] = shape[i];
        i = i + 1;
    }
    let code: u32 = match parse_dtype(dtype_name) {
        DType::F32 => 0,
        DType::F16 => 1,
        DType::Q4K => 2,
        DType::Q6K => 3,
    };
    let ndim: u32 = (shape.len() as u64 % 0x1_0000_0000) as u32;
    assert(dims@ =~= Seq::new(
        4,
        |i: int|
            if i < shape@.len() {
                shape@[i]
            } else {
                0usize
            },
    ));
    Command::TensorCreate(
        TensorCreateCmd { tag: 1, id: handle.0, dims, ndim, dtype: code, location: 0, _pad: 0 },
    )
}

/// The command by which a script commits a frame.
pub fn commit_command(frame_id: u64, timestamp: u64) -> (c: Command)
    ensures
        c matches Command::Commit(t) && t.tag == 6 && t.frame_id == frame_id && t.timestamp
            == timestamp,
{
    Command::Commit(CommitCmd { tag: 6, frame_id, timestamp, _pad: 0 })
}

/// What a policy asks for is taken as near as the bounds allow.
pub proof fn law_bounds_take_the_nearest(n: int, low: int, high: int, m: int)
    requires
        low <= m <= high,
    ensures
        low <= clamped(n, low, high) <= high,
        clamped(m, low, high) == m,
        n <= m ==> clamped(n, low, high) <= m,
        n >= m ==> clamped(n, low, high) >= m,
{
}

/// Element types have three names besides that of singles, and numbers of their own.
pub proof fn law_names_tell_types_apart(name: Seq<u8>, a: DType, b: DType)
    ensures
        named_dtype(name) == DType::F16 <==> name == seq![102u8, 49, 54],
        named_dtype(name) == DType::Q4K <==> name == seq![113u8, 52, 107],
        named_dtype(name) == DType::Q6K <==> name == seq![113u8, 54, 107],
        dtype_code(a) == dtype_code(b) <==> a == b,
        dtype_code(a) <= 3,
{
    let f = seq![102u8, 49, 54];
    let q4 = seq![113u8, 52, 107];
    let q6 = seq![113u8, 54, 107];
    assert(f[0] != q4[0] && f[0] != q6[0] && q4[1] != q6[1]);
}

} // verus!
