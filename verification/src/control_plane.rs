//! Commands for the device side, their queue, and the resources they name.

use crate::hma::{next_number, take_number, DType, MemoryLocation};
use std::collections::HashMap;
use std::collections::VecDeque;
use vstd::prelude::*;

verus! {

broadcast use vstd::std_specs::hash::group_hash_axioms;

#[derive(Debug, Clone, Copy, PartialEq, Eq, Structural)]
pub enum CommandTag {
    TensorCreate,
    TensorUpload,
    TensorDownload,
    TensorFree,
    KernelDispatch,
    Commit,
    Shutdown,
}

impl CommandTag {
    pub open spec fn spec_code(self) -> u64 {
        match self {
            CommandTag::TensorCreate => 1,
            CommandTag::TensorUpload => 2,
            CommandTag::TensorDownload => 3,
            CommandTag::TensorFree => 4,
            CommandTag::KernelDispatch => 5,
            CommandTag::Commit => 6,
            CommandTag::Shutdown => 7,
        }
    }

    /// The number of the tag in a command.
    pub fn code(&self) -> (c: u64)
        ensures
            c == self.spec_code(),
    {
        match self {
            CommandTag::TensorCreate => 1,
            CommandTag::TensorUpload => 2,
            CommandTag::TensorDownload => 3,
            CommandTag::TensorFree => 4,
            CommandTag::KernelDispatch => 5,
            CommandTag::Commit => 6,
            CommandTag::Shutdown => 7,
        }
    }
}

#[derive(Debug, Clone, Copy, PartialEq, Eq, Structural)]
pub enum KernelType {
    GEMVQ4K,
    Attention,
    RMSNorm,
    RoPE,
    SiLUMul,
    Add,
}

impl KernelType {
    pub open spec fn spec_code(self) -> u64 {
        match self {
            KernelType::GEMVQ4K => 0,
            KernelType::Attention => 1,
            KernelType::RMSNorm => 2,
            KernelType::RoPE => 3,
            KernelType::SiLUMul => 4,
            KernelType::Add => 5,
        }
    }

    /// The number of the kernel in a command.
    pub fn code(&self) -> (c: u64)
        ensures
            c == self.spec_code(),
    {
        match self {
            KernelType::GEMVQ4K => 0,
            KernelType::Attention => 1,
            KernelType::RMSNorm => 2,
            KernelType::RoPE => 3,
            KernelType::SiLUMul => 4,
            KernelType::Add => 5,
        }
    }
}

#[derive(Debug, Clone, Copy)]
pub struct TensorCreateCmd {
    pub tag: u64,
    pub id: u64,
    pub dims: [usize; 4],
    pub ndim: u32,
    pub dtype: u32,
    pub location: u32,
    pub _pad: u32,
}

#[derive(Debug, Clone, Copy)]
pub struct TensorUploadCmd {
    pub tag: u64,
    pub id: u64,
    pub offset: u64,
    pub len: u64,
}

#[derive(Debug, Clone, Copy)]
pub struct TensorDownloadCmd {
    pub tag: u64,
    pub id: u64,
    pub offset: u64,
    pub len: u64,
}

#[derive(Debug, Clone, Copy)]
pub struct TensorFreeCmd {
    pub tag: u64,
    pub id: u64,
    pub _pad: [u64; 2],
}

#[derive(Debug, Clone, Copy)]
pub struct KernelDispatchCmd {
    pub tag: u64,
    pub kernel_type: u64,
    pub kernel_id: u64,
    pub input_ids: [u64; 4],
    pub output_ids: [u64; 2],
    pub n_inputs: u32,
    pub n_outputs: u32,
    pub _pad: u32,
    pub push0: u32,
    pub push1: u32,
    pub push2: u32,
    pub push3: u32,
    pub push4: u32,
    pub push5: u32,
    pub push6: u32,
    pub push7: u32,
}

#[derive(Debug, Clone, Copy)]
pub struct CommitCmd {
    pub tag: u64,
    pub frame_id: u64,
    pub timestamp: u64,
    pub _pad: u64,
}

#[derive(Debug, Clone, Copy)]
pub struct ShutdownCmd {
    pub tag: u64,
    pub _pad: [u64; 3],
}

#[derive(Debug, Clone, Copy)]
pub enum Command {
    TensorCreate(TensorCreateCmd),
    TensorUpload(TensorUploadCmd),
    TensorDownload(TensorDownloadCmd),
    TensorFree(TensorFreeCmd),
    KernelDispatch(KernelDispatchCmd),
    Commit(CommitCmd),
    Shutdown(ShutdownCmd),
}

/// Names a resource; zero names none.
#[derive(Debug, Clone, Copy, PartialEq, Eq, Structural, Hash)]
pub struct ResourceHandle(pub u64);

impl ResourceHandle {
    /// A fresh handle out of the counter, which starts at one.
    pub fn new(counter: &mut u64) -> (h: Self)
        ensures
            h.0 == *old(counter),
            *final(counter) == next_number(*old(counter)),
    {
        ResourceHandle(take_number(counter))
    }

    pub fn null() -> (h: Self)
        ensures
            h.0 == 0,
    {
        ResourceHandle(0)
    }

    pub fn is_null(&self) -> (b: bool)
        ensures
            b == (self.0 == 0),
    {
        self.0 == 0
    }
}

/// Commands in order, with the frames that were committed and not taken.
pub struct CommandQueue {
    pub commands: VecDeque<Command>,
    pub pending: u64,
}

/// One frame less, as the counter counts.
pub open spec fn less_one(pending: u64) -> u64 {
    if pending == 0 {
        u64::MAX
    } else {
        (pending - 1) as u64
    }
}

/// Where the next frame batch ends, and the frames pending then: behind the
/// commit that leaves none pending, else at the end of the queue.
pub open spec fn frame_end(commands: Seq<Command>, pending: u64, i: int) -> (int, u64)
    decreases commands.len() - i,
{
    if i >= commands.len() {
        (i, pending)
    } else if commands[i] is Commit {
        if pending == 1 {
            (i + 1, 0u64)
        } else {
            frame_end(commands, less_one(pending), i + 1)
        }
    } else {
        frame_end(commands, pending, i + 1)
    }
}

/// Commits among the first `n` commands.
pub open spec fn commits(commands: Seq<Command>, n: int) -> int
    decreases n,
{
    if n <= 0 {
        0
    } else {
        commits(commands, n - 1) + (if commands[n - 1] is Commit {
            1int
        } else {
            0int
        })
    }
}

impl CommandQueue {
    pub fn new() -> (q: Self)
        ensures
            q.commands@ == Seq::<Command>::empty(),
            q.pending == 0,
    {
        CommandQueue { commands: VecDeque::new(), pending: 0 }
    }

    /// Appends a command; a commit makes one more frame pending.
    pub fn push(&mut self, cmd: Command)
        ensures
            final(self).commands@ == old(self).commands@.push(cmd),
            final(self).pending == (if cmd is Commit {
                next_number(old(self).pending)
            } else {
                old(self).pending
            }),
    {
        if let Command::Commit(_) = &cmd {
            let _ = take_number(&mut self.pending);
        }
        self.commands.push_back(cmd);
    }

    /// Takes all commands; the count of pending frames stays.
    pub fn pop_all(&mut self) -> (batch: Vec<Command>)
        ensures
            batch@ == old(self).commands@,
            final(self).commands@ == Seq::<Command>::empty(),
            final(self).pending == old(self).pending,
    {
        let ghost all = self.commands@;
        let mut batch: Vec<Command> = Vec::new();
        assert(all.skip(0) =~= all);
        while self.commands.len() > 0
            invariant
                batch@.len() + self.commands@.len() == all.len(),
                batch@ == all.take(batch@.len() as int),
                self.commands@ == all.skip(batch@.len() as int),
                self.pending == old(self).pending,
            decreases self.commands@.len(),
        {
            let ghost n = batch@.len() as int;
            if let Some(cmd) = self.commands.pop_front() {
                assert(cmd == all[n]);
                batch.push(cmd);
                assert(all.take(n + 1) =~= all.take(n).push(all[n]));
                assert(all.skip(n + 1) =~= all.skip(n).subrange(1, all.skip(n).len() as int));
            }
        }
        assert(batch@ =~= all);
        batch
    }

    pub fn pending_frames(&self) -> (n: u64)
        ensures
            n == self.pending,
    {
        self.pending
    }

    /// Takes the commands of the committed frames.
    pub fn pop_frame_batch(&mut self) -> (batch: Vec<Command>)
        ensures
            ({
                let end = frame_end(old(self).commands@, old(self).pending, 0);
                &&& 0 <= end.0 <= old(self).commands@.len()
                &&& batch@ == old(self).commands@.take(end.0)
                &&& final(self).commands@ == old(self).commands@.skip(end.0)
                &&& final(self).pending == end.1
            }),
    {
        let ghost all = self.commands@;
        let ghost pending0 = self.pending;
        let mut batch: Vec<Command> = Vec::new();
        assert(all.skip(0) =~= all);
        assert(all.take(0) =~= Seq::empty());
        while self.commands.len() > 0
            invariant
                batch@.len() + self.commands@.len() == all.len(),
                batch@ == all.take(batch@.len() as int),
                self.commands@ == all.skip(batch@.len() as int),
                all == old(self).commands@,
                pending0 == old(self).pending,
                frame_end(all, pending0, 0) == frame_end(all, self.pending, batch@.len() as int),
            decreases self.commands@.len(),
        {
            let ghost n = batch@.len() as int;
            if let Some(cmd) = self.commands.pop_front() {
                assert(cmd == all[n]);
                batch.push(cmd);
                assert(all.take(n + 1) =~= all.take(n).push(all[n]));
                assert(all.skip(n + 1) =~= all.skip(n).subrange(1, all.skip(n).len() as int));
                if let Command::Commit(_) = &cmd {
                    if self.pending == 1 {
                        self.pending = 0;
                        return batch;
                    }
                    self.pending = if self.pending == 0 {
                        0xffff_ffff_ffff_ffff
                    } else {
                        self.pending - 1
                    };
                }
            }
        }
        batch
    }

    /// The end of the queue itself, for appending without counting frames.
    pub fn sender(&mut self) -> (r: &mut VecDeque<Command>)
        ensures
            *r == old(self).commands,
            final(self).commands == *final(r),
            final(self).pending == old(self).pending,
    {
        &mut self.commands
    }
}

/// Where as many frames are pending as commits are queued, a frame batch
/// ends with the last commit and leaves none pending.
pub proof fn law_frame_batch_takes_committed_frames(commands: Seq<Command>, pending: u64)
    requires
        pending > 0,
        commits(commands, commands.len() as int) == pending,
    ensures
        ({
            let end = frame_end(commands, pending, 0);
            &&& 0 < end.0 <= commands.len()
            &&& commands[end.0 - 1] is Commit
            &&& commits(commands, end.0) == pending
            &&& end.1 == 0
        }),
{
    lemma_frame_end(commands, pending, 0);
}

proof fn lemma_frame_end(commands: Seq<Command>, pending: u64, i: int)
    requires
        pending > 0,
        0 <= i <= commands.len(),
        commits(commands, commands.len() as int) - commits(commands, i) == pending,
    ensures
        ({
            let end = frame_end(commands, pending, i);
            &&& i < end.0 <= commands.len()
            &&& commands[end.0 - 1] is Commit
            &&& commits(commands, end.0) - commits(commands, i) == pending
            &&& end.1 == 0
        }),
    decreases commands.len() - i,
{
    if i < commands.len() {
        assert(commits(commands, i + 1) == commits(commands, i) + (if commands[i] is Commit {
            1int
        } else {
            0int
        }));
        if commands[i] is Commit {
            if pending != 1 {
                lemma_frame_end(commands, less_one(pending), i + 1);
            }
        } else {
            lemma_frame_end(commands, pending, i + 1);
        }
    }
}

/// What a handle stands for.
#[derive(Debug, Clone)]
pub enum OpaqueResource {
    Tensor {
        id: u64,
        shape: Vec<usize>,
        dtype: DType,
        location: MemoryLocation,
        byte_size: usize,
        device_handle: u64,
    },
    Kernel { name: String },
}

/// A resource as the contracts see it.
#[verifier::ext_equal]
pub enum ResourceView {
    Tensor {
        id: u64,
        shape: Seq<usize>,
        dtype: DType,
        location: MemoryLocation,
        byte_size: usize,
        device_handle: u64,
    },
    Kernel { name: Seq<char> },
}

impl View for OpaqueResource {
    type V = ResourceView;

    open spec fn view(&self) -> ResourceView {
        match self {
            OpaqueResource::Tensor { id, shape, dtype, location, byte_size, device_handle } =>
                ResourceView::Tensor {
                id: *id,
                shape: shape@,
                dtype: *dtype,
                location: *location,
                byte_size: *byte_size,
                device_handle: *device_handle,
            },
            OpaqueResource::Kernel { name } => ResourceView::Kernel { name: name@ },
        }
    }
}

/// Resources by handle.
pub struct OpaqueHandleStore {
    handles: HashMap<u64, OpaqueResource>,
}

impl View for OpaqueHandleStore {
    type V = Map<u64, ResourceView>;

    closed spec fn view(&self) -> Map<u64, ResourceView> {
        self.handles@.map_values(|r: OpaqueResource| r@)
    }
}

impl OpaqueHandleStore {
    pub fn new() -> (s: Self)
        ensures
            s@ == Map::<u64, ResourceView>::empty(),
    {
        let s = OpaqueHandleStore { handles: HashMap::new() };
        assert(s@ =~= Map::<u64, ResourceView>::empty());
        s
    }

    /// Puts a resource under a handle, in place of what was there.
    pub fn register(&mut self, handle: ResourceHandle, resource: OpaqueResource)
        ensures
            final(self)@ == old(self)@.insert(handle.0, resource@),
    {
        let ghost before = self@;
        self.handles.insert(handle.0, resource);
        assert(self@ =~= before.insert(handle.0, resource@));
    }

    pub fn get(&self, handle: ResourceHandle) -> (r: Option<&OpaqueResource>)
        ensures
            match r {
                Some(x) => self@.dom().contains(handle.0) && x@ == self@[handle.0],
                None => !self@.dom().contains(handle.0),
            },
    {
        self.handles.get(&handle.0)
    }

    pub fn remove(&mut self, handle: ResourceHandle) -> (r: Option<OpaqueResource>)
        ensures
            final(self)@ == old(self)@.remove(handle.0),
            match r {
                Some(x) => old(self)@.dom().contains(handle.0) && x@ == old(self)@[handle.0],
                None => !old(self)@.dom().contains(handle.0),
            },
    {
        let ghost before = self@;
        let r = self.handles.remove(&handle.0);
        assert(self@ =~= before.remove(handle.0));
        r
    }
}

/// Tags and kernels have numbers of their own: one to seven, and zero to five.
pub proof fn law_codes_tell_commands_apart(
    a: CommandTag,
    b: CommandTag,
    k: KernelType,
    l: KernelType,
)
    ensures
        1 <= a.spec_code() <= 7,
        a.spec_code() == b.spec_code() ==> a == b,
        k.spec_code() <= 5,
        k.spec_code() == l.spec_code() ==> k == l,
        a.spec_code() < 5 <==> a is TensorCreate || a is TensorUpload || a is TensorDownload
            || a is TensorFree,
        a is TensorCreate ==> a.spec_code() == 1,
        a is TensorUpload ==> a.spec_code() == 2,
        a is TensorDownload ==> a.spec_code() == 3,
        a is KernelDispatch ==> a.spec_code() == 5,
        a is Commit ==> a.spec_code() == 6,
        k is GEMVQ4K ==> k.spec_code() == 0,
        k is Attention ==> k.spec_code() == 1,
        k is RMSNorm ==> k.spec_code() == 2,
        k is RoPE ==> k.spec_code() == 3,
        k is SiLUMul ==> k.spec_code() == 4,
{
}

/// A frame batch holds exactly as many commits as frames are pending, if there are as
/// many, and ends with the last of them: frames that are not pending stay in the queue.
pub proof fn law_frame_batch_ends_with_the_pending_frames(commands: Seq<Command>, pending: u64)
    requires
        pending > 0,
        commits(commands, commands.len() as int) >= pending,
    ensures
        ({
            let end = frame_end(commands, pending, 0);
            &&& 0 < end.0 <= commands.len()
            &&& commands[end.0 - 1] is Commit
            &&& commits(commands, end.0) == pending
            &&& end.1 == 0
        }),
{
    lemma_frames_end(commands, pending, 0);
}

proof fn lemma_frames_end(commands: Seq<Command>, pending: u64, i: int)
    requires
        pending > 0,
        0 <= i <= commands.len(),
        commits(commands, commands.len() as int) - commits(commands, i) >= pending,
    ensures
        ({
            let end = frame_end(commands, pending, i);
            &&& i < end.0 <= commands.len()
            &&& commands[end.0 - 1] is Commit
            &&& commits(commands, end.0) - commits(commands, i) == pending
            &&& end.1 == 0
        }),
    decreases commands.len() - i,
{
    if i < commands.len() {
        assert(commits(commands, i + 1) == commits(commands, i) + (if commands[i] is Commit {
            1int
        } else {
            0int
        }));
        if commands[i] is Commit {
            if pending != 1 {
                lemma_frames_end(commands, less_one(pending), i + 1);
            }
        } else {
            lemma_frames_end(commands, pending, i + 1);
        }
    }
}

/// Without enough commits the batch takes the whole queue, and as many frames stay
/// pending as commits were missing.
pub proof fn law_short_queue_is_taken_whole(commands: Seq<Command>, pending: u64, i: int)
    requires
        0 <= i <= commands.len(),
        commits(commands, commands.len() as int) - commits(commands, i) < pending,
    ensures
        frame_end(commands, pending, i).0 == commands.len(),
        frame_end(commands, pending, i).1 == pending - (commits(commands, commands.len() as int)
            - commits(commands, i)),
    decreases commands.len() - i,
{
    if i < commands.len() {
        assert(commits(commands, i + 1) == commits(commands, i) + (if commands[i] is Commit {
            1int
        } else {
            0int
        }));
        lemma_commits_grow(commands, i + 1, commands.len() as int);
        if commands[i] is Commit {
            law_short_queue_is_taken_whole(commands, less_one(pending), i + 1);
        } else {
            law_short_queue_is_taken_whole(commands, pending, i + 1);
        }
    }
}

proof fn lemma_commits_grow(commands: Seq<Command>, a: int, b: int)
    requires
        0 <= a <= b <= commands.len(),
    ensures
        commits(commands, a) <= commits(commands, b),
    decreases b - a,
{
    if a < b {
        lemma_commits_grow(commands, a, b - 1);
    }
}

} // verus!
