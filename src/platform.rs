//! The process context: environment bootstrap, the allocator hooks, the
//! service calls routed through the descriptor's slots, and exit control.
use vstd::prelude::*;
use crate::services::{
    decodes_to, platform_data, word_of, PlatformData, DESCRIPTOR_LEN, ENV_FLAGS_NATIVE,
    ENV_FLAGS_NO_EXIT, ENV_ID_LINUX, ENV_ID_WINDOWS, NUM_SLOTS, SLOT_ALLOC, SLOT_ALLOC_ZEROED,
    SLOT_DEALLOC, SLOT_READ_STDIO, SLOT_REALLOC, SLOT_WRITE_STDIO,
};

verus! {

/// What the binary was built for. A WebAssembly build carries the addresses
/// of the host's stdio intrinsics, which its bootstrap installs as services.
#[derive(Clone, Copy, Debug, PartialEq, Eq)]
pub enum Target {
    Native,
    Wasm32 { read_stdio: u64, write_stdio: u64 },
}

/// The host environment the process runs in.
#[derive(Clone, Copy, Debug, PartialEq, Eq)]
pub enum Env {
    Unknown,
    Windows,
    Linux,
    WebAssembly,
}

/// One allocator entry point.
#[derive(Clone, Copy, Debug, PartialEq, Eq)]
pub enum Hook {
    /// The loader's function at this address.
    Slot(u64),
    /// The Windows heap, reached through the native library resolver.
    Windows,
    /// Direct kernel calls.
    Linux,
    /// The self-contained fallback allocator.
    Fallback,
}

/// The four allocator entry points.
#[derive(Clone, Copy, Debug, PartialEq, Eq)]
pub struct AllocatorHooks {
    pub alloc: Hook,
    pub alloc_zeroed: Hook,
    pub dealloc: Hook,
    pub realloc: Hook,
}

/// A call through a service slot, for the caller to make with the host's
/// calling convention.
#[derive(Clone, Copy, Debug, PartialEq, Eq)]
pub enum ServiceCall {
    Alloc { addr: u64, size: usize, align: usize },
    AllocZeroed { addr: u64, size: usize, align: usize },
    Dealloc { addr: u64, ptr: usize, size: usize, align: usize },
    Realloc { addr: u64, ptr: usize, old_size: usize, old_align: usize, new_size: usize },
    ReadStdio { addr: u64, fd: usize, len: usize },
    WriteStdio { addr: u64, fd: usize, len: usize },
}

/// What `try_exit` asks of the caller.
#[derive(Clone, Copy, Debug, PartialEq, Eq)]
pub enum ExitAction {
    /// Terminate the process with this status; control does not come back.
    Terminate(i32),
    /// Return normally, so that a host epilogue can run.
    Continue,
}

/// The environment that an identifier names on a given target.
pub open spec fn env_spec(env_id: u64, target: Target) -> Env {
    match target {
        Target::Wasm32 { .. } => Env::WebAssembly,
        Target::Native => if env_id == ENV_ID_WINDOWS {
            Env::Windows
        } else if env_id == ENV_ID_LINUX {
            Env::Linux
        } else {
            Env::Unknown
        },
    }
}

/// Detects the environment from the descriptor's identifier and the target.
pub fn env_of(env_id: u64, target: Target) -> (r: Env)
    ensures
        r == env_spec(env_id, target),
{
    match target {
        Target::Wasm32 { .. } => Env::WebAssembly,
        Target::Native => {
            if env_id == ENV_ID_WINDOWS {
                Env::Windows
            } else if env_id == ENV_ID_LINUX {
                Env::Linux
            } else {
                Env::Unknown
            }
        },
    }
}

/// The hooks that bootstrap installs in an environment, given the slot table
/// the loader supplied.
pub open spec fn boot_hooks(env: Env, table: [u64; 7]) -> AllocatorHooks {
    match env {
        Env::Windows => AllocatorHooks {
            alloc: Hook::Windows,
            alloc_zeroed: Hook::Windows,
            dealloc: Hook::Windows,
            realloc: Hook::Windows,
        },
        Env::Linux => AllocatorHooks {
            alloc: Hook::Linux,
            alloc_zeroed: Hook::Linux,
            dealloc: Hook::Linux,
            realloc: Hook::Linux,
        },
        Env::WebAssembly => AllocatorHooks {
            alloc: Hook::Fallback,
            alloc_zeroed: Hook::Fallback,
            dealloc: Hook::Fallback,
            realloc: Hook::Fallback,
        },
        Env::Unknown => AllocatorHooks {
            alloc: Hook::Slot(table@[1]),
            alloc_zeroed: Hook::Slot(table@[2]),
            dealloc: Hook::Slot(table@[3]),
            realloc: Hook::Slot(table@[4]),
        },
    }
}

/// A hook can be called: it is not a null address.
pub open spec fn hook_ready(h: Hook) -> bool {
    match h {
        Hook::Slot(addr) => addr != 0,
        _ => true,
    }
}

/// All four hooks can be called.
pub open spec fn hooks_ready(h: AllocatorHooks) -> bool {
    hook_ready(h.alloc) && hook_ready(h.alloc_zeroed) && hook_ready(h.dealloc) && hook_ready(
        h.realloc,
    )
}

/// The loader supplied all four allocator services in the descriptor `b`.
pub open spec fn loader_supplies_allocator(b: Seq<u8>) -> bool {
    forall|k: int| 1 <= k <= 4 ==> #[trigger] word_of(b, 7 + k) != 0
}

/// The slot table after bootstrap: a WebAssembly build puts the host's
/// stdio intrinsics in the stdio slots; other builds keep the loader's table.
pub open spec fn boot_table(table: [u64; 7], target: Target) -> Seq<u64> {
    match target {
        Target::Wasm32 { read_stdio, write_stdio } => table@.update(
            SLOT_READ_STDIO as int,
            read_stdio,
        ).update(SLOT_WRITE_STDIO as int, write_stdio),
        Target::Native => table@,
    }
}

/// The process context: the installed descriptor, the allocator hooks once
/// they are installed, and the exit status.
pub struct Runtime {
    pd: PlatformData,
    target: Target,
    hooks: Option<AllocatorHooks>,
    exit_code: i32,
}

impl Runtime {
    pub closed spec fn data(&self) -> PlatformData {
        self.pd
    }

    pub closed spec fn build_target(&self) -> Target {
        self.target
    }

    pub closed spec fn installed_hooks(&self) -> Option<AllocatorHooks> {
        self.hooks
    }

    pub closed spec fn exit_status(&self) -> i32 {
        self.exit_code
    }

    /// Installs the descriptor: the context reads it from here on. No hook
    /// is installed yet and the exit status is zero.
    pub fn install(descriptor: &[u8], target: Target) -> (r: Runtime)
        requires
            descriptor@.len() >= DESCRIPTOR_LEN,
        ensures
            decodes_to(descriptor@, r.data()),
            r.build_target() == target,
            r.installed_hooks() is None,
            r.exit_status() == 0,
    {
        Runtime { pd: platform_data(descriptor), target, hooks: None, exit_code: 0 }
    }

    /// Overwrites service slot `fn_id` with `fn_ptr`.
    pub fn install_single_service(&mut self, fn_id: usize, fn_ptr: u64)
        requires
            fn_id < NUM_SLOTS,
        ensures
            final(self).data().fn_table@ == old(self).data().fn_table@.update(fn_id as int, fn_ptr),
            final(self).data().env_id == old(self).data().env_id,
            final(self).data().env_flags == old(self).data().env_flags,
            final(self).build_target() == old(self).build_target(),
            final(self).installed_hooks() == old(self).installed_hooks(),
            final(self).exit_status() == old(self).exit_status(),
    {
        self.pd.fn_table.set(fn_id, fn_ptr);
    }

    /// The function address in slot `fn_id`.
    pub fn addr(&self, fn_id: usize) -> (r: u64)
        requires
            fn_id < NUM_SLOTS,
        ensures
            r == self.data().fn_table@[fn_id as int],
    {
        self.pd.fn_table[fn_id]
    }

    /// A copy of the installed descriptor record.
    pub fn platform_data(&self) -> (r: PlatformData)
        ensures
            r == self.data(),
    {
        self.pd
    }

    /// Replaces the allocator hooks; this happens once per process.
    pub fn install_malloc_impl(&mut self, hooks: AllocatorHooks)
        requires
            old(self).installed_hooks() is None,
        ensures
            final(self).installed_hooks() == Some(hooks),
            final(self).data() == old(self).data(),
            final(self).build_target() == old(self).build_target(),
            final(self).exit_status() == old(self).exit_status(),
    {
        self.hooks = Some(hooks);
    }

    /// The installed allocator hooks, if bootstrap has run.
    pub fn malloc_impl(&self) -> (r: Option<AllocatorHooks>)
        ensures
            r == self.installed_hooks(),
    {
        self.hooks
    }

    /// The exit status; zero until set.
    pub fn get_exit_status(&self) -> (r: i32)
        ensures
            r == self.exit_status(),
    {
        self.exit_code
    }

    /// Sets the exit status; the last write wins.
    pub fn set_exit_status(&mut self, code: i32)
        ensures
            final(self).exit_status() == code,
            final(self).data() == old(self).data(),
            final(self).build_target() == old(self).build_target(),
            final(self).installed_hooks() == old(self).installed_hooks(),
    {
        self.exit_code = code;
    }

    /// The call to the allocate service.
    pub fn service_alloc(&self, size: usize, align: usize) -> (r: ServiceCall)
        ensures
            r == (ServiceCall::Alloc { addr: self.data().fn_table@[SLOT_ALLOC as int], size, align }),
    {
        ServiceCall::Alloc { addr: self.pd.fn_table[SLOT_ALLOC], size, align }
    }

    /// The call to the allocate-zeroed service.
    pub fn alloc_zeroed(&self, size: usize, align: usize) -> (r: ServiceCall)
        ensures
            r == (ServiceCall::AllocZeroed {
                addr: self.data().fn_table@[SLOT_ALLOC_ZEROED as int],
                size,
                align,
            }),
    {
        ServiceCall::AllocZeroed { addr: self.pd.fn_table[SLOT_ALLOC_ZEROED], size, align }
    }

    /// The call to the deallocate service.
    pub fn dealloc(&self, ptr: usize, size: usize, align: usize) -> (r: ServiceCall)
        ensures
            r == (ServiceCall::Dealloc {
                addr: self.data().fn_table@[SLOT_DEALLOC as int],
                ptr,
                size,
                align,
            }),
    {
        ServiceCall::Dealloc { addr: self.pd.fn_table[SLOT_DEALLOC], ptr, size, align }
    }

    /// The call to the reallocate service.
    pub fn realloc(&self, ptr: usize, old_size: usize, old_align: usize, new_size: usize) -> (r:
        ServiceCall)
        ensures
            r == (ServiceCall::Realloc {
                addr: self.data().fn_table@[SLOT_REALLOC as int],
                ptr,
                old_size,
                old_align,
                new_size,
            }),
    {
        ServiceCall::Realloc {
            addr: self.pd.fn_table[SLOT_REALLOC],
            ptr,
            old_size,
            old_align,
            new_size,
        }
    }

    /// The call that reads up to `len` bytes from stream `fd`.
    pub fn read_stdio(&self, fd: usize, len: usize) -> (r: ServiceCall)
        ensures
            r == (ServiceCall::ReadStdio {
                addr: self.data().fn_table@[SLOT_READ_STDIO as int],
                fd,
                len,
            }),
    {
        ServiceCall::ReadStdio { addr: self.pd.fn_table[SLOT_READ_STDIO], fd, len }
    }

    /// The call that writes `len` bytes to stream `fd`.
    pub fn write_stdio(&self, fd: usize, len: usize) -> (r: ServiceCall)
        ensures
            r == (ServiceCall::WriteStdio {
                addr: self.data().fn_table@[SLOT_WRITE_STDIO as int],
                fd,
                len,
            }),
    {
        ServiceCall::WriteStdio { addr: self.pd.fn_table[SLOT_WRITE_STDIO], fd, len }
    }
}

/// Bootstraps the process from the loader's descriptor: installs it, detects
/// the environment, installs the allocator hooks of that environment, and on
/// a WebAssembly build puts the host's stdio intrinsics in the stdio slots.
pub fn init(descriptor: &[u8], target: Target) -> (r: Runtime)
    requires
        descriptor@.len() >= DESCRIPTOR_LEN,
    ensures
        r.data().env_id == word_of(descriptor@, 0),
        r.data().env_flags == word_of(descriptor@, 1),
        r.build_target() == target,
        r.exit_status() == 0,
        exists|d: PlatformData|
            decodes_to(descriptor@, d) && r.installed_hooks() == Some(
                boot_hooks(env_spec(d.env_id, target), d.fn_table),
            ) && r.data().fn_table@ == boot_table(d.fn_table, target),
        r.installed_hooks() is Some,
        env_spec(r.data().env_id, target) != Env::Unknown || loader_supplies_allocator(descriptor@)
            ==> hooks_ready(r.installed_hooks()->0),
{
    let mut rt = Runtime::install(descriptor, target);
    let ghost d = rt.data();
    let env = env_of(rt.pd.env_id, target);
    let hooks = match env {
        Env::Windows => AllocatorHooks {
            alloc: Hook::Windows,
            alloc_zeroed: Hook::Windows,
            dealloc: Hook::Windows,
            realloc: Hook::Windows,
        },
        Env::Linux => AllocatorHooks {
            alloc: Hook::Linux,
            alloc_zeroed: Hook::Linux,
            dealloc: Hook::Linux,
            realloc: Hook::Linux,
        },
        Env::WebAssembly => AllocatorHooks {
            alloc: Hook::Fallback,
            alloc_zeroed: Hook::Fallback,
            dealloc: Hook::Fallback,
            realloc: Hook::Fallback,
        },
        Env::Unknown => AllocatorHooks {
            alloc: Hook::Slot(rt.addr(SLOT_ALLOC)),
            alloc_zeroed: Hook::Slot(rt.addr(SLOT_ALLOC_ZEROED)),
            dealloc: Hook::Slot(rt.addr(SLOT_DEALLOC)),
            realloc: Hook::Slot(rt.addr(SLOT_REALLOC)),
        },
    };
    rt.install_malloc_impl(hooks);
    match target {
        Target::Wasm32 { read_stdio, write_stdio } => {
            rt.install_single_service(SLOT_READ_STDIO, read_stdio);
            rt.install_single_service(SLOT_WRITE_STDIO, write_stdio);
        },
        Target::Native => {},
    }
    proof {
        assert(rt.data().fn_table@ =~= boot_table(d.fn_table, target));
        if env == Env::Unknown && loader_supplies_allocator(descriptor@) {
            assert(word_of(descriptor@, 7int + 1) != 0);
            assert(word_of(descriptor@, 7int + 2) != 0);
            assert(word_of(descriptor@, 7int + 3) != 0);
            assert(word_of(descriptor@, 7int + 4) != 0);
            assert(d.fn_table@[1] == word_of(descriptor@, 7int + 1));
            assert(d.fn_table@[2] == word_of(descriptor@, 7int + 2));
            assert(d.fn_table@[3] == word_of(descriptor@, 7int + 3));
            assert(d.fn_table@[4] == word_of(descriptor@, 7int + 4));
        }
    }
    rt
}

/// The process terminates on `try_exit`: a native Linux build whose
/// descriptor does not forbid exiting.
pub open spec fn exits(rt: Runtime) -> bool {
    &&& rt.build_target() == Target::Native
    &&& rt.data().env_id == ENV_ID_LINUX
    &&& rt.data().env_flags & ENV_FLAGS_NO_EXIT == 0
}

/// Terminates the process with the stored exit status where the environment
/// lets this runtime end it; everywhere else control returns to the caller.
pub fn try_exit(rt: &Runtime) -> (r: ExitAction)
    ensures
        r == (if exits(*rt) {
            ExitAction::Terminate(rt.exit_status())
        } else {
            ExitAction::Continue
        }),
{
    let native = match rt.target {
        Target::Native => true,
        Target::Wasm32 { .. } => false,
    };
    if native && rt.pd.env_id == ENV_ID_LINUX && (rt.pd.env_flags & ENV_FLAGS_NO_EXIT) == 0 {
        ExitAction::Terminate(rt.exit_code)
    } else {
        ExitAction::Continue
    }
}

/// Whether the binary runs natively, without a loader.
pub fn is_local_env(rt: &Runtime) -> (r: bool)
    ensures
        r == (rt.data().env_flags & ENV_FLAGS_NATIVE != 0),
{
    (rt.pd.env_flags & ENV_FLAGS_NATIVE) != 0
}

} // verus!
