//! The platform descriptor handed over by a loader, and its service slots.
use vstd::prelude::*;

verus! {

pub const ENV_ID_UNKNOWN: u64 = 0;

pub const ENV_ID_WINDOWS: u64 = 1;

pub const ENV_ID_LINUX: u64 = 2;

/// Disables the stack probe convention of Windows targets.
pub const ENV_FLAGS_LINUX_STYLE_CHKSTK: u64 = 0x0001;

/// The binary runs without a loader.
pub const ENV_FLAGS_NATIVE: u64 = 0x0002;

/// Halt at the entry point.
pub const ENV_FLAGS_BREAKPOINT: u64 = 0x0004;

/// An enclosing host owns the process lifetime: never terminate it.
pub const ENV_FLAGS_NO_EXIT: u64 = 0x0008;

/// Number of service slots in the descriptor.
pub const NUM_SLOTS: usize = 7;

/// Bytes of a descriptor: seven header words and the slot table.
pub const DESCRIPTOR_LEN: usize = 112;

/// Byte offset of the slot table within the descriptor.
pub const SLOTS_OFFSET: usize = 56;

pub const SLOT_ALLOC: usize = 1;

pub const SLOT_ALLOC_ZEROED: usize = 2;

pub const SLOT_DEALLOC: usize = 3;

pub const SLOT_REALLOC: usize = 4;

pub const SLOT_READ_STDIO: usize = 5;

pub const SLOT_WRITE_STDIO: usize = 6;

/// The value of `n` bytes read little-endian from `b` at `off`.
pub open spec fn le_value(b: Seq<u8>, off: int, n: nat) -> nat
    decreases n,
{
    if n == 0 {
        0
    } else {
        b[off] as nat + 256 * le_value(b, off + 1, (n - 1) as nat)
    }
}

pub open spec fn pow256(n: nat) -> nat
    decreases n,
{
    if n == 0 {
        1
    } else {
        256 * pow256((n - 1) as nat)
    }
}

proof fn lemma_le_value_bound(b: Seq<u8>, off: int, n: nat)
    ensures
        le_value(b, off, n) < pow256(n),
    decreases n,
{
    if n > 0 {
        lemma_le_value_bound(b, off + 1, (n - 1) as nat);
        let rest = le_value(b, off + 1, (n - 1) as nat);
        let p = pow256((n - 1) as nat);
        assert((b[off] as nat) + 256 * rest < 256 * p) by (nonlinear_arith)
            requires
                rest < p,
                (b[off] as nat) < 256,
        ;
    }
}

/// The little-endian `u64` at `off`, read byte by byte so that it needs no
/// alignment.
pub fn read_u64_le(b: &[u8], off: usize) -> (r: u64)
    requires
        off + 8 <= b@.len(),
    ensures
        r as nat == le_value(b@, off as int, 8),
{
    let len = b.len();
    let mut k: usize = 8;
    let mut acc: u64 = 0;
    proof {
        lemma_le_value_bound(b@, off as int, 8);
        reveal_with_fuel(pow256, 9);
    }
    while k > 0
        invariant
            k <= 8,
            off + 8 <= b@.len(),
            len == b@.len(),
            acc as nat == le_value(b@, off + k, (8 - k) as nat),
            pow256(8) == 0x1_0000_0000_0000_0000,
        decreases k,
    {
        proof {
            lemma_le_value_bound(b@, off + k, (8 - k) as nat);
            lemma_le_value_bound(b@, off + k - 1, (9 - k) as nat);
            reveal_with_fuel(pow256, 9);
            assert(pow256((9 - k) as nat) <= pow256(8)) by {
                lemma_pow256_mono((9 - k) as nat, 8);
            }
        }
        let byte = b[off + k - 1];
        acc = byte as u64 + 256 * acc;
        k = k - 1;
    }
    acc
}

proof fn lemma_pow256_mono(a: nat, b: nat)
    requires
        a <= b,
    ensures
        pow256(a) <= pow256(b),
    decreases b,
{
    if a < b {
        lemma_pow256_mono(a, (b - 1) as nat);
    }
}


/// The descriptor's record: host identity, flags, the native library handle
/// and resolver, the image relocation data, and the service slots.
#[derive(Clone, Copy, Debug, PartialEq, Eq)]
pub struct PlatformData {
    pub env_id: u64,
    pub env_flags: u64,
    pub win_kernel32: u64,
    pub win_get_proc_address: u64,
    pub pe_image_base: u64,
    pub pe_off_reloc: u64,
    pub pe_size_reloc: u64,
    pub fn_table: [u64; 7],
}

/// The word at index `w` of a descriptor, counting eight bytes per word.
pub open spec fn word_of(b: Seq<u8>, w: int) -> nat {
    le_value(b, 8 * w, 8)
}

/// `d` holds what the descriptor bytes `b` say, field by field.
pub open spec fn decodes_to(b: Seq<u8>, d: PlatformData) -> bool {
    &&& d.env_id == word_of(b, 0)
    &&& d.env_flags == word_of(b, 1)
    &&& d.win_kernel32 == word_of(b, 2)
    &&& d.win_get_proc_address == word_of(b, 3)
    &&& d.pe_image_base == word_of(b, 4)
    &&& d.pe_off_reloc == word_of(b, 5)
    &&& d.pe_size_reloc == word_of(b, 6)
    &&& forall|k: int| 0 <= k < 7 ==> #[trigger] d.fn_table@[k] == word_of(b, 7 + k)
}

/// Reads the descriptor record out of `descriptor`, which may start at any
/// address: every word is read byte by byte.
pub fn platform_data(descriptor: &[u8]) -> (r: PlatformData)
    requires
        descriptor@.len() >= DESCRIPTOR_LEN,
    ensures
        decodes_to(descriptor@, r),
{
    let mut table: [u64; 7] = [0, 0, 0, 0, 0, 0, 0];
    let mut k: usize = 0;
    while k < NUM_SLOTS
        invariant
            descriptor@.len() >= DESCRIPTOR_LEN,
            k <= NUM_SLOTS,
            forall|j: int| 0 <= j < k ==> #[trigger] table@[j] == word_of(descriptor@, 7 + j),
        decreases NUM_SLOTS - k,
    {
        let v = read_u64_le(descriptor, SLOTS_OFFSET + 8 * k);
        table.set(k, v);
        k = k + 1;
    }
    PlatformData {
        env_id: read_u64_le(descriptor, 0),
        env_flags: read_u64_le(descriptor, 8),
        win_kernel32: read_u64_le(descriptor, 16),
        win_get_proc_address: read_u64_le(descriptor, 24),
        pe_image_base: read_u64_le(descriptor, 32),
        pe_off_reloc: read_u64_le(descriptor, 40),
        pe_size_reloc: read_u64_le(descriptor, 48),
        fn_table: table,
    }
}

} // verus!
