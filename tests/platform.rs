use basm::platform::{init, is_local_env, try_exit, AllocatorHooks, ExitAction, Hook, Runtime, ServiceCall, Target};
use basm::services::{platform_data, read_u64_le, DESCRIPTOR_LEN, ENV_FLAGS_NATIVE, ENV_FLAGS_NO_EXIT};

fn descriptor(env_id: u64, env_flags: u64, slots: [u64; 7]) -> Vec<u8> {
    let mut words = vec![env_id, env_flags, 0x1000, 0x2000, 0x40_0000, 0x80, 0x10];
    words.extend_from_slice(&slots);
    let mut bytes = Vec::new();
    for w in words {
        bytes.extend_from_slice(&w.to_le_bytes());
    }
    assert_eq!(DESCRIPTOR_LEN, bytes.len());
    bytes
}

const LOADER_SLOTS: [u64; 7] = [0, 0x1110, 0x2220, 0x3330, 0x4440, 0x5550, 0x6660];

#[test]
fn descriptor_is_read_at_any_alignment() {
    let d = descriptor(2, 0x3, LOADER_SLOTS);
    let mut shifted = vec![0xAAu8; 3];
    shifted.extend_from_slice(&d);
    let pd = platform_data(&shifted[3..]);
    assert_eq!(2, pd.env_id);
    assert_eq!(0x3, pd.env_flags);
    assert_eq!(0x1000, pd.win_kernel32);
    assert_eq!(0x2000, pd.win_get_proc_address);
    assert_eq!(0x40_0000, pd.pe_image_base);
    assert_eq!(0x80, pd.pe_off_reloc);
    assert_eq!(0x10, pd.pe_size_reloc);
    assert_eq!(LOADER_SLOTS, pd.fn_table);
}

#[test]
fn read_u64_le_reads_little_endian() {
    let b = [0x01u8, 0x02, 0x03, 0x04, 0x05, 0x06, 0x07, 0x08, 0xff];
    assert_eq!(0x0807060504030201u64, read_u64_le(&b, 0));
    assert_eq!(0xff08070605040302u64, read_u64_le(&b, 1));
}

#[test]
fn unknown_env_forwards_to_loader_slots() {
    let d = descriptor(0, 0, LOADER_SLOTS);
    let rt = init(&d, Target::Native);
    let hooks = rt.malloc_impl().unwrap();
    assert_eq!(Hook::Slot(0x1110), hooks.alloc);
    assert_eq!(Hook::Slot(0x2220), hooks.alloc_zeroed);
    assert_eq!(Hook::Slot(0x3330), hooks.dealloc);
    assert_eq!(Hook::Slot(0x4440), hooks.realloc);
    for k in 1..5 {
        assert_eq!(LOADER_SLOTS[k], rt.addr(k));
    }
    assert_eq!(LOADER_SLOTS, rt.platform_data().fn_table);
}

#[test]
fn every_env_has_all_hooks_after_init() {
    let cases = [
        (0u64, Target::Native),
        (1, Target::Native),
        (2, Target::Native),
        (0, Target::Wasm32 { read_stdio: 0x77, write_stdio: 0x88 }),
    ];
    for (env_id, target) in cases {
        let rt = init(&descriptor(env_id, 0, LOADER_SLOTS), target);
        let hooks = rt.malloc_impl().unwrap();
        for h in [hooks.alloc, hooks.alloc_zeroed, hooks.dealloc, hooks.realloc] {
            assert_ne!(Hook::Slot(0), h);
        }
    }
    let rt = init(&descriptor(1, 0, LOADER_SLOTS), Target::Native);
    assert_eq!(
        Some(AllocatorHooks { alloc: Hook::Windows, alloc_zeroed: Hook::Windows, dealloc: Hook::Windows, realloc: Hook::Windows }),
        rt.malloc_impl()
    );
    let rt = init(&descriptor(2, 0, LOADER_SLOTS), Target::Native);
    assert_eq!(Hook::Linux, rt.malloc_impl().unwrap().realloc);
}

#[test]
fn wasm_init_installs_fallback_and_stdio_intrinsics() {
    let rt = init(&descriptor(0, 0, LOADER_SLOTS), Target::Wasm32 { read_stdio: 0x77, write_stdio: 0x88 });
    assert_eq!(Hook::Fallback, rt.malloc_impl().unwrap().alloc);
    assert_eq!(0x77, rt.addr(5));
    assert_eq!(0x88, rt.addr(6));
    assert_eq!(0x1110, rt.addr(1));
    assert_eq!(ServiceCall::WriteStdio { addr: 0x88, fd: 1, len: 12 }, rt.write_stdio(1, 12));
    assert_eq!(ServiceCall::ReadStdio { addr: 0x77, fd: 0, len: 4 }, rt.read_stdio(0, 4));
}

#[test]
fn service_calls_use_their_slots() {
    let rt = init(&descriptor(0, 0, LOADER_SLOTS), Target::Native);
    assert_eq!(ServiceCall::Alloc { addr: 0x1110, size: 32, align: 8 }, rt.service_alloc(32, 8));
    assert_eq!(ServiceCall::AllocZeroed { addr: 0x2220, size: 32, align: 8 }, rt.alloc_zeroed(32, 8));
    assert_eq!(ServiceCall::Dealloc { addr: 0x3330, ptr: 64, size: 32, align: 8 }, rt.dealloc(64, 32, 8));
    assert_eq!(
        ServiceCall::Realloc { addr: 0x4440, ptr: 64, old_size: 32, old_align: 8, new_size: 48 },
        rt.realloc(64, 32, 8, 48)
    );
    assert_eq!(ServiceCall::ReadStdio { addr: 0x5550, fd: 0, len: 9 }, rt.read_stdio(0, 9));
}

#[test]
fn install_single_service_overwrites_one_slot() {
    let mut rt = Runtime::install(&descriptor(0, 0, LOADER_SLOTS), Target::Native);
    assert_eq!(None, rt.malloc_impl());
    rt.install_single_service(5, 0xabc);
    assert_eq!(0xabc, rt.addr(5));
    assert_eq!(0x6660, rt.addr(6));
    assert_eq!(0x4440, rt.addr(4));
}

#[test]
fn exit_status_last_write_wins() {
    let mut rt = init(&descriptor(2, 0, LOADER_SLOTS), Target::Native);
    assert_eq!(0, rt.get_exit_status());
    rt.set_exit_status(5);
    assert_eq!(5, rt.get_exit_status());
    rt.set_exit_status(3);
    rt.set_exit_status(-1);
    assert_eq!(-1, rt.get_exit_status());
}

#[test]
fn native_linux_terminates_with_stored_status() {
    let mut rt = init(&descriptor(2, ENV_FLAGS_NATIVE, LOADER_SLOTS), Target::Native);
    rt.set_exit_status(7);
    assert_eq!(ExitAction::Terminate(7), try_exit(&rt));
}

#[test]
fn try_exit_returns_elsewhere() {
    let mut rt = init(&descriptor(2, ENV_FLAGS_NATIVE | ENV_FLAGS_NO_EXIT, LOADER_SLOTS), Target::Native);
    rt.set_exit_status(7);
    assert_eq!(ExitAction::Continue, try_exit(&rt));
    let rt = init(&descriptor(1, ENV_FLAGS_NATIVE, LOADER_SLOTS), Target::Native);
    assert_eq!(ExitAction::Continue, try_exit(&rt));
    let rt = init(&descriptor(0, 0, LOADER_SLOTS), Target::Native);
    assert_eq!(ExitAction::Continue, try_exit(&rt));
    let rt = init(&descriptor(2, 0, LOADER_SLOTS), Target::Wasm32 { read_stdio: 1, write_stdio: 2 });
    assert_eq!(ExitAction::Continue, try_exit(&rt));
}

#[test]
fn local_env_follows_native_flag() {
    let rt = init(&descriptor(2, ENV_FLAGS_NATIVE, LOADER_SLOTS), Target::Native);
    assert!(is_local_env(&rt));
    let rt = init(&descriptor(2, 0x5, LOADER_SLOTS), Target::Native);
    assert!(!is_local_env(&rt));
}
