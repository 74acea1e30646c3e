use bombini::co_re::{linux_binprm, sock_fprog, sock_fprog_kern, SOCK_FILTER_SIZE};
use bombini::procmon::{
    cred_cap_effective, cred_cap_inheritable, cred_cap_permitted, cred_egid, cred_euid,
    cred_fsgid, cred_fsuid, cred_gid, cred_uid, fill_proc_creds, Capabilities, CredFields, Creds,
    ProcInfo,
};

fn all_read() -> CredFields {
    CredFields {
        uid: Ok(1000),
        euid: Ok(0),
        fsuid: Ok(1001),
        gid: Ok(100),
        egid: Ok(101),
        fsgid: Ok(102),
        cap_effective: Ok(0x1ff),
        cap_inheritable: Ok(0),
        cap_permitted: Ok(u64::MAX),
    }
}

fn blank() -> ProcInfo {
    ProcInfo {
        creds: Creds {
            uid: 7,
            euid: 7,
            gid: 7,
            egid: 7,
            cap_effective: Capabilities::from_bits_retain(7),
            cap_inheritable: Capabilities::from_bits_retain(7),
            cap_permitted: Capabilities::from_bits_retain(7),
        },
    }
}

#[test]
fn cred_readers_map_errors_to_zero() {
    let mut c = all_read();
    assert_eq!(cred_uid(&c), Ok(1000));
    assert_eq!(cred_euid(&c), Ok(0));
    assert_eq!(cred_fsuid(&c), Ok(1001));
    assert_eq!(cred_gid(&c), Ok(100));
    assert_eq!(cred_egid(&c), Ok(101));
    assert_eq!(cred_fsgid(&c), Ok(102));
    assert_eq!(cred_cap_effective(&c), Ok(0x1ff));
    assert_eq!(cred_cap_inheritable(&c), Ok(0));
    assert_eq!(cred_cap_permitted(&c), Ok(u64::MAX));
    c.uid = Err(-14);
    c.cap_permitted = Err(-1);
    assert_eq!(cred_uid(&c), Err(0));
    assert_eq!(cred_cap_permitted(&c), Err(0));
}

#[test]
fn fill_creds_copies_all_fields() {
    let mut p = blank();
    assert_eq!(fill_proc_creds(&mut p, &all_read()), Ok(()));
    assert_eq!(
        p.creds,
        Creds {
            uid: 1000,
            euid: 0,
            gid: 100,
            egid: 101,
            cap_effective: Capabilities::from_bits_retain(0x1ff),
            cap_inheritable: Capabilities::from_bits_retain(0),
            cap_permitted: Capabilities::from_bits_retain(u64::MAX),
        }
    );
    assert_eq!(p.creds.cap_permitted.bits(), u64::MAX);
}

#[test]
fn fill_creds_stops_at_first_failed_read() {
    let mut c = all_read();
    c.uid = Err(-14);
    c.gid = Err(-14);
    let mut p = blank();
    assert_eq!(fill_proc_creds(&mut p, &c), Err(0));
    assert_eq!(p.creds.cap_effective.bits(), 0x1ff);
    assert_eq!(p.creds.cap_inheritable.bits(), 0);
    assert_eq!(p.creds.cap_permitted.bits(), u64::MAX);
    assert_eq!(p.creds.uid, 7);
    assert_eq!(p.creds.euid, 7);
    assert_eq!(p.creds.gid, 7);
    let mut first = all_read();
    first.cap_effective = Err(-2);
    let mut q = blank();
    assert_eq!(fill_proc_creds(&mut q, &first), Err(0));
    assert_eq!(q, blank());
    assert_eq!(Capabilities::empty().bits(), 0);
}

#[test]
fn socket_filter_sizes() {
    assert_eq!(SOCK_FILTER_SIZE, 8);
    assert_eq!(sock_fprog { len: Some(3) }.size(), Some(24));
    assert_eq!(sock_fprog { len: None }.size(), None);
    assert_eq!(sock_fprog_kern::byte_size_from_len(u16::MAX), 524280);
    assert_eq!(sock_fprog_kern { len: Some(0) }.byte_size(), Some(0));
    assert_eq!(sock_fprog_kern { len: None }.byte_size(), None);
}

#[test]
fn binprm_cred_pointer() {
    let p = linux_binprm { is_null: false, cred_exists: true, cred: 0x1000 };
    assert_eq!(p.cred(), Some(0x1000));
    assert_eq!(linux_binprm { is_null: true, cred_exists: true, cred: 0x1000 }.cred(), None);
    assert_eq!(linux_binprm { is_null: false, cred_exists: false, cred: 0x1000 }.cred(), None);
    assert_eq!(linux_binprm { is_null: false, cred_exists: true, cred: 0 }.cred(), None);
}
