//! Credentials of a process, as the procmon probes read them from a kernel
//! `struct cred` and store them in the process record.
use vstd::prelude::*;

verus! {

/// A set of Linux capabilities, as a bit mask (bit `n` is capability `n`).
#[derive(Clone, Copy, Debug, PartialEq, Eq)]
pub struct Capabilities {
    bits: u64,
}

impl View for Capabilities {
    type V = u64;

    closed spec fn view(&self) -> u64 {
        self.bits
    }
}

impl Capabilities {
    /// The capabilities of the mask `bits`, unknown bits included.
    pub fn from_bits_retain(bits: u64) -> (c: Capabilities)
        ensures
            c@ == bits,
    {
        Capabilities { bits }
    }

    /// No capability.
    pub fn empty() -> (c: Capabilities)
        ensures
            c@ == 0,
    {
        Capabilities { bits: 0 }
    }

    /// The bit mask.
    pub fn bits(&self) -> (b: u64)
        ensures
            b == self@,
    {
        self.bits
    }
}

/// The credentials part of a process record.
#[derive(Clone, Copy, Debug, PartialEq, Eq)]
pub struct Creds {
    pub uid: u32,
    pub euid: u32,
    pub gid: u32,
    pub egid: u32,
    pub cap_effective: Capabilities,
    pub cap_inheritable: Capabilities,
    pub cap_permitted: Capabilities,
}

/// A process record, of which the probes here fill the credentials.
#[derive(Clone, Copy, Debug, PartialEq, Eq)]
pub struct ProcInfo {
    pub creds: Creds,
}

/// What reading each field of a kernel `struct cred` with
/// `bpf_probe_read_kernel` gave: the value, or the helper's error code.
#[derive(Clone, Copy, Debug, PartialEq, Eq)]
pub struct CredFields {
    pub uid: Result<u32, i64>,
    pub euid: Result<u32, i64>,
    pub fsuid: Result<u32, i64>,
    pub gid: Result<u32, i64>,
    pub egid: Result<u32, i64>,
    pub fsgid: Result<u32, i64>,
    pub cap_effective: Result<u64, i64>,
    pub cap_inheritable: Result<u64, i64>,
    pub cap_permitted: Result<u64, i64>,
}

/// A field read as the probes report it: the value, or `0` as the error
/// whatever the helper's error code was.
pub open spec fn read_u32(r: Result<u32, i64>) -> Result<u32, u32> {
    match r {
        Ok(v) => Ok(v),
        Err(_) => Err(0),
    }
}

pub open spec fn read_u64(r: Result<u64, i64>) -> Result<u64, u32> {
    match r {
        Ok(v) => Ok(v),
        Err(_) => Err(0),
    }
}

/// A field read succeeds exactly when the helper's read did, with the value
/// read unchanged; a failed read is reported as `0`, whatever the helper's
/// error code.
pub proof fn lemma_read_keeps_value(r32: Result<u32, i64>, r64: Result<u64, i64>)
    ensures
        r32 matches Ok(v) ==> read_u32(r32) == Ok::<u32, u32>(v),
        r32 is Err ==> read_u32(r32) == Err::<u32, u32>(0),
        r64 matches Ok(v) ==> read_u64(r64) == Ok::<u64, u32>(v),
        r64 is Err ==> read_u64(r64) == Err::<u64, u32>(0),
{
}

fn read_kuid(r: Result<u32, i64>) -> (v: Result<u32, u32>)
    ensures
        v == read_u32(r),
{
    match r {
        Ok(v) => Ok(v),
        Err(_) => Err(0u32),
    }
}

fn read_kgid(r: Result<u32, i64>) -> (v: Result<u32, u32>)
    ensures
        v == read_u32(r),
{
    match r {
        Ok(v) => Ok(v),
        Err(_) => Err(0u32),
    }
}

fn read_cap(r: Result<u64, i64>) -> (v: Result<u64, u32>)
    ensures
        v == read_u64(r),
{
    match r {
        Ok(v) => Ok(v),
        Err(_) => Err(0u32),
    }
}

/// The `uid` of the credentials.
pub fn cred_uid(c: &CredFields) -> (r: Result<u32, u32>)
    ensures
        r == read_u32(c.uid),
        c.uid matches Ok(v) ==> r == Ok::<u32, u32>(v),
        c.uid is Err ==> r == Err::<u32, u32>(0),
{
    read_kuid(c.uid)
}

/// The `euid` of the credentials.
pub fn cred_euid(c: &CredFields) -> (r: Result<u32, u32>)
    ensures
        r == read_u32(c.euid),
        c.euid matches Ok(v) ==> r == Ok::<u32, u32>(v),
        c.euid is Err ==> r == Err::<u32, u32>(0),
{
    read_kuid(c.euid)
}

/// The `fsuid` of the credentials.
pub fn cred_fsuid(c: &CredFields) -> (r: Result<u32, u32>)
    ensures
        r == read_u32(c.fsuid),
        c.fsuid matches Ok(v) ==> r == Ok::<u32, u32>(v),
        c.fsuid is Err ==> r == Err::<u32, u32>(0),
{
    read_kuid(c.fsuid)
}

/// The `gid` of the credentials.
pub fn cred_gid(c: &CredFields) -> (r: Result<u32, u32>)
    ensures
        r == read_u32(c.gid),
        c.gid matches Ok(v) ==> r == Ok::<u32, u32>(v),
        c.gid is Err ==> r == Err::<u32, u32>(0),
{
    read_kgid(c.gid)
}

/// The `egid` of the credentials.
pub fn cred_egid(c: &CredFields) -> (r: Result<u32, u32>)
    ensures
        r == read_u32(c.egid),
        c.egid matches Ok(v) ==> r == Ok::<u32, u32>(v),
        c.egid is Err ==> r == Err::<u32, u32>(0),
{
    read_kgid(c.egid)
}

/// The `fsgid` of the credentials.
pub fn cred_fsgid(c: &CredFields) -> (r: Result<u32, u32>)
    ensures
        r == read_u32(c.fsgid),
        c.fsgid matches Ok(v) ==> r == Ok::<u32, u32>(v),
        c.fsgid is Err ==> r == Err::<u32, u32>(0),
{
    read_kgid(c.fsgid)
}

/// The effective capabilities of the credentials.
pub fn cred_cap_effective(c: &CredFields) -> (r: Result<u64, u32>)
    ensures
        r == read_u64(c.cap_effective),
        c.cap_effective matches Ok(v) ==> r == Ok::<u64, u32>(v),
        c.cap_effective is Err ==> r == Err::<u64, u32>(0),
{
    read_cap(c.cap_effective)
}

/// The inheritable capabilities of the credentials.
pub fn cred_cap_inheritable(c: &CredFields) -> (r: Result<u64, u32>)
    ensures
        r == read_u64(c.cap_inheritable),
        c.cap_inheritable matches Ok(v) ==> r == Ok::<u64, u32>(v),
        c.cap_inheritable is Err ==> r == Err::<u64, u32>(0),
{
    read_cap(c.cap_inheritable)
}

/// The permitted capabilities of the credentials.
pub fn cred_cap_permitted(c: &CredFields) -> (r: Result<u64, u32>)
    ensures
        r == read_u64(c.cap_permitted),
        c.cap_permitted matches Ok(v) ==> r == Ok::<u64, u32>(v),
        c.cap_permitted is Err ==> r == Err::<u64, u32>(0),
{
    read_cap(c.cap_permitted)
}

/// How many of the fields that `fill_proc_creds` copies, in its order
/// (effective, inheritable and permitted capabilities, uid, euid, gid,
/// egid), were read before the first that could not be.
pub open spec fn fields_read(c: CredFields) -> int {
    if c.cap_effective is Err {
        0
    } else if c.cap_inheritable is Err {
        1
    } else if c.cap_permitted is Err {
        2
    } else if c.uid is Err {
        3
    } else if c.euid is Err {
        4
    } else if c.gid is Err {
        5
    } else if c.egid is Err {
        6
    } else {
        7
    }
}

/// Copies the credentials into the process record, field by field in the
/// order of `fields_read`, stopping at the first field that could not be
/// read; the fields copied before it stay copied.
pub fn fill_proc_creds(proc: &mut ProcInfo, cred: &CredFields) -> (r: Result<(), u32>)
    ensures
        r == (if fields_read(*cred) == 7 {
            Ok::<(), u32>(())
        } else {
            Err(0u32)
        }),
        final(proc).creds.cap_effective@ == (if fields_read(*cred) > 0 {
            cred.cap_effective->Ok_0
        } else {
            old(proc).creds.cap_effective@
        }),
        final(proc).creds.cap_inheritable@ == (if fields_read(*cred) > 1 {
            cred.cap_inheritable->Ok_0
        } else {
            old(proc).creds.cap_inheritable@
        }),
        final(proc).creds.cap_permitted@ == (if fields_read(*cred) > 2 {
            cred.cap_permitted->Ok_0
        } else {
            old(proc).creds.cap_permitted@
        }),
        final(proc).creds.uid == (if fields_read(*cred) > 3 {
            cred.uid->Ok_0
        } else {
            old(proc).creds.uid
        }),
        final(proc).creds.euid == (if fields_read(*cred) > 4 {
            cred.euid->Ok_0
        } else {
            old(proc).creds.euid
        }),
        final(proc).creds.gid == (if fields_read(*cred) > 5 {
            cred.gid->Ok_0
        } else {
            old(proc).creds.gid
        }),
        final(proc).creds.egid == (if fields_read(*cred) > 6 {
            cred.egid->Ok_0
        } else {
            old(proc).creds.egid
        }),
{
    match cred_cap_effective(cred) {
        Ok(v) => proc.creds.cap_effective = Capabilities::from_bits_retain(v),
        Err(e) => return Err(e),
    }
    match cred_cap_inheritable(cred) {
        Ok(v) => proc.creds.cap_inheritable = Capabilities::from_bits_retain(v),
        Err(e) => return Err(e),
    }
    match cred_cap_permitted(cred) {
        Ok(v) => proc.creds.cap_permitted = Capabilities::from_bits_retain(v),
        Err(e) => return Err(e),
    }
    match cred_uid(cred) {
        Ok(v) => proc.creds.uid = v,
        Err(e) => return Err(e),
    }
    match cred_euid(cred) {
        Ok(v) => proc.creds.euid = v,
        Err(e) => return Err(e),
    }
    match cred_gid(cred) {
        Ok(v) => proc.creds.gid = v,
        Err(e) => return Err(e),
    }
    match cred_egid(cred) {
        Ok(v) => proc.creds.egid = v,
        Err(e) => return Err(e),
    }
    Ok(())
}

} // verus!
