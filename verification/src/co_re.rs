//! Values that the probes read from kernel structures through CO-RE
//! accessors, and what they compute from them.
use vstd::prelude::*;

verus! {

/// The size in bytes of a classic BPF instruction, the kernel's
/// `struct sock_filter { __u16 code; __u8 jt; __u8 jf; __u32 k; }`.
pub const SOCK_FILTER_SIZE: usize = 8;

/// The bytes that `len` instructions take.
pub open spec fn filter_bytes(len: u16) -> int {
    len * SOCK_FILTER_SIZE
}

/// A socket filter program handed to the kernel, `struct sock_fprog`: its
/// `len` field as read, `None` where it could not be read.
#[allow(non_camel_case_types)]
pub struct sock_fprog {
    pub len: Option<u16>,
}

impl sock_fprog {
    /// The size in bytes of the program's instructions.
    pub fn size(&self) -> (r: Option<usize>)
        ensures
            r == match self.len {
                Some(len) => Some(filter_bytes(len) as usize),
                None => None::<usize>,
            },
    {
        match self.len {
            Some(len) => Some(len as usize * SOCK_FILTER_SIZE),
            None => None,
        }
    }
}

/// The kernel's copy of a socket filter program, `struct sock_fprog_kern`:
/// its `len` field as read, `None` where it could not be read.
#[allow(non_camel_case_types)]
pub struct sock_fprog_kern {
    pub len: Option<u16>,
}

impl sock_fprog_kern {
    /// The size in bytes of `len` instructions.
    pub fn byte_size_from_len(len: u16) -> (r: usize)
        ensures
            r == filter_bytes(len),
    {
        len as usize * SOCK_FILTER_SIZE
    }

    /// The size in bytes of the program's instructions.
    pub fn byte_size(&self) -> (r: Option<usize>)
        ensures
            r == match self.len {
                Some(len) => Some(filter_bytes(len) as usize),
                None => None::<usize>,
            },
    {
        match self.len {
            Some(len) => Some(Self::byte_size_from_len(len)),
            None => None,
        }
    }
}

/// The executable being loaded, `struct linux_binprm`, as the probe sees
/// it: whether the pointer to it is null, whether the running kernel's
/// layout has a `cred` field, and the address read from that field.
#[allow(non_camel_case_types)]
pub struct linux_binprm {
    pub is_null: bool,
    pub cred_exists: bool,
    pub cred: usize,
}

impl linux_binprm {
    /// The address of the new credentials, where there are some.
    pub fn cred(&self) -> (r: Option<usize>)
        ensures
            r == (if self.is_null || !self.cred_exists || self.cred == 0 {
                None::<usize>
            } else {
                Some(self.cred)
            }),
    {
        if self.is_null || !self.cred_exists {
            return None;
        }
        let ptr = self.cred;
        if ptr == 0 {
            None
        } else {
            Some(ptr)
        }
    }
}

} // verus!
