//! Decisions about directory and file names.
//!
//! The walk over the source tree never enters a directory named `vendor`
//! or `node_modules`, and it scans exactly the files whose name carries
//! the `.php` suffix after at least one other byte. A scanned file's unit
//! name is its file name without that suffix.

use crate::order::bytes_eq;
use crate::scan::copy_range;
use vstd::prelude::*;

verus! {

/// The bytes of `vendor`.
pub open spec fn vendor_name() -> Seq<u8> {
    seq![118u8, 101, 110, 100, 111, 114]
}

/// The bytes of `node_modules`.
pub open spec fn node_modules_name() -> Seq<u8> {
    seq![110u8, 111, 100, 101, 95, 109, 111, 100, 117, 108, 101, 115]
}

/// The bytes of `.php`.
pub open spec fn php_suffix() -> Seq<u8> {
    seq![46u8, 112, 104, 112]
}

/// A directory name that the walk prunes entirely.
pub open spec fn pruned_dir(name: Seq<u8>) -> bool {
    name == vendor_name() || name == node_modules_name()
}

/// A file name that the walk scans: the `.php` suffix after at least one
/// other byte.
pub open spec fn source_file_name(name: Seq<u8>) -> bool {
    name.len() >= 5 && name.skip(name.len() - 4) == php_suffix()
}

/// The unit name of a source file: its file name without the suffix.
pub open spec fn unit_of(name: Seq<u8>) -> Seq<u8> {
    name.take(name.len() - 4)
}

/// The bytes of `vendor`, executable.
fn vendor_bytes() -> (r: Vec<u8>)
    ensures
        r@ == vendor_name(),
{
    let mut v: Vec<u8> = Vec::new();
    v.push(118);
    v.push(101);
    v.push(110);
    v.push(100);
    v.push(111);
    v.push(114);
    proof {
        assert(v@ =~= vendor_name());
    }
    v
}

/// The bytes of `node_modules`, executable.
fn node_modules_bytes() -> (r: Vec<u8>)
    ensures
        r@ == node_modules_name(),
{
    let mut v: Vec<u8> = Vec::new();
    v.push(110);
    v.push(111);
    v.push(100);
    v.push(101);
    v.push(95);
    v.push(109);
    v.push(111);
    v.push(100);
    v.push(117);
    v.push(108);
    v.push(101);
    v.push(115);
    proof {
        assert(v@ =~= node_modules_name());
    }
    v
}

/// Whether the walk may enter a directory of this name: it may, unless
/// the name is one of the pruned dependency directories.
pub fn enter_dir(name: &[u8]) -> (r: bool)
    ensures
        r == !pruned_dir(name@),
{
    let vendor = vendor_bytes();
    let node_modules = node_modules_bytes();
    let skip = bytes_eq(name, vendor.as_slice()) || bytes_eq(name, node_modules.as_slice());
    !skip
}

/// Whether a file of this name is scanned.
pub fn is_source_file_name(name: &[u8]) -> (r: bool)
    ensures
        r == source_file_name(name@),
{
    if name.len() < 5 {
        proof {
            assert(!source_file_name(name@));
        }
        return false;
    }
    let n = name.len();
    let r = name[n - 4] == 46 && name[n - 3] == 112 && name[n - 2] == 104 && name[n - 1] == 112;
    proof {
        if r {
            assert(name@.skip(name@.len() - 4) =~= php_suffix());
        } else {
            assert(name@.skip(name@.len() - 4) != php_suffix()) by {
                if name@.skip(name@.len() - 4) == php_suffix() {
                    assert(name@.skip(name@.len() - 4)[0] == name@[n - 4]);
                    assert(name@.skip(name@.len() - 4)[1] == name@[n - 3]);
                    assert(name@.skip(name@.len() - 4)[2] == name@[n - 2]);
                    assert(name@.skip(name@.len() - 4)[3] == name@[n - 1]);
                }
            }
        }
    }
    r
}

/// The unit name of a source file.
pub fn unit_name(name: &[u8]) -> (r: Vec<u8>)
    requires
        source_file_name(name@),
    ensures
        r@ == unit_of(name@),
{
    copy_range(name, 0, name.len() - 4)
}

} // verus!
