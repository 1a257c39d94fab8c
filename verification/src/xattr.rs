//! Extended attribute names: the two that compression uses, and the list of
//! names that the file system hands out, each name followed by a NUL byte.
use crate::bytes::flatten;
use crate::info::XattrKind;
use vstd::prelude::*;

verus! {

/// `com.apple.decmpfs`, the name of the attribute with the compression header.
pub open spec fn header_xattr_name() -> Seq<u8> {
    seq![99u8, 111, 109, 46, 97, 112, 112, 108, 101, 46, 100, 101, 99, 109, 112, 102, 115]
}

/// `com.apple.ResourceFork`, the name of the resource fork attribute.
pub open spec fn resource_fork_xattr_name() -> Seq<u8> {
    seq![
        99u8, 111, 109, 46, 97, 112, 112, 108, 101, 46, 82, 101, 115, 111, 117, 114, 99, 101, 70,
        111, 114, 107,
    ]
}

/// The name of the decmpfs attribute, `com.apple.decmpfs`.
pub fn header_xattr_name_bytes() -> (v: Vec<u8>)
    ensures
        v@ == header_xattr_name(),
{
    let v: Vec<u8> = vec![99u8, 111, 109, 46, 97, 112, 112, 108, 101, 46, 100, 101, 99, 109, 112, 102, 115];
    assert(v@ =~= header_xattr_name());
    v
}

/// The name of the resource fork attribute, `com.apple.ResourceFork`.
pub fn resource_fork_xattr_name_bytes() -> (v: Vec<u8>)
    ensures
        v@ == resource_fork_xattr_name(),
{
    let v: Vec<u8> = vec![
        99u8, 111, 109, 46, 97, 112, 112, 108, 101, 46, 82, 101, 115, 111, 117, 114, 99, 101, 70,
        111, 114, 107,
    ];
    assert(v@ =~= resource_fork_xattr_name());
    v
}

/// Which of the attributes that matter for compression `name` is.
pub open spec fn spec_xattr_kind(name: Seq<u8>) -> XattrKind {
    if name == header_xattr_name() {
        XattrKind::Decmpfs
    } else if name == resource_fork_xattr_name() {
        XattrKind::ResourceFork
    } else {
        XattrKind::Other
    }
}

/// Tells the decmpfs and resource fork attributes from all others by name.
pub fn xattr_kind(name: &[u8]) -> (k: XattrKind)
    ensures
        k == spec_xattr_kind(name@),
{
    let header = header_xattr_name_bytes();
    if crate::bytes::bytes_equal(name, header.as_slice()) {
        return XattrKind::Decmpfs;
    }
    let rfork = resource_fork_xattr_name_bytes();
    if crate::bytes::bytes_equal(name, rfork.as_slice()) {
        return XattrKind::ResourceFork;
    }
    XattrKind::Other
}

/// The first position of `needle` in `haystack`, or `None` if it does not
/// occur: `memchr::memchr`, whose documentation promises the first matching
/// index, always less than the length.
#[verifier::external_body]
fn find_byte(needle: u8, haystack: &[u8]) -> (r: Option<usize>)
    ensures
        match r {
            Some(i) => i < haystack@.len() && haystack@[i as int] == needle && forall|j: int|
                0 <= j < i ==> haystack@[j] != needle,
            None => forall|j: int| 0 <= j < haystack@.len() ==> haystack@[j] != needle,
        },
{
    memchr::memchr(needle, haystack)
}

/// Each name followed by its terminating NUL byte.
pub open spec fn terminated(names: Seq<Seq<u8>>) -> Seq<Seq<u8>> {
    names.map_values(|n: Seq<u8>| n.push(0u8))
}

/// The byte strings held by a list of names.
pub open spec fn names_view(names: Seq<Vec<u8>>) -> Seq<Seq<u8>> {
    names.map_values(|n: Vec<u8>| n@)
}

/// A list of attribute names whose last name has no terminating NUL byte.
#[derive(Debug, Clone, Copy, PartialEq, Eq, Structural)]
pub struct MissingTerminator;

impl MissingTerminator {
    /// A description of the error.
    pub fn message(self) -> (s: &'static str)
        ensures
            s == "expected null terminator in xattr names",
    {
        "expected null terminator in xattr names"
    }
}

/// Splits a list of attribute names, each followed by a NUL byte, into the
/// names.  The list is well formed when it is empty or ends in a NUL byte.
pub fn split_names(buf: &[u8]) -> (r: Result<Vec<Vec<u8>>, MissingTerminator>)
    ensures
        r is Ok <==> (buf@.len() == 0 || buf@.last() == 0),
        r matches Ok(names) ==> flatten(terminated(names_view(names@))) == buf@,
        r matches Ok(names) ==> forall|i: int, j: int|
            0 <= i < names@.len() && 0 <= j < names@[i]@.len() ==> #[trigger] names@[i]@[j] != 0,
{
    let mut names: Vec<Vec<u8>> = Vec::new();
    let mut start: usize = 0;
    while start < buf.len()
        invariant
            start <= buf@.len(),
            flatten(terminated(names_view(names@))) == buf@.take(start as int),
            forall|i: int, j: int|
                0 <= i < names@.len() && 0 <= j < names@[i]@.len() ==> #[trigger] names@[i]@[j] != 0,
            start == 0 || buf@[start - 1] == 0,
        decreases buf@.len() - start,
    {
        let rest = &buf[start..buf.len()];
        match find_byte(0, rest) {
            None => {
                assert(buf@.last() == rest@[rest@.len() - 1]);
                return Err(MissingTerminator);
            },
            Some(i) => {
                let name = vstd::slice::slice_to_vec(&rest[0..i]);
                let ghost before = names@;
                names.push(name);
                proof {
                    assert(names_view(names@) =~= names_view(before).push(name@));
                    assert(terminated(names_view(names@)) =~= terminated(names_view(before)).push(
                        name@.push(0u8),
                    ));
                    crate::bytes::lemma_flatten_push(terminated(names_view(before)), name@.push(0u8));
                    assert(buf@.take(start + i + 1) =~= buf@.take(start as int) + name@.push(0u8));
                    assert forall|a: int, b: int|
                        0 <= a < names@.len() && 0 <= b < names@[a]@.len() implies #[trigger] names@[a]@[b]
                        != 0 by {
                        if a == names@.len() - 1 {
                            assert(names@[a]@[b] == rest@[b]);
                        } else {
                            assert(names@[a] == before[a]);
                        }
                    }
                }
                start = start + i + 1;
            },
        }
    }
    assert(buf@.take(start as int) =~= buf@);
    Ok(names)
}

} // verus!
