//! Which of the files found under the data directory are per-device logs.
use vstd::prelude::*;
use vstd::utf8::encode_utf8;
use crate::text::range_is;

verus! {

/// An entry that the enumeration of the data directory produced: its path, and
/// whether it is an ordinary file.
pub struct FoundPath {
    pub path: String,
    pub is_file: bool,
}

/// The position after the last `/` among the first `k` bytes, or 0 when none.
pub open spec fn name_start(p: Seq<u8>, k: int) -> int
    decreases k,
{
    if k <= 0 || k > p.len() {
        0
    } else if p[k - 1] == 47u8 {
        k
    } else {
        name_start(p, k - 1)
    }
}

/// The last component of a path: what follows its last `/`.
pub open spec fn file_name(p: Seq<u8>) -> Seq<u8> {
    p.subrange(name_start(p, p.len() as int), p.len() as int)
}

pub open spec fn generic_word() -> Seq<u8> {
    seq![103u8, 101u8, 110u8, 101u8, 114u8, 105u8, 99u8]
}

pub open spec fn occurs_at(s: Seq<u8>, t: Seq<u8>, i: int) -> bool {
    0 <= i && i + t.len() <= s.len() && s.subrange(i, i + t.len()) == t
}

pub open spec fn contains(s: Seq<u8>, t: Seq<u8>) -> bool {
    exists|i: int| occurs_at(s, t, i)
}

/// An ordinary file whose name does not contain `generic`: the other files are
/// summaries across devices.
pub open spec fn is_device_log(e: Option<FoundPath>) -> bool {
    match e {
        Some(f) => f.is_file && !contains(file_name(encode_utf8(f.path@)), generic_word()),
        None => false,
    }
}

/// The paths of the device logs among the entries, in order.
pub open spec fn selected(es: Seq<Option<FoundPath>>) -> Seq<Seq<char>>
    decreases es.len(),
{
    if es.len() == 0 {
        Seq::empty()
    } else {
        let rest = selected(es.drop_last());
        match es.last() {
            Some(f) => if is_device_log(es.last()) {
                rest.push(f.path@)
            } else {
                rest
            },
            None => rest,
        }
    }
}

fn name_start_in(p: &[u8]) -> (r: usize)
    ensures
        r == name_start(p@, p@.len() as int),
        r <= p@.len(),
{
    let mut k: usize = p.len();
    while k > 0 && p[k - 1] != 47
        invariant
            k <= p@.len(),
            name_start(p@, p@.len() as int) == name_start(p@, k as int),
        decreases k,
    {
        k = k - 1;
    }
    k
}

/// Whether `buf[lo..]` contains `tok`.
fn contains_in(buf: &[u8], lo: usize, tok: &Vec<u8>) -> (r: bool)
    requires
        lo <= buf@.len(),
    ensures
        r == contains(buf@.subrange(lo as int, buf@.len() as int), tok@),
{
    let ghost s = buf@.subrange(lo as int, buf@.len() as int);
    if tok.len() > buf.len() - lo {
        assert forall|i: int| !occurs_at(s, tok@, i) by {}
        return false;
    }
    if tok.len() == 0 {
        assert(s.subrange(0, 0) =~= tok@);
        assert(occurs_at(s, tok@, 0));
        return true;
    }
    let last: usize = buf.len() - tok.len();
    let mut i: usize = lo;
    while i <= last
        invariant
            lo <= i <= last + 1,
            last + tok@.len() == buf@.len(),
            tok@.len() > 0,
            buf@.len() <= usize::MAX,
            lo + tok@.len() <= buf@.len(),
            s == buf@.subrange(lo as int, buf@.len() as int),
            forall|k: int| 0 <= k < i - lo ==> !occurs_at(s, tok@, k),
        decreases last + 1 - i,
    {
        assert(s.subrange(i - lo, i - lo + tok@.len()) =~= buf@.subrange(
            i as int,
            i + tok@.len(),
        ));
        if range_is(buf, i, i + tok.len(), tok) {
            assert(occurs_at(s, tok@, i - lo));
            return true;
        }
        i = i + 1;
    }
    assert forall|k: int| !occurs_at(s, tok@, k) by {
        if 0 <= k && k + tok@.len() <= s.len() {
            assert(k < i - lo);
        }
    }
    false
}

/// The paths of the device logs among the entries that the enumeration of the data
/// directory produced, in order. An entry that could not be read (`None`) is
/// skipped, as is anything but an ordinary file, and a file whose name contains
/// `generic`.
pub fn select_data_files(found: &Vec<Option<FoundPath>>) -> (r: Vec<String>)
    ensures
        r@.map_values(|p: String| p@) == selected(found@),
{
    let generic: Vec<u8> = vec![103, 101, 110, 101, 114, 105, 99];
    assert(generic@ =~= generic_word());
    let mut r: Vec<String> = Vec::new();
    let mut i: usize = 0;
    while i < found.len()
        invariant
            0 <= i <= found@.len(),
            generic@ == generic_word(),
            r@.map_values(|p: String| p@) == selected(found@.subrange(0, i as int)),
        decreases found@.len() - i,
    {
        let ghost before = r@;
        assert(found@.subrange(0, i + 1).drop_last() =~= found@.subrange(0, i as int));
        match &found[i] {
            Some(f) => {
                let keep = if f.is_file {
                    let bytes = f.path.as_str().as_bytes();
                    let start = name_start_in(bytes);
                    !contains_in(bytes, start, &generic)
                } else {
                    false
                };
                if keep {
                    r.push(f.path.clone());
                    assert(r@.map_values(|p: String| p@) =~= before.map_values(|p: String| p@).push(
                        f.path@,
                    ));
                }
            },
            None => {},
        }
        i = i + 1;
    }
    assert(found@.subrange(0, found@.len() as int) =~= found@);
    r
}

} // verus!
