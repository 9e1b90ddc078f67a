//! Paths as sequences of bytes, and the places where files are kept.
use vstd::prelude::*;
use vstd::utf8::*;

verus! {

/// What stands between the names in a path.
pub const SEPARATOR: u8 = 47;

/// The path of a name within a directory; the name must not start with a separator.
pub open spec fn within(dir: Seq<u8>, name: Seq<u8>) -> Seq<u8> {
    if dir.len() == 0 || dir.last() == SEPARATOR {
        dir + name
    } else {
        dir + seq![SEPARATOR] + name
    }
}

/// The path of a named entry of a directory.
pub open spec fn entry(dir: Seq<u8>, name: Seq<char>) -> Seq<u8> {
    within(dir, encode_utf8(name))
}

fn put_bytes(out: &mut Vec<u8>, s: &[u8])
    ensures
        final(out)@ == old(out)@ + s@,
{
    let mut i: usize = 0;
    while i < s.len()
        invariant
            i <= s@.len(),
            out@ == old(out)@ + s@.take(i as int),
        decreases s.len() - i,
    {
        out.push(s[i]);
        i += 1;
        assert(s@.take(i as int) =~= s@.take(i - 1).push(s@[i - 1]));
    }
    assert(s@.take(i as int) =~= s@);
}

/// The path of a named entry of a directory.
pub fn join(dir: &[u8], name: &str) -> (r: Vec<u8>)
    ensures
        r@ == entry(dir@, name@),
{
    let mut out: Vec<u8> = Vec::new();
    put_bytes(&mut out, dir);
    if dir.len() > 0 && dir[dir.len() - 1] != SEPARATOR {
        out.push(SEPARATOR);
    }
    put_bytes(&mut out, name.as_bytes());
    assert(out@ =~= entry(dir@, name@));
    out
}

pub open spec fn opt_bytes(b: Option<Vec<u8>>) -> Option<Seq<u8>> {
    match b {
        Some(b) => Some(b@),
        None => None,
    }
}

/// A copy of some bytes.
pub fn copy_bytes(s: &[u8]) -> (r: Vec<u8>)
    ensures
        r@ == s@,
{
    let mut out: Vec<u8> = Vec::new();
    put_bytes(&mut out, s);
    assert(out@ =~= s@);
    out
}

pub fn same_bytes(a: &[u8], b: &[u8]) -> (r: bool)
    ensures
        r == (a@ == b@),
{
    if a.len() != b.len() {
        return false;
    }
    let mut i: usize = 0;
    while i < a.len()
        invariant
            i <= a@.len() == b@.len(),
            forall|j: int| 0 <= j < i ==> a@[j] == b@[j],
        decreases a.len() - i,
    {
        if a[i] != b[i] {
            return false;
        }
        i += 1;
    }
    assert(a@ =~= b@);
    true
}

/// Where the data of the application should be kept: below `XDG_DATA_HOME` if it is set, else
/// below the home directory, else below the directory for temporary files.
pub open spec fn data_dir_of(xdg: Option<Seq<u8>>, home: Option<Seq<u8>>, temp: Seq<u8>) -> Seq<u8> {
    let base = match (xdg, home) {
        (Some(x), _) => x,
        (None, Some(h)) => entry(entry(h, ".local"@), "share"@),
        (None, None) => temp,
    };
    entry(base, "network-monitor"@)
}

/// Where the data of the application should be kept.
pub fn data_dir(xdg: &Option<Vec<u8>>, home: &Option<Vec<u8>>, temp: &[u8]) -> (r: Vec<u8>)
    ensures
        r@ == data_dir_of(opt_bytes(*xdg), opt_bytes(*home), temp@),
{
    let base: Vec<u8> = match (xdg, home) {
        (Some(x), _) => copy_bytes(x.as_slice()),
        (None, Some(h)) => join(join(h.as_slice(), ".local").as_slice(), "share"),
        (None, None) => copy_bytes(temp),
    };
    join(base.as_slice(), "network-monitor")
}

/// Where the data is kept: the directory for it, or that for temporary files where the former
/// cannot be made.
pub fn usable_data_dir(wanted: Vec<u8>, made: bool, temp: Vec<u8>) -> (r: Vec<u8>)
    ensures
        r@ == if made {
            wanted@
        } else {
            temp@
        },
{
    if made {
        wanted
    } else {
        temp
    }
}

/// Where the last occurrence of a byte stands.
pub open spec fn last_of(s: Seq<u8>, b: u8) -> Option<int>
    decreases s.len(),
{
    if s.len() == 0 {
        None
    } else if s.last() == b {
        Some(s.len() - 1)
    } else {
        last_of(s.drop_last(), b)
    }
}

pub proof fn lemma_last_of(s: Seq<u8>, b: u8)
    ensures
        match last_of(s, b) {
            Some(k) => 0 <= k < s.len() && s[k] == b && forall|i: int| k < i < s.len() ==> #[trigger] s[i] != b,
            None => forall|i: int| 0 <= i < s.len() ==> #[trigger] s[i] != b,
        },
    decreases s.len(),
{
    if s.len() > 0 && s.last() != b {
        let rest = s.drop_last();
        lemma_last_of(rest, b);
        let from = match last_of(s, b) {
            Some(k) => k,
            None => -1,
        };
        assert forall|i: int| from < i < s.len() implies #[trigger] s[i] != b by {
            if i < rest.len() {
                assert(rest[i] == s[i]);
            }
        }
    }
}

/// Where the last occurrence of a byte stands.
pub fn find_last(s: &[u8], b: u8) -> (r: Option<usize>)
    ensures
        match r {
            Some(k) => k < s@.len() && last_of(s@, b) == Some(k as int),
            None => last_of(s@, b) is None,
        },
{
    let mut i: usize = s.len();
    assert(s@.take(i as int) =~= s@);
    while i > 0
        invariant
            i <= s@.len(),
            last_of(s@, b) == last_of(s@.take(i as int), b),
        decreases i,
    {
        let k: usize = i - 1;
        assert(s@.take(i as int).last() == s@[k as int]);
        assert(s@.take(i as int).drop_last() =~= s@.take(k as int));
        if s[k] == b {
            return Some(k);
        }
        i = k;
    }
    None
}

/// The directory that holds the entry of an absolute path without needless separators: what
/// stands before the last separator. The root is held by none.
pub open spec fn parent_of(path: Seq<u8>) -> Option<Seq<u8>> {
    match last_of(path, SEPARATOR) {
        Some(k) => if path.len() == 1 {
            None
        } else if k == 0 {
            Some(seq![SEPARATOR])
        } else {
            Some(path.take(k))
        },
        None => None,
    }
}

/// A name within a directory has that directory for its parent.
pub proof fn law_parent_of_entry(dir: Seq<u8>, name: Seq<u8>)
    requires
        dir.len() > 0,
        dir.last() == SEPARATOR ==> dir.len() == 1,
        name.len() > 0,
        !name.contains(SEPARATOR),
    ensures
        parent_of(within(dir, name)) == Some(dir),
{
    let path = within(dir, name);
    lemma_last_of(path, SEPARATOR);
    let at = path.len() - name.len() - 1;
    assert(path[at] == SEPARATOR);
    assert forall|i: int| at < i < path.len() implies #[trigger] path[i] != SEPARATOR by {
        assert(path[i] == name[i - at - 1]);
    }
    let k = last_of(path, SEPARATOR)->Some_0;
    assert(k == at);
    if dir.last() == SEPARATOR {
        assert(dir =~= seq![SEPARATOR]);
    } else {
        assert(path.take(at) =~= dir);
    }
}

/// Only direct entries of a directory have it for their parent.
pub proof fn law_parent_holds_entry(path: Seq<u8>)
    requires
        parent_of(path) is Some,
        forall|i: int| 0 < i < path.len() ==> !(path[i - 1] == SEPARATOR && #[trigger] path[i] == SEPARATOR),
    ensures
        exists|name: Seq<u8>| !name.contains(SEPARATOR) && #[trigger] within(parent_of(path)->Some_0, name) == path,
{
    lemma_last_of(path, SEPARATOR);
    let k = last_of(path, SEPARATOR)->Some_0;
    let dir = parent_of(path)->Some_0;
    let name = path.skip(k + 1);
    assert(!name.contains(SEPARATOR)) by {
        if name.contains(SEPARATOR) {
            let i = choose|i: int| 0 <= i < name.len() && name[i] == SEPARATOR;
            assert(path[k + 1 + i] == SEPARATOR);
        }
    }
    if k > 0 {
        assert(path[k] == SEPARATOR);
        assert(dir.last() == path[k - 1]);
    }
    assert(within(dir, name) =~= path);
}

/// The directory that holds the entry of an absolute path without needless separators.
pub fn parent(path: &[u8]) -> (r: Option<Vec<u8>>)
    ensures
        opt_bytes(r) == parent_of(path@),
{
    match find_last(path, SEPARATOR) {
        Some(k) => if path.len() == 1 {
            None
        } else if k == 0 {
            let root: Vec<u8> = vec![SEPARATOR];
            assert(root@ =~= seq![SEPARATOR]);
            Some(root)
        } else {
            Some(copy_bytes(vstd::slice::slice_subrange(path, 0, k)))
        },
        None => None,
    }
}


/// A name is put behind the directory with one separator between them, and the data is kept
/// below the directory that is set, whatever the home directory is; else in the home directory;
/// and only where neither is known among the temporary files.
pub proof fn law_data_is_kept_below(xdg: Seq<u8>, home: Option<Seq<u8>>, h: Seq<u8>, temp: Seq<u8>, name: Seq<u8>)
    requires
        xdg.len() > 0,
        xdg.last() != 47u8,
    ensures
        within(xdg, name) == xdg + seq![47u8] + name,
        within(xdg + seq![47u8], name) == xdg + seq![47u8] + name,
        data_dir_of(Some(xdg), home, temp) == xdg + seq![47u8] + encode_utf8("network-monitor"@),
        data_dir_of(None, Some(h), temp) == entry(entry(entry(h, ".local"@), "share"@), "network-monitor"@),
        data_dir_of(None, None, temp) == entry(temp, "network-monitor"@),
{
    assert((xdg + seq![47u8]).last() == 47u8);
}


/// A name in no directory is the path itself, and the root has no parent.
pub proof fn law_paths_at_the_ends(name: Seq<u8>)
    requires
        name.len() > 0,
        !name.contains(47u8),
    ensures
        within(seq![], name) == name,
        parent_of(seq![47u8]) is None,
        parent_of(seq![47u8] + name) == Some(seq![47u8]),
        parent_of(name) is None,
{
    let none: Seq<u8> = seq![];
    assert(none + name =~= name);
    lemma_last_of(seq![47u8], 47u8);
    law_parent_of_entry(seq![47u8], name);
    lemma_last_of(name, 47u8);
    if last_of(name, 47u8) is Some {
        let k = last_of(name, 47u8)->Some_0;
        assert(name.contains(name[k]));
    }
}

} // verus!
