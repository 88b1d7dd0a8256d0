use vstd::prelude::*;

verus! {

/// The path separator of store keys and prefixes.
pub const SLASH: u8 = 47;

/// `s` begins with `p`.
pub open spec fn starts_with(s: Seq<u8>, p: Seq<u8>) -> bool {
    p.len() <= s.len() && s.subrange(0, p.len() as int) =~= p
}

/// A store key: no leading or trailing separator, no empty segment.
pub open spec fn valid_key(k: Seq<u8>) -> bool {
    &&& (k.len() == 0 || (k[0] != SLASH && k.last() != SLASH))
    &&& forall|i: int| 0 <= i < k.len() - 1 ==> !(k[i] == SLASH && #[trigger] k[i + 1] == SLASH)
}

/// A store prefix: empty, or ending in a separator and not starting with one.
pub open spec fn valid_prefix(p: Seq<u8>) -> bool {
    p.len() == 0 || (p.last() == SLASH && p[0] != SLASH)
}

/// Index of the last separator in `s`, or -1.
pub open spec fn last_slash(s: Seq<u8>) -> int
    decreases s.len(),
{
    if s.len() == 0 {
        -1
    } else if s.last() == SLASH {
        s.len() - 1
    } else {
        last_slash(s.drop_last())
    }
}

/// Index of the first separator in `s`, or -1.
pub open spec fn first_slash(s: Seq<u8>) -> int
    decreases s.len(),
{
    if s.len() == 0 {
        -1
    } else if s[0] == SLASH {
        0
    } else if first_slash(s.drop_first()) < 0 {
        -1
    } else {
        first_slash(s.drop_first()) + 1
    }
}

/// The prefix that a key lives directly under: everything up to and
/// including its last separator.
pub open spec fn parent_of(k: Seq<u8>) -> Seq<u8> {
    k.subrange(0, last_slash(k) + 1)
}

/// `name` with the mount root `root` taken off, where that leaves something.
pub open spec fn stripped(name: Seq<u8>, root: Seq<u8>) -> Option<Seq<u8>> {
    if starts_with(name, root) && name.len() > root.len() {
        Some(name.subrange(root.len() as int, name.len() as int))
    } else {
        None
    }
}

/// The prefix one segment below `p` on the way to `k`, where `k` lies more
/// than one segment below `p` and that prefix is well formed.
pub open spec fn child_prefix(k: Seq<u8>, p: Seq<u8>) -> Option<Seq<u8>> {
    if !starts_with(k, p) {
        None
    } else {
        let rest = k.subrange(p.len() as int, k.len() as int);
        let j = first_slash(rest);
        if j < 0 {
            None
        } else if valid_prefix(p + rest.subrange(0, j + 1)) {
            Some(p + rest.subrange(0, j + 1))
        } else {
            None
        }
    }
}

proof fn lemma_first_slash_is(s: Seq<u8>, i: int)
    requires
        0 <= i <= s.len(),
        i < s.len() ==> s[i] == SLASH,
        forall|j: int| 0 <= j < i ==> s[j] != SLASH,
    ensures
        first_slash(s) == (if i < s.len() { i } else { -1 }),
    decreases s.len(),
{
    if s.len() > 0 && i > 0 {
        lemma_first_slash_is(s.drop_first(), i - 1);
    }
}

proof fn lemma_last_slash_is(s: Seq<u8>, i: int)
    requires
        -1 <= i < s.len(),
        i >= 0 ==> s[i] == SLASH,
        forall|j: int| i < j < s.len() ==> s[j] != SLASH,
    ensures
        last_slash(s) == i,
    decreases s.len(),
{
    if s.len() > 0 && i < s.len() - 1 {
        lemma_last_slash_is(s.drop_last(), i);
    }
}

/// Whether `s` begins with `p`.
pub fn has_prefix(s: &[u8], p: &[u8]) -> (r: bool)
    ensures
        r == starts_with(s@, p@),
{
    if p.len() > s.len() {
        return false;
    }
    let mut i: usize = 0;
    while i < p.len()
        invariant
            p.len() <= s.len(),
            i <= p.len(),
            forall|j: int| 0 <= j < i ==> s@[j] == p@[j],
        decreases p.len() - i,
    {
        if s[i] != p[i] {
            return false;
        }
        i += 1;
    }
    true
}

/// Copies `s[lo..hi]`.
pub fn copy_range(s: &[u8], lo: usize, hi: usize) -> (r: Vec<u8>)
    requires
        lo <= hi <= s.len(),
    ensures
        r@ =~= s@.subrange(lo as int, hi as int),
{
    let mut r: Vec<u8> = Vec::new();
    let mut i: usize = lo;
    while i < hi
        invariant
            lo <= i <= hi <= s.len(),
            r@ =~= s@.subrange(lo as int, i as int),
        decreases hi - i,
    {
        r.push(s[i]);
        i += 1;
    }
    r
}

/// Whether `k` is a well-formed store key.
pub fn validate_key(k: &[u8]) -> (r: bool)
    ensures
        r == valid_key(k@),
{
    let n = k.len();
    if n > 0 && (k[0] == SLASH || k[n - 1] == SLASH) {
        return false;
    }
    let mut i: usize = 0;
    while n > 0 && i < n - 1
        invariant
            n == k.len(),
            forall|j: int| 0 <= j < i && j < n - 1 ==> !(k@[j] == SLASH && #[trigger] k@[j + 1] == SLASH),
        decreases n - i,
    {
        if k[i] == SLASH && k[i + 1] == SLASH {
            return false;
        }
        i += 1;
    }
    true
}

/// Whether `p` is a well-formed store prefix.
pub fn validate_prefix(p: &[u8]) -> (r: bool)
    ensures
        r == valid_prefix(p@),
{
    p.len() == 0 || (p[p.len() - 1] == SLASH && p[0] != SLASH)
}

/// The prefix that key `k` lives directly under (empty for a top-level key).
pub fn key_parent(k: &[u8]) -> (r: Vec<u8>)
    ensures
        r@ == parent_of(k@),
{
    let mut i: usize = k.len();
    while i > 0 && k[i - 1] != SLASH
        invariant
            i <= k.len(),
            forall|j: int| i <= j < k.len() ==> k@[j] != SLASH,
        decreases i,
    {
        i -= 1;
    }
    proof {
        lemma_last_slash_is(k@, i - 1);
    }
    copy_range(k, 0, i)
}

/// The archive name `name` with the mount root `root` taken off; `None` where
/// `name` lies outside the root or is the root itself.
pub fn strip_zip_path_prefix(name: &[u8], root: &[u8]) -> (r: Option<Vec<u8>>)
    ensures
        r matches Some(v) ==> stripped(name@, root@) == Some(v@),
        r is None ==> stripped(name@, root@) is None,
{
    if has_prefix(name, root) && name.len() > root.len() {
        Some(copy_range(name, root.len(), name.len()))
    } else {
        None
    }
}

/// The prefix one segment below `p` that leads to key `k`; `None` where `k`
/// is not under `p`, lies directly in it, or that prefix is not well formed.
pub fn immediate_child_prefix(k: &[u8], p: &[u8]) -> (r: Option<Vec<u8>>)
    ensures
        r matches Some(v) ==> child_prefix(k@, p@) == Some(v@),
        r is None ==> child_prefix(k@, p@) is None,
{
    if !has_prefix(k, p) {
        return None;
    }
    let ghost rest = k@.subrange(p.len() as int, k.len() as int);
    let mut i: usize = p.len();
    while i < k.len() && k[i] != SLASH
        invariant
            p.len() <= i <= k.len(),
            rest == k@.subrange(p.len() as int, k.len() as int),
            forall|j: int| p.len() <= j < i ==> k@[j] != SLASH,
        decreases k.len() - i,
    {
        i += 1;
    }
    proof {
        lemma_first_slash_is(rest, i - p.len());
    }
    if i == k.len() {
        return None;
    }
    let child = copy_range(k, 0, i + 1);
    proof {
        assert(child@ =~= p@ + rest.subrange(0, i - p.len() + 1));
    }
    if validate_prefix(&child) {
        Some(child)
    } else {
        None
    }
}

} // verus!
