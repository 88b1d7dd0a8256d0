use vstd::prelude::*;
use crate::index::{
    dir_entry_of, dir_keys, dir_prefixes, file_keys, file_records, item_of, lookup, one_segment,
    sorted_by_name, EntryView,
};
use crate::keys::{child_prefix, first_slash, parent_of, starts_with, SLASH};
use crate::order::lex_le;
use crate::ranges::{range_end, range_start, ByteRange};

verus! {

proof fn lemma_first_slash_bounds(s: Seq<u8>)
    ensures
        -1 <= first_slash(s) < s.len(),
        first_slash(s) >= 0 ==> s[first_slash(s)] == SLASH,
        forall|i: int| 0 <= i < s.len() && (first_slash(s) < 0 || i < first_slash(s)) ==> s[i] != SLASH,
    decreases s.len(),
{
    if s.len() > 0 && s[0] != SLASH {
        lemma_first_slash_bounds(s.drop_first());
        assert forall|i: int| 1 <= i < s.len() implies s[i] == s.drop_first()[i - 1] by {}
    }
}

proof fn lemma_keys_bounded(s: Seq<(Seq<u8>, bool)>, p: Seq<u8>, x: Seq<u8>)
    requires
        forall|j: int| 0 <= j < s.len() ==> lex_le(#[trigger] s[j].0, x),
    ensures
        forall|i: int| 0 <= i < file_keys(s, p).len() ==> lex_le(#[trigger] file_keys(s, p)[i], x),
    decreases s.len(),
{
    if s.len() > 0 {
        let t = s.drop_last();
        assert forall|j: int| 0 <= j < t.len() implies lex_le(#[trigger] t[j].0, x) by {
            assert(t[j] == s[j]);
        }
        lemma_keys_bounded(t, p, x);
        let r = file_keys(t, p);
        let fk = file_keys(s, p);
        assert(lex_le(s[s.len() - 1].0, x));
        assert forall|i: int| 0 <= i < fk.len() implies lex_le(#[trigger] fk[i], x) by {
            if i < r.len() {
                assert(fk[i] == r[i]);
            }
        }
    }
}

/// A listing comes out in name order: over a name-sorted index, the file
/// keys under any prefix are sorted.
pub proof fn lemma_file_keys_sorted(s: Seq<(Seq<u8>, bool)>, p: Seq<u8>)
    requires
        sorted_by_name(s),
    ensures
        forall|a: int, b: int|
            0 <= a < b < file_keys(s, p).len() ==> lex_le(file_keys(s, p)[a], file_keys(s, p)[b]),
    decreases s.len(),
{
    if s.len() > 0 {
        let t = s.drop_last();
        assert(sorted_by_name(t)) by {
            assert forall|a: int, b: int| 0 <= a < b < t.len() implies lex_le(t[a].0, t[b].0) by {
                assert(t[a] == s[a] && t[b] == s[b]);
            }
        }
        lemma_file_keys_sorted(t, p);
        assert forall|j: int| 0 <= j < t.len() implies lex_le(#[trigger] t[j].0, s.last().0) by {
            assert(t[j] == s[j]);
        }
        lemma_keys_bounded(t, p, s.last().0);
        let r = file_keys(t, p);
        let fk = file_keys(s, p);
        assert forall|a: int, b: int| 0 <= a < b < fk.len() implies lex_le(fk[a], fk[b]) by {
            if b < r.len() {
                assert(fk[a] == r[a] && fk[b] == r[b]);
            } else {
                assert(fk[a] == r[a]);
                assert(lex_le(r[a], s.last().0));
            }
        }
    }
}

/// A listing under a prefix is the full listing filtered to the keys that
/// start with that prefix, in the same order.
pub proof fn lemma_list_prefix_is_filter(s: Seq<(Seq<u8>, bool)>, p: Seq<u8>)
    ensures
        file_keys(s, p) == file_keys(s, Seq::empty()).filter(|k: Seq<u8>| starts_with(k, p)),
    decreases s.len(),
{
    let f = |k: Seq<u8>| starts_with(k, p);
    if s.len() == 0 {
        assert(file_keys(s, Seq::empty()).filter(f) =~= Seq::empty());
    } else {
        let t = s.drop_last();
        lemma_list_prefix_is_filter(t, p);
        let x = s.last().0;
        assert(starts_with(x, Seq::empty()));
        if s.last().1 {
            file_keys(t, Seq::empty()).lemma_filter_push(x, f);
        }
    }
}

/// A directory listing never reaches more than one segment below the
/// prefix: its keys lie directly in it, and each of its prefixes extends it
/// by one segment.
pub proof fn lemma_list_dir_depth(s: Seq<(Seq<u8>, bool)>, p: Seq<u8>)
    ensures
        forall|i: int| 0 <= i < dir_keys(s, p).len() ==> {
            let k = #[trigger] dir_keys(s, p)[i];
            starts_with(k, p) && parent_of(k) == p
        },
        forall|i: int| 0 <= i < dir_prefixes(s, p).len() ==> {
            let c = #[trigger] dir_prefixes(s, p)[i];
            starts_with(c, p) && one_segment(c.subrange(p.len() as int, c.len() as int))
        },
    decreases s.len(),
{
    if s.len() > 0 {
        let t = s.drop_last();
        lemma_list_dir_depth(t, p);
        if dir_entry_of(s.last(), p) is Some {
            lemma_entry_one_segment(s.last(), p);
        }
        let rk = dir_keys(t, p);
        let dk = dir_keys(s, p);
        assert forall|i: int| 0 <= i < dk.len() implies {
            let k = #[trigger] dk[i];
            starts_with(k, p) && parent_of(k) == p
        } by {
            if i < rk.len() {
                assert(dk[i] == rk[i]);
            }
        }
        let rp = dir_prefixes(t, p);
        let dp = dir_prefixes(s, p);
        assert forall|i: int| 0 <= i < dp.len() implies {
            let c = #[trigger] dp[i];
            starts_with(c, p) && one_segment(c.subrange(p.len() as int, c.len() as int))
        } by {
            if i < rp.len() {
                assert(dp[i] == rp[i]);
            }
        }
    }
}

proof fn lemma_entry_one_segment(it: (Seq<u8>, bool), p: Seq<u8>)
    requires
        dir_entry_of(it, p) is Some,
    ensures
        starts_with(dir_entry_of(it, p).unwrap(), p),
        one_segment(
            dir_entry_of(it, p).unwrap().subrange(
                p.len() as int,
                dir_entry_of(it, p).unwrap().len() as int,
            ),
        ),
{
    if it.1 {
        let k = it.0;
        let rest = k.subrange(p.len() as int, k.len() as int);
        let j = first_slash(rest);
        lemma_first_slash_bounds(rest);
        let c = p + rest.subrange(0, j + 1);
        assert(child_prefix(k, p) == Some(c));
        assert(c.subrange(0, p.len() as int) =~= p);
        let tail = c.subrange(p.len() as int, c.len() as int);
        assert(tail =~= rest.subrange(0, j + 1));
        assert forall|i: int| 0 <= i < tail.len() - 1 implies (tail[i] == SLASH ==> #[trigger] tail[i + 1] == SLASH) by {
            assert(tail[i] == rest[i]);
        }
    }
}

/// Every name under the prefix that lies more than one segment deep shows up
/// in a directory listing as its prefix one segment down, and equal
/// neighbours are collapsed into one.
pub proof fn lemma_list_dir_covers(s: Seq<(Seq<u8>, bool)>, p: Seq<u8>)
    ensures
        forall|i: int|
            0 <= i < s.len() ==> (#[trigger] dir_entry_of(s[i], p) matches Some(c)
                ==> dir_prefixes(s, p).contains(c)),
        forall|i: int|
            0 <= i < dir_prefixes(s, p).len() - 1 ==> #[trigger] dir_prefixes(s, p)[i]
                != dir_prefixes(s, p)[i + 1],
    decreases s.len(),
{
    if s.len() > 0 {
        let t = s.drop_last();
        lemma_list_dir_covers(t, p);
        let r = dir_prefixes(t, p);
        let r2 = dir_prefixes(s, p);
        assert forall|i: int| 0 <= i < s.len() implies (#[trigger] dir_entry_of(s[i], p) matches Some(c)
            ==> r2.contains(c)) by {
            if i < t.len() {
                assert(t[i] == s[i]);
                if let Some(c) = dir_entry_of(s[i], p) {
                    let w = choose|w: int| 0 <= w < r.len() && r[w] == c;
                    assert(r2[w] == c);
                }
            } else {
                if let Some(c) = dir_entry_of(s[i], p) {
                    if r.len() > 0 && r.last() == c {
                        assert(r2[r.len() - 1] == c);
                    } else {
                        assert(r2[r.len() as int] == c);
                    }
                }
            }
        }
    }
}

/// The uncompressed size that the index gives a key is that of an archive
/// entry that is a file of that name under the root.
pub proof fn lemma_size_from_archive(es: Seq<EntryView>, root: Seq<u8>, k: Seq<u8>)
    requires
        lookup(file_records(es, root), k) is Some,
    ensures
        exists|i: int|
            0 <= i < es.len() && #[trigger] item_of(es[i], root) == Some((k, true))
                && es[i].uncompressed_size == lookup(
                file_records(es, root),
                k,
            ).unwrap().uncompressed_size,
    decreases es.len(),
{
    let t = es.drop_last();
    let fr = file_records(t, root);
    let e = es.last();
    if let Some(it) = item_of(e, root) {
        if it.1 {
            lemma_lookup_push(fr, k, EntryView { name: it.0, ..e });
        }
    }
    if lookup(fr, k) is Some && !(item_of(e, root) matches Some(it) && it.1 && it.0 == k) {
        lemma_size_from_archive(t, root, k);
        let i = choose|i: int| 0 <= i < t.len() && #[trigger] item_of(t[i], root) == Some((k, true))
            && t[i].uncompressed_size == lookup(fr, k).unwrap().uncompressed_size;
        assert(es[i] == t[i]);
    } else {
        assert(es[es.len() - 1] == e);
    }
}

proof fn lemma_lookup_push(fr: Seq<EntryView>, k: Seq<u8>, x: EntryView)
    ensures
        lookup(fr.push(x), k) == if x.name == k {
            Some(x)
        } else {
            lookup(fr, k)
        },
{
    assert(fr.push(x).drop_last() =~= fr);
}

/// Reading a prefix of a value and then the rest gives back the whole value.
pub proof fn lemma_split_read_reconstructs(data: Seq<u8>, m: u64)
    requires
        m <= data.len() <= u64::MAX,
    ensures
        data.subrange(
            range_start(ByteRange::FromStart(0, Some(m)), data.len() as u64),
            range_end(ByteRange::FromStart(0, Some(m)), data.len() as u64),
        ) + data.subrange(
            range_start(ByteRange::FromStart(m, None), data.len() as u64),
            range_end(ByteRange::FromStart(m, None), data.len() as u64),
        ) == data,
{
    assert(data.subrange(0, m as int) + data.subrange(m as int, data.len() as int) =~= data);
}

/// An entry named `root` followed by a non-empty `n` is exposed as `n`.
pub proof fn lemma_root_stripped(e: EntryView, root: Seq<u8>, n: Seq<u8>)
    requires
        e.name == root + n,
        n.len() > 0,
    ensures
        e.kind == crate::index::EntryKind::File ==> item_of(e, root) == Some((n, true)),
        e.kind == crate::index::EntryKind::Directory ==> item_of(e, root) == Some((n, false)),
{
    assert(e.name.subrange(0, root.len() as int) =~= root);
    assert(e.name.subrange(root.len() as int, e.name.len() as int) =~= n);
}

} // verus!
