//! Executable operations on the backup ledger, each proved to act on the
//! ledger's map image exactly as the corresponding map operation.

use vstd::prelude::*;

use crate::util::{clone_key_path, key_path_eq};
use crate::manifest::{LedgerEntry, LedgerEntryV, ledger_entries_wf, ledger_map};
use crate::source::{DirectSource, SourceV};

verus! {

/// Every path in the map image of a ledger is the path of one of its
/// entries, and the other way round.
pub proof fn lemma_ledger_map_dom(s: Seq<LedgerEntryV>)
    ensures
        forall|p: Seq<Seq<char>>|
            ledger_map(s).dom().contains(p) <==> (exists|i: int|
                0 <= i < s.len() && (#[trigger] s[i]).path == p),
    decreases s.len(),
{
    if s.len() > 0 {
        lemma_ledger_map_dom(s.drop_last());
        assert forall|p: Seq<Seq<char>>| ledger_map(s).dom().contains(p) implies (exists|i: int|
            0 <= i < s.len() && (#[trigger] s[i]).path == p) by {
            if p == s.last().path {
                assert(s[s.len() - 1].path == p);
            } else {
                assert(ledger_map(s.drop_last()).dom().contains(p));
                let i = choose|i: int|
                    0 <= i < s.drop_last().len() && (#[trigger] s.drop_last()[i]).path == p;
                assert(s[i] == s.drop_last()[i]);
                assert(s[i].path == p);
            }
        }
        assert forall|p: Seq<Seq<char>>| (exists|i: int|
            0 <= i < s.len() && (#[trigger] s[i]).path == p) implies ledger_map(s).dom().contains(
            p,
        ) by {
            let i = choose|i: int| 0 <= i < s.len() && (#[trigger] s[i]).path == p;
            if i < s.len() - 1 {
                assert((#[trigger] s.drop_last()[i]).path == p);
                assert(ledger_map(s.drop_last()).dom().contains(p));
            }
        }
    }
}

/// In a well-formed ledger the map image agrees with every entry.
pub proof fn lemma_ledger_map_at(s: Seq<LedgerEntryV>, i: int)
    requires
        ledger_entries_wf(s),
        0 <= i < s.len(),
    ensures
        ledger_map(s).dom().contains(s[i].path),
        ledger_map(s)[s[i].path] == s[i].original,
    decreases s.len(),
{
    if i == s.len() - 1 {
    } else {
        assert(ledger_entries_wf(s.drop_last()));
        lemma_ledger_map_at(s.drop_last(), i);
        assert(s[i].path != s.last().path);
        assert(s.drop_last()[i] == s[i]);
    }
}

/// Removing the one entry that holds a path removes that path from the map
/// image and keeps everything else.
pub proof fn lemma_ledger_map_remove(s: Seq<LedgerEntryV>, i: int)
    requires
        ledger_entries_wf(s),
        0 <= i < s.len(),
    ensures
        ledger_entries_wf(s.remove(i)),
        ledger_map(s.remove(i)) == ledger_map(s).remove(s[i].path),
    decreases s.len(),
{
    let p = s[i].path;
    if i == s.len() - 1 {
        assert(s.remove(i) =~= s.drop_last());
        lemma_ledger_map_dom(s.drop_last());
        assert(!ledger_map(s.drop_last()).dom().contains(p));
        assert(ledger_map(s.drop_last()) =~= ledger_map(s).remove(p));
    } else {
        assert(ledger_entries_wf(s.drop_last()));
        lemma_ledger_map_remove(s.drop_last(), i);
        assert(s.remove(i).drop_last() =~= s.drop_last().remove(i));
        assert(s.remove(i).last() == s.last());
        assert(ledger_map(s.remove(i)) == ledger_map(s.drop_last().remove(i)).insert(
            s.last().path,
            s.last().original,
        ));
        assert(p != s.last().path);
        assert(ledger_map(s.drop_last()).remove(p).insert(s.last().path, s.last().original)
            =~= ledger_map(s).remove(p));
        assert forall|j: int, k: int| 0 <= j < k < s.remove(i).len() implies s.remove(i)[j].path
            != s.remove(i)[k].path by {
            let j0 = if j < i {
                j
            } else {
                j + 1
            };
            let k0 = if k < i {
                k
            } else {
                k + 1
            };
            assert(s.remove(i)[j] == s[j0]);
            assert(s.remove(i)[k] == s[k0]);
        }
    }
}

/// Appending an entry acts as a map insert.
pub proof fn lemma_ledger_map_push(s: Seq<LedgerEntryV>, e: LedgerEntryV)
    ensures
        ledger_map(s.push(e)) == ledger_map(s).insert(e.path, e.original),
{
    assert(s.push(e).drop_last() =~= s);
    assert(s.push(e).last() == e);
}

/// The index of the entry holding `path`, if any.
fn ledger_find(entries: &Vec<LedgerEntry>, path: &Vec<String>) -> (r: Option<usize>)
    ensures
        match r {
            Some(i) => i < entries@.len() && entries@[i as int]@.path == path.deep_view(),
            None => forall|i: int|
                0 <= i < entries@.len() ==> (#[trigger] entries@[i])@.path != path.deep_view(),
        },
{
    let mut i: usize = 0;
    while i < entries.len()
        invariant
            i <= entries@.len(),
            forall|k: int|
                0 <= k < i ==> (#[trigger] entries@[k])@.path != path.deep_view(),
        decreases entries@.len() - i,
    {
        if key_path_eq(&entries[i].path, path) {
            return Some(i);
        }
        i += 1;
    }
    None
}

/// The recorded original source for a key path, if one exists.
pub fn ledger_lookup(entries: &Vec<LedgerEntry>, path: &Vec<String>) -> (r: Option<DirectSource>)
    requires
        ledger_entries_wf(entries.deep_view()),
    ensures
        match r {
            Some(s) => ledger_map(entries.deep_view()).dom().contains(path.deep_view()) && s@
                == ledger_map(entries.deep_view())[path.deep_view()],
            None => !ledger_map(entries.deep_view()).dom().contains(path.deep_view()),
        },
{
    match ledger_find(entries, path) {
        Some(i) => {
            proof {
                lemma_ledger_map_at(entries.deep_view(), i as int);
            }
            Some(entries[i].original.clone())
        },
        None => {
            proof {
                lemma_ledger_map_dom(entries.deep_view());
            }
            None
        },
    }
}

/// Record `src` as the original for `path`, replacing any earlier record.
pub fn ledger_insert(entries: &mut Vec<LedgerEntry>, path: &Vec<String>, src: &DirectSource)
    requires
        ledger_entries_wf(old(entries).deep_view()),
    ensures
        ledger_entries_wf(final(entries).deep_view()),
        ledger_map(final(entries).deep_view()) == ledger_map(old(entries).deep_view()).insert(
            path.deep_view(),
            src@,
        ),
{
    let ghost s0 = entries.deep_view();
    match ledger_find(entries, path) {
        Some(i) => {
            proof {
                lemma_ledger_map_remove(s0, i as int);
            }
            entries.remove(i);
            assert(entries.deep_view() =~= s0.remove(i as int));
        },
        None => {},
    }
    let ghost s1 = entries.deep_view();
    proof {
        lemma_ledger_map_dom(s1);
        assert(!ledger_map(s1).dom().contains(path.deep_view()));
        lemma_ledger_map_push(
            s1,
            LedgerEntryV { path: path.deep_view(), original: src@ },
        );
    }
    let entry = LedgerEntry { path: clone_key_path(path), original: src.clone() };
    entries.push(entry);
    assert(entries.deep_view() =~= s1.push(
        LedgerEntryV { path: path.deep_view(), original: src@ },
    ));
    proof {
        assert(ledger_map(entries.deep_view()) =~= ledger_map(s0).insert(path.deep_view(), src@));
        assert forall|j: int, k: int|
            0 <= j < k < entries.deep_view().len() implies entries.deep_view()[j].path
            != entries.deep_view()[k].path by {
            lemma_ledger_map_dom(s1);
        }
    }
}

/// Drop the record for `path`, if any.
pub fn ledger_remove(entries: &mut Vec<LedgerEntry>, path: &Vec<String>)
    requires
        ledger_entries_wf(old(entries).deep_view()),
    ensures
        ledger_entries_wf(final(entries).deep_view()),
        ledger_map(final(entries).deep_view()) == ledger_map(old(entries).deep_view()).remove(
            path.deep_view(),
        ),
{
    let ghost s0 = entries.deep_view();
    match ledger_find(entries, path) {
        Some(i) => {
            proof {
                lemma_ledger_map_remove(s0, i as int);
            }
            entries.remove(i);
            assert(entries.deep_view() =~= s0.remove(i as int));
        },
        None => {
            proof {
                lemma_ledger_map_dom(s0);
                assert(!ledger_map(s0).dom().contains(path.deep_view()));
                assert(ledger_map(s0) =~= ledger_map(s0).remove(path.deep_view()));
            }
        },
    }
}

} // verus!
