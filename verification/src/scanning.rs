//! Partitioning and merging steps of the recursive directory scan.
//!
//! The walk itself performs filesystem I/O and lives with the caller; it
//! hands each directory's listing here to be split into the regular files
//! to collect and the subdirectories to descend into, and merges the file
//! lists of the scanned subtrees.

use vstd::prelude::*;

use crate::names_view;

verus! {

/// One directory child as the scanner sees it: its path and whether the
/// filesystem reports it as a directory or as a regular file.
pub struct DirEntryInfo {
    pub path: String,
    pub is_dir: bool,
    pub is_file: bool,
}

/// Regular-file paths among a directory's children, in listing order.
pub open spec fn files_of(entries: Seq<DirEntryInfo>) -> Seq<Seq<char>>
    decreases entries.len(),
{
    if entries.len() == 0 {
        Seq::empty()
    } else {
        files_of(entries.drop_last()) + (if !entries.last().is_dir && entries.last().is_file {
            seq![entries.last().path@]
        } else {
            Seq::empty()
        })
    }
}

/// Subdirectory paths among a directory's children, in listing order.
pub open spec fn dirs_of(entries: Seq<DirEntryInfo>) -> Seq<Seq<char>>
    decreases entries.len(),
{
    if entries.len() == 0 {
        Seq::empty()
    } else {
        dirs_of(entries.drop_last()) + (if entries.last().is_dir {
            seq![entries.last().path@]
        } else {
            Seq::empty()
        })
    }
}

/// Splits one directory's listing into the regular files to collect and
/// the subdirectories to recurse into. A child that is neither (a symlink
/// or special file) is skipped; an empty listing yields two empty lists.
pub fn partition_entries(entries: &Vec<DirEntryInfo>) -> (r: (Vec<String>, Vec<String>))
    ensures
        names_view(r.0@) == files_of(entries@),
        names_view(r.1@) == dirs_of(entries@),
        entries@.len() == 0 ==> r.0@.len() == 0 && r.1@.len() == 0,
{
    let mut files: Vec<String> = Vec::new();
    let mut dirs: Vec<String> = Vec::new();
    let mut i: usize = 0;
    while i < entries.len()
        invariant
            i <= entries@.len(),
            names_view(files@) == files_of(entries@.subrange(0, i as int)),
            names_view(dirs@) == dirs_of(entries@.subrange(0, i as int)),
        decreases entries@.len() - i,
    {
        if entries[i].is_dir {
            dirs.push(entries[i].path.clone());
        } else if entries[i].is_file {
            files.push(entries[i].path.clone());
        }
        proof {
            assert(entries@.subrange(0, i as int + 1).drop_last() =~= entries@.subrange(
                0,
                i as int,
            ));
            assert(entries@.subrange(0, i as int + 1).last() == entries@[i as int]);
            assert(names_view(files@) =~= files_of(entries@.subrange(0, i as int + 1)));
            assert(names_view(dirs@) =~= dirs_of(entries@.subrange(0, i as int + 1)));
        }
        i = i + 1;
    }
    proof {
        assert(entries@.subrange(0, entries@.len() as int) =~= entries@);
    }
    (files, dirs)
}

/// The concatenation of per-subtree file lists, keeping each list's order
/// and the subtree order.
pub open spec fn flat_view(parts: Seq<Vec<String>>) -> Seq<Seq<char>>
    decreases parts.len(),
{
    if parts.len() == 0 {
        Seq::empty()
    } else {
        flat_view(parts.drop_last()) + names_view(parts.last()@)
    }
}

/// The total number of paths across per-subtree file lists.
pub open spec fn total_len(parts: Seq<Vec<String>>) -> nat
    decreases parts.len(),
{
    if parts.len() == 0 {
        0
    } else {
        total_len(parts.drop_last()) + parts.last()@.len()
    }
}

/// Law: merging loses and invents nothing — a directory with N files of
/// its own and M files found in its subdirectories yields N + M paths.
pub proof fn lemma_merged_len_is_sum(parts: Seq<Vec<String>>)
    ensures
        flat_view(parts).len() == total_len(parts),
    decreases parts.len(),
{
    if parts.len() > 0 {
        lemma_merged_len_is_sum(parts.drop_last());
    }
}

/// Merges the file lists collected from scanned subtrees into one list.
/// Every path of every part appears exactly once, parts in order, so the
/// merged length is the sum of the parts' lengths.
pub fn merge_file_lists(parts: Vec<Vec<String>>) -> (r: Vec<String>)
    ensures
        names_view(r@) == flat_view(parts@),
{
    let mut r: Vec<String> = Vec::new();
    let mut i: usize = 0;
    while i < parts.len()
        invariant
            i <= parts@.len(),
            names_view(r@) == flat_view(parts@.subrange(0, i as int)),
        decreases parts@.len() - i,
    {
        let mut j: usize = 0;
        while j < parts[i].len()
            invariant
                i < parts@.len(),
                j <= parts@[i as int]@.len(),
                names_view(r@) == flat_view(parts@.subrange(0, i as int)) + names_view(
                    parts@[i as int]@.subrange(0, j as int),
                ),
            decreases parts@[i as int]@.len() - j,
        {
            let ghost old_r = r@;
            r.push(parts[i][j].clone());
            proof {
                assert(parts@[i as int]@.subrange(0, j as int + 1).drop_last() =~= parts@[
                    i as int
                ]@.subrange(0, j as int));
                assert(parts@[i as int]@.subrange(0, j as int + 1).last() == parts@[i as int]@[
                    j as int
                ]);
                assert(names_view(r@) =~= names_view(old_r).push(parts@[i as int]@[j as int]@));
                assert(names_view(parts@[i as int]@.subrange(0, j as int + 1)) =~= names_view(
                    parts@[i as int]@.subrange(0, j as int),
                ).push(parts@[i as int]@[j as int]@));
                assert(names_view(r@) =~= flat_view(parts@.subrange(0, i as int)) + names_view(
                    parts@[i as int]@.subrange(0, j as int + 1),
                ));
            }
            j = j + 1;
        }
        proof {
            assert(parts@[i as int]@.subrange(0, parts@[i as int]@.len() as int) =~= parts@[
                i as int
            ]@);
            assert(parts@.subrange(0, i as int + 1).drop_last() =~= parts@.subrange(0, i as int));
            assert(parts@.subrange(0, i as int + 1).last() == parts@[i as int]);
            assert(names_view(r@) =~= flat_view(parts@.subrange(0, i as int + 1)));
        }
        i = i + 1;
    }
    proof {
        assert(parts@.subrange(0, parts@.len() as int) =~= parts@);
    }
    r
}

} // verus!
