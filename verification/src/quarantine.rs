//! Planning of collision-safe relocations for duplicate files.
//!
//! For every duplicate group the first path stays in place; each later
//! path is assigned a destination name inside the quarantine directory.
//! The name is the file's base name when that is still free, otherwise the
//! stem with `_1`, `_2`, ... appended before the extension, with the first
//! free counter winning. The caller performs the renames and reports back
//! the directory's occupied names; the planning and naming rules here are
//! what is verified.

use vstd::prelude::*;
use vstd::string::*;

use crate::names_view;
use crate::report::ReportEntry;

verus! {

/// The base name of a path: the characters after the last `/`, the whole
/// path when it has none.
pub open spec fn suffix_after_slash(path: Seq<char>) -> Seq<char>
    decreases path.len(),
{
    if path.len() == 0 {
        Seq::empty()
    } else if path.last() == '/' {
        Seq::empty()
    } else {
        suffix_after_slash(path.drop_last()).push(path.last())
    }
}

/// A path has a usable base name when the part after the last `/` is
/// neither empty (an empty or root-only path) nor one of the relative
/// components `.` and `..`.
pub open spec fn valid_base_name(path: Seq<char>) -> bool {
    &&& suffix_after_slash(path).len() > 0
    &&& suffix_after_slash(path) != seq!['.']
    &&& suffix_after_slash(path) != seq!['.', '.']
}

/// Extracts the base name of a path, or `None` when the path has no usable
/// one.
pub fn base_name(path: &str) -> (r: Option<String>)
    ensures
        match r {
            Some(b) => valid_base_name(path@) && b@ == suffix_after_slash(path@),
            None => !valid_base_name(path@),
        },
{
    let n = path.unicode_len();
    let mut start: usize = 0;
    let mut i: usize = 0;
    while i < n
        invariant
            n == path@.len(),
            i <= n,
            start <= i,
            suffix_after_slash(path@.subrange(0, i as int)) == path@.subrange(
                start as int,
                i as int,
            ),
        decreases n - i,
    {
        let c = path.get_char(i);
        proof {
            assert(path@.subrange(0, i as int + 1).drop_last() =~= path@.subrange(0, i as int));
            assert(path@.subrange(0, i as int + 1).last() == path@[i as int]);
        }
        if c == '/' {
            proof {
                assert(suffix_after_slash(path@.subrange(0, i as int + 1)) =~= path@.subrange(
                    i as int + 1,
                    i as int + 1,
                ));
            }
            start = i + 1;
        } else {
            proof {
                assert(suffix_after_slash(path@.subrange(0, i as int + 1)) =~= path@.subrange(
                    start as int,
                    i as int + 1,
                ));
            }
        }
        i = i + 1;
    }
    proof {
        assert(path@.subrange(0, n as int) =~= path@);
    }
    if n == start {
        return None;
    }
    if n - start == 1 && path.get_char(start) == '.' {
        proof {
            assert(suffix_after_slash(path@) =~= seq!['.']);
        }
        return None;
    }
    if n - start == 2 && path.get_char(start) == '.' && path.get_char(start + 1) == '.' {
        proof {
            assert(suffix_after_slash(path@) =~= seq!['.', '.']);
        }
        return None;
    }
    proof {
        let b = suffix_after_slash(path@);
        if b == seq!['.'] {
            assert(path@[start as int] == b[0]);
        }
        if b == seq!['.', '.'] {
            assert(path@[start as int] == b[0]);
            assert(path@[start as int + 1] == b[1]);
        }
    }
    Some(path.substring_char(start, n).to_owned())
}

/// Where the extension starts within a base name: the position of the last
/// `.` that is not the first character, or the name's length when there is
/// no such `.` (then the extension is empty).
pub open spec fn split_pos(name: Seq<char>) -> int
    decreases name.len(),
{
    if name.len() <= 1 {
        name.len() as int
    } else if name.last() == '.' {
        name.len() - 1
    } else {
        let p = split_pos(name.drop_last());
        if p == name.len() - 1 {
            name.len() as int
        } else {
            p
        }
    }
}

pub proof fn lemma_split_pos_range(name: Seq<char>)
    ensures
        0 <= split_pos(name) <= name.len(),
        name.len() >= 1 ==> 1 <= split_pos(name),
    decreases name.len(),
{
    if name.len() > 1 {
        lemma_split_pos_range(name.drop_last());
    }
}

/// The stem of a base name: everything before the extension.
pub open spec fn stem_of(name: Seq<char>) -> Seq<char> {
    name.subrange(0, split_pos(name))
}

/// The extension of a base name, including its leading `.`; empty when the
/// name has none.
pub open spec fn ext_of(name: Seq<char>) -> Seq<char> {
    name.subrange(split_pos(name), name.len() as int)
}

fn split_point(name: &str) -> (r: usize)
    ensures
        r as int == split_pos(name@),
        r <= name@.len(),
{
    let n = name.unicode_len();
    let mut best: usize = 0;
    let mut found = false;
    let mut i: usize = 0;
    while i < n
        invariant
            n == name@.len(),
            i <= n,
            found ==> 1 <= best < i,
            found ==> split_pos(name@.subrange(0, i as int)) == best as int,
            !found ==> split_pos(name@.subrange(0, i as int)) == i as int,
        decreases n - i,
    {
        let c = name.get_char(i);
        proof {
            assert(name@.subrange(0, i as int + 1).drop_last() =~= name@.subrange(0, i as int));
            assert(name@.subrange(0, i as int + 1).last() == name@[i as int]);
        }
        if c == '.' && i > 0 {
            found = true;
            best = i;
        }
        i = i + 1;
    }
    proof {
        assert(name@.subrange(0, n as int) =~= name@);
        lemma_split_pos_range(name@);
    }
    if found {
        best
    } else {
        n
    }
}

/// Splits a base name into its stem and its extension (with the leading
/// `.`); concatenating the two gives the name back.
pub fn split_base_name(name: &str) -> (r: (String, String))
    ensures
        r.0@ == stem_of(name@),
        r.1@ == ext_of(name@),
{
    let p = split_point(name);
    let n = name.unicode_len();
    let stem = name.substring_char(0, p).to_owned();
    let ext = name.substring_char(p, n).to_owned();
    (stem, ext)
}

/// The lowercase decimal character for a value below 10.
pub open spec fn dec_digit(n: nat) -> char {
    if n == 0 {
        '0'
    } else if n == 1 {
        '1'
    } else if n == 2 {
        '2'
    } else if n == 3 {
        '3'
    } else if n == 4 {
        '4'
    } else if n == 5 {
        '5'
    } else if n == 6 {
        '6'
    } else if n == 7 {
        '7'
    } else if n == 8 {
        '8'
    } else {
        '9'
    }
}

/// The decimal rendering of a number, most significant digit first.
pub open spec fn dec_str(n: nat) -> Seq<char>
    decreases n,
{
    if n < 10 {
        seq![dec_digit(n)]
    } else {
        dec_str(n / 10).push(dec_digit(n % 10))
    }
}

pub proof fn lemma_dec_str_len(n: nat)
    ensures
        dec_str(n).len() >= 1,
    decreases n,
{
    if n >= 10 {
        lemma_dec_str_len(n / 10);
    }
}

proof fn lemma_dec_str_inj(a: nat, b: nat)
    requires
        dec_str(a) == dec_str(b),
    ensures
        a == b,
    decreases a + b,
{
    if a < 10 && b < 10 {
        assert(dec_str(a)[0] == dec_digit(a));
        assert(dec_str(b)[0] == dec_digit(b));
    } else if a < 10 && b >= 10 {
        lemma_dec_str_len(b / 10);
        assert(dec_str(b).len() == dec_str(b / 10).len() + 1);
    } else if a >= 10 && b < 10 {
        lemma_dec_str_len(a / 10);
        assert(dec_str(a).len() == dec_str(a / 10).len() + 1);
    } else {
        assert(dec_str(a).last() == dec_digit(a % 10));
        assert(dec_str(b).last() == dec_digit(b % 10));
        assert(a % 10 == b % 10);
        assert(dec_str(a).drop_last() =~= dec_str(a / 10));
        assert(dec_str(b).drop_last() =~= dec_str(b / 10));
        lemma_dec_str_inj(a / 10, b / 10);
        assert(a == 10 * (a / 10) + a % 10) by (nonlinear_arith);
        assert(b == 10 * (b / 10) + b % 10) by (nonlinear_arith);
    }
}

fn dec_digit_str(d: usize) -> (r: &'static str)
    requires
        d < 10,
    ensures
        r@ == seq![dec_digit(d as nat)],
{
    let r: &'static str = if d == 0 {
        "0"
    } else if d == 1 {
        "1"
    } else if d == 2 {
        "2"
    } else if d == 3 {
        "3"
    } else if d == 4 {
        "4"
    } else if d == 5 {
        "5"
    } else if d == 6 {
        "6"
    } else if d == 7 {
        "7"
    } else if d == 8 {
        "8"
    } else {
        "9"
    };
    proof {
        reveal_strlit("0");
        reveal_strlit("1");
        reveal_strlit("2");
        reveal_strlit("3");
        reveal_strlit("4");
        reveal_strlit("5");
        reveal_strlit("6");
        reveal_strlit("7");
        reveal_strlit("8");
        reveal_strlit("9");
        assert(r@ =~= seq![dec_digit(d as nat)]);
    }
    r
}

/// Renders a counter in decimal.
pub fn dec_string(n: usize) -> (r: String)
    ensures
        r@ == dec_str(n as nat),
    decreases n,
{
    if n < 10 {
        dec_digit_str(n).to_owned()
    } else {
        let mut s = dec_string(n / 10);
        s.append(dec_digit_str(n % 10));
        proof {
            assert(s@ =~= dec_str(n as nat));
        }
        s
    }
}

/// The n-th candidate destination name for a base name split into `stem`
/// and `ext`: the name itself first, then the stem with `_n` appended
/// before the extension.
pub open spec fn cand(stem: Seq<char>, ext: Seq<char>, n: nat) -> Seq<char> {
    if n == 0 {
        stem + ext
    } else {
        stem + seq!['_'] + dec_str(n) + ext
    }
}

fn candidate_name(stem: &str, ext: &str, n: usize) -> (r: String)
    ensures
        r@ == cand(stem@, ext@, n as nat),
{
    if n == 0 {
        String::from_str(stem).concat(ext)
    } else {
        let mut s = String::from_str(stem);
        s.append("_");
        let ds = dec_string(n);
        s.append(ds.as_str());
        s.append(ext);
        proof {
            reveal_strlit("_");
            assert(s@ =~= cand(stem@, ext@, n as nat));
        }
        s
    }
}

/// Distinct counters give distinct candidate names for the same stem and
/// extension.
proof fn lemma_cand_inj(stem: Seq<char>, ext: Seq<char>, i: nat, j: nat)
    requires
        cand(stem, ext, i) == cand(stem, ext, j),
    ensures
        i == j,
{
    if i == 0 && j != 0 {
        lemma_dec_str_len(j);
        assert(cand(stem, ext, i).len() == stem.len() + ext.len());
        assert(cand(stem, ext, j).len() == stem.len() + 1 + dec_str(j).len() + ext.len());
    } else if i != 0 && j == 0 {
        lemma_dec_str_len(i);
        assert(cand(stem, ext, i).len() == stem.len() + 1 + dec_str(i).len() + ext.len());
        assert(cand(stem, ext, j).len() == stem.len() + ext.len());
    } else if i != 0 && j != 0 {
        let di = dec_str(i);
        let dj = dec_str(j);
        assert(cand(stem, ext, i).len() == stem.len() + 1 + di.len() + ext.len());
        assert(cand(stem, ext, j).len() == stem.len() + 1 + dj.len() + ext.len());
        assert(di.len() == dj.len());
        assert forall|k: int| 0 <= k < di.len() implies di[k] == dj[k] by {
            assert(cand(stem, ext, i)[stem.len() + 1 + k] == di[k]);
            assert(cand(stem, ext, j)[stem.len() + 1 + k] == dj[k]);
        }
        assert(di =~= dj);
        lemma_dec_str_inj(i, j);
    }
}

/// Among any `taken.len() + 1` consecutive counters starting at `lo`, some
/// candidate name is not taken: the candidates are pairwise distinct, so
/// the taken names cannot block them all.
proof fn lemma_free_cand_exists(stem: Seq<char>, ext: Seq<char>, taken: Seq<Seq<char>>, lo: nat)
    ensures
        exists|n: nat|
            lo <= n < lo + taken.len() + 1 && !taken.contains(#[trigger] cand(stem, ext, n)),
    decreases taken.len(),
{
    if taken.contains(cand(stem, ext, lo)) {
        let k = choose|k: int| 0 <= k < taken.len() && taken[k] == cand(stem, ext, lo);
        let rest = taken.subrange(0, k) + taken.subrange(k + 1, taken.len() as int);
        assert(rest.len() == taken.len() - 1);
        lemma_free_cand_exists(stem, ext, rest, lo + 1);
        let n = choose|n: nat|
            lo + 1 <= n < lo + 1 + rest.len() + 1 && !rest.contains(#[trigger] cand(stem, ext, n));
        assert(!taken.contains(cand(stem, ext, n))) by {
            if taken.contains(cand(stem, ext, n)) {
                let m = choose|m: int| 0 <= m < taken.len() && taken[m] == cand(stem, ext, n);
                if m == k {
                    lemma_cand_inj(stem, ext, lo, n);
                } else if m < k {
                    assert(rest[m] == taken[m]);
                    assert(rest.contains(cand(stem, ext, n)));
                } else {
                    assert(rest[m - 1] == taken[m]);
                    assert(rest.contains(cand(stem, ext, n)));
                }
            }
        }
    } else {
        assert(lo <= lo < lo + taken.len() + 1 && !taken.contains(cand(stem, ext, lo)));
    }
}

/// `dest` is the name the collision rule picks for a file whose base name
/// splits into `stem` and `ext`, given the already occupied names: the
/// first candidate that is not occupied.
pub open spec fn chosen_name(
    stem: Seq<char>,
    ext: Seq<char>,
    occ: Seq<Seq<char>>,
    dest: Seq<char>,
) -> bool {
    exists|n: nat|
        {
            &&& dest == #[trigger] cand(stem, ext, n)
            &&& !occ.contains(cand(stem, ext, n))
            &&& forall|m: nat| m < n ==> occ.contains(#[trigger] cand(stem, ext, m))
        }
}

fn contains_name(names: &Vec<String>, x: &String) -> (r: bool)
    ensures
        r == names_view(names@).contains(x@),
{
    let mut k: usize = 0;
    while k < names.len()
        invariant
            k <= names@.len(),
            forall|m: int| 0 <= m < k ==> names_view(names@)[m] != x@,
        decreases names@.len() - k,
    {
        if names[k] == *x {
            proof {
                assert(names_view(names@)[k as int] == x@);
            }
            return true;
        }
        k = k + 1;
    }
    proof {
        if names_view(names@).contains(x@) {
            let m = choose|m: int|
                0 <= m < names_view(names@).len() && names_view(names@)[m] == x@;
            assert(names_view(names@)[m] != x@);
        }
    }
    false
}

/// Picks the destination name for a base name split into `stem` and `ext`:
/// the name itself when no occupied name equals it, otherwise the stem
/// with `_1`, `_2`, ... appended before the extension, the first free
/// counter winning.
pub fn resolve_free_name(stem: &str, ext: &str, taken: &Vec<String>) -> (r: String)
    ensures
        chosen_name(stem@, ext@, names_view(taken@), r@),
{
    let ghost tk = names_view(taken@);
    let cap = taken.len();
    let mut n: usize = 0;
    loop
        invariant
            tk.len() == cap,
            n <= cap,
            forall|m: nat| m < n ==> tk.contains(#[trigger] cand(stem@, ext@, m)),
        decreases tk.len() + 1 - n,
    {
        let c = candidate_name(stem, ext, n);
        if !contains_name(taken, &c) {
            return c;
        }
        proof {
            assert(tk.contains(cand(stem@, ext@, n as nat)));
            lemma_free_cand_exists(stem@, ext@, tk, 0);
            let f = choose|f: nat|
                0 <= f < tk.len() + 1 && !tk.contains(#[trigger] cand(stem@, ext@, f));
            assert(f > n) by {
                if f < n {
                    assert(tk.contains(cand(stem@, ext@, f)));
                }
            }
            assert(n < cap);
        }
        n = n + 1;
    }
}

/// One planned relocation: the source path of a duplicate and the file
/// name it is to carry inside the quarantine directory.
#[derive(Debug)]
pub struct PlannedMove {
    pub source: String,
    pub dest_name: String,
}

/// Why a quarantine plan could not be built.
#[derive(Debug)]
pub enum QuarantineError {
    /// A path to relocate has no usable base name.
    InvalidFileName { path: String },
}

/// The paths a group contributes to the relocation: every path but the
/// first, and nothing from a group with fewer than two paths.
pub open spec fn tail_files(e: ReportEntry) -> Seq<Seq<char>> {
    if e.files@.len() >= 2 {
        names_view(e.files@).drop_first()
    } else {
        Seq::empty()
    }
}

/// All sources to relocate, groups in order, paths in group order.
pub open spec fn planned_sources(entries: Seq<ReportEntry>) -> Seq<Seq<char>>
    decreases entries.len(),
{
    if entries.len() == 0 {
        Seq::empty()
    } else {
        planned_sources(entries.drop_last()) + tail_files(entries.last())
    }
}

/// Every path to relocate carries a usable base name.
pub open spec fn all_names_valid(entries: Seq<ReportEntry>) -> bool {
    forall|i: int, j: int|
        0 <= i < entries.len() && entries[i].files@.len() >= 2 && 1 <= j < entries[i].files@.len()
            ==> valid_base_name(#[trigger] entries[i].files@[j]@)
}

/// The sources of the planned moves, in order.
pub open spec fn sources_view(moves: Seq<PlannedMove>) -> Seq<Seq<char>> {
    moves.map_values(|m: PlannedMove| m.source@)
}

/// The destination names of the planned moves, in order.
pub open spec fn dests_view(moves: Seq<PlannedMove>) -> Seq<Seq<char>> {
    moves.map_values(|m: PlannedMove| m.dest_name@)
}

/// The names occupied before the i-th planned move: the quarantine
/// directory's initial contents, then the destinations of earlier moves.
pub open spec fn occupied_before(
    taken: Seq<Seq<char>>,
    moves: Seq<PlannedMove>,
    i: int,
) -> Seq<Seq<char>> {
    taken + dests_view(moves.subrange(0, i))
}

/// The i-th move's destination follows the collision rule for its source's
/// base name, against the names occupied before it.
pub open spec fn move_ok(taken: Seq<Seq<char>>, moves: Seq<PlannedMove>, i: int) -> bool {
    chosen_name(
        stem_of(suffix_after_slash(moves[i].source@)),
        ext_of(suffix_after_slash(moves[i].source@)),
        occupied_before(taken, moves, i),
        moves[i].dest_name@,
    )
}

/// Law: destination names chosen by the collision rule never overwrite —
/// none equals a name already occupying the quarantine directory, and no
/// two planned moves share a destination.
pub proof fn lemma_planned_destinations_fresh(taken: Seq<Seq<char>>, moves: Seq<PlannedMove>)
    requires
        forall|i: int| 0 <= i < moves.len() ==> move_ok(taken, moves, i),
    ensures
        forall|i: int| 0 <= i < moves.len() ==> !taken.contains(#[trigger] moves[i].dest_name@),
        forall|i: int, j: int|
            0 <= i < j < moves.len() ==> #[trigger] moves[i].dest_name@ != #[trigger] moves[
                j
            ].dest_name@,
{
    assert forall|j: int| 0 <= j < moves.len() implies !occupied_before(
        taken,
        moves,
        j,
    ).contains(moves[j].dest_name@) by {
        assert(move_ok(taken, moves, j));
        let stem = stem_of(suffix_after_slash(moves[j].source@));
        let ext = ext_of(suffix_after_slash(moves[j].source@));
        let n = choose|n: nat|
            {
                &&& moves[j].dest_name@ == #[trigger] cand(stem, ext, n)
                &&& !occupied_before(taken, moves, j).contains(cand(stem, ext, n))
                &&& forall|m: nat|
                    m < n ==> occupied_before(taken, moves, j).contains(
                        #[trigger] cand(stem, ext, m),
                    )
            };
    }
    assert forall|i: int|
        0 <= i < moves.len() implies !taken.contains(#[trigger] moves[i].dest_name@) by {
        if taken.contains(moves[i].dest_name@) {
            let k = choose|k: int| 0 <= k < taken.len() && taken[k] == moves[i].dest_name@;
            assert(occupied_before(taken, moves, i)[k] == moves[i].dest_name@);
            assert(occupied_before(taken, moves, i).contains(moves[i].dest_name@));
        }
    }
    assert forall|i: int, j: int|
        0 <= i < j < moves.len() implies #[trigger] moves[i].dest_name@ != #[trigger] moves[
        j
    ].dest_name@ by {
        if moves[i].dest_name@ == moves[j].dest_name@ {
            assert(dests_view(moves.subrange(0, j))[i] == moves[i].dest_name@);
            assert(occupied_before(taken, moves, j)[taken.len() + i] == moves[i].dest_name@);
            assert(occupied_before(taken, moves, j).contains(moves[j].dest_name@));
        }
    }
}

/// Law: a report whose groups each hold fewer than two paths plans no
/// relocation at all.
pub proof fn lemma_singleton_groups_plan_nothing(entries: Seq<ReportEntry>)
    requires
        forall|i: int| 0 <= i < entries.len() ==> (#[trigger] entries[i].files@).len() < 2,
    ensures
        planned_sources(entries).len() == 0,
    decreases entries.len(),
{
    if entries.len() > 0 {
        assert(entries[entries.len() - 1].files@.len() < 2);
        lemma_singleton_groups_plan_nothing(entries.drop_last());
    }
}

/// Builds the relocation plan for the duplicate groups and the names
/// already occupying the quarantine directory: for every group with at
/// least two paths the first stays in place, and every later path is
/// assigned the first collision-free destination name, groups and paths in
/// order; names chosen earlier in the plan count as occupied for later
/// moves. Fails, planning nothing, exactly when some path to relocate has
/// no usable base name; a group with fewer than two paths plans nothing.
pub fn plan_quarantine(report: &Vec<ReportEntry>, taken: &Vec<String>) -> (r: Result<
    Vec<PlannedMove>,
    QuarantineError,
>)
    ensures
        match r {
            Ok(moves) => {
                &&& all_names_valid(report@)
                &&& sources_view(moves@) == planned_sources(report@)
                &&& forall|i: int|
                    0 <= i < moves@.len() ==> move_ok(names_view(taken@), moves@, i)
            },
            Err(e) => {
                &&& !all_names_valid(report@)
                &&& match e {
                    QuarantineError::InvalidFileName { path } => !valid_base_name(path@),
                }
            },
        },
{
    let ghost tk = names_view(taken@);
    let mut moves: Vec<PlannedMove> = Vec::new();
    let mut occ: Vec<String> = Vec::new();
    let mut c: usize = 0;
    while c < taken.len()
        invariant
            c <= taken@.len(),
            names_view(occ@) == tk.subrange(0, c as int),
        decreases taken@.len() - c,
    {
        occ.push(taken[c].clone());
        proof {
            assert(names_view(occ@) =~= tk.subrange(0, c as int + 1));
        }
        c = c + 1;
    }
    proof {
        assert(tk.subrange(0, tk.len() as int) =~= tk);
        assert(sources_view(moves@) =~= planned_sources(report@.subrange(0, 0)));
        assert(dests_view(moves@) =~= Seq::<Seq<char>>::empty());
        assert(names_view(occ@) =~= tk + dests_view(moves@));
    }
    let mut ei: usize = 0;
    while ei < report.len()
        invariant
            ei <= report@.len(),
            names_view(occ@) == tk + dests_view(moves@),
            sources_view(moves@) == planned_sources(report@.subrange(0, ei as int)),
            forall|i: int| 0 <= i < moves@.len() ==> move_ok(tk, moves@, i),
            forall|i: int, j: int|
                0 <= i < ei && report@[i].files@.len() >= 2 && 1 <= j < report@[i].files@.len()
                    ==> valid_base_name(#[trigger] report@[i].files@[j]@),
        decreases report@.len() - ei,
    {
        let ghost pre_entries = report@.subrange(0, ei as int);
        let ghost post_entries = report@.subrange(0, ei as int + 1);
        proof {
            assert(post_entries.drop_last() =~= pre_entries);
            assert(post_entries.last() == report@[ei as int]);
        }
        let glen = report[ei].files.len();
        if glen >= 2 {
            let mut fi: usize = 1;
            while fi < report[ei].files.len()
                invariant
                    ei < report@.len(),
                    glen == report@[ei as int].files@.len(),
                    glen >= 2,
                    1 <= fi <= glen,
                    names_view(occ@) == tk + dests_view(moves@),
                    sources_view(moves@) == planned_sources(report@.subrange(0, ei as int))
                        + names_view(report@[ei as int].files@).subrange(1, fi as int),
                    forall|i: int| 0 <= i < moves@.len() ==> move_ok(tk, moves@, i),
                    forall|i: int, j: int|
                        0 <= i < ei && report@[i].files@.len() >= 2 && 1 <= j < report@[
                            i
                        ].files@.len() ==> valid_base_name(#[trigger] report@[i].files@[j]@),
                    forall|j: int|
                        1 <= j < fi ==> valid_base_name(
                            #[trigger] report@[ei as int].files@[j]@,
                        ),
                decreases glen - fi,
            {
                let path = &report[ei].files[fi];
                match base_name(path.as_str()) {
                    None => {
                        return Err(QuarantineError::InvalidFileName { path: path.clone() });
                    },
                    Some(b) => {
                        let (stem, ext) = split_base_name(b.as_str());
                        let dest = resolve_free_name(stem.as_str(), ext.as_str(), &occ);
                        let ghost old_moves = moves@;
                        let ghost old_occ_names = names_view(occ@);
                        let mv = PlannedMove { source: path.clone(), dest_name: dest.clone() };
                        moves.push(mv);
                        occ.push(dest);
                        proof {
                            assert(names_view(occ@) =~= old_occ_names.push(
                                moves@[old_moves.len() as int].dest_name@,
                            ));
                            assert(dests_view(moves@) =~= dests_view(old_moves).push(
                                moves@[old_moves.len() as int].dest_name@,
                            ));
                            assert(names_view(occ@) =~= tk + dests_view(moves@));
                            assert(sources_view(moves@) =~= sources_view(old_moves).push(
                                report@[ei as int].files@[fi as int]@,
                            ));
                            assert(names_view(report@[ei as int].files@).subrange(
                                0,
                                fi as int + 1,
                            ).drop_last() =~= names_view(report@[ei as int].files@).subrange(
                                0,
                                fi as int,
                            ));
                            assert(names_view(report@[ei as int].files@).subrange(
                                1,
                                fi as int + 1,
                            ) =~= names_view(report@[ei as int].files@).subrange(1, fi as int).push(
                                report@[ei as int].files@[fi as int]@,
                            ));
                            assert(sources_view(moves@) =~= planned_sources(
                                report@.subrange(0, ei as int),
                            ) + names_view(report@[ei as int].files@).subrange(1, fi as int + 1));
                            assert forall|i: int|
                                0 <= i < moves@.len() implies move_ok(tk, moves@, i) by {
                                if i < old_moves.len() {
                                    assert(moves@.subrange(0, i) =~= old_moves.subrange(0, i));
                                    assert(moves@[i] == old_moves[i]);
                                    assert(move_ok(tk, old_moves, i));
                                } else {
                                    assert(moves@.subrange(0, i) =~= old_moves);
                                    assert(occupied_before(tk, moves@, i) == old_occ_names);
                                }
                            }
                        }
                    },
                }
                fi = fi + 1;
            }
            proof {
                assert(names_view(report@[ei as int].files@).subrange(1, glen as int)
                    =~= tail_files(report@[ei as int]));
                assert(sources_view(moves@) =~= planned_sources(post_entries));
            }
        } else {
            proof {
                assert(tail_files(report@[ei as int]) =~= Seq::<Seq<char>>::empty());
                assert(sources_view(moves@) =~= planned_sources(post_entries));
            }
        }
        ei = ei + 1;
    }
    proof {
        assert(report@.subrange(0, report@.len() as int) =~= report@);
    }
    Ok(moves)
}

} // verus!

