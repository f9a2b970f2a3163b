//! The block counts of files and programs.

use vstd::prelude::*;
use crate::coverage::{FileCoverage, FileView, FnView, ProgCoverage};
use crate::tables::{
    by_name, lemma_next_name, lists_keys, name_map_get, name_map_insert, name_map_names,
    name_map_new, texts, NameMap,
};

verus! {

/// The sum of `f` over the values of a finite table.
pub open spec fn sum_values<V>(m: Map<Seq<char>, V>, f: spec_fn(V) -> nat) -> nat
    decreases m.dom().len(),
    when m.dom().finite()
{
    if m.dom().len() == 0 {
        0
    } else {
        let k = m.dom().choose();
        f(m[k]) + sum_values(m.remove(k), f)
    }
}

/// The sum of `f` over the values that `m` holds under the first `upto` of `names`.
pub open spec fn sum_listed<V>(
    names: Seq<Seq<char>>,
    m: Map<Seq<char>, V>,
    f: spec_fn(V) -> nat,
    upto: int,
) -> nat
    decreases upto,
{
    if upto <= 0 || upto > names.len() {
        0
    } else {
        sum_listed(names, m, f, upto - 1) + f(m[names[upto - 1]])
    }
}

/// The sum over a table is that of any one value and of the rest.
pub proof fn lemma_sum_values_remove<V>(m: Map<Seq<char>, V>, f: spec_fn(V) -> nat, k: Seq<char>)
    requires
        m.dom().finite(),
        m.contains_key(k),
    ensures
        sum_values(m, f) == f(m[k]) + sum_values(m.remove(k), f),
    decreases m.dom().len(),
{
    let c = m.dom().choose();
    if c != k {
        lemma_sum_values_remove(m.remove(c), f, k);
        lemma_sum_values_remove(m.remove(k), f, c);
        assert(m.remove(c).remove(k) =~= m.remove(k).remove(c));
    }
}

/// Tables with the same keys and the same `f` of each value have the same sum.
pub proof fn lemma_sum_values_same<V, W>(
    a: Map<Seq<char>, V>,
    f: spec_fn(V) -> nat,
    b: Map<Seq<char>, W>,
    g: spec_fn(W) -> nat,
)
    requires
        a.dom().finite(),
        a.dom() == b.dom(),
        forall|k: Seq<char>| a.contains_key(k) ==> #[trigger] f(a[k]) == g(b[k]),
    ensures
        sum_values(a, f) == sum_values(b, g),
    decreases a.dom().len(),
{
    if a.dom().len() != 0 {
        let k = a.dom().choose();
        assert(a.remove(k).dom() =~= b.remove(k).dom());
        assert forall|n: Seq<char>| a.remove(k).contains_key(n) implies #[trigger] f(
            a.remove(k)[n],
        ) == g(b.remove(k)[n]) by {
            assert(f(a[n]) == g(b[n]));
        }
        lemma_sum_values_same(a.remove(k), f, b.remove(k), g);
    }
}

/// Of tables with the same keys, the one with the smaller `f` of each value has the
/// smaller sum.
pub proof fn lemma_sum_values_le<V, W>(
    a: Map<Seq<char>, V>,
    f: spec_fn(V) -> nat,
    b: Map<Seq<char>, W>,
    g: spec_fn(W) -> nat,
)
    requires
        a.dom().finite(),
        a.dom() == b.dom(),
        forall|k: Seq<char>| a.contains_key(k) ==> #[trigger] f(a[k]) <= g(b[k]),
    ensures
        sum_values(a, f) <= sum_values(b, g),
    decreases a.dom().len(),
{
    if a.dom().len() != 0 {
        let k = a.dom().choose();
        assert(a.remove(k).dom() =~= b.remove(k).dom());
        assert forall|n: Seq<char>| a.remove(k).contains_key(n) implies #[trigger] f(
            a.remove(k)[n],
        ) <= g(b.remove(k)[n]) by {
            assert(f(a[n]) <= g(b[n]));
        }
        lemma_sum_values_le(a.remove(k), f, b.remove(k), g);
        assert(f(a[k]) <= g(b[k]));
    }
}

/// A table whose keys can be listed is finite.
pub proof fn lemma_listed_finite<V>(names: Seq<Seq<char>>, m: Map<Seq<char>, V>)
    requires
        forall|n: Seq<char>| names.contains(n) <==> m.contains_key(n),
    ensures
        m.dom().finite(),
{
    assert(m.dom() =~= names.to_set());
    vstd::seq_lib::seq_to_set_is_finite(names);
}

/// The sum over a table is the sum along any list of its keys.
pub proof fn lemma_sum_listed<V>(names: Seq<Seq<char>>, m: Map<Seq<char>, V>, f: spec_fn(V) -> nat)
    requires
        names.no_duplicates(),
        forall|n: Seq<char>| names.contains(n) <==> m.contains_key(n),
    ensures
        m.dom().finite(),
        sum_values(m, f) == sum_listed(names, m, f, names.len() as int),
    decreases names.len(),
{
    lemma_listed_finite(names, m);
    if names.len() == 0 {
        assert forall|n: Seq<char>| !m.dom().contains(n) by {
            assert(!names.contains(n));
        }
        assert(m.dom() =~= Set::<Seq<char>>::empty());
    } else {
        let last = names.last();
        let rest = names.drop_last();
        assert(names.contains(last));
        assert forall|n: Seq<char>| rest.contains(n) <==> m.remove(last).contains_key(n) by {
            if rest.contains(n) {
                let i = choose|i: int| 0 <= i < rest.len() && rest[i] == n;
                assert(names[i] == n);
                assert(names.contains(n));
            }
            if m.remove(last).contains_key(n) {
                assert(names.contains(n));
                let i = choose|i: int| 0 <= i < names.len() && names[i] == n;
                assert(rest[i] == n);
            }
        }
        lemma_sum_values_remove(m, f, last);
        lemma_sum_listed(rest, m.remove(last), f);
        lemma_sum_listed_same(names, rest, m, m.remove(last), f, rest.len() as int);
    }
}

/// The sum along a list depends only on the names summed over and what is held under them.
proof fn lemma_sum_listed_same<V>(
    a: Seq<Seq<char>>,
    b: Seq<Seq<char>>,
    m: Map<Seq<char>, V>,
    n: Map<Seq<char>, V>,
    f: spec_fn(V) -> nat,
    upto: int,
)
    requires
        0 <= upto <= a.len(),
        upto <= b.len(),
        forall|i: int| 0 <= i < upto ==> a[i] == b[i] && m[a[i]] == n[a[i]],
    ensures
        sum_listed(a, m, f, upto) == sum_listed(b, n, f, upto),
    decreases upto,
{
    if upto > 0 {
        lemma_sum_listed_same(a, b, m, n, f, upto - 1);
    }
}

/// A count as it is reported: the largest number that fits where it is beyond.
pub open spec fn reported(count: nat) -> usize {
    if count > usize::MAX {
        usize::MAX
    } else {
        count as usize
    }
}

/// The number of executed blocks of the functions of a file.
pub open spec fn covered_in_file(file: FileView) -> nat {
    sum_values(file, |c: FnView| c.executed_blocks as nat)
}

/// The number of blocks of the functions of a file.
pub open spec fn blocks_in_file(file: FileView) -> nat {
    sum_values(file, |c: FnView| c.total_blocks as nat)
}

/// The number of executed blocks of a program.
pub open spec fn covered_in(files: Map<Seq<char>, FileView>) -> nat {
    sum_values(files, |file: FileView| covered_in_file(file))
}

/// The number of blocks of a program.
pub open spec fn blocks_in(files: Map<Seq<char>, FileView>) -> nat {
    sum_values(files, |file: FileView| blocks_in_file(file))
}

/// The tables of files and of each file's functions are finite.
pub open spec fn finite(files: Map<Seq<char>, FileView>) -> bool {
    &&& files.dom().finite()
    &&& forall|file: Seq<char>| #[trigger] files.contains_key(file) ==> files[file].dom().finite()
}

/// The block counts of one file.
#[derive(Debug, Clone, Copy, PartialEq, Eq)]
pub struct CoverageFile {
    pub covered_blocks: usize,
    pub total_blocks: usize,
}

impl CoverageFile {
    /// The block counts of a file: the sums over its functions.
    pub fn new(cov: FileCoverage) -> (r: Self)
        ensures
            r.covered_blocks == reported(covered_in_file(cov@)),
            r.total_blocks == reported(blocks_in_file(cov@)),
            cov@.dom().finite(),
    {
        Self::of(&cov)
    }

    /// As `new`, of a file that is kept.
    pub fn of(cov: &FileCoverage) -> (r: Self)
        ensures
            r.covered_blocks == reported(covered_in_file(cov@)),
            r.total_blocks == reported(blocks_in_file(cov@)),
            cov@.dom().finite(),
    {
        let names = name_map_names(&cov.fns);
        let ghost covered = |c: FnView| c.executed_blocks as nat;
        let ghost total = |c: FnView| c.total_blocks as nat;
        let mut covered_blocks: usize = 0;
        let mut total_blocks: usize = 0;
        let mut i: usize = 0;
        proof {
            assert forall|n: Seq<char>| texts(names@).contains(n) <==> cov@.contains_key(n) by {}
            lemma_sum_listed(texts(names@), cov@, covered);
            lemma_sum_listed(texts(names@), cov@, total);
        }
        while i < names.len()
            invariant
                i <= names@.len(),
                lists_keys(names@, by_name(cov.fns@)),
                covered_blocks == reported(sum_listed(texts(names@), cov@, covered, i as int)),
                total_blocks == reported(sum_listed(texts(names@), cov@, total, i as int)),
                covered == |c: FnView| c.executed_blocks as nat,
                total == |c: FnView| c.total_blocks as nat,
            decreases names@.len() - i,
        {
            assert(texts(names@)[i as int] == names@[i as int]@);
            assert(texts(names@).contains(names@[i as int]@));
            let function = name_map_get(&cov.fns, names[i].as_str()).unwrap();
            assert(cov@[names@[i as int]@] == function@);
            covered_blocks = covered_blocks.saturating_add(function.executed_blocks);
            total_blocks = total_blocks.saturating_add(function.total_blocks);
            i += 1;
        }
        Self { covered_blocks, total_blocks }
    }
}

/// The block counts of a program and of each of its files.
#[derive(Debug)]
pub struct CoverageOne {
    pub covered_blocks: usize,
    pub total_blocks: usize,
    pub files: NameMap<CoverageFile>,
}

impl CoverageOne {
    /// The block counts of a program: those of each file, and their sums.
    pub fn new(cov: ProgCoverage) -> (r: Self)
        ensures
            r.covered_blocks == reported(covered_in(cov@.files)),
            r.total_blocks == reported(blocks_in(cov@.files)),
            finite(cov@.files),
            forall|n: Seq<char>| by_name(r.files@).contains_key(n) <==> cov@.files.contains_key(n),
            forall|n: Seq<char>| #[trigger]
                cov@.files.contains_key(n) ==> by_name(r.files@)[n].covered_blocks == reported(
                    covered_in_file(cov@.files[n]),
                ) && by_name(r.files@)[n].total_blocks == reported(blocks_in_file(cov@.files[n])),
    {
        Self::of(&cov)
    }

    /// As `new`, of coverage that is kept.
    pub fn of(cov: &ProgCoverage) -> (r: Self)
        ensures
            r.covered_blocks == reported(covered_in(cov@.files)),
            r.total_blocks == reported(blocks_in(cov@.files)),
            finite(cov@.files),
            forall|n: Seq<char>| by_name(r.files@).contains_key(n) <==> cov@.files.contains_key(n),
            forall|n: Seq<char>| #[trigger]
                cov@.files.contains_key(n) ==> by_name(r.files@)[n].covered_blocks == reported(
                    covered_in_file(cov@.files[n]),
                ) && by_name(r.files@)[n].total_blocks == reported(blocks_in_file(cov@.files[n])),
    {
        let names = name_map_names(&cov.files);
        let ghost covered = |file: FileView| covered_in_file(file);
        let ghost total = |file: FileView| blocks_in_file(file);
        let mut covered_blocks: usize = 0;
        let mut total_blocks: usize = 0;
        let mut files: NameMap<CoverageFile> = name_map_new();
        let mut i: usize = 0;
        proof {
            assert forall|n: Seq<char>| texts(names@).contains(n) <==> cov@.files.contains_key(
                n,
            ) by {}
            lemma_sum_listed(texts(names@), cov@.files, covered);
            lemma_sum_listed(texts(names@), cov@.files, total);
        }
        while i < names.len()
            invariant
                i <= names@.len(),
                lists_keys(names@, by_name(cov.files@)),
                covered_blocks == reported(
                    sum_listed(texts(names@), cov@.files, covered, i as int),
                ),
                total_blocks == reported(sum_listed(texts(names@), cov@.files, total, i as int)),
                covered == |file: FileView| covered_in_file(file),
                total == |file: FileView| blocks_in_file(file),
                forall|n: Seq<char>|
                    by_name(files@).contains_key(n) <==> texts(names@).take(i as int).contains(n),
                forall|n: Seq<char>|
                    texts(names@).take(i as int).contains(n) ==> (#[trigger] cov@.files[n]).dom().finite(),
                forall|n: Seq<char>| #[trigger]
                    by_name(files@).contains_key(n) ==> by_name(files@)[n].covered_blocks
                        == reported(covered_in_file(cov@.files[n])) && by_name(
                        files@,
                    )[n].total_blocks == reported(blocks_in_file(cov@.files[n])),
            decreases names@.len() - i,
        {
            let ghost done = texts(names@).take(i as int);
            let ghost name = names@[i as int]@;
            assert(texts(names@)[i as int] == name);
            assert(texts(names@).contains(name));
            let file = name_map_get(&cov.files, names[i].as_str()).unwrap();
            assert(cov@.files[name] == file@);
            let counts = CoverageFile::of(file);
            covered_blocks = covered_blocks.saturating_add(counts.covered_blocks);
            total_blocks = total_blocks.saturating_add(counts.total_blocks);
            name_map_insert(&mut files, names[i].clone(), counts);
            i += 1;
            proof {
                lemma_next_name(names@, i - 1);
            }
        }
        proof {
            assert(texts(names@).take(i as int) == texts(names@));
            lemma_sum_listed(texts(names@), cov@.files, covered);
            assert forall|n: Seq<char>| #[trigger] cov@.files.contains_key(n) implies cov@.files[n].dom().finite() by {
                assert(texts(names@).contains(n));
            }
            assert forall|n: Seq<char>| #[trigger]
                cov@.files.contains_key(n) implies by_name(files@)[n].covered_blocks == reported(
                covered_in_file(cov@.files[n]),
            ) && by_name(files@)[n].total_blocks == reported(blocks_in_file(cov@.files[n])) by {
                assert(texts(names@).contains(n));
                assert(by_name(files@).contains_key(n));
            }
        }
        Self { covered_blocks, total_blocks, files }
    }
}

} // verus!
