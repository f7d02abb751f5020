use vstd::prelude::*;
use crate::bitmap::Bitmap;
use crate::encode::DecodeError;
use crate::encode::decode_ok;
use crate::encode::encode_bytes;
use crate::encode::encode_ok_post;
use crate::encode::luma_decode_of;
use crate::names::chars_eq;
use crate::names::copy_range;
use crate::names::storage_name;
use crate::names::storage_name_of;
use crate::names::variant_name;
use crate::names::variant_name_of;

verus! {

/// One discovered input: the path it was found under, and its raw bytes.
pub struct SourceFile {
    pub path: Vec<char>,
    pub bytes: Vec<u8>,
}

/// One registry entry: the two derived names and the encoded bitmap.
#[derive(Debug)]
pub struct AssetEntry {
    pub variant: Vec<char>,
    pub storage: Vec<char>,
    pub bitmap: Bitmap,
}

/// The ordered name-to-bitmap registry: entries stand in first-discovery
/// order and no two share a name.
#[derive(Debug)]
pub struct AssetRegistry {
    pub entries: Vec<AssetEntry>,
}

/// A decode failure that aborted a registry build, naming the offending path.
#[derive(Debug, PartialEq, Eq)]
pub struct BuildError {
    pub path: Vec<char>,
    pub error: DecodeError,
}

/// File `i` is the first in the list whose path derives its name: no earlier
/// file collides with it.
pub open spec fn first_use(files: Seq<SourceFile>, i: int) -> bool {
    forall|j: int|
        0 <= j < i ==> variant_name_of(#[trigger] files[j].path@) != variant_name_of(files[i].path@)
}

/// The indices of the files the registry keeps, in discovery order: every
/// file whose name was not derived earlier.
pub open spec fn chosen_upto(files: Seq<SourceFile>, n: int) -> Seq<int>
    decreases n,
{
    if n <= 0 {
        Seq::empty()
    } else if first_use(files, n - 1) {
        chosen_upto(files, n - 1).push(n - 1)
    } else {
        chosen_upto(files, n - 1)
    }
}

/// The entry holds exactly the names derived from the file's path and the
/// bitmap its bytes encode to.
pub open spec fn entry_matches(e: AssetEntry, f: SourceFile) -> bool {
    &&& e.variant@ == variant_name_of(f.path@)
    &&& e.storage@ == storage_name_of(f.path@)
    &&& encode_ok_post(f.bytes@, e.bitmap)
    &&& e.bitmap.wf()
}

/// The registry is exactly the kept files, encoded, in discovery order.
pub open spec fn registry_matches(reg: AssetRegistry, files: Seq<SourceFile>) -> bool {
    &&& reg.entries@.len() == chosen_upto(files, files.len() as int).len()
    &&& forall|k: int|
        0 <= k < reg.entries@.len() ==> entry_matches(
            #[trigger] reg.entries@[k],
            files[chosen_upto(files, files.len() as int)[k]],
        )
}

/// The build aborts at file `i`: it is the first kept file whose bytes do
/// not decode to an image that fits the bitmap header.
pub open spec fn build_fails_at(files: Seq<SourceFile>, i: int) -> bool {
    &&& 0 <= i < files.len()
    &&& first_use(files, i)
    &&& !decode_ok(files[i].bytes@)
    &&& forall|j: int|
        0 <= j < i && #[trigger] first_use(files, j) ==> decode_ok(files[j].bytes@)
}

/// Some entry already carries the name file `j` derives.
pub open spec fn name_covered(entries: Seq<AssetEntry>, files: Seq<SourceFile>, j: int) -> bool {
    exists|k: int|
        0 <= k < entries.len() && (#[trigger] entries[k]).variant@ == variant_name_of(
            files[j].path@,
        )
}

pub proof fn lemma_chosen_upto_props(files: Seq<SourceFile>, n: int)
    ensures
        forall|k: int|
            0 <= k < chosen_upto(files, n).len() ==> 0 <= #[trigger] chosen_upto(files, n)[k] < n
                && first_use(files, chosen_upto(files, n)[k]),
        forall|k1: int, k2: int|
            0 <= k1 < k2 < chosen_upto(files, n).len() ==> chosen_upto(files, n)[k1] < chosen_upto(
                files,
                n,
            )[k2],
    decreases n,
{
    if n > 0 {
        lemma_chosen_upto_props(files, n - 1);
        let prev = chosen_upto(files, n - 1);
        let cur = chosen_upto(files, n);
        if first_use(files, n - 1) {
            assert(cur == prev.push(n - 1));
            assert forall|k: int| 0 <= k < cur.len() implies 0 <= #[trigger] cur[k] < n
                && first_use(files, cur[k]) by {
                if k < prev.len() {
                    assert(cur[k] == prev[k]);
                } else {
                    assert(cur[k] == n - 1);
                }
            }
            assert forall|k1: int, k2: int| 0 <= k1 < k2 < cur.len() implies cur[k1] < cur[k2] by {
                assert(cur[k1] == prev[k1]);
                if k2 < prev.len() {
                    assert(cur[k2] == prev[k2]);
                } else {
                    assert(cur[k2] == n - 1 && prev[k1] < n - 1);
                }
            }
        } else {
            assert(cur == prev);
        }
    }
}

impl AssetRegistry {
    /// No two entries share a name.
    pub open spec fn wf(self) -> bool {
        forall|k1: int, k2: int|
            0 <= k1 < k2 < self.entries@.len() ==> (#[trigger] self.entries@[k1]).variant@ != (
            #[trigger] self.entries@[k2]).variant@
    }

    /// Looks a bitmap up by its identifier-style name. Total over the
    /// registered names; closed to every other name.
    pub fn get(&self, name: &Vec<char>) -> (r: Option<&Bitmap>)
        ensures
            match r {
                Some(bm) => exists|k: int|
                    0 <= k < self.entries@.len() && (#[trigger] self.entries@[k]).variant@ == name@
                        && *bm == self.entries@[k].bitmap,
                None => forall|k: int|
                    0 <= k < self.entries@.len() ==> (#[trigger] self.entries@[k]).variant@
                        != name@,
            },
    {
        let mut k: usize = 0;
        while k < self.entries.len()
            invariant
                k <= self.entries@.len(),
                forall|j: int| 0 <= j < k ==> (#[trigger] self.entries@[j]).variant@ != name@,
            decreases self.entries@.len() - k,
        {
            if chars_eq(&self.entries[k].variant, name) {
                return Some(&self.entries[k].bitmap);
            }
            k = k + 1;
        }
        None
    }
}

/// Whether some entry already carries this name.
fn find_variant(entries: &Vec<AssetEntry>, name: &Vec<char>) -> (r: bool)
    ensures
        r == exists|k: int|
            0 <= k < entries@.len() && (#[trigger] entries@[k]).variant@ == name@,
{
    let mut k: usize = 0;
    while k < entries.len()
        invariant
            k <= entries@.len(),
            forall|j: int| 0 <= j < k ==> (#[trigger] entries@[j]).variant@ != name@,
        decreases entries@.len() - k,
    {
        if chars_eq(&entries[k].variant, name) {
            return true;
        }
        k = k + 1;
    }
    false
}

/// Builds the registry from the discovered files, in the order given: every
/// file whose derived name is new is encoded and appended; a later file with
/// a name seen before is dropped, first occurrence wins. A decode failure
/// aborts the whole build, naming the path; no partial registry comes back.
pub fn build_registry(files: &Vec<SourceFile>) -> (r: Result<AssetRegistry, BuildError>)
    ensures
        match r {
            Ok(reg) => {
                &&& registry_matches(reg, files@)
                &&& reg.wf()
                &&& forall|j: int|
                    0 <= j < files@.len() && #[trigger] first_use(files@, j) ==> decode_ok(
                        files@[j].bytes@,
                    )
            },
            Err(e) => exists|i: int|
                {
                    &&& #[trigger] build_fails_at(files@, i)
                    &&& e.path@ == files@[i].path@
                    &&& match luma_decode_of(files@[i].bytes@) {
                        None => e.error == DecodeError::Unreadable,
                        Some(t) => e.error == DecodeError::TooLarge,
                    }
                },
        },
{
    let n: usize = files.len();
    let mut entries: Vec<AssetEntry> = Vec::new();
    let mut i: usize = 0;
    while i < n
        invariant
            i <= n,
            n == files@.len(),
            entries@.len() == chosen_upto(files@, i as int).len(),
            forall|k: int|
                0 <= k < entries@.len() ==> entry_matches(
                    #[trigger] entries@[k],
                    files@[chosen_upto(files@, i as int)[k]],
                ),
            forall|j: int| 0 <= j < i ==> #[trigger] name_covered(entries@, files@, j),
            forall|j: int|
                0 <= j < i && #[trigger] first_use(files@, j) ==> decode_ok(files@[j].bytes@),
        decreases n - i,
    {
        proof {
            lemma_chosen_upto_props(files@, i as int);
        }
        let nm = variant_name(&files[i].path);
        let dup = find_variant(&entries, &nm);
        if !dup {
            proof {
                assert(first_use(files@, i as int)) by {
                    if !first_use(files@, i as int) {
                        let j = choose|j: int|
                            0 <= j < i && variant_name_of(#[trigger] files@[j].path@)
                                == variant_name_of(files@[i as int].path@);
                        assert(name_covered(entries@, files@, j));
                        let k = choose|k: int|
                            0 <= k < entries@.len() && (#[trigger] entries@[k]).variant@
                                == variant_name_of(files@[j].path@);
                        assert((entries@[k]).variant@ == nm@);
                    }
                }
            }
            match encode_bytes(&files[i].bytes) {
                Ok(bm) => {
                    let st = storage_name(&files[i].path);
                    let ghost old_entries = entries@;
                    entries.push(AssetEntry { variant: nm, storage: st, bitmap: bm });
                    proof {
                        assert(chosen_upto(files@, i + 1) == chosen_upto(files@, i as int).push(
                            i as int,
                        ));
                        assert(entry_matches(entries@[old_entries.len() as int], files@[i as int]));
                        assert forall|j: int| 0 <= j < i + 1 implies #[trigger] name_covered(
                            entries@,
                            files@,
                            j,
                        ) by {
                            if j < i {
                                assert(name_covered(old_entries, files@, j));
                                let k = choose|k: int|
                                    0 <= k < old_entries.len() && (#[trigger] old_entries[k]).variant@
                                        == variant_name_of(files@[j].path@);
                                assert(entries@[k] == old_entries[k]);
                                assert((entries@[k]).variant@ == variant_name_of(files@[j].path@));
                            } else {
                                assert((entries@[old_entries.len() as int]).variant@
                                    == variant_name_of(files@[j].path@));
                            }
                        }
                    }
                },
                Err(err) => {
                    let path_len = files[i].path.len();
                    let p = copy_range(&files[i].path, 0, path_len);
                    proof {
                        assert(p@ =~= files@[i as int].path@);
                        assert(build_fails_at(files@, i as int));
                    }
                    return Err(BuildError { path: p, error: err });
                },
            }
        } else {
            proof {
                let k = choose|k: int|
                    0 <= k < entries@.len() && (#[trigger] entries@[k]).variant@ == nm@;
                let j = chosen_upto(files@, i as int)[k];
                assert(entry_matches(entries@[k], files@[j]));
                assert(variant_name_of(files@[j].path@) == variant_name_of(files@[i as int].path@));
                assert(!first_use(files@, i as int));
                assert(chosen_upto(files@, i + 1) == chosen_upto(files@, i as int));
                assert forall|j2: int| 0 <= j2 < i + 1 implies #[trigger] name_covered(
                    entries@,
                    files@,
                    j2,
                ) by {
                    if j2 == i {
                        assert((entries@[k]).variant@ == variant_name_of(files@[j2].path@));
                    }
                }
            }
        }
        i = i + 1;
    }
    proof {
        lemma_chosen_upto_props(files@, n as int);
        let chosen = chosen_upto(files@, n as int);
        assert forall|k1: int, k2: int| 0 <= k1 < k2 < entries@.len() implies (
        #[trigger] entries@[k1]).variant@ != (#[trigger] entries@[k2]).variant@ by {
            let j1 = chosen[k1];
            let j2 = chosen[k2];
            assert(entry_matches(entries@[k1], files@[j1]));
            assert(entry_matches(entries@[k2], files@[j2]));
            assert(j1 < j2 && first_use(files@, j2));
            assert(variant_name_of(files@[j1].path@) != variant_name_of(files@[j2].path@));
        }
    }
    Ok(AssetRegistry { entries })
}

/// A glob pattern's syntactic validity: a pure function of the characters
/// alone, named here and never restated.
pub uninterp spec fn glob_pattern_ok(s: Seq<char>) -> bool;

/// Relies on glob::Pattern::new: parsing a glob pattern is a pure check of
/// the characters alone.
#[verifier::external_body]
fn pattern_valid(s: &Vec<char>) -> (r: bool)
    ensures
        r == glob_pattern_ok(s@),
{
    let owned: String = s.iter().collect();
    glob::Pattern::new(owned.as_str()).is_ok()
}

/// A syntactically invalid glob pattern, by its position in the list.
#[derive(Clone, Copy, Debug, PartialEq, Eq, Structural)]
pub struct PatternError {
    pub index: usize,
}

/// Checks every pattern's syntax before any discovery runs: reports the
/// first invalid pattern, or accepts them all.
pub fn validate_patterns(patterns: &Vec<Vec<char>>) -> (r: Result<(), PatternError>)
    ensures
        match r {
            Ok(()) => forall|i: int|
                0 <= i < patterns@.len() ==> glob_pattern_ok(#[trigger] patterns@[i]@),
            Err(e) => {
                &&& e.index < patterns@.len()
                &&& !glob_pattern_ok(patterns@[e.index as int]@)
                &&& forall|i: int| 0 <= i < e.index ==> glob_pattern_ok(#[trigger] patterns@[i]@)
            },
        },
{
    let mut i: usize = 0;
    while i < patterns.len()
        invariant
            i <= patterns@.len(),
            forall|j: int| 0 <= j < i ==> glob_pattern_ok(#[trigger] patterns@[j]@),
        decreases patterns@.len() - i,
    {
        if !pattern_valid(&patterns[i]) {
            return Err(PatternError { index: i });
        }
        i = i + 1;
    }
    Ok(())
}

} // verus!
