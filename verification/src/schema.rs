//! The versions of the database, and what moving from one to the next does
//! to the rows in it.
use vstd::prelude::*;

use crate::error::KyokuError;
use crate::paths::{stored_form, to_db_path};
use crate::text::{lowercased, opt_view, same, signed_decimal, signed_text, to_lower};

verus! {

/// The version that this library reads and writes.
pub const SCHEMA_VERSION: i32 = 8;

/// The version that migration starts from.
pub open spec fn start_version(version: i32) -> int {
    if version < 0 { 0 } else { version as int }
}

/// The migrations that a database of the given version needs, in order. A
/// database of a later version is refused.
pub fn pending_steps(version: i32) -> (r: Result<Vec<i32>, KyokuError>)
    ensures
        match r {
            Ok(steps) => {
                &&& version <= SCHEMA_VERSION
                &&& steps@.len() == SCHEMA_VERSION - start_version(version)
                &&& forall|i: int|
                    0 <= i < steps@.len() ==> #[trigger] steps@[i] == start_version(version) + 1 + i
            },
            Err(e) => version > SCHEMA_VERSION && e is Config && e->Config_0@
                == "database schema v"@ + signed_decimal(version as int)
                + " is newer than this kyoku supports (v"@ + signed_decimal(SCHEMA_VERSION as int)
                + ") — upgrade kyoku"@,
        },
{
    if version > SCHEMA_VERSION {
        let mut s = "database schema v".to_owned();
        s.append(signed_text(version as i64).as_str());
        s.append(" is newer than this kyoku supports (v");
        s.append(signed_text(SCHEMA_VERSION as i64).as_str());
        s.append(") — upgrade kyoku");
        return Err(KyokuError::Config(s));
    }
    let start: i32 = if version < 0 {
        0
    } else {
        version
    };
    let mut steps: Vec<i32> = Vec::new();
    let mut v: i32 = start;
    while v < SCHEMA_VERSION
        invariant
            start <= v <= SCHEMA_VERSION,
            start == start_version(version),
            steps@.len() == v - start,
            forall|i: int| 0 <= i < steps@.len() ==> #[trigger] steps@[i] == start + 1 + i,
        decreases SCHEMA_VERSION - v,
    {
        v += 1;
        steps.push(v);
    }
    Ok(steps)
}

/// The form in which a stored path is rewritten, where that differs from how
/// it is stored. `real_path` and `real_music_dir` are the resolved forms of
/// the path and the music directory. Without a music directory nothing is
/// rewritten.
pub fn rewritten_path(
    old: &str,
    music_dir: &str,
    real_path: &Option<String>,
    real_music_dir: &Option<String>,
) -> (r: Option<String>)
    ensures
        ({
            let new = stored_form(old@, music_dir@, opt_view(*real_path), opt_view(*real_music_dir));
            opt_view(r) == (if music_dir@.len() == 0 || new == old@ { None } else { Some(new) })
        }),
{
    let cs = crate::text::chars_of(music_dir);
    if cs.len() == 0 {
        return None;
    }
    let new = to_db_path(old, music_dir, real_path, real_music_dir);
    if same(new.as_str(), old) {
        None
    } else {
        Some(new)
    }
}

/// A collection that is folded into another of the same name.
#[derive(Debug, Clone, Copy, PartialEq, Eq, Structural)]
pub struct Fold {
    pub keep: i64,
    pub drop: i64,
}

/// The first of the rows whose name reads like `key`, whatever its case.
pub open spec fn first_named(rows: Seq<(i64, String)>, key: Seq<char>) -> Option<i64>
    decreases rows.len(),
{
    if rows.len() == 0 {
        None
    } else {
        match first_named(rows.drop_last(), key) {
            Some(id) => Some(id),
            None => if lowercased(rows.last().1@) == key { Some(rows.last().0) } else { None },
        }
    }
}

/// The folds that leave one collection of each name, whatever its case: the
/// one that comes first among the rows.
pub open spec fn folds(rows: Seq<(i64, String)>) -> Seq<Fold>
    decreases rows.len(),
{
    if rows.len() == 0 {
        Seq::empty()
    } else {
        let row = rows.last();
        match first_named(rows.drop_last(), lowercased(row.1@)) {
            Some(keep) => folds(rows.drop_last()).push(Fold { keep, drop: row.0 }),
            None => folds(rows.drop_last()),
        }
    }
}

/// Which collections are folded into which. The rows come in the order in
/// which the first of a name is kept.
pub fn dedupe_collections_nocase(rows: &Vec<(i64, String)>) -> (r: Vec<Fold>)
    ensures
        r@ == folds(rows@),
{
    let mut out: Vec<Fold> = Vec::new();
    let mut keys: Vec<String> = Vec::new();
    let n: usize = rows.len();
    let mut i: usize = 0;
    while i < n
        invariant
            i <= n,
            n == rows@.len(),
            keys@.len() == i,
            forall|k: int| 0 <= k < i ==> (#[trigger] keys@[k])@ == lowercased(rows@[k].1@),
            out@ == folds(rows@.take(i as int)),
        decreases n - i,
    {
        let key = to_lower(rows[i].1.as_str());
        assert(rows@.take(i + 1).drop_last() =~= rows@.take(i as int));
        assert(rows@.take(i + 1).last() == rows@[i as int]);
        let mut found: Option<i64> = None;
        let mut j: usize = 0;
        assert(rows@.take(0) =~= Seq::<(i64, String)>::empty());
        while j < i
            invariant
                j <= i,
                i < n,
                n == rows@.len(),
                keys@.len() == i,
                forall|k: int| 0 <= k < i ==> (#[trigger] keys@[k])@ == lowercased(rows@[k].1@),
                found == first_named(rows@.take(j as int), key@),
            decreases i - j,
        {
            assert(rows@.take(j + 1).drop_last() =~= rows@.take(j as int));
            assert(rows@.take(j + 1).last() == rows@[j as int]);
            if found.is_none() && same(keys[j].as_str(), key.as_str()) {
                found = Some(rows[j].0);
            }
            j += 1;
        }
        if let Some(keep) = found {
            out.push(Fold { keep, drop: rows[i].0 });
        }
        keys.push(key);
        i += 1;
    }
    assert(rows@.take(n as int) =~= rows@);
    out
}

proof fn lemma_first_named(rows: Seq<(i64, String)>, key: Seq<char>)
    ensures
        match first_named(rows, key) {
            Some(id) => exists|i: int|
                0 <= i < rows.len() && (#[trigger] rows[i]).0 == id && lowercased(rows[i].1@) == key,
            None => forall|i: int| 0 <= i < rows.len() ==> lowercased((#[trigger] rows[i]).1@) != key,
        },
    decreases rows.len(),
{
    if rows.len() > 0 {
        let prev = rows.drop_last();
        lemma_first_named(prev, key);
        match first_named(prev, key) {
            Some(id) => {
                let i = choose|i: int|
                    0 <= i < prev.len() && (#[trigger] prev[i]).0 == id && lowercased(prev[i].1@)
                        == key;
                assert(rows[i] == prev[i]);
            },
            None => {
                assert(rows[rows.len() - 1] == rows.last());
                assert forall|i: int| 0 <= i < prev.len() implies lowercased(
                    (#[trigger] rows[i]).1@,
                ) != key by {
                    assert(prev[i] == rows[i]);
                }
            },
        }
    }
}

/// Whether a row is folded away.
pub open spec fn is_dropped(rows: Seq<(i64, String)>, i: int) -> bool {
    first_named(rows.take(i), lowercased(rows[i].1@)) is Some
}

/// Of the collections that stay, no two have one name, whatever its case.
pub proof fn law_kept_names_differ(rows: Seq<(i64, String)>, i: int, j: int)
    requires
        0 <= i < j < rows.len(),
        !is_dropped(rows, i),
        !is_dropped(rows, j),
    ensures
        lowercased(rows[i].1@) != lowercased(rows[j].1@),
{
    lemma_first_named(rows.take(j), lowercased(rows[j].1@));
    assert(rows.take(j)[i] == rows[i]);
}

/// Every name keeps a collection: a row that is folded away is folded into
/// one of its own name.
pub proof fn law_folds_stay_within_a_name(rows: Seq<(i64, String)>, k: int)
    requires
        0 <= k < folds(rows).len(),
    ensures
        exists|i: int, j: int|
            0 <= i < j < rows.len() && (#[trigger] rows[i]).0 == folds(rows)[k].keep && (
            #[trigger] rows[j]).0 == folds(rows)[k].drop && lowercased(rows[i].1@) == lowercased(
                rows[j].1@,
            ),
    decreases rows.len(),
{
    let prev = rows.drop_last();
    let row = rows.last();
    let before = folds(prev);
    if k < before.len() {
        law_folds_stay_within_a_name(prev, k);
        let (i, j) = choose|i: int, j: int|
            0 <= i < j < prev.len() && (#[trigger] prev[i]).0 == before[k].keep && (
            #[trigger] prev[j]).0 == before[k].drop && lowercased(prev[i].1@) == lowercased(
                prev[j].1@,
            );
        assert(rows[i] == prev[i] && rows[j] == prev[j]);
        assert(folds(rows)[k] == before[k]);
    } else {
        lemma_first_named(prev, lowercased(row.1@));
        let id = first_named(prev, lowercased(row.1@))->0;
        let i = choose|i: int|
            0 <= i < prev.len() && (#[trigger] prev[i]).0 == id && lowercased(prev[i].1@)
                == lowercased(row.1@);
        assert(rows[i] == prev[i]);
        assert(rows[rows.len() - 1] == row);
    }
}

} // verus!
