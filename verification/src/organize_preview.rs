//! Previews of an organize plan: a grouped summary, and a listing file by
//! file. How they are rendered is up to the front end.
use crate::organizer::{answer, OrganizePlan, Probe};
use crate::paths::{file_name, parent};
use crate::rows::copy_text;
use crate::tally::{tallied, tally, Tally};
use crate::text::{holds, same, views};
use vstd::prelude::*;

verus! {

/// The moves from one directory to another.
#[derive(Debug, Clone)]
pub struct DirMoveGroup {
    pub from_dir: String,
    pub to_dir: String,
    pub count: usize,
}

/// The moves that stay in their directory: renames in place.
#[derive(Debug, Clone)]
pub struct InPlaceRenameGroup {
    pub dir: String,
    pub count: usize,
}

/// The copies for one collection.
#[derive(Debug, Clone)]
pub struct CollectionCopyGroup {
    pub collection_name: String,
    pub count: usize,
}

/// Counts that both previews show. Covers count as moves.
#[derive(Debug, Clone, Copy, PartialEq, Eq, Structural)]
pub struct PlanStats {
    pub moves_total: usize,
    pub copies_total: usize,
    pub skipped: usize,
    /// Rows that point at missing files.
    pub orphans: usize,
    /// Files without row that will be deleted and not overwritten.
    pub file_orphans: usize,
    /// Files without row that a planned file overwrites.
    pub file_orphans_absorbed: usize,
}

/// The grouped overview of a plan.
#[derive(Debug)]
pub struct SummaryPreview {
    pub stats: PlanStats,
    pub dir_moves: Vec<DirMoveGroup>,
    pub in_place_renames: Vec<InPlaceRenameGroup>,
    pub collection_copies: Vec<CollectionCopyGroup>,
}

/// One move.
#[derive(Debug, Clone)]
pub struct MoveDetail {
    pub from_name: String,
    pub from_dir: String,
    pub to_dir: String,
    pub to_name: String,
    /// Whether the file name changes.
    pub renamed: bool,
    /// Whether a file without row stands at the destination.
    pub overwrites_orphan: bool,
}

/// One copy.
#[derive(Debug, Clone)]
pub struct CopyDetail {
    pub name: String,
    pub to_dir: String,
    pub collection_name: String,
}

/// One row without file.
#[derive(Debug, Clone)]
pub struct OrphanDetail {
    pub id: i64,
    pub title: String,
    pub path: String,
}

/// One file without row.
#[derive(Debug, Clone)]
pub struct FileOrphanDetail {
    pub path: String,
    pub label: String,
    pub reason: String,
}

/// The plan file by file.
#[derive(Debug)]
pub struct DetailPreview {
    pub stats: PlanStats,
    pub moves: Vec<MoveDetail>,
    pub copies: Vec<CopyDetail>,
    pub orphans: Vec<OrphanDetail>,
    pub file_orphans: Vec<FileOrphanDetail>,
}

// ---------------------------------------------------------------------------
// What is overwritten

/// The resolved spelling of a path, where it is known.
pub open spec fn resolved_of(disk: Seq<Probe>, p: Seq<char>) -> Option<Seq<char>> {
    match answer(disk, p) {
        Some(a) => crate::text::opt_view(a.resolved),
        None => None,
    }
}

/// Whether `t` is a spelling of the path `p`: the given or the resolved one.
pub open spec fn is_form(disk: Seq<Probe>, p: Seq<char>, t: Seq<char>) -> bool {
    t == p || resolved_of(disk, p) == Some(t)
}

/// Whether two paths share a spelling.
pub open spec fn share_form(disk: Seq<Probe>, p: Seq<char>, q: Seq<char>) -> bool {
    is_form(disk, q, p) || (resolved_of(disk, p) is Some && is_form(
        disk,
        q,
        resolved_of(disk, p)->0,
    ))
}

/// Whether one of `list` shares a spelling with `p`.
pub open spec fn spelled_in(disk: Seq<Probe>, list: Seq<Seq<char>>, p: Seq<char>) -> bool {
    exists|i: int| 0 <= i < list.len() && share_form(disk, p, #[trigger] list[i])
}

/// Every planned destination: of moves, covers and copies.
pub open spec fn destinations(plan: OrganizePlan) -> Seq<Seq<char>> {
    plan.moves@.map_values(|m: crate::organizer::FileMove| m.to@) + plan.cover_moves@.map_values(
        |c: crate::organizer::CoverMove| c.to@,
    ) + plan.copies@.map_values(|c: crate::organizer::FileCopy| c.to@)
}

/// The paths of the files without row.
pub open spec fn orphan_files(plan: OrganizePlan) -> Seq<Seq<char>> {
    plan.file_orphans@.map_values(|e: crate::organizer::FileOrphanEntry| e.path@)
}

/// Whether a planned file overwrites the `i`-th file without row.
pub open spec fn is_absorbed(plan: OrganizePlan, disk: Seq<Probe>, i: int) -> bool {
    spelled_in(disk, destinations(plan), plan.file_orphans@[i].path@)
}

/// How many of the first `n` files without row are overwritten.
pub open spec fn absorbed(plan: OrganizePlan, disk: Seq<Probe>, n: int) -> nat
    decreases n,
{
    if n <= 0 {
        0
    } else {
        absorbed(plan, disk, n - 1) + if is_absorbed(plan, disk, n - 1) { 1nat } else { 0nat }
    }
}

/// Source and destination of every file that moves, tracks before covers.
pub open spec fn move_pairs(plan: OrganizePlan) -> Seq<(Seq<char>, Seq<char>)> {
    plan.moves@.map_values(|m: crate::organizer::FileMove| (m.from@, m.to@))
        + plan.cover_moves@.map_values(|c: crate::organizer::CoverMove| (c.from@, c.to@))
}

/// The counts of a plan.
pub open spec fn stats_of(plan: OrganizePlan, disk: Seq<Probe>) -> PlanStats {
    let n = plan.file_orphans@.len() as int;
    PlanStats {
        moves_total: (plan.moves@.len() + plan.cover_moves@.len()) as usize,
        copies_total: plan.copies@.len() as usize,
        skipped: plan.skipped,
        orphans: plan.missing_sources@.len() as usize,
        file_orphans: (n - absorbed(plan, disk, n)) as usize,
        file_orphans_absorbed: absorbed(plan, disk, n) as usize,
    }
}

/// The directory of a path.
pub open spec fn dir_text(p: Seq<char>) -> Seq<char> {
    match crate::paths::parent_of(p) {
        Some(d) => d,
        None => Seq::empty(),
    }
}

/// The file name of a path.
pub open spec fn name_text(p: Seq<char>) -> Seq<char> {
    match crate::paths::name_of_path(p) {
        Some(n) => n,
        None => "?"@,
    }
}

fn dir_of(p: &str) -> (r: String)
    ensures
        r@ == dir_text(p@),
{
    match parent(p) {
        Some(d) => d,
        None => String::new(),
    }
}

fn name_of(p: &str) -> (r: String)
    ensures
        r@ == name_text(p@),
{
    match file_name(p) {
        Some(n) => n,
        None => "?".to_owned(),
    }
}

fn resolve(disk: &Vec<Probe>, p: &str) -> (r: Option<String>)
    ensures
        crate::text::opt_view(r) == resolved_of(disk@, p@),
{
    let mut i: usize = 0;
    assert(disk@.skip(0) =~= disk@);
    while i < disk.len()
        invariant
            i <= disk@.len(),
            answer(disk@, p@) == answer(disk@.skip(i as int), p@),
        decreases disk@.len() - i,
    {
        assert(disk@.skip(i as int)[0] == disk@[i as int]);
        if same(disk[i].path.as_str(), p) {
            return copy_text(&disk[i].resolved);
        }
        assert(disk@.skip(i as int).skip(1) =~= disk@.skip(i + 1));
        i += 1;
    }
    None
}

/// Whether `forms` holds just the spellings of the paths in `list`.
spec fn all_forms(disk: Seq<Probe>, forms: Seq<Seq<char>>, list: Seq<Seq<char>>) -> bool {
    &&& forall|t: Seq<char>| #[trigger]
        forms.contains(t) ==> exists|i: int| 0 <= i < list.len() && is_form(disk, #[trigger] list[i], t)
    &&& forall|i: int, t: Seq<char>|
        0 <= i < list.len() && is_form(disk, #[trigger] list[i], t) ==> #[trigger] forms.contains(t)
}

/// Adds the spellings of `p`.
fn insert_path_forms(
    disk: &Vec<Probe>,
    p: &str,
    forms: &mut Vec<String>,
    Ghost(list): Ghost<Seq<Seq<char>>>,
)
    requires
        all_forms(disk@, views(old(forms)@), list),
    ensures
        all_forms(disk@, views(final(forms)@), list.push(p@)),
{
    let ghost before = views(forms@);
    forms.push(p.to_owned());
    assert(views(forms@) =~= before.push(p@));
    let r = resolve(disk, p);
    if let Some(t) = &r {
        forms.push(t.clone());
        assert(views(forms@) =~= before.push(p@).push(t@));
    }
    proof {
        let now = views(forms@);
        let longer = list.push(p@);
        assert forall|t: Seq<char>| #[trigger] now.contains(t) implies exists|i: int|
            0 <= i < longer.len() && is_form(disk@, #[trigger] longer[i], t) by {
            let k = choose|k: int| 0 <= k < now.len() && now[k] == t;
            if k < before.len() {
                assert(before[k] == t);
                assert(before.contains(t));
                let i = choose|i: int| 0 <= i < list.len() && is_form(disk@, #[trigger] list[i], t);
                assert(longer[i] == list[i]);
            } else {
                assert(longer[list.len() as int] == p@);
            }
        }
        assert forall|i: int, t: Seq<char>|
            0 <= i < longer.len() && is_form(disk@, #[trigger] longer[i], t) implies #[trigger] now.contains(
            t,
        ) by {
            if i < list.len() {
                assert(longer[i] == list[i]);
                assert(before.contains(t));
                let k = choose|k: int| 0 <= k < before.len() && before[k] == t;
                assert(now[k] == t);
            } else if t == p@ {
                assert(now[before.len() as int] == t);
            } else {
                assert(now[before.len() as int + 1] == t);
            }
        }
    }
}

/// Whether any spelling of `p` is among `forms`.
fn path_in_set(
    disk: &Vec<Probe>,
    p: &str,
    forms: &Vec<String>,
    Ghost(list): Ghost<Seq<Seq<char>>>,
) -> (r: bool)
    requires
        all_forms(disk@, views(forms@), list),
    ensures
        r == spelled_in(disk@, list, p@),
{
    let ghost f = views(forms@);
    let res = resolve(disk, p);
    let direct = holds(forms, p);
    let other = match &res {
        Some(t) => holds(forms, t.as_str()),
        None => false,
    };
    proof {
        if f.contains(p@) {
            let i = choose|i: int| 0 <= i < list.len() && is_form(disk@, #[trigger] list[i], p@);
            assert(share_form(disk@, p@, list[i]));
        }
        if resolved_of(disk@, p@) is Some && f.contains(resolved_of(disk@, p@)->0) {
            let i = choose|i: int|
                0 <= i < list.len() && is_form(
                    disk@,
                    #[trigger] list[i],
                    resolved_of(disk@, p@)->0,
                );
            assert(share_form(disk@, p@, list[i]));
        }
        if spelled_in(disk@, list, p@) {
            let i = choose|i: int| 0 <= i < list.len() && share_form(disk@, p@, #[trigger] list[i]);
            assert(is_form(disk@, list[i], p@) || is_form(
                disk@,
                list[i],
                resolved_of(disk@, p@)->0,
            ));
        }
    }
    direct || other
}

/// The spellings of every destination, and of every file without row.
fn overlap_sets(plan: &OrganizePlan, disk: &Vec<Probe>) -> (r: (Vec<String>, Vec<String>))
    ensures
        all_forms(disk@, views(r.0@), destinations(*plan)),
        all_forms(disk@, views(r.1@), orphan_files(*plan)),
{
    let ghost d = destinations(*plan);
    let ghost o = orphan_files(*plan);
    let ghost a = plan.moves@.len() as int;
    let ghost b = plan.cover_moves@.len() as int;
    let mut dests: Vec<String> = Vec::new();
    let mut i: usize = 0;
    assert(all_forms(disk@, views(dests@), d.take(0)));
    while i < plan.moves.len()
        invariant
            i <= plan.moves@.len(),
            d == destinations(*plan),
            all_forms(disk@, views(dests@), d.take(i as int)),
        decreases plan.moves@.len() - i,
    {
        assert(d[i as int] == plan.moves@[i as int].to@);
        insert_path_forms(disk, plan.moves[i].to.as_str(), &mut dests, Ghost(d.take(i as int)));
        i += 1;
        assert(d.take(i as int) =~= d.take(i - 1).push(d[i - 1]));
    }
    let mut j: usize = 0;
    while j < plan.cover_moves.len()
        invariant
            j <= plan.cover_moves@.len(),
            d == destinations(*plan),
            a == plan.moves@.len(),
            all_forms(disk@, views(dests@), d.take(a + j)),
        decreases plan.cover_moves@.len() - j,
    {
        assert(d[a + j] == plan.cover_moves@[j as int].to@);
        insert_path_forms(disk, plan.cover_moves[j].to.as_str(), &mut dests, Ghost(d.take(a + j)));
        j += 1;
        assert(d.take(a + j) =~= d.take(a + j - 1).push(d[a + j - 1]));
    }
    let mut k: usize = 0;
    while k < plan.copies.len()
        invariant
            k <= plan.copies@.len(),
            d == destinations(*plan),
            a == plan.moves@.len(),
            b == plan.cover_moves@.len(),
            all_forms(disk@, views(dests@), d.take(a + b + k)),
        decreases plan.copies@.len() - k,
    {
        assert(d[a + b + k] == plan.copies@[k as int].to@);
        insert_path_forms(disk, plan.copies[k].to.as_str(), &mut dests, Ghost(d.take(a + b + k)));
        k += 1;
        assert(d.take(a + b + k) =~= d.take(a + b + k - 1).push(d[a + b + k - 1]));
    }
    assert(d.take(a + b + k) =~= d);
    let mut orphs: Vec<String> = Vec::new();
    let mut m: usize = 0;
    assert(all_forms(disk@, views(orphs@), o.take(0)));
    while m < plan.file_orphans.len()
        invariant
            m <= plan.file_orphans@.len(),
            o == orphan_files(*plan),
            all_forms(disk@, views(orphs@), o.take(m as int)),
        decreases plan.file_orphans@.len() - m,
    {
        insert_path_forms(
            disk,
            plan.file_orphans[m].path.as_str(),
            &mut orphs,
            Ghost(o.take(m as int)),
        );
        m += 1;
        assert(o.take(m as int) =~= o.take(m - 1).push(o[m - 1]));
    }
    assert(o.take(m as int) =~= o);
    (dests, orphs)
}

proof fn lemma_absorbed_bound(plan: OrganizePlan, disk: Seq<Probe>, n: int)
    requires
        0 <= n,
    ensures
        absorbed(plan, disk, n) <= n,
    decreases n,
{
    if n > 0 {
        lemma_absorbed_bound(plan, disk, n - 1);
    }
}

/// The counts of a plan, given how many files without row are overwritten.
fn stats_from(plan: &OrganizePlan, dangling_orphans: usize, absorbed_orphans: usize) -> (r: PlanStats)
    requires
        plan.moves@.len() + plan.cover_moves@.len() <= usize::MAX,
    ensures
        r == (PlanStats {
            moves_total: (plan.moves@.len() + plan.cover_moves@.len()) as usize,
            copies_total: plan.copies@.len() as usize,
            skipped: plan.skipped,
            orphans: plan.missing_sources@.len() as usize,
            file_orphans: dangling_orphans,
            file_orphans_absorbed: absorbed_orphans,
        }),
{
    PlanStats {
        moves_total: plan.moves.len() + plan.cover_moves.len(),
        copies_total: plan.copies.len(),
        skipped: plan.skipped,
        orphans: plan.missing_sources.len(),
        file_orphans: dangling_orphans,
        file_orphans_absorbed: absorbed_orphans,
    }
}

// ---------------------------------------------------------------------------
// Summary

/// The directories of a move, as a key; one text for a rename in place.
pub open spec fn dir_key(pair: (Seq<char>, Seq<char>)) -> Seq<Seq<char>> {
    if dir_text(pair.0) == dir_text(pair.1) {
        seq![dir_text(pair.0)]
    } else {
        seq![dir_text(pair.0), dir_text(pair.1)]
    }
}

/// The keys of moves between two directories, among the first `n`.
pub open spec fn dir_keys(pairs: Seq<(Seq<char>, Seq<char>)>, renames: bool, n: int) -> Seq<
    Seq<Seq<char>>,
>
    decreases n,
{
    if n <= 0 {
        Seq::empty()
    } else {
        let before = dir_keys(pairs, renames, n - 1);
        if (dir_key(pairs[n - 1]).len() == 1) == renames {
            before.push(dir_key(pairs[n - 1]))
        } else {
            before
        }
    }
}

/// The collection of every copy.
pub open spec fn collection_keys(plan: OrganizePlan) -> Seq<Seq<Seq<char>>> {
    plan.copies@.map_values(|c: crate::organizer::FileCopy| seq![c.collection_name@])
}

/// Whether the groups are those of a tally of directory pairs.
pub open spec fn dir_groups_fit(g: Seq<DirMoveGroup>, t: Seq<Tally>) -> bool {
    g.len() == t.len() && forall|i: int|
        0 <= i < g.len() ==> (#[trigger] g[i]).count == t[i].count && views(t[i].key@) == seq![
            g[i].from_dir@,
            g[i].to_dir@,
        ]
}

/// Whether the groups are those of a tally of directories.
pub open spec fn rename_groups_fit(g: Seq<InPlaceRenameGroup>, t: Seq<Tally>) -> bool {
    g.len() == t.len() && forall|i: int|
        0 <= i < g.len() ==> (#[trigger] g[i]).count == t[i].count && views(t[i].key@) == seq![
            g[i].dir@,
        ]
}

/// Whether the groups are those of a tally of collections.
pub open spec fn copy_groups_fit(g: Seq<CollectionCopyGroup>, t: Seq<Tally>) -> bool {
    g.len() == t.len() && forall|i: int|
        0 <= i < g.len() ==> (#[trigger] g[i]).count == t[i].count && views(t[i].key@) == seq![
            g[i].collection_name@,
        ]
}

proof fn lemma_dir_keys_shape(
    pairs: Seq<(Seq<char>, Seq<char>)>,
    renames: bool,
    n: int,
    k: int,
)
    requires
        0 <= k < dir_keys(pairs, renames, n).len(),
    ensures
        dir_keys(pairs, renames, n)[k].len() == (if renames { 1int } else { 2int }),
    decreases n,
{
    if n > 0 {
        let before = dir_keys(pairs, renames, n - 1);
        if k < before.len() {
            lemma_dir_keys_shape(pairs, renames, n - 1, k);
        }
    }
}

proof fn lemma_tally_key(t: Seq<Tally>, keys: Seq<Seq<Seq<char>>>, i: int, len: nat)
    requires
        tallied(t, keys),
        0 <= i < t.len(),
        forall|k: int| 0 <= k < keys.len() ==> (#[trigger] keys[k]).len() == len,
    ensures
        t[i].key@.len() == len,
{
    lemma_key_occurs(keys, views(t[i].key@));
    let k = choose|k: int| 0 <= k < keys.len() && keys[k] == views(t[i].key@);
    assert(keys[k].len() == len);
}

proof fn lemma_key_occurs(keys: Seq<Seq<Seq<char>>>, key: Seq<Seq<char>>)
    requires
        crate::tally::occurrences(keys, key) > 0,
    ensures
        keys.contains(key),
    decreases keys.len(),
{
    if keys.last() == key {
        assert(keys[keys.len() - 1] == key);
    } else {
        lemma_key_occurs(keys.drop_last(), key);
        let i = choose|i: int| 0 <= i < keys.drop_last().len() && keys.drop_last()[i] == key;
        assert(keys[i] == key);
    }
}

/// The key of a file's move, put with the renames or the moves.
fn push_key(
    from: &str,
    to: &str,
    renames: &mut Vec<Vec<String>>,
    others: &mut Vec<Vec<String>>,
    Ghost(pairs): Ghost<Seq<(Seq<char>, Seq<char>)>>,
    Ghost(n): Ghost<int>,
)
    requires
        0 <= n < pairs.len(),
        pairs[n] == (from@, to@),
        crate::tally::key_views(old(renames)@) == dir_keys(pairs, true, n),
        crate::tally::key_views(old(others)@) == dir_keys(pairs, false, n),
    ensures
        crate::tally::key_views(final(renames)@) == dir_keys(pairs, true, n + 1),
        crate::tally::key_views(final(others)@) == dir_keys(pairs, false, n + 1),
{
    let from_dir = dir_of(from);
    let to_dir = dir_of(to);
    let ghost key = dir_key(pairs[n]);
    if same(from_dir.as_str(), to_dir.as_str()) {
        let mut k: Vec<String> = Vec::new();
        k.push(from_dir);
        assert(views(k@) =~= key);
        renames.push(k);
        assert(crate::tally::key_views(renames@) =~= crate::tally::key_views(old(renames)@).push(key));
    } else {
        let mut k: Vec<String> = Vec::new();
        k.push(from_dir);
        k.push(to_dir);
        assert(views(k@) =~= key);
        others.push(k);
        assert(crate::tally::key_views(others@) =~= crate::tally::key_views(old(others)@).push(key));
    }
}

/// The overview of a plan: moves by pair of directories, with renames in
/// place apart, and copies by collection.
pub fn build_summary(plan: &OrganizePlan, disk: &Vec<Probe>) -> (r: SummaryPreview)
    requires
        plan.moves@.len() + plan.cover_moves@.len() <= usize::MAX,
    ensures
        r.stats == stats_of(*plan, disk@),
        exists|t: Seq<Tally>| #[trigger]
            tallied(t, dir_keys(move_pairs(*plan), false, move_pairs(*plan).len() as int))
                && dir_groups_fit(r.dir_moves@, t),
        exists|t: Seq<Tally>| #[trigger]
            tallied(t, dir_keys(move_pairs(*plan), true, move_pairs(*plan).len() as int))
                && rename_groups_fit(r.in_place_renames@, t),
        exists|t: Seq<Tally>| #[trigger]
            tallied(t, collection_keys(*plan)) && copy_groups_fit(r.collection_copies@, t),
{
    let (dests, _orphs) = overlap_sets(plan, disk);
    let mut count: usize = 0;
    let mut i: usize = 0;
    let n: usize = plan.file_orphans.len();
    while i < n
        invariant
            i <= n,
            n == plan.file_orphans@.len(),
            count == absorbed(*plan, disk@, i as int),
            count <= i,
            all_forms(disk@, views(dests@), destinations(*plan)),
        decreases n - i,
    {
        if path_in_set(
            disk,
            plan.file_orphans[i].path.as_str(),
            &dests,
            Ghost(destinations(*plan)),
        ) {
            count += 1;
        }
        i += 1;
    }
    let stats = stats_from(plan, n - count, count);
    let ghost pairs = move_pairs(*plan);
    let ghost a = plan.moves@.len() as int;
    let mut renames: Vec<Vec<String>> = Vec::new();
    let mut others: Vec<Vec<String>> = Vec::new();
    let mut j: usize = 0;
    assert(crate::tally::key_views(renames@) =~= dir_keys(pairs, true, 0));
    assert(crate::tally::key_views(others@) =~= dir_keys(pairs, false, 0));
    while j < plan.moves.len()
        invariant
            j <= plan.moves@.len(),
            pairs == move_pairs(*plan),
            crate::tally::key_views(renames@) == dir_keys(pairs, true, j as int),
            crate::tally::key_views(others@) == dir_keys(pairs, false, j as int),
        decreases plan.moves@.len() - j,
    {
        push_key(
            plan.moves[j].from.as_str(),
            plan.moves[j].to.as_str(),
            &mut renames,
            &mut others,
            Ghost(pairs),
            Ghost(j as int),
        );
        j += 1;
    }
    let mut k: usize = 0;
    while k < plan.cover_moves.len()
        invariant
            k <= plan.cover_moves@.len(),
            pairs == move_pairs(*plan),
            a == plan.moves@.len(),
            crate::tally::key_views(renames@) == dir_keys(pairs, true, a + k),
            crate::tally::key_views(others@) == dir_keys(pairs, false, a + k),
        decreases plan.cover_moves@.len() - k,
    {
        push_key(
            plan.cover_moves[k].from.as_str(),
            plan.cover_moves[k].to.as_str(),
            &mut renames,
            &mut others,
            Ghost(pairs),
            Ghost(a + k),
        );
        k += 1;
    }
    let mut names: Vec<Vec<String>> = Vec::new();
    let mut m: usize = 0;
    while m < plan.copies.len()
        invariant
            m <= plan.copies@.len(),
            crate::tally::key_views(names@) == collection_keys(*plan).take(m as int),
        decreases plan.copies@.len() - m,
    {
        let ghost before = crate::tally::key_views(names@);
        let mut key: Vec<String> = Vec::new();
        key.push(plan.copies[m].collection_name.clone());
        assert(views(key@) =~= collection_keys(*plan)[m as int]);
        names.push(key);
        assert(crate::tally::key_views(names@) =~= before.push(collection_keys(*plan)[m as int]));
        m += 1;
        assert(collection_keys(*plan).take(m as int) =~= collection_keys(*plan).take(m - 1).push(
            collection_keys(*plan)[m - 1],
        ));
    }
    assert(collection_keys(*plan).take(m as int) =~= collection_keys(*plan));
    proof {
        let total = pairs.len() as int;
        assert forall|x: int| 0 <= x < dir_keys(pairs, false, total).len() implies (
        #[trigger] dir_keys(pairs, false, total)[x]).len() == 2 by {
            lemma_dir_keys_shape(pairs, false, total, x);
        }
        assert forall|x: int| 0 <= x < dir_keys(pairs, true, total).len() implies (
        #[trigger] dir_keys(pairs, true, total)[x]).len() == 1 by {
            lemma_dir_keys_shape(pairs, true, total, x);
        }
    }
    SummaryPreview {
        stats,
        dir_moves: dir_groups(tally(others), Ghost(dir_keys(pairs, false, pairs.len() as int))),
        in_place_renames: rename_groups(
            tally(renames),
            Ghost(dir_keys(pairs, true, pairs.len() as int)),
        ),
        collection_copies: copy_groups(tally(names), Ghost(collection_keys(*plan))),
    }
}

fn dir_groups(t: Vec<Tally>, Ghost(keys): Ghost<Seq<Seq<Seq<char>>>>) -> (r: Vec<DirMoveGroup>)
    requires
        tallied(t@, keys),
        forall|k: int| 0 <= k < keys.len() ==> (#[trigger] keys[k]).len() == 2,
    ensures
        dir_groups_fit(r@, t@),
{
    let mut out: Vec<DirMoveGroup> = Vec::new();
    let mut i: usize = 0;
    while i < t.len()
        invariant
            i <= t@.len(),
            tallied(t@, keys),
            forall|k: int| 0 <= k < keys.len() ==> (#[trigger] keys[k]).len() == 2,
            dir_groups_fit(out@, t@.take(i as int)),
        decreases t@.len() - i,
    {
        proof {
            lemma_tally_key(t@, keys, i as int, 2);
        }
        let g = DirMoveGroup {
            from_dir: t[i].key[0].clone(),
            to_dir: t[i].key[1].clone(),
            count: t[i].count,
        };
        assert(views(t@[i as int].key@) =~= seq![g.from_dir@, g.to_dir@]);
        out.push(g);
        i += 1;
    }
    assert(t@.take(i as int) =~= t@);
    out
}

fn rename_groups(t: Vec<Tally>, Ghost(keys): Ghost<Seq<Seq<Seq<char>>>>) -> (r: Vec<
    InPlaceRenameGroup,
>)
    requires
        tallied(t@, keys),
        forall|k: int| 0 <= k < keys.len() ==> (#[trigger] keys[k]).len() == 1,
    ensures
        rename_groups_fit(r@, t@),
{
    let mut out: Vec<InPlaceRenameGroup> = Vec::new();
    let mut i: usize = 0;
    while i < t.len()
        invariant
            i <= t@.len(),
            tallied(t@, keys),
            forall|k: int| 0 <= k < keys.len() ==> (#[trigger] keys[k]).len() == 1,
            rename_groups_fit(out@, t@.take(i as int)),
        decreases t@.len() - i,
    {
        proof {
            lemma_tally_key(t@, keys, i as int, 1);
        }
        let g = InPlaceRenameGroup { dir: t[i].key[0].clone(), count: t[i].count };
        assert(views(t@[i as int].key@) =~= seq![g.dir@]);
        out.push(g);
        i += 1;
    }
    assert(t@.take(i as int) =~= t@);
    out
}

fn copy_groups(t: Vec<Tally>, Ghost(keys): Ghost<Seq<Seq<Seq<char>>>>) -> (r: Vec<
    CollectionCopyGroup,
>)
    requires
        tallied(t@, keys),
        forall|k: int| 0 <= k < keys.len() ==> (#[trigger] keys[k]).len() == 1,
    ensures
        copy_groups_fit(r@, t@),
{
    let mut out: Vec<CollectionCopyGroup> = Vec::new();
    let mut i: usize = 0;
    while i < t.len()
        invariant
            i <= t@.len(),
            tallied(t@, keys),
            forall|k: int| 0 <= k < keys.len() ==> (#[trigger] keys[k]).len() == 1,
            copy_groups_fit(out@, t@.take(i as int)),
        decreases t@.len() - i,
    {
        proof {
            lemma_tally_key(t@, keys, i as int, 1);
        }
        let g = CollectionCopyGroup {
            collection_name: t[i].key[0].clone(),
            count: t[i].count,
        };
        assert(views(t@[i as int].key@) =~= seq![g.collection_name@]);
        out.push(g);
        i += 1;
    }
    assert(t@.take(i as int) =~= t@);
    out
}

// ---------------------------------------------------------------------------
// Details

/// Whether `d` describes the move of a file.
pub open spec fn move_detail_fits(
    d: MoveDetail,
    plan: OrganizePlan,
    disk: Seq<Probe>,
    pair: (Seq<char>, Seq<char>),
) -> bool {
    &&& d.from_name@ == name_text(pair.0)
    &&& d.from_dir@ == dir_text(pair.0)
    &&& d.to_dir@ == dir_text(pair.1)
    &&& d.to_name@ == name_text(pair.1)
    &&& d.renamed == (name_text(pair.0) != name_text(pair.1))
    &&& d.overwrites_orphan == spelled_in(disk, orphan_files(plan), pair.1)
}

/// How a file without row is shown: by artist and title, or its file name,
/// and its album.
pub open spec fn orphan_label(e: crate::organizer::FileOrphanEntry) -> Seq<char> {
    let base = match (e.title, e.artist) {
        (Some(t), Some(a)) => a@ + " — "@ + t@,
        (Some(t), None) => t@,
        (None, _) => name_text(e.path@),
    };
    match e.album_title {
        Some(alb) => if alb@.len() > 0 { base + " · "@ + alb@ } else { base },
        None => base,
    }
}

/// Path, label and reason of the files without row, among the first `n`, that
/// nothing overwrites.
pub open spec fn dangling(plan: OrganizePlan, disk: Seq<Probe>, n: int) -> Seq<
    (Seq<char>, Seq<char>, Seq<char>),
>
    decreases n,
{
    if n <= 0 {
        Seq::empty()
    } else {
        let before = dangling(plan, disk, n - 1);
        let e = plan.file_orphans@[n - 1];
        if is_absorbed(plan, disk, n - 1) {
            before
        } else {
            before.push((e.path@, orphan_label(e), e.reason@))
        }
    }
}

/// Path, label and reason of each entry.
pub open spec fn orphan_detail_views(v: Seq<FileOrphanDetail>) -> Seq<
    (Seq<char>, Seq<char>, Seq<char>),
> {
    v.map_values(|d: FileOrphanDetail| (d.path@, d.label@, d.reason@))
}

fn label_of(e: &crate::organizer::FileOrphanEntry) -> (r: String)
    ensures
        r@ == orphan_label(*e),
{
    let mut base = match (&e.title, &e.artist) {
        (Some(t), Some(a)) => {
            let mut s = a.clone();
            s.append(" — ");
            s.append(t.as_str());
            s
        },
        (Some(t), None) => t.clone(),
        (None, _) => name_of(e.path.as_str()),
    };
    if let Some(alb) = &e.album_title {
        if !alb.as_str().is_empty() {
            base.append(" · ");
            base.append(alb.as_str());
        }
    }
    base
}

fn move_detail(
    plan: &OrganizePlan,
    disk: &Vec<Probe>,
    orphs: &Vec<String>,
    from: &str,
    to: &str,
) -> (r: MoveDetail)
    requires
        all_forms(disk@, views(orphs@), orphan_files(*plan)),
    ensures
        move_detail_fits(r, *plan, disk@, (from@, to@)),
{
    let from_name = name_of(from);
    let to_name = name_of(to);
    let renamed = !same(from_name.as_str(), to_name.as_str());
    MoveDetail {
        from_name,
        from_dir: dir_of(from),
        to_dir: dir_of(to),
        to_name,
        renamed,
        overwrites_orphan: path_in_set(disk, to, orphs, Ghost(orphan_files(*plan))),
    }
}

/// The plan file by file, in its own order. A file without row that a planned
/// file overwrites is shown with that file only.
pub fn build_details(plan: &OrganizePlan, disk: &Vec<Probe>) -> (r: DetailPreview)
    requires
        plan.moves@.len() + plan.cover_moves@.len() <= usize::MAX,
    ensures
        r.stats == stats_of(*plan, disk@),
        r.moves@.len() == move_pairs(*plan).len(),
        forall|i: int|
            0 <= i < r.moves@.len() ==> move_detail_fits(
                #[trigger] r.moves@[i],
                *plan,
                disk@,
                move_pairs(*plan)[i],
            ),
        r.copies@.len() == plan.copies@.len(),
        forall|i: int|
            0 <= i < r.copies@.len() ==> (#[trigger] r.copies@[i]).name@ == name_text(
                plan.copies@[i].to@,
            ) && r.copies@[i].to_dir@ == dir_text(plan.copies@[i].to@)
                && r.copies@[i].collection_name@ == plan.copies@[i].collection_name@,
        r.orphans@.len() == plan.missing_sources@.len(),
        forall|i: int|
            0 <= i < r.orphans@.len() ==> (#[trigger] r.orphans@[i]).id == plan.missing_sources@[i].0
                && r.orphans@[i].path@ == plan.missing_sources@[i].1@ && r.orphans@[i].title@
                == plan.missing_sources@[i].2@,
        orphan_detail_views(r.file_orphans@) == dangling(
            *plan,
            disk@,
            plan.file_orphans@.len() as int,
        ),
{
    let (dests, orphs) = overlap_sets(plan, disk);
    let ghost pairs = move_pairs(*plan);
    let ghost a = plan.moves@.len() as int;
    let mut moves: Vec<MoveDetail> = Vec::new();
    let mut i: usize = 0;
    while i < plan.moves.len()
        invariant
            i <= plan.moves@.len(),
            pairs == move_pairs(*plan),
            all_forms(disk@, views(orphs@), orphan_files(*plan)),
            moves@.len() == i,
            forall|k: int|
                0 <= k < i ==> move_detail_fits(#[trigger] moves@[k], *plan, disk@, pairs[k]),
        decreases plan.moves@.len() - i,
    {
        let d = move_detail(
            plan,
            disk,
            &orphs,
            plan.moves[i].from.as_str(),
            plan.moves[i].to.as_str(),
        );
        moves.push(d);
        i += 1;
    }
    let mut j: usize = 0;
    while j < plan.cover_moves.len()
        invariant
            j <= plan.cover_moves@.len(),
            a == plan.moves@.len(),
            pairs == move_pairs(*plan),
            all_forms(disk@, views(orphs@), orphan_files(*plan)),
            moves@.len() == a + j,
            forall|k: int|
                0 <= k < a + j ==> move_detail_fits(#[trigger] moves@[k], *plan, disk@, pairs[k]),
        decreases plan.cover_moves@.len() - j,
    {
        let d = move_detail(
            plan,
            disk,
            &orphs,
            plan.cover_moves[j].from.as_str(),
            plan.cover_moves[j].to.as_str(),
        );
        assert(pairs[a + j] == (plan.cover_moves@[j as int].from@, plan.cover_moves@[j as int].to@));
        moves.push(d);
        j += 1;
    }
    let mut copies: Vec<CopyDetail> = Vec::new();
    let mut k: usize = 0;
    while k < plan.copies.len()
        invariant
            k <= plan.copies@.len(),
            copies@.len() == k,
            forall|x: int|
                0 <= x < k ==> (#[trigger] copies@[x]).name@ == name_text(plan.copies@[x].to@)
                    && copies@[x].to_dir@ == dir_text(plan.copies@[x].to@)
                    && copies@[x].collection_name@ == plan.copies@[x].collection_name@,
        decreases plan.copies@.len() - k,
    {
        let c = &plan.copies[k];
        copies.push(
            CopyDetail {
                name: name_of(c.to.as_str()),
                to_dir: dir_of(c.to.as_str()),
                collection_name: c.collection_name.clone(),
            },
        );
        k += 1;
    }
    let mut orphans: Vec<OrphanDetail> = Vec::new();
    let mut m: usize = 0;
    while m < plan.missing_sources.len()
        invariant
            m <= plan.missing_sources@.len(),
            orphans@.len() == m,
            forall|x: int|
                0 <= x < m ==> (#[trigger] orphans@[x]).id == plan.missing_sources@[x].0
                    && orphans@[x].path@ == plan.missing_sources@[x].1@ && orphans@[x].title@
                    == plan.missing_sources@[x].2@,
        decreases plan.missing_sources@.len() - m,
    {
        let s = &plan.missing_sources[m];
        orphans.push(OrphanDetail { id: s.0, title: s.2.clone(), path: s.1.clone() });
        m += 1;
    }
    let n: usize = plan.file_orphans.len();
    let mut file_orphans: Vec<FileOrphanDetail> = Vec::new();
    let mut count: usize = 0;
    let mut o: usize = 0;
    assert(orphan_detail_views(file_orphans@) =~= dangling(*plan, disk@, 0));
    while o < n
        invariant
            o <= n,
            n == plan.file_orphans@.len(),
            all_forms(disk@, views(dests@), destinations(*plan)),
            count == absorbed(*plan, disk@, o as int),
            count <= o,
            file_orphans@.len() + count == o,
            orphan_detail_views(file_orphans@) == dangling(*plan, disk@, o as int),
        decreases n - o,
    {
        let e = &plan.file_orphans[o];
        if path_in_set(disk, e.path.as_str(), &dests, Ghost(destinations(*plan))) {
            count += 1;
        } else {
            let ghost before = orphan_detail_views(file_orphans@);
            let d = FileOrphanDetail {
                path: e.path.clone(),
                label: label_of(e),
                reason: e.reason.clone(),
            };
            file_orphans.push(d);
            assert(orphan_detail_views(file_orphans@) =~= before.push((d.path@, d.label@, d.reason@)));
        }
        o += 1;
    }
    DetailPreview { stats: stats_from(plan, n - count, count), moves, copies, orphans, file_orphans }
}

/// The summary and the details of a plan, made from one view of the disk,
/// show the same counts. Every file without row is counted once, as
/// overwritten or as deleted, and the details list those that are deleted.
pub proof fn law_previews_agree(
    plan: OrganizePlan,
    disk: Seq<Probe>,
    summary: SummaryPreview,
    details: DetailPreview,
)
    requires
        summary.stats == stats_of(plan, disk),
        details.stats == stats_of(plan, disk),
        orphan_detail_views(details.file_orphans@) == dangling(
            plan,
            disk,
            plan.file_orphans@.len() as int,
        ),
    ensures
        summary.stats == details.stats,
        summary.stats.file_orphans + summary.stats.file_orphans_absorbed == plan.file_orphans@.len(),
        details.file_orphans@.len() == summary.stats.file_orphans,
{
    assert(plan.file_orphans.len() == plan.file_orphans@.len());
    let n = plan.file_orphans@.len() as int;
    lemma_absorbed_bound(plan, disk, n);
    lemma_dangling_len(plan, disk, n);
    assert(orphan_detail_views(details.file_orphans@).len() == details.file_orphans@.len());
}

proof fn lemma_dangling_len(plan: OrganizePlan, disk: Seq<Probe>, n: int)
    requires
        0 <= n,
    ensures
        dangling(plan, disk, n).len() + absorbed(plan, disk, n) == n,
    decreases n,
{
    if n > 0 {
        lemma_dangling_len(plan, disk, n - 1);
    }
}


/// The numbers of a preview are those of the plan: moves with covers, copies,
/// what is in place, what is missing; every orphan file is either replaced by
/// a planned file or left dangling.
pub proof fn law_previews_count_what_is_planned(plan: OrganizePlan, disk: Seq<Probe>)
    requires
        plan.moves@.len() + plan.cover_moves@.len() <= usize::MAX,
        plan.copies@.len() <= usize::MAX,
        plan.missing_sources@.len() <= usize::MAX,
        plan.file_orphans@.len() <= usize::MAX,
    ensures
        ({
            let s = stats_of(plan, disk);
            &&& s.moves_total == plan.moves@.len() + plan.cover_moves@.len()
            &&& s.copies_total == plan.copies@.len()
            &&& s.skipped == plan.skipped
            &&& s.orphans == plan.missing_sources@.len()
            &&& s.file_orphans + s.file_orphans_absorbed == plan.file_orphans@.len()
            &&& s.file_orphans == dangling(plan, disk, plan.file_orphans@.len() as int).len()
        }),
        move_pairs(plan).len() == plan.moves@.len() + plan.cover_moves@.len(),
        destinations(plan).len() == plan.moves@.len() + plan.cover_moves@.len() + plan.copies@.len(),
{
    lemma_absorbed_or_dangling(plan, disk, plan.file_orphans@.len() as int);
}

proof fn lemma_absorbed_or_dangling(plan: OrganizePlan, disk: Seq<Probe>, n: int)
    requires
        0 <= n <= plan.file_orphans@.len(),
    ensures
        absorbed(plan, disk, n) + dangling(plan, disk, n).len() == n,
    decreases n,
{
    if n > 0 {
        lemma_absorbed_or_dangling(plan, disk, n - 1);
    }
}

/// An orphan file that a planned file replaces is one whose path a move, a
/// cover or a copy goes to; no such file is left dangling.
pub proof fn law_replaced_orphans_are_not_dangling(
    plan: OrganizePlan,
    disk: Seq<Probe>,
    i: int,
    k: int,
)
    requires
        0 <= i < plan.file_orphans@.len(),
    ensures
        0 <= k < plan.moves@.len() && plan.moves@[k].to@ == plan.file_orphans@[i].path@
            ==> is_absorbed(plan, disk, i),
        0 <= k < plan.cover_moves@.len() && plan.cover_moves@[k].to@ == plan.file_orphans@[i].path@
            ==> is_absorbed(plan, disk, i),
        0 <= k < plan.copies@.len() && plan.copies@[k].to@ == plan.file_orphans@[i].path@
            ==> is_absorbed(plan, disk, i),
        plan.moves@.len() == 0 && plan.cover_moves@.len() == 0 && plan.copies@.len() == 0
            ==> !is_absorbed(plan, disk, i),
        is_absorbed(plan, disk, i) ==> dangling(plan, disk, i + 1) == dangling(plan, disk, i),
        !is_absorbed(plan, disk, i) ==> dangling(plan, disk, i + 1).len() == dangling(
            plan,
            disk,
            i,
        ).len() + 1 && dangling(plan, disk, i + 1).last().0 == plan.file_orphans@[i].path@,
{
    let d = destinations(plan);
    let p = plan.file_orphans@[i].path@;
    let m = plan.moves@.len() as int;
    let c = plan.cover_moves@.len() as int;
    if 0 <= k < m && plan.moves@[k].to@ == p {
        assert(d[k] == p);
        assert(share_form(disk, p, d[k]));
    }
    if 0 <= k < c && plan.cover_moves@[k].to@ == p {
        assert(d[m + k] == p);
        assert(share_form(disk, p, d[m + k]));
    }
    if 0 <= k < plan.copies@.len() && plan.copies@[k].to@ == p {
        assert(d[m + c + k] == p);
        assert(share_form(disk, p, d[m + c + k]));
    }
}

/// Moves are shown by directory: those within one directory as renames under
/// it, the others under the directory they leave and the one they go to.
pub proof fn law_moves_are_shown_by_directory(
    pairs: Seq<(Seq<char>, Seq<char>)>,
    from: Seq<char>,
    to: Seq<char>,
)
    ensures
        ({
            let n = pairs.len() as int;
            let all = pairs.push((from, to));
            let moved = seq![dir_text(from), dir_text(to)];
            if dir_text(from) == dir_text(to) {
                &&& dir_keys(all, true, n + 1) == dir_keys(pairs, true, n).push(
                    seq![dir_text(from)],
                )
                &&& dir_keys(all, false, n + 1) == dir_keys(pairs, false, n)
            } else {
                &&& dir_keys(all, false, n + 1) == dir_keys(pairs, false, n).push(moved)
                &&& dir_keys(all, true, n + 1) == dir_keys(pairs, true, n)
            }
        }),
{
    lemma_dir_keys_prefix(pairs, pairs.push((from, to)), true, pairs.len() as int);
    lemma_dir_keys_prefix(pairs, pairs.push((from, to)), false, pairs.len() as int);
}

proof fn lemma_dir_keys_prefix(
    a: Seq<(Seq<char>, Seq<char>)>,
    b: Seq<(Seq<char>, Seq<char>)>,
    renames: bool,
    n: int,
)
    requires
        n <= a.len(),
        n <= b.len(),
        forall|i: int| 0 <= i < n ==> a[i] == b[i],
    ensures
        dir_keys(a, renames, n) == dir_keys(b, renames, n),
    decreases n,
{
    if n > 0 {
        lemma_dir_keys_prefix(a, b, renames, n - 1);
    }
}

/// Every planned move is shown with where it comes from and where it goes,
/// tracks before covers.
pub proof fn law_moves_are_shown_with_both_ends(plan: OrganizePlan, k: int)
    ensures
        0 <= k < plan.moves@.len() ==> move_pairs(plan)[k] == (
            plan.moves@[k].from@,
            plan.moves@[k].to@,
        ),
        0 <= k < plan.cover_moves@.len() ==> move_pairs(plan)[plan.moves@.len() + k] == (
            plan.cover_moves@[k].from@,
            plan.cover_moves@[k].to@,
        ),
{
}


/// An orphan file is shown by artist and title, by the title alone, or by its
/// name, with its album behind where it has one.
pub proof fn law_orphans_are_shown_by_what_is_known(e: crate::organizer::FileOrphanEntry)
    ensures
        e.title is Some && e.artist is Some && e.album_title is None ==> orphan_label(e)
            == e.artist->0@ + " — "@ + e.title->0@,
        e.title is Some && e.artist is None && e.album_title is None ==> orphan_label(e)
            == e.title->0@,
        e.title is None && e.album_title is None && crate::paths::name_of_path(e.path@) is Some
            ==> orphan_label(e) == crate::paths::name_of_path(e.path@)->0,
        e.title is Some && e.artist is Some && e.album_title is Some && e.album_title->0@.len() > 0
            ==> orphan_label(e) == e.artist->0@ + " — "@ + e.title->0@ + " · "@
            + e.album_title->0@,
{
}

} // verus!
