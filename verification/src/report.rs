//! What the commands print, line by line.
use vstd::prelude::*;

use crate::cli::{album_context, clock, collection_notice, collection_parts, duration_text};
use crate::importer::ImportResult;
use crate::models::Track;
use crate::organize_apply::OrganizeResult;
use crate::organize_preview::{
    CollectionCopyGroup, CopyDetail, DetailPreview, DirMoveGroup, InPlaceRenameGroup, MoveDetail,
    OrphanDetail, SummaryPreview,
};
use crate::organizer::OrganizePlan;
use crate::player::PlayOutcome;
use crate::tagger::TagData;
use crate::text::{
    decimal, join_texts, joined_texts, number_text, opt_view, signed_decimal, signed_text, views,
};

verus! {

fn put(lines: &mut Vec<String>, line: String)
    ensures
        views(final(lines)@) == views(old(lines)@).push(line@),
{
    lines.push(line);
    assert(views(lines@) =~= views(old(lines)@).push(line@));
}

fn put_text(lines: &mut Vec<String>, line: &str)
    ensures
        views(final(lines)@) == views(old(lines)@).push(line@),
{
    put(lines, line.to_owned());
}

/// A label before a value.
fn labelled(label: &str, value: &str) -> (r: String)
    ensures
        r@ == label@ + value@,
{
    let mut s = label.to_owned();
    s.append(value);
    s
}

/// A label before a number.
fn counted(label: &str, n: u64) -> (r: String)
    ensures
        r@ == label@ + decimal(n as nat),
{
    labelled(label, number_text(n).as_str())
}

/// What went wrong, path by path, below a heading.
pub open spec fn error_lines(errors: Seq<(String, String)>) -> Seq<Seq<char>> {
    errors.map_values(|e: (String, String)| "  "@ + e.0@ + " — "@ + e.1@)
}

fn put_errors(lines: &mut Vec<String>, errors: &Vec<(String, String)>)
    ensures
        views(final(lines)@) == views(old(lines)@) + error_lines(errors@),
{
    let ghost start = views(lines@);
    let ghost all = error_lines(errors@);
    let n: usize = errors.len();
    let mut i: usize = 0;
    assert(start + all.take(0) =~= start);
    while i < n
        invariant
            i <= n,
            n == errors@.len(),
            all == error_lines(errors@),
            views(lines@) == start + all.take(i as int),
        decreases n - i,
    {
        let mut s = labelled("  ", errors[i].0.as_str());
        s.append(" — ");
        s.append(errors[i].1.as_str());
        put(lines, s);
        assert(all.take(i + 1) =~= all.take(i as int).push(all[i as int]));
        i += 1;
    }
    assert(all.take(n as int) =~= all);
}

// ---------------------------------------------------------------------------
// Organizing

/// Whether a plan leaves everything as it is.
pub fn nothing_to_organize(plan: &OrganizePlan) -> (r: bool)
    ensures
        r == (plan.moves@.len() == 0 && plan.copies@.len() == 0 && plan.cover_moves@.len() == 0
            && plan.missing_sources@.len() == 0),
{
    plan.moves.len() == 0 && plan.copies.len() == 0 && plan.cover_moves.len() == 0
        && plan.missing_sources.len() == 0
}

/// What becomes of the rows of missing files.
pub open spec fn fate(plan: OrganizePlan) -> Seq<char> {
    if plan.prune_blocked_reason is Some {
        "prune blocked — rows kept"@
    } else {
        "DB rows will be pruned"@
    }
}

fn fate_of(plan: &OrganizePlan) -> (r: &'static str)
    ensures
        r@ == fate(*plan),
{
    match plan.prune_blocked_reason {
        Some(_) => "prune blocked — rows kept",
        None => "DB rows will be pruned",
    }
}

/// The lines of one move.
pub open spec fn move_lines(m: MoveDetail) -> Seq<Seq<char>> {
    let target = if m.renamed {
        "    → to: "@ + m.to_dir@ + "/"@ + m.to_name@
    } else {
        "    → to: "@ + m.to_dir@
    };
    if m.overwrites_orphan {
        seq![
            "  "@ + m.from_name@ + "  ⟲ overwrites existing"@,
            "    from: "@ + m.from_dir@,
            target,
            "    note: replaces a file logged for cleanup during a prior dup-replace import"@,
        ]
    } else {
        seq!["  "@ + m.from_name@, "    from: "@ + m.from_dir@, target]
    }
}

/// The lines of the first `n` moves.
pub open spec fn moves_lines(ms: Seq<MoveDetail>, n: nat) -> Seq<Seq<char>>
    decreases n,
{
    if n == 0 {
        Seq::empty()
    } else {
        moves_lines(ms, (n - 1) as nat) + move_lines(ms[n - 1])
    }
}

/// The line of a collection copy.
pub open spec fn copy_line(c: CopyDetail) -> Seq<char> {
    "  "@ + c.name@ + " → "@ + c.to_dir@ + " (collection: "@ + c.collection_name@ + ")"@
}

/// The line of a row whose file is missing.
pub open spec fn missing_line(id: i64, title: Seq<char>, path: Seq<char>) -> Seq<char> {
    "  ["@ + signed_decimal(id as int) + "] "@ + title + " — "@ + path
}

/// Lines below a heading, with an empty line after them; nothing where there
/// are no lines.
pub open spec fn section(heading: Seq<char>, lines: Seq<Seq<char>>) -> Seq<Seq<char>> {
    if lines.len() == 0 { Seq::empty() } else { seq![heading] + lines + seq![""@] }
}

/// Every file of a plan.
pub open spec fn details_lines(plan: OrganizePlan, p: DetailPreview) -> Seq<Seq<char>> {
    section(
        "Moves ("@ + decimal(p.stats.moves_total as nat) + "):"@,
        moves_lines(p.moves@, p.moves@.len()),
    ) + section(
        "Collection copies ("@ + decimal(p.stats.copies_total as nat) + "):"@,
        p.copies@.map_values(|c: CopyDetail| copy_line(c)),
    ) + section(
        "Orphaned tracks ("@ + decimal(p.stats.orphans as nat) + " — "@ + fate(plan) + "):"@,
        p.orphans@.map_values(|o: OrphanDetail| missing_line(o.id, o.title@, o.path@)),
    )
}

fn put_move(lines: &mut Vec<String>, m: &MoveDetail)
    ensures
        views(final(lines)@) == views(old(lines)@) + move_lines(*m),
{
    let mut name = labelled("  ", m.from_name.as_str());
    if m.overwrites_orphan {
        name.append("  ⟲ overwrites existing");
    }
    put(lines, name);
    put(lines, labelled("    from: ", m.from_dir.as_str()));
    let mut target = labelled("    → to: ", m.to_dir.as_str());
    if m.renamed {
        target.append("/");
        target.append(m.to_name.as_str());
    }
    put(lines, target);
    if m.overwrites_orphan {
        put_text(
            lines,
            "    note: replaces a file logged for cleanup during a prior dup-replace import",
        );
    }
    assert(views(lines@) =~= views(old(lines)@) + move_lines(*m));
}

fn missing_text(id: i64, title: &str, path: &str) -> (r: String)
    ensures
        r@ == missing_line(id, title@, path@),
{
    let mut s = labelled("  [", signed_text(id).as_str());
    s.append("] ");
    s.append(title);
    s.append(" — ");
    s.append(path);
    s
}

proof fn lemma_moves_lines(ms: Seq<MoveDetail>, n: nat)
    ensures
        n <= moves_lines(ms, n).len(),
    decreases n,
{
    if n > 0 {
        lemma_moves_lines(ms, (n - 1) as nat);
    }
}

fn put_moves(lines: &mut Vec<String>, p: &DetailPreview)
    ensures
        views(final(lines)@) == views(old(lines)@) + section(
            "Moves ("@ + decimal(p.stats.moves_total as nat) + "):"@,
            moves_lines(p.moves@, p.moves@.len()),
        ),
{
    let n: usize = p.moves.len();
    proof {
        lemma_moves_lines(p.moves@, n as nat);
    }
    if n > 0 {
        let mut head = counted("Moves (", p.stats.moves_total as u64);
        head.append("):");
        put(lines, head);
        let ghost start = views(lines@);
        let mut i: usize = 0;
        assert(start + moves_lines(p.moves@, 0) =~= start);
        while i < n
            invariant
                i <= n,
                n == p.moves@.len(),
                views(lines@) == start + moves_lines(p.moves@, i as nat),
            decreases n - i,
        {
            put_move(lines, &p.moves[i]);
            assert(start + moves_lines(p.moves@, (i + 1) as nat) =~= (start + moves_lines(
                p.moves@,
                i as nat,
            )) + move_lines(p.moves@[i as int]));
            i += 1;
        }
        put_text(lines, "");
    }
    assert(views(lines@) =~= views(old(lines)@) + section(
        "Moves ("@ + decimal(p.stats.moves_total as nat) + "):"@,
        moves_lines(p.moves@, p.moves@.len()),
    ));
}

fn put_copies(lines: &mut Vec<String>, p: &DetailPreview)
    ensures
        views(final(lines)@) == views(old(lines)@) + section(
            "Collection copies ("@ + decimal(p.stats.copies_total as nat) + "):"@,
            p.copies@.map_values(|c: CopyDetail| copy_line(c)),
        ),
{
    let n: usize = p.copies.len();
    let ghost all = p.copies@.map_values(|c: CopyDetail| copy_line(c));
    if n > 0 {
        let mut head = counted("Collection copies (", p.stats.copies_total as u64);
        head.append("):");
        put(lines, head);
        let ghost start = views(lines@);
        let mut i: usize = 0;
        assert(start + all.take(0) =~= start);
        while i < n
            invariant
                i <= n,
                n == p.copies@.len(),
                all == p.copies@.map_values(|c: CopyDetail| copy_line(c)),
                views(lines@) == start + all.take(i as int),
            decreases n - i,
        {
            let mut s = labelled("  ", p.copies[i].name.as_str());
            s.append(" → ");
            s.append(p.copies[i].to_dir.as_str());
            s.append(" (collection: ");
            s.append(p.copies[i].collection_name.as_str());
            s.append(")");
            put(lines, s);
            assert(all.take(i + 1) =~= all.take(i as int).push(all[i as int]));
            i += 1;
        }
        assert(all.take(n as int) =~= all);
        put_text(lines, "");
    }
    assert(views(lines@) =~= views(old(lines)@) + section(
        "Collection copies ("@ + decimal(p.stats.copies_total as nat) + "):"@,
        all,
    ));
}

fn put_orphans(lines: &mut Vec<String>, plan: &OrganizePlan, p: &DetailPreview)
    ensures
        views(final(lines)@) == views(old(lines)@) + section(
            "Orphaned tracks ("@ + decimal(p.stats.orphans as nat) + " — "@ + fate(*plan) + "):"@,
            p.orphans@.map_values(|o: OrphanDetail| missing_line(o.id, o.title@, o.path@)),
        ),
{
    let n: usize = p.orphans.len();
    let ghost all = p.orphans@.map_values(|o: OrphanDetail| missing_line(o.id, o.title@, o.path@));
    if n > 0 {
        let mut head = counted("Orphaned tracks (", p.stats.orphans as u64);
        head.append(" — ");
        head.append(fate_of(plan));
        head.append("):");
        put(lines, head);
        let ghost start = views(lines@);
        let mut i: usize = 0;
        assert(start + all.take(0) =~= start);
        while i < n
            invariant
                i <= n,
                n == p.orphans@.len(),
                all == p.orphans@.map_values(
                    |o: OrphanDetail| missing_line(o.id, o.title@, o.path@),
                ),
                views(lines@) == start + all.take(i as int),
            decreases n - i,
        {
            let o = &p.orphans[i];
            put(lines, missing_text(o.id, o.title.as_str(), o.path.as_str()));
            assert(all.take(i + 1) =~= all.take(i as int).push(all[i as int]));
            i += 1;
        }
        assert(all.take(n as int) =~= all);
        put_text(lines, "");
    }
    assert(views(lines@) =~= views(old(lines)@) + section(
        "Orphaned tracks ("@ + decimal(p.stats.orphans as nat) + " — "@ + fate(*plan) + "):"@,
        all,
    ));
}

/// Lists every file of a plan.
pub fn plan_details(plan: &OrganizePlan, p: &DetailPreview) -> (r: Vec<String>)
    ensures
        views(r@) == details_lines(*plan, *p),
{
    let mut lines: Vec<String> = Vec::new();
    assert(views(lines@) =~= Seq::<Seq<char>>::empty());
    put_moves(&mut lines, p);
    put_copies(&mut lines, p);
    put_orphans(&mut lines, plan, p);
    assert(views(lines@) =~= details_lines(*plan, *p));
    lines
}

/// A number of files in brackets.
pub open spec fn files_line(dir: Seq<char>, count: nat) -> Seq<char> {
    "  "@ + dir + " ("@ + decimal(count) + " files)"@
}

fn files_text(dir: &str, count: usize) -> (r: String)
    ensures
        r@ == files_line(dir@, count as nat),
{
    let mut s = labelled("  ", dir);
    s.append(" (");
    s.append(number_text(count as u64).as_str());
    s.append(" files)");
    s
}

/// The lines of the first `n` groups of moves between directories.
pub open spec fn dir_moves_lines(gs: Seq<DirMoveGroup>, n: nat) -> Seq<Seq<char>>
    decreases n,
{
    if n == 0 {
        Seq::empty()
    } else {
        dir_moves_lines(gs, (n - 1) as nat) + seq![
            files_line(gs[n - 1].from_dir@, gs[n - 1].count as nat),
            "  → "@ + gs[n - 1].to_dir@,
            ""@,
        ]
    }
}

/// The line of the copies to a collection.
pub open spec fn copies_line(g: CollectionCopyGroup) -> Seq<char> {
    "  copy ("@ + decimal(g.count as nat) + " files) → collection: "@ + g.collection_name@
}

/// Up to ten missing files, and how many more there are.
pub open spec fn missing_lines(missing: Seq<(i64, String, String)>) -> Seq<Seq<char>> {
    let shown = missing.take(if missing.len() < 10 { missing.len() as int } else { 10 }).map_values(
        |m: (i64, String, String)| missing_line(m.0, m.2@, m.1@),
    );
    if missing.len() > 10 {
        shown.push("  … and "@ + decimal((missing.len() - 10) as nat) + " more"@)
    } else {
        shown
    }
}

/// A plan by directories.
pub open spec fn summary_lines(plan: OrganizePlan, p: SummaryPreview) -> Seq<Seq<char>> {
    let copies = p.collection_copies@.map_values(|g: CollectionCopyGroup| copies_line(g));
    dir_moves_lines(p.dir_moves@, p.dir_moves@.len()) + section(
        "renamed in place:"@,
        p.in_place_renames@.map_values(|g: InPlaceRenameGroup| files_line(g.dir@, g.count as nat)),
    ) + (if copies.len() > 0 { copies.push(""@) } else { copies }) + section(
        "Missing source files ("@ + decimal(plan.missing_sources@.len()) + " — "@ + fate(plan)
            + "):"@,
        missing_lines(plan.missing_sources@),
    )
}

fn put_dir_moves(lines: &mut Vec<String>, gs: &Vec<DirMoveGroup>)
    ensures
        views(final(lines)@) == views(old(lines)@) + dir_moves_lines(gs@, gs@.len()),
{
    let ghost start = views(lines@);
    let n: usize = gs.len();
    let mut i: usize = 0;
    assert(start + dir_moves_lines(gs@, 0) =~= start);
    while i < n
        invariant
            i <= n,
            n == gs@.len(),
            views(lines@) == start + dir_moves_lines(gs@, i as nat),
        decreases n - i,
    {
        put(lines, files_text(gs[i].from_dir.as_str(), gs[i].count));
        put(lines, labelled("  → ", gs[i].to_dir.as_str()));
        put_text(lines, "");
        assert(views(lines@) =~= start + dir_moves_lines(gs@, (i + 1) as nat));
        i += 1;
    }
}

fn put_renames(lines: &mut Vec<String>, gs: &Vec<InPlaceRenameGroup>)
    ensures
        views(final(lines)@) == views(old(lines)@) + section(
            "renamed in place:"@,
            gs@.map_values(|g: InPlaceRenameGroup| files_line(g.dir@, g.count as nat)),
        ),
{
    let n: usize = gs.len();
    let ghost all = gs@.map_values(|g: InPlaceRenameGroup| files_line(g.dir@, g.count as nat));
    if n > 0 {
        put_text(lines, "renamed in place:");
        let ghost start = views(lines@);
        let mut i: usize = 0;
        assert(start + all.take(0) =~= start);
        while i < n
            invariant
                i <= n,
                n == gs@.len(),
                all == gs@.map_values(
                    |g: InPlaceRenameGroup| files_line(g.dir@, g.count as nat),
                ),
                views(lines@) == start + all.take(i as int),
            decreases n - i,
        {
            put(lines, files_text(gs[i].dir.as_str(), gs[i].count));
            assert(all.take(i + 1) =~= all.take(i as int).push(all[i as int]));
            i += 1;
        }
        assert(all.take(n as int) =~= all);
        put_text(lines, "");
    }
    assert(views(lines@) =~= views(old(lines)@) + section("renamed in place:"@, all));
}

fn put_collections(lines: &mut Vec<String>, gs: &Vec<CollectionCopyGroup>)
    ensures
        ({
            let copies = gs@.map_values(|g: CollectionCopyGroup| copies_line(g));
            views(final(lines)@) == views(old(lines)@) + (if copies.len() > 0 {
                copies.push(""@)
            } else {
                copies
            })
        }),
{
    let n: usize = gs.len();
    let ghost start = views(lines@);
    let ghost all = gs@.map_values(|g: CollectionCopyGroup| copies_line(g));
    let mut i: usize = 0;
    assert(start + all.take(0) =~= start);
    while i < n
        invariant
            i <= n,
            n == gs@.len(),
            all == gs@.map_values(|g: CollectionCopyGroup| copies_line(g)),
            views(lines@) == start + all.take(i as int),
        decreases n - i,
    {
        let mut s = counted("  copy (", gs[i].count as u64);
        s.append(" files) → collection: ");
        s.append(gs[i].collection_name.as_str());
        put(lines, s);
        assert(all.take(i + 1) =~= all.take(i as int).push(all[i as int]));
        i += 1;
    }
    assert(all.take(n as int) =~= all);
    if n > 0 {
        put_text(lines, "");
        assert(start + all.push(""@) =~= (start + all).push(""@));
    }
}

fn put_missing(lines: &mut Vec<String>, plan: &OrganizePlan)
    ensures
        views(final(lines)@) == views(old(lines)@) + section(
            "Missing source files ("@ + decimal(plan.missing_sources@.len()) + " — "@ + fate(*plan)
                + "):"@,
            missing_lines(plan.missing_sources@),
        ),
{
    let missing = &plan.missing_sources;
    let n: usize = missing.len();
    let shown: usize = if n < 10 { n } else { 10 };
    let ghost all = missing@.take(shown as int).map_values(
        |m: (i64, String, String)| missing_line(m.0, m.2@, m.1@),
    );
    if n > 0 {
        let mut head = counted("Missing source files (", n as u64);
        head.append(" — ");
        head.append(fate_of(plan));
        head.append("):");
        put(lines, head);
        let ghost start = views(lines@);
        let mut i: usize = 0;
        assert(start + all.take(0) =~= start);
        while i < shown
            invariant
                i <= shown <= n,
                n == missing@.len(),
                missing == &plan.missing_sources,
                all == missing@.take(shown as int).map_values(
                    |m: (i64, String, String)| missing_line(m.0, m.2@, m.1@),
                ),
                views(lines@) == start + all.take(i as int),
            decreases shown - i,
        {
            put(lines, missing_text(missing[i].0, missing[i].2.as_str(), missing[i].1.as_str()));
            assert(all.take(i + 1) =~= all.take(i as int).push(all[i as int]));
            i += 1;
        }
        assert(all.take(shown as int) =~= all);
        if n > 10 {
            let mut more = counted("  … and ", (n - 10) as u64);
            more.append(" more");
            put(lines, more);
        }
        put_text(lines, "");
    }
    assert(views(lines@) =~= views(old(lines)@) + section(
        "Missing source files ("@ + decimal(plan.missing_sources@.len()) + " — "@ + fate(*plan)
            + "):"@,
        missing_lines(plan.missing_sources@),
    ));
}

/// Shows a plan by directories.
pub fn plan_summary(plan: &OrganizePlan, p: &SummaryPreview) -> (r: Vec<String>)
    ensures
        views(r@) == summary_lines(*plan, *p),
{
    let mut lines: Vec<String> = Vec::new();
    assert(views(lines@) =~= Seq::<Seq<char>>::empty());
    put_dir_moves(&mut lines, &p.dir_moves);
    put_renames(&mut lines, &p.in_place_renames);
    put_collections(&mut lines, &p.collection_copies);
    put_missing(&mut lines, plan);
    assert(views(lines@) =~= summary_lines(*plan, *p));
    lines
}

/// How many files a plan moves, as far as it can be counted.
pub open spec fn moved_total(plan: OrganizePlan) -> nat {
    let n = plan.moves@.len() + plan.cover_moves@.len();
    if n <= u64::MAX { n } else { u64::MAX as nat }
}

/// What a plan amounts to, and why rows are kept, if they are.
pub open spec fn totals_lines(plan: OrganizePlan) -> Seq<Seq<char>> {
    let line = decimal(moved_total(plan)) + " file(s) to move, "@ + decimal(plan.copies@.len())
        + " to copy, "@ + decimal(plan.skipped as nat) + " already in place, "@ + decimal(
        plan.missing_sources@.len(),
    ) + " orphaned"@;
    match plan.prune_blocked_reason {
        Some(reason) => seq![line, ""@, "⚠ "@ + reason@],
        None => seq![line],
    }
}

/// Shows what a plan amounts to.
pub fn plan_totals(plan: &OrganizePlan) -> (r: Vec<String>)
    ensures
        views(r@) == totals_lines(*plan),
{
    let moves: u64 = plan.moves.len() as u64;
    let covers: u64 = plan.cover_moves.len() as u64;
    let total: u64 = if moves > u64::MAX - covers { u64::MAX } else { moves + covers };
    let mut s = number_text(total);
    s.append(" file(s) to move, ");
    s.append(number_text(plan.copies.len() as u64).as_str());
    s.append(" to copy, ");
    s.append(number_text(plan.skipped as u64).as_str());
    s.append(" already in place, ");
    s.append(number_text(plan.missing_sources.len() as u64).as_str());
    s.append(" orphaned");
    let mut lines: Vec<String> = Vec::new();
    assert(views(lines@) =~= Seq::<Seq<char>>::empty());
    put(&mut lines, s);
    if let Some(reason) = &plan.prune_blocked_reason {
        put_text(&mut lines, "");
        put(&mut lines, labelled("⚠ ", reason.as_str()));
    }
    assert(views(lines@) =~= totals_lines(*plan));
    lines
}

/// What a run has done.
pub open spec fn done_lines(r: OrganizeResult) -> Seq<Seq<char>> {
    seq![
        "Done: "@ + decimal((r.moved + r.covers_moved) as nat) + " moved, "@ + decimal(
            r.copied as nat,
        ) + " copied, "@ + decimal(r.dirs_cleaned as nat) + " dirs cleaned, "@ + decimal(
            r.orphans_cleaned as nat,
        ) + " orphans pruned, "@ + decimal(r.file_orphans_removed as nat)
            + " orphan files deleted"@,
    ] + (match r.prune_blocked_reason {
        Some(reason) => seq!["⚠ "@ + reason@],
        None => Seq::empty(),
    }) + (if r.errors@.len() > 0 {
        seq!["Errors:"@] + error_lines(r.errors@)
    } else {
        Seq::empty()
    })
}

/// Shows what a run has done.
pub fn organize_done(r: &OrganizeResult) -> (out: Vec<String>)
    ensures
        views(out@) == done_lines(*r),
{
    let mut s = counted("Done: ", r.moved as u64 + r.covers_moved as u64);
    s.append(" moved, ");
    s.append(number_text(r.copied as u64).as_str());
    s.append(" copied, ");
    s.append(number_text(r.dirs_cleaned as u64).as_str());
    s.append(" dirs cleaned, ");
    s.append(number_text(r.orphans_cleaned as u64).as_str());
    s.append(" orphans pruned, ");
    s.append(number_text(r.file_orphans_removed as u64).as_str());
    s.append(" orphan files deleted");
    let mut lines: Vec<String> = Vec::new();
    assert(views(lines@) =~= Seq::<Seq<char>>::empty());
    put(&mut lines, s);
    if let Some(reason) = &r.prune_blocked_reason {
        put(&mut lines, labelled("⚠ ", reason.as_str()));
    }
    if r.errors.len() > 0 {
        put_text(&mut lines, "Errors:");
        put_errors(&mut lines, &r.errors);
    }
    assert(views(lines@) =~= done_lines(*r));
    lines
}

// ---------------------------------------------------------------------------
// Importing and playing

/// What is said of the collection that an import added to, if anything is.
pub open spec fn collection_lines(name: Option<Seq<char>>, t: ImportResult) -> Seq<Seq<char>> {
    match name {
        Some(name) if t.imported > 0 || t.added_to_collection > 0 => seq![
            (if t.collection_created { "Collection created"@ } else { "Collection"@ }) + ": "@ + name
                + " ("@ + joined_texts(
                collection_parts(t.imported, t.added_to_collection),
                ", "@,
            ) + ")"@,
        ],
        _ => Seq::empty(),
    }
}

/// What an import has done.
pub open spec fn import_lines(name: Option<Seq<char>>, t: ImportResult) -> Seq<Seq<char>> {
    seq![""@] + (if t.albums_created > 0 {
        seq!["Albums created: "@ + decimal(t.albums_created as nat)]
    } else {
        Seq::empty()
    }) + (if t.albums_existing > 0 {
        seq!["Added to existing albums: "@ + decimal(t.albums_existing as nat)]
    } else {
        Seq::empty()
    }) + collection_lines(name, t) + seq![
        "Import complete: "@ + decimal(t.imported as nat) + " imported, "@ + decimal(
            t.skipped_duplicate as nat,
        ) + " skipped (duplicate), "@ + decimal(t.skipped_non_utf8 as nat)
            + " skipped (non-UTF-8 filename — rename to import), "@ + decimal(
            t.skipped_error as nat,
        ) + " errors"@,
    ] + (if t.errors@.len() > 0 {
        seq![""@, "Errors:"@] + error_lines(t.errors@)
    } else {
        Seq::empty()
    })
}

/// Shows what an import has done.
pub fn import_done(collection: &Option<String>, t: &ImportResult) -> (r: Vec<String>)
    ensures
        views(r@) == import_lines(opt_view(*collection), *t),
{
    let mut lines: Vec<String> = Vec::new();
    assert(views(lines@) =~= Seq::<Seq<char>>::empty());
    put_text(&mut lines, "");
    if t.albums_created > 0 {
        put(&mut lines, counted("Albums created: ", t.albums_created as u64));
    }
    if t.albums_existing > 0 {
        put(&mut lines, counted("Added to existing albums: ", t.albums_existing as u64));
    }
    if let Some(name) = collection {
        if let Some(notice) = collection_notice(name.as_str(), t) {
            put(&mut lines, notice);
        }
    }
    let mut s = counted("Import complete: ", t.imported as u64);
    s.append(" imported, ");
    s.append(number_text(t.skipped_duplicate as u64).as_str());
    s.append(" skipped (duplicate), ");
    s.append(number_text(t.skipped_non_utf8 as u64).as_str());
    s.append(" skipped (non-UTF-8 filename — rename to import), ");
    s.append(number_text(t.skipped_error as u64).as_str());
    s.append(" errors");
    put(&mut lines, s);
    if t.errors.len() > 0 {
        put_text(&mut lines, "");
        put_text(&mut lines, "Errors:");
        put_errors(&mut lines, &t.errors);
    }
    assert(views(lines@) =~= import_lines(opt_view(*collection), *t));
    lines
}

/// What a scan of the inbox directories found.
pub open spec fn scan_lines(files: Seq<Seq<char>>) -> Seq<Seq<char>> {
    if files.len() == 0 {
        seq!["No new files found in inbox directories."@]
    } else {
        seq!["Found "@ + decimal(files.len()) + " unimported file(s):"@] + files.map_values(
            |f: Seq<char>| "  "@ + f,
        ) + seq![""@, "Run `kyoku import <path>` to import them."@]
    }
}

/// Shows what a scan of the inbox directories found.
pub fn scan_done(files: &Vec<String>) -> (r: Vec<String>)
    ensures
        views(r@) == scan_lines(views(files@)),
{
    let mut lines: Vec<String> = Vec::new();
    assert(views(lines@) =~= Seq::<Seq<char>>::empty());
    let n: usize = files.len();
    if n == 0 {
        put_text(&mut lines, "No new files found in inbox directories.");
        assert(views(lines@) =~= scan_lines(views(files@)));
        return lines;
    }
    let mut head = counted("Found ", n as u64);
    head.append(" unimported file(s):");
    put(&mut lines, head);
    let ghost start = views(lines@);
    let ghost all = views(files@).map_values(|f: Seq<char>| "  "@ + f);
    let mut i: usize = 0;
    assert(start + all.take(0) =~= start);
    while i < n
        invariant
            i <= n,
            n == files@.len(),
            all == views(files@).map_values(|f: Seq<char>| "  "@ + f),
            views(lines@) == start + all.take(i as int),
        decreases n - i,
    {
        put(&mut lines, labelled("  ", files[i].as_str()));
        assert(all.take(i + 1) =~= all.take(i as int).push(all[i as int]));
        i += 1;
    }
    assert(all.take(n as int) =~= all);
    put_text(&mut lines, "");
    put_text(&mut lines, "Run `kyoku import <path>` to import them.");
    assert(views(lines@) =~= scan_lines(views(files@)));
    lines
}

/// The album that a title stands for.
#[derive(Debug)]
pub enum AlbumChoice {
    Unknown,
    /// One album, by id, with what it is called.
    One(i64, String),
    /// Several albums, each with artist and title.
    Several(Vec<String>),
}

/// How an album is told from others of its title.
pub open spec fn album_line(title: Seq<char>, artist: Option<Seq<char>>) -> Seq<char> {
    "  "@ + (match artist {
        Some(a) => a,
        None => "(unknown)"@,
    }) + " — "@ + title
}

/// Chooses among the albums of a title.
pub fn choose_album(found: &Vec<(i64, String, Option<String>)>) -> (r: AlbumChoice)
    ensures
        match r {
            AlbumChoice::Unknown => found@.len() == 0,
            AlbumChoice::One(id, context) => found@.len() == 1 && id == found@[0].0 && context@ == (
            match opt_view(found@[0].2) {
                Some(a) => if a.len() > 0 { a + " — "@ + found@[0].1@ } else { found@[0].1@ },
                None => found@[0].1@,
            }),
            AlbumChoice::Several(lines) => found@.len() > 1 && views(lines@) == found@.map_values(
                |f: (i64, String, Option<String>)| album_line(f.1@, opt_view(f.2)),
            ),
        },
{
    let n: usize = found.len();
    if n == 0 {
        return AlbumChoice::Unknown;
    }
    if n == 1 {
        return AlbumChoice::One(found[0].0, album_context(found[0].1.as_str(), &found[0].2));
    }
    let mut lines: Vec<String> = Vec::new();
    let ghost all = found@.map_values(
        |f: (i64, String, Option<String>)| album_line(f.1@, opt_view(f.2)),
    );
    let mut i: usize = 0;
    assert(views(lines@) =~= all.take(0));
    while i < n
        invariant
            i <= n,
            n == found@.len(),
            all == found@.map_values(
                |f: (i64, String, Option<String>)| album_line(f.1@, opt_view(f.2)),
            ),
            views(lines@) == all.take(i as int),
        decreases n - i,
    {
        let artist = match &found[i].2 {
            Some(a) => a.as_str(),
            None => "(unknown)",
        };
        let mut s = labelled("  ", artist);
        s.append(" — ");
        s.append(found[i].1.as_str());
        put(&mut lines, s);
        assert(all.take(i + 1) =~= all.take(i as int).push(all[i as int]));
        i += 1;
    }
    assert(all.take(n as int) =~= all);
    AlbumChoice::Several(lines)
}

/// What would be started.
pub open spec fn dry_run_lines(o: PlayOutcome) -> Seq<Seq<char>> {
    seq!["player:   "@ + o.player_label@, "argv:     "@ + joined_texts(views(o.argv@), " "@)]
        + (match o.playlist_path {
        Some(p) => seq!["playlist: "@ + p@],
        None => Seq::empty(),
    }) + seq![
        "items:    "@ + decimal(o.played as nat) + " playable, "@ + decimal(o.skipped_missing as nat)
            + " skipped (missing)"@,
    ]
}

/// Shows what would be started.
pub fn play_preview(o: &PlayOutcome) -> (r: Vec<String>)
    ensures
        views(r@) == dry_run_lines(*o),
{
    let mut lines: Vec<String> = Vec::new();
    assert(views(lines@) =~= Seq::<Seq<char>>::empty());
    put(&mut lines, labelled("player:   ", o.player_label.as_str()));
    put(&mut lines, labelled("argv:     ", join_texts(&o.argv, " ").as_str()));
    if let Some(p) = &o.playlist_path {
        put(&mut lines, labelled("playlist: ", p.as_str()));
    }
    let mut s = counted("items:    ", o.played as u64);
    s.append(" playable, ");
    s.append(number_text(o.skipped_missing as u64).as_str());
    s.append(" skipped (missing)");
    put(&mut lines, s);
    assert(views(lines@) =~= dry_run_lines(*o));
    lines
}

/// What was started.
pub open spec fn playing_lines(o: PlayOutcome, context: Seq<char>) -> Seq<Seq<char>> {
    seq![
        "Playing: "@ + context + " ("@ + decimal(o.played as nat) + " track"@ + (if o.played == 1 {
            ""@
        } else {
            "s"@
        }) + ") via "@ + o.player_label@,
    ] + (if o.skipped_missing > 0 {
        seq!["  ("@ + decimal(o.skipped_missing as nat) + " skipped: files missing)"@]
    } else {
        Seq::empty()
    })
}

/// Shows what was started.
pub fn playing(o: &PlayOutcome, context: &str) -> (r: Vec<String>)
    ensures
        views(r@) == playing_lines(*o, context@),
{
    let mut s = labelled("Playing: ", context);
    s.append(" (");
    s.append(number_text(o.played as u64).as_str());
    s.append(" track");
    s.append(
        if o.played == 1 {
            ""
        } else {
            "s"
        },
    );
    s.append(") via ");
    s.append(o.player_label.as_str());
    let mut lines: Vec<String> = Vec::new();
    assert(views(lines@) =~= Seq::<Seq<char>>::empty());
    put(&mut lines, s);
    if o.skipped_missing > 0 {
        let mut more = counted("  (", o.skipped_missing as u64);
        more.append(" skipped: files missing)");
        put(&mut lines, more);
    }
    assert(views(lines@) =~= playing_lines(*o, context@));
    lines
}

// ---------------------------------------------------------------------------
// Files and directories

/// A text, or that there is none.
pub open spec fn or_none(o: Option<Seq<char>>) -> Seq<char> {
    match o {
        Some(s) => s,
        None => "(none)"@,
    }
}

/// A number, or that there is none.
pub open spec fn number_or_none(o: Option<u32>) -> Seq<char> {
    match o {
        Some(n) => decimal(n as nat),
        None => "(none)"@,
    }
}

fn text_or_none(label: &str, o: &Option<String>) -> (r: String)
    ensures
        r@ == label@ + or_none(opt_view(*o)),
{
    match o {
        Some(s) => labelled(label, s.as_str()),
        None => labelled(label, "(none)"),
    }
}

fn count_or_none(label: &str, o: Option<u32>) -> (r: String)
    ensures
        r@ == label@ + number_or_none(o),
{
    match o {
        Some(n) => counted(label, n as u64),
        None => labelled(label, "(none)"),
    }
}

/// What is known of a file.
pub open spec fn info_lines(t: Track, tags: Option<TagData>) -> Seq<Seq<char>> {
    seq![
        "File:        "@ + t.file_path@,
        "Format:      "@ + t.file_format.text(),
        "Title:       "@ + t.title@,
        "Artist:      "@ + or_none(opt_view(t.artist)),
    ] + (match tags {
        Some(d) => seq![
            "Album:       "@ + or_none(opt_view(d.album)),
            "Album Artist: "@ + or_none(opt_view(d.album_artist)),
            "Year:        "@ + number_or_none(d.year),
            "Genre:       "@ + or_none(opt_view(d.genre)),
        ],
        None => Seq::empty(),
    }) + seq![
        "Track:       "@ + number_or_none(t.track_number),
        "Disc:        "@ + decimal(t.disc_number as nat),
    ] + (match t.duration_ms {
        Some(ms) => seq!["Duration:    "@ + clock(ms as nat)],
        None => Seq::empty(),
    }) + (match t.bitrate {
        Some(b) => seq!["Bitrate:     "@ + decimal(b as nat) + " kbps"@],
        None => Seq::empty(),
    }) + (match t.sample_rate {
        Some(s) => seq!["Sample Rate: "@ + decimal(s as nat) + " Hz"@],
        None => Seq::empty(),
    }) + seq!["Status:      "@ + t.tag_status.text()]
}

/// Shows what is known of a file.
pub fn info(t: &Track, tags: &Option<TagData>) -> (r: Vec<String>)
    ensures
        views(r@) == info_lines(*t, *tags),
{
    let mut lines: Vec<String> = Vec::new();
    assert(views(lines@) =~= Seq::<Seq<char>>::empty());
    put(&mut lines, labelled("File:        ", t.file_path.as_str()));
    put(&mut lines, labelled("Format:      ", t.file_format.as_str()));
    put(&mut lines, labelled("Title:       ", t.title.as_str()));
    put(&mut lines, text_or_none("Artist:      ", &t.artist));
    if let Some(d) = tags {
        put(&mut lines, text_or_none("Album:       ", &d.album));
        put(&mut lines, text_or_none("Album Artist: ", &d.album_artist));
        put(&mut lines, count_or_none("Year:        ", d.year));
        put(&mut lines, text_or_none("Genre:       ", &d.genre));
    }
    put(&mut lines, count_or_none("Track:       ", t.track_number));
    put(&mut lines, counted("Disc:        ", t.disc_number as u64));
    if let Some(ms) = t.duration_ms {
        put(&mut lines, labelled("Duration:    ", duration_text(ms).as_str()));
    }
    if let Some(b) = t.bitrate {
        let mut s = counted("Bitrate:     ", b as u64);
        s.append(" kbps");
        put(&mut lines, s);
    }
    if let Some(rate) = t.sample_rate {
        let mut s = counted("Sample Rate: ", rate as u64);
        s.append(" Hz");
        put(&mut lines, s);
    }
    put(&mut lines, labelled("Status:      ", t.tag_status.as_str()));
    assert(views(lines@) =~= info_lines(*t, *tags));
    lines
}

/// Where things are.
pub open spec fn paths_lines(
    config: Seq<char>,
    db: Seq<char>,
    cache: Seq<char>,
    music: Seq<char>,
    inboxes: Seq<Seq<char>>,
) -> Seq<Seq<char>> {
    seq![
        "config:   "@ + config,
        "database: "@ + db,
        "cache:    "@ + cache,
        "music:    "@ + music,
        "inboxes:  "@ + (if inboxes.len() == 0 { "(none)"@ } else { joined_texts(inboxes, ", "@) }),
    ]
}

/// What is amiss with the configuration file.
pub open spec fn config_lines(error: Option<Seq<char>>, there: bool) -> Seq<Seq<char>> {
    match error {
        Some(e) => seq![
            ""@,
            "(config file exists but could not be read: "@ + e
                + " — run `kyoku setup` to repair it)"@,
        ],
        None => if there {
            Seq::empty()
        } else {
            seq![""@, "(config file does not exist yet — using defaults)"@]
        },
    }
}

/// Shows where things are.
pub fn paths(
    config: &str,
    db: &str,
    cache: &str,
    music: &str,
    inboxes: &Vec<String>,
    error: &Option<String>,
    there: bool,
) -> (r: Vec<String>)
    ensures
        views(r@) == paths_lines(config@, db@, cache@, music@, views(inboxes@)) + config_lines(
            opt_view(*error),
            there,
        ),
{
    let mut lines: Vec<String> = Vec::new();
    assert(views(lines@) =~= Seq::<Seq<char>>::empty());
    put(&mut lines, labelled("config:   ", config));
    put(&mut lines, labelled("database: ", db));
    put(&mut lines, labelled("cache:    ", cache));
    put(&mut lines, labelled("music:    ", music));
    if inboxes.len() == 0 {
        put_text(&mut lines, "inboxes:  (none)");
        proof {
            reveal_strlit("inboxes:  (none)");
            reveal_strlit("inboxes:  ");
            reveal_strlit("(none)");
            assert("inboxes:  (none)"@ =~= "inboxes:  "@ + "(none)"@);
        }
    } else {
        put(&mut lines, labelled("inboxes:  ", join_texts(inboxes, ", ").as_str()));
    }
    match error {
        Some(e) => {
            put_text(&mut lines, "");
            let mut s = labelled("(config file exists but could not be read: ", e.as_str());
            s.append(" — run `kyoku setup` to repair it)");
            put(&mut lines, s);
        },
        None => {
            if !there {
                put_text(&mut lines, "");
                put_text(&mut lines, "(config file does not exist yet — using defaults)");
            }
        },
    }
    assert(views(lines@) =~= paths_lines(config@, db@, cache@, music@, views(inboxes@))
        + config_lines(opt_view(*error), there));
    lines
}


/// Of the missing files ten are shown, in order, and how many more there are.
pub proof fn law_ten_missing_files_are_shown(missing: Seq<(i64, String, String)>, k: int)
    ensures
        missing.len() <= 10 ==> missing_lines(missing).len() == missing.len(),
        missing.len() > 10 ==> missing_lines(missing).len() == 11 && missing_lines(missing)[10]
            == "  … and "@ + decimal((missing.len() - 10) as nat) + " more"@,
        0 <= k < missing.len() && k < 10 ==> missing_lines(missing)[k] == "  ["@ + signed_decimal(
            missing[k].0 as int,
        ) + "] "@ + missing[k].2@ + " — "@ + missing[k].1@,
{
    let n = if missing.len() < 10 { missing.len() as int } else { 10 };
    let shown = missing.take(n).map_values(
        |m: (i64, String, String)| missing_line(m.0, m.2@, m.1@),
    );
    if 0 <= k < missing.len() && k < 10 {
        assert(shown[k] == missing_line(missing[k].0, missing[k].2@, missing[k].1@));
        assert(missing_lines(missing)[k] == shown[k]);
    }
}

proof fn lemma_moves_lines_add(a: Seq<MoveDetail>, b: Seq<MoveDetail>, n: nat)
    requires
        n <= b.len(),
    ensures
        moves_lines(a + b, a.len() + n) == moves_lines(a, a.len()) + moves_lines(b, n),
    decreases n,
{
    let whole = moves_lines(a, a.len());
    if n == 0 {
        lemma_moves_lines_prefix(a, a + b, a.len());
        assert(whole + moves_lines(b, 0) =~= whole);
    } else {
        lemma_moves_lines_add(a, b, (n - 1) as nat);
        assert((a + b)[a.len() + n - 1] == b[n - 1]);
        assert(whole + moves_lines(b, (n - 1) as nat) + move_lines(b[n - 1]) =~= whole + (
        moves_lines(b, (n - 1) as nat) + move_lines(b[n - 1])));
    }
}

proof fn lemma_moves_lines_prefix(a: Seq<MoveDetail>, b: Seq<MoveDetail>, n: nat)
    requires
        n <= a.len(),
        n <= b.len(),
        forall|i: int| 0 <= i < n ==> a[i] == b[i],
    ensures
        moves_lines(a, n) == moves_lines(b, n),
    decreases n,
{
    if n > 0 {
        lemma_moves_lines_prefix(a, b, (n - 1) as nat);
    }
}

/// Moves are listed in order: each with its name, where it comes from and
/// where it goes, with the new name where it gets one.
pub proof fn law_moves_are_listed_in_order(
    a: Seq<MoveDetail>,
    b: Seq<MoveDetail>,
    m: MoveDetail,
)
    ensures
        moves_lines(a + b, (a + b).len()) == moves_lines(a, a.len()) + moves_lines(b, b.len()),
        !m.overwrites_orphan && !m.renamed ==> moves_lines(seq![m], 1) == seq![
            "  "@ + m.from_name@,
            "    from: "@ + m.from_dir@,
            "    → to: "@ + m.to_dir@,
        ],
        !m.overwrites_orphan && m.renamed ==> moves_lines(seq![m], 1) == seq![
            "  "@ + m.from_name@,
            "    from: "@ + m.from_dir@,
            "    → to: "@ + m.to_dir@ + "/"@ + m.to_name@,
        ],
        m.overwrites_orphan ==> moves_lines(seq![m], 1).len() == 4,
{
    lemma_moves_lines_add(a, b, b.len());
    let none = Seq::<Seq<char>>::empty();
    assert(moves_lines(seq![m], 0) =~= none);
    assert(moves_lines(seq![m], 1) =~= move_lines(m));
}


/// The totals of a plan name what moves, what is copied, what is in place and
/// what is missing, in this order; a plan that keeps its rows says why.
pub proof fn law_totals_name_each_number(plan: OrganizePlan)
    requires
        plan.moves@.len() + plan.cover_moves@.len() <= u64::MAX,
    ensures
        totals_lines(plan)[0] == decimal(plan.moves@.len() + plan.cover_moves@.len())
            + " file(s) to move, "@ + decimal(plan.copies@.len()) + " to copy, "@ + decimal(
            plan.skipped as nat,
        ) + " already in place, "@ + decimal(plan.missing_sources@.len()) + " orphaned"@,
        plan.prune_blocked_reason is None ==> totals_lines(plan).len() == 1,
        plan.prune_blocked_reason is Some ==> totals_lines(plan).len() == 3 && totals_lines(
            plan,
        ).last() == "⚠ "@ + plan.prune_blocked_reason->0@,
{
}

/// An import ends with what was imported, what was known, what could not be
/// named and what failed, in this order, and then each error.
pub proof fn law_imports_report_each_number(name: Option<Seq<char>>, t: ImportResult)
    ensures
        ({
            let line = "Import complete: "@ + decimal(t.imported as nat) + " imported, "@ + decimal(
                t.skipped_duplicate as nat,
            ) + " skipped (duplicate), "@ + decimal(t.skipped_non_utf8 as nat)
                + " skipped (non-UTF-8 filename — rename to import), "@ + decimal(
                t.skipped_error as nat,
            ) + " errors"@;
            let r = import_lines(name, t);
            let n = t.errors@.len();
            &&& n == 0 ==> r.last() == line
            &&& n > 0 ==> r.len() >= n + 3 && r[r.len() - n - 3] == line && r[r.len() - n - 1]
                == "Errors:"@
            &&& forall|k: int|
                0 <= k < n ==> r[r.len() - n + k] == "  "@ + (#[trigger] t.errors@[k]).0@ + " — "@
                    + t.errors@[k].1@
        }),
{
    let r = import_lines(name, t);
    let n = t.errors@.len();
    if n > 0 {
        let tail = seq![""@, "Errors:"@] + error_lines(t.errors@);
        assert forall|k: int| 0 <= k < n implies r[r.len() - n + k] == "  "@ + (
        #[trigger] t.errors@[k]).0@ + " — "@ + t.errors@[k].1@ by {
            assert(tail[2 + k] == error_lines(t.errors@)[k]);
            assert(r[r.len() - n + k] == tail[2 + k]);
        }
    }
}

/// What is played is announced with its number of tracks, one of them without
/// a plural, and what is missing with its own.
pub proof fn law_playing_names_the_number_of_tracks(o: PlayOutcome, context: Seq<char>)
    ensures
        o.played == 1 ==> playing_lines(o, context)[0] == "Playing: "@ + context + " ("@ + decimal(1)
            + " track"@ + ""@ + ") via "@ + o.player_label@,
        o.played != 1 ==> playing_lines(o, context)[0] == "Playing: "@ + context + " ("@ + decimal(
            o.played as nat,
        ) + " track"@ + "s"@ + ") via "@ + o.player_label@,
        o.skipped_missing == 0 ==> playing_lines(o, context).len() == 1,
        o.skipped_missing > 0 ==> playing_lines(o, context).len() == 2 && playing_lines(o, context)[1]
            == "  ("@ + decimal(o.skipped_missing as nat) + " skipped: files missing)"@,
{
}

} // verus!
